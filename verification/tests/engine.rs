//! End-to-end tests: queries built from string pairs evaluated against
//! records, clause matching, ordering, pagination, and table width
//! resolution.

use standout::clause_matches;
use standout::parse_query;
use standout::ClauseValue;
use standout::Column;
use standout::Decimal;
use standout::Number;
use standout::Op;
use standout::Seekable;
use standout::SeekType;
use standout::SeekerSchema;
use standout::TableSpec;
use standout::Timestamp;
use standout::Value;
use standout::Width;

/// A task record with a name, a priority, and a done flag.
struct Task {
    name: &'static str,
    priority: i64,
    done: bool,
}

impl Seekable for Task {
    fn field_value(&self, field: &str) -> Value {
        match field {
            "name" => Value::String(self.name.to_string()),
            "priority" => Value::Number(Number::I64(self.priority)),
            "done" => Value::Bool(self.done),
            _ => Value::Null,
        }
    }
}

struct TaskSchema;

impl SeekerSchema for TaskSchema {
    fn field_type(field: &str) -> Option<SeekType> {
        match field {
            "name" => Some(SeekType::String),
            "priority" => Some(SeekType::Number),
            "done" => Some(SeekType::Bool),
            "a" => Some(SeekType::Number),
            _ => None,
        }
    }

    fn field_names() -> Vec<String> {
        vec![
            "name".to_string(),
            "priority".to_string(),
            "done".to_string(),
            "a".to_string(),
        ]
    }
}

/// A record with a single numeric field `a`.
struct ARec {
    a: i64,
}

impl Seekable for ARec {
    fn field_value(&self, field: &str) -> Value {
        if field == "a" {
            Value::Number(Number::I64(self.a))
        } else {
            Value::Null
        }
    }
}

fn pairs(xs: &[(&str, &str)]) -> Vec<(String, String)> {
    xs.iter().map(|(k, v)| (k.to_string(), v.to_string())).collect()
}

#[test]
fn end_to_end_contains_and_gte() {
    let query = parse_query::<TaskSchema>(pairs(&[
        ("name-contains", "urgent"),
        ("priority-gte", "3"),
    ]))
    .unwrap();

    let hit = Task { name: "very urgent task", priority: 5, done: false };
    let miss = Task { name: "calm task", priority: 5, done: false };
    assert!(query.matches_record(&hit));
    assert!(!query.matches_record(&miss));
}

#[test]
fn end_to_end_bare_flag_equals_explicit_true() {
    let bare = parse_query::<TaskSchema>(pairs(&[("done", "")])).unwrap();
    let explicit = parse_query::<TaskSchema>(pairs(&[("done", "true")])).unwrap();

    let done_task = Task { name: "x", priority: 0, done: true };
    let open_task = Task { name: "x", priority: 0, done: false };

    assert_eq!(bare.matches_record(&done_task), explicit.matches_record(&done_task));
    assert_eq!(bare.matches_record(&open_task), explicit.matches_record(&open_task));
    assert!(bare.matches_record(&done_task));
    assert!(!bare.matches_record(&open_task));
}

#[test]
fn end_to_end_unknown_field_error_names_field() {
    let result = parse_query::<TaskSchema>(pairs(&[("bogus-eq", "1")]));
    match result {
        Err(standout::ParseError::UnknownField { field, available }) => {
            assert_eq!(field, "bogus");
            assert!(available.contains(&"name".to_string()));
        }
        other => panic!("expected UnknownField, got {:?}", other.is_ok()),
    }
}

#[test]
fn end_to_end_or_group_marker() {
    let query = parse_query::<TaskSchema>(pairs(&[
        ("a-eq", "1"),
        ("OR", ""),
        ("a-eq", "2"),
    ]))
    .unwrap();

    assert!(query.matches_record(&ARec { a: 1 }));
    assert!(query.matches_record(&ARec { a: 2 }));
    assert!(!query.matches_record(&ARec { a: 3 }));
}

#[test]
fn end_to_end_not_group_marker() {
    let query = parse_query::<TaskSchema>(pairs(&[
        ("NOT", ""),
        ("a-eq", "1"),
    ]))
    .unwrap();

    assert!(!query.matches_record(&ARec { a: 1 }));
    assert!(query.matches_record(&ARec { a: 2 }));
}

#[test]
fn markers_and_pagination_alone_give_the_empty_filter() {
    // Only group markers and special keys: every record passes the filter.
    let query = parse_query::<TaskSchema>(pairs(&[
        ("OR", ""),
        ("NOT", "ignored"),
        ("limit", "2"),
        ("limit", "3"),
        ("offset", "1"),
    ]))
    .unwrap();

    let records = vec![
        Task { name: "a", priority: 1, done: false },
        Task { name: "b", priority: 2, done: false },
        Task { name: "c", priority: 3, done: false },
    ];
    // count only filters; the last limit write (3) and the offset shape run.
    assert_eq!(query.count(&records), 3);
    assert_eq!(query.run(&records), vec![1, 2]);
}

#[test]
fn end_to_end_run_orders_and_paginates() {
    let query = parse_query::<TaskSchema>(pairs(&[
        ("priority-gte", "1"),
        ("order", "priority-desc"),
        ("limit", "2"),
        ("offset", "1"),
    ]))
    .unwrap();

    let records = vec![
        Task { name: "a", priority: 1, done: false },
        Task { name: "b", priority: 5, done: false },
        Task { name: "c", priority: 3, done: false },
        Task { name: "d", priority: 0, done: false },
        Task { name: "e", priority: 4, done: false },
    ];
    // Sorted by priority descending: b(5), e(4), c(3), a(1); skip 1, take 2.
    let idxs = query.run(&records);
    assert_eq!(idxs, vec![4, 2]);
}

#[test]
fn end_to_end_run_is_stable_for_equal_keys() {
    let query = parse_query::<TaskSchema>(pairs(&[
        ("priority-gte", "0"),
        ("order", "priority-desc"),
    ]))
    .unwrap();

    let records = vec![
        Task { name: "first", priority: 2, done: false },
        Task { name: "second", priority: 2, done: false },
        Task { name: "third", priority: 2, done: false },
    ];
    // Equal keys keep their original order.
    let idxs = query.run(&records);
    assert_eq!(idxs, vec![0, 1, 2]);
}

#[test]
fn end_to_end_count_filters_only() {
    let query = parse_query::<TaskSchema>(pairs(&[
        ("priority-gte", "3"),
        ("limit", "1"),
    ]))
    .unwrap();

    let records = vec![
        Task { name: "a", priority: 5, done: false },
        Task { name: "b", priority: 4, done: false },
        Task { name: "c", priority: 1, done: false },
    ];
    // count ignores the limit: it only filters.
    assert_eq!(query.count(&records), 2);
}

#[test]
fn regex_clause_matches_through_query() {
    let query = parse_query::<TaskSchema>(pairs(&[("name-regex", "^ur.*t$")])).unwrap();
    assert!(query.matches_record(&Task { name: "urgent", priority: 0, done: false }));
    assert!(!query.matches_record(&Task { name: "current", priority: 0, done: false }));
}

#[test]
fn clause_matching_string_operators() {
    let v = Value::String("hello world".to_string());
    let p = ClauseValue::String("hello".to_string());
    assert!(clause_matches(&v, Op::StartsWith, &p));
    assert!(!clause_matches(&v, Op::EndsWith, &p));
    assert!(clause_matches(&v, Op::Contains, &p));
    assert!(!clause_matches(&v, Op::Eq, &p));
    assert!(clause_matches(&v, Op::Ne, &p));
}

#[test]
fn clause_matching_timestamps() {
    let v = Value::Timestamp(Timestamp(1000));
    assert!(clause_matches(&v, Op::Before, &ClauseValue::Timestamp(Timestamp(2000))));
    assert!(!clause_matches(&v, Op::After, &ClauseValue::Timestamp(Timestamp(2000))));
    assert!(clause_matches(&v, Op::Eq, &ClauseValue::Timestamp(Timestamp(1000))));
}

#[test]
fn clause_matching_enum_membership() {
    let v = Value::Enum(1);
    assert!(clause_matches(&v, Op::In, &ClauseValue::EnumSet(vec![0, 1])));
    assert!(!clause_matches(&v, Op::In, &ClauseValue::EnumSet(vec![0, 2])));
}

#[test]
fn clause_matching_type_mismatch_never_faults() {
    let v = Value::String("5".to_string());
    assert!(!clause_matches(&v, Op::Gt, &ClauseValue::Number(Number::I64(3))));
    let missing = Value::Null;
    assert!(!clause_matches(&missing, Op::Eq, &ClauseValue::Bool(true)));
}

#[test]
fn decimal_comparisons_are_exact() {
    // 3.2 > 3.14 even though the mantissas compare the other way.
    let a = Value::Number(Number::Decimal(Decimal { mantissa: 32, exp: -1 }));
    let b = ClauseValue::Number(Number::Decimal(Decimal { mantissa: 314, exp: -2 }));
    assert!(clause_matches(&a, Op::Gt, &b));
    // 3.140 == 3.14 across representations.
    let c = Value::Number(Number::Decimal(Decimal { mantissa: 3140, exp: -3 }));
    assert!(clause_matches(&c, Op::Eq, &b));
    // Integer vs decimal ordering is exact.
    let d = Value::Number(Number::I64(3));
    assert!(clause_matches(&d, Op::Lt, &b));
}

// =========================================================================
// Table width resolution
// =========================================================================

#[test]
fn resolve_empty_spec() {
    let spec = TableSpec::builder().build();
    let resolved = spec.resolve_widths(80);
    assert!(resolved.is_empty());
}

#[test]
fn resolve_fixed_columns() {
    let spec = TableSpec::builder()
        .column(Column::new(Width::Fixed(10)))
        .column(Column::new(Width::Fixed(20)))
        .column(Column::new(Width::Fixed(15)))
        .build();

    let resolved = spec.resolve_widths(100);
    assert_eq!(resolved.widths, vec![10, 20, 15]);
    assert_eq!(resolved.total(), 45);
}

#[test]
fn resolve_fill_column() {
    let spec = TableSpec::builder()
        .column(Column::new(Width::Fixed(10)))
        .column(Column::new(Width::Fill))
        .column(Column::new(Width::Fixed(10)))
        .separator("  ") // 2 chars * 2 separators = 4
        .build();

    // Total: 80, overhead: 4, available: 76
    // Fixed: 10 + 10 = 20, remaining: 56
    let resolved = spec.resolve_widths(80);
    assert_eq!(resolved.widths, vec![10, 56, 10]);
}

#[test]
fn resolve_multiple_fill_columns() {
    let spec = TableSpec::builder()
        .column(Column::new(Width::Fixed(10)))
        .column(Column::new(Width::Fill))
        .column(Column::new(Width::Fill))
        .build();

    // Total: 100, no overhead, available: 100
    // Fixed: 10, remaining: 90, split between 2 fills: 45 each
    let resolved = spec.resolve_widths(100);
    assert_eq!(resolved.widths, vec![10, 45, 45]);
}

#[test]
fn resolve_fill_columns_uneven_split() {
    let spec = TableSpec::builder()
        .column(Column::new(Width::Fill))
        .column(Column::new(Width::Fill))
        .column(Column::new(Width::Fill))
        .build();

    // Total: 10, no overhead, split 3 ways: 4, 3, 3
    let resolved = spec.resolve_widths(10);
    assert_eq!(resolved.widths, vec![4, 3, 3]);
    assert_eq!(resolved.total(), 10);
}

#[test]
fn resolve_bounded_with_min() {
    let spec = TableSpec::builder()
        .column(Column::new(Width::Bounded { min: Some(10), max: None }))
        .build();

    let resolved = spec.resolve_widths(80);
    assert_eq!(resolved.widths, vec![10]);
}

fn rows(data: &[&[&str]]) -> Vec<Vec<String>> {
    data.iter().map(|row| row.iter().map(|s| s.to_string()).collect()).collect()
}

#[test]
fn resolve_bounded_from_data() {
    let spec = TableSpec::builder()
        .column(Column::new(Width::Bounded { min: Some(5), max: Some(20) }))
        .column(Column::new(Width::Fixed(10)))
        .build();

    let data = rows(&[&["short", "value"], &["longer text here", "x"]]);

    let resolved = spec.resolve_widths_from_data(80, &data);
    // "longer text here" is 16 chars, within [5, 20]
    assert_eq!(resolved.widths[0], 16);
    assert_eq!(resolved.widths[1], 10);
}

#[test]
fn resolve_bounded_clamps_to_max() {
    let spec = TableSpec::builder()
        .column(Column::new(Width::Bounded { min: Some(5), max: Some(10) }))
        .build();

    let data = rows(&[&["this is a very long string that exceeds max"]]);

    let resolved = spec.resolve_widths_from_data(80, &data);
    assert_eq!(resolved.widths[0], 10); // Clamped to max
}

#[test]
fn resolve_bounded_respects_min() {
    let spec = TableSpec::builder()
        .column(Column::new(Width::Bounded { min: Some(10), max: Some(20) }))
        .build();

    let data = rows(&[&["hi"]]); // Only 2 chars

    let resolved = spec.resolve_widths_from_data(80, &data);
    assert_eq!(resolved.widths[0], 10); // Raised to min
}

#[test]
fn resolve_with_decorations() {
    let spec = TableSpec::builder()
        .column(Column::new(Width::Fixed(10)))
        .column(Column::new(Width::Fill))
        .separator(" | ") // 3 chars
        .prefix("│ ") // 2 chars
        .suffix(" │") // 2 chars
        .build();

    // Total: 50
    // Overhead: prefix(2) + suffix(2) + separator(3) = 7
    // Available: 43
    // Fixed: 10, remaining for fill: 33
    let resolved = spec.resolve_widths(50);
    assert_eq!(resolved.widths, vec![10, 33]);
}

#[test]
fn resolve_tight_space() {
    let spec = TableSpec::builder()
        .column(Column::new(Width::Fixed(10)))
        .column(Column::new(Width::Fill))
        .column(Column::new(Width::Fixed(10)))
        .separator("  ")
        .build();

    // Total width less than needed
    // Overhead: 4, fixed: 20, available: 24-4=20
    // Fill gets max(0, 20-20) = 0
    let resolved = spec.resolve_widths(24);
    assert_eq!(resolved.widths, vec![10, 0, 10]);
}

#[test]
fn resolve_no_fill_leaves_remainder_unused() {
    let spec = TableSpec::builder()
        .column(Column::new(Width::Fixed(10)))
        .column(Column::new(Width::Bounded { min: Some(5), max: Some(30) }))
        .build();

    // Without data, bounded uses min (5)
    // Total: 50, available: 50, used: 15
    // No Fill column, so remaining 35 is unused
    let resolved = spec.resolve_widths(50);
    assert_eq!(resolved.widths, vec![10, 5]);
    assert_eq!(resolved.total(), 15);
}

#[test]
fn resolved_widths_accessors() {
    let resolved = standout::ResolvedWidths {
        widths: vec![10, 20, 30],
    };

    assert_eq!(resolved.get(0), Some(10));
    assert_eq!(resolved.get(1), Some(20));
    assert_eq!(resolved.get(2), Some(30));
    assert_eq!(resolved.get(3), None);
    assert_eq!(resolved.total(), 60);
    assert_eq!(resolved.len(), 3);
    assert!(!resolved.is_empty());
}
