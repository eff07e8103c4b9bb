//! Tests for the string parser: operators, keys, values, ordering and the
//! top-level query driver.

use standout::days_from_year;
use standout::days_from_ymd;
use standout::is_leap_year;
use standout::parse_key;
use standout::parse_operator;
use standout::parse_ordering;
use standout::parse_query;
use standout::parse_value;
use standout::ClauseValue;
use standout::Dir;
use standout::Number;
use standout::Op;
use standout::ParseError;
use standout::Seekable;
use standout::SeekType;
use standout::SeekerSchema;
use standout::Timestamp;
use standout::Value;

struct TestTask;

impl SeekerSchema for TestTask {
    fn field_type(field: &str) -> Option<SeekType> {
        match field {
            "name" => Some(SeekType::String),
            "priority" => Some(SeekType::Number),
            "created-at" => Some(SeekType::Timestamp),
            "status" => Some(SeekType::Enum),
            "done" => Some(SeekType::Bool),
            _ => None,
        }
    }

    fn field_names() -> Vec<String> {
        vec![
            "name".to_string(),
            "priority".to_string(),
            "created-at".to_string(),
            "status".to_string(),
            "done".to_string(),
        ]
    }

    fn resolve_enum_variant(field: &str, variant: &str) -> Option<u32> {
        if field == "status" {
            match variant.to_lowercase().as_str() {
                "pending" => Some(0),
                "active" => Some(1),
                "done" => Some(2),
                _ => None,
            }
        } else {
            None
        }
    }
}

/// A record with no fields, used to exercise empty evaluations.
struct Empty;

impl Seekable for Empty {
    fn field_value(&self, _field: &str) -> Value {
        Value::Null
    }
}

fn no_records() -> Vec<Empty> {
    Vec::new()
}

// =========================================================================
// parse_operator tests
// =========================================================================

#[test]
fn test_parse_operator_basic() {
    assert_eq!(parse_operator("eq"), Some(Op::Eq));
    assert_eq!(parse_operator("ne"), Some(Op::Ne));
    assert_eq!(parse_operator("gt"), Some(Op::Gt));
    assert_eq!(parse_operator("gte"), Some(Op::Gte));
    assert_eq!(parse_operator("lt"), Some(Op::Lt));
    assert_eq!(parse_operator("lte"), Some(Op::Lte));
}

#[test]
fn test_parse_operator_string_ops() {
    assert_eq!(parse_operator("startswith"), Some(Op::StartsWith));
    assert_eq!(parse_operator("endswith"), Some(Op::EndsWith));
    assert_eq!(parse_operator("contains"), Some(Op::Contains));
    assert_eq!(parse_operator("regex"), Some(Op::Regex));
}

#[test]
fn test_parse_operator_aliases() {
    assert_eq!(parse_operator("neq"), Some(Op::Ne));
    assert_eq!(parse_operator("prefix"), Some(Op::StartsWith));
    assert_eq!(parse_operator("suffix"), Some(Op::EndsWith));
    assert_eq!(parse_operator("re"), Some(Op::Regex));
    assert_eq!(parse_operator("match"), Some(Op::Regex));
}

#[test]
fn test_parse_operator_case_insensitive() {
    assert_eq!(parse_operator("EQ"), Some(Op::Eq));
    assert_eq!(parse_operator("Contains"), Some(Op::Contains));
    assert_eq!(parse_operator("BEFORE"), Some(Op::Before));
}

#[test]
fn test_parse_operator_unknown() {
    assert_eq!(parse_operator("unknown"), None);
    assert_eq!(parse_operator("equals"), None);
    assert_eq!(parse_operator(""), None);
}

// =========================================================================
// parse_key tests
// =========================================================================

#[test]
fn test_parse_key_with_operator() {
    let (field, op) = parse_key("name-contains");
    assert_eq!(field, "name");
    assert_eq!(op, Some(Op::Contains));
}

#[test]
fn test_parse_key_compound_field() {
    let (field, op) = parse_key("created-at-before");
    assert_eq!(field, "created-at");
    assert_eq!(op, Some(Op::Before));
}

#[test]
fn test_parse_key_no_operator() {
    let (field, op) = parse_key("name");
    assert_eq!(field, "name");
    assert_eq!(op, None);
}

#[test]
fn test_parse_key_field_looks_like_op_but_isnt() {
    // "equal" is not a valid operator
    let (field, op) = parse_key("name-equal");
    assert_eq!(field, "name-equal");
    assert_eq!(op, None);
}

// =========================================================================
// parse_value tests - Numbers
// =========================================================================

#[test]
fn test_parse_number_integer() {
    let val = parse_value::<TestTask>("42", "priority", SeekType::Number, Op::Eq).unwrap();
    assert!(matches!(val, ClauseValue::Number(Number::I64(42))));
}

#[test]
fn test_parse_number_negative() {
    let val = parse_value::<TestTask>("-17", "priority", SeekType::Number, Op::Eq).unwrap();
    assert!(matches!(val, ClauseValue::Number(Number::I64(-17))));
}

#[test]
fn test_parse_number_float() {
    let val = parse_value::<TestTask>("3.14", "priority", SeekType::Number, Op::Eq).unwrap();
    if let ClauseValue::Number(Number::Decimal(d)) = val {
        let n = d.mantissa as f64 * 10f64.powi(d.exp);
        assert!((n - 3.14).abs() < 0.001);
    } else {
        panic!("Expected Number::Decimal");
    }
}

#[test]
fn test_parse_number_unsigned_beyond_signed_range() {
    // Larger than any signed 64-bit value, small enough for unsigned.
    let val = parse_value::<TestTask>(
        "9300000000000000000",
        "priority",
        SeekType::Number,
        Op::Eq,
    )
    .unwrap();
    assert!(matches!(
        val,
        ClauseValue::Number(Number::U64(9300000000000000000))
    ));
}

#[test]
fn test_parse_number_invalid() {
    let result = parse_value::<TestTask>("abc", "priority", SeekType::Number, Op::Eq);
    assert!(matches!(result, Err(ParseError::InvalidValue { .. })));
}

// =========================================================================
// parse_value tests - Timestamps
// =========================================================================

#[test]
fn test_parse_timestamp_unix_ms() {
    let val = parse_value::<TestTask>("1705312200000", "created-at", SeekType::Timestamp, Op::Eq)
        .unwrap();
    assert!(matches!(
        val,
        ClauseValue::Timestamp(Timestamp(1705312200000))
    ));
}

#[test]
fn test_parse_timestamp_date_only() {
    let val =
        parse_value::<TestTask>("2024-01-15", "created-at", SeekType::Timestamp, Op::Eq).unwrap();
    if let ClauseValue::Timestamp(ts) = val {
        assert!(ts.0 > 0);
    } else {
        panic!("Expected Timestamp");
    }
}

#[test]
fn test_parse_timestamp_datetime() {
    let val = parse_value::<TestTask>(
        "2024-01-15T10:30:00Z",
        "created-at",
        SeekType::Timestamp,
        Op::Eq,
    )
    .unwrap();
    if let ClauseValue::Timestamp(ts) = val {
        assert!(ts.0 > 0);
    } else {
        panic!("Expected Timestamp");
    }
}

#[test]
fn test_parse_timestamp_year_only() {
    let val = parse_value::<TestTask>("2024", "created-at", SeekType::Timestamp, Op::Eq).unwrap();
    if let ClauseValue::Timestamp(ts) = val {
        assert!(ts.0 > 0);
    } else {
        panic!("Expected Timestamp");
    }
}

#[test]
fn test_parse_timestamp_invalid() {
    let result = parse_value::<TestTask>("not-a-date", "created-at", SeekType::Timestamp, Op::Eq);
    assert!(matches!(result, Err(ParseError::InvalidValue { .. })));
}

// =========================================================================
// parse_value tests - Enums
// =========================================================================

#[test]
fn test_parse_enum_numeric() {
    let val = parse_value::<TestTask>("1", "status", SeekType::Enum, Op::Eq).unwrap();
    assert!(matches!(val, ClauseValue::Enum(1)));
}

#[test]
fn test_parse_enum_variant_name() {
    let val = parse_value::<TestTask>("active", "status", SeekType::Enum, Op::Eq).unwrap();
    assert!(matches!(val, ClauseValue::Enum(1)));
}

#[test]
fn test_parse_enum_in_operator() {
    let val = parse_value::<TestTask>("pending,active", "status", SeekType::Enum, Op::In).unwrap();
    if let ClauseValue::EnumSet(set) = val {
        assert_eq!(set, vec![0, 1]);
    } else {
        panic!("Expected EnumSet");
    }
}

#[test]
fn test_parse_enum_in_with_spaces() {
    let val =
        parse_value::<TestTask>("pending, active, done", "status", SeekType::Enum, Op::In).unwrap();
    if let ClauseValue::EnumSet(set) = val {
        assert_eq!(set, vec![0, 1, 2]);
    } else {
        panic!("Expected EnumSet");
    }
}

#[test]
fn test_parse_enum_unknown_variant() {
    let result = parse_value::<TestTask>("unknown", "status", SeekType::Enum, Op::Eq);
    assert!(matches!(result, Err(ParseError::InvalidValue { .. })));
}

// =========================================================================
// parse_value tests - Booleans
// =========================================================================

#[test]
fn test_parse_bool_true_variants() {
    for s in &["true", "TRUE", "True", "1", "yes", "YES", "on", "ON"] {
        let val = parse_value::<TestTask>(s, "done", SeekType::Bool, Op::Eq).unwrap();
        assert!(matches!(val, ClauseValue::Bool(true)), "Failed for: {}", s);
    }
}

#[test]
fn test_parse_bool_false_variants() {
    for s in &["false", "FALSE", "False", "0", "no", "NO", "off", "OFF"] {
        let val = parse_value::<TestTask>(s, "done", SeekType::Bool, Op::Eq).unwrap();
        assert!(matches!(val, ClauseValue::Bool(false)), "Failed for: {}", s);
    }
}

#[test]
fn test_parse_bool_invalid() {
    let result = parse_value::<TestTask>("maybe", "done", SeekType::Bool, Op::Eq);
    assert!(matches!(result, Err(ParseError::InvalidValue { .. })));
}

// =========================================================================
// parse_value tests - Strings
// =========================================================================

#[test]
fn test_parse_string_basic() {
    let val = parse_value::<TestTask>("hello world", "name", SeekType::String, Op::Eq).unwrap();
    if let ClauseValue::String(s) = val {
        assert_eq!(s, "hello world");
    } else {
        panic!("Expected String");
    }
}

#[test]
fn test_parse_string_regex() {
    let val = parse_value::<TestTask>("^test.*$", "name", SeekType::String, Op::Regex).unwrap();
    assert!(matches!(val, ClauseValue::Regex(_)));
}

#[test]
fn test_parse_string_invalid_regex() {
    let result = parse_value::<TestTask>("(unclosed", "name", SeekType::String, Op::Regex);
    assert!(matches!(result, Err(ParseError::InvalidRegex { .. })));
}

// =========================================================================
// parse_ordering tests
// =========================================================================

#[test]
fn test_parse_ordering_default_asc() {
    let order = parse_ordering("name").unwrap();
    assert_eq!(order.field, "name");
    assert_eq!(order.dir, Dir::Asc);
}

#[test]
fn test_parse_ordering_explicit_asc() {
    let order = parse_ordering("name-asc").unwrap();
    assert_eq!(order.field, "name");
    assert_eq!(order.dir, Dir::Asc);
}

#[test]
fn test_parse_ordering_desc() {
    let order = parse_ordering("priority-desc").unwrap();
    assert_eq!(order.field, "priority");
    assert_eq!(order.dir, Dir::Desc);
}

#[test]
fn test_parse_ordering_compound_field() {
    let order = parse_ordering("created-at-desc").unwrap();
    assert_eq!(order.field, "created-at");
    assert_eq!(order.dir, Dir::Desc);
}

#[test]
fn test_parse_ordering_empty() {
    let result = parse_ordering("");
    assert!(matches!(result, Err(ParseError::InvalidOrdering { .. })));
}

#[test]
fn test_parse_ordering_just_direction() {
    let result = parse_ordering("desc");
    assert!(matches!(result, Err(ParseError::InvalidOrdering { .. })));
}

// =========================================================================
// parse_query tests
// =========================================================================

#[test]
fn test_parse_query_simple() {
    let pairs = vec![("name-eq".to_string(), "test".to_string())];
    let query = parse_query::<TestTask>(pairs).unwrap();
    assert!(query.count(&no_records()) == 0);
}

#[test]
fn test_parse_query_default_operator() {
    let pairs = vec![("name".to_string(), "test".to_string())];
    let query = parse_query::<TestTask>(pairs).unwrap();
    assert!(query.count(&no_records()) == 0);
}

#[test]
fn test_parse_query_multiple_clauses() {
    let pairs = vec![
        ("name-contains".to_string(), "test".to_string()),
        ("priority-gte".to_string(), "5".to_string()),
    ];
    let query = parse_query::<TestTask>(pairs).unwrap();
    assert!(query.count(&no_records()) == 0);
}

#[test]
fn test_parse_query_group_markers() {
    let pairs = vec![
        ("name-contains".to_string(), "a".to_string()),
        ("OR".to_string(), "".to_string()),
        ("name-contains".to_string(), "b".to_string()),
        ("NOT".to_string(), "".to_string()),
        ("done".to_string(), "true".to_string()),
    ];
    let query = parse_query::<TestTask>(pairs).unwrap();
    assert!(query.count(&no_records()) == 0);
}

#[test]
fn test_parse_query_ordering() {
    let pairs = vec![
        ("name-contains".to_string(), "test".to_string()),
        ("order".to_string(), "priority-desc".to_string()),
    ];
    let query = parse_query::<TestTask>(pairs).unwrap();
    assert!(query.count(&no_records()) == 0);
}

#[test]
fn test_parse_query_limit_offset() {
    let pairs = vec![
        ("name-contains".to_string(), "test".to_string()),
        ("limit".to_string(), "10".to_string()),
        ("offset".to_string(), "5".to_string()),
    ];
    let query = parse_query::<TestTask>(pairs).unwrap();
    assert!(query.count(&no_records()) == 0);
}

#[test]
fn test_parse_query_bool_bare_flag() {
    let pairs = vec![("done".to_string(), "".to_string())];
    let query = parse_query::<TestTask>(pairs).unwrap();
    assert!(query.count(&no_records()) == 0);
}

#[test]
fn test_parse_query_unknown_field() {
    let pairs = vec![("unknown-field".to_string(), "test".to_string())];
    let result = parse_query::<TestTask>(pairs);
    assert!(matches!(result, Err(ParseError::UnknownField { .. })));
}

#[test]
fn test_parse_query_invalid_operator() {
    let pairs = vec![("name-gt".to_string(), "test".to_string())];
    let result = parse_query::<TestTask>(pairs);
    assert!(matches!(result, Err(ParseError::InvalidOperator { .. })));
}

#[test]
fn test_parse_query_invalid_limit() {
    let pairs = vec![("limit".to_string(), "abc".to_string())];
    let result = parse_query::<TestTask>(pairs);
    assert!(matches!(result, Err(ParseError::InvalidLimit { .. })));
}

// =========================================================================
// Date calculation tests
// =========================================================================

#[test]
fn test_is_leap_year() {
    assert!(!is_leap_year(1900)); // Divisible by 100 but not 400
    assert!(is_leap_year(2000)); // Divisible by 400
    assert!(is_leap_year(2024)); // Divisible by 4
    assert!(!is_leap_year(2023)); // Not divisible by 4
}

#[test]
fn test_days_from_year() {
    assert_eq!(days_from_year(1970), 0);
    assert_eq!(days_from_year(1971), 365);
    assert_eq!(days_from_year(1972), 365 * 2); // 1972 is leap but we count to Jan 1
}

#[test]
fn test_days_from_ymd_epoch() {
    // January 1, 1970 should be day 0
    assert_eq!(days_from_ymd(1970, 1, 1), Some(0));
}

#[test]
fn test_days_from_ymd_next_day() {
    // January 2, 1970 should be day 1
    assert_eq!(days_from_ymd(1970, 1, 2), Some(1));
}

#[test]
fn test_days_from_ymd_invalid() {
    // February 30 doesn't exist
    assert_eq!(days_from_ymd(2024, 2, 30), None);
    // Month 13 doesn't exist
    assert_eq!(days_from_ymd(2024, 13, 1), None);
}

// =========================================================================
// Error rendering
// =========================================================================

#[test]
fn parse_error_messages_name_the_input() {
    let unknown = parse_query::<TestTask>(vec![("bogus-eq".to_string(), "1".to_string())])
        .unwrap_err();
    let msg = unknown.message();
    assert!(msg.contains("bogus"));
    assert!(msg.contains("name"));

    let bad_op = parse_query::<TestTask>(vec![("name-gt".to_string(), "x".to_string())])
        .unwrap_err();
    let msg = bad_op.message();
    assert!(msg.contains("gt"));
    assert!(msg.contains("string"));
    assert!(msg.contains("name"));

    let bad_value = parse_query::<TestTask>(vec![("priority".to_string(), "abc".to_string())])
        .unwrap_err();
    let msg = bad_value.message();
    assert!(msg.contains("abc"));
    assert!(msg.contains("number"));

    let bad_limit = parse_query::<TestTask>(vec![("limit".to_string(), "x".to_string())])
        .unwrap_err();
    let msg = bad_limit.message();
    assert!(msg.contains("limit"));
    assert!(msg.contains("'x'"));

    let bad_order = parse_ordering("desc").unwrap_err();
    let msg = bad_order.message();
    assert!(msg.contains("desc"));
}
