//! Tests for the field-type model and the schema capability.

use standout::Op;
use standout::SeekType;
use standout::SeekerSchema;

#[test]
fn seek_type_default_operators() {
    assert_eq!(SeekType::String.default_operator(), Op::Eq);
    assert_eq!(SeekType::Number.default_operator(), Op::Eq);
    assert_eq!(SeekType::Timestamp.default_operator(), Op::Eq);
    assert_eq!(SeekType::Enum.default_operator(), Op::Eq);
    assert_eq!(SeekType::Bool.default_operator(), Op::Is);
}

#[test]
fn seek_type_valid_operators() {
    // String
    assert!(SeekType::String.is_valid_operator(Op::Eq));
    assert!(SeekType::String.is_valid_operator(Op::Contains));
    assert!(SeekType::String.is_valid_operator(Op::Regex));
    assert!(!SeekType::String.is_valid_operator(Op::Gt));
    assert!(!SeekType::String.is_valid_operator(Op::Before));

    // Number
    assert!(SeekType::Number.is_valid_operator(Op::Eq));
    assert!(SeekType::Number.is_valid_operator(Op::Gt));
    assert!(SeekType::Number.is_valid_operator(Op::Lte));
    assert!(!SeekType::Number.is_valid_operator(Op::Contains));
    assert!(!SeekType::Number.is_valid_operator(Op::Before));

    // Timestamp
    assert!(SeekType::Timestamp.is_valid_operator(Op::Eq));
    assert!(SeekType::Timestamp.is_valid_operator(Op::Before));
    assert!(SeekType::Timestamp.is_valid_operator(Op::After));
    assert!(SeekType::Timestamp.is_valid_operator(Op::Lt));
    assert!(!SeekType::Timestamp.is_valid_operator(Op::Contains));

    // Enum
    assert!(SeekType::Enum.is_valid_operator(Op::Eq));
    assert!(SeekType::Enum.is_valid_operator(Op::In));
    assert!(!SeekType::Enum.is_valid_operator(Op::Gt));
    assert!(!SeekType::Enum.is_valid_operator(Op::Contains));

    // Bool
    assert!(SeekType::Bool.is_valid_operator(Op::Eq));
    assert!(SeekType::Bool.is_valid_operator(Op::Is));
    assert!(!SeekType::Bool.is_valid_operator(Op::Gt));
    assert!(!SeekType::Bool.is_valid_operator(Op::Contains));
}

#[test]
fn seek_type_display() {
    assert_eq!(SeekType::String.as_str(), "string");
    assert_eq!(SeekType::Number.as_str(), "number");
    assert_eq!(SeekType::Timestamp.as_str(), "timestamp");
    assert_eq!(SeekType::Enum.as_str(), "enum");
    assert_eq!(SeekType::Bool.as_str(), "boolean");
}

// The exhaustive compatibility table: every (field type, operator) pair.
#[test]
fn seek_type_operator_table_exhaustive() {
    let all_ops = [
        Op::Eq,
        Op::Ne,
        Op::Gt,
        Op::Gte,
        Op::Lt,
        Op::Lte,
        Op::StartsWith,
        Op::EndsWith,
        Op::Contains,
        Op::Regex,
        Op::Before,
        Op::After,
        Op::In,
        Op::Is,
    ];
    let table: [(SeekType, &[Op]); 5] = [
        (
            SeekType::String,
            &[Op::Eq, Op::Ne, Op::StartsWith, Op::EndsWith, Op::Contains, Op::Regex],
        ),
        (SeekType::Number, &[Op::Eq, Op::Ne, Op::Gt, Op::Gte, Op::Lt, Op::Lte]),
        (
            SeekType::Timestamp,
            &[Op::Eq, Op::Ne, Op::Before, Op::After, Op::Gt, Op::Gte, Op::Lt, Op::Lte],
        ),
        (SeekType::Enum, &[Op::Eq, Op::Ne, Op::In]),
        (SeekType::Bool, &[Op::Eq, Op::Is]),
    ];
    for (t, allowed) in table.iter() {
        for op in all_ops.iter() {
            assert_eq!(
                t.is_valid_operator(*op),
                allowed.contains(op),
                "table mismatch for {:?} / {:?}",
                t,
                op
            );
        }
    }
}

// Test manual SeekerSchema implementation
struct TestSchema;

impl SeekerSchema for TestSchema {
    fn field_type(field: &str) -> Option<SeekType> {
        match field {
            "name" => Some(SeekType::String),
            "count" => Some(SeekType::Number),
            "status" => Some(SeekType::Enum),
            _ => None,
        }
    }

    fn field_names() -> Vec<String> {
        vec!["name".to_string(), "count".to_string(), "status".to_string()]
    }

    fn resolve_enum_variant(field: &str, variant: &str) -> Option<u32> {
        if field == "status" {
            match variant {
                "pending" => Some(0),
                "active" => Some(1),
                "done" => Some(2),
                _ => None,
            }
        } else {
            None
        }
    }
}

#[test]
fn seeker_schema_field_type() {
    assert_eq!(TestSchema::field_type("name"), Some(SeekType::String));
    assert_eq!(TestSchema::field_type("count"), Some(SeekType::Number));
    assert_eq!(TestSchema::field_type("status"), Some(SeekType::Enum));
    assert_eq!(TestSchema::field_type("unknown"), None);
}

#[test]
fn seeker_schema_field_names() {
    assert_eq!(
        TestSchema::field_names(),
        vec!["name".to_string(), "count".to_string(), "status".to_string()]
    );
}

#[test]
fn seeker_schema_enum_variant_resolution() {
    assert_eq!(TestSchema::resolve_enum_variant("status", "pending"), Some(0));
    assert_eq!(TestSchema::resolve_enum_variant("status", "active"), Some(1));
    assert_eq!(TestSchema::resolve_enum_variant("status", "done"), Some(2));
    assert_eq!(TestSchema::resolve_enum_variant("status", "unknown"), None);
    assert_eq!(TestSchema::resolve_enum_variant("name", "pending"), None);
}
