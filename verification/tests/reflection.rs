use scene_editor::record::{read_fields, write_field, Field, Record};
use scene_editor::value::{parse_value, render_value, FieldKind, FieldValue};

fn demo_record() -> Record {
    Record {
        type_key: 1,
        fields: vec![
            Field {
                name: String::from("x"),
                value: FieldValue::FloatSingle(String::from("1.0")),
            },
            Field {
                name: String::from("label"),
                value: FieldValue::Text(String::from("hello")),
            },
            Field {
                name: String::from("visible"),
                value: FieldValue::Flag(true),
            },
            Field {
                name: String::from("count"),
                value: FieldValue::Size(7),
            },
            Field {
                name: String::from("offset"),
                value: FieldValue::Int(-3),
            },
            Field {
                name: String::from("nested"),
                value: FieldValue::Opaque(String::from("Inner { a: 1 }")),
            },
        ],
    }
}

#[test]
fn write_then_read_round_trips_scalars() {
    let mut rec = demo_record();
    assert!(write_field(&mut rec, "x", "2.5"));
    assert!(write_field(&mut rec, "label", "world"));
    assert!(write_field(&mut rec, "visible", "false"));
    assert!(write_field(&mut rec, "count", "42"));
    assert!(write_field(&mut rec, "offset", "-2147483648"));
    let views = read_fields(&rec);
    assert_eq!(views[0].text_value, "2.5");
    assert_eq!(views[1].text_value, "world");
    assert_eq!(views[2].text_value, "false");
    assert_eq!(views[3].text_value, "42");
    assert_eq!(views[4].text_value, "-2147483648");
    // The displayed text re-parses to the same value for each kind.
    let mut again = rec.duplicate();
    for v in &views[..5] {
        assert!(write_field(&mut again, v.name.as_str(), v.text_value.as_str()));
    }
    let second = read_fields(&again);
    for (a, b) in views.iter().zip(second.iter()) {
        assert_eq!(a.text_value, b.text_value);
    }
}

#[test]
fn non_canonical_text_reads_back_canonically() {
    let mut rec = demo_record();
    assert!(write_field(&mut rec, "count", "007"));
    let views = read_fields(&rec);
    assert_eq!(views[3].text_value, "7");
}

#[test]
fn unsupported_kind_is_never_written() {
    let mut rec = demo_record();
    assert!(!write_field(&mut rec, "nested", "anything"));
    assert!(!write_field(&mut rec, "nested", "Inner { a: 2 }"));
    let views = read_fields(&rec);
    assert_eq!(views[5].text_value, "Inner { a: 1 }");
}

#[test]
fn parse_failure_leaves_field_unchanged() {
    let mut rec = demo_record();
    assert!(!write_field(&mut rec, "x", "not a number"));
    assert!(!write_field(&mut rec, "visible", "maybe"));
    assert!(!write_field(&mut rec, "count", "-1"));
    assert!(!write_field(&mut rec, "offset", "2147483648"));
    assert!(!write_field(&mut rec, "missing", "1"));
    let views = read_fields(&rec);
    assert_eq!(views[0].text_value, "1.0");
    assert_eq!(views[2].text_value, "true");
    assert_eq!(views[3].text_value, "7");
    assert_eq!(views[4].text_value, "-3");
}

#[test]
fn float_literal_grammar() {
    assert!(parse_value(FieldKind::FloatSingle, "2.5").is_some());
    assert!(parse_value(FieldKind::FloatSingle, "-0.25").is_some());
    assert!(parse_value(FieldKind::FloatSingle, "5.").is_some());
    assert!(parse_value(FieldKind::FloatSingle, ".5").is_some());
    assert!(parse_value(FieldKind::FloatSingle, "10").is_some());
    assert!(parse_value(FieldKind::FloatSingle, "").is_none());
    assert!(parse_value(FieldKind::FloatSingle, "-").is_none());
    assert!(parse_value(FieldKind::FloatSingle, ".").is_none());
    assert!(parse_value(FieldKind::FloatSingle, "1.2.3").is_none());
    assert!(parse_value(FieldKind::FloatSingle, "1e5").is_none());
}

#[test]
fn render_matches_stored_value() {
    assert_eq!(render_value(&FieldValue::Flag(true)), "true");
    assert_eq!(render_value(&FieldValue::Flag(false)), "false");
    assert_eq!(render_value(&FieldValue::Size(0)), "0");
    assert_eq!(render_value(&FieldValue::Int(-12)), "-12");
    assert_eq!(render_value(&FieldValue::Int(2147483647)), "2147483647");
    assert_eq!(
        render_value(&FieldValue::Text(String::from("abc"))),
        "abc"
    );
}
