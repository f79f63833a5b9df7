use grexa_db::validation::{is_iso_date, is_iso_datetime, refs_of, resolve_refs, validate_record};
use grexa_db::value::Number;
use grexa_db::yaml::from_yaml;
use grexa_db::{FieldDef, FieldType, Record, Severity, Value};

fn rec(content: &str) -> Record {
    Record::from_content("test.md", content).unwrap()
}

fn fd(name: &str, ft: FieldType) -> FieldDef {
    FieldDef {
        name: name.into(),
        field_type: ft,
        required: false,
        range: None,
    }
}

#[test]
fn valid_record_no_errors() {
    let r = rec("---\ntitle: Hello\nrating: 5\n---\nbody\n");
    let fields = vec![
        fd("title", FieldType::String),
        fd("rating", FieldType::Integer),
    ];
    assert!(validate_record(&r, &fields).is_empty());
}

#[test]
fn missing_required_field() {
    let r = rec("---\nrating: 5\n---\nbody\n");
    let mut f = fd("title", FieldType::String);
    f.required = true;
    let errors = validate_record(&r, &[f]);
    assert_eq!(errors.len(), 1);
    assert!(errors[0].message.contains("required"));
}

#[test]
fn missing_optional_field_ok() {
    let r = rec("---\ntitle: Hello\n---\nbody\n");
    let fields = vec![fd("rating", FieldType::Integer)];
    assert!(validate_record(&r, &fields).is_empty());
}

#[test]
fn wrong_type_string_for_integer() {
    let r = rec("---\nrating: high\n---\nbody\n");
    let errors = validate_record(&r, &[fd("rating", FieldType::Integer)]);
    assert_eq!(errors.len(), 1);
    assert!(errors[0].message.contains("expected integer"));
}

#[test]
fn range_violation() {
    let r = rec("---\nrating: 10\n---\nbody\n");
    let mut f = fd("rating", FieldType::Integer);
    f.range = Some((Number::PosInt(1), Number::PosInt(5)));
    let errors = validate_record(&r, &[f]);
    assert_eq!(errors.len(), 1);
    assert!(errors[0].message.contains("outside range"));
}

#[test]
fn range_satisfied() {
    let r = rec("---\nrating: 3\n---\nbody\n");
    let mut f = fd("rating", FieldType::Integer);
    f.range = Some((Number::PosInt(1), Number::PosInt(5)));
    assert!(validate_record(&r, &[f]).is_empty());
}

#[test]
fn valid_date() {
    let r = rec("---\nd: 2024-03-15\n---\nbody\n");
    assert!(validate_record(&r, &[fd("d", FieldType::Date)]).is_empty());
}

#[test]
fn invalid_date() {
    let r = rec("---\nd: March 15\n---\nbody\n");
    let errors = validate_record(&r, &[fd("d", FieldType::Date)]);
    assert_eq!(errors.len(), 1);
}

#[test]
fn enum_valid() {
    let r = rec("---\nstatus: published\n---\nbody\n");
    assert!(
        validate_record(
            &r,
            &[fd(
                "status",
                FieldType::Enum(vec!["draft".into(), "published".into()])
            )]
        )
        .is_empty()
    );
}

#[test]
fn enum_invalid() {
    let r = rec("---\nstatus: deleted\n---\nbody\n");
    let errors = validate_record(
        &r,
        &[fd(
            "status",
            FieldType::Enum(vec!["draft".into(), "published".into()]),
        )],
    );
    assert_eq!(errors.len(), 1);
    assert!(errors[0].message.contains("not in"));
}

#[test]
fn ref_valid_path() {
    let r = rec("---\nsource: bookmarks/rust.md\n---\nbody\n");
    assert!(
        validate_record(&r, &[fd("source", FieldType::Ref("bookmarks".into()))]).is_empty()
    );
}

#[test]
fn ref_traversal_rejected() {
    let r = rec("---\nsource: ../../../etc/passwd\n---\nbody\n");
    let errors = validate_record(&r, &[fd("source", FieldType::Ref("bookmarks".into()))]);
    assert_eq!(errors.len(), 1);
    assert!(errors[0].message.contains("forbidden"));
}

#[test]
fn array_type_check() {
    let r = rec("---\ntags: [rust, 5]\n---\nbody\n");
    let errors =
        validate_record(&r, &[fd("tags", FieldType::Array(Box::new(FieldType::String)))]);
    assert_eq!(errors.len(), 1);
    assert!(errors[0].message.contains("[1]"));
}

fn messages(content: &str, field: FieldDef) -> Vec<String> {
    validate_record(&rec(content), &[field])
        .into_iter()
        .map(|e| e.message)
        .collect()
}

#[test]
fn null_counts_as_missing() {
    let mut f = fd("x", FieldType::String);
    assert!(messages("---\nx: null\n---\n", f.clone()).is_empty());
    f.required = true;
    assert_eq!(
        messages("---\nx: null\n---\n", f.clone()),
        vec!["required field is missing or null"]
    );
    assert_eq!(messages("---\ny: 1\n---\n", f), vec!["required field is missing or null"]);
}

#[test]
fn messages_name_what_was_found() {
    assert_eq!(
        messages("---\nx: [1]\n---\n", fd("x", FieldType::String)),
        vec!["expected string, got array"]
    );
    assert_eq!(
        messages("---\nx: {a: 1}\n---\n", fd("x", FieldType::Boolean)),
        vec!["expected boolean, got object"]
    );
    assert_eq!(
        messages("---\nx: y\n---\n", fd("x", FieldType::Float)),
        vec!["expected float, got string"]
    );
    assert_eq!(
        messages("---\nx: March\n---\n", fd("x", FieldType::Date)),
        vec!["invalid date `March` (expected YYYY-MM-DD)"]
    );
    assert_eq!(
        messages("---\nx: 2024-03-15\n---\n", fd("x", FieldType::DateTime)),
        vec!["invalid datetime `2024-03-15` (expected RFC 3339)"]
    );
    let nested = FieldType::Array(Box::new(FieldType::Array(Box::new(FieldType::Integer))));
    assert_eq!(
        messages("---\nx: [[1], [2, a]]\n---\n", fd("x", nested)),
        vec!["[1]: [1]: expected integer, got string"]
    );
    let variants = FieldType::Enum(vec!["a".into(), "b".into()]);
    assert_eq!(messages("---\nx: c\n---\n", fd("x", variants)), vec!["`c` not in: a | b"]);
}

#[test]
fn range_messages_print_numbers() {
    let four_and_a_half = match from_yaml(&serde_yaml_ng::Value::from(4.5)) {
        Value::Number(n) => n,
        _ => unreachable!(),
    };
    let mut f = fd("x", FieldType::Float);
    f.range = Some((Number::NegInt(-1), four_and_a_half));
    assert_eq!(
        messages("---\nx: 10\n---\n", f.clone()),
        vec!["value 10 outside range [-1, 4.5]"]
    );
    assert_eq!(
        messages("---\nx: 4.75\n---\n", f.clone()),
        vec!["value 4.75 outside range [-1, 4.5]"]
    );
    assert_eq!(
        messages("---\nx: 1e30\n---\n", f.clone()),
        vec!["value 1000000000000000000000000000000 outside range [-1, 4.5]"]
    );
    assert_eq!(messages("---\nx: .inf\n---\n", f.clone()), vec!["value inf is not finite"]);
    assert_eq!(messages("---\nx: .nan\n---\n", f.clone()), vec!["value NaN is not finite"]);
    assert!(messages("---\nx: 4.5\n---\n", f.clone()).is_empty());
    assert!(messages("---\nx: -1\n---\n", f).is_empty());
    let mut text = fd("x", FieldType::String);
    text.range = Some((Number::PosInt(1), Number::PosInt(2)));
    assert_eq!(
        messages("---\nx: y\n---\n", text),
        vec!["cannot range-check non-numeric value"]
    );
}

#[test]
fn dates() {
    for s in ["2024-12-31", "2024-02-29", "2000-02-29", "0000-01-01"] {
        assert!(is_iso_date(s), "{s}");
    }
    for s in [
        "2024-13-01", "2024-00-10", "2024-01-32", "2024-01-00", "2024-02-30", "2023-02-29",
        "1900-02-29", "2024-04-31", "2024-0:-01", "24-01-01", "2024-1-1", "2024-01-01Z", "",
    ] {
        assert!(!is_iso_date(s), "{s}");
    }
}

#[test]
fn dates_with_times() {
    for s in [
        "2024-03-15T10:20:30Z",
        "2024-03-15 10:20:30+02:00",
        "2024-03-15T10:20:30.5-23:59",
        "2024-03-15t23:59:60.123456z",
        "2024-12-31T23:59:59Z",
    ] {
        assert!(is_iso_datetime(s), "{s}");
    }
    for s in [
        "2024-99-99T99:99:99!",
        "2024-03-15T10:20",
        "2024-03-15T10:20:30",
        "2024-03-15T1x:20:30Z",
        "2024-02-30T10:20:30Z",
        "2024-03-15T24:20:30Z",
        "2024-03-15T10:60:30Z",
        "2024-03-15T10:20:61Z",
        "2024-03-15T10:20:30.Z",
        "2024-03-15T10:20:30Zx",
        "2024-03-15T10:20:30+24:00",
        "2024-03-15T10:20:30+02:60",
        "2024-03-15T10:20:30+0200",
        "2024-03-15x10:20:30Z",
    ] {
        assert!(!is_iso_datetime(s), "{s}");
    }
}

#[test]
fn ref_has_to_name_its_collection() {
    assert_eq!(
        messages("---\nx: notes/a.md\n---\n", fd("x", FieldType::Ref("bookmarks".into()))),
        vec!["ref `notes/a.md` does not begin with `bookmarks/`"]
    );
    assert_eq!(
        messages("---\nx: /etc/passwd\n---\n", fd("x", FieldType::Ref("bookmarks".into()))),
        vec!["ref `/etc/passwd` is empty or has forbidden components"]
    );
}

#[test]
fn dangling_refs_warn_and_escapes_are_errors() {
    let r = rec("---\nx: [b/1.md, b/2.md, b/3.md, c/4.md]\n---\n");
    let fields = [fd("x", FieldType::Array(Box::new(FieldType::Ref("b".into()))))];
    let uses = refs_of(&r, &fields);
    assert_eq!(
        uses.iter().map(|u| u.path.as_str()).collect::<Vec<_>>(),
        vec!["b/1.md", "b/2.md", "b/3.md"]
    );
    let targets = vec![
        Some("/db/b/1.md".to_string()),
        None,
        Some("/elsewhere/3.md".to_string()),
    ];
    let problems = resolve_refs(&r, &fields, &targets, "/db");
    assert_eq!(problems.len(), 2);
    assert_eq!(problems[0].severity, Severity::Warning);
    assert_eq!(problems[0].message, "ref `b/2.md` is dangling: target not found");
    assert_eq!(problems[1].severity, Severity::Error);
    assert_eq!(problems[1].message, "ref `b/3.md` resolves outside the database root");
}
