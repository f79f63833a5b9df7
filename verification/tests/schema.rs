use grexa_db::{FieldType, Schema, SchemaError};

#[test]
fn parse_all_primitive_types() {
    assert_eq!(FieldType::parse("string").unwrap(), FieldType::String);
    assert_eq!(FieldType::parse("integer").unwrap(), FieldType::Integer);
    assert_eq!(FieldType::parse("float").unwrap(), FieldType::Float);
    assert_eq!(FieldType::parse("boolean").unwrap(), FieldType::Boolean);
    assert_eq!(FieldType::parse("date").unwrap(), FieldType::Date);
    assert_eq!(FieldType::parse("datetime").unwrap(), FieldType::DateTime);
}

#[test]
fn parse_array_type() {
    assert_eq!(
        FieldType::parse("array<string>").unwrap(),
        FieldType::Array(Box::new(FieldType::String))
    );
    assert_eq!(
        FieldType::parse("array<integer>").unwrap(),
        FieldType::Array(Box::new(FieldType::Integer))
    );
}

#[test]
fn parse_nested_array() {
    assert_eq!(
        FieldType::parse("array<array<string>>").unwrap(),
        FieldType::Array(Box::new(FieldType::Array(Box::new(FieldType::String))))
    );
}

#[test]
fn parse_enum_type() {
    assert_eq!(
        FieldType::parse("enum<draft|published|archived>").unwrap(),
        FieldType::Enum(vec!["draft".into(), "published".into(), "archived".into()])
    );
}

#[test]
fn parse_ref_type() {
    assert_eq!(FieldType::parse("ref<bookmarks>").unwrap(), FieldType::Ref("bookmarks".into()));
}

#[test]
fn parse_ref_with_spaces() {
    assert_eq!(
        FieldType::parse("ref< my_collection >").unwrap(),
        FieldType::Ref("my_collection".into())
    );
}

#[test]
fn empty_ref_is_error() {
    assert!(matches!(FieldType::parse("ref<>"), Err(SchemaError::InvalidType(_))));
}

#[test]
fn empty_enum_is_error() {
    assert!(matches!(FieldType::parse("enum<>"), Err(SchemaError::InvalidType(_))));
}

#[test]
fn unknown_type_is_error() {
    assert!(matches!(FieldType::parse("blob"), Err(SchemaError::UnknownType(_))));
}

#[test]
fn type_display_roundtrips() {
    let cases = [
        "string",
        "integer",
        "float",
        "boolean",
        "date",
        "datetime",
        "array<string>",
        "array<array<integer>>",
        "enum<a|b|c>",
        "ref<bookmarks>",
    ];
    for s in cases {
        let parsed = FieldType::parse(s).unwrap();
        assert_eq!(parsed.to_text(), s, "roundtrip failed for {s}");
    }
}

#[test]
fn full_schema_from_markdown() {
    let content = "---\ncollection: notes\nfields:\n  - name: title\n    type: string\n    required: true\n  - name: tags\n    type: \"array<string>\"\n  - name: rating\n    type: integer\n    range: [1, 5]\n  - name: source\n    type: \"ref<bookmarks>\"\n    optional: true\n---\n\n# Notes\nHuman docs.\n";
    let schema = Schema::from_markdown(content).unwrap();
    assert_eq!(schema.collection, "notes");
    assert_eq!(schema.fields.len(), 4);

    let title = schema.field("title").unwrap();
    assert!(title.required);
    assert_eq!(title.field_type, FieldType::String);

    let tags = schema.field("tags").unwrap();
    assert!(!tags.required);
    assert_eq!(tags.field_type, FieldType::Array(Box::new(FieldType::String)));

    let rating = schema.field("rating").unwrap();
    let (low, high) = rating.range.as_ref().unwrap();
    assert_eq!((f64::from_bits(low.double()), f64::from_bits(high.double())), (1.0, 5.0));

    let source = schema.field("source").unwrap();
    assert!(!source.required);
}

#[test]
fn flow_style_yaml_in_schema() {
    let content = "---\ncollection: tiny\nfields:\n  - { name: x, type: string }\n---\n";
    let schema = Schema::from_markdown(content).unwrap();
    assert_eq!(schema.collection, "tiny");
    assert_eq!(schema.fields[0].name, "x");
}

#[test]
fn missing_collection_errors() {
    let content = "---\nfields: []\n---\n";
    assert!(matches!(Schema::from_markdown(content), Err(SchemaError::MissingCollection)));
}

#[test]
fn missing_fields_errors() {
    let content = "---\ncollection: notes\n---\n";
    assert!(matches!(Schema::from_markdown(content), Err(SchemaError::MissingFields)));
}

#[test]
fn duplicate_field_name_errors() {
    let content = "---\ncollection: notes\nfields:\n  - { name: x, type: string }\n  - { name: x, type: integer }\n---\n";
    assert!(matches!(Schema::from_markdown(content), Err(SchemaError::DuplicateField(_))));
}

#[test]
fn contradictory_required_and_optional_errors() {
    let content = "---\ncollection: notes\nfields:\n  - { name: x, type: string, required: true, optional: true }\n---\n";
    assert!(matches!(
        Schema::from_markdown(content),
        Err(SchemaError::ContradictoryOptionality(_))
    ));
}

#[test]
fn no_frontmatter_errors() {
    assert!(matches!(
        Schema::from_markdown("no frontmatter here"),
        Err(SchemaError::NoFrontmatter)
    ));
}

#[test]
fn field_lookup_returns_none_for_missing() {
    let content = "---\ncollection: notes\nfields:\n  - { name: x, type: string }\n---\n";
    let schema = Schema::from_markdown(content).unwrap();
    assert!(schema.field("nonexistent").is_none());
}

#[test]
fn range_ignored_for_non_numeric_types() {
    let content =
        "---\ncollection: notes\nfields:\n  - { name: x, type: string, range: [1, 5] }\n---\n";
    let schema = Schema::from_markdown(content).unwrap();
    assert!(schema.field("x").unwrap().range.is_none());
}

#[test]
fn empty_fields_list() {
    let content = "---\ncollection: empty\nfields: []\n---\n";
    let schema = Schema::from_markdown(content).unwrap();
    assert_eq!(schema.collection, "empty");
    assert!(schema.fields.is_empty());
}

#[test]
fn remaining_schema_errors() {
    let error = |content: &str| Schema::from_markdown(content).err().unwrap();
    assert!(matches!(error("---\n[a]\n---\n"), SchemaError::NotAMapping));
    assert!(matches!(
        error("---\ncollection: c\nfields: [x]\n---\n"),
        SchemaError::FieldNotAMapping
    ));
    assert!(matches!(
        error("---\ncollection: c\nfields:\n  - { type: string }\n---\n"),
        SchemaError::MissingFieldName
    ));
    assert!(matches!(
        error("---\ncollection: c\nfields:\n  - { name: x }\n---\n"),
        SchemaError::MissingFieldType
    ));
    assert!(matches!(error("---\na: 1\n"), SchemaError::Frontmatter(_)));
    assert_eq!(
        error("---\ncollection: c\nfields:\n  - { name: x, type: blob }\n---\n").message(),
        "unknown field type: `blob`"
    );
}

#[test]
fn notations_are_trimmed() {
    let t = FieldType::parse("  enum< a | b >  ").unwrap();
    assert_eq!(t, FieldType::Enum(vec!["a".into(), "b".into()]));
    assert_eq!(t.to_text(), "enum<a|b>");
    assert_eq!(FieldType::parse(&t.to_text()).unwrap(), t);
    assert!(matches!(FieldType::parse("enum<a||b>"), Err(SchemaError::InvalidType(_))));
    assert!(matches!(FieldType::parse("array<blob>"), Err(SchemaError::UnknownType(_))));
}
