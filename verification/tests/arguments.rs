use grexa_db::arguments::{apply_filter, argument_value, parse_filter, Operator};
use grexa_db::record::RecordFile;
use grexa_db::yaml::from_yaml;
use grexa_db::{Collection, Value, VERSION};

fn double(text: &str) -> Option<Value> {
    text.parse::<f64>()
        .ok()
        .map(|f| from_yaml(&serde_yaml_ng::Value::from(f)))
}

#[test]
fn filters_from_text() {
    let a = parse_filter("rating:ge:4").unwrap();
    assert_eq!((a.field.as_str(), a.operator, a.value.as_str()), ("rating", Operator::Ge, "4"));
    let b = parse_filter("at:eq:10:20:30").unwrap();
    assert_eq!(b.value, "10:20:30");
    let c = parse_filter("tags:contains:").unwrap();
    assert_eq!((c.operator, c.value.as_str()), (Operator::Contains, ""));
    assert_eq!(
        parse_filter("rating:4").err().unwrap(),
        "malformed filter `rating:4` — expected field:op:value"
    );
    assert_eq!(
        parse_filter("rating").err().unwrap(),
        "malformed filter `rating` — expected field:op:value"
    );
    assert_eq!(
        parse_filter("rating:like:4").err().unwrap(),
        "unknown operator `like` in filter `rating:like:4`"
    );
}

#[test]
fn values_from_text() {
    let value = |t: &str| argument_value(t, double(t));
    assert_eq!(value("42").as_i64(), Some(42));
    assert_eq!(value("+7").as_i64(), Some(7));
    assert_eq!(value("-007").as_i64(), Some(-7));
    assert_eq!(value("-9223372036854775808").as_i64(), Some(i64::MIN));
    assert_eq!(value("4.5").as_double().map(f64::from_bits), Some(4.5));
    assert_eq!(value("9223372036854775808").as_double().map(f64::from_bits), Some(9223372036854775808.0));
    assert_eq!(value("true").as_bool(), Some(true));
    assert_eq!(value("false").as_bool(), Some(false));
    assert_eq!(value("True").as_str(), Some("True"));
    assert_eq!(value("-").as_str(), Some("-"));
    assert_eq!(value("").as_str(), Some(""));
    assert_eq!(value("2024-01-01").as_str(), Some("2024-01-01"));
}

#[test]
fn filters_are_applied() {
    let schema = "---\ncollection: c\nfields: []\n---\n";
    let coll = Collection::open("/db/c", Ok(schema.to_string()), Ok("/db/c".to_string())).unwrap();
    let files: Vec<RecordFile> = (1..=5)
        .map(|i| RecordFile {
            path: format!("{i}.md"),
            content: Ok(format!("---\nn: {i}\n---\n")),
        })
        .collect();
    let count = |text: &str| {
        let a = parse_filter(text).unwrap();
        let query = apply_filter(coll.query(), &a, double(&a.value));
        query.collect_par(&files).unwrap().len()
    };
    assert_eq!(count("n:eq:3"), 1);
    assert_eq!(count("n:ne:3"), 4);
    assert_eq!(count("n:lt:3"), 2);
    assert_eq!(count("n:le:3"), 3);
    assert_eq!(count("n:gt:2.5"), 3);
    assert_eq!(count("n:ge:3"), 3);
    assert_eq!(count("n:contains:3"), 1);
    assert_eq!(count("n:eq:three"), 0);
    assert_eq!(VERSION, "1.9.1");
}
