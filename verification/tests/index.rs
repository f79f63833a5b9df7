use grexa_db::double::{compare_doubles, double_from_i64, double_from_u64};
use grexa_db::filter::{compare_values, values_equal};
use grexa_db::index::IndexedFile;
use grexa_db::key::index_key;
use grexa_db::record::RecordFile;
use grexa_db::text::Order;
use grexa_db::yaml::from_yaml;
use grexa_db::{Collection, Index, IndexError, IntoValue, Value};

fn double(f: f64) -> Value {
    from_yaml(&serde_yaml_ng::Value::from(f))
}

fn indexed(path: &str, content: &str, signature: Option<(u64, u64)>) -> IndexedFile {
    IndexedFile {
        file: RecordFile {
            path: path.to_string(),
            content: Ok(content.to_string()),
        },
        signature,
    }
}

fn sample() -> Vec<IndexedFile> {
    vec![
        indexed("a.md", "---\nn: 1\ntags: [x, y]\n---\n", Some((1, 10))),
        indexed("b.md", "---\nn: 2\ntags: [x]\n---\n", Some((2, 20))),
        indexed("c.md", "---\nn: 9\n---\n", None),
    ]
}

fn stamps(list: &[(&str, Option<(u64, u64)>)]) -> Vec<(String, Option<(u64, u64)>)> {
    list.iter().map(|(p, s)| (p.to_string(), *s)).collect()
}

#[test]
fn index_key_collapses_int_and_float_equal() {
    assert_eq!(index_key(&4i64.to_value()), index_key(&double(4.0)));
}

#[test]
fn index_key_separates_number_and_string() {
    assert_ne!(index_key(&4i64.to_value()), index_key(&"4".to_value()));
}

#[test]
fn index_key_skips_null() {
    assert_eq!(index_key(&Value::Null), None);
}

#[test]
fn exact_keys() {
    assert_eq!(index_key(&0i64.to_value()).unwrap(), "n8000000000000000");
    assert_eq!(index_key(&1i64.to_value()).unwrap(), "nbff0000000000000");
    assert_eq!(index_key(&(-1i64).to_value()).unwrap(), "n400fffffffffffff");
    assert_eq!(index_key(&double(-0.0)).unwrap(), "n8000000000000000");
    assert_eq!(index_key(&true.to_value()).unwrap(), "b1");
    assert_eq!(index_key(&"x y".to_value()).unwrap(), "sx y");
}

#[test]
fn keys_follow_the_order_of_values() {
    let numbers = [-1e300, -2.5, -1.0, -0.0, 0.5, 1.0, 1.5, 9e15, f64::INFINITY];
    for a in numbers {
        for b in numbers {
            let (x, y) = (double(a), double(b));
            let want = match a.partial_cmp(&b).unwrap() {
                std::cmp::Ordering::Less => Order::Less,
                std::cmp::Ordering::Equal => Order::Equal,
                std::cmp::Ordering::Greater => Order::Greater,
            };
            assert_eq!(compare_values(&x, &y), Some(want));
            let (k, l) = (index_key(&x).unwrap(), index_key(&y).unwrap());
            assert_eq!(k.cmp(&l), a.partial_cmp(&b).unwrap());
            assert_eq!(values_equal(&x, &y), a == b);
        }
    }
}

#[test]
fn integers_convert_like_the_machine() {
    let mut x: u64 = 1;
    for _ in 0..2000 {
        x = x.wrapping_mul(6364136223846793005).wrapping_add(1442695040888963407);
        for n in [x, x >> 9, x >> 11, x >> 40, u64::MAX - (x >> 50), (1 << 53) + (x >> 60)] {
            assert_eq!(double_from_u64(n), (n as f64).to_bits());
            assert_eq!(double_from_i64(n as i64), (n as i64 as f64).to_bits());
        }
    }
    for n in [0, 1, -1, i64::MIN, i64::MAX] {
        assert_eq!(double_from_i64(n), (n as f64).to_bits());
    }
}

#[test]
fn nothing_compares_with_nan() {
    let nan = f64::NAN.to_bits();
    assert_eq!(compare_doubles(nan, nan), None);
    assert!(!values_equal(&double(f64::NAN), &double(f64::NAN)));
    assert!(double(f64::NAN).same(&double(-f64::NAN)));
    assert_eq!(compare_doubles((0.0f64).to_bits(), (-0.0f64).to_bits()), Some(Order::Equal));
}

#[test]
fn built_index() {
    let idx = Index::build(&sample()).unwrap();
    assert_eq!(idx.record_count(), 2);
    assert!(idx.has_field("n"));
    assert!(!idx.has_field("absent"));
    assert_eq!(idx.posting("tags", "sx").unwrap(), &vec!["a.md", "b.md"]);
    assert_eq!(idx.posting("tags", "sy").unwrap(), &vec!["a.md"]);
    assert!(idx.posting("tags", "sz").is_none());
    assert!(idx.posting("absent", "sx").is_none());
    let broken = vec![indexed("a.md", "---\nnever closed\n", Some((1, 1)))];
    let e = Index::build(&broken).err().unwrap();
    assert!(matches!(&e, IndexError::Record(_)));
    assert_eq!(
        e.message(),
        "record error: frontmatter error: frontmatter opened with `---` but never closed"
    );
    assert_eq!(IndexError::Io("x".to_string()).message(), "I/O error: x");
    assert_eq!(IndexError::Serialize("x".to_string()).message(), "serialize error: x");
}

#[test]
fn tagged_sequences_are_indexed_by_item() {
    let files = vec![indexed("a.md", "---\nt: !list [x, y]\n---\n", Some((1, 1)))];
    let idx = Index::build(&files).unwrap();
    assert_eq!(idx.posting("t", "sx").unwrap(), &vec!["a.md"]);
}

#[test]
fn freshness() {
    let idx = Index::build(&sample()).unwrap();
    let same = [("a.md", Some((1, 10))), ("b.md", Some((2, 20)))];
    assert!(idx.is_fresh(&stamps(&same)));
    assert!(!idx.is_fresh(&stamps(&same[..1])));
    assert!(!idx.is_fresh(&stamps(&[("a.md", Some((1, 11))), ("b.md", Some((2, 20)))])));
    assert!(!idx.is_fresh(&stamps(&[("a.md", Some((9, 10))), ("b.md", Some((2, 20)))])));
    assert!(!idx.is_fresh(&stamps(&[("a.md", Some((1, 10))), ("c.md", Some((2, 20)))])));
    assert!(!idx.is_fresh(&stamps(&[("a.md", Some((1, 10))), ("b.md", None)])));
}

#[test]
fn reconciling_is_rebuilding() {
    let mut idx = Index::build(&sample()).unwrap();
    idx.reconcile(&[
        indexed("b.md", "---\nn: 7\n---\n", Some((3, 30))),
        indexed("a.md", "", None),
        indexed("d.md", "---\ntags: y\n---\n", Some((4, 40))),
    ])
    .unwrap();
    assert_eq!(idx.record_count(), 2);
    assert!(idx.is_fresh(&stamps(&[("b.md", Some((3, 30))), ("d.md", Some((4, 40)))])));
    assert_eq!(idx.posting("tags", "sy").unwrap(), &vec!["d.md"]);
    assert!(idx.posting("tags", "sx").unwrap().is_empty());
    let seven = index_key(&7i64.to_value()).unwrap();
    assert_eq!(idx.posting("n", &seven).unwrap(), &vec!["b.md"]);
}

#[test]
fn paths_may_be_reconciled_repeatedly() {
    let mut idx = Index::build(&sample()).unwrap();
    idx.reconcile(&[
        indexed("b.md", "---\nn: 7\n---\n", Some((3, 30))),
        indexed("b.md", "---\nn: 7\n---\n", Some((3, 30))),
        indexed("a.md", "", None),
        indexed("a.md", "", None),
    ])
    .unwrap();
    assert!(idx.is_fresh(&stamps(&[("b.md", Some((3, 30)))])));
    let seven = index_key(&7i64.to_value()).unwrap();
    let listed = idx.posting("n", &seven).unwrap();
    assert!(listed.iter().all(|p| p == "b.md") && !listed.is_empty());
    assert!(idx.posting("tags", "sx").unwrap().is_empty());
}

#[test]
fn reconciling_stops_at_an_error() {
    let mut idx = Index::build(&sample()).unwrap();
    let result = idx.reconcile(&[
        indexed("a.md", "---\nnever closed\n", Some((3, 30))),
        indexed("b.md", "---\nn: 7\n---\n", Some((3, 30))),
    ]);
    assert!(result.is_err());
    assert_eq!(idx.record_count(), 1);
    assert!(idx.posting("tags", "sx").unwrap().is_empty());
}

#[test]
fn saved_and_loaded() {
    let idx = Index::build(&sample()).unwrap();
    let mut saved = idx.save();
    assert_eq!(saved.version, 2);
    assert_eq!(saved.records.len(), 2);
    assert_eq!(saved.fields.len(), 2);
    assert_eq!(saved.fields[0].name, "n");
    assert_eq!(saved.fields[1].keys[0].0, "sx");
    let again = Index::load(idx.save()).unwrap();
    assert_eq!(again.record_count(), 2);
    assert_eq!(again.posting("tags", "sx").unwrap(), &vec!["a.md", "b.md"]);
    let schema = "---\ncollection: c\nfields: []\n---\n".to_string();
    let coll = Collection::open("/db/c", Ok(schema), Ok("/db/c".to_string())).unwrap();
    let (text, count) = coll.build_index(&sample()).unwrap();
    assert_eq!(count, 2);
    assert_eq!(coll.load_index(Some(&text)).unwrap().record_count(), 2);
    assert!(coll.load_index(Some("")).is_none());
    assert!(coll.load_index(None).is_none());
    saved.version = 1;
    assert!(Index::load(saved).is_none());
}

#[test]
fn index_text_is_exact() {
    let idx = Index::build(&sample()).unwrap();
    let expected = [
        r#"{"fields":{"n":{"nbff0000000000000":["a.md"],"nc000000000000000":["b.md"]},"#,
        r#""tags":{"sx":["a.md","b.md"],"sy":["a.md"]}},"#,
        r#""records":{"a.md":[1,10],"b.md":[2,20]},"version":2}"#,
    ]
    .concat();
    assert_eq!(idx.to_json().unwrap(), expected);
    let empty = Index::build(&[]).unwrap();
    assert_eq!(
        empty.to_json().unwrap(),
        r#"{"fields":{},"records":{},"version":2}"#
    );
}

#[test]
fn index_text_reads_back() {
    let mut files = sample();
    files.push(indexed(
        "sub dir/\u{e9}\"\\.md",
        "---\nn: -0.1\nname: \"a\\\"b\\n\u{1f600}\"\n---\n",
        Some((u64::MAX, 0)),
    ));
    let idx = Index::build(&files).unwrap();
    let text = idx.to_json().unwrap();
    let again = Index::from_json(&text).unwrap();
    assert_eq!(again.to_json().unwrap(), text);
    assert_eq!(again.record_count(), 3);
    assert_eq!(again.posting("tags", "sx"), idx.posting("tags", "sx"));
    assert_eq!(
        again.posting("name", "sa\"b\n\u{1f600}").unwrap(),
        &vec!["sub dir/\u{e9}\"\\.md"]
    );
    assert!(again.is_fresh(&stamps(&[
        ("a.md", Some((1, 10))),
        ("b.md", Some((2, 20))),
        ("sub dir/\u{e9}\"\\.md", Some((u64::MAX, 0))),
    ])));
}

#[test]
fn index_text_of_another_writer() {
    let text = r#" { "version": 2, "other": 1.5, "records": {"a.md": [3, 4]},
        "fields": {"n": {"sx": ["b.md", "a.md", "a.md"]}, "m": {}} } "#;
    let idx = Index::from_json(text).unwrap();
    assert_eq!(idx.record_count(), 1);
    assert_eq!(
        idx.posting("n", "sx").unwrap(),
        &vec!["b.md", "a.md", "a.md"]
    );
    assert!(idx.posting("n", "sy").is_none());
    assert!(idx.is_fresh(&stamps(&[("a.md", Some((3, 4)))])));
    assert!(!idx.is_fresh(&stamps(&[("a.md", Some((3, 5)))])));
}

#[test]
fn index_text_that_holds_no_index() {
    for text in [
        "",
        "no json",
        "null",
        "[2]",
        r#"{"version":2"#,
        r#"{"version":2,"records":{},"fields":{}} x"#,
        r#"{"records":{},"fields":{}}"#,
        r#"{"version":2,"fields":{}}"#,
        r#"{"version":2,"records":{}}"#,
        r#"{"version":1,"records":{},"fields":{}}"#,
        r#"{"version":3,"records":{},"fields":{}}"#,
        r#"{"version":"2","records":{},"fields":{}}"#,
        r#"{"version":2.0,"records":{},"fields":{}}"#,
        r#"{"version":-2,"records":{},"fields":{}}"#,
        r#"{"version":2,"records":[],"fields":{}}"#,
        r#"{"version":2,"records":{"a":[1]},"fields":{}}"#,
        r#"{"version":2,"records":{"a":[1,2,3]},"fields":{}}"#,
        r#"{"version":2,"records":{"a":[1,-1]},"fields":{}}"#,
        r#"{"version":2,"records":{},"fields":{"n":["a"]}}"#,
        r#"{"version":2,"records":{},"fields":{"n":{"k":"a"}}}"#,
        r#"{"version":2,"records":{},"fields":{"n":{"k":[1]}}}"#,
    ] {
        assert!(Index::from_json(text).is_none(), "{text}");
    }
    assert!(Index::from_json(r#"{"version":2,"records":{},"fields":{}}"#).is_some());
}
