use grexa_db::record::RecordFile;
use grexa_db::yaml::from_yaml;
use grexa_db::{split, Record, RecordError, Value};

fn same(a: &Option<Value>, b: Option<&Value>) -> bool {
    match (a, b) {
        (Some(x), Some(y)) => x.same(y),
        (None, None) => true,
        _ => false,
    }
}

#[test]
fn record_with_frontmatter_and_body() {
    let content = "---\ntitle: Hello\nrating: 4\n---\nBody text.\n";
    let r = Record::from_content("note.md", content).unwrap();
    assert_eq!(r.path(), "note.md");
    assert!(r.has_frontmatter());
    assert_eq!(r.field("title").unwrap().as_str(), Some("Hello"));
    assert_eq!(r.field("rating").unwrap().as_i64(), Some(4));
    assert_eq!(r.body(), "Body text.\n");
}

#[test]
fn record_without_frontmatter() {
    let content = "Just markdown, no frontmatter.\n";
    let r = Record::from_content("note.md", content).unwrap();
    assert!(!r.has_frontmatter());
    assert!(r.field("title").is_none());
    assert_eq!(r.body(), "Just markdown, no frontmatter.\n");
}

#[test]
fn missing_field_returns_none() {
    let content = "---\ntitle: Hello\n---\nbody\n";
    let r = Record::from_content("note.md", content).unwrap();
    assert!(r.field("nonexistent").is_none());
}

#[test]
fn array_field_access() {
    let content = "---\ntags: [rust, db, flat-file]\n---\nbody\n";
    let r = Record::from_content("note.md", content).unwrap();
    let tags = r.field("tags").unwrap();
    let seq = tags.as_sequence().unwrap();
    assert_eq!(seq.len(), 3);
    assert_eq!(seq[0].as_str(), Some("rust"));
    assert_eq!(seq[2].as_str(), Some("flat-file"));
}

#[test]
fn debug_does_not_dump_full_body() {
    let content = "---\nk: v\n---\nvery long body ".repeat(100);
    let r = Record::from_content("note.md", &content).unwrap();
    let debug = r.summary();
    assert!(debug.contains("body_len"));
    assert!(!debug.contains("very long body very long body"));
}

/// The fast single-field path must return exactly what the full parse would.
/// Covers flat heads (lazy scan) and complex/eager heads (full fallback),
/// plus values the scanner punts on (must agree via the eager fallback).
#[test]
fn field_scalar_equals_field_over_corpus() {
    let heads = [
        // flat, fast-resolvable
        "title: Hello\nrating: 4\nactive: true\nscore: 4.0\n",
        "name: thing\ntags: [a, b, c]\nn: -17\nf: 1.5e3\n",
        "a: 0x1F\nb: 0o17\nc: .inf\nd: .nan\ne: null\n",
        "iso: 2026-06-18\nflag: false\nempty_seq: []\n",
        // strings that look tricky but are plain
        "url: https://example.com/path\nv: v1.2.3\n",
        // space before the colon — key is `author`/`year`, not `author `
        "author : Jane\nyear : 2026\n",
        // numeric / bool / null keys — eager path keys them like serde
        "4: x\ntrue: y\nnull: z\nnormal: ok\n",
        // complex → eager fallback (nested mapping, block seq)
        "meta:\n  author: x\n  year: 2026\nitems:\n  - one\n  - two\n",
        // quoted / flow map → scanner punts, eager resolves
        "q: \"has: colon\"\nm: {x: 1, y: 2}\n",
    ];
    let names = [
        "title",
        "rating",
        "active",
        "score",
        "name",
        "tags",
        "n",
        "f",
        "a",
        "b",
        "c",
        "d",
        "e",
        "iso",
        "flag",
        "empty_seq",
        "url",
        "v",
        "meta",
        "items",
        "q",
        "m",
        "author",
        "year",
        "4",
        "true",
        "null",
        "normal",
        "absent",
    ];
    for head in heads {
        let content = format!("---\n{head}---\nbody\n");
        let r = Record::from_content("note.md", &content).unwrap();
        for name in names {
            assert!(
                same(&r.field_scalar(name), r.field(name)),
                "field_scalar disagreed with field for {name:?} in head:\n{head}"
            );
        }
    }
}

/// Exhaustive single-field cartesian: every key token paired with every
/// value token. If the record parses, `field_scalar` must equal `field` for
/// the key and a few absent names — the core lazy-vs-full invariant.
#[test]
fn field_scalar_equals_field_cartesian() {
    let keys = [
        "k",
        "title",
        "a b",
        "with-dash",
        "under_score",
        "dot.dot",
        "x1",
        // tricky keys that must route through the eager path:
        "4",
        "true",
        "false",
        "null",
        "1abc",
    ];
    let vals = [
        "",
        "hello",
        "two words",
        "true",
        "false",
        "null",
        "~",
        "0",
        "4",
        "-7",
        "+3",
        "04",
        "0x1F",
        "0o17",
        "1_000",
        "4.5",
        ".5",
        "1e5",
        ".inf",
        ".nan",
        "2024-01-01",
        "2024-12-31T23:59:59Z",
        "v1.2.3",
        "[a, b]",
        "[]",
        "[1, 2, 3]",
        "mid:colon",
        "https://x/y",
        "yes",
        "no",
    ];
    let probes = ["k", "title", "a b", "4", "true", "null", "absent", "x1"];
    for key in keys {
        for val in vals {
            let head = if val.is_empty() {
                format!("{key}:\n")
            } else {
                format!("{key}: {val}\n")
            };
            let content = format!("---\n{head}---\nb\n");
            let Ok(r) = Record::from_content("n.md", &content) else {
                continue; // serde-invalid head — both paths would error
            };
            for name in probes {
                assert!(
                    same(&r.field_scalar(name), r.field(name)),
                    "field_scalar != field for {name:?} in head {head:?}"
                );
            }
        }
    }
}

/// A duplicate key that only differs by spacing (`a ` vs `a`) must still be
/// rejected — the flat fast-path must not silently accept what serde errors
/// on, or it would change which records are even readable.
#[test]
fn spacing_duplicate_key_still_errors() {
    let content = "---\na : 1\na: 2\n---\nbody\n";
    assert!(
        Record::from_content("n.md", content).is_err(),
        "duplicate key differing only by spacing must error like serde"
    );
}

/// Randomized multi-line differential fuzz: a finite corpus can't prove a
/// hand-rolled parser, so generate thousands of small heads and assert both
/// invariants — (1) the lazy `field_scalar` matches the full `field`, and
/// (2) the full parse matches serde byte-for-byte. Deterministic LCG so a
/// failure reproduces from the printed seed.
#[test]
fn fuzz_field_scalar_and_full_match_serde() {
    // tokens chosen to stress key trimming, numeric/bool/null typing,
    // fallback triggers (hex/float/quote/comment), and flow seqs.
    let keys = ["k", "title", "a b", "4", "true", "null", "x_1", "with-dash"];
    let vals = [
        "",
        "hi",
        "two words",
        "true",
        "false",
        "null",
        "~",
        "0",
        "-7",
        "04",
        "0x1F",
        "1_000",
        "4.5",
        "1e5",
        ".inf",
        "2024-01-01",
        "[a, b]",
        "[]",
        "mid:colon",
        "v1.2.3",
        "yes",
    ];
    let mut state: u64 = 0x9e3779b97f4a7c15;
    let mut next = |n: usize| {
        state = state
            .wrapping_mul(6364136223846793005)
            .wrapping_add(1442695040888963407);
        ((state >> 33) as usize) % n
    };
    let probes = [
        "k",
        "title",
        "a b",
        "4",
        "true",
        "null",
        "x_1",
        "with-dash",
        "absent",
    ];
    for _ in 0..8000 {
        let lines = 1 + next(4);
        let mut head = String::new();
        for _ in 0..lines {
            let k = keys[next(keys.len())];
            let v = vals[next(vals.len())];
            if v.is_empty() {
                head.push_str(&format!("{k}:\n"));
            } else {
                head.push_str(&format!("{k}: {v}\n"));
            }
        }
        let content = format!("---\n{head}---\nb\n");
        let Ok(r) = Record::from_content("n.md", &content) else {
            // serde-invalid (e.g. duplicate key) — both paths error alike.
            assert!(
                serde_yaml_ng::from_str::<serde_yaml_ng::Value>(&head).is_err(),
                "we errored but serde accepts head {head:?}"
            );
            continue;
        };
        // (1) lazy single-field == full field
        for name in probes {
            assert!(
                same(&r.field_scalar(name), r.field(name)),
                "field_scalar != field for {name:?} in head {head:?}"
            );
        }
        // (2) full parse == serde, exactly
        let serde_v: serde_yaml_ng::Value =
            serde_yaml_ng::from_str(&head).expect("flat head is valid YAML");
        assert!(
            r.frontmatter().same(&from_yaml(&serde_v)),
            "full parse diverged from serde for head {head:?}"
        );
    }
}

#[test]
fn json_of_frontmatter() {
    let flat = Record::from_content("n.md", "---\ntitle: A\ntags: [x, 2]\nok: true\n---\nb").unwrap();
    assert_eq!(flat.frontmatter_json(), "{\"title\":\"A\",\"tags\":[\"x\",2],\"ok\":true}");
    let deep = Record::from_content("n.md", "---\nscore: 4.5\nm: {x: 1}\n---\nb").unwrap();
    assert_eq!(deep.frontmatter_json(), "{\"score\":4.5,\"m\":{\"x\":1}}");
    let none = Record::from_content("n.md", "body").unwrap();
    assert_eq!(none.frontmatter_json(), "null");
    let odd_key = Record::from_content("n.md", "---\n? [a, b]\n: c\n---\nb").unwrap();
    assert_eq!(odd_key.frontmatter_json(), "{}");
}

#[test]
fn summary_of_a_record() {
    let r = Record::from_content("n.md", "---\nk: v\n---\né\n").unwrap();
    assert_eq!(r.summary(), "n.md: {\"k\":\"v\"}, body_len: 3");
}

#[test]
fn a_flat_head_that_the_parser_refuses_is_an_error() {
    for head in [
        "k: 99999999999999999999\n",
        "a: b\nk: 99999999999999999999\n",
        "... : v\n",
        "k: [a:?b]\n",
    ] {
        let content = format!("---\n{head}---\nbody\n");
        assert!(Record::from_content("n.md", &content).is_err(), "{head:?}");
        assert!(split(&content).is_err(), "{head:?}");
    }
}

#[test]
fn fields_scan_like_they_parse_beside_floats() {
    let r = Record::from_content("n.md", "---\na: b\nf: 4.5\nh: 0x1F\n---\n").unwrap();
    for name in ["a", "f", "h", "absent"] {
        assert!(same(&r.field_scalar(name), r.field(name)), "{name}");
    }
    assert_eq!(r.field_scalar("h").unwrap().as_i64(), Some(31));
}

#[test]
fn record_error_messages() {
    let unclosed = Record::from_content("n.md", "---\na: 1\n").err().unwrap();
    assert_eq!(
        unclosed.message(),
        "frontmatter error: frontmatter opened with `---` but never closed"
    );
    let unread = RecordFile {
        path: "n.md".to_string(),
        content: Err("gone".to_string()),
    };
    let e = unread.record().err().unwrap();
    assert!(matches!(&e, RecordError::ReadFile { path, .. } if path == "n.md"));
    assert_eq!(e.message(), "failed to read record file `n.md`: gone");
    assert_eq!(
        RecordError::InvalidPath("x".to_string()).message(),
        "invalid record path `x`: absolute paths, `..`, and backslashes are not allowed"
    );
}

#[test]
fn tagged_values_are_seen_through() {
    let r = Record::from_content("n.md", "---\nn: !age 7\ns: !list [a, b]\n---\n").unwrap();
    assert_eq!(r.field("n").unwrap().as_i64(), Some(7));
    assert_eq!(r.field("s").unwrap().as_sequence().unwrap().len(), 2);
}
