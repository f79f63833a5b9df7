use grexa_db::frontmatter::{
    fast_parse, is_core_float_shape, is_core_int_shape, is_flat, scan_one, split_raw, ScanOne,
};
use grexa_db::yaml::from_yaml;
use grexa_db::{split, FrontmatterError, Value};

fn parsed(head: &str) -> Option<Value> {
    serde_yaml_ng::from_str::<serde_yaml_ng::Value>(head)
        .ok()
        .map(|v| from_yaml(&v))
}

fn chars(s: &str) -> Vec<char> {
    s.chars().collect()
}

#[test]
fn fast_parse_equals_serde_over_corpus() {
    let values = [
        // bools / nulls (and 1.1-isms that are STRINGS in 1.2 core)
        "true",
        "false",
        "True",
        "TRUE",
        "False",
        "FALSE",
        "yes",
        "no",
        "on",
        "off",
        "y",
        "n",
        "null",
        "Null",
        "NULL",
        "~",
        "",
        // ints + fallbacks (leading zero, hex, octal, underscore, overflow)
        "0",
        "-0",
        "4",
        "-4",
        "+4",
        "42",
        "123456789",
        "04",
        "0123",
        "0x1F",
        "0o17",
        "1_000",
        "99999999999999999999",
        "-99999999999999999999",
        // floats / special (all must fall back to serde)
        "4.5",
        "-4.5",
        ".5",
        "5.",
        "1e5",
        "1E5",
        "1.5e3",
        "+1.0",
        ".inf",
        "-.inf",
        ".nan",
        "inf",
        "nan",
        // strings incl dates, words, punctuation
        "rust",
        "ai",
        "2024-01-01",
        "2024-12-31T23:59:59Z",
        "a b c",
        "true story",
        "mid:colon",
        "with-dash",
        "under_score",
        "dot.dot",
        "1abc",
        "abc1",
        "3d",
        "v1.2.3",
        // flow seqs
        "[1, 2, 3]",
        "[a, b]",
        "[]",
        "[rust, ai, ml]",
        "[true, false]",
        "[1, a, 2024-01-01]",
        "[nested, [x]]",
        "[a, \"b\"]",
        // must fall back: quotes, flow map, indicators, comments
        "\"quoted\"",
        "'single'",
        "{a: 1}",
        "#comment",
        "value # tail",
        "&anchor",
        "*alias",
        "| block",
        "> folded",
        "%TAG",
        "@at",
        "- item",
        "? key",
        ": colon",
    ];
    let mut fast_hits = 0;
    for v in values {
        let head = format!("k: {v}\n");
        if let Some(fast) = fast_parse(&head) {
            let full = parsed(&head).expect("the flat rules answered for invalid YAML");
            assert!(fast.same(&full), "fast_parse({head:?}) != serde");
            fast_hits += 1;
        }
    }
    assert!(fast_hits > 25, "fast path engaged too rarely ({fast_hits})");

    // Realistic multi-field heads + structural fallbacks.
    let heads = [
        "title: Note 1\ntags: [rust, db]\nrating: 4\nread_at: 2024-03-15\n",
        "a: 1\nb: two words\nc: [x, y]\nd: true\ne: null\nf: -7\ng: 2024-01-01\n",
        "nested:\n  a: 1\n", // indentation → fallback
        "a: 1\na: 2\n",      // duplicate key → fallback
        "blk: |\n  text\n",  // block scalar → fallback
        "n: 1.5\n",          // float → fallback
        "h: 0xFF\n",         // hex → fallback
        "c: red # nope\n",   // comment → fallback
        "4: x\nfive: 5\n",   // numeric key (fast path handles)
        // serde-error / odd shapes the fast path must NOT accept:
        ": invalid\n",
        "key:value\n", // no space → a plain scalar, not a mapping
        "a: 1\n: b\n",
    ];
    for head in heads {
        if let Some(fast) = fast_parse(head) {
            let full = parsed(head).expect("the flat rules answered for invalid YAML");
            assert!(fast.same(&full), "fast_parse({head:?}) != serde");
        }
    }
}

#[test]
fn no_frontmatter_returns_body_unchanged() {
    let result = split("just body\n").unwrap();
    assert!(result.frontmatter.is_none());
    assert_eq!(result.body, "just body\n");
}

#[test]
fn empty_file() {
    let result = split("").unwrap();
    assert!(result.frontmatter.is_none());
    assert_eq!(result.body, "");
}

#[test]
fn dashes_not_at_start_are_body() {
    let result = split("--- not frontmatter\n").unwrap();
    assert!(result.frontmatter.is_none());
    assert_eq!(result.body, "--- not frontmatter\n");
}

#[test]
fn simple_frontmatter_and_body() {
    let content = "---\ntitle: Hello\ntags: [a, b]\n---\nBody text.\n";
    let result = split(content).unwrap();
    let fm = result.frontmatter.expect("frontmatter should parse");
    assert_eq!(fm.get("title").unwrap().as_str(), Some("Hello"));
    assert_eq!(fm.get("tags").unwrap().as_sequence().unwrap()[0].as_str(), Some("a"));
    assert_eq!(fm.get("tags").unwrap().as_sequence().unwrap()[1].as_str(), Some("b"));
    assert_eq!(result.body, "Body text.\n");
}

#[test]
fn frontmatter_preserves_body_verbatim() {
    let content = "---\nk: v\n---\n# Heading\n\nParagraph with --- in it.\n";
    let result = split(content).unwrap();
    assert_eq!(result.body, "# Heading\n\nParagraph with --- in it.\n");
}

#[test]
fn empty_frontmatter_block() {
    let result = split("---\n---\nbody\n").unwrap();
    assert!(result.frontmatter.is_none());
    assert_eq!(result.body, "body\n");
}

#[test]
fn whitespace_only_frontmatter_is_none() {
    let result = split("---\n   \n  \n---\nbody\n").unwrap();
    assert!(result.frontmatter.is_none());
    assert_eq!(result.body, "body\n");
}

#[test]
fn unclosed_frontmatter_errors() {
    let result = split("---\ntitle: Hello\nbody without closer\n");
    assert!(matches!(result, Err(FrontmatterError::Unclosed)));
}

#[test]
fn closing_delimiter_at_eof_without_newline() {
    let content = "---\ntitle: Hello\n---";
    let result = split(content).unwrap();
    let fm = result.frontmatter.expect("frontmatter");
    assert_eq!(fm.get("title").unwrap().as_str(), Some("Hello"));
    assert_eq!(result.body, "");
}

#[test]
fn body_containing_dashes_is_preserved() {
    let content = "---\nk: v\n---\n---\n---\n";
    let result = split(content).unwrap();
    assert_eq!(result.body, "---\n---\n");
}

#[test]
fn crlf_line_endings() {
    let content = "---\r\ntitle: Hello\r\ntags: [a, b]\r\n---\r\nBody.\r\n";
    let result = split(content).unwrap();
    let fm = result.frontmatter.expect("frontmatter");
    assert_eq!(fm.get("title").unwrap().as_str(), Some("Hello"));
    assert_eq!(fm.get("tags").unwrap().as_sequence().unwrap()[0].as_str(), Some("a"));
    assert_eq!(result.body, "Body.\r\n");
}

#[test]
fn trailing_whitespace_after_closing_delimiter() {
    let result = split("---\nk: v\n---   \nbody\n").unwrap();
    assert_eq!(result.body, "body\n");
}

#[test]
fn bom_at_start_is_stripped() {
    let content = "\u{feff}---\nk: v\n---\nbody\n";
    let result = split(content).unwrap();
    let fm = result.frontmatter.expect("frontmatter");
    assert_eq!(fm.get("k").unwrap().as_str(), Some("v"));
    assert_eq!(result.body, "body\n");
}

#[test]
fn invalid_yaml_errors() {
    let result = split("---\n: invalid\n---\nbody\n");
    assert!(matches!(result, Err(FrontmatterError::Yaml(_))));
}

#[test]
fn nested_and_typed_values() {
    let content = "---\nmetadata:\n  author: Jane\n  year: 2024\nrating: 4.5\npublished: true\n---\nbody\n";
    let result = split(content).unwrap();
    let fm = result.frontmatter.expect("frontmatter");
    assert_eq!(fm.get("metadata").unwrap().get("author").unwrap().as_str(), Some("Jane"));
    assert_eq!(fm.get("metadata").unwrap().get("year").unwrap().as_i64(), Some(2024));
    assert_eq!(fm.get("rating").unwrap().as_double().map(f64::from_bits), Some(4.5));
    assert_eq!(fm.get("published").unwrap().as_bool(), Some(true));
}

#[test]
fn empty_array_value() {
    let content = "---\ntags: []\n---\nbody\n";
    let result = split(content).unwrap();
    let fm = result.frontmatter.expect("frontmatter");
    let tags = fm.get("tags").unwrap().as_sequence().expect("should be a sequence");
    assert!(tags.is_empty());
}

#[test]
fn bom_preserved_when_no_frontmatter() {
    let content = "\u{feff}just body with bom\n";
    let result = split(content).unwrap();
    assert!(result.frontmatter.is_none());
    assert_eq!(result.body, "\u{feff}just body with bom\n");
}

#[test]
fn head_and_body_make_up_the_file() {
    let content = "\u{feff}---\r\nk: v\r\n---  \r\nbody\r\n";
    let raw = split_raw(content).unwrap();
    assert_eq!(raw.head, Some("k: v\r\n"));
    assert_eq!(raw.body, "body\r\n");
}

#[test]
fn error_messages() {
    assert_eq!(
        FrontmatterError::Unclosed.message(),
        "frontmatter opened with `---` but never closed"
    );
    assert_eq!(
        FrontmatterError::Yaml("x".to_string()).message(),
        "invalid YAML in frontmatter: x"
    );
}

#[test]
fn number_shapes() {
    for s in ["0", "-0", "+4", "42", "0x1F", "-0x1f", "0o17", "0b101"] {
        assert!(is_core_int_shape(&chars(s)), "{s}");
    }
    for s in ["04", "", "-", "0x", "0xg", "0o8", "0b2", "1_000", "4.5"] {
        assert!(!is_core_int_shape(&chars(s)), "{s}");
    }
    for s in ["4.5", "-4.5", ".5", "5.", "1e5", "1E-5", "+1.0", ".inf", "-.INF", ".NaN"] {
        assert!(is_core_float_shape(&chars(s)), "{s}");
    }
    for s in ["4", ".", "1.2.3", "e5", "1e", "inf", "nan", "v1.2", ""] {
        assert!(!is_core_float_shape(&chars(s)), "{s}");
    }
}

#[test]
fn signed_radix_numbers_are_left_to_the_parser() {
    for v in ["-0x1F", "+0x1F", "0b101", "-0o17"] {
        let head = format!("k: {v}\n");
        assert!(fast_parse(&head).is_none(), "{v}");
        assert!(parsed(&head).unwrap().get("k").unwrap().as_i64().is_some());
    }
}

#[test]
fn whatever_the_flat_rules_answer_the_parser_answers() {
    // Odd spacing, control characters and separators at unusual places.
    let heads = [
        "a: b:\n",
        "a: [x, ]\n",
        "a: [, x]\n",
        "a: b\tc\n",
        "a: b \n",
        "a:\tb\n",
        "a: b\u{85}c\n",
        "a: b\u{2028}c\n",
        "a: \u{7}\n",
        "a: b\r\n",
        "a: b\rc: d\n",
        "a: x\t# y\n",
        "---: x\n",
        "a: ---\n",
        "[a]: b\n",
        "a : b\n",
        "é: ü\n",
        "a: [é, ü]\n",
        "a: [x y, true, 12, ~]\n",
        "a: b:c:d\n",
        "x: y\n...\n",
        "a: [b: c]\n",
        "a: [b#c]\n",
        "%a: b\n",
        "a: x#y\n",
        "a: 9223372036854775807\nb: -9223372036854775808\nc: 18446744073709551615\n",
    ];
    for head in heads {
        if let Some(fast) = fast_parse(head) {
            let full = parsed(head);
            assert!(full.is_some_and(|v| v.same(&fast)), "{head:?}");
        }
    }
}

#[test]
fn one_field_of_a_flat_head() {
    let head = "title: Hello\nrating: 4\nscore: 4.5\n";
    assert!(is_flat(head));
    assert!(matches!(scan_one(head, "rating"), ScanOne::Found(v) if v.as_i64() == Some(4)));
    assert!(matches!(scan_one(head, "absent"), ScanOne::Missing));
    assert!(matches!(scan_one(head, "score"), ScanOne::Unresolvable));
    assert!(!is_flat("a: 1\na: 2\n"));
    assert!(!is_flat("a:\n  b: 1\n"));
    assert!(!is_flat(""));
}

/// Random heads from characters and words that matter to YAML, each starting with
/// `start`.
fn random_heads(seed: u64, count: usize, start: &str) -> Vec<String> {
    let alphabet: Vec<char> =
        " :#-[]{},'\"\t\nabc01289.+eEfnulrtx~&*!|>%@`?o_é\u{85}\u{a0}\r\u{feff}\\/=<\u{2028}\u{7f}Ay"
            .chars()
            .collect();
    let words = [
        "a: ", "k: ", "null", "true", "[", "]", ", ", "\n", "\r\n", ": ", "0x1F", "-0o7", ".inf", "1e5",
        "- ", "? ", "---", "...", "<<", "b:", " #", "\t#", "x y", "[a, b]", "\"q\"", "=", "2024-01-01",
        "\na: ", "\nb: 4.5", "\n\n", ": 7\n", "c : ",
    ];
    let mut state = seed;
    let mut next = |n: usize| {
        state = state
            .wrapping_mul(6364136223846793005)
            .wrapping_add(1442695040888963407);
        ((state >> 33) as usize) % n
    };
    let mut heads = Vec::new();
    for _ in 0..count {
        let mut head = String::from(start);
        for _ in 0..next(9) {
            if next(3) == 0 {
                head.push_str(words[next(words.len())]);
            } else {
                head.push(alphabet[next(alphabet.len())]);
            }
        }
        if next(10) > 0 {
            head.push('\n');
        }
        heads.push(head);
    }
    heads
}

#[test]
fn flat_rules_agree_with_the_parser_on_random_heads() {
    let mut answered = 0;
    let mut wrong = Vec::new();
    for (seed, start) in [(1, "k: "), (2, ""), (3, "k: v\n"), (4, "k: [")] {
        for head in random_heads(seed, 40000, start) {
            if let Some(fast) = fast_parse(&head) {
                answered += 1;
                if !parsed(&head).is_some_and(|v| v.same(&fast)) {
                    wrong.push(head);
                }
            }
        }
    }
    assert!(wrong.is_empty(), "{wrong:?}");
    assert!(answered > 5000, "{answered}");
}

#[test]
fn flat_heads_are_valid_and_scan_like_the_parser() {
    let names = ["k", "a", "b", "c", "0", "x", "null"];
    let mut flat = 0;
    let mut wrong = Vec::new();
    for (seed, start) in [(5, "k: "), (6, ""), (7, "k: v\n"), (8, "k: [")] {
        for head in random_heads(seed, 40000, start) {
            if !is_flat(&head) {
                continue;
            }
            flat += 1;
            let Some(full) = parsed(&head) else {
                wrong.push(head);
                continue;
            };
            for name in names {
                let agrees = match (scan_one(&head, name), full.get(name)) {
                    (ScanOne::Found(v), Some(w)) => v.same(w),
                    (ScanOne::Missing, None) => true,
                    (ScanOne::Unresolvable, w) => w.is_some(),
                    _ => false,
                };
                if !agrees {
                    wrong.push(format!("{name} in {head}"));
                }
            }
        }
    }
    assert!(wrong.is_empty(), "{wrong:?}");
    assert!(flat > 5000, "{flat}");
}

/// All texts of up to `len` characters from the alphabet.
fn all_texts(alphabet: &str, len: usize) -> Vec<String> {
    let mut out = vec![String::new()];
    let mut last = out.clone();
    for _ in 0..len {
        last = last
            .iter()
            .flat_map(|s| alphabet.chars().map(move |c| format!("{s}{c}")))
            .collect();
        out.extend(last.iter().cloned());
    }
    out
}

fn wrong_answers(heads: impl Iterator<Item = String>) -> Vec<String> {
    heads
        .filter(|head| {
            fast_parse(head).is_some_and(|fast| !parsed(head).is_some_and(|v| v.same(&fast)))
        })
        .collect()
}

#[test]
fn flat_rules_agree_with_the_parser_on_all_short_values() {
    let texts = all_texts("a1:?#-.~+ ,\n", 4);
    let wrong = wrong_answers(texts.iter().map(|s| format!("k: {s}\n")));
    assert!(wrong.is_empty(), "{wrong:?}");
}

#[test]
fn flat_rules_agree_with_the_parser_on_all_short_lines() {
    let texts = all_texts("a1:?#-.~[] \n", 4);
    let wrong = wrong_answers(texts.iter().map(|s| format!("{s}: v\n")));
    assert!(wrong.is_empty(), "{wrong:?}");
    let wrong = wrong_answers(texts.iter().map(|s| format!("k: v\n{s}:\n")));
    assert!(wrong.is_empty(), "{wrong:?}");
}

#[test]
fn flat_rules_agree_with_the_parser_on_all_short_items() {
    let texts = all_texts("a1:?#-., \n", 5);
    let wrong = wrong_answers(texts.iter().map(|s| format!("k: [{s}]\n")));
    assert!(wrong.is_empty(), "{wrong:?}");
}

#[test]
fn what_the_parser_refuses_is_left_to_it() {
    let long = format!("{}: v\n", "k".repeat(1025));
    for head in ["... : v\n", "... x: v\n", "k: v\n... : v\n", "k: [a:?b]\n", "k: [x, a:?]\n", &long] {
        assert!(fast_parse(head).is_none(), "{head:?}");
        assert!(!is_flat(head), "{head:?}");
        assert!(parsed(head).is_none(), "{head:?}");
    }
    let longest = format!("{}: v\n", "k".repeat(1024));
    let answer = fast_parse(&longest).unwrap();
    assert!(parsed(&longest).unwrap().same(&answer));
    for head in ["...x: v\n", ".. : v\n", "k: a:?b\n", "k: [a:b]\n"] {
        let answer = fast_parse(head).unwrap();
        assert!(parsed(head).unwrap().same(&answer), "{head:?}");
    }
}
