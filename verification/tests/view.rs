use grexa_db::record::RecordFile;
use grexa_db::view::{
    encode_segment, extract_group_values, gc_generations, gen_id, symlink_target,
    validate_view_name, ViewPlan,
};
use grexa_db::{Collection, Db, MaterializeError, Query, Record, RecordError};

const NOTES_SCHEMA: &str = "---\ncollection: notes\nfields:\n  - { name: title, type: string }\n  - { name: tags, type: \"array<string>\" }\n  - { name: rating, type: integer }\n---\n";

fn make_db() -> Vec<RecordFile> {
    [
        ("alpha.md", "---\ntitle: Alpha\ntags: [rust, db]\nrating: 5\n---\nAlpha body.\n"),
        ("beta.md", "---\ntitle: Beta\ntags: [python]\nrating: 3\n---\nBeta body.\n"),
        ("delta.md", "---\ntitle: Delta\nrating: 1\n---\nDelta body (no tags).\n"),
        ("gamma.md", "---\ntitle: Gamma\ntags: [rust, ai]\nrating: 4\n---\nGamma body.\n"),
    ]
    .iter()
    .map(|(path, content)| RecordFile {
        path: path.to_string(),
        content: Ok(content.to_string()),
    })
    .collect()
}

fn notes() -> Collection {
    Collection::open("/db/notes", Ok(NOTES_SCHEMA.to_string()), Ok("/db/notes".to_string())).unwrap()
}

fn view(
    name: &str,
    query: Query<'_>,
    files: &[RecordFile],
    group_by: Option<&str>,
    generation: &str,
) -> Result<ViewPlan, MaterializeError> {
    let db = Db::open("/db", true, Ok("/db".to_string())).unwrap();
    db.materialize_view(name, &query, files, group_by, generation)
}

fn links(plan: &ViewPlan) -> Vec<&str> {
    plan.links.iter().map(|l| l.path.as_str()).collect()
}

#[test]
fn flat_view_creates_symlinks() {
    let files = make_db();
    let coll = notes();
    let plan = view("all-notes", coll.query(), &files, None, "gen-1-0").unwrap();
    assert_eq!(plan.published, "all-notes");
    assert_eq!(plan.generation, ".generations/gen-1-0");
    assert_eq!(plan.swap, ".all-notes.swap-gen-1-0");
    assert_eq!(links(&plan), vec!["alpha.md", "beta.md", "delta.md", "gamma.md"]);
}

#[test]
fn grouped_view_by_tags() {
    let files = make_db();
    let coll = notes();
    let plan = view("by-tag", coll.query(), &files, Some("tags"), "gen-1-0").unwrap();
    let links = links(&plan);
    assert!(links.contains(&"rust/alpha.md"));
    assert!(links.contains(&"rust/gamma.md"));
    assert!(links.contains(&"python/beta.md"));
    assert!(links.contains(&"ai/gamma.md"));
    assert!(links.contains(&"db/alpha.md"));
}

#[test]
fn grouped_view_missing_field_goes_to_ungrouped() {
    let files = make_db();
    let coll = notes();
    let plan = view("by-tag", coll.query(), &files, Some("tags"), "gen-1-0").unwrap();
    assert!(links(&plan).contains(&"_ungrouped/delta.md"));
}

#[test]
fn symlinks_resolve_to_correct_files() {
    let files = make_db();
    let coll = notes();
    for group_by in [None, Some("tags")] {
        let plan = view("all-notes", coll.query(), &files, group_by, "gen-1-0").unwrap();
        for link in &plan.links {
            let place = format!("views/{}/{}", plan.generation, link.path);
            let mut at: Vec<&str> = place.split('/').collect();
            at.pop();
            for part in link.target.split('/') {
                if part == ".." {
                    at.pop().expect("the link stays in the database");
                } else {
                    at.push(part);
                }
            }
            let file = link.path.rsplit('/').next().unwrap();
            assert_eq!(at, vec!["notes", file]);
        }
    }
}

#[test]
fn re_materialize_replaces_atomically() {
    let files = make_db();
    let coll = notes();
    let first = view("my-view", coll.query(), &files, None, &gen_id(1, 0)).unwrap();
    let second = view("my-view", coll.query(), &files, None, &gen_id(1, 1)).unwrap();
    assert_ne!(first.generation, second.generation);
    assert_eq!(first.published, second.published);
}

#[test]
fn filtered_view_only_includes_matches() {
    let files = make_db();
    let coll = notes();
    let plan = view("high-rated", coll.query().filter("rating").ge(4), &files, None, "gen-1-0").unwrap();
    assert_eq!(links(&plan), vec!["alpha.md", "gamma.md"]);
}

#[test]
fn empty_result_set_creates_empty_view() {
    let files = make_db();
    let coll = notes();
    let plan = view("empty", coll.query().filter("rating").ge(100), &files, None, "gen-1-0").unwrap();
    assert!(plan.links.is_empty());
    assert_eq!(plan.published, "empty");
}

#[test]
fn view_name_validation_rejects_path_traversal() {
    let files = make_db();
    let coll = notes();
    assert!(view("../escape", coll.query(), &files, None, "gen-1-0").is_err());
    assert!(view("sub/dir", coll.query(), &files, None, "gen-1-0").is_err());
    assert!(view(".hidden", coll.query(), &files, None, "gen-1-0").is_err());
}

#[test]
fn group_value_encoding_handles_special_chars() {
    let files = vec![RecordFile {
        path: "special.md".to_string(),
        content: Ok("---\ntags: [\"a/b\", \"x y\", \"café\"]\nrating: 1\n---\nbody\n".to_string()),
    }];
    let coll = notes();
    let plan = view("encoded", coll.query(), &files, Some("tags"), "gen-1-0").unwrap();
    assert_eq!(
        links(&plan),
        vec!["a%2Fb/special.md", "x%20y/special.md", "caf%C3%A9/special.md"]
    );
}

#[test]
fn old_generations_are_garbage_collected() {
    let names: Vec<String> = ["gen-1-0", "gen-1-1", "gen-2-0", "other"]
        .iter()
        .map(|s| s.to_string())
        .collect();
    let targets: Vec<String> = [".generations/gen-1-1", ".generations/gen-2-0/", "/elsewhere/.."]
        .iter()
        .map(|s| s.to_string())
        .collect();
    assert_eq!(gc_generations(&names, &targets), vec!["gen-1-0"]);
    assert_eq!(gc_generations(&names, &[]), vec!["gen-1-0", "gen-1-1", "gen-2-0"]);
}

#[test]
fn grouped_filtered_view_combines_correctly() {
    let files = make_db();
    let coll = notes();
    let query = coll
        .query()
        .filter("rating")
        .ge(4)
        .filter("tags")
        .contains_any(&["rust"]);
    let plan = view("rust-high-rated", query, &files, Some("tags"), "gen-1-0").unwrap();
    let links = links(&plan);
    assert!(links.contains(&"rust/alpha.md"));
    assert!(links.contains(&"rust/gamma.md"));
    assert!(!links.iter().any(|l| l.starts_with("python/")));
}

#[test]
fn symlink_target_depth_is_correct() {
    let target = symlink_target(true, "notes", "alpha.md");
    assert_eq!(target, "../../../../notes/alpha.md");

    let target = symlink_target(false, "notes", "alpha.md");
    assert_eq!(target, "../../../notes/alpha.md");

    let target = symlink_target(true, "notes", "2024/03/deep.md");
    assert_eq!(target, "../../../../../../notes/2024/03/deep.md");
}

#[test]
fn encode_segment_rejects_dots() {
    assert!(encode_segment(".").is_err());
    assert!(encode_segment("..").is_err());
    assert!(encode_segment("").is_err());
}

#[test]
fn encode_segment_preserves_safe_chars() {
    assert_eq!(encode_segment("rust").unwrap(), "rust");
    assert_eq!(encode_segment("hello-world").unwrap(), "hello-world");
    assert_eq!(encode_segment("file_v2.0").unwrap(), "file_v2.0");
    assert_eq!(encode_segment("café").unwrap(), "caf%C3%A9");
}

#[test]
fn encoded_segments_are_limited() {
    assert_eq!(encode_segment(&"a".repeat(240)).unwrap().len(), 240);
    assert!(matches!(
        encode_segment(&"a".repeat(241)),
        Err(MaterializeError::GroupValueTooLong(_))
    ));
    assert!(matches!(
        encode_segment(&" ".repeat(81)),
        Err(MaterializeError::GroupValueTooLong(_))
    ));
    assert_eq!(encode_segment("...").unwrap(), "...");
    assert_eq!(encode_segment("a%b~").unwrap(), "a%25b~");
}

#[test]
fn group_values_of_all_kinds() {
    let r = Record::from_content(
        "r.md",
        "---\na: [x, 5, -3, 1.5, 1e30, true, null, {k: v}]\nb: 18446744073709551615\nc: null\nd: false\n---\n",
    )
    .unwrap();
    assert_eq!(
        extract_group_values(&r, "a"),
        vec!["x", "5", "-3", "1.5", "1000000000000000000000000000000", "true"]
    );
    assert_eq!(extract_group_values(&r, "b"), vec!["18446744073709552000"]);
    assert!(extract_group_values(&r, "c").is_empty());
    assert_eq!(extract_group_values(&r, "d"), vec!["false"]);
    assert_eq!(extract_group_values(&r, "e"), vec!["_ungrouped"]);
}

#[test]
fn limits_and_orders_hold_for_views() {
    let files = make_db();
    let coll = notes();
    let plan = view("v", coll.query().limit(2), &files, None, "gen-1-0").unwrap();
    assert_eq!(links(&plan), vec!["alpha.md", "beta.md"]);
    let best = coll.query().order_by("rating").desc().limit(2);
    let plan = view("v", best, &files, None, "gen-1-0").unwrap();
    assert_eq!(links(&plan), vec!["alpha.md", "gamma.md"]);
}

#[test]
fn generation_ids() {
    assert_eq!(gen_id(255, 7), "gen-ff-7");
    assert_eq!(gen_id(0, 10), "gen-0-10");
    assert_ne!(gen_id(1, 23), gen_id(12, 3));
}

#[test]
fn materialize_errors() {
    let files = make_db();
    let coll = notes();
    assert_eq!(
        validate_view_name("").err().unwrap().message(),
        "invalid view name: view name is empty"
    );
    assert_eq!(
        validate_view_name("a/b").err().unwrap().message(),
        "invalid view name: view name `a/b` contains a path separator"
    );
    assert_eq!(
        validate_view_name(".a").err().unwrap().message(),
        "invalid view name: view name `.a` starts with `.`"
    );
    let mut bad = files.clone();
    bad.push(RecordFile {
        path: "z.md".to_string(),
        content: Err("denied".to_string()),
    });
    let e = view("v", coll.query(), &bad, None, "gen-1-0").err().unwrap();
    assert!(matches!(&e, MaterializeError::Record(RecordError::ReadFile { .. })));
    assert_eq!(
        e.message(),
        "record error: failed to read record file `z.md`: denied"
    );
    let mut bad_group = vec![RecordFile {
        path: "a.md".to_string(),
        content: Ok("---\ntags: ['']\n---\n".to_string()),
    }];
    bad_group.push(bad[4].clone());
    let e = view("v", coll.query(), &bad_group, Some("tags"), "gen-1-0").err().unwrap();
    assert!(matches!(e, MaterializeError::EmptyGroupValue));
    let empty = vec![RecordFile {
        path: "e.md".to_string(),
        content: Ok("---\ntags: ['']\n---\n".to_string()),
    }];
    let e = view("v", coll.query(), &empty, Some("tags"), "gen-1-0").err().unwrap();
    assert_eq!(e.message(), "group value is empty");
    let dots = vec![RecordFile {
        path: "e.md".to_string(),
        content: Ok("---\ntags: [..]\n---\n".to_string()),
    }];
    let e = view("v", coll.query(), &dots, Some("tags"), "gen-1-0").err().unwrap();
    assert_eq!(e.message(), "group value `..` is invalid (encodes to `.` or `..`)");
    assert_eq!(MaterializeError::Io("x".to_string()).message(), "I/O error: x");
}
