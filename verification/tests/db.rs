use grexa_db::arguments::{problem_line, verdict};
use grexa_db::collection::{ReadEvent, ReadStep};
use grexa_db::db::{DbEntry, Report};
use grexa_db::record::RecordFile;
use grexa_db::walk::{DirEntry, EntryKind, Walk};
use grexa_db::{Collection, Db, DbError, Record, RecordError, Severity, ValidationError};

const NOTES_SCHEMA: &str =
    "---\ncollection: notes\nfields:\n  - { name: title, type: string }\n---\n";
const BOOKMARKS_SCHEMA: &str =
    "---\ncollection: bookmarks\nfields:\n  - { name: url, type: string }\n---\n";

/// The files of a database by path, and its directories.
struct Disk {
    files: Vec<(&'static str, &'static str)>,
    dirs: Vec<&'static str>,
}

fn make_db() -> Disk {
    Disk {
        files: vec![
            ("notes/schema.md", NOTES_SCHEMA),
            ("bookmarks/schema.md", BOOKMARKS_SCHEMA),
            ("notes/a.md", "---\ntitle: Alpha\n---\nbody\n"),
            ("bookmarks/rust.md", "---\nurl: https://rust-lang.org\n---\nbody\n"),
        ],
        dirs: vec!["notes", "bookmarks"],
    }
}

impl Disk {
    fn read(&self, path: &str) -> Result<String, String> {
        self.files
            .iter()
            .find(|(p, _)| *p == path)
            .map(|(_, c)| c.to_string())
            .ok_or("No such file or directory".to_string())
    }

    fn entries(&self) -> Vec<Result<DbEntry, String>> {
        self.dirs
            .iter()
            .map(|d| {
                Ok(DbEntry {
                    name: Some(d.to_string()),
                    is_collection: self.read(&format!("{d}/schema.md")).is_ok(),
                })
            })
            .collect()
    }

    fn collections(&self) -> Vec<String> {
        open_db().collections(Ok(self.entries())).unwrap()
    }

    fn collection(&self, name: &str) -> Result<Collection, DbError> {
        open_db().collection(
            name,
            self.read(&format!("{name}/schema.md")),
            Ok(format!("/db/{name}")),
        )
    }
}

fn open_db() -> Db {
    Db::open("/db", true, Ok("/db".to_string())).unwrap()
}

fn record(disk: &Disk, coll: &Collection, path: &str) -> Result<Record, RecordError> {
    let mut step = coll.record(path);
    loop {
        let event = match step {
            ReadStep::Done(r) => return r,
            ReadStep::Examine(full) => ReadEvent::Examined(disk.read(&full[4..]).map(|_| false)),
            ReadStep::Canonicalize(full) => ReadEvent::Canonicalized(Ok(full)),
            ReadStep::Read(full) => ReadEvent::Content(disk.read(&full[4..])),
        };
        step = coll.record_next(path, event);
    }
}

#[test]
fn open_existing_directory() {
    let db = Db::open("/db", true, Ok("/db".to_string())).unwrap();
    assert_eq!(db.root(), "/db");
}

#[test]
fn open_nonexistent_path_errors() {
    let path = "/nonexistent/path/xyz";
    let canonical = std::path::Path::new(path)
        .canonicalize()
        .map(|p| p.display().to_string())
        .map_err(|e| e.to_string());
    assert!(Db::open(path, std::path::Path::new(path).is_dir(), canonical).is_err());
}

#[test]
fn open_file_not_directory_errors() {
    let e = Db::open("/db/file.txt", false, Ok("/db/file.txt".to_string())).err().unwrap();
    assert_eq!(e.message(), "`/db/file.txt` is not a directory");
    let e = Db::open("/db", true, Err("gone".to_string())).err().unwrap();
    assert!(matches!(e, DbError::NotADirectory(m) if m == "gone"));
}

#[test]
fn discover_collections() {
    let dir = make_db();
    let colls = dir.collections();
    assert_eq!(colls, vec!["bookmarks", "notes"]);
}

#[test]
fn open_collection_by_name() {
    let dir = make_db();
    let notes = dir.collection("notes").unwrap();
    assert_eq!(notes.name(), "notes");
    assert_eq!(notes.schema().fields.len(), 1);
}

#[test]
fn open_nonexistent_collection_errors() {
    let dir = make_db();
    assert!(dir.collection("nonexistent").is_err());
}

#[test]
fn collection_name_traversal_rejected() {
    let dir = make_db();
    assert!(dir.collection("../other").is_err());
    assert!(dir.collection("a/b").is_err());
    assert!(dir.collection("..").is_err());
    assert!(dir.collection("").is_err());
    assert!(dir.collection(".").is_err());
    assert!(open_db().collection_path("a\\b").is_err());
    assert_eq!(open_db().collection_path("notes").unwrap(), "/db/notes");
}

#[test]
fn plain_subdirs_without_schema_are_not_collections() {
    let mut dir = make_db();
    dir.dirs.push("plain");
    dir.files.push(("plain/file.md", "no schema here\n"));
    assert!(!dir.collections().contains(&"plain".to_string()));
}

#[test]
fn hidden_directories_excluded() {
    let mut dir = make_db();
    dir.dirs.push(".hidden");
    dir.files.push((".hidden/schema.md", "---\ncollection: hidden\nfields: []\n---\n"));
    assert!(!dir.collections().contains(&".hidden".to_string()));
}

#[test]
fn views_directory_excluded_from_collections() {
    let mut dir = make_db();
    dir.dirs.push("views");
    dir.files.push(("views/schema.md", NOTES_SCHEMA));
    assert!(!dir.collections().contains(&"views".to_string()));
}

#[test]
fn full_stack_db_to_record() {
    let dir = make_db();
    let notes = dir.collection("notes").unwrap();
    let r = record(&dir, &notes, "a.md").unwrap();
    assert_eq!(r.field("title").unwrap().as_str(), Some("Alpha"));
    assert_eq!(r.body(), "body\n");
}

#[test]
fn iterate_records_through_db() {
    let dir = make_db();
    let notes = dir.collection("notes").unwrap();
    let mut walk = Walk::new();
    let entry = |name: &str| DirEntry {
        name: Some(name.to_string()),
        kind: EntryKind::File,
    };
    walk.add_listing("", &[entry("schema.md"), entry("a.md")]);
    let mut iter = notes.records(walk);
    let mut records = Vec::new();
    while let Some(next) = iter.next() {
        let file = RecordFile {
            content: dir.read(&next.file[4..]),
            path: next.path,
        };
        records.push(file.record().unwrap());
    }
    assert_eq!(records.len(), 1);
    assert_eq!(records[0].field("title").unwrap().as_str(), Some("Alpha"));
}

#[test]
fn unreadable_directories_are_errors() {
    let db = open_db();
    assert!(matches!(db.collections(Err("denied".into())), Err(DbError::Io(m)) if m == "denied"));
    let entries = vec![
        Ok(DbEntry {
            name: None,
            is_collection: true,
        }),
        Err("broken".to_string()),
    ];
    assert!(matches!(db.collections(Ok(entries)), Err(DbError::Io(m)) if m == "broken"));
}

#[test]
fn db_error_messages() {
    assert_eq!(DbError::Io("x".into()).message(), "I/O error: x");
    assert_eq!(
        DbError::InvalidCollectionName("a/b".into()).message(),
        "invalid collection name `a/b`: path separators and `..` are not allowed"
    );
    let dir = make_db();
    assert_eq!(
        dir.collection("nonexistent").err().unwrap().message(),
        "collection error: failed to read schema.md: No such file or directory"
    );
}

#[test]
fn databases_with_the_same_canonical_root_share_a_lock() {
    let a = Db::open("/db", true, Ok("/data/db".to_string())).unwrap();
    let b = Db::open("/link", true, Ok("/data/db".to_string())).unwrap();
    let c = Db::open("/db", true, Ok("/other".to_string())).unwrap();
    assert_eq!(a.lock_key(), b.lock_key());
    assert_ne!(a.lock_key(), c.lock_key());
}

fn problem(severity: Severity) -> ValidationError {
    ValidationError {
        record_path: "a.md".to_string(),
        field: "f".to_string(),
        message: "m".to_string(),
        severity,
    }
}

#[test]
fn only_collections_with_problems_are_reported() {
    let report = |name: &str, problems: Vec<ValidationError>| {
        Ok(Report {
            collection: name.to_string(),
            problems,
        })
    };
    let db = open_db();
    let kept = db
        .validate_all(vec![
            report("a", vec![]),
            report("b", vec![problem(Severity::Error), problem(Severity::Warning)]),
            report("c", vec![problem(Severity::Warning)]),
        ])
        .unwrap();
    assert_eq!(kept.len(), 2);
    assert_eq!(kept[0].collection, "b");
    assert_eq!(kept[1].collection, "c");
    assert_eq!(verdict(&kept), Some(Err("1 error(s), 2 warning(s)".to_string())));
    assert_eq!(
        verdict(&kept[1..]),
        Some(Ok("all records valid (1 warning(s))".to_string()))
    );
    assert_eq!(problem_line("b", &kept[0].problems[0]), "b/a.md: f: [error] m");
    assert_eq!(problem_line("b", &kept[0].problems[1]), "b/a.md: f: [warning] m");
    let failed = db.validate_all(vec![
        report("b", vec![problem(Severity::Error)]),
        Err(DbError::Io("x".to_string())),
    ]);
    assert!(matches!(failed, Err(DbError::Io(_))));
}

#[test]
fn views_link_to_the_directory_of_the_collection() {
    // The schema calls the collection otherwise than its directory.
    let coll = Collection::open(
        "/db/dir",
        Ok(NOTES_SCHEMA.to_string()),
        Ok("/db/dir".to_string()),
    )
    .unwrap();
    let files = vec![RecordFile {
        path: "a.md".to_string(),
        content: Ok("x".to_string()),
    }];
    let plan = open_db()
        .materialize_view("v", &coll.query(), &files, None, "gen-1-0")
        .unwrap();
    assert_eq!(plan.links[0].target, "../../../dir/a.md");
}
