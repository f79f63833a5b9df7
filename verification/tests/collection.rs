use grexa_db::collection::{CheckedFile, ReadEvent, ReadStep};
use grexa_db::record::RecordFile;
use grexa_db::walk::{DirEntry, EntryKind, Walk};
use grexa_db::{Collection, CollectionError, Record, RecordError, Severity};

const NOTES_SCHEMA: &str = "---\ncollection: notes\nfields:\n  - { name: title, type: string, required: true }\n  - { name: tags, type: \"array<string>\" }\n  - { name: rating, type: integer, range: [1, 5] }\n---\n\n# Notes\n";

const ROOT: &str = "/db/notes";

/// A directory tree: files by relative path, and symbolic links with what they
/// lead to.
struct Tree {
    files: Vec<(String, String)>,
    links: Vec<(String, String)>,
}

impl Tree {
    fn add(&mut self, path: &str, content: &str) {
        self.files.push((path.to_string(), content.to_string()));
    }

    fn link(&mut self, path: &str, target: &str) {
        self.links.push((path.to_string(), target.to_string()));
    }

    fn content(&self, path: &str) -> Result<String, String> {
        self.files
            .iter()
            .find(|(p, _)| p == path)
            .map(|(_, c)| c.clone())
            .ok_or("No such file or directory".to_string())
    }

    fn entries(&self, dir: &str) -> Vec<DirEntry> {
        let prefix = if dir.is_empty() { String::new() } else { format!("{dir}/") };
        let mut out: Vec<DirEntry> = Vec::new();
        let all = self
            .files
            .iter()
            .map(|(p, _)| (p, EntryKind::File))
            .chain(self.links.iter().map(|(p, _)| (p, EntryKind::Symlink)));
        for (path, kind) in all {
            let Some(rest) = path.strip_prefix(&prefix) else {
                continue;
            };
            let (name, kind) = match rest.split_once('/') {
                Some((name, _)) => (name, EntryKind::Directory),
                None => (rest, kind),
            };
            if !out.iter().any(|e| e.name.as_deref() == Some(name)) {
                out.push(DirEntry {
                    name: Some(name.to_string()),
                    kind,
                });
            }
        }
        out
    }

    fn canonical(&self, path: &str) -> Result<String, String> {
        for (link, target) in &self.links {
            if let Some(rest) = path.strip_prefix(link) {
                return Ok(format!("{target}{rest}"));
            }
        }
        self.content(path).map(|_| format!("{ROOT}/{path}"))
    }
}

fn make_collection() -> Tree {
    let mut tree = Tree {
        files: Vec::new(),
        links: Vec::new(),
    };
    tree.add("schema.md", NOTES_SCHEMA);
    tree.add(
        "note-a.md",
        "---\ntitle: Alpha\ntags: [rust, db]\nrating: 5\n---\nAlpha body.\n",
    );
    tree.add(
        "note-b.md",
        "---\ntitle: Beta\ntags: [python]\nrating: 3\n---\nBeta body.\n",
    );
    tree.add("readme.txt", "No frontmatter, still a record.\n");
    tree
}

fn open(tree: &Tree) -> Result<Collection, CollectionError> {
    Collection::open(ROOT, tree.content("schema.md"), Ok(ROOT.to_string()))
}

fn record(coll: &Collection, tree: &Tree, path: &str) -> Result<Record, RecordError> {
    let below = |full: &str| full[ROOT.len() + 1..].to_string();
    let mut step = coll.record(path);
    loop {
        let event = match step {
            ReadStep::Done(r) => return r,
            ReadStep::Examine(full) => {
                let own = below(&full);
                let linked = tree.links.iter().any(|(l, _)| *l == own);
                let beyond = tree.links.iter().any(|(l, _)| own.starts_with(l.as_str()));
                ReadEvent::Examined(if linked || beyond {
                    Ok(linked)
                } else {
                    tree.content(&own).map(|_| false)
                })
            }
            ReadStep::Canonicalize(full) => ReadEvent::Canonicalized(tree.canonical(&below(&full))),
            ReadStep::Read(full) => ReadEvent::Content(tree.content(&below(&full))),
        };
        step = coll.record_next(path, event);
    }
}

fn walk(tree: &Tree) -> Walk {
    let mut walk = Walk::new();
    while let Some(dir) = walk.next_directory() {
        walk.add_listing(&dir, &tree.entries(&dir));
    }
    walk
}

fn records(coll: &Collection, tree: &Tree) -> Vec<Record> {
    let mut iter = coll.records(walk(tree));
    let mut out = Vec::new();
    while let Some(next) = iter.next() {
        let file = RecordFile {
            content: tree.content(&next.file[ROOT.len() + 1..]),
            path: next.path,
        };
        out.push(file.record().unwrap());
    }
    out
}

#[test]
fn open_reads_schema() {
    let dir = make_collection();
    let coll = open(&dir).unwrap();
    assert_eq!(coll.name(), "notes");
    assert_eq!(coll.schema().fields.len(), 3);
}

#[test]
fn open_missing_schema_errors() {
    let dir = Tree {
        files: Vec::new(),
        links: Vec::new(),
    };
    assert!(open(&dir).is_err());
}

#[test]
fn read_single_record() {
    let dir = make_collection();
    let coll = open(&dir).unwrap();
    let r = record(&coll, &dir, "note-a.md").unwrap();
    assert_eq!(r.field("title").unwrap().as_str(), Some("Alpha"));
    assert_eq!(r.body(), "Alpha body.\n");
}

#[test]
fn read_nonexistent_record_errors() {
    let dir = make_collection();
    let coll = open(&dir).unwrap();
    assert!(record(&coll, &dir, "nonexistent.md").is_err());
}

#[test]
fn path_traversal_rejected() {
    let dir = make_collection();
    let coll = open(&dir).unwrap();
    assert!(record(&coll, &dir, "../etc/passwd").is_err());
    assert!(record(&coll, &dir, "/etc/passwd").is_err());
    assert!(record(&coll, &dir, "..\\..\\secret").is_err());
    assert!(record(&coll, &dir, "notes/../secret").is_err());
    assert!(record(&coll, &dir, "").is_err());
}

#[test]
fn record_rejects_symlink() {
    let mut dir = make_collection();
    dir.link("evil.md", "/etc/passwd");
    let coll = open(&dir).unwrap();
    let e = record(&coll, &dir, "evil.md").err().unwrap();
    assert!(
        matches!(e, RecordError::InvalidPath(m) if m == "`evil.md` is a symlink; symlinks are not followed")
    );
}

#[test]
fn record_rejects_symlinked_intermediate_dir() {
    let mut dir = make_collection();
    dir.link("escape", "/etc");
    let coll = open(&dir).unwrap();
    let e = record(&coll, &dir, "escape/passwd").err().unwrap();
    assert!(
        matches!(e, RecordError::InvalidPath(m) if m == "`escape/passwd` resolves outside the collection root")
    );
}

#[test]
fn nested_subdirectory_record_accessible() {
    let mut dir = make_collection();
    dir.add("2024/03/deep.md", "---\ntitle: Deep\n---\nbody\n");
    let coll = open(&dir).unwrap();
    let r = record(&coll, &dir, "2024/03/deep.md").unwrap();
    assert_eq!(r.field("title").unwrap().as_str(), Some("Deep"));
}

#[test]
fn iterate_all_records() {
    let dir = make_collection();
    let coll = open(&dir).unwrap();
    let records = records(&coll, &dir);
    assert_eq!(records.len(), 3);
    let names: Vec<&str> = records.iter().map(|r| r.path()).collect();
    assert!(names.contains(&"note-a.md"));
    assert!(names.contains(&"note-b.md"));
    assert!(names.contains(&"readme.txt"));
}

#[test]
fn schema_md_is_excluded_from_records() {
    let dir = make_collection();
    let coll = open(&dir).unwrap();
    let records = records(&coll, &dir);
    assert!(!records.iter().any(|r| r.path() == "schema.md"));
}

#[test]
fn hidden_files_are_excluded() {
    let mut dir = make_collection();
    dir.add(".hidden.md", "secret\n");
    let coll = open(&dir).unwrap();
    let records = records(&coll, &dir);
    assert!(!records.iter().any(|r| r.path().contains(".hidden")));
}

#[test]
fn nested_subdirectories_are_walked() {
    let mut dir = make_collection();
    dir.add("2024/03/deep.md", "---\ntitle: Deep\n---\nbody\n");
    let coll = open(&dir).unwrap();
    let records = records(&coll, &dir);
    assert!(records.iter().any(|r| r.path() == "2024/03/deep.md"));
}

#[test]
fn noise_directories_are_skipped() {
    let mut dir = make_collection();
    dir.add("node_modules/junk.md", "noise\n");
    let coll = open(&dir).unwrap();
    let records = records(&coll, &dir);
    assert!(!records.iter().any(|r| r.path().contains("node_modules")));
}

#[test]
fn symlink_cycle_does_not_infinite_loop() {
    let mut dir = make_collection();
    dir.link("sub/loop", ".");
    dir.add("sub/real.md", "---\ntitle: Real\n---\nbody\n");
    let coll = open(&dir).unwrap();
    let records = records(&coll, &dir);
    assert!(records.iter().any(|r| r.path() == "sub/real.md"));
}

#[test]
fn records_without_frontmatter_pass_through() {
    let dir = make_collection();
    let coll = open(&dir).unwrap();
    let r = record(&coll, &dir, "readme.txt").unwrap();
    assert!(!r.has_frontmatter());
    assert_eq!(r.body(), "No frontmatter, still a record.\n");
}

#[test]
fn paths_come_in_component_order() {
    let mut walk = Walk::new();
    assert_eq!(walk.next_directory().as_deref(), Some(""));
    let entry = |name: &str, kind| DirEntry {
        name: Some(name.to_string()),
        kind,
    };
    walk.add_listing(
        "",
        &[
            entry("a.md", EntryKind::File),
            entry("a", EntryKind::Directory),
            entry("schema.md", EntryKind::File),
            entry("schema.md", EntryKind::Directory),
            entry("target", EntryKind::File),
            entry("target", EntryKind::Directory),
            entry("odd", EntryKind::Unknown),
            DirEntry {
                name: None,
                kind: EntryKind::File,
            },
        ],
    );
    assert_eq!(walk.next_directory().as_deref(), Some("schema.md"));
    assert_eq!(walk.next_directory().as_deref(), Some("a"));
    walk.add_listing("a", &[entry("z.md", EntryKind::File), entry("schema.md", EntryKind::File)]);
    assert!(walk.next_directory().is_none());
    assert_eq!(walk.finish(), vec!["a/z.md", "a.md", "target"]);
}

#[test]
fn a_whole_walk_finds_each_record_once() {
    let listing = |dir: &str| -> Vec<(&str, EntryKind)> {
        match dir {
            "" => vec![
                ("x", EntryKind::Directory),
                ("x.md", EntryKind::File),
                (".git", EntryKind::Directory),
                ("node_modules", EntryKind::Directory),
                ("link", EntryKind::Symlink),
                ("y", EntryKind::Directory),
                ("schema.md", EntryKind::File),
            ],
            "x" => vec![
                ("x", EntryKind::Directory),
                ("x.md", EntryKind::File),
                (".hidden.md", EntryKind::File),
            ],
            "x/x" => vec![("x.md", EntryKind::File), ("empty", EntryKind::Directory)],
            "y" => vec![("x", EntryKind::Directory), ("target", EntryKind::Directory)],
            "y/x" => vec![("x.md", EntryKind::File), ("schema.md", EntryKind::File)],
            ".git" | "node_modules" | "link" | "y/target" => vec![("lost.md", EntryKind::File)],
            _ => vec![],
        }
    };
    for reversed in [false, true] {
        let mut walk = Walk::new();
        let mut visited = Vec::new();
        while let Some(dir) = walk.next_directory() {
            let mut entries: Vec<DirEntry> = listing(&dir)
                .into_iter()
                .map(|(name, kind)| DirEntry {
                    name: Some(name.to_string()),
                    kind,
                })
                .collect();
            if reversed {
                entries.reverse();
            }
            walk.add_listing(&dir, &entries);
            visited.push(dir);
        }
        visited.sort();
        assert_eq!(visited, vec!["", "x", "x/x", "x/x/empty", "y", "y/x"]);
        assert_eq!(
            walk.finish(),
            vec!["x/x/x.md", "x/x.md", "x.md", "y/x/x.md"]
        );
    }
}

#[test]
fn backslashes_in_record_paths_are_normalized() {
    let dir = make_collection();
    let coll = open(&dir).unwrap();
    let mut walk = Walk::new();
    walk.add_listing(
        "",
        &[DirEntry {
            name: Some("a\\b.md".to_string()),
            kind: EntryKind::File,
        }],
    );
    let next = coll.records(walk).next().unwrap();
    assert_eq!(next.file, "/db/notes/a\\b.md");
    assert_eq!(next.path, "a/b.md");
}

#[test]
fn opening_fails_in_order() {
    let ok = || Ok(NOTES_SCHEMA.to_string());
    let e = Collection::open(ROOT, Err("gone".to_string()), Err("x".to_string())).err().unwrap();
    assert_eq!(e.message(), "failed to read schema.md: gone");
    let e = Collection::open(ROOT, Ok("no schema".to_string()), Err("x".to_string())).err().unwrap();
    assert_eq!(e.message(), "schema error: schema file has no frontmatter");
    let e = Collection::open(ROOT, ok(), Err("x".to_string())).err().unwrap();
    assert_eq!(e.message(), "failed to read schema.md: cannot canonicalize root: x");
}

#[test]
fn validation_of_a_collection() {
    let schema = "---\ncollection: notes\nfields:\n  - { name: title, type: string, required: true }\n  - { name: src, type: \"ref<books>\" }\n---\n";
    let coll = Collection::open(ROOT, Ok(schema.to_string()), Ok(ROOT.to_string())).unwrap();
    assert_eq!(coll.db_root_canonical(), "/db");
    let checked = |path: &str, content: Result<&str, &str>, targets: Vec<Option<String>>| CheckedFile {
        file: RecordFile {
            path: path.to_string(),
            content: content.map(str::to_string).map_err(str::to_string),
        },
        targets,
    };
    let good = Record::from_content("a.md", "---\ntitle: A\nsrc: books/x.md\n---\n").unwrap();
    let uses = coll.refs(&good);
    assert_eq!(uses.len(), 1);
    assert_eq!(uses[0].path, "books/x.md");
    let problems = coll.validate_all(&[
        checked("a.md", Ok("---\ntitle: A\nsrc: books/x.md\n---\n"), vec![Some("/db/books/x.md".into())]),
        checked("b.md", Ok("---\ntitle: B\nsrc: books/y.md\n---\n"), vec![None]),
        checked("c.md", Ok("---\nsrc: books/z.md\n---\n"), vec![Some("/dbx/z.md".into())]),
        checked("d.md", Err("denied"), vec![]),
        checked("e.md", Ok("---\nnever closed\n"), vec![]),
    ]);
    let seen: Vec<(&str, &str, &str, Severity)> = problems
        .iter()
        .map(|p| (p.record_path.as_str(), p.field.as_str(), p.message.as_str(), p.severity))
        .collect();
    assert_eq!(
        seen,
        vec![
            ("b.md", "src", "ref `books/y.md` is dangling: target not found", Severity::Warning),
            ("c.md", "title", "required field is missing or null", Severity::Error),
            ("c.md", "src", "ref `books/z.md` resolves outside the database root", Severity::Error),
            ("d.md", "-", "read error: failed to read record file `d.md`: denied", Severity::Error),
            (
                "?",
                "-",
                "read error: frontmatter error: frontmatter opened with `---` but never closed",
                Severity::Error
            ),
        ]
    );
}
