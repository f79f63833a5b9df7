use grexa_db::index::{plan_candidates, IndexedFile};
use grexa_db::query::{chunk_end, filter_files, merge_chunks, worker_count, worker_topk, Chunk, Offer, Scan};
use grexa_db::record::RecordFile;
use grexa_db::yaml::from_yaml;
use grexa_db::{Collection, Index, Query, Record, RecordError};

const SCHEMA: &str = "---\ncollection: notes\nfields:\n  - { name: title, type: string }\n  - { name: tags, type: \"array<string>\" }\n  - { name: rating, type: integer }\n  - { name: read_at, type: date }\n---\n";

fn make_collection() -> Vec<RecordFile> {
    vec![
        file(
            "alpha.md",
            "---\ntitle: Alpha\ntags: [rust, db]\nrating: 5\nread_at: 2024-03-01\n---\nAlpha body.\n",
        ),
        file(
            "beta.md",
            "---\ntitle: Beta\ntags: [python, db]\nrating: 3\nread_at: 2024-02-01\n---\nBeta body.\n",
        ),
        file(
            "delta.md",
            "---\ntitle: Delta\nrating: 1\n---\nDelta body (no tags, no read_at).\n",
        ),
        file(
            "gamma.md",
            "---\ntitle: Gamma\ntags: [rust, ai]\nrating: 4\nread_at: 2024-04-01\n---\nGamma body.\n",
        ),
    ]
}

/// Answers the query from chunks of the files, as several workers would scan them,
/// put together in the wrong order.
fn in_chunks(query: &Query<'_>, files: &[RecordFile]) -> Result<Vec<Record>, RecordError> {
    let mut chunks = Vec::new();
    let mut start = 0;
    while start < files.len() {
        let end = chunk_end(start, files.len());
        let scan = filter_files(query.filters(), &files[start..end], false);
        chunks.insert(chunks.len() / 2, Chunk { start, scan });
        start = end;
    }
    query.finish(merge_chunks(chunks))
}

fn file(path: &str, content: &str) -> RecordFile {
    RecordFile {
        path: path.to_string(),
        content: Ok(content.to_string()),
    }
}

fn open(schema: &str) -> Collection {
    Collection::open("/db/notes", Ok(schema.to_string()), Ok("/db/notes".to_string())).unwrap()
}

/// What draining the query record by record gives.
fn drain(query: Query<'_>, files: &[RecordFile]) -> Result<Vec<Record>, RecordError> {
    if !query.is_streaming() {
        return query.collect_par(files);
    }
    let mut stream = query.stream();
    let mut out = Vec::new();
    for f in files {
        match stream.offer(f) {
            Offer::Found(r) => out.push(r),
            Offer::Failed(e) => return Err(e),
            Offer::Skipped => {}
            Offer::Over => break,
        }
    }
    Ok(out)
}

/// Answers from the query's index where it narrows the files down, else by a scan.
fn collect(query: Query<'_>, files: &[RecordFile]) -> Result<Vec<Record>, RecordError> {
    match query.try_index() {
        Some(paths) => query.collect_indexed(&pick(&paths, files)),
        None => query.collect_par(files),
    }
}

fn pick(paths: &[String], files: &[RecordFile]) -> Vec<RecordFile> {
    paths
        .iter()
        .map(|p| match files.iter().find(|f| &f.path == p) {
            Some(f) => f.clone(),
            None => RecordFile {
                path: p.clone(),
                content: Err("not found".to_string()),
            },
        })
        .collect()
}

fn stamped(files: &[RecordFile]) -> Vec<IndexedFile> {
    files
        .iter()
        .map(|f| IndexedFile {
            file: f.clone(),
            signature: Some((1, 2)),
        })
        .collect()
}

fn paths(records: Vec<Record>) -> Vec<String> {
    records.into_iter().map(|r| r.path().to_string()).collect()
}

#[test]
fn no_filter_returns_all() {
    let coll = open(SCHEMA);
    let files = make_collection();
    let all: Vec<_> = drain(coll.query(), &files).unwrap();
    assert_eq!(all.len(), 4);
}

#[test]
fn filter_ge_integer() {
    let coll = open(SCHEMA);
    let files = make_collection();
    let result: Vec<_> = drain(coll.query().filter("rating").ge(4), &files).unwrap();
    assert_eq!(paths(result), vec!["alpha.md", "gamma.md"]);
}

#[test]
fn filter_eq_string() {
    let coll = open(SCHEMA);
    let files = make_collection();
    let result: Vec<_> = drain(coll.query().filter("title").eq("Beta"), &files).unwrap();
    assert_eq!(paths(result), vec!["beta.md"]);
}

#[test]
fn filter_ne_string() {
    let coll = open(SCHEMA);
    let files = make_collection();
    let result: Vec<_> = drain(coll.query().filter("title").ne("Alpha"), &files).unwrap();
    assert_eq!(result.len(), 3);
}

#[test]
fn filter_lt_and_gt() {
    let coll = open(SCHEMA);
    let files = make_collection();
    let mid: Vec<_> = drain(coll.query().filter("rating").gt(2).filter("rating").lt(5), &files).unwrap();
    assert_eq!(paths(mid), vec!["beta.md", "gamma.md"]);
}

#[test]
fn filter_contains_any_tags() {
    let coll = open(SCHEMA);
    let files = make_collection();
    let result: Vec<_> = drain(coll.query().filter("tags").contains_any(&["python", "ai"]), &files).unwrap();
    assert_eq!(paths(result), vec!["beta.md", "gamma.md"]);
}

#[test]
fn filter_contains_all_tags() {
    let coll = open(SCHEMA);
    let files = make_collection();
    let result: Vec<_> = drain(coll.query().filter("tags").contains_all(&["rust", "db"]), &files).unwrap();
    assert_eq!(paths(result), vec!["alpha.md"]);
}

#[test]
fn filter_contains_single_value() {
    let coll = open(SCHEMA);
    let files = make_collection();
    let result: Vec<_> = drain(coll.query().filter("tags").contains("db"), &files).unwrap();
    assert_eq!(paths(result), vec!["alpha.md", "beta.md"]);
}

#[test]
fn missing_field_excludes_record() {
    let coll = open(SCHEMA);
    let files = make_collection();
    let tagged: Vec<_> = drain(coll.query().filter("tags").contains_any(&["rust"]), &files).unwrap();
    assert!(!tagged.iter().any(|r| r.path() == "delta.md"));
}

#[test]
fn empty_result_set() {
    let coll = open(SCHEMA);
    let files = make_collection();
    let result: Vec<_> = drain(coll.query().filter("rating").ge(100), &files).unwrap();
    assert!(result.is_empty());
}

#[test]
fn order_by_asc() {
    let coll = open(SCHEMA);
    let files = make_collection();
    let result: Vec<_> = drain(coll.query().order_by("rating").asc(), &files).unwrap();
    let ratings: Vec<_> = result
        .iter()
        .map(|r| r.field("rating").unwrap().as_i64().unwrap())
        .collect();
    assert_eq!(ratings, vec![1, 3, 4, 5]);
}

#[test]
fn order_by_desc() {
    let coll = open(SCHEMA);
    let files = make_collection();
    let result: Vec<_> = drain(coll.query().order_by("rating").desc(), &files).unwrap();
    let ratings: Vec<_> = result
        .iter()
        .map(|r| r.field("rating").unwrap().as_i64().unwrap())
        .collect();
    assert_eq!(ratings, vec![5, 4, 3, 1]);
}

#[test]
fn order_by_string_field() {
    let coll = open(SCHEMA);
    let files = make_collection();
    let result: Vec<_> = drain(coll.query().order_by("title").asc(), &files).unwrap();
    let titles: Vec<_> = result
        .iter()
        .map(|r| r.field("title").unwrap().as_str().unwrap().to_string())
        .collect();
    assert_eq!(titles, vec!["Alpha", "Beta", "Delta", "Gamma"]);
}

#[test]
fn order_by_missing_field_sorts_last() {
    let coll = open(SCHEMA);
    let files = make_collection();
    let result: Vec<_> = drain(coll.query().order_by("read_at").asc(), &files).unwrap();
    assert_eq!(result.last().unwrap().path(), "delta.md");
}

#[test]
fn order_by_desc_missing_field_still_sorts_last() {
    let coll = open(SCHEMA);
    let files = make_collection();
    let result: Vec<_> = drain(coll.query().order_by("read_at").desc(), &files).unwrap();
    assert_eq!(
        result.last().unwrap().path(),
        "delta.md",
        "missing-field records must sort last even in descending order"
    );
}

#[test]
fn i64_precision_beyond_2pow53() {
    let coll = open(SCHEMA);
    let big = 9_007_199_254_740_993_i64;
    let big_minus_1 = 9_007_199_254_740_992_i64;
    let files = vec![
        file("big.md", &format!("---\nrating: {big}\n---\nbody\n")),
        file("small.md", &format!("---\nrating: {big_minus_1}\n---\nbody\n")),
    ];

    let exact: Vec<_> = drain(coll.query().filter("rating").eq(big), &files).unwrap();
    assert_eq!(paths(exact), vec!["big.md"]);

    let gt: Vec<_> = drain(coll.query().filter("rating").gt(big_minus_1), &files).unwrap();
    assert_eq!(paths(gt), vec!["big.md"]);
}

#[test]
fn combined_filter_and_order() {
    let coll = open(SCHEMA);
    let files = make_collection();
    let result: Vec<_> = drain(coll.query().filter("tags").contains_any(&["rust", "db"]).order_by("rating").desc(), &files).unwrap();
    assert_eq!(paths(result), vec!["alpha.md", "gamma.md", "beta.md"]);
}

#[test]
fn streaming_is_lazy() {
    let coll = open(SCHEMA);
    let files = make_collection();
    let mut stream = coll.query().filter("rating").ge(4).stream();
    let first = match stream.offer(&files[0]) {
        Offer::Found(r) => r,
        _ => panic!("the first file matches"),
    };
    assert!(first.field("rating").unwrap().as_i64().unwrap() >= 4);
}

#[test]
fn collect_par_matches_serial_small() {
    // Small collection takes the serial fallback inside materialize_par.
    let coll = open(SCHEMA);
    let files = make_collection();
    let serial: Vec<String> = paths(
        drain(coll.query().filter("rating").ge(4), &files).unwrap(),
    );
    let par: Vec<String> = paths(collect(coll.query().filter("rating").ge(4), &files).unwrap());
    assert_eq!(serial, par);
}

#[test]
fn collect_par_matches_serial_large() {
    // > MIN_PER_WORKER records so the multi-threaded path actually runs;
    // results (and order) must be byte-identical to the serial iterator.
    let coll = open(SCHEMA);
    let mut files = Vec::new();
    for i in 0..3000 {
        let rating = (i % 5) + 1;
        files.push(file(
            &format!("n{i:05}.md"),
            &format!(
                "---\ntitle: N{i}\ntags: [t{}, db]\nrating: {rating}\nread_at: 2024-01-{:02}\n---\nbody {i}\n",
                i % 7,
                (i % 28) + 1
            ),
        ));
    }

    // filter-only
    let serial: Vec<String> = paths(
        drain(coll.query().filter("rating").ge(4), &files).unwrap(),
    );
    let par: Vec<String> =
        paths(in_chunks(&coll.query().filter("rating").ge(4), &files).unwrap());
    assert_eq!(serial, par, "parallel filter must equal serial");
    assert!(!par.is_empty());

    // order_by (the path init_state now parallelizes)
    let serial_sorted: Vec<String> = paths(
        drain(coll.query().order_by("read_at").desc(), &files).unwrap(),
    );
    let par_sorted: Vec<String> = paths(
        in_chunks(&coll.query().order_by("read_at").desc(), &files).unwrap(),
    );
    assert_eq!(serial_sorted, par_sorted, "parallel sort must equal serial");
}



/// Puts a file in place of the one with that path.
fn write(files: &mut Vec<RecordFile>, path: &str, content: &str) {
    files.retain(|f| f.path != path);
    files.push(file(path, content));
    files.sort_by(|a, b| a.path.cmp(&b.path));
}

/// The present state of the given paths.
fn changes(paths: &[String], files: &[RecordFile]) -> Vec<IndexedFile> {
    pick(paths, files)
        .into_iter()
        .map(|file| IndexedFile {
            signature: file.content.is_ok().then_some((3, 4)),
            file,
        })
        .collect()
}

fn mix(x: u64) -> u64 {
    let mut z = x.wrapping_add(0x9e3779b97f4a7c15);
    z = (z ^ (z >> 30)).wrapping_mul(0xbf58476d1ce4e5b9);
    z = (z ^ (z >> 27)).wrapping_mul(0x94d049bb133111eb);
    z ^ (z >> 31)
}

fn rand_collection(n: usize) -> Vec<RecordFile> {
    let mut files = Vec::new();
    let tags = ["rust", "ai", "ml", "db", "linux", "qt"];
    for i in 0..n {
        let h = |s: u64| mix(((i as u64) << 8) | s) as usize;
        let rating = h(0) % 5 + 1;
        let mut chosen: Vec<&str> = (0..(h(1) % 3 + 1))
            .map(|k| tags[h(10 + k as u64) % tags.len()])
            .collect();
        chosen.sort();
        chosen.dedup();
        let day = h(2) % 28 + 1;
        files.push(file(
            &format!("r{i:04}.md"),
            &format!(
                "---\ntitle: R{i}\ntags: [{}]\nrating: {rating}\nread_at: 2024-02-{day:02}\n---\nbody {i}\n",
                chosen.join(", ")
            ),
        ));
    }
    files
}

#[test]
fn index_matches_scan() {
    // Each builder is run as a plain scan and via a held index; the two must
    // be byte-identical, including order, across serviceable and
    // non-serviceable filter shapes.
    type BuildQ = Box<dyn for<'a> Fn(Query<'a>) -> Query<'a>>;
    let files = rand_collection(800);
    let coll = open(SCHEMA);
    let idx = Index::build(&stamped(&files)).unwrap();
    let cases: Vec<BuildQ> = vec![
        Box::new(|q| q.filter("rating").eq(5)),
        Box::new(|q| q.filter("rating").eq(1)),
        Box::new(|q| q.filter("tags").contains("rust")),
        Box::new(|q| q.filter("tags").contains("qt")),
        Box::new(|q| q.filter("rating").eq(4).filter("tags").contains("db")),
        Box::new(|q| q.filter("read_at").eq("2024-02-15")),
        Box::new(|q| q.filter("tags").contains("ai").order_by("rating").desc()),
        Box::new(|q| q.filter("rating").eq(3).order_by("read_at").asc()),
        // Not index-serviceable (range / ne / none): scanned either way.
        Box::new(|q| q.filter("rating").ge(4)),
        Box::new(|q| q.filter("rating").ne(5)),
        Box::new(|q| q),
    ];
    let mut any = false;
    for (i, bq) in cases.iter().enumerate() {
        let scan = paths(collect(bq(coll.query()), &files).unwrap());
        let indexed = paths(collect(bq(coll.query()).using_index(&idx), &files).unwrap());
        assert_eq!(scan, indexed, "case {i}: index differs from scan");
        any |= !scan.is_empty();
    }
    assert!(any, "no case matched anything");
}

#[test]
fn reconcile_reflects_modified() {
    let mut files = Vec::new();
    write(&mut files, "a.md", "---\nrating: 3\n---\nbody\n");
    write(&mut files, "b.md", "---\nrating: 5\n---\nbody\n");
    let coll = open(SCHEMA);
    let mut idx = Index::build(&stamped(&files)).unwrap();
    assert_eq!(
        paths(
            collect(coll.query().filter("rating").eq(5).using_index(&idx), &files).unwrap()
        ),
        vec!["b.md".to_string()]
    );

    write(&mut files, "a.md", "---\nrating: 5\n---\nbody\n");
    idx.reconcile(&changes(&["a.md".to_string()], &files)).unwrap();

    let mut fives = paths(
        collect(coll.query().filter("rating").eq(5).using_index(&idx), &files).unwrap(),
    );
    fives.sort();
    assert_eq!(fives, vec!["a.md".to_string(), "b.md".to_string()]);
    assert!(
        paths(
            collect(coll.query().filter("rating").eq(3).using_index(&idx), &files).unwrap()
        )
        .is_empty()
    );
}

#[test]
fn reconcile_reflects_added_and_removed() {
    let mut files = Vec::new();
    write(&mut files, "a.md", "---\nrating: 5\n---\nbody\n");
    write(&mut files, "b.md", "---\nrating: 5\n---\nbody\n");
    let coll = open(SCHEMA);
    let mut idx = Index::build(&stamped(&files)).unwrap();

    write(&mut files, "c.md", "---\nrating: 5\n---\nbody\n");
    files.retain(|f| f.path != "a.md");
    idx.reconcile(&changes(&["c.md".to_string(), "a.md".to_string()], &files)).unwrap();

    let mut fives = paths(
        collect(coll.query().filter("rating").eq(5).using_index(&idx), &files).unwrap(),
    );
    fives.sort();
    assert_eq!(fives, vec!["b.md".to_string(), "c.md".to_string()]);
}

#[test]
fn stale_index_verify_on_read_drops_false_positive() {
    // Without a reconcile, a record edited to no longer match is still in the
    // stale index — but verify-on-read re-reads it and drops it. (A record
    // edited to *newly* match would be missed until reconcile; that's the
    // documented caller-owns-freshness contract.)
    let mut files = Vec::new();
    write(&mut files, "a.md", "---\nrating: 5\n---\nbody\n");
    write(&mut files, "b.md", "---\nrating: 5\n---\nbody\n");
    let coll = open(SCHEMA);
    let idx = Index::build(&stamped(&files)).unwrap();

    write(&mut files, "a.md", "---\nrating: 1\n---\nbody\n"); // no reconcile
    let fives = paths(
        collect(coll.query().filter("rating").eq(5).using_index(&idx), &files).unwrap(),
    );
    assert_eq!(fives, vec!["b.md".to_string()], "stale false positive not dropped");
}

#[test]
fn stale_deleted_candidate_is_tolerated() {
    let mut files = Vec::new();
    write(&mut files, "a.md", "---\nrating: 5\n---\nbody\n");
    write(&mut files, "b.md", "---\nrating: 5\n---\nbody\n");
    let coll = open(SCHEMA);
    let idx = Index::build(&stamped(&files)).unwrap();

    files.retain(|f| f.path != "a.md"); // candidate vanishes, no reconcile
    let fives = paths(
        collect(coll.query().filter("rating").eq(5).using_index(&idx), &files).unwrap(),
    );
    assert_eq!(fives, vec!["b.md".to_string()], "deleted candidate not tolerated");
}

#[test]
fn limit_topk_matches_full_sort() {
    let files = rand_collection(800);
    let coll = open(SCHEMA);
    // Bounded top-K must equal a full sort then truncate, for every k —
    // including ties (read_at/rating repeat heavily across 800 records).
    for field in ["rating", "read_at"] {
        let full = paths(collect(coll.query().order_by(field).desc(), &files).unwrap());
        for k in [0usize, 1, 5, 20, 100, 800, 1000] {
            let topk = paths(
                collect(coll.query().order_by(field).desc().limit(k), &files).unwrap(),
            );
            let want: Vec<String> = full.iter().take(k).cloned().collect();
            assert_eq!(topk, want, "top-{k} by {field} != full sort truncated");
        }
    }
    // filter + order_by + limit
    let full = paths(
        collect(coll.query().filter("tags").contains("rust").order_by("read_at").asc(), &files).unwrap(),
    );
    let top = paths(
        collect(coll.query().filter("tags").contains("rust").order_by("read_at").asc().limit(10), &files).unwrap(),
    );
    assert_eq!(top, full.into_iter().take(10).collect::<Vec<_>>());
}

#[test]
fn limit_filter_only_stops_early() {
    let files = rand_collection(800);
    let coll = open(SCHEMA);
    // Streaming iterator and collect_par both honor the limit, identically.
    let streamed = paths(
        drain(coll.query().filter("rating").ge(1).limit(7), &files).unwrap(),
    );
    let par = paths(
        collect(coll.query().filter("rating").ge(1).limit(7), &files).unwrap(),
    );
    assert_eq!(streamed.len(), 7);
    assert_eq!(streamed, par);
    // limit(0) yields nothing on either path.
    assert!(
        collect(coll.query().filter("rating").ge(1).limit(0), &files).unwrap()
            .is_empty()
    );
    assert_eq!(
        drain(coll.query().filter("rating").ge(1).limit(0), &files).unwrap()
            .len(),
        0
    );
}

#[test]
fn index_ranges_match_scan() {
    // Range queries (lt/le/gt/ge), on numeric and string fields, alone and
    // intersected with eq/contains/order_by, must match a scan exactly.
    type BuildQ = Box<dyn for<'a> Fn(Query<'a>) -> Query<'a>>;
    let files = rand_collection(800);
    let coll = open(SCHEMA);
    let idx = Index::build(&stamped(&files)).unwrap();
    let cases: Vec<BuildQ> = vec![
        Box::new(|q| q.filter("rating").ge(4)),
        Box::new(|q| q.filter("rating").gt(2)),
        Box::new(|q| q.filter("rating").le(2)),
        Box::new(|q| q.filter("rating").lt(3)),
        Box::new(|q| q.filter("read_at").ge("2024-02-20")), // string range
        Box::new(|q| q.filter("read_at").lt("2024-02-02")), // selective → index read
        Box::new(|q| q.filter("rating").ge(4).filter("tags").contains("rust")), // range ∩ contains
        Box::new(|q| {
            q.filter("read_at")
                .lt("2024-02-02")
                .order_by("rating")
                .desc()
        }), // range + order
    ];
    let mut any = false;
    for (i, bq) in cases.iter().enumerate() {
        let scan = paths(collect(bq(coll.query()), &files).unwrap());
        let indexed = paths(collect(bq(coll.query()).using_index(&idx), &files).unwrap());
        assert_eq!(scan, indexed, "range case {i}: index != scan");
        any |= !scan.is_empty();
    }
    assert!(any);
}

/// Answers from the index in any case.
fn by_index(query: &Query<'_>, index: &Index, files: &[RecordFile]) -> Vec<String> {
    let candidates = plan_candidates(index, query.filters()).expect("a filter is indexed");
    paths(query.collect_indexed(&pick(&candidates, files)).unwrap())
}

#[test]
fn index_answers_without_guard_match_scan() {
    let files = rand_collection(200);
    let coll = open(SCHEMA);
    let idx = Index::build(&stamped(&files)).unwrap();
    for q in [
        coll.query().filter("rating").ge(4),
        coll.query().filter("rating").gt(4),
        coll.query().filter("rating").lt(2),
        coll.query().filter("rating").le(1),
        coll.query().filter("tags").contains("rust"),
        coll.query().filter("rating").eq(3).filter("tags").contains("db"),
        coll.query().filter("tags").contains("ai").order_by("read_at").desc().limit(5),
        coll.query().filter("read_at").ge("2024-02-20").limit(3),
    ] {
        let scan = paths(q.collect_par(&files).unwrap());
        assert!(!scan.is_empty());
        assert_eq!(by_index(&q, &idx, &files), scan);
    }
}

#[test]
fn large_integers_share_a_key_and_are_not_missed() {
    let files = vec![
        file("a.md", "---\nn: 9007199254740993\n---\n"),
        file("b.md", "---\nn: 9007199254740992\n---\n"),
    ];
    let coll = open(SCHEMA);
    let idx = Index::build(&stamped(&files)).unwrap();
    let gt = coll.query().filter("n").gt(9_007_199_254_740_992_i64);
    assert_eq!(by_index(&gt, &idx, &files), vec!["a.md"]);
    let lt = coll.query().filter("n").lt(9_007_199_254_740_993_i64);
    assert_eq!(by_index(&lt, &idx, &files), vec!["b.md"]);
}

#[test]
fn guard_hands_broad_queries_to_the_scan() {
    let files = rand_collection(160);
    let coll = open(SCHEMA);
    let idx = Index::build(&stamped(&files)).unwrap();
    assert!(coll.query().filter("rating").ge(1).using_index(&idx).try_index().is_none());
    let one = coll.query().filter("title").eq("R7").using_index(&idx).try_index();
    assert_eq!(one, Some(vec!["r0007.md".to_string()]));
    assert!(coll.query().filter("title").ne("R7").using_index(&idx).try_index().is_none());
    assert!(coll.query().filter("title").eq("R7").try_index().is_none());
}

#[test]
fn edge_cases_of_filters() {
    let coll = open(SCHEMA);
    let files = make_collection();
    let none: [&str; 0] = [];
    assert!(drain(coll.query().filter("tags").contains_any(&none), &files).unwrap().is_empty());
    let all = drain(coll.query().filter("tags").contains_all(&none), &files).unwrap();
    assert_eq!(paths(all), vec!["alpha.md", "beta.md", "gamma.md"]);
    let ordered = coll.query().order_by("title").desc().order_by("rating").asc();
    assert_eq!(
        paths(ordered.collect_par(&files).unwrap()),
        vec!["delta.md", "beta.md", "gamma.md", "alpha.md"]
    );
    assert!(drain(coll.query().filter("absent").ne(1), &files).unwrap().is_empty());
}

#[test]
fn errors_count_only_before_the_limit() {
    let coll = open(SCHEMA);
    let mut files = make_collection();
    files.push(file("z.md", "---\nnever closed\n"));
    assert!(drain(coll.query(), &files).is_err());
    assert!(coll.query().collect_par(&files).is_err());
    assert!(coll.query().order_by("rating").asc().collect_par(&files).is_err());
    assert!(coll.query().order_by("rating").asc().limit(2).collect_par(&files).is_err());
    assert!(in_chunks(&coll.query(), &files).is_err());
    let two = paths(coll.query().limit(2).collect_par(&files).unwrap());
    assert_eq!(two, vec!["alpha.md", "beta.md"]);
    assert_eq!(paths(drain(coll.query().limit(2), &files).unwrap()), two);
    assert_eq!(paths(in_chunks(&coll.query().limit(2), &files).unwrap()), two);
    let mut stream = coll.query().stream();
    assert!(matches!(stream.offer(&files[4]), Offer::Failed(_)));
    assert!(stream.is_over());
    assert!(matches!(stream.offer(&files[0]), Offer::Over));
}

#[test]
fn workers_keep_the_first_records() {
    let files = rand_collection(300);
    let coll = open(SCHEMA);
    let query = coll.query().filter("rating").ge(2).order_by("read_at").desc().limit(9);
    let mut kept = Vec::new();
    for part in files.chunks(50) {
        let (top, error) = worker_topk(query.top_k().unwrap(), query.filters(), part);
        assert!(error.is_none());
        let mut records = top.finish();
        assert!(records.len() <= 9);
        kept.append(&mut records);
    }
    let merged = query.finish(Scan { records: kept, error: None }).unwrap();
    assert_eq!(paths(merged), paths(query.collect_par(&files).unwrap()));
}

#[test]
fn numbers_and_kinds_in_filters() {
    let coll = open(SCHEMA);
    let files = vec![
        file("f.md", "---\nx: 4.0\n---\n"),
        file("i.md", "---\nx: 4\n---\n"),
        file("n.md", "---\nx: .nan\n---\n"),
        file("s.md", "---\nx: '4'\n---\n"),
        file("t.md", "---\nx: true\n---\n"),
        file("z.md", "---\nx: -0.0\n---\n"),
    ];
    let four = from_yaml(&serde_yaml_ng::Value::from(4.0));
    assert_eq!(paths(drain(coll.query().filter("x").eq(4), &files).unwrap()), vec!["f.md", "i.md"]);
    assert_eq!(
        paths(drain(coll.query().filter("x").eq(four), &files).unwrap()),
        vec!["f.md", "i.md"]
    );
    assert_eq!(paths(drain(coll.query().filter("x").eq("4"), &files).unwrap()), vec!["s.md"]);
    assert_eq!(paths(drain(coll.query().filter("x").eq(true), &files).unwrap()), vec!["t.md"]);
    assert_eq!(paths(drain(coll.query().filter("x").eq(0), &files).unwrap()), vec!["z.md"]);
    assert_eq!(
        paths(drain(coll.query().filter("x").ge(false), &files).unwrap()),
        vec!["t.md"]
    );
    let nan = from_yaml(&serde_yaml_ng::Value::from(f64::NAN));
    assert!(drain(coll.query().filter("x").eq(nan), &files).unwrap().is_empty());
    let idx = Index::build(&stamped(&files)).unwrap();
    let zero = coll.query().filter("x").eq(0);
    assert_eq!(by_index(&zero, &idx, &files), vec!["z.md"]);
}

#[test]
fn mixed_values_keep_missing_records_last() {
    let coll = open(SCHEMA);
    let files = vec![
        file("a.md", "no frontmatter\n"),
        file("b.md", "---\nx: 2\n---\n"),
        file("c.md", "---\nx: text\n---\n"),
        file("d.md", "---\nx: 1\n---\n"),
    ];
    for q in [coll.query().order_by("x").asc(), coll.query().order_by("x").desc()] {
        let got = paths(q.collect_par(&files).unwrap());
        assert_eq!(got.len(), 4);
        assert_eq!(got[3], "a.md");
    }
}

#[test]
fn worker_counts() {
    assert_eq!(worker_count(0, 8), 1);
    assert_eq!(worker_count(1023, 8), 1);
    assert_eq!(worker_count(1024, 8), 2);
    assert_eq!(worker_count(1_000_000, 8), 8);
    assert_eq!(chunk_end(0, 100), 100);
    assert_eq!(chunk_end(0, 129), 128);
    assert_eq!(chunk_end(128, 129), 129);
}

#[test]
fn indexed_answers_do_not_depend_on_the_order_of_reading() {
    // As texts `a.md` comes before `a/b.md`; as paths it comes after it.
    let files = vec![
        file("a/b.md", "---\nn: 1\nt: x\n---\n"),
        file("a.md", "---\nn: 1\nt: x\n---\n"),
        file("c.md", "---\nn: 2\nt: x\n---\n"),
    ];
    let coll = open(SCHEMA);
    let idx = Index::build(&stamped(&files)).unwrap();
    for q in [
        coll.query().filter("t").eq("x"),
        coll.query().filter("t").eq("x").limit(1),
        coll.query().filter("t").eq("x").order_by("n").asc(),
        coll.query().filter("t").eq("x").order_by("n").desc().limit(2),
    ] {
        let scan = paths(q.collect_par(&files).unwrap());
        assert_eq!(by_index(&q, &idx, &files), scan);
        assert_eq!(paths(q.run(&files).records), scan);
    }
}
