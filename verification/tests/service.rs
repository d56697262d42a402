use dir_service::entry::{enrich, DirectoryEntry, EntryKind, Error, RawEntry, Timestamp};
use dir_service::listing::{list_directory, partition_entries, FilesResult};
use dir_service::mime::classify_name;
use dir_service::search::{search_directory, SearchCandidate};

fn ts(secs: i64) -> Timestamp {
    Timestamp { secs, nanos: 0 }
}

fn raw(name: &str, path: &str, is_dir: bool, size: u64) -> RawEntry {
    RawEntry {
        name: Some(name.to_string()),
        path: path.to_string(),
        is_dir,
        size,
        created: ts(1_431_648_000),
        modified: ts(1_431_649_000),
        accessed: ts(1_431_650_000),
    }
}

fn cand(name: &str, path: &str, is_dir: bool, depth: u64) -> SearchCandidate {
    SearchCandidate { entry: raw(name, path, is_dir, 10), depth }
}

fn names(es: &[DirectoryEntry]) -> Vec<String> {
    es.iter().map(|e| e.name.clone()).collect()
}

#[test]
fn list_splits_visible_entries() {
    // a.txt, .hidden, sub/ -> files=[a.txt], directories=[sub]
    let children = vec![
        raw("a.txt", "/d/a.txt", false, 5),
        raw(".hidden", "/d/.hidden", false, 1),
        raw("sub", "/d/sub", true, 4096),
    ];
    let r = list_directory(children).unwrap();
    assert_eq!(names(&r.files), vec!["a.txt".to_string()]);
    assert_eq!(names(&r.directories), vec!["sub".to_string()]);
    assert_eq!(r.files[0].kind, EntryKind::File);
    assert_eq!(r.files[0].size_bytes, 5);
    assert_eq!(r.files[0].mime_type, "text/plain");
    assert_eq!(r.files[0].path, "/d/a.txt");
    assert_eq!(r.directories[0].kind, EntryKind::Directory);
}

#[test]
fn list_returns_exactly_the_visible_entries() {
    // 3 visible, 2 hidden -> exactly 3 records, none dot-prefixed
    let children = vec![
        raw("one.txt", "/d/one.txt", false, 1),
        raw(".git", "/d/.git", true, 0),
        raw("two", "/d/two", true, 0),
        raw(".cache", "/d/.cache", true, 0),
        raw("three.png", "/d/three.png", false, 9),
    ];
    let r = list_directory(children).unwrap();
    assert_eq!(r.directories.len() + r.files.len(), 3);
    for e in r.directories.iter().chain(r.files.iter()) {
        assert!(!e.name.starts_with('.'));
    }
}

#[test]
fn directory_size_is_always_zero() {
    // the filesystem may report a block size for a directory; the record must not
    let children = vec![raw("sub", "/d/sub", true, 4096)];
    let r = list_directory(children).unwrap();
    assert_eq!(r.directories[0].size_bytes, 0);
}

#[test]
fn file_size_is_kept() {
    let e = enrich(&raw("big.bin", "/d/big.bin", false, 123_456)).unwrap();
    assert_eq!(e.size_bytes, 123_456);
}

#[test]
fn timestamps_round_trip() {
    // parsing the rendered text must give back the filesystem's instant
    let mut c = raw("a.txt", "/d/a.txt", false, 5);
    c.created = Timestamp { secs: 1_431_648_000, nanos: 26_490_000 };
    c.modified = Timestamp { secs: 0, nanos: 0 };
    c.accessed = Timestamp { secs: -1, nanos: 500_000_000 };
    let e = enrich(&c).unwrap();
    for (text, t) in [(&e.created_at, c.created), (&e.modified_at, c.modified), (
        &e.accessed_at,
        c.accessed,
    )] {
        let parsed = chrono::DateTime::parse_from_rfc3339(text).unwrap();
        assert_eq!(parsed.timestamp(), t.secs);
        assert_eq!(parsed.timestamp_subsec_nanos(), t.nanos);
    }
}

#[test]
fn listing_is_deterministic() {
    let build = || {
        vec![
            raw("b.txt", "/d/b.txt", false, 2),
            raw("a", "/d/a", true, 0),
            raw("c.md", "/d/c.md", false, 3),
        ]
    };
    let r1 = list_directory(build()).unwrap();
    let r2 = list_directory(build()).unwrap();
    assert_eq!(names(&r1.directories), names(&r2.directories));
    assert_eq!(names(&r1.files), names(&r2.files));
    for (a, b) in r1.files.iter().zip(r2.files.iter()) {
        assert_eq!(a.path, b.path);
        assert_eq!(a.mime_type, b.mime_type);
        assert_eq!(a.created_at, b.created_at);
        assert_eq!(a.modified_at, b.modified_at);
        assert_eq!(a.accessed_at, b.accessed_at);
        assert_eq!(a.size_bytes, b.size_bytes);
    }
}

#[test]
fn undecodable_name_is_reported() {
    let mut bad = raw("x", "/d/x", false, 1);
    bad.name = None;
    let children = vec![raw("ok.txt", "/d/ok.txt", false, 1), bad];
    let r = list_directory(children);
    assert_eq!(r.unwrap_err(), Error::UndecodableName);
}

#[test]
fn unrenderable_timestamp_aborts_the_listing() {
    let mut c = raw("a.txt", "/d/a.txt", false, 5);
    c.modified = Timestamp { secs: i64::MAX, nanos: 0 };
    let r = list_directory(vec![c]);
    assert_eq!(r.unwrap_err(), Error::Io);
}

#[test]
fn unrenderable_timestamp_on_hidden_entry_is_ignored() {
    let mut c = raw(".hidden", "/d/.hidden", false, 5);
    c.modified = Timestamp { secs: i64::MAX, nanos: 0 };
    let r = list_directory(vec![c]).unwrap();
    assert_eq!(r.directories.len() + r.files.len(), 0);
}

#[test]
fn enrich_reports_undecodable_name() {
    let mut c = raw("x", "/d/x", false, 1);
    c.name = None;
    assert_eq!(enrich(&c).unwrap_err(), Error::UndecodableName);
}

#[test]
fn error_messages() {
    assert_eq!(Error::Io.message(), "io error");
    assert_eq!(Error::UndecodableName.message(), "undecodable file name");
}

#[test]
fn mime_classification_table() {
    let mime = |n: &str| classify_name(n);
    assert_eq!(mime("a.txt"), "text/plain");
    assert_eq!(mime("photo.jpeg"), "image/jpeg");
    assert_eq!(mime("photo.jpg"), "image/jpeg");
    assert_eq!(mime("archive.tar.gz"), "application/gzip");
    assert_eq!(mime("index.html"), "text/html");
    assert_eq!(mime("movie.mp4"), "video/mp4");
    assert_eq!(mime("data.json"), "application/json");
    // unknown or missing extensions give the generic label
    assert_eq!(mime("unknown.zzz"), "application/octet-stream");
    assert_eq!(mime("README"), "application/octet-stream");
    assert_eq!(mime(".gitignore"), "application/octet-stream");
    assert_eq!(mime("trailing."), "application/octet-stream");
}

#[test]
fn partition_preserves_relative_order() {
    let entries: Vec<DirectoryEntry> = vec![
        enrich(&raw("f1.txt", "/d/f1.txt", false, 1)).unwrap(),
        enrich(&raw("d1", "/d/d1", true, 0)).unwrap(),
        enrich(&raw("f2.txt", "/d/f2.txt", false, 1)).unwrap(),
        enrich(&raw("d2", "/d/d2", true, 0)).unwrap(),
    ];
    let r: FilesResult = partition_entries(entries);
    assert_eq!(names(&r.files), vec!["f1.txt".to_string(), "f2.txt".to_string()]);
    assert_eq!(names(&r.directories), vec!["d1".to_string(), "d2".to_string()]);
}

#[test]
fn search_finds_case_insensitive_matches() {
    // my-repository/, report.txt match "repo"; other.log does not
    let cands = vec![
        cand("my-repository", "/r/my-repository", true, 1),
        cand("report.txt", "/r/report.txt", false, 1),
        cand("other.log", "/r/other.log", false, 1),
    ];
    let r = search_directory("repo", cands).unwrap();
    assert_eq!(names(&r.directories), vec!["my-repository".to_string()]);
    assert_eq!(names(&r.files), vec!["report.txt".to_string()]);
}

#[test]
fn search_uppercase_query_matches_lowercase_names() {
    let cands = vec![cand("my-repository", "/r/my-repository", true, 1)];
    let r = search_directory("REPO", cands).unwrap();
    assert_eq!(r.directories.len(), 1);
}

#[test]
fn search_lowercase_query_matches_uppercase_names() {
    let cands = vec![cand("README.TXT", "/r/README.TXT", false, 1)];
    let r = search_directory("readme", cands).unwrap();
    assert_eq!(r.files.len(), 1);
}

#[test]
fn search_never_returns_more_than_the_cap() {
    let mut cands = Vec::new();
    for i in 0..150 {
        let name = format!("match-{i:03}.txt");
        let path = format!("/r/match-{i:03}.txt");
        cands.push(cand(&name, &path, false, 1));
    }
    let r = search_directory("match", cands).unwrap();
    assert_eq!(r.directories.len() + r.files.len(), 100);
}

#[test]
fn search_never_returns_entries_beyond_the_depth_limit() {
    // an entry 12 levels below the root is past the limit of 10
    let cands = vec![
        cand("deep.txt", "/r/a/b/c/d/e/f/g/h/i/j/k/deep.txt", false, 12),
        cand("near-deep.txt", "/r/a/near-deep.txt", false, 2),
    ];
    let r = search_directory("deep", cands).unwrap();
    assert_eq!(names(&r.files), vec!["near-deep.txt".to_string()]);
}

#[test]
fn search_at_the_depth_limit_is_returned() {
    let cands = vec![cand("edge.txt", "/r/a/b/c/d/e/f/g/h/i/edge.txt", false, 10)];
    let r = search_directory("edge", cands).unwrap();
    assert_eq!(r.files.len(), 1);
}

#[test]
fn exact_name_match_ranks_first() {
    let cands = vec![
        cand("notes-backup", "/r/notes-backup", false, 1),
        cand("anotes", "/r/anotes", false, 1),
        cand("notes", "/r/notes", false, 1),
    ];
    let r = search_directory("notes", cands).unwrap();
    assert_eq!(r.files[0].name, "notes");
}

#[test]
fn prefix_match_ranks_before_inner_match() {
    let cands = vec![
        cand("xnotes", "/r/xnotes", false, 1),
        cand("notes-backup", "/r/notes-backup", false, 1),
    ];
    let r = search_directory("notes", cands).unwrap();
    assert_eq!(names(&r.files), vec![
        "notes-backup".to_string(),
        "xnotes".to_string(),
    ]);
}

#[test]
fn equal_ranks_are_ordered_by_path() {
    let cands = vec![
        cand("zeta-log.txt", "/r/b/zeta-log.txt", false, 2),
        cand("alog.txt", "/r/a/alog.txt", false, 2),
    ];
    let r = search_directory("log", cands).unwrap();
    assert_eq!(names(&r.files), vec![
        "alog.txt".to_string(),
        "zeta-log.txt".to_string(),
    ]);
}

#[test]
fn search_skips_hidden_entries() {
    let cands = vec![
        cand(".repo-cache", "/r/.repo-cache", true, 1),
        cand("repo", "/r/repo", true, 1),
    ];
    let r = search_directory("repo", cands).unwrap();
    assert_eq!(names(&r.directories), vec!["repo".to_string()]);
}

#[test]
fn search_reports_undecodable_names() {
    let mut bad = cand("x", "/r/x", false, 1);
    bad.entry.name = None;
    let r = search_directory("x", vec![bad]);
    assert_eq!(r.unwrap_err(), Error::UndecodableName);
}

#[test]
fn search_aborts_on_unrenderable_timestamp() {
    let mut c = cand("hit.txt", "/r/hit.txt", false, 1);
    c.entry.created = Timestamp { secs: i64::MIN, nanos: 0 };
    let r = search_directory("hit", vec![c]);
    assert_eq!(r.unwrap_err(), Error::Io);
}

#[test]
fn search_is_deterministic() {
    let build = || {
        vec![
            cand("beta-log", "/r/beta-log", false, 1),
            cand("log", "/r/log", false, 1),
            cand("alpha-log", "/r/alpha-log", true, 1),
        ]
    };
    let r1 = search_directory("log", build()).unwrap();
    let r2 = search_directory("log", build()).unwrap();
    assert_eq!(names(&r1.files), names(&r2.files));
    assert_eq!(names(&r1.directories), names(&r2.directories));
}

#[test]
fn empty_name_is_skipped_in_listing() {
    let children = vec![raw("", "/d/", false, 1), raw("a.txt", "/d/a.txt", false, 1)];
    let r = list_directory(children).unwrap();
    assert_eq!(r.directories.len() + r.files.len(), 1);
}

#[test]
fn empty_directory_lists_empty() {
    let r = list_directory(Vec::new()).unwrap();
    assert!(r.directories.is_empty());
    assert!(r.files.is_empty());
}
