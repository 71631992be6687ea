use curserve::cache::{BuildFile, FileProbe, MmapCache, ReplaceError};
use curserve::mapping::FileMapping;

fn mapping_of(text: &str) -> FileMapping {
    let bytes: Vec<u8> = text.as_bytes().to_vec();
    FileMapping::from_bytes(&bytes).expect("anonymous mapping")
}

fn listed(path: &str, text: &str) -> BuildFile {
    BuildFile {
        path: path.to_string(),
        canon: path.to_string(),
        size: text.len() as u64,
        mapping: Some(mapping_of(text)),
    }
}

fn build(root: &str, files: Vec<BuildFile>) -> MmapCache {
    MmapCache::new(root.to_string(), files)
}

fn hits(cache: &MmapCache, pattern: &str, case_sensitive: bool, max: usize) -> Vec<(String, u64, String)> {
    let resp = cache
        .search(&pattern.to_string(), case_sensitive, max)
        .expect("pattern compiles");
    resp.matches
        .into_iter()
        .map(|m| (m.path, m.line_number, m.line))
        .collect()
}

#[test]
fn build_counts_admitted_files() {
    let cache = build(
        "/repo",
        vec![listed("/repo/code.rs", "fn main() {}\n"), listed("/repo/image.png", "not really\n")],
    );
    // the binary extension is never admitted
    assert_eq!(cache.len(), 1);
    // a pattern present only in the excluded file finds nothing
    assert!(hits(&cache, "really", false, 1000).is_empty());
}

#[test]
fn build_skips_empty_and_oversize() {
    let files = vec![
        BuildFile {
            path: "/repo/empty.txt".to_string(),
            canon: "/repo/empty.txt".to_string(),
            size: 0,
            mapping: None,
        },
        BuildFile {
            path: "/repo/huge.txt".to_string(),
            canon: "/repo/huge.txt".to_string(),
            size: 53477376,
            mapping: None,
        },
        listed("/repo/ok.txt", "fine\n"),
    ];
    let cache = build("/repo", files);
    assert_eq!(cache.len(), 1);
}

#[test]
fn build_collapses_duplicate_canonical_forms() {
    let cache = build(
        "/repo",
        vec![listed("/repo/a.txt", "one\n"), {
            let mut f = listed("/private/repo/a.txt", "one\n");
            f.canon = "/repo/a.txt".to_string();
            f
        }],
    );
    assert_eq!(cache.len(), 1);
}

#[test]
fn register_and_search_bodies() {
    let cache = build(
        "/repo",
        vec![listed("/repo/a.txt", "hello\nworld\n"), listed("/repo/b.txt", "HELLO\n")],
    );
    let mut insensitive = hits(&cache, "hello", false, 1000);
    insensitive.sort();
    assert_eq!(
        insensitive,
        vec![
            ("a.txt".to_string(), 1, "hello".to_string()),
            ("b.txt".to_string(), 1, "HELLO".to_string()),
        ]
    );

    let sensitive = hits(&cache, "hello", true, 1000);
    assert_eq!(sensitive, vec![("a.txt".to_string(), 1, "hello".to_string())]);
}

#[test]
fn search_reports_files_searched_and_total() {
    let cache = build(
        "/repo",
        vec![listed("/repo/a.txt", "x\ny\nx\n"), listed("/repo/b.txt", "x\n")],
    );
    let resp = cache.search(&"x".to_string(), false, 1000).unwrap();
    assert_eq!(resp.files_searched, 2);
    assert_eq!(resp.total_matches, 3);
    assert_eq!(resp.matches.len(), 3);
}

#[test]
fn invalid_pattern_is_the_sole_error() {
    let cache = build("/repo", vec![listed("/repo/a.txt", "x\n")]);
    let err = cache.search(&"(".to_string(), false, 1000).unwrap_err();
    assert_eq!(err, "Invalid regex pattern");
    assert!(cache.search(&"x(".to_string(), true, 10).is_err());
    assert!(cache.search(&"x".to_string(), true, 10).is_ok());
}

#[test]
fn per_file_ceiling_truncates_single_file() {
    // a file of two thousand single-character matching lines
    let body = "z\n".repeat(2000);
    let cache = build("/repo", vec![listed("/repo/big.txt", &body)]);
    let resp = cache.search(&"z".to_string(), false, 100).unwrap();
    // the per-file buffer stops at the ceiling, so the reported total is
    // the capped count, not two thousand
    assert_eq!(resp.total_matches, 100);
    assert_eq!(resp.matches.len(), 100);
    // within the file, line numbers ascend from one
    assert_eq!(resp.matches[0].line_number, 1);
    assert_eq!(resp.matches[99].line_number, 100);
}

#[test]
fn global_ceiling_bounds_matches() {
    let body = "q\n".repeat(40);
    let cache = build(
        "/repo",
        vec![
            listed("/repo/a.txt", &body),
            listed("/repo/b.txt", &body),
            listed("/repo/c.txt", &body),
        ],
    );
    let resp = cache.search(&"q".to_string(), false, 50).unwrap();
    // every per-file buffer stays under the ceiling, so the total sums them
    assert_eq!(resp.total_matches, 120);
    assert_eq!(resp.matches.len(), 50);
}

#[test]
fn insensitive_matches_cover_sensitive_matches() {
    let cache = build(
        "/repo",
        vec![listed("/repo/a.txt", "Word\nword\nWORD\nsword\n"), listed("/repo/b.txt", "wOrD\n")],
    );
    let mut sensitive = hits(&cache, "word", true, 1000);
    let mut insensitive = hits(&cache, "word", false, 1000);
    sensitive.sort();
    insensitive.sort();
    for m in &sensitive {
        assert!(insensitive.contains(m), "sensitive hit {m:?} missing");
    }
    assert!(insensitive.len() >= sensitive.len());
}

#[test]
fn search_total_is_stable_across_runs() {
    let cache = build(
        "/repo",
        vec![
            listed("/repo/a.txt", "m\nn\nm\n"),
            listed("/repo/b.txt", "m\n"),
            listed("/repo/c.txt", "mm m\n"),
        ],
    );
    let first = cache.search(&"m".to_string(), false, 2).unwrap();
    for _ in 0..10 {
        let again = cache.search(&"m".to_string(), false, 2).unwrap();
        assert_eq!(again.total_matches, first.total_matches);
        assert_eq!(again.files_searched, first.files_searched);
    }
}

#[test]
fn reload_inserts_fresh_content() {
    let mut cache = build("/repo", vec![listed("/repo/a.txt", "old\n")]);
    let probe = FileProbe::Present { size: 12, mapping: Some(mapping_of("old\nnew\nnew\n")) };
    cache
        .reload_resolved(&"/repo/a.txt".to_string(), &"/repo/a.txt".to_string(), probe)
        .unwrap();
    assert_eq!(cache.len(), 1);
    let found = hits(&cache, "new", false, 1000);
    assert_eq!(
        found,
        vec![
            ("a.txt".to_string(), 2, "new".to_string()),
            ("a.txt".to_string(), 3, "new".to_string()),
        ]
    );
}

#[test]
fn reload_of_rejected_file_shrinks_cache() {
    let mut cache = build("/repo", vec![listed("/repo/a.txt", "old\n")]);
    // the file shrank to zero bytes: the stale entry goes, nothing comes in
    let probe = FileProbe::Present { size: 0, mapping: None };
    cache
        .reload_resolved(&"/repo/a.txt".to_string(), &"/repo/a.txt".to_string(), probe)
        .unwrap();
    assert_eq!(cache.len(), 0);
}

#[test]
fn reload_open_failure_reports_and_collapses() {
    let mut cache = build("/repo", vec![listed("/repo/a.txt", "old\n")]);
    let out = cache.reload_resolved(
        &"/repo/a.txt".to_string(),
        &"/repo/a.txt".to_string(),
        FileProbe::OpenFailed,
    );
    assert_eq!(out, Err(ReplaceError::CannotOpen));
    assert_eq!(cache.len(), 0);
}

#[test]
fn reload_map_failure_reports_and_collapses() {
    let mut cache = build("/repo", vec![listed("/repo/a.txt", "old\n")]);
    // the file opened with an admissible size but could not be mapped
    let probe = FileProbe::Present { size: 4, mapping: None };
    let out = cache.reload_resolved(
        &"/repo/a.txt".to_string(),
        &"/repo/a.txt".to_string(),
        probe,
    );
    assert_eq!(out, Err(ReplaceError::CannotMap));
    assert_eq!(cache.len(), 0);
}

#[test]
fn reload_of_absent_file_is_a_benign_skip() {
    let mut cache = build("/repo", vec![listed("/repo/a.txt", "old\n")]);
    cache
        .reload_resolved(&"/repo/a.txt".to_string(), &"/repo/a.txt".to_string(), FileProbe::Absent)
        .unwrap();
    assert_eq!(cache.len(), 1);
}

#[test]
fn reload_of_excluded_extension_changes_nothing() {
    let mut cache = build("/repo", vec![listed("/repo/a.txt", "text\n")]);
    // the walk never admits a binary extension; a replace for one must not
    // either, and must not disturb what is cached
    let probe = FileProbe::Present { size: 7, mapping: Some(mapping_of("raster\n")) };
    cache
        .reload_resolved(&"/repo/b.png".to_string(), &"/repo/b.png".to_string(), probe)
        .unwrap();
    assert_eq!(cache.len(), 1);
}

#[test]
fn alias_replace_keeps_cache_size() {
    // the entry went in under the client-supplied spelling; the observer
    // reports the canonical spelling of the same file
    let mut cache = build(
        "/var/repo",
        vec![{
            let mut f = listed("/var/repo/a.txt", "one\n");
            f.canon = "/private/var/repo/a.txt".to_string();
            f
        }],
    );
    assert_eq!(cache.len(), 1);
    let probe = FileProbe::Present { size: 4, mapping: Some(mapping_of("one\n")) };
    cache
        .reload_resolved(
            &"/private/var/repo/a.txt".to_string(),
            &"/private/var/repo/a.txt".to_string(),
            probe,
        )
        .unwrap();
    assert_eq!(cache.len(), 1);
}

#[test]
fn remove_deletes_every_alias() {
    let mut cache = build(
        "/repo",
        vec![listed("/repo/a.txt", "one\n"), listed("/repo/b.txt", "two\n")],
    );
    cache.remove_resolved(&"/repo/b.txt".to_string());
    assert_eq!(cache.len(), 1);
    assert!(hits(&cache, "two", false, 1000).is_empty());
    assert_eq!(hits(&cache, "one", false, 1000).len(), 1);
}

#[test]
fn reload_and_remove_resolve_paths_best_effort() {
    // the paths name no real file, so resolution falls back to the path
    // itself and the recorded forms match
    let mut cache = build("/repo", vec![listed("/repo/a.txt", "one
"), listed("/repo/b.txt", "two
")]);
    cache.remove_file(&"/repo/a.txt".to_string());
    assert_eq!(cache.len(), 1);
    let probe = FileProbe::Present { size: 6, mapping: Some(mapping_of("three
")) };
    cache.reload_file(&"/repo/b.txt".to_string(), probe).unwrap();
    assert_eq!(cache.len(), 1);
    assert_eq!(hits(&cache, "three", false, 10).len(), 1);
}

#[test]
fn root_is_recorded() {
    let cache = build("/repo", vec![]);
    assert_eq!(cache.root().as_str(), "/repo");
    assert_eq!(cache.len(), 0);
}

#[test]
fn zero_ceiling_yields_nothing() {
    let cache = build("/repo", vec![listed("/repo/a.txt", "x\n")]);
    let resp = cache.search(&"x".to_string(), false, 0).unwrap();
    assert_eq!(resp.total_matches, 0);
    assert_eq!(resp.matches.len(), 0);
    assert_eq!(resp.files_searched, 1);
}
