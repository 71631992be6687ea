use curserve::cache::{BuildFile, FileProbe, MmapCache};
use curserve::mapping::FileMapping;
use curserve::service::{
    alloc_reply, default_max_results, format_matches, load_failure_reply, missing_root_reply,
    no_codebase_reply, Response, ServiceState,
};

fn mapping_of(text: &str) -> FileMapping {
    let bytes: Vec<u8> = text.as_bytes().to_vec();
    FileMapping::from_bytes(&bytes).expect("anonymous mapping")
}

fn listed(path: &str, text: &str) -> BuildFile {
    BuildFile {
        path: path.to_string(),
        canon: path.to_string(),
        size: text.len() as u64,
        mapping: Some(mapping_of(text)),
    }
}

fn demo_cache(root: &str, files: Vec<BuildFile>) -> MmapCache {
    MmapCache::new(root.to_string(), files)
}

#[test]
fn success_and_failure_replies() {
    let ok = Response::success(Some("body".to_string()));
    assert_eq!(ok.response_status, 1);
    assert_eq!(ok.text.as_deref(), Some("body"));
    assert!(ok.error.is_none());

    let quiet = Response::success(None);
    assert_eq!(quiet.response_status, 1);
    assert!(quiet.text.is_none());
    assert!(quiet.error.is_none());

    let bad = Response::failure("boom".to_string());
    assert_eq!(bad.response_status, 0);
    assert!(bad.text.is_none());
    assert_eq!(bad.error.as_deref(), Some("boom"));
}

#[test]
fn default_ceiling_is_a_thousand() {
    assert_eq!(default_max_results(), 1000);
}

#[test]
fn canned_reply_texts() {
    let r = alloc_reply(2);
    assert_eq!(r.response_status, 1);
    assert_eq!(r.text.as_deref(), Some("Allocated 2 files"));

    let r = missing_root_reply(&"/nowhere".to_string());
    assert_eq!(r.response_status, 0);
    assert_eq!(r.error.as_deref(), Some("Repository path does not exist: /nowhere"));

    let r = load_failure_reply(&"walk exploded".to_string());
    assert_eq!(r.response_status, 0);
    assert_eq!(r.error.as_deref(), Some("Failed to load codebase: walk exploded"));

    assert_eq!(
        no_codebase_reply(42),
        "PID 42 has no allocated codebase. Call alloc_pid first."
    );
}

#[test]
fn unknown_tenant_is_refused() {
    let state = ServiceState::new();
    let r = state.handle_ripgrep(7, &"hello".to_string(), false);
    assert_eq!(r.response_status, 0);
    assert!(r.text.is_none());
    assert_eq!(
        r.error.as_deref(),
        Some("PID 7 has no allocated codebase. Call alloc_pid first.")
    );
}

#[test]
fn register_and_search_over_the_dispatcher() {
    let mut state = ServiceState::new();
    let cache = demo_cache(
        "/repo",
        vec![listed("/repo/a.txt", "hello\nworld\n"), listed("/repo/b.txt", "HELLO\n")],
    );
    state.register_tenant(7, cache);
    assert_eq!(state.tenant_count(), 1);

    let r = state.handle_ripgrep(7, &"hello".to_string(), false);
    assert_eq!(r.response_status, 1);
    assert!(r.error.is_none());
    let mut lines: Vec<&str> = r.text.as_deref().unwrap().lines().collect();
    lines.sort();
    assert_eq!(lines, vec!["a.txt:1:hello", "b.txt:1:HELLO"]);

    let r = state.handle_ripgrep(7, &"hello".to_string(), true);
    assert_eq!(r.response_status, 1);
    assert_eq!(r.text.as_deref(), Some("a.txt:1:hello"));
}

#[test]
fn bad_pattern_fails_with_error_text() {
    let mut state = ServiceState::new();
    state.register_tenant(7, demo_cache("/repo", vec![listed("/repo/a.txt", "x\n")]));
    let r = state.handle_ripgrep(7, &"(".to_string(), false);
    assert_eq!(r.response_status, 0);
    assert!(r.text.is_none());
    assert_eq!(r.error.as_deref(), Some("Search failed: Invalid regex pattern"));
}

#[test]
fn tenants_are_isolated() {
    let mut state = ServiceState::new();
    state.register_tenant(1, demo_cache("/r1", vec![listed("/r1/only.txt", "secret\n")]));
    state.register_tenant(2, demo_cache("/r2", vec![listed("/r2/other.txt", "public\n")]));

    // a search from tenant two for a string present only in tenant one's
    // root finds nothing
    let r = state.handle_ripgrep(2, &"secret".to_string(), false);
    assert_eq!(r.response_status, 1);
    assert_eq!(r.text.as_deref(), Some(""));

    // evicting tenant one does not affect tenant two
    state.remove_tenant(1);
    let r = state.handle_ripgrep(2, &"public".to_string(), false);
    assert_eq!(r.response_status, 1);
    assert_eq!(r.text.as_deref(), Some("other.txt:1:public"));

    let r = state.handle_ripgrep(1, &"secret".to_string(), false);
    assert_eq!(r.response_status, 0);
}

#[test]
fn re_registration_replaces_the_cache() {
    let mut state = ServiceState::new();
    state.register_tenant(9, demo_cache("/r", vec![listed("/r/a.txt", "first\n")]));
    state.register_tenant(9, demo_cache("/r", vec![listed("/r/a.txt", "second\n")]));
    assert_eq!(state.tenant_count(), 1);
    let r = state.handle_ripgrep(9, &"first".to_string(), false);
    assert_eq!(r.text.as_deref(), Some(""));
    let r = state.handle_ripgrep(9, &"second".to_string(), false);
    assert_eq!(r.text.as_deref(), Some("a.txt:1:second"));
}

#[test]
fn incremental_update_through_the_dispatcher() {
    let mut state = ServiceState::new();
    state.register_tenant(
        5,
        demo_cache("/repo", vec![listed("/repo/a.txt", "hello\nworld\n"), listed("/repo/b.txt", "HELLO\n")]),
    );

    // a.txt grew a third line
    let probe = FileProbe::Present { size: 16, mapping: Some(mapping_of("hello\nworld\nnew\n")) };
    assert!(state.apply_file_changed(5, &"/repo/a.txt".to_string(), probe));
    let r = state.handle_ripgrep(5, &"new".to_string(), false);
    assert_eq!(r.text.as_deref(), Some("a.txt:3:new"));

    // b.txt was deleted: its upper-case line is gone
    state.apply_file_deleted(5, &"/repo/b.txt".to_string());
    let r = state.handle_ripgrep(5, &"HELLO".to_string(), true);
    assert_eq!(r.response_status, 1);
    assert_eq!(r.text.as_deref(), Some(""));
}

#[test]
fn change_events_for_unknown_tenants_are_ignored() {
    let mut state = ServiceState::new();
    let probe = FileProbe::Present { size: 2, mapping: Some(mapping_of("x\n")) };
    assert!(state.apply_file_changed(99, &"/r/a.txt".to_string(), probe));
    state.apply_file_deleted(99, &"/r/a.txt".to_string());
    assert_eq!(state.tenant_count(), 0);
}

#[test]
fn formatted_output_matches_ripgrep_shape() {
    let cache = demo_cache("/repo", vec![listed("/repo/dir/f.txt", "alpha\nbeta\nalpha beta\n")]);
    let resp = cache.search(&"alpha".to_string(), true, 1000).unwrap();
    let body = format_matches(&resp.matches);
    assert_eq!(body, "dir/f.txt:1:alpha\ndir/f.txt:3:alpha beta");
}

#[test]
fn formatting_no_matches_is_empty() {
    let body = format_matches(&Vec::new());
    assert_eq!(body, "");
}
