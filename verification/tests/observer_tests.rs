use curserve::observer::{ChangeCommand, EventKind, WatchSet};

fn changed(cmds: &[ChangeCommand]) -> Vec<(u32, String)> {
    cmds.iter()
        .filter_map(|c| match c {
            ChangeCommand::FileChanged { tenant, path } => Some((*tenant, path.clone())),
            _ => None,
        })
        .collect()
}

fn deleted(cmds: &[ChangeCommand]) -> Vec<(u32, String)> {
    cmds.iter()
        .filter_map(|c| match c {
            ChangeCommand::FileDeleted { tenant, path } => Some((*tenant, path.clone())),
            _ => None,
        })
        .collect()
}

fn watched() -> WatchSet {
    let mut w = WatchSet::new();
    w.watch("/r1".to_string(), 1);
    w.watch("/r2".to_string(), 2);
    w
}

#[test]
fn create_and_modify_become_refreshes() {
    let w = watched();
    for kind in [EventKind::Create, EventKind::Modify] {
        let cmds = w.route(kind, &vec!["/r1/a.txt".to_string()]);
        assert_eq!(cmds.len(), 1);
        assert_eq!(changed(&cmds), vec![(1, "/r1/a.txt".to_string())]);
    }
}

#[test]
fn remove_becomes_a_drop() {
    let w = watched();
    let cmds = w.route(EventKind::Remove, &vec!["/r2/b/c.txt".to_string()]);
    assert_eq!(deleted(&cmds), vec![(2, "/r2/b/c.txt".to_string())]);
}

#[test]
fn other_kinds_are_ignored() {
    let w = watched();
    let cmds = w.route(EventKind::Other, &vec!["/r1/a.txt".to_string()]);
    assert!(cmds.is_empty());
}

#[test]
fn unwatched_paths_are_dropped() {
    let w = watched();
    let cmds = w.route(EventKind::Modify, &vec!["/elsewhere/a.txt".to_string()]);
    assert!(cmds.is_empty());
    // a sibling whose name merely extends a root is not under it
    let cmds = w.route(EventKind::Modify, &vec!["/r10/a.txt".to_string()]);
    assert!(cmds.is_empty());
}

#[test]
fn one_event_may_carry_many_paths() {
    let w = watched();
    let cmds = w.route(
        EventKind::Create,
        &vec![
            "/r1/a".to_string(),
            "/nowhere/b".to_string(),
            "/r2/c".to_string(),
        ],
    );
    assert_eq!(
        changed(&cmds),
        vec![(1, "/r1/a".to_string()), (2, "/r2/c".to_string())]
    );
}

#[test]
fn unwatch_drops_every_root_of_the_tenant() {
    let mut w = WatchSet::new();
    w.watch("/a".to_string(), 3);
    w.watch("/b".to_string(), 3);
    w.watch("/c".to_string(), 4);
    w.unwatch(3);
    assert!(w.route(EventKind::Modify, &vec!["/a/x".to_string()]).is_empty());
    assert!(w.route(EventKind::Modify, &vec!["/b/x".to_string()]).is_empty());
    assert_eq!(
        changed(&w.route(EventKind::Modify, &vec!["/c/x".to_string()])),
        vec![(4, "/c/x".to_string())]
    );
}

#[test]
fn rewatching_a_root_moves_it_to_the_new_tenant() {
    let mut w = WatchSet::new();
    w.watch("/r".to_string(), 1);
    w.watch("/r".to_string(), 2);
    assert_eq!(
        changed(&w.route(EventKind::Modify, &vec!["/r/x".to_string()])),
        vec![(2, "/r/x".to_string())]
    );
}

#[test]
fn the_root_itself_is_covered() {
    let w = watched();
    let cmds = w.route(EventKind::Remove, &vec!["/r1".to_string()]);
    assert_eq!(deleted(&cmds), vec![(1, "/r1".to_string())]);
}
