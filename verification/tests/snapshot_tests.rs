use folder_engine::engine::FolderEngine;
use folder_engine::model::{FolderError, Status};

fn times(e: &FolderEngine, w: usize, limit: usize) -> Vec<u64> {
    let mut out = Vec::new();
    for s in e.list(w, limit) {
        out.push(s.taken_at);
    }
    out
}

#[test]
fn eleven_captures_keep_the_ten_newest() {
    let mut e = FolderEngine::new(10);
    let w = e.create_workspace(String::from("W"), 0);
    for t in 1..=11u64 {
        let s = e.capture(w, t).unwrap();
        assert_eq!(s.taken_at, t);
        assert_eq!(s.workspace_id, w);
    }
    assert_eq!(times(&e, w, 10), vec![11, 10, 9, 8, 7, 6, 5, 4, 3, 2]);
    assert_eq!(times(&e, w, 100), vec![11, 10, 9, 8, 7, 6, 5, 4, 3, 2]);
    assert_eq!(times(&e, w, 3), vec![11, 10, 9]);
}

#[test]
fn list_with_limit_zero_or_unknown_workspace_is_empty() {
    let mut e = FolderEngine::new(4);
    let w = e.create_workspace(String::from("W"), 0);
    assert!(e.capture(w, 1).is_ok());
    assert!(e.list(w, 0).is_empty());
    assert!(e.list(999, 10).is_empty());
    assert!(e.list(0, 10).is_empty());
    assert_eq!(times(&e, w, 1), vec![1]);
}

#[test]
fn capture_of_an_unknown_workspace_is_not_found() {
    let mut e = FolderEngine::new(4);
    let w = e.create_workspace(String::from("W"), 0);
    let a = e.create_view(w, String::from("A"), None, None, 1).unwrap();
    assert_eq!(e.capture(77, 1).err(), Some(FolderError::NotFound));
    assert_eq!(e.capture(a, 1).err(), Some(FolderError::NotFound));
    assert!(e.list(w, 5).is_empty());
}

#[test]
fn histories_are_kept_per_workspace() {
    let mut e = FolderEngine::new(2);
    let w1 = e.create_workspace(String::from("one"), 0);
    let w2 = e.create_workspace(String::from("two"), 0);
    assert!(e.capture(w1, 1).is_ok());
    assert!(e.capture(w2, 2).is_ok());
    assert!(e.capture(w1, 3).is_ok());
    assert!(e.capture(w1, 4).is_ok());
    assert_eq!(times(&e, w1, 10), vec![4, 3]);
    assert_eq!(times(&e, w2, 10), vec![2]);
}

#[test]
fn a_retention_bound_of_zero_keeps_nothing() {
    let mut e = FolderEngine::new(0);
    let w = e.create_workspace(String::from("W"), 0);
    assert!(e.capture(w, 1).is_ok());
    assert!(e.list(w, 5).is_empty());
}

#[test]
fn capture_then_restore_reproduces_the_tree() {
    let mut e = FolderEngine::new(5);
    let w = e.create_workspace(String::from("W"), 0);
    assert_eq!(e.open_workspace(w), Ok(()));
    let a = e.create_view(w, String::from("A"), None, None, 1).unwrap();
    let b = e.create_view(a, String::from("B"), None, None, 2).unwrap();
    let c = e.create_view(w, String::from("C"), None, None, 3).unwrap();
    assert_eq!(e.toggle_favorite(b), Ok(()));
    assert_eq!(e.trash(c, 4), Ok(()));
    let snap = e.capture(w, 5).unwrap();

    assert_eq!(e.move_view(b, w, Some(0)), Ok(()));
    assert_eq!(e.restore(c), Ok(()));
    assert_eq!(e.toggle_favorite(a), Ok(()));
    assert_eq!(e.trash(a, 6), Ok(()));
    assert_eq!(e.update_view(b, Some(String::from("renamed")), None), Ok(()));
    let d = e.create_view(w, String::from("D"), None, None, 7).unwrap();
    assert_eq!(e.set_current(d), Ok(()));

    e.restore_snapshot(&snap);
    assert_eq!(e.children_of(w), vec![a]);
    assert_eq!(e.children_of(a), vec![b]);
    assert_eq!(e.get(b).unwrap().parent_id, Some(a));
    assert_eq!(e.get(b).unwrap().name, "B");
    assert_eq!(e.trash, vec![c]);
    assert_eq!(e.get(c).unwrap().status, Status::Trashed);
    assert_eq!(e.list_favorites(), vec![b]);
    assert!(e.get(d).is_none());
    assert_eq!(e.get_current(), None);
    assert_eq!(e.open_workspace, Some(w));
    assert_eq!(e.nodes.len(), 6);
    assert_eq!(times(&e, w, 10), vec![5]);
    let fresh = e.create_view(w, String::from("E"), None, None, 8).unwrap();
    assert_eq!(fresh, 6);
}

#[test]
fn snapshots_do_not_change_after_capture() {
    let mut e = FolderEngine::new(5);
    let w = e.create_workspace(String::from("W"), 0);
    let a = e.create_view(w, String::from("A"), None, None, 1).unwrap();
    assert!(e.capture(w, 2).is_ok());
    assert_eq!(e.trash(a, 3), Ok(()));
    let listed = e.list(w, 1);
    assert_eq!(listed[0].nodes[w].ordered_children, vec![a]);
    assert_eq!(listed[0].nodes[a].status, Status::Live);
    assert!(listed[0].trash.is_empty());
}

#[test]
fn an_engine_can_start_from_a_snapshot() {
    let mut e = FolderEngine::new(5);
    let w = e.create_workspace(String::from("W"), 0);
    let a = e.create_view(w, String::from("A"), None, None, 1).unwrap();
    let b = e.create_view(w, String::from("B"), None, None, 2).unwrap();
    assert_eq!(e.toggle_favorite(b), Ok(()));
    assert_eq!(e.trash(a, 3), Ok(()));
    let snap = e.capture(w, 4).unwrap();

    let mut f = FolderEngine::from_snapshot(&snap, 2);
    assert_eq!(f.nodes.len(), 4);
    assert_eq!(f.histories.len(), 4);
    assert_eq!(f.retention, 2);
    assert_eq!(f.children_of(w), vec![b]);
    assert_eq!(f.trash, vec![a]);
    assert_eq!(f.list_favorites(), vec![b]);
    assert_eq!(f.get_current(), None);
    assert_eq!(f.open_workspace, None);
    assert!(f.list(w, 10).is_empty());
    assert_eq!(f.open_workspace(w), Ok(()));
    assert_eq!(f.restore(a), Ok(()));
    assert_eq!(f.children_of(w), vec![b, a]);
    assert_eq!(e.children_of(w), vec![b]);
}

#[test]
fn an_identifier_that_stops_being_a_workspace_lists_nothing() {
    let mut e = FolderEngine::new(10);
    let w1 = e.create_workspace(String::from("one"), 0);
    let first = e.capture(w1, 1).unwrap();
    let w2 = e.create_workspace(String::from("two"), 2);
    assert!(e.capture(w2, 3).is_ok());
    assert_eq!(times(&e, w2, 10), vec![3]);
    e.restore_snapshot(&first);
    assert!(e.get(w2).is_none());
    assert!(e.list(w2, 10).is_empty());
    assert_eq!(times(&e, w1, 10), vec![1]);
    let a = e.create_view(w1, String::from("A"), None, None, 4).unwrap();
    assert!(e.list(a, 10).is_empty());
}

#[test]
fn a_listed_snapshot_restores_the_captured_tree() {
    let mut e = FolderEngine::new(3);
    let w = e.create_workspace(String::from("W"), 0);
    let a = e.create_view(w, String::from("A"), None, None, 1).unwrap();
    let b = e.create_view(a, String::from("B"), None, None, 2).unwrap();
    assert_eq!(e.toggle_favorite(a), Ok(()));
    assert!(e.capture(w, 3).is_ok());
    assert_eq!(e.trash(a, 4), Ok(()));
    assert_eq!(e.purge(a), Ok(()));
    assert_eq!(e.toggle_favorite(b), Ok(()));
    let listed = e.list(w, 1);
    assert_eq!(listed.len(), 1);
    e.restore_snapshot(&listed[0]);
    assert_eq!(e.children_of(w), vec![a]);
    assert_eq!(e.children_of(a), vec![b]);
    assert_eq!(e.get(b).unwrap().parent_id, Some(a));
    assert_eq!(e.list_favorites(), vec![a]);
    assert!(e.trash.is_empty());
    assert_eq!(times(&e, w, 10), vec![3]);
}
