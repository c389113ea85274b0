use folder_engine::engine::FolderEngine;
use folder_engine::model::{FolderError, Kind, Status};
use folder_engine::session::upgrade_folder;

fn engine_with_workspace() -> (FolderEngine, usize) {
    let mut e = FolderEngine::new(10);
    let w = e.create_workspace(String::from("W"), 1);
    assert_eq!(e.open_workspace(w), Ok(()));
    (e, w)
}

fn view(e: &mut FolderEngine, parent: usize, name: &str) -> usize {
    e.create_view(parent, String::from(name), None, None, 5).unwrap()
}

#[test]
fn new_engine_reserves_the_empty_identifier() {
    let e = FolderEngine::new(3);
    assert_eq!(e.nodes.len(), 1);
    assert!(e.get(0).is_none());
    assert_eq!(e.get_current(), None);
    assert_eq!(e.open_workspace, None);
    assert_eq!(e.retention, 3);
}

#[test]
fn identifiers_are_fresh_and_sequential() {
    let (mut e, w) = engine_with_workspace();
    assert_eq!(w, 1);
    let a = view(&mut e, w, "A");
    let b = view(&mut e, w, "B");
    assert_eq!((a, b), (2, 3));
    let n = e.get(a).unwrap();
    assert_eq!(n.name, "A");
    assert_eq!(n.kind, Kind::View);
    assert_eq!(n.parent_id, Some(w));
    assert_eq!(n.created_at, 5);
    assert_eq!(n.status, Status::Live);
    assert_eq!(e.get(w).unwrap().kind, Kind::Workspace);
}

#[test]
fn move_to_workspace_scenario() {
    let (mut e, w) = engine_with_workspace();
    let a = view(&mut e, w, "A");
    let b = view(&mut e, a, "B");
    assert_eq!(e.children_of(a), vec![b]);
    assert_eq!(e.ancestors_of(b), vec![a, w]);
    assert_eq!(e.move_view(b, w, None), Ok(()));
    assert_eq!(e.children_of(a), Vec::<usize>::new());
    assert_eq!(e.children_of(w), vec![a, b]);
    assert_eq!(e.get(b).unwrap().parent_id, Some(w));
    assert_eq!(e.ancestors_of(b), vec![w]);
    assert!(!e.ancestors_of(b).contains(&b));
    assert!(!e.ancestors_of(a).contains(&a));
}

#[test]
fn move_under_itself_or_a_descendant_is_rejected() {
    let (mut e, w) = engine_with_workspace();
    let a = view(&mut e, w, "A");
    let b = view(&mut e, a, "B");
    let c = view(&mut e, b, "C");
    assert_eq!(e.move_view(a, a, None), Err(FolderError::InvalidOperation));
    assert_eq!(e.move_view(a, b, None), Err(FolderError::InvalidOperation));
    assert_eq!(e.move_view(a, c, None), Err(FolderError::InvalidOperation));
    assert_eq!(e.children_of(w), vec![a]);
    assert_eq!(e.children_of(a), vec![b]);
    assert_eq!(e.children_of(b), vec![c]);
    assert_eq!(e.ancestors_of(c), vec![b, a, w]);
    assert!(e.stands_under(c, a));
    assert!(e.stands_under(a, a));
    assert!(!e.stands_under(a, c));
}

#[test]
fn move_with_unknown_identifiers_is_not_found() {
    let (mut e, w) = engine_with_workspace();
    let a = view(&mut e, w, "A");
    assert_eq!(e.move_view(99, w, None), Err(FolderError::NotFound));
    assert_eq!(e.move_view(a, 99, None), Err(FolderError::NotFound));
    assert_eq!(e.move_view(w, a, None), Err(FolderError::NotFound));
    assert_eq!(e.children_of(w), vec![a]);
}

#[test]
fn move_places_at_the_requested_position() {
    let (mut e, w) = engine_with_workspace();
    let a = view(&mut e, w, "A");
    let b = view(&mut e, w, "B");
    let c = view(&mut e, w, "C");
    assert_eq!(e.move_view(c, w, Some(0)), Ok(()));
    assert_eq!(e.children_of(w), vec![c, a, b]);
    assert_eq!(e.move_view(c, w, Some(1)), Ok(()));
    assert_eq!(e.children_of(w), vec![a, c, b]);
    assert_eq!(e.move_view(c, w, Some(77)), Ok(()));
    assert_eq!(e.children_of(w), vec![a, b, c]);
    assert_eq!(e.move_view(a, b, Some(0)), Ok(()));
    assert_eq!(e.children_of(w), vec![b, c]);
    assert_eq!(e.children_of(b), vec![a]);
}

#[test]
fn create_view_clamps_the_position() {
    let (mut e, w) = engine_with_workspace();
    let a = view(&mut e, w, "A");
    let b = e.create_view(w, String::from("B"), Some(0), None, 6).unwrap();
    let c = e.create_view(w, String::from("C"), Some(50), Some(String::from("i")), 7).unwrap();
    let d = e.create_view(w, String::from("D"), Some(1), None, 8).unwrap();
    assert_eq!(e.children_of(w), vec![b, d, a, c]);
    assert_eq!(e.get(c).unwrap().icon, Some(String::from("i")));
}

#[test]
fn create_view_under_a_missing_parent_is_not_found() {
    let (mut e, w) = engine_with_workspace();
    let before = e.nodes.len();
    assert_eq!(e.create_view(42, String::from("X"), None, None, 1), Err(FolderError::NotFound));
    assert_eq!(e.create_view(0, String::from("X"), None, None, 1), Err(FolderError::NotFound));
    let a = view(&mut e, w, "A");
    assert_eq!(e.trash(a, 9), Ok(()));
    assert_eq!(e.create_view(a, String::from("X"), None, None, 1), Err(FolderError::NotFound));
    assert_eq!(e.nodes.len(), before + 1);
}

#[test]
fn orphan_view_can_be_attached_later() {
    let (mut e, w) = engine_with_workspace();
    let o = e.create_orphan_view(String::from("O"), None, 3);
    assert_eq!(e.get(o).unwrap().parent_id, None);
    assert_eq!(e.children_of(w), Vec::<usize>::new());
    assert_eq!(e.ancestors_of(o), Vec::<usize>::new());
    assert_eq!(e.move_view(o, w, None), Ok(()));
    assert_eq!(e.children_of(w), vec![o]);
    assert_eq!(e.get(o).unwrap().parent_id, Some(w));
}

#[test]
fn update_view_changes_name_and_icon_only() {
    let (mut e, w) = engine_with_workspace();
    let a = view(&mut e, w, "A");
    assert_eq!(e.update_view(a, Some(String::from("A2")), None), Ok(()));
    assert_eq!(e.get(a).unwrap().name, "A2");
    assert_eq!(e.get(a).unwrap().icon, None);
    assert_eq!(e.update_view(a, None, Some(Some(String::from("star")))), Ok(()));
    assert_eq!(e.get(a).unwrap().name, "A2");
    assert_eq!(e.get(a).unwrap().icon, Some(String::from("star")));
    assert_eq!(e.update_view(a, None, Some(None)), Ok(()));
    assert_eq!(e.get(a).unwrap().icon, None);
    assert_eq!(e.get(a).unwrap().parent_id, Some(w));
    assert_eq!(e.children_of(w), vec![a]);
    assert_eq!(e.update_view(77, Some(String::from("x")), None), Err(FolderError::NotFound));
    assert_eq!(e.update_view(w, Some(String::from("x")), None), Err(FolderError::NotFound));
}

#[test]
fn trash_and_restore_keep_children_attached() {
    let (mut e, w) = engine_with_workspace();
    let a = view(&mut e, w, "A");
    let b = view(&mut e, a, "B");
    assert_eq!(e.trash(a, 20), Ok(()));
    assert_eq!(e.children_of(w), Vec::<usize>::new());
    assert_eq!(e.children_of(a), vec![b]);
    assert_eq!(e.get(b).unwrap().status, Status::Live);
    assert_eq!(e.get(b).unwrap().parent_id, Some(a));
    assert_eq!(e.get(a).unwrap().parent_id, Some(w));
    assert!(e.get(a).unwrap().is_trashed());
    let ledger = e.list_trash();
    assert_eq!(ledger.len(), 1);
    assert_eq!((ledger[0].id, ledger[0].trashed_at), (a, 20));
    assert_eq!(e.restore(a), Ok(()));
    assert_eq!(e.children_of(w), vec![a]);
    assert_eq!(e.children_of(a), vec![b]);
    assert!(!e.get(a).unwrap().is_trashed());
    assert!(e.list_trash().is_empty());
}

#[test]
fn a_node_is_never_both_attached_and_trashed() {
    let (mut e, w) = engine_with_workspace();
    let a = view(&mut e, w, "A");
    let b = view(&mut e, w, "B");
    assert_eq!(e.trash(a, 1), Ok(()));
    for p in 0..e.nodes.len() {
        for c in e.children_of(p) {
            assert!(!e.trash.contains(&c));
        }
    }
    assert_eq!(e.trash, vec![a]);
    assert_eq!(e.children_of(w), vec![b]);
}

#[test]
fn trash_twice_is_not_found() {
    let (mut e, w) = engine_with_workspace();
    let a = view(&mut e, w, "A");
    assert_eq!(e.trash(a, 1), Ok(()));
    assert_eq!(e.trash(a, 2), Err(FolderError::NotFound));
    assert_eq!(e.trash(w, 2), Err(FolderError::NotFound));
    assert_eq!(e.trash(55, 2), Err(FolderError::NotFound));
    assert_eq!(e.get(a).unwrap().trashed_at, 1);
    assert_eq!(e.trash, vec![a]);
}

#[test]
fn restore_twice_is_not_found() {
    let (mut e, w) = engine_with_workspace();
    let a = view(&mut e, w, "A");
    assert_eq!(e.restore(a), Err(FolderError::NotFound));
    assert_eq!(e.trash(a, 1), Ok(()));
    assert_eq!(e.restore(a), Ok(()));
    assert_eq!(e.restore(a), Err(FolderError::NotFound));
    assert_eq!(e.children_of(w), vec![a]);
}

#[test]
fn restore_goes_to_the_end_of_the_parent() {
    let (mut e, w) = engine_with_workspace();
    let a = view(&mut e, w, "A");
    let b = view(&mut e, w, "B");
    assert_eq!(e.trash(a, 1), Ok(()));
    assert_eq!(e.restore(a), Ok(()));
    assert_eq!(e.children_of(w), vec![b, a]);
}

#[test]
fn restore_falls_back_to_the_open_workspace() {
    let (mut e, w) = engine_with_workspace();
    let a = view(&mut e, w, "A");
    let b = view(&mut e, a, "B");
    assert_eq!(e.trash(b, 1), Ok(()));
    assert_eq!(e.trash(a, 2), Ok(()));
    assert_eq!(e.restore(b), Ok(()));
    assert_eq!(e.get(b).unwrap().parent_id, Some(w));
    assert_eq!(e.children_of(w), vec![b]);
    assert_eq!(e.children_of(a), Vec::<usize>::new());
}

#[test]
fn restore_without_open_workspace_leaves_an_orphan() {
    let mut e = FolderEngine::new(2);
    let w = e.create_workspace(String::from("W"), 1);
    let a = view(&mut e, w, "A");
    let b = view(&mut e, a, "B");
    assert_eq!(e.trash(b, 1), Ok(()));
    assert_eq!(e.trash(a, 2), Ok(()));
    assert_eq!(e.restore(b), Ok(()));
    assert_eq!(e.get(b).unwrap().parent_id, None);
    assert_eq!(e.get(b).unwrap().status, Status::Live);
}

#[test]
fn purge_removes_the_view_everywhere() {
    let (mut e, w) = engine_with_workspace();
    let a = view(&mut e, w, "A");
    let b = view(&mut e, a, "B");
    let c = view(&mut e, a, "C");
    assert_eq!(e.toggle_favorite(a), Ok(()));
    assert_eq!(e.set_current(a), Ok(()));
    assert_eq!(e.purge(a), Err(FolderError::NotFound));
    assert_eq!(e.trash(c, 1), Ok(()));
    assert_eq!(e.trash(a, 2), Ok(()));
    assert_eq!(e.purge(a), Ok(()));
    assert!(e.get(a).is_none());
    assert_eq!(e.get_current(), None);
    assert_eq!(e.list_favorites(), Vec::<usize>::new());
    assert_eq!(e.trash, vec![c]);
    assert_eq!(e.get(b).unwrap().parent_id, None);
    assert_eq!(e.get(b).unwrap().status, Status::Live);
    assert_eq!(e.get(c).unwrap().parent_id, None);
    assert_eq!(e.children_of(a), Vec::<usize>::new());
    assert_eq!(e.purge(a), Err(FolderError::NotFound));
    assert_eq!(e.restore(a), Err(FolderError::NotFound));
    assert_eq!(e.restore(c), Ok(()));
    assert_eq!(e.children_of(w), vec![c]);
    assert_eq!(view(&mut e, w, "D"), 5);
}

#[test]
fn batch_delete_tolerates_unknown_identifiers() {
    let (mut e, w) = engine_with_workspace();
    let x = view(&mut e, w, "X");
    let z = view(&mut e, w, "Z");
    assert_eq!(e.delete_views(&vec![x, 1234, x], 30), Ok(()));
    assert!(e.get(x).unwrap().is_trashed());
    assert_eq!(e.get(x).unwrap().trashed_at, 30);
    assert_eq!(e.trash, vec![x]);
    assert_eq!(e.children_of(w), vec![z]);
}

#[test]
fn batch_purge_tolerates_unknown_identifiers() {
    let (mut e, w) = engine_with_workspace();
    let x = view(&mut e, w, "X");
    let y = view(&mut e, w, "Y");
    assert_eq!(e.delete_views(&vec![x, y], 30), Ok(()));
    assert_eq!(e.delete_trash(&vec![777, x, x]), Ok(()));
    assert!(e.get(x).is_none());
    assert_eq!(e.trash, vec![y]);
}

#[test]
fn restore_all_and_delete_all_empty_the_trash() {
    let (mut e, w) = engine_with_workspace();
    let a = view(&mut e, w, "A");
    let b = view(&mut e, w, "B");
    let c = view(&mut e, w, "C");
    assert_eq!(e.delete_views(&vec![b, a], 3), Ok(()));
    e.restore_all();
    assert!(e.trash.is_empty());
    assert_eq!(e.children_of(w), vec![c, b, a]);
    assert_eq!(e.delete_views(&vec![a, c], 4), Ok(()));
    assert_eq!(e.set_current(c), Ok(()));
    e.delete_all();
    assert!(e.trash.is_empty());
    assert!(e.get(a).is_none());
    assert!(e.get(c).is_none());
    assert_eq!(e.get_current(), None);
    assert_eq!(e.children_of(w), vec![b]);
}

#[test]
fn favorites_keep_tagging_order() {
    let (mut e, w) = engine_with_workspace();
    let a = view(&mut e, w, "A");
    let b = view(&mut e, w, "B");
    let c = view(&mut e, w, "C");
    assert_eq!(e.toggle_favorites(&vec![c, 99, a, b]), Ok(()));
    assert_eq!(e.list_favorites(), vec![c, a, b]);
    assert!(e.get(a).unwrap().is_favorite);
    assert_eq!(e.toggle_favorite(a), Ok(()));
    assert_eq!(e.list_favorites(), vec![c, b]);
    assert!(!e.get(a).unwrap().is_favorite);
    assert_eq!(e.toggle_favorite(a), Ok(()));
    assert_eq!(e.list_favorites(), vec![c, b, a]);
    assert_eq!(e.toggle_favorite(500), Err(FolderError::NotFound));
    assert_eq!(e.toggle_favorite(w), Err(FolderError::NotFound));
}

#[test]
fn active_view_open_and_close() {
    let (mut e, w) = engine_with_workspace();
    let a = view(&mut e, w, "A");
    let b = view(&mut e, w, "B");
    assert_eq!(e.set_current(a), Ok(()));
    assert_eq!(e.get_current(), Some(a));
    e.close(b);
    assert_eq!(e.get_current(), Some(a));
    assert_eq!(e.set_current(404), Err(FolderError::NotFound));
    assert_eq!(e.get_current(), Some(a));
    e.close(a);
    assert_eq!(e.get_current(), None);
}

#[test]
fn open_workspace_checks_the_identifier() {
    let mut e = FolderEngine::new(1);
    assert_eq!(e.open_workspace(0), Err(FolderError::InvalidOperation));
    assert_eq!(e.open_workspace(3), Err(FolderError::NotFound));
    let w1 = e.create_workspace(String::from("one"), 1);
    let w2 = e.create_workspace(String::from("two"), 2);
    let a = view(&mut e, w1, "A");
    assert_eq!(e.open_workspace(a), Err(FolderError::NotFound));
    assert_eq!(e.open_workspace(w1), Ok(()));
    assert_eq!(e.set_current(a), Ok(()));
    assert_eq!(e.open_workspace(w2), Ok(()));
    assert_eq!(e.open_workspace, Some(w2));
    assert_eq!(e.get_current(), None);
}

#[test]
fn a_dropped_engine_is_gone() {
    let e = FolderEngine::new(1);
    assert!(upgrade_folder(Some(&e)).is_ok());
    assert_eq!(upgrade_folder::<&FolderEngine>(None).err(), Some(FolderError::Gone));
}

#[test]
fn nested_move_lands_behind_the_named_sibling() {
    let (mut e, w) = engine_with_workspace();
    let a = view(&mut e, w, "A");
    let b = view(&mut e, w, "B");
    let c = view(&mut e, w, "C");
    let d = view(&mut e, a, "D");
    assert_eq!(e.move_nested_view(d, w, Some(b)), Ok(()));
    assert_eq!(e.children_of(w), vec![a, b, d, c]);
    assert_eq!(e.children_of(a), Vec::<usize>::new());
    assert_eq!(e.move_nested_view(a, w, Some(d)), Ok(()));
    assert_eq!(e.children_of(w), vec![b, d, a, c]);
    assert_eq!(e.move_nested_view(c, w, None), Ok(()));
    assert_eq!(e.children_of(w), vec![c, b, d, a]);
    assert_eq!(e.move_nested_view(c, w, Some(a)), Ok(()));
    assert_eq!(e.children_of(w), vec![b, d, a, c]);
    assert_eq!(e.move_nested_view(b, d, Some(77)), Ok(()));
    assert_eq!(e.children_of(d), vec![b]);
    assert_eq!(e.move_nested_view(d, b, None), Err(FolderError::InvalidOperation));
    assert_eq!(e.move_nested_view(d, 99, None), Err(FolderError::NotFound));
    assert_eq!(e.children_of(w), vec![d, a, c]);
}

#[test]
fn reorder_moves_within_the_parent() {
    let (mut e, w) = engine_with_workspace();
    let a = view(&mut e, w, "A");
    let b = view(&mut e, w, "B");
    let c = view(&mut e, w, "C");
    assert_eq!(e.reorder_view(a, 2), Ok(()));
    assert_eq!(e.children_of(w), vec![b, c, a]);
    assert_eq!(e.reorder_view(a, 0), Ok(()));
    assert_eq!(e.children_of(w), vec![a, b, c]);
    assert_eq!(e.reorder_view(b, 9), Ok(()));
    assert_eq!(e.children_of(w), vec![a, c, b]);
    let o = e.create_orphan_view(String::from("O"), None, 1);
    assert_eq!(e.reorder_view(o, 0), Err(FolderError::NotFound));
    assert_eq!(e.reorder_view(w, 0), Err(FolderError::NotFound));
    assert_eq!(e.reorder_view(404, 0), Err(FolderError::NotFound));
}

#[test]
fn lookups_fail_where_nothing_is_found() {
    let mut e = FolderEngine::new(1);
    assert_eq!(e.current_workspace(), Err(FolderError::NotFound));
    let w = e.create_workspace(String::from("W"), 1);
    assert_eq!(e.open_workspace(w), Ok(()));
    assert_eq!(e.current_workspace(), Ok(w));
    let a = view(&mut e, w, "A");
    assert_eq!(e.read_view(a).ok().unwrap().name, "A");
    assert_eq!(e.read_view(w).err(), Some(FolderError::NotFound));
    assert_eq!(e.read_view(50).err(), Some(FolderError::NotFound));
    assert_eq!(e.trash(a, 2), Ok(()));
    assert!(e.read_view(a).is_ok());
    assert_eq!(e.purge(a), Ok(()));
    assert_eq!(e.read_view(a).err(), Some(FolderError::NotFound));
}
