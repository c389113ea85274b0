use folder_engine::engine::FolderEngine;
use folder_engine::import::ImportCommand;
use folder_engine::model::{FolderError, Status};

fn engine_with_workspace() -> (FolderEngine, usize) {
    let mut e = FolderEngine::new(10);
    let w = e.create_workspace(String::from("W"), 1);
    assert_eq!(e.open_workspace(w), Ok(()));
    (e, w)
}

fn create(parent_id: usize, name: &str) -> ImportCommand {
    ImportCommand::Create { parent_id, name: String::from(name), icon: None, position: None }
}

#[test]
fn import_applies_every_command_in_order() {
    let (mut e, w) = engine_with_workspace();
    let cmds = vec![
        create(w, "doc"),
        create(2, "child"),
        ImportCommand::CreateOrphan { name: String::from("loose"), icon: Some(String::from("x")) },
        ImportCommand::Attach { id: 4, parent_id: 2, position: Some(0) },
    ];
    assert_eq!(e.import(&cmds, 9), Ok(()));
    assert_eq!(e.children_of(w), vec![2]);
    assert_eq!(e.children_of(2), vec![4, 3]);
    assert_eq!(e.get(3).unwrap().name, "child");
    assert_eq!(e.get(4).unwrap().icon, Some(String::from("x")));
    assert_eq!(e.get(4).unwrap().parent_id, Some(2));
    assert_eq!(e.get(4).unwrap().created_at, 9);
    assert_eq!(e.ancestors_of(4), vec![2, w]);
}

#[test]
fn import_that_fails_leaves_the_tree_unchanged() {
    let (mut e, w) = engine_with_workspace();
    let a = e.create_view(w, String::from("A"), None, None, 1).unwrap();
    let cmds = vec![create(w, "doc"), create(a, "under a"), create(500, "nowhere"), create(w, "late")];
    assert_eq!(e.import(&cmds, 9), Err(FolderError::NotFound));
    assert_eq!(e.nodes.len(), 3);
    assert_eq!(e.histories.len(), 3);
    assert_eq!(e.children_of(w), vec![a]);
    assert_eq!(e.children_of(a), Vec::<usize>::new());
    assert_eq!(e.create_view(w, String::from("B"), None, None, 2), Ok(3));
}

#[test]
fn import_rejects_a_cycle_as_a_whole() {
    let (mut e, w) = engine_with_workspace();
    let a = e.create_view(w, String::from("A"), None, None, 1).unwrap();
    let cmds = vec![create(a, "B"), ImportCommand::Attach { id: a, parent_id: 3, position: None }];
    assert_eq!(e.import(&cmds, 9), Err(FolderError::InvalidOperation));
    assert_eq!(e.nodes.len(), 3);
    assert_eq!(e.children_of(a), Vec::<usize>::new());
    assert_eq!(e.get(a).unwrap().parent_id, Some(w));
}

#[test]
fn empty_import_succeeds() {
    let (mut e, w) = engine_with_workspace();
    assert_eq!(e.import(&Vec::new(), 9), Ok(()));
    assert_eq!(e.nodes.len(), 2);
    assert_eq!(e.children_of(w), Vec::<usize>::new());
}

#[test]
fn duplicate_places_the_copy_after_the_view() {
    let (mut e, w) = engine_with_workspace();
    let a = e.create_view(w, String::from("A"), None, Some(String::from("ia")), 1).unwrap();
    let z = e.create_view(w, String::from("Z"), None, None, 1).unwrap();
    let b = e.create_view(a, String::from("B"), None, None, 1).unwrap();
    let c = e.create_view(a, String::from("C"), None, None, 1).unwrap();
    let d = e.create_view(b, String::from("D"), None, None, 1).unwrap();
    let t = e.create_view(a, String::from("T"), None, None, 1).unwrap();
    assert_eq!(e.trash(t, 2), Ok(()));
    assert_eq!(e.toggle_favorite(a), Ok(()));

    let copy = e.duplicate_view(a, 7).unwrap();
    assert_eq!(copy, 8);
    assert_eq!(e.children_of(w), vec![a, copy, z]);
    assert_eq!(e.children_of(a), vec![b, c]);
    assert_eq!(e.children_of(b), vec![d]);
    let root = e.get(copy).unwrap();
    assert_eq!(root.name, "A");
    assert_eq!(root.icon, Some(String::from("ia")));
    assert_eq!(root.parent_id, Some(w));
    assert!(!root.is_favorite);
    assert_eq!(root.created_at, 7);
    let kids = e.children_of(copy);
    assert_eq!(kids, vec![9, 10]);
    assert_eq!(e.get(9).unwrap().name, "B");
    assert_eq!(e.get(10).unwrap().name, "C");
    assert_eq!(e.children_of(9), vec![11]);
    assert_eq!(e.get(11).unwrap().name, "D");
    assert_eq!(e.get(11).unwrap().status, Status::Live);
    assert_eq!(e.children_of(10), Vec::<usize>::new());
    assert_eq!(e.children_of(11), Vec::<usize>::new());
    assert_eq!(e.nodes.len(), 12);
    assert_eq!(e.ancestors_of(11), vec![9, copy, w]);
    assert_eq!(e.list_favorites(), vec![a]);
    assert_eq!(e.trash, vec![t]);
}

#[test]
fn duplicate_of_an_orphan_is_an_orphan() {
    let (mut e, _w) = engine_with_workspace();
    let o = e.create_orphan_view(String::from("O"), None, 1);
    let k = e.create_view(o, String::from("K"), None, None, 1).unwrap();
    let copy = e.duplicate_view(o, 2).unwrap();
    assert_eq!(e.get(copy).unwrap().parent_id, None);
    assert_eq!(e.children_of(copy).len(), 1);
    assert_eq!(e.children_of(o), vec![k]);
}

#[test]
fn duplicate_of_a_missing_view_is_not_found() {
    let (mut e, w) = engine_with_workspace();
    let a = e.create_view(w, String::from("A"), None, None, 1).unwrap();
    assert_eq!(e.duplicate_view(44, 1), Err(FolderError::NotFound));
    assert_eq!(e.duplicate_view(w, 1), Err(FolderError::NotFound));
    assert_eq!(e.trash(a, 2), Ok(()));
    assert_eq!(e.duplicate_view(a, 3), Err(FolderError::NotFound));
    assert_eq!(e.nodes.len(), 3);
}

#[test]
fn create_view_can_open_the_new_view() {
    let (mut e, w) = engine_with_workspace();
    let a = e.create_view_with(w, String::from("A"), None, None, true, 1).unwrap();
    assert_eq!(e.get_current(), Some(a));
    let b = e.create_view_with(w, String::from("B"), None, None, false, 1).unwrap();
    assert_eq!(e.get_current(), Some(a));
    assert_eq!(e.children_of(w), vec![a, b]);
    let o = e.create_orphan_view_with(String::from("O"), None, true, 1);
    assert_eq!(e.get_current(), Some(o));
    assert_eq!(
        e.create_view_with(77, String::from("X"), None, None, true, 1),
        Err(FolderError::NotFound)
    );
    assert_eq!(e.get_current(), Some(o));
}

#[test]
fn under_agrees_with_the_ancestor_chain() {
    let (mut e, w) = engine_with_workspace();
    let a = e.create_view(w, String::from("A"), None, None, 1).unwrap();
    let b = e.create_view(a, String::from("B"), None, None, 1).unwrap();
    let c = e.create_view(w, String::from("C"), None, None, 1).unwrap();
    for x in [w, a, b, c] {
        let chain = e.ancestors_of(x);
        assert!(!chain.contains(&x));
        for y in [w, a, b, c] {
            assert_eq!(e.stands_under(x, y), x == y || chain.contains(&y));
        }
    }
    assert_eq!(e.ancestors_of(700), Vec::<usize>::new());
}

#[test]
fn duplicate_copies_exactly_the_subtree() {
    let (mut e, w) = engine_with_workspace();
    let a = e.create_view(w, String::from("A"), None, None, 1).unwrap();
    let c = e.create_view(w, String::from("C"), None, None, 1).unwrap();
    let b = e.create_view(a, String::from("B"), None, None, 1).unwrap();
    let before = e.nodes.len();
    let a2 = e.duplicate_view(a, 2).unwrap();
    assert_eq!(e.nodes.len(), before + 2);
    assert_eq!(e.histories.len(), e.nodes.len());
    assert_eq!(e.children_of(w), vec![a, a2, c]);
    let kids = e.children_of(a2);
    assert_eq!(kids.len(), 1);
    assert_ne!(kids[0], b);
    assert_eq!(e.get(kids[0]).unwrap().parent_id, Some(a2));
    assert_eq!(e.children_of(a), vec![b]);
    let views = (0..e.nodes.len()).filter(|i| e.is_view(*i)).count();
    assert_eq!(views, 5);
}
