use folder_engine::engine::FolderEngine;
use folder_engine::model::{FolderError, Kind, Status};
use folder_engine::node::{copy_nodes, Node};

fn sample() -> FolderEngine {
    let mut e = FolderEngine::new(3);
    let w = e.create_workspace(String::from("W"), 0);
    let a = e.create_view(w, String::from("A"), None, None, 1).unwrap();
    let b = e.create_view(a, String::from("B"), None, None, 2).unwrap();
    let c = e.create_view(w, String::from("C"), None, None, 3).unwrap();
    assert_eq!(e.toggle_favorite(b), Ok(()));
    assert_eq!(e.trash(c, 4), Ok(()));
    assert_eq!((w, a, b, c), (1, 2, 3, 4));
    e
}

fn parts(e: &FolderEngine) -> (Vec<Node>, Vec<usize>, Vec<usize>) {
    (copy_nodes(&e.nodes), e.trash.clone(), e.favorites.clone())
}

fn rejected(nodes: Vec<Node>, trash: Vec<usize>, favorites: Vec<usize>) -> bool {
    matches!(FolderEngine::load(nodes, trash, favorites, 3), Err(FolderError::InvalidOperation))
}

#[test]
fn stored_state_of_an_engine_loads_again() {
    let e = sample();
    let (nodes, trash, favorites) = parts(&e);
    let mut f = FolderEngine::load(nodes, trash, favorites, 7).ok().unwrap();
    assert_eq!(f.retention, 7);
    assert_eq!(f.nodes.len(), 5);
    assert_eq!(f.histories.len(), 5);
    assert_eq!(f.children_of(1), vec![2]);
    assert_eq!(f.children_of(2), vec![3]);
    assert_eq!(f.trash, vec![4]);
    assert_eq!(f.list_favorites(), vec![3]);
    assert_eq!(f.ancestors_of(3), vec![2, 1]);
    assert_eq!(f.get_current(), None);
    assert_eq!(f.open_workspace(1), Ok(()));
    assert_eq!(f.restore(4), Ok(()));
    assert_eq!(f.children_of(1), vec![2, 4]);
    assert_eq!(f.create_view(1, String::from("D"), None, None, 9), Ok(5));
}

#[test]
fn the_smallest_state_loads() {
    let e = FolderEngine::new(1);
    let (nodes, trash, favorites) = parts(&e);
    assert!(FolderEngine::load(nodes, trash, favorites, 1).is_ok());
}

#[test]
fn state_without_the_reserved_record_is_rejected() {
    assert!(rejected(Vec::new(), Vec::new(), Vec::new()));
    let (mut nodes, trash, favorites) = parts(&sample());
    nodes[0].status = Status::Live;
    assert!(rejected(nodes, trash, favorites));
}

#[test]
fn a_cycle_is_rejected() {
    let (mut nodes, trash, favorites) = parts(&sample());
    nodes[2].parent_id = Some(3);
    nodes[3].ordered_children = vec![2];
    nodes[1].ordered_children = Vec::new();
    assert!(rejected(nodes, trash, favorites));
}

#[test]
fn a_node_that_is_its_own_parent_is_rejected() {
    let (mut nodes, trash, favorites) = parts(&sample());
    nodes[2].parent_id = Some(2);
    nodes[2].ordered_children = vec![3, 2];
    nodes[1].ordered_children = Vec::new();
    assert!(rejected(nodes, trash, favorites));
}

#[test]
fn a_dangling_parent_is_rejected() {
    let (mut nodes, trash, favorites) = parts(&sample());
    nodes[4].parent_id = Some(40);
    assert!(rejected(nodes, trash, favorites));
}

#[test]
fn children_that_disagree_with_parents_are_rejected() {
    let (mut nodes, trash, favorites) = parts(&sample());
    nodes[1].ordered_children = vec![2, 3];
    assert!(rejected(nodes, trash, favorites));
    let (mut nodes, trash, favorites) = parts(&sample());
    nodes[1].ordered_children = Vec::new();
    assert!(rejected(nodes, trash, favorites));
    let (mut nodes, trash, favorites) = parts(&sample());
    nodes[1].ordered_children = vec![2, 2];
    assert!(rejected(nodes, trash, favorites));
    let (mut nodes, trash, favorites) = parts(&sample());
    nodes[1].ordered_children = vec![2, 4];
    assert!(rejected(nodes, trash, favorites));
}

#[test]
fn ledgers_that_disagree_with_records_are_rejected() {
    let (nodes, _, favorites) = parts(&sample());
    assert!(rejected(nodes, Vec::new(), favorites));
    let (nodes, _, favorites) = parts(&sample());
    assert!(rejected(nodes, vec![4, 4], favorites));
    let (nodes, _, favorites) = parts(&sample());
    assert!(rejected(nodes, vec![4, 2], favorites));
    let (nodes, trash, _) = parts(&sample());
    assert!(rejected(nodes, trash, Vec::new()));
    let (nodes, trash, _) = parts(&sample());
    assert!(rejected(nodes, trash, vec![3, 99]));
}

#[test]
fn inconsistent_records_are_rejected() {
    let (mut nodes, trash, favorites) = parts(&sample());
    nodes[1].status = Status::Trashed;
    assert!(rejected(nodes, vec![4, 1], favorites));
    let (mut nodes, trash2, favorites) = parts(&sample());
    nodes[2].kind = Kind::Workspace;
    assert!(rejected(nodes, trash2, favorites));
    assert_eq!(trash, vec![4]);
}
