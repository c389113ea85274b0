//! Node records and snapshots as the engine stores them.

use vstd::prelude::*;
use crate::ids::copy_ids;
use crate::model::{tombstone, fresh_node, Kind, NodeView, Status, TreeModel};

verus! {

/// A workspace or a view. Parent and children are identifiers, never owned
/// copies.
pub struct Node {
    pub kind: Kind,
    pub name: String,
    pub icon: Option<String>,
    pub parent_id: Option<usize>,
    pub ordered_children: Vec<usize>,
    pub is_favorite: bool,
    pub status: Status,
    pub created_at: u64,
    pub trashed_at: u64,
}

/// An entry of the trash ledger.
#[derive(Clone, Copy, Debug, PartialEq, Eq, Structural)]
pub struct TrashEntry {
    pub id: usize,
    pub trashed_at: u64,
}

/// The characters of an optional text.
pub open spec fn text_view(s: Option<String>) -> Option<Seq<char>> {
    match s {
        Some(t) => Some(t@),
        None => None,
    }
}

impl View for Node {
    type V = NodeView;

    open spec fn view(&self) -> NodeView {
        NodeView {
            kind: self.kind,
            name: self.name@,
            icon: text_view(self.icon),
            parent_id: self.parent_id,
            ordered_children: self.ordered_children@,
            is_favorite: self.is_favorite,
            status: self.status,
            created_at: self.created_at,
            trashed_at: self.trashed_at,
        }
    }
}

/// The table of a vector of node records.
pub open spec fn table(nodes: Seq<Node>) -> Seq<NodeView> {
    Seq::new(nodes.len(), |i: int| nodes[i]@)
}

/// A separate optional text with the same characters.
pub fn copy_text(s: &Option<String>) -> (r: Option<String>)
    ensures
        text_view(r) == text_view(*s),
{
    match s {
        Some(t) => Some(t.clone()),
        None => None,
    }
}

impl Node {
    /// The record that stands where a node was purged.
    pub fn tombstone() -> (r: Node)
        ensures
            r@ == tombstone(),
    {
        Node {
            kind: Kind::View,
            name: String::new(),
            icon: None,
            parent_id: None,
            ordered_children: Vec::new(),
            is_favorite: false,
            status: Status::Purged,
            created_at: 0,
            trashed_at: 0,
        }
    }

    /// A live record without children.
    pub fn fresh(
        kind: Kind,
        name: String,
        icon: Option<String>,
        parent_id: Option<usize>,
        now: u64,
    ) -> (r: Node)
        ensures
            r@ == fresh_node(kind, name@, text_view(icon), parent_id, now),
    {
        Node {
            kind,
            name,
            icon,
            parent_id,
            ordered_children: Vec::new(),
            is_favorite: false,
            status: Status::Live,
            created_at: now,
            trashed_at: 0,
        }
    }

    /// A separate record with the same contents.
    pub fn duplicate(&self) -> (r: Node)
        ensures
            r@ == self@,
    {
        Node {
            kind: self.kind,
            name: self.name.clone(),
            icon: copy_text(&self.icon),
            parent_id: self.parent_id,
            ordered_children: copy_ids(&self.ordered_children),
            is_favorite: self.is_favorite,
            status: self.status,
            created_at: self.created_at,
            trashed_at: self.trashed_at,
        }
    }

    /// Whether the node is held in the trash.
    pub fn is_trashed(&self) -> (r: bool)
        ensures
            r == (self@.status == Status::Trashed),
    {
        self.status == Status::Trashed
    }
}

/// A separate vector with records of the same contents.
pub fn copy_nodes(nodes: &Vec<Node>) -> (r: Vec<Node>)
    ensures
        table(r@) == table(nodes@),
{
    let mut out: Vec<Node> = Vec::new();
    let mut i: usize = 0;
    while i < nodes.len()
        invariant
            i <= nodes@.len(),
            out@.len() == i,
            forall|j: int| 0 <= j < i ==> out@[j]@ == nodes@[j]@,
        decreases nodes@.len() - i,
    {
        out.push(nodes[i].duplicate());
        i += 1;
    }
    assert(table(out@) =~= table(nodes@));
    out
}

/// An immutable capture of the whole tree, taken for one workspace at one
/// time.
pub struct Snapshot {
    pub workspace_id: usize,
    pub taken_at: u64,
    pub nodes: Vec<Node>,
    pub trash: Vec<usize>,
    pub favorites: Vec<usize>,
    pub depth: Ghost<Seq<nat>>,
}

impl Snapshot {
    /// The tree that was captured.
    pub open spec fn tree(&self) -> TreeModel {
        TreeModel { nodes: table(self.nodes@), trash: self.trash@, favorites: self.favorites@ }
    }

    /// The captured tree is well-formed.
    pub open spec fn wf(&self) -> bool {
        self.tree().wf(self.depth@)
    }

    /// A separate snapshot with the same contents.
    pub fn duplicate(&self) -> (r: Snapshot)
        ensures
            r.tree() == self.tree(),
            r.workspace_id == self.workspace_id,
            r.taken_at == self.taken_at,
            r.depth@ == self.depth@,
    {
        let depth: Ghost<Seq<nat>> = Ghost(self.depth@);
        Snapshot {
            workspace_id: self.workspace_id,
            taken_at: self.taken_at,
            nodes: copy_nodes(&self.nodes),
            trash: copy_ids(&self.trash),
            favorites: copy_ids(&self.favorites),
            depth,
        }
    }
}

} // verus!
