//! The engine: the node table with its ledgers, the session's open
//! workspace and active view, and the snapshot histories.

use vstd::prelude::*;
use crate::ids::{copy_ids, insert_id, remove_id};
use crate::laws::{
    lemma_attached_wf, lemma_created_chain, lemma_detached_wf, lemma_under_frame,
};
use crate::model::{
    ancestors, fresh_node, is_under, lemma_created_wf, lemma_no_cycle, lemma_updated_wf,
    lemma_with_orphan_wf, sunk_depth, tombstone, FolderError, Kind, Status, TreeModel,
};
use crate::node::{table, text_view, Node, Snapshot};

verus! {

/// The folder engine. The identifier of a node is its index in `nodes`;
/// `depth` is proof bookkeeping that bounds every walk to a root.
pub struct FolderEngine {
    pub nodes: Vec<Node>,
    pub trash: Vec<usize>,
    pub favorites: Vec<usize>,
    pub current_view: Option<usize>,
    pub open_workspace: Option<usize>,
    pub histories: Vec<Vec<Snapshot>>,
    pub retention: usize,
    pub depth: Ghost<Seq<nat>>,
}

/// The name that a patch sets, if it sets one.
pub open spec fn name_patch(name: Option<String>) -> Option<Seq<char>> {
    text_view(name)
}

/// The icon that a patch sets or clears, if it touches the icon.
pub open spec fn icon_patch(icon: Option<Option<String>>) -> Option<Option<Seq<char>>> {
    match icon {
        Some(i) => Some(text_view(i)),
        None => None,
    }
}

impl FolderEngine {
    /// The tree the engine holds.
    pub open spec fn tree(&self) -> TreeModel {
        TreeModel { nodes: table(self.nodes@), trash: self.trash@, favorites: self.favorites@ }
    }

    /// One history per identifier, each within the retention bound and
    /// made of well-formed snapshots taken for that identifier; only a
    /// workspace has snapshots.
    pub open spec fn histories_ok(&self) -> bool {
        &&& self.histories@.len() == self.nodes@.len()
        &&& forall|w: int|
            0 <= w < self.histories@.len() && self.tree().nodes[w].kind != Kind::Workspace ==> (
            #[trigger] self.histories@[w])@.len() == 0
        &&& forall|w: int|
            0 <= w < self.histories@.len() ==> (#[trigger] self.histories@[w])@.len()
                <= self.retention
        &&& forall|w: int, k: int|
            0 <= w < self.histories@.len() && 0 <= k < self.histories@[w]@.len() ==> {
                let s = #[trigger] self.histories@[w]@[k];
                s.wf() && s.workspace_id == w
            }
    }

    /// The invariant every operation keeps: the tree is well-formed, the
    /// active view is present, the open workspace is a workspace.
    pub open spec fn wf(&self) -> bool {
        &&& self.tree().wf(self.depth@)
        &&& (self.current_view matches Some(v) ==> self.tree().is_present(v))
        &&& (self.open_workspace matches Some(w) ==> self.tree().is_workspace(w))
        &&& self.histories_ok()
    }

    /// Active view, open workspace, histories and retention bound are those
    /// of `other`.
    pub open spec fn same_session(&self, other: &FolderEngine) -> bool {
        &&& self.current_view == other.current_view
        &&& self.open_workspace == other.open_workspace
        &&& self.histories@ == other.histories@
        &&& self.retention == other.retention
    }

    /// The histories of `other`, unchanged, and one more, empty, history
    /// for the node that was added.
    pub open spec fn grown_histories(&self, other: &FolderEngine) -> bool {
        &&& self.histories@.len() == other.histories@.len() + 1
        &&& self.histories@.subrange(0, other.histories@.len() as int) == other.histories@
        &&& self.histories@.last()@.len() == 0
    }

    /// The session of `other` with one more, empty, history for the node
    /// that was added.
    pub open spec fn grown_session(&self, other: &FolderEngine) -> bool {
        &&& self.current_view == other.current_view
        &&& self.open_workspace == other.open_workspace
        &&& self.retention == other.retention
        &&& self.grown_histories(other)
    }

    /// Whether `x` is `a` or has `a` among its ancestors.
    pub open spec fn under(&self, x: usize, a: usize) -> bool {
        is_under(self.tree().nodes, self.depth@, x as int, a as int)
    }

    /// In every state that the operations reach, no node is its own
    /// ancestor: the chain of ancestors of a node never holds the node, and
    /// the parent of a node never stands under it.
    pub proof fn lemma_acyclic(&self, id: usize)
        requires
            self.wf(),
            (id as int) < self.nodes@.len(),
        ensures
            !ancestors(self.tree().nodes, self.depth@, id as int).contains(id),
            self.tree().nodes[id as int].parent_id matches Some(p) ==> !self.under(p, id),
    {
        lemma_no_cycle(self.tree(), self.depth@, id);
    }

    /// An engine without workspaces. Identifier 0 stays unassigned: it is
    /// the empty identifier.
    pub fn new(retention: usize) -> (r: FolderEngine)
        ensures
            r.wf(),
            r.tree() == (TreeModel {
                nodes: seq![tombstone()],
                trash: Seq::empty(),
                favorites: Seq::empty(),
            }),
            r.current_view is None,
            r.open_workspace is None,
            r.retention == retention,
            r.histories@.len() == 1,
            r.histories@[0]@.len() == 0,
    {
        let mut nodes: Vec<Node> = Vec::new();
        nodes.push(Node::tombstone());
        let mut histories: Vec<Vec<Snapshot>> = Vec::new();
        histories.push(Vec::new());
        let depth: Ghost<Seq<nat>> = Ghost(Seq::empty().push(0nat));
        let r = FolderEngine {
            nodes,
            trash: Vec::new(),
            favorites: Vec::new(),
            current_view: None,
            open_workspace: None,
            histories,
            retention,
            depth,
        };
        assert(r.tree().nodes =~= seq![tombstone()]);
        assert(r.tree().node_ok(r.depth@, 0));
        r
    }

    fn push_node(&mut self, node: Node)
        requires
            old(self).histories_ok(),
        ensures
            final(self).histories_ok(),
            final(self).nodes@ == old(self).nodes@.push(node),
            final(self).tree() == old(self).tree().with_node(node@),
            final(self).histories@.len() == old(self).histories@.len() + 1,
            forall|w: int|
                0 <= w < old(self).histories@.len() ==> final(self).histories@[w] == old(self).histories@[w],
            final(self).histories@.last()@.len() == 0,
            final(self).grown_session(old(self)),
            final(self).trash == old(self).trash,
            final(self).favorites == old(self).favorites,
            final(self).current_view == old(self).current_view,
            final(self).open_workspace == old(self).open_workspace,
            final(self).retention == old(self).retention,
            final(self).depth == old(self).depth,
    {
        self.nodes.push(node);
        self.histories.push(Vec::new());
        assert(self.tree().nodes =~= old(self).tree().nodes.push(node@));
        assert(self.histories@.subrange(0, old(self).histories@.len() as int) =~= old(self).histories@);
        assert forall|w: int| 0 <= w < self.histories@.len() implies (
        #[trigger] self.histories@[w])@.len() <= self.retention by {
            if w < old(self).histories@.len() {
                assert(self.histories@[w] == old(self).histories@[w]);
            }
        }
    }

    /// Adds a workspace and returns its identifier.
    pub fn create_workspace(&mut self, name: String, now: u64) -> (id: usize)
        requires
            old(self).wf(),
        ensures
            final(self).wf(),
            id == old(self).nodes@.len(),
            final(self).tree() == old(self).tree().with_node(
                fresh_node(Kind::Workspace, name@, None, None, now),
            ),
            final(self).depth@ == old(self).depth@.push(0),
            final(self).grown_session(old(self)),
    {
        let id: usize = self.nodes.len();
        let node = Node::fresh(Kind::Workspace, name, None, None, now);
        proof {
            lemma_with_orphan_wf(self.tree(), self.depth@, node@);
        }
        self.push_node(node);
        proof {
            self.depth@ = self.depth@.push(0);
        }
        id
    }

    /// Adds a view without a parent, to be attached later, and returns its
    /// identifier.
    pub fn create_orphan_view(&mut self, name: String, icon: Option<String>, now: u64) -> (id:
        usize)
        requires
            old(self).wf(),
        ensures
            final(self).wf(),
            id == old(self).nodes@.len(),
            final(self).tree() == old(self).tree().with_node(
                fresh_node(Kind::View, name@, text_view(icon), None, now),
            ),
            final(self).depth@ == old(self).depth@.push(0),
            final(self).grown_session(old(self)),
    {
        let id: usize = self.nodes.len();
        let node = Node::fresh(Kind::View, name, icon, None, now);
        proof {
            lemma_with_orphan_wf(self.tree(), self.depth@, node@);
        }
        self.push_node(node);
        proof {
            self.depth@ = self.depth@.push(0);
        }
        id
    }

    /// Creates a view below `parent_id` at the clamped position. Fails with
    /// `NotFound`, changing nothing, unless the parent is a live view or
    /// workspace.
    pub fn create_view(
        &mut self,
        parent_id: usize,
        name: String,
        position: Option<usize>,
        icon: Option<String>,
        now: u64,
    ) -> (r: Result<usize, FolderError>)
        requires
            old(self).wf(),
        ensures
            final(self).wf(),
            match r {
                Ok(id) => old(self).tree().is_live(parent_id) && id == old(self).nodes@.len()
                    && final(self).tree() == old(self).tree().created(
                    parent_id,
                    name@,
                    text_view(icon),
                    position,
                    now,
                ) && final(self).depth@ == old(self).depth@.push(
                    old(self).depth@[parent_id as int] + 1,
                ) && final(self).grown_session(old(self)) && ancestors(
                    final(self).tree().nodes,
                    final(self).depth@,
                    id as int,
                ) == seq![parent_id] + ancestors(
                    old(self).tree().nodes,
                    old(self).depth@,
                    parent_id as int,
                ),
                Err(e) => e == FolderError::NotFound && !old(self).tree().is_live(parent_id)
                    && *final(self) == *old(self),
            },
    {
        if !self.is_live(parent_id) {
            return Err(FolderError::NotFound);
        }
        let id: usize = self.nodes.len();
        let node = Node::fresh(Kind::View, name, icon, Some(parent_id), now);
        proof {
            lemma_created_wf(
                self.tree(),
                self.depth@,
                parent_id,
                name@,
                text_view(icon),
                position,
                now,
            );
            lemma_created_chain(
                self.tree(),
                self.depth@,
                parent_id,
                name@,
                text_view(icon),
                position,
                now,
            );
            assert(self.tree().node_ok(self.depth@, parent_id as int));
            assert(self.tree().nodes[parent_id as int].ordered_children.contains(id)
                <==> self.tree().child_link(parent_id, id));
        }
        self.push_node(node);
        insert_id(&mut self.nodes[parent_id].ordered_children, position, id);
        proof {
            self.depth@ = self.depth@.push(self.depth@[parent_id as int] + 1);
            assert(self.tree().nodes =~= old(self).tree().created(
                parent_id,
                name@,
                text_view(icon),
                position,
                now,
            ).nodes);
        }
        Ok(id)
    }

    /// Whether `id` names a node that has not been purged.
    pub fn is_present(&self, id: usize) -> (r: bool)
        ensures
            r == self.tree().is_present(id),
    {
        id < self.nodes.len() && self.nodes[id].status != Status::Purged
    }

    /// Whether `id` names a live view or workspace.
    pub fn is_live(&self, id: usize) -> (r: bool)
        ensures
            r == self.tree().is_live(id),
    {
        id < self.nodes.len() && self.nodes[id].status == Status::Live
    }

    /// Whether `id` names a view that has not been purged.
    pub fn is_view(&self, id: usize) -> (r: bool)
        ensures
            r == self.tree().is_view(id),
    {
        id < self.nodes.len() && self.nodes[id].status != Status::Purged && self.nodes[id].kind
            == Kind::View
    }

    /// The record of `id`, unless `id` is unknown or purged.
    pub fn get(&self, id: usize) -> (r: Option<&Node>)
        ensures
            match r {
                Some(n) => self.tree().is_present(id) && *n == self.nodes@[id as int] && n@
                    == self.tree().nodes[id as int],
                None => !self.tree().is_present(id),
            },
    {
        if self.is_present(id) {
            Some(&self.nodes[id])
        } else {
            None
        }
    }

    /// The children of `parent_id` in display order; none where the parent
    /// is unknown or purged.
    pub fn children_of(&self, parent_id: usize) -> (r: Vec<usize>)
        ensures
            r@ == if self.tree().is_present(parent_id) {
                self.tree().nodes[parent_id as int].ordered_children
            } else {
                Seq::empty()
            },
    {
        if self.is_present(parent_id) {
            copy_ids(&self.nodes[parent_id].ordered_children)
        } else {
            Vec::new()
        }
    }

    /// The ancestors of `id`, from its parent up to its root; none where
    /// `id` is unknown.
    pub fn ancestors_of(&self, id: usize) -> (r: Vec<usize>)
        requires
            self.wf(),
        ensures
            r@ == ancestors(self.tree().nodes, self.depth@, id as int),
    {
        let mut out: Vec<usize> = Vec::new();
        if id >= self.nodes.len() {
            return out;
        }
        let mut cur: usize = id;
        let mut next: Option<usize> = self.nodes[id].parent_id;
        while next.is_some()
            invariant
                self.wf(),
                (cur as int) < self.nodes@.len(),
                next == self.tree().nodes[cur as int].parent_id,
                out@ + ancestors(self.tree().nodes, self.depth@, cur as int) =~= ancestors(
                    self.tree().nodes,
                    self.depth@,
                    id as int,
                ),
            decreases self.depth@[cur as int],
        {
            let p: usize = next.unwrap();
            proof {
                assert(self.tree().node_ok(self.depth@, cur as int));
                assert(ancestors(self.tree().nodes, self.depth@, cur as int) =~= seq![p]
                    + ancestors(self.tree().nodes, self.depth@, p as int));
            }
            out.push(p);
            next = self.nodes[p].parent_id;
            cur = p;
        }
        assert(ancestors(self.tree().nodes, self.depth@, cur as int) =~= Seq::<usize>::empty());
        out
    }

    /// Whether `x` is `a` or a descendant of `a`.
    pub fn stands_under(&self, x: usize, a: usize) -> (r: bool)
        requires
            self.wf(),
            (x as int) < self.nodes@.len(),
        ensures
            r == self.under(x, a),
    {
        let mut cur: usize = x;
        while cur != a
            invariant
                self.wf(),
                (cur as int) < self.nodes@.len(),
                self.under(cur, a) == self.under(x, a),
            decreases self.depth@[cur as int],
        {
            proof {
                assert(self.tree().node_ok(self.depth@, cur as int));
            }
            match self.nodes[cur].parent_id {
                None => {
                    return false;
                },
                Some(p) => {
                    cur = p;
                },
            }
        }
        true
    }

    /// Changes name and icon of a present view where the patch gives them.
    /// Fails with `NotFound`, changing nothing, where `id` names no present
    /// view. The hierarchy stays as it is.
    pub fn update_view(&mut self, id: usize, name: Option<String>, icon: Option<Option<String>>) -> (r:
        Result<(), FolderError>)
        requires
            old(self).wf(),
        ensures
            final(self).wf(),
            final(self).same_session(old(self)),
            match r {
                Ok(_) => old(self).tree().is_view(id) && final(self).tree() == old(self).tree().updated(id, name_patch(name), icon_patch(icon)),
                Err(e) => e == FolderError::NotFound && !old(self).tree().is_view(id) && *final(self) == *old(self),
            },
    {
        if !self.is_view(id) {
            return Err(FolderError::NotFound);
        }
        proof {
            lemma_updated_wf(self.tree(), self.depth@, id, name_patch(name), icon_patch(icon));
        }
        match name {
            Some(s) => {
                self.nodes[id].name = s;
            },
            None => {},
        }
        match icon {
            Some(i) => {
                self.nodes[id].icon = i;
            },
            None => {},
        }
        proof {
            assert(self.tree().nodes =~= old(self).tree().updated(
                id,
                name_patch(name),
                icon_patch(icon),
            ).nodes);
        }
        Ok(())
    }

    /// Takes the live node `id` away from its parent.
    pub(crate) fn detach(&mut self, id: usize)
        requires
            old(self).wf(),
            old(self).tree().is_live(id),
        ensures
            final(self).wf(),
            final(self).same_session(old(self)),
            final(self).depth == old(self).depth,
            final(self).tree() == old(self).tree().detached(id),
    {
        proof {
            lemma_detached_wf(self.tree(), self.depth@, id);
            assert(self.tree().node_ok(self.depth@, id as int));
        }
        match self.nodes[id].parent_id {
            Some(p) => {
                proof {
                    assert(self.tree().node_ok(self.depth@, p as int));
                }
                remove_id(&mut self.nodes[p].ordered_children, id);
                self.nodes[id].parent_id = None;
                proof {
                    assert(self.tree().nodes =~= old(self).tree().detached(id).nodes);
                }
            },
            None => {},
        }
    }

    /// Hangs the live orphan view `id` below `target`.
    pub(crate) fn attach(&mut self, id: usize, target: usize, position: Option<usize>)
        requires
            old(self).wf(),
            old(self).tree().is_live_view(id),
            old(self).tree().nodes[id as int].parent_id is None,
            old(self).tree().is_present(target),
            !old(self).under(target, id),
        ensures
            final(self).wf(),
            final(self).same_session(old(self)),
            final(self).tree() == old(self).tree().attached(id, target, position),
            final(self).depth@ == sunk_depth(
                old(self).tree().nodes,
                old(self).depth@,
                id as int,
                target as int,
            ),
    {
        proof {
            lemma_attached_wf(self.tree(), self.depth@, id, target, position);
            assert(self.tree().node_ok(self.depth@, target as int));
            assert(self.tree().nodes[target as int].ordered_children.contains(id)
                <==> self.tree().child_link(target, id));
        }
        self.nodes[id].parent_id = Some(target);
        insert_id(&mut self.nodes[target].ordered_children, position, id);
        proof {
            self.depth@ = sunk_depth(
                old(self).tree().nodes,
                old(self).depth@,
                id as int,
                target as int,
            );
            assert(self.tree().nodes =~= old(self).tree().attached(id, target, position).nodes);
        }
    }

    /// Moves the live view `id` below the live node `new_parent_id`, at the
    /// clamped position among its children. Fails with `NotFound` where
    /// either is not live, with `InvalidOperation` where the new parent is
    /// `id` itself or one of its descendants; a failure changes nothing.
    pub fn move_view(&mut self, id: usize, new_parent_id: usize, position: Option<usize>) -> (r:
        Result<(), FolderError>)
        requires
            old(self).wf(),
        ensures
            final(self).wf(),
            final(self).same_session(old(self)),
            match r {
                Ok(_) => {
                    &&& old(self).tree().is_live_view(id)
                    &&& old(self).tree().is_live(new_parent_id)
                    &&& !old(self).under(new_parent_id, id)
                    &&& final(self).tree() == old(self).tree().moved(id, new_parent_id, position)
                    &&& final(self).depth@ == sunk_depth(
                        old(self).tree().detached(id).nodes,
                        old(self).depth@,
                        id as int,
                        new_parent_id as int,
                    )
                },
                Err(e) => {
                    &&& *final(self) == *old(self)
                    &&& e == if !old(self).tree().is_live_view(id) || !old(self).tree().is_live(
                        new_parent_id,
                    ) {
                        FolderError::NotFound
                    } else {
                        FolderError::InvalidOperation
                    }
                    &&& (e == FolderError::InvalidOperation ==> old(self).under(new_parent_id, id))
                },
            },
    {
        if !(self.is_live(id) && self.nodes[id].kind == Kind::View) || !self.is_live(
            new_parent_id,
        ) {
            return Err(FolderError::NotFound);
        }
        if self.stands_under(new_parent_id, id) {
            return Err(FolderError::InvalidOperation);
        }
        proof {
            lemma_detached_wf(self.tree(), self.depth@, id);
            assert(self.tree().node_ok(self.depth@, id as int));
            lemma_under_frame(
                self.tree().nodes,
                self.tree().detached(id).nodes,
                self.depth@,
                new_parent_id as int,
                id as int,
            );
        }
        self.detach(id);
        self.attach(id, new_parent_id, position);
        Ok(())
    }
}

} // verus!
