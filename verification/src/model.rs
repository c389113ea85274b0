//! The mathematical model of the folder tree: a table of node records whose
//! index is the node's identifier, the trash ledger and the favorites list.

use vstd::prelude::*;
use crate::ids::{clamp_position, lemma_insert_id, without_id};

verus! {

/// The kinds of failure an operation reports.
#[derive(Clone, Copy, Debug, PartialEq, Eq, Structural)]
pub enum FolderError {
    /// A referenced identifier is absent.
    NotFound,
    /// The operation would break an invariant of the tree.
    InvalidOperation,
    /// The engine is no longer available.
    Gone,
    /// An unexpected condition.
    Internal,
}

#[derive(Clone, Copy, Debug, PartialEq, Eq, Structural)]
pub enum Kind {
    Workspace,
    View,
}

/// A node is live, held in the trash, or permanently removed.
#[derive(Clone, Copy, Debug, PartialEq, Eq, Structural)]
pub enum Status {
    Live,
    Trashed,
    Purged,
}

/// What a node record holds, as plain mathematical values.
pub struct NodeView {
    pub kind: Kind,
    pub name: Seq<char>,
    pub icon: Option<Seq<char>>,
    pub parent_id: Option<usize>,
    pub ordered_children: Seq<usize>,
    pub is_favorite: bool,
    pub status: Status,
    pub created_at: u64,
    pub trashed_at: u64,
}

/// The record left in the table where a node was purged.
pub open spec fn tombstone() -> NodeView {
    NodeView {
        kind: Kind::View,
        name: Seq::empty(),
        icon: None,
        parent_id: None,
        ordered_children: Seq::empty(),
        is_favorite: false,
        status: Status::Purged,
        created_at: 0,
        trashed_at: 0,
    }
}

/// A live record without children, as creation makes it.
pub open spec fn fresh_node(
    kind: Kind,
    name: Seq<char>,
    icon: Option<Seq<char>>,
    parent_id: Option<usize>,
    now: u64,
) -> NodeView {
    NodeView {
        kind,
        name,
        icon,
        parent_id,
        ordered_children: Seq::empty(),
        is_favorite: false,
        status: Status::Live,
        created_at: now,
        trashed_at: 0,
    }
}

/// The tree state: node table, trash ledger (oldest entry first) and
/// favorites (in tagging order).
pub struct TreeModel {
    pub nodes: Seq<NodeView>,
    pub trash: Seq<usize>,
    pub favorites: Seq<usize>,
}

/// Whether walking up from `x` along parent links meets `a` (`x` itself
/// counts). `depth` bounds the walk.
pub open spec fn is_under(nodes: Seq<NodeView>, depth: Seq<nat>, x: int, a: int) -> bool
    decreases depth[x],
{
    if x == a {
        true
    } else if 0 <= x < nodes.len() {
        match nodes[x].parent_id {
            Some(p) => if depth[p as int] < depth[x] {
                is_under(nodes, depth, p as int, a)
            } else {
                false
            },
            None => false,
        }
    } else {
        false
    }
}

/// The chain of ancestors of `x`, parent first, root last.
pub open spec fn ancestors(nodes: Seq<NodeView>, depth: Seq<nat>, x: int) -> Seq<usize>
    decreases depth[x],
{
    if 0 <= x < nodes.len() {
        match nodes[x].parent_id {
            Some(p) => if depth[p as int] < depth[x] {
                seq![p] + ancestors(nodes, depth, p as int)
            } else {
                Seq::empty()
            },
            None => Seq::empty(),
        }
    } else {
        Seq::empty()
    }
}

/// The depths after `id` was hung below `target`: the whole subtree of `id`
/// sinks below `target`.
pub open spec fn sunk_depth(nodes: Seq<NodeView>, depth: Seq<nat>, id: int, target: int) -> Seq<
    nat,
> {
    Seq::new(
        depth.len(),
        |x: int|
            if is_under(nodes, depth, x, id) {
                depth[x] + depth[target] + 1
            } else {
                depth[x]
            },
    )
}

impl TreeModel {
    pub open spec fn is_present(self, id: usize) -> bool {
        (id as int) < self.nodes.len() && self.nodes[id as int].status != Status::Purged
    }

    pub open spec fn is_live(self, id: usize) -> bool {
        (id as int) < self.nodes.len() && self.nodes[id as int].status == Status::Live
    }

    pub open spec fn is_view(self, id: usize) -> bool {
        self.is_present(id) && self.nodes[id as int].kind == Kind::View
    }

    pub open spec fn is_live_view(self, id: usize) -> bool {
        self.is_live(id) && self.nodes[id as int].kind == Kind::View
    }

    pub open spec fn is_workspace(self, id: usize) -> bool {
        (id as int) < self.nodes.len() && self.nodes[id as int].kind == Kind::Workspace
    }

    pub open spec fn is_trashed(self, id: usize) -> bool {
        (id as int) < self.nodes.len() && self.nodes[id as int].status == Status::Trashed
    }

    /// `c` is a live node that names `p` as its parent.
    pub open spec fn child_link(self, p: usize, c: usize) -> bool {
        (c as int) < self.nodes.len() && self.nodes[c as int].parent_id == Some(p)
            && self.nodes[c as int].status == Status::Live
    }

    pub open spec fn node_ok(self, depth: Seq<nat>, i: int) -> bool {
        let n = self.nodes[i];
        &&& n.ordered_children.no_duplicates()
        &&& match n.parent_id {
            Some(p) => {
                &&& (p as int) < self.nodes.len()
                &&& depth[p as int] < depth[i]
                &&& n.kind == Kind::View
                &&& n.status != Status::Purged
                &&& self.nodes[p as int].status != Status::Purged
            },
            None => true,
        }
        &&& (n.status == Status::Purged ==> n.ordered_children.len() == 0 && !n.is_favorite
            && n.kind == Kind::View)
        &&& (n.kind == Kind::Workspace ==> n.status == Status::Live)
    }

    /// The invariant of the tree. Identifier 0 is never assigned; every
    /// parent link leads to a strictly smaller depth, so no node is its own
    /// ancestor; a node's children are exactly the live nodes that name it
    /// as parent; the trash holds exactly the trashed nodes and the
    /// favorites exactly the tagged ones, each once.
    pub open spec fn wf(self, depth: Seq<nat>) -> bool {
        &&& self.nodes.len() > 0
        &&& self.nodes[0].status == Status::Purged
        &&& depth.len() == self.nodes.len()
        &&& forall|i: int| 0 <= i < self.nodes.len() ==> #[trigger] self.node_ok(depth, i)
        &&& forall|p: usize, c: usize|
            #![trigger self.nodes[p as int].ordered_children.contains(c)]
            #![trigger self.child_link(p, c)]
            (p as int) < self.nodes.len() ==> (self.nodes[p as int].ordered_children.contains(c)
                <==> self.child_link(p, c))
        &&& self.trash.no_duplicates()
        &&& forall|id: usize| #[trigger] self.trash.contains(id) <==> self.is_trashed(id)
        &&& self.favorites.no_duplicates()
        &&& forall|id: usize| #[trigger]
            self.favorites.contains(id) <==> ((id as int) < self.nodes.len()
                && self.nodes[id as int].is_favorite)
    }

    pub open spec fn with_node(self, n: NodeView) -> TreeModel {
        TreeModel { nodes: self.nodes.push(n), ..self }
    }

    pub open spec fn with_child(self, p: usize, c: usize, position: Option<usize>) -> TreeModel {
        let kids = self.nodes[p as int].ordered_children;
        TreeModel {
            nodes: self.nodes.update(
                p as int,
                NodeView {
                    ordered_children: kids.insert(clamp_position(position, kids.len()), c),
                    ..self.nodes[p as int]
                },
            ),
            ..self
        }
    }

    pub open spec fn without_child(self, p: usize, c: usize) -> TreeModel {
        TreeModel {
            nodes: self.nodes.update(
                p as int,
                NodeView {
                    ordered_children: without_id(self.nodes[p as int].ordered_children, c),
                    ..self.nodes[p as int]
                },
            ),
            ..self
        }
    }

    pub open spec fn with_parent(self, id: usize, parent: Option<usize>) -> TreeModel {
        TreeModel {
            nodes: self.nodes.update(
                id as int,
                NodeView { parent_id: parent, ..self.nodes[id as int] },
            ),
            ..self
        }
    }

    pub open spec fn with_status(self, id: usize, status: Status) -> TreeModel {
        TreeModel {
            nodes: self.nodes.update(id as int, NodeView { status, ..self.nodes[id as int] }),
            ..self
        }
    }

    /// The tree after a view was created below the live node `parent`.
    pub open spec fn created(
        self,
        parent: usize,
        name: Seq<char>,
        icon: Option<Seq<char>>,
        position: Option<usize>,
        now: u64,
    ) -> TreeModel {
        self.with_node(fresh_node(Kind::View, name, icon, Some(parent), now)).with_child(
            parent,
            self.nodes.len() as usize,
            position,
        )
    }

    /// The tree after the live node `id` left its parent and became an
    /// orphan.
    pub open spec fn detached(self, id: usize) -> TreeModel {
        match self.nodes[id as int].parent_id {
            Some(p) => self.without_child(p, id).with_parent(id, None),
            None => self,
        }
    }

    /// The tree after the live orphan `id` was hung below `target`.
    pub open spec fn attached(self, id: usize, target: usize, position: Option<usize>) -> TreeModel {
        self.with_parent(id, Some(target)).with_child(target, id, position)
    }

    /// The tree after `id` moved below `new_parent`.
    pub open spec fn moved(self, id: usize, new_parent: usize, position: Option<usize>) -> TreeModel {
        self.detached(id).attached(id, new_parent, position)
    }

    /// The tree after the live view `id` went to the trash: it leaves its
    /// parent's children and keeps its parent link.
    pub open spec fn trashed(self, id: usize, now: u64) -> TreeModel {
        let t = match self.nodes[id as int].parent_id {
            Some(p) => self.without_child(p, id),
            None => self,
        };
        TreeModel {
            nodes: t.nodes.update(
                id as int,
                NodeView { status: Status::Trashed, trashed_at: now, ..t.nodes[id as int] },
            ),
            trash: self.trash.push(id),
            favorites: self.favorites,
        }
    }

    /// Where a restored view goes: its recorded parent while that is live,
    /// the root otherwise.
    pub open spec fn restore_target(self, id: usize, root: Option<usize>) -> Option<usize> {
        match self.nodes[id as int].parent_id {
            Some(p) => if self.is_live(p) { Some(p) } else { root },
            None => root,
        }
    }

    /// The tree after the trashed view `id` left the trash as a live orphan.
    pub open spec fn untrashed(self, id: usize) -> TreeModel {
        TreeModel {
            nodes: self.nodes.update(
                id as int,
                NodeView { status: Status::Live, parent_id: None, ..self.nodes[id as int] },
            ),
            trash: without_id(self.trash, id),
            favorites: self.favorites,
        }
    }

    /// The tree after the trashed view `id` came back, at the end of its
    /// target's children, or as an orphan where there is no target.
    pub open spec fn restored(self, id: usize, root: Option<usize>) -> TreeModel {
        match self.restore_target(id, root) {
            Some(t) => self.untrashed(id).attached(id, t, None),
            None => self.untrashed(id),
        }
    }

    /// The tree after the trashed view `id` was removed for good: every
    /// node that named it as parent is an orphan, its record is a tombstone,
    /// and it has left the trash and the favorites.
    pub open spec fn purged(self, id: usize) -> TreeModel {
        TreeModel {
            nodes: Seq::new(
                self.nodes.len(),
                |j: int|
                    if j == id {
                        tombstone()
                    } else if self.nodes[j].parent_id == Some(id) {
                        NodeView { parent_id: None, ..self.nodes[j] }
                    } else {
                        self.nodes[j]
                    },
            ),
            trash: without_id(self.trash, id),
            favorites: without_id(self.favorites, id),
        }
    }

    /// The tree after the favorite tag of `id` was flipped.
    pub open spec fn toggled(self, id: usize) -> TreeModel {
        let n = self.nodes[id as int];
        TreeModel {
            nodes: self.nodes.update(id as int, NodeView { is_favorite: !n.is_favorite, ..n }),
            trash: self.trash,
            favorites: if n.is_favorite {
                without_id(self.favorites, id)
            } else {
                self.favorites.push(id)
            },
        }
    }

    /// The tree after name and icon of `id` were patched.
    pub open spec fn updated(
        self,
        id: usize,
        name: Option<Seq<char>>,
        icon: Option<Option<Seq<char>>>,
    ) -> TreeModel {
        let n = self.nodes[id as int];
        TreeModel {
            nodes: self.nodes.update(
                id as int,
                NodeView {
                    name: match name {
                        Some(s) => s,
                        None => n.name,
                    },
                    icon: match icon {
                        Some(i) => i,
                        None => n.icon,
                    },
                    ..n
                },
            ),
            ..self
        }
    }
}

} // verus!

verus! {

/// Whatever stands under `a` lies at least as deep as `a`.
pub proof fn lemma_under_is_deeper(t: TreeModel, depth: Seq<nat>, x: usize, a: usize)
    requires
        t.wf(depth),
        (x as int) < t.nodes.len(),
        is_under(t.nodes, depth, x as int, a as int),
    ensures
        depth[a as int] <= depth[x as int],
        (a as int) < t.nodes.len(),
    decreases depth[x as int],
{
    if x != a {
        assert(t.node_ok(depth, x as int));
        let p = t.nodes[x as int].parent_id.unwrap();
        lemma_under_is_deeper(t, depth, p, a);
    }
}

/// Every ancestor of a node is a node of the table that lies strictly
/// higher than it.
pub proof fn lemma_ancestors_are_shallower(t: TreeModel, depth: Seq<nat>, x: usize)
    requires
        t.wf(depth),
        (x as int) < t.nodes.len(),
    ensures
        forall|k: int|
            0 <= k < ancestors(t.nodes, depth, x as int).len() ==> {
                let a = #[trigger] ancestors(t.nodes, depth, x as int)[k];
                (a as int) < t.nodes.len() && depth[a as int] < depth[x as int]
            },
    decreases depth[x as int],
{
    assert(t.node_ok(depth, x as int));
    if let Some(p) = t.nodes[x as int].parent_id {
        lemma_ancestors_are_shallower(t, depth, p);
        let up = ancestors(t.nodes, depth, p as int);
        let all = ancestors(t.nodes, depth, x as int);
        assert(all == seq![p] + up);
        assert forall|k: int| 0 <= k < all.len() implies {
            let a = #[trigger] all[k];
            (a as int) < t.nodes.len() && depth[a as int] < depth[x as int]
        } by {
            if k > 0 {
                assert(all[k] == up[k - 1]);
            }
        }
    }
}

/// No node is its own ancestor: the parent of a node never stands under
/// that node, and the chain of a node's ancestors never holds the node.
pub proof fn lemma_no_cycle(t: TreeModel, depth: Seq<nat>, id: usize)
    requires
        t.wf(depth),
        (id as int) < t.nodes.len(),
    ensures
        match t.nodes[id as int].parent_id {
            Some(p) => !is_under(t.nodes, depth, p as int, id as int),
            None => true,
        },
        !ancestors(t.nodes, depth, id as int).contains(id),
{
    assert(t.node_ok(depth, id as int));
    if let Some(p) = t.nodes[id as int].parent_id {
        if is_under(t.nodes, depth, p as int, id as int) {
            lemma_under_is_deeper(t, depth, p, id);
        }
    }
    lemma_ancestors_are_shallower(t, depth, id);
    let all = ancestors(t.nodes, depth, id as int);
    if all.contains(id) {
        let k = choose|k: int| 0 <= k < all.len() && all[k] == id;
        assert(depth[all[k] as int] < depth[id as int]);
    }
}

/// A node stands under `a` exactly when it is `a` or has `a` among its
/// ancestors.
pub proof fn lemma_under_iff_ancestor(t: TreeModel, depth: Seq<nat>, x: usize, a: usize)
    requires
        t.wf(depth),
        (x as int) < t.nodes.len(),
    ensures
        is_under(t.nodes, depth, x as int, a as int) <==> (x == a || ancestors(
            t.nodes,
            depth,
            x as int,
        ).contains(a)),
    decreases depth[x as int],
{
    assert(t.node_ok(depth, x as int));
    let all = ancestors(t.nodes, depth, x as int);
    match t.nodes[x as int].parent_id {
        Some(p) => {
            lemma_under_iff_ancestor(t, depth, p, a);
            let up = ancestors(t.nodes, depth, p as int);
            assert(all == seq![p] + up);
            if p == a {
                assert(all[0] == a);
            }
            if up.contains(a) {
                let k = choose|k: int| 0 <= k < up.len() && up[k] == a;
                assert(all[k + 1] == a);
            }
            if all.contains(a) {
                let k = choose|k: int| 0 <= k < all.len() && all[k] == a;
                if k > 0 {
                    assert(up[k - 1] == a);
                }
            }
        },
        None => {
            assert(all.len() == 0);
        },
    }
}

/// A view created below a live node leaves the tree well-formed.
pub proof fn lemma_created_wf(
    t: TreeModel,
    depth: Seq<nat>,
    parent: usize,
    name: Seq<char>,
    icon: Option<Seq<char>>,
    position: Option<usize>,
    now: u64,
)
    requires
        t.wf(depth),
        t.is_live(parent),
        t.nodes.len() <= usize::MAX,
    ensures
        t.created(parent, name, icon, position, now).wf(depth.push(depth[parent as int] + 1)),
{
    let r = t.created(parent, name, icon, position, now);
    let d = depth.push(depth[parent as int] + 1);
    let id = t.nodes.len() as usize;
    let kids = t.nodes[parent as int].ordered_children;
    assert(t.node_ok(depth, parent as int));
    assert(!kids.contains(id));
    lemma_insert_id(kids, clamp_position(position, kids.len()), id);
    assert forall|i: int| 0 <= i < r.nodes.len() implies #[trigger] r.node_ok(d, i) by {
        if i < t.nodes.len() {
            assert(t.node_ok(depth, i));
        }
    }
    assert forall|p: usize, c: usize| (p as int) < r.nodes.len() implies (
    #[trigger] r.nodes[p as int].ordered_children.contains(c) <==> r.child_link(p, c)) by {
        if (p as int) < t.nodes.len() {
            assert(t.nodes[p as int].ordered_children.contains(c) <==> t.child_link(p, c));
        }
        if (c as int) < t.nodes.len() {
            assert(t.node_ok(depth, c as int));
        }
    }
    assert forall|x: usize| #[trigger] r.trash.contains(x) <==> r.is_trashed(x) by {
        assert(t.trash.contains(x) <==> t.is_trashed(x));
    }
    assert forall|x: usize| #[trigger]
        r.favorites.contains(x) <==> ((x as int) < r.nodes.len()
            && r.nodes[x as int].is_favorite) by {
        assert(t.favorites.contains(x) <==> ((x as int) < t.nodes.len()
            && t.nodes[x as int].is_favorite));
    }
}

/// A live node or a tombstone added without parent and children leaves the
/// tree well-formed.
pub proof fn lemma_with_orphan_wf(t: TreeModel, depth: Seq<nat>, n: NodeView)
    requires
        t.wf(depth),
        n.parent_id is None,
        n.ordered_children.len() == 0,
        n.status == Status::Live || (n.status == Status::Purged && n.kind == Kind::View),
        !n.is_favorite,
    ensures
        t.with_node(n).wf(depth.push(0)),
{
    let r = t.with_node(n);
    let d = depth.push(0);
    assert forall|i: int| 0 <= i < r.nodes.len() implies #[trigger] r.node_ok(d, i) by {
        if i < t.nodes.len() {
            assert(t.node_ok(depth, i));
        }
    }
    assert forall|p: usize, c: usize| (p as int) < r.nodes.len() implies (
    #[trigger] r.nodes[p as int].ordered_children.contains(c) <==> r.child_link(p, c)) by {
        if (p as int) < t.nodes.len() {
            assert(t.nodes[p as int].ordered_children.contains(c) <==> t.child_link(p, c));
        }
        if (c as int) < t.nodes.len() {
            assert(t.node_ok(depth, c as int));
        }
    }
    assert forall|x: usize| #[trigger] r.trash.contains(x) <==> r.is_trashed(x) by {
        assert(t.trash.contains(x) <==> t.is_trashed(x));
    }
    assert forall|x: usize| #[trigger]
        r.favorites.contains(x) <==> ((x as int) < r.nodes.len()
            && r.nodes[x as int].is_favorite) by {
        assert(t.favorites.contains(x) <==> ((x as int) < t.nodes.len()
            && t.nodes[x as int].is_favorite));
    }
}

/// Changing name and icon leaves the tree well-formed.
pub proof fn lemma_updated_wf(
    t: TreeModel,
    depth: Seq<nat>,
    id: usize,
    name: Option<Seq<char>>,
    icon: Option<Option<Seq<char>>>,
)
    requires
        t.wf(depth),
        (id as int) < t.nodes.len(),
    ensures
        t.updated(id, name, icon).wf(depth),
{
    let r = t.updated(id, name, icon);
    assert forall|i: int| 0 <= i < r.nodes.len() implies #[trigger] r.node_ok(depth, i) by {
        assert(t.node_ok(depth, i));
    }
    assert forall|p: usize, c: usize| (p as int) < r.nodes.len() implies (
    #[trigger] r.nodes[p as int].ordered_children.contains(c) <==> r.child_link(p, c)) by {
        assert(t.nodes[p as int].ordered_children.contains(c) <==> t.child_link(p, c));
    }
    assert forall|x: usize| #[trigger] r.trash.contains(x) <==> r.is_trashed(x) by {
        assert(t.trash.contains(x) <==> t.is_trashed(x));
    }
    assert forall|x: usize| #[trigger]
        r.favorites.contains(x) <==> ((x as int) < r.nodes.len()
            && r.nodes[x as int].is_favorite) by {
        assert(t.favorites.contains(x) <==> ((x as int) < t.nodes.len()
            && t.nodes[x as int].is_favorite));
    }
}

} // verus!
