//! Each change of the tree model keeps the tree well-formed.

use vstd::prelude::*;
use crate::ids::{
    clamp_position, lemma_insert_id, lemma_push_id, lemma_remove_at, lemma_without_id, without_id,
};
use crate::model::{
    ancestors, is_under, lemma_created_wf, lemma_no_cycle, sunk_depth, Kind, NodeView, Status,
    TreeModel,
};

verus! {

/// Whether `x` stands under `a` does not depend on the parent link of `a`
/// itself, nor on anything but parent links.
pub proof fn lemma_under_frame(
    n1: Seq<NodeView>,
    n2: Seq<NodeView>,
    depth: Seq<nat>,
    x: int,
    a: int,
)
    requires
        n1.len() == n2.len(),
        forall|j: int| 0 <= j < n1.len() && j != a ==> n1[j].parent_id == n2[j].parent_id,
    ensures
        is_under(n1, depth, x, a) == is_under(n2, depth, x, a),
    decreases depth[x],
{
    if x != a && 0 <= x < n1.len() {
        if let Some(p) = n1[x].parent_id {
            if depth[p as int] < depth[x] {
                lemma_under_frame(n1, n2, depth, p as int, a);
            }
        }
    }
}

/// Taking a live node away from its parent leaves the tree well-formed.
pub proof fn lemma_detached_wf(t: TreeModel, depth: Seq<nat>, id: usize)
    requires
        t.wf(depth),
        t.is_live(id),
    ensures
        t.detached(id).wf(depth),
        t.detached(id).nodes.len() == t.nodes.len(),
        t.detached(id).nodes[id as int].parent_id is None,
        t.detached(id).is_live(id),
        forall|j: usize| t.detached(id).is_live(j) == t.is_live(j),
        forall|j: usize| t.detached(id).is_view(j) == t.is_view(j),
{
    let r = t.detached(id);
    assert(t.node_ok(depth, id as int));
    if let Some(q) = t.nodes[id as int].parent_id {
        assert(t.node_ok(depth, q as int));
        lemma_without_id(t.nodes[q as int].ordered_children, id);
        assert forall|i: int| 0 <= i < r.nodes.len() implies #[trigger] r.node_ok(depth, i) by {
            assert(t.node_ok(depth, i));
        }
        assert forall|p: usize, c: usize| (p as int) < r.nodes.len() implies (
        #[trigger] r.nodes[p as int].ordered_children.contains(c) <==> r.child_link(p, c)) by {
            assert(t.nodes[p as int].ordered_children.contains(c) <==> t.child_link(p, c));
        }
        assert forall|x: usize| #[trigger] r.trash.contains(x) <==> r.is_trashed(x) by {
            assert(t.trash.contains(x) <==> t.is_trashed(x));
        }
        assert forall|x: usize| #[trigger]
            r.favorites.contains(x) <==> ((x as int) < r.nodes.len()
                && r.nodes[x as int].is_favorite) by {
            assert(t.favorites.contains(x) <==> ((x as int) < t.nodes.len()
                && t.nodes[x as int].is_favorite));
        }
    }
}

/// Hanging a live orphan view below a node that does not stand under it
/// leaves the tree well-formed, with the orphan's subtree sunk below the
/// new parent.
pub proof fn lemma_attached_wf(
    t: TreeModel,
    depth: Seq<nat>,
    id: usize,
    target: usize,
    position: Option<usize>,
)
    requires
        t.wf(depth),
        t.is_live_view(id),
        t.nodes[id as int].parent_id is None,
        t.is_present(target),
        !is_under(t.nodes, depth, target as int, id as int),
    ensures
        t.attached(id, target, position).wf(sunk_depth(t.nodes, depth, id as int, target as int)),
{
    let r = t.attached(id, target, position);
    let d = sunk_depth(t.nodes, depth, id as int, target as int);
    let kids = t.nodes[target as int].ordered_children;
    assert(target != id);
    assert(t.node_ok(depth, target as int));
    assert(kids.contains(id) <==> t.child_link(target, id));
    lemma_insert_id(kids, clamp_position(position, kids.len()), id);
    assert forall|i: int| 0 <= i < r.nodes.len() implies #[trigger] r.node_ok(d, i) by {
        assert(t.node_ok(depth, i));
        if i != id {
            if let Some(q) = t.nodes[i].parent_id {
                assert(is_under(t.nodes, depth, i, id as int) == is_under(
                    t.nodes,
                    depth,
                    q as int,
                    id as int,
                ));
            }
        }
    }
    assert forall|p: usize, c: usize| (p as int) < r.nodes.len() implies (
    #[trigger] r.nodes[p as int].ordered_children.contains(c) <==> r.child_link(p, c)) by {
        assert(t.nodes[p as int].ordered_children.contains(c) <==> t.child_link(p, c));
    }
    assert forall|x: usize| #[trigger] r.trash.contains(x) <==> r.is_trashed(x) by {
        assert(t.trash.contains(x) <==> t.is_trashed(x));
    }
    assert forall|x: usize| #[trigger]
        r.favorites.contains(x) <==> ((x as int) < r.nodes.len()
            && r.nodes[x as int].is_favorite) by {
        assert(t.favorites.contains(x) <==> ((x as int) < t.nodes.len()
            && t.nodes[x as int].is_favorite));
    }
}

/// Moving a live view below a live node that does not stand under it leaves
/// the tree well-formed.
pub proof fn lemma_moved_wf(
    t: TreeModel,
    depth: Seq<nat>,
    id: usize,
    new_parent: usize,
    position: Option<usize>,
)
    requires
        t.wf(depth),
        t.is_live_view(id),
        t.is_live(new_parent),
        !is_under(t.nodes, depth, new_parent as int, id as int),
    ensures
        t.moved(id, new_parent, position).wf(
            sunk_depth(t.detached(id).nodes, depth, id as int, new_parent as int),
        ),
{
    lemma_detached_wf(t, depth, id);
    assert(t.node_ok(depth, id as int));
    assert(t.detached(id).nodes[id as int].kind == Kind::View);
    assert(t.detached(id).is_live(new_parent) == t.is_live(new_parent));
    lemma_under_frame(t.nodes, t.detached(id).nodes, depth, new_parent as int, id as int);
    lemma_attached_wf(t.detached(id), depth, id, new_parent, position);
}

/// Sending a live view to the trash leaves the tree well-formed.
pub proof fn lemma_trashed_wf(t: TreeModel, depth: Seq<nat>, id: usize, now: u64)
    requires
        t.wf(depth),
        t.is_live_view(id),
    ensures
        t.trashed(id, now).wf(depth),
{
    let r = t.trashed(id, now);
    assert(t.node_ok(depth, id as int));
    assert(t.trash.contains(id) <==> t.is_trashed(id));
    lemma_push_id(t.trash, id);
    if let Some(q) = t.nodes[id as int].parent_id {
        assert(t.node_ok(depth, q as int));
        lemma_without_id(t.nodes[q as int].ordered_children, id);
    }
    assert forall|i: int| 0 <= i < r.nodes.len() implies #[trigger] r.node_ok(depth, i) by {
        assert(t.node_ok(depth, i));
    }
    assert forall|p: usize, c: usize| (p as int) < r.nodes.len() implies (
    #[trigger] r.nodes[p as int].ordered_children.contains(c) <==> r.child_link(p, c)) by {
        assert(t.nodes[p as int].ordered_children.contains(c) <==> t.child_link(p, c));
    }
    assert forall|x: usize| #[trigger] r.trash.contains(x) <==> r.is_trashed(x) by {
        assert(t.trash.contains(x) <==> t.is_trashed(x));
    }
    assert forall|x: usize| #[trigger]
        r.favorites.contains(x) <==> ((x as int) < r.nodes.len()
            && r.nodes[x as int].is_favorite) by {
        assert(t.favorites.contains(x) <==> ((x as int) < t.nodes.len()
            && t.nodes[x as int].is_favorite));
    }
}

/// Taking a view out of the trash as a live orphan leaves the tree
/// well-formed.
pub proof fn lemma_untrashed_wf(t: TreeModel, depth: Seq<nat>, id: usize)
    requires
        t.wf(depth),
        t.is_trashed(id),
    ensures
        t.untrashed(id).wf(depth),
        t.untrashed(id).is_live_view(id),
        t.untrashed(id).nodes[id as int].parent_id is None,
{
    let r = t.untrashed(id);
    assert(t.node_ok(depth, id as int));
    lemma_without_id(t.trash, id);
    assert forall|i: int| 0 <= i < r.nodes.len() implies #[trigger] r.node_ok(depth, i) by {
        assert(t.node_ok(depth, i));
    }
    assert forall|p: usize, c: usize| (p as int) < r.nodes.len() implies (
    #[trigger] r.nodes[p as int].ordered_children.contains(c) <==> r.child_link(p, c)) by {
        assert(t.nodes[p as int].ordered_children.contains(c) <==> t.child_link(p, c));
    }
    assert forall|x: usize| #[trigger] r.trash.contains(x) <==> r.is_trashed(x) by {
        assert(t.trash.contains(x) <==> t.is_trashed(x));
    }
    assert forall|x: usize| #[trigger]
        r.favorites.contains(x) <==> ((x as int) < r.nodes.len()
            && r.nodes[x as int].is_favorite) by {
        assert(t.favorites.contains(x) <==> ((x as int) < t.nodes.len()
            && t.nodes[x as int].is_favorite));
    }
}

/// The node a restored view returns to is present and does not stand
/// under the view.
pub proof fn lemma_restore_target_clear(
    t: TreeModel,
    depth: Seq<nat>,
    id: usize,
    root: Option<usize>,
)
    requires
        t.wf(depth),
        t.is_trashed(id),
        root matches Some(w) ==> t.is_workspace(w),
    ensures
        t.restore_target(id, root) matches Some(target) ==> t.untrashed(id).is_present(target)
            && t.is_live(target) && !is_under(
            t.untrashed(id).nodes,
            depth,
            target as int,
            id as int,
        ),
{
    assert(t.node_ok(depth, id as int));
    if let Some(target) = t.restore_target(id, root) {
        let u = t.untrashed(id);
        assert(t.node_ok(depth, target as int));
        if t.nodes[id as int].parent_id == Some(target) {
            lemma_no_cycle(t, depth, id);
            lemma_under_frame(t.nodes, u.nodes, depth, target as int, id as int);
        } else {
            assert(t.is_workspace(target));
            assert(u.nodes[target as int].parent_id is None);
            assert(target != id);
        }
    }
}

/// Bringing a trashed view back leaves the tree well-formed, whether it
/// returns to its recorded parent, to the root or as an orphan; the view is
/// then live and no longer in the trash, so it cannot be brought back a
/// second time.
pub proof fn lemma_restored_wf(t: TreeModel, depth: Seq<nat>, id: usize, root: Option<usize>)
    requires
        t.wf(depth),
        t.is_trashed(id),
        root matches Some(w) ==> t.is_workspace(w),
    ensures
        match t.restore_target(id, root) {
            Some(target) => t.restored(id, root).wf(
                sunk_depth(t.untrashed(id).nodes, depth, id as int, target as int),
            ),
            None => t.restored(id, root).wf(depth),
        },
        !t.restored(id, root).is_trashed(id),
        t.restored(id, root).is_live_view(id),
        !t.restored(id, root).trash.contains(id),
        t.restored(id, root).trash == without_id(t.trash, id),
        t.restored(id, root).nodes.len() == t.nodes.len(),
{
    lemma_untrashed_wf(t, depth, id);
    lemma_restore_target_clear(t, depth, id, root);
    lemma_without_id(t.trash, id);
    if let Some(target) = t.restore_target(id, root) {
        lemma_attached_wf(t.untrashed(id), depth, id, target, None);
    }
}

/// A restored view is live and names the node it returned to as parent;
/// where there is such a node, the view is the last of its children, and
/// nowhere else among them. No other node changes its state.
pub proof fn lemma_restored_attached(t: TreeModel, depth: Seq<nat>, id: usize, root: Option<usize>)
    requires
        t.wf(depth),
        t.is_trashed(id),
        root matches Some(w) ==> t.is_workspace(w),
    ensures
        t.restored(id, root).is_live_view(id),
        t.restored(id, root).nodes[id as int].parent_id == t.restore_target(id, root),
        t.restore_target(id, root) matches Some(target) ==> t.is_live(target) && t.restored(
            id,
            root,
        ).nodes[target as int].ordered_children == t.nodes[target as int].ordered_children.push(id)
            && !t.nodes[target as int].ordered_children.contains(id),
        forall|x: int|
            0 <= x < t.nodes.len() && x != id ==> (#[trigger] t.restored(id, root).nodes[x]).status
                == t.nodes[x].status,
{
    lemma_restored_wf(t, depth, id, root);
    lemma_restore_target_clear(t, depth, id, root);
    assert(t.node_ok(depth, id as int));
    if let Some(target) = t.restore_target(id, root) {
        let kids = t.nodes[target as int].ordered_children;
        assert(kids.contains(id) <==> t.child_link(target, id));
        assert(kids.insert(kids.len() as int, id) =~= kids.push(id));
        assert(target != id);
    }
}

/// A view that was restored is no longer in the trash: restoring it once
/// more finds nothing to restore.
pub proof fn lemma_restore_is_not_repeatable(
    t: TreeModel,
    depth: Seq<nat>,
    id: usize,
    root: Option<usize>,
)
    requires
        t.wf(depth),
        t.is_trashed(id),
        root matches Some(w) ==> t.is_workspace(w),
    ensures
        !t.restored(id, root).is_trashed(id),
        !t.restored(id, root).trash.contains(id),
{
    lemma_restored_wf(t, depth, id, root);
}

/// A node is never placed below itself: it stands under itself, and a move
/// below a node that stands under it is refused.
pub proof fn lemma_self_stands_under(nodes: Seq<NodeView>, depth: Seq<nat>, id: int)
    ensures
        is_under(nodes, depth, id, id),
{
}

/// Removing a trashed view for good leaves the tree well-formed.
pub proof fn lemma_purged_wf(t: TreeModel, depth: Seq<nat>, id: usize)
    requires
        t.wf(depth),
        t.is_trashed(id),
    ensures
        t.purged(id).wf(depth),
{
    let r = t.purged(id);
    assert(t.node_ok(depth, id as int));
    assert(t.node_ok(depth, 0));
    lemma_without_id(t.trash, id);
    lemma_without_id(t.favorites, id);
    assert forall|i: int| 0 <= i < r.nodes.len() implies #[trigger] r.node_ok(depth, i) by {
        assert(t.node_ok(depth, i));
    }
    assert forall|p: usize, c: usize| (p as int) < r.nodes.len() implies (
    #[trigger] r.nodes[p as int].ordered_children.contains(c) <==> r.child_link(p, c)) by {
        assert(t.nodes[p as int].ordered_children.contains(c) <==> t.child_link(p, c));
    }
    assert forall|x: usize| #[trigger] r.trash.contains(x) <==> r.is_trashed(x) by {
        assert(t.trash.contains(x) <==> t.is_trashed(x));
    }
    assert forall|x: usize| #[trigger]
        r.favorites.contains(x) <==> ((x as int) < r.nodes.len()
            && r.nodes[x as int].is_favorite) by {
        assert(t.favorites.contains(x) <==> ((x as int) < t.nodes.len()
            && t.nodes[x as int].is_favorite));
    }
}

/// Flipping the favorite tag of a present view leaves the tree well-formed.
pub proof fn lemma_toggled_wf(t: TreeModel, depth: Seq<nat>, id: usize)
    requires
        t.wf(depth),
        t.is_view(id),
    ensures
        t.toggled(id).wf(depth),
{
    let r = t.toggled(id);
    assert(t.favorites.contains(id) <==> ((id as int) < t.nodes.len()
        && t.nodes[id as int].is_favorite));
    if t.nodes[id as int].is_favorite {
        lemma_without_id(t.favorites, id);
    } else {
        lemma_push_id(t.favorites, id);
    }
    assert forall|i: int| 0 <= i < r.nodes.len() implies #[trigger] r.node_ok(depth, i) by {
        assert(t.node_ok(depth, i));
    }
    assert forall|p: usize, c: usize| (p as int) < r.nodes.len() implies (
    #[trigger] r.nodes[p as int].ordered_children.contains(c) <==> r.child_link(p, c)) by {
        assert(t.nodes[p as int].ordered_children.contains(c) <==> t.child_link(p, c));
    }
    assert forall|x: usize| #[trigger] r.trash.contains(x) <==> r.is_trashed(x) by {
        assert(t.trash.contains(x) <==> t.is_trashed(x));
    }
    assert forall|x: usize| #[trigger]
        r.favorites.contains(x) <==> ((x as int) < r.nodes.len()
            && r.nodes[x as int].is_favorite) by {
        assert(t.favorites.contains(x) <==> ((x as int) < t.nodes.len()
            && t.nodes[x as int].is_favorite));
    }
}

/// Every node is in exactly one of three states. A live node with a parent
/// stands among that parent's children and not in the trash; a trashed node
/// stands in the trash and among no node's children; a purged node stands
/// in neither.
pub proof fn lemma_attached_or_trashed(t: TreeModel, depth: Seq<nat>, p: usize, id: usize)
    requires
        t.wf(depth),
        (p as int) < t.nodes.len(),
        (id as int) < t.nodes.len(),
    ensures
        !(t.nodes[p as int].ordered_children.contains(id) && t.trash.contains(id)),
        t.trash.contains(id) <==> t.is_trashed(id),
        t.nodes[p as int].ordered_children.contains(id) <==> (t.is_live(id)
            && t.nodes[id as int].parent_id == Some(p)),
        !t.is_present(id) ==> !t.trash.contains(id) && !t.nodes[p as int].ordered_children.contains(
            id,
        ),
{
    assert(t.nodes[p as int].ordered_children.contains(id) <==> t.child_link(p, id));
    assert(t.trash.contains(id) <==> t.is_trashed(id));
}

/// Creating a view leaves the ancestors of every node that was there as
/// they were.
pub proof fn lemma_created_keeps_chains(
    t: TreeModel,
    depth: Seq<nat>,
    parent: usize,
    name: Seq<char>,
    icon: Option<Seq<char>>,
    position: Option<usize>,
    now: u64,
    x: usize,
)
    requires
        t.wf(depth),
        t.is_live(parent),
        t.nodes.len() <= usize::MAX,
        (x as int) < t.nodes.len(),
    ensures
        ancestors(
            t.created(parent, name, icon, position, now).nodes,
            depth.push(depth[parent as int] + 1),
            x as int,
        ) == ancestors(t.nodes, depth, x as int),
    decreases depth[x as int],
{
    assert(t.node_ok(depth, x as int));
    if let Some(p) = t.nodes[x as int].parent_id {
        lemma_created_keeps_chains(t, depth, parent, name, icon, position, now, p);
    }
}

/// The ancestors of a view that was just created are its parent and the
/// parent's ancestors; the view is not among them and has no children.
pub proof fn lemma_created_chain(
    t: TreeModel,
    depth: Seq<nat>,
    parent: usize,
    name: Seq<char>,
    icon: Option<Seq<char>>,
    position: Option<usize>,
    now: u64,
)
    requires
        t.wf(depth),
        t.is_live(parent),
        t.nodes.len() <= usize::MAX,
    ensures
        ancestors(
            t.created(parent, name, icon, position, now).nodes,
            depth.push(depth[parent as int] + 1),
            t.nodes.len() as int,
        ) == seq![parent] + ancestors(t.nodes, depth, parent as int),
        !(seq![parent] + ancestors(t.nodes, depth, parent as int)).contains(
            t.nodes.len() as usize,
        ),
        t.created(parent, name, icon, position, now).nodes[t.nodes.len() as int].ordered_children.len()
            == 0,
{
    lemma_created_keeps_chains(t, depth, parent, name, icon, position, now, parent);
    lemma_created_wf(t, depth, parent, name, icon, position, now);
    lemma_no_cycle(
        t.created(parent, name, icon, position, now),
        depth.push(depth[parent as int] + 1),
        t.nodes.len() as usize,
    );
}

/// A purged view is gone: it is not present, stands in no ledger and among
/// no node's children. Every other node keeps its state.
pub proof fn lemma_purged_gone(t: TreeModel, depth: Seq<nat>, id: usize)
    requires
        t.wf(depth),
        t.is_trashed(id),
    ensures
        t.purged(id).wf(depth),
        t.purged(id).nodes.len() == t.nodes.len(),
        !t.purged(id).is_present(id),
        !t.purged(id).trash.contains(id),
        !t.purged(id).favorites.contains(id),
        forall|p: usize|
            (p as int) < t.nodes.len() ==> !(
            #[trigger] t.purged(id).nodes[p as int].ordered_children.contains(id)),
        forall|x: int|
            0 <= x < t.nodes.len() && x != id ==> (#[trigger] t.purged(id).nodes[x]).status
                == t.nodes[x].status,
{
    lemma_purged_wf(t, depth, id);
    let r = t.purged(id);
    assert(r.trash.contains(id) <==> r.is_trashed(id));
    assert(r.favorites.contains(id) <==> ((id as int) < r.nodes.len()
        && r.nodes[id as int].is_favorite));
    assert forall|p: usize| (p as int) < t.nodes.len() implies !(
    #[trigger] r.nodes[p as int].ordered_children.contains(id)) by {
        assert(r.nodes[p as int].ordered_children.contains(id) <==> r.child_link(p, id));
    }
}

/// After a batch purge a node is present exactly where it was present
/// before and was not a trashed node named in the batch; whatever is still
/// present keeps its state.
pub proof fn lemma_purged_each(t: TreeModel, depth: Seq<nat>, ids: Seq<usize>)
    requires
        t.wf(depth),
    ensures
        t.purged_each(ids).wf(depth),
        t.purged_each(ids).nodes.len() == t.nodes.len(),
        forall|x: usize|
            (x as int) < t.nodes.len() ==> (#[trigger] t.purged_each(ids).is_present(x) <==> (
            t.is_present(x) && !(t.is_trashed(x) && ids.contains(x)))),
        forall|x: int|
            0 <= x < t.nodes.len() && (#[trigger] t.purged_each(ids).nodes[x]).status
                != Status::Purged ==> t.purged_each(ids).nodes[x].status == t.nodes[x].status,
    decreases ids.len(),
{
    if ids.len() > 0 {
        let first = ids[0];
        let rest = ids.drop_first();
        let next = if t.is_trashed(first) {
            t.purged(first)
        } else {
            t
        };
        if t.is_trashed(first) {
            lemma_purged_gone(t, depth, first);
        }
        lemma_purged_each(next, depth, rest);
        let r = t.purged_each(ids);
        assert forall|x: usize| (x as int) < t.nodes.len() implies (#[trigger] r.is_present(x) <==> (
        t.is_present(x) && !(t.is_trashed(x) && ids.contains(x)))) by {
            assert(next.purged_each(rest).is_present(x) <==> (next.is_present(x) && !(
            next.is_trashed(x) && rest.contains(x))));
            if rest.contains(x) {
                let k = choose|k: int| 0 <= k < rest.len() && rest[k] == x;
                assert(ids[k + 1] == x);
            }
            if ids.contains(x) && x != first {
                let k = choose|k: int| 0 <= k < ids.len() && ids[k] == x;
                assert(rest[k - 1] == x);
            }
            if x == first {
                assert(ids[0] == x);
            } else if t.is_trashed(first) {
                assert(next.nodes[x as int].status == t.nodes[x as int].status);
            }
        }
        assert forall|x: int|
            0 <= x < t.nodes.len() && (#[trigger] r.nodes[x]).status
                != Status::Purged implies r.nodes[x].status == t.nodes[x].status by {
            assert(next.purged_each(rest).nodes[x].status == next.nodes[x].status);
            if t.is_trashed(first) && x != first {
                assert(next.nodes[x].status == t.nodes[x].status);
            }
        }
    }
}

/// After every entry of the trash was restored, the trash is empty, each
/// node that was trashed is live, and every other node keeps its state.
pub proof fn lemma_restored_all(t: TreeModel, depth: Seq<nat>, root: Option<usize>)
    requires
        t.wf(depth),
        root matches Some(w) ==> t.is_workspace(w),
    ensures
        t.restored_all(root).nodes.len() == t.nodes.len(),
        t.restored_all(root).trash.len() == 0,
        forall|x: usize|
            (x as int) < t.nodes.len() ==> (#[trigger] t.restored_all(root).nodes[x as int]).status
                == if t.is_trashed(x) {
                Status::Live
            } else {
                t.nodes[x as int].status
            },
    decreases t.trash.len(),
{
    if t.trash.len() > 0 {
        let id = t.trash[0];
        assert(t.trash.contains(id));
        assert(t.trash.contains(id) <==> t.is_trashed(id));
        lemma_restored_wf(t, depth, id, root);
        lemma_restored_attached(t, depth, id, root);
        lemma_remove_at(t.trash, 0);
        let next = t.restored(id, root);
        let d2 = match t.restore_target(id, root) {
            Some(target) => sunk_depth(t.untrashed(id).nodes, depth, id as int, target as int),
            None => depth,
        };
        if let Some(w) = root {
            assert(next.nodes[w as int].kind == t.nodes[w as int].kind);
        }
        lemma_restored_all(next, d2, root);
        let r = t.restored_all(root);
        assert forall|x: usize| (x as int) < t.nodes.len() implies (
        #[trigger] r.nodes[x as int]).status == if t.is_trashed(x) {
            Status::Live
        } else {
            t.nodes[x as int].status
        } by {
            assert(next.restored_all(root).nodes[x as int].status == if next.is_trashed(x) {
                Status::Live
            } else {
                next.nodes[x as int].status
            });
            if x != id {
                assert(next.nodes[x as int].status == t.nodes[x as int].status);
            }
        }
    } else {
        assert forall|x: usize| (x as int) < t.nodes.len() implies !t.is_trashed(x) by {
            assert(t.trash.contains(x) <==> t.is_trashed(x));
        }
    }
}

} // verus!
