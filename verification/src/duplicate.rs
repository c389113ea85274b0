//! Copying a subtree.

use vstd::prelude::*;
use crate::engine::FolderEngine;
use crate::ids::{copy_ids, index_of_id, lemma_distinct_below};
use crate::model::{
    fresh_node, is_under, lemma_no_cycle, lemma_under_is_deeper, FolderError, Kind, NodeView,
    Status, TreeModel,
};
use crate::node::copy_text;

verus! {

/// Nothing stands under a node that no node names as its parent, but the
/// node itself.
pub proof fn lemma_childless_has_nothing_under(
    nodes: Seq<NodeView>,
    depth: Seq<nat>,
    x: int,
    c: usize,
)
    requires
        forall|j: int| 0 <= j < nodes.len() ==> nodes[j].parent_id != Some(c),
        x != c,
    ensures
        !is_under(nodes, depth, x, c as int),
    decreases depth[x],
{
    if 0 <= x < nodes.len() {
        if let Some(p) = nodes[x].parent_id {
            if depth[p as int] < depth[x] {
                lemma_childless_has_nothing_under(nodes, depth, p as int, c);
            }
        }
    }
}

/// The record at which the `k`-th copy stands.
pub open spec fn copy_at(fin: TreeModel, limit: int, k: int) -> NodeView {
    fin.nodes[limit + k]
}

/// `c` has the name and icon of `o` and is a live, untagged view created at
/// `now`.
pub open spec fn fields_copied(o: NodeView, c: NodeView, now: u64) -> bool {
    &&& c.kind == Kind::View
    &&& c.name == o.name
    &&& c.icon == o.icon
    &&& c.status == Status::Live
    &&& !c.is_favorite
    &&& c.created_at == now
}

/// The first `n` children of `o` have their copies, in the same order, as
/// the children of `c`; `c` has no other children.
pub open spec fn children_copied(o: NodeView, c: NodeView, q: Seq<usize>, limit: int, n: int) -> bool {
    &&& c.ordered_children.len() == n
    &&& forall|i: int|
        0 <= i < n ==> limit <= (#[trigger] c.ordered_children[i]) < limit + q.len() && q[c.ordered_children[i]
            - limit] == o.ordered_children[i]
}

/// How many children of the `k`-th queued node have been copied when `done`
/// queued nodes are finished and `partial` children of the next one.
pub open spec fn copied_count(pre: TreeModel, q: Seq<usize>, k: int, done: int, partial: int) -> int {
    if k < done {
        pre.nodes[q[k] as int].ordered_children.len() as int
    } else if k == done {
        partial
    } else {
        0
    }
}

/// `q` lists nodes of `pre`, and the node `limit + k` of `fin` is the
/// copy of `q[k]`: it has its name and icon, and its children are the
/// copies of the children of `q[k]`, as far as `done` and `partial` say.
pub open spec fn copied(
    pre: TreeModel,
    fin: TreeModel,
    limit: int,
    q: Seq<usize>,
    done: int,
    partial: int,
    now: u64,
) -> bool {
    &&& fin.nodes.len() == limit + q.len()
    &&& forall|k: int|
        0 <= k < q.len() ==> {
            &&& (#[trigger] q[k] as int) < limit
            &&& fields_copied(pre.nodes[q[k] as int], copy_at(fin, limit, k), now)
            &&& children_copied(
                pre.nodes[q[k] as int],
                copy_at(fin, limit, k),
                q,
                limit,
                copied_count(pre, q, k, done, partial),
            )
        }
}

/// One more child copied: the queue grows by the child, the table by its
/// copy.
pub proof fn lemma_copied_step(
    pre: TreeModel,
    cur: TreeModel,
    limit: int,
    q: Seq<usize>,
    done: int,
    partial: int,
    now: u64,
    c: usize,
)
    requires
        copied(pre, cur, limit, q, done, partial, now),
        0 <= done < q.len(),
        0 <= limit,
        limit + q.len() <= usize::MAX,
        (c as int) < limit,
        0 <= partial < pre.nodes[q[done] as int].ordered_children.len(),
        c == pre.nodes[q[done] as int].ordered_children[partial],
    ensures
        copied(
            pre,
            cur.created(
                (limit + done) as usize,
                pre.nodes[c as int].name,
                pre.nodes[c as int].icon,
                None,
                now,
            ),
            limit,
            q.push(c),
            done,
            partial + 1,
            now,
        ),
{
    let to = (limit + done) as usize;
    let fin = cur.created(to, pre.nodes[c as int].name, pre.nodes[c as int].icon, None, now);
    let q2 = q.push(c);
    assert forall|k: int| 0 <= k < q2.len() implies {
        &&& (#[trigger] q2[k] as int) < limit
        &&& fields_copied(pre.nodes[q2[k] as int], copy_at(fin, limit, k), now)
        &&& children_copied(
            pre.nodes[q2[k] as int],
            copy_at(fin, limit, k),
            q2,
            limit,
            copied_count(pre, q2, k, done, partial + 1),
        )
    } by {
        if k < q.len() {
            assert(q2[k] == q[k]);
            let o = pre.nodes[q[k] as int];
            let before = copy_at(cur, limit, k);
            let after = copy_at(fin, limit, k);
            assert(children_copied(o, before, q, limit, copied_count(pre, q, k, done, partial)));
            if k == done {
                assert(after.ordered_children == before.ordered_children.push(
                    (limit + q.len()) as usize,
                ));
                assert forall|i: int| 0 <= i < partial + 1 implies limit <= (
                #[trigger] after.ordered_children[i]) < limit + q2.len() && q2[after.ordered_children[i]
                    - limit] == o.ordered_children[i] by {
                    if i < partial {
                        assert(after.ordered_children[i] == before.ordered_children[i]);
                    }
                }
            } else {
                assert(after == before);
                assert forall|i: int|
                    0 <= i < copied_count(pre, q, k, done, partial) implies limit <= (
                #[trigger] after.ordered_children[i]) < limit + q2.len() && q2[after.ordered_children[i]
                    - limit] == o.ordered_children[i] by {
                    assert(before.ordered_children[i] == after.ordered_children[i]);
                }
            }
        }
    }
}

/// What the queue of nodes to copy satisfies while a subtree is copied: its
/// entries are distinct nodes under `id`, and each but the first is a child
/// of an earlier entry.
pub open spec fn queue_ok(
    t: TreeModel,
    depth: Seq<nat>,
    id: usize,
    q: Seq<usize>,
    pi: Seq<int>,
    head: int,
    start: int,
) -> bool {
    &&& q.len() > 0
    &&& q[0] == id
    &&& pi.len() == q.len()
    &&& q.no_duplicates()
    &&& forall|k: int| 0 <= k < q.len() ==> is_under(t.nodes, depth, #[trigger] q[k] as int, id as int)
    &&& forall|k: int|
        0 < k < q.len() ==> 0 <= #[trigger] pi[k] <= head && pi[k] < k && t.child_link(
            q[pi[k]],
            q[k],
        ) && (k < start ==> pi[k] < head)
}

/// `q` lists exactly the nodes that are copied, each once: the first is
/// `id`, every other one is a live child of the earlier entry `q[pi[k]]`,
/// and every child of an entry is an entry. The copy of an entry names the
/// copy of that earlier entry as its parent.
pub open spec fn subtree_queue(
    pre: TreeModel,
    fin: TreeModel,
    limit: int,
    id: usize,
    q: Seq<usize>,
    pi: Seq<int>,
) -> bool {
    &&& q.len() > 0
    &&& q[0] == id
    &&& pi.len() == q.len()
    &&& q.no_duplicates()
    &&& forall|k: int|
        0 < k < q.len() ==> 0 <= #[trigger] pi[k] < k && pre.child_link(q[pi[k]], q[k])
            && copy_at(fin, limit, k).parent_id == Some((limit + pi[k]) as usize)
    &&& forall|k: int, i: int|
        0 <= k < q.len() && 0 <= i < pre.nodes[q[k] as int].ordered_children.len() ==> q.contains(
            #[trigger] pre.nodes[q[k] as int].ordered_children[i],
        )
}

/// A child of the entry at `head` that is new among the children copied in
/// this round is new to the whole queue.
pub proof fn lemma_queue_step(
    t: TreeModel,
    depth: Seq<nat>,
    id: usize,
    q: Seq<usize>,
    pi: Seq<int>,
    head: int,
    start: int,
    c: usize,
)
    requires
        t.wf(depth),
        t.is_live_view(id),
        queue_ok(t, depth, id, q, pi, head, start),
        0 <= head < start <= q.len(),
        forall|k: int| 0 <= k < q.len() ==> (#[trigger] q[k] as int) < t.nodes.len(),
        t.nodes[q[head] as int].ordered_children.contains(c),
        forall|k: int| start <= k < q.len() ==> #[trigger] q[k] != c,
    ensures
        queue_ok(t, depth, id, q.push(c), pi.push(head), head, start),
        (c as int) < t.nodes.len(),
        !q.contains(c),
{
    let from = q[head];
    assert(t.nodes[from as int].ordered_children.contains(c) <==> t.child_link(from, c));
    assert(t.node_ok(depth, c as int));
    assert(is_under(t.nodes, depth, from as int, id as int));
    if c == id {
        lemma_under_is_deeper(t, depth, from, id);
    }
    assert forall|k: int| 0 <= k < q.len() implies #[trigger] q[k] != c by {
        if k == 0 {
        } else if k < start {
            assert(t.child_link(q[pi[k]], q[k]));
            if q[k] == c {
                assert(q[pi[k]] == q[head]);
            }
        }
    }
    let q2 = q.push(c);
    let pi2 = pi.push(head);
    assert forall|k: int| 0 < k < q2.len() implies 0 <= #[trigger] pi2[k] <= head && pi2[k]
        < k && t.child_link(q2[pi2[k]], q2[k]) && (k < start ==> pi2[k] < head) by {
        if k < q.len() {
            assert(pi2[k] == pi[k]);
            assert(q2[k] == q[k]);
        }
    }
    assert forall|k: int| 0 <= k < q2.len() implies is_under(
        t.nodes,
        depth,
        #[trigger] q2[k] as int,
        id as int,
    ) by {
        if k < q.len() {
            assert(q2[k] == q[k]);
        }
    }
}

impl TreeModel {
    /// The tree after the live orphan `copy` became the sibling that
    /// follows `id`; where `id` has no parent, the tree itself.
    pub open spec fn with_sibling_after(self, id: usize, copy: usize) -> TreeModel {
        match self.nodes[id as int].parent_id {
            Some(p) => {
                let kids = self.nodes[p as int].ordered_children;
                self.attached(copy, p, Some((kids.index_of(id) + 1) as usize))
            },
            None => self,
        }
    }

    /// The record with which the copy of `id` starts: the name and icon of
    /// `id`, no parent, no children, live and untagged.
    pub open spec fn copy_record(self, id: usize, now: u64) -> NodeView {
        fresh_node(Kind::View, self.nodes[id as int].name, self.nodes[id as int].icon, None, now)
    }
}

impl FolderEngine {
    /// Copies the subtree of the live view `id` under fresh identifiers and
    /// makes the copy the sibling that follows `id`. Returns the identifier
    /// of the copy's root. Fails with `NotFound`, changing nothing, where
    /// `id` names no live view.
    ///
    /// Every node that existed before keeps its record, but for the parent,
    /// which gains the copy as a child. The copies stand behind the old
    /// table in the order in which the copied nodes were reached: the root
    /// first, then level by level. Each copy has the name and icon of the
    /// node it copies, and its children are the copies of that node's
    /// children, in the same order. Trashed children are not copied.
    pub fn duplicate_view(&mut self, id: usize, now: u64) -> (r: Result<usize, FolderError>)
        requires
            old(self).wf(),
        ensures
            final(self).wf(),
            final(self).current_view == old(self).current_view,
            final(self).open_workspace == old(self).open_workspace,
            final(self).retention == old(self).retention,
            match r {
                Ok(copy) => {
                    let base = old(self).tree().with_node(
                        old(self).tree().copy_record(id, now),
                    ).with_sibling_after(id, copy);
                    &&& old(self).tree().is_live_view(id)
                    &&& copy == old(self).nodes@.len()
                    &&& final(self).tree().trash == old(self).tree().trash
                    &&& final(self).tree().favorites == old(self).tree().favorites
                    &&& forall|j: int|
                        0 <= j < copy ==> #[trigger] final(self).tree().nodes[j] == base.nodes[j]
                    &&& final(self).tree().nodes[copy as int].parent_id == old(self).tree().nodes[id as int].parent_id
                    &&& final(self).histories@.len() == final(self).nodes@.len()
                    &&& final(self).histories@.subrange(0, copy as int) == old(self).histories@
                    &&& exists|q: Seq<usize>, pi: Seq<int>|
                        final(self).nodes@.len() == copy + q.len() && #[trigger] subtree_queue(
                            old(self).tree(),
                            final(self).tree(),
                            copy as int,
                            id,
                            q,
                            pi,
                        ) && copied(
                            old(self).tree(),
                            final(self).tree(),
                            copy as int,
                            q,
                            q.len() as int,
                            0,
                            now,
                        )
                },
                Err(e) => e == FolderError::NotFound && !old(self).tree().is_live_view(id)
                    && *final(self) == *old(self),
            },
    {
        if !(self.is_live(id) && self.nodes[id].kind == Kind::View) {
            return Err(FolderError::NotFound);
        }
        let limit: usize = self.nodes.len();
        let name = self.nodes[id].name.clone();
        let icon = copy_text(&self.nodes[id].icon);
        let parent: Option<usize> = self.nodes[id].parent_id;
        let ghost t0 = self.tree();
        let ghost d0 = self.depth@;
        proof {
            assert(t0.node_ok(d0, id as int));
        }
        let copy: usize = self.create_orphan_view(name, icon, now);
        match parent {
            Some(p) => {
                let count: usize = self.nodes[p].ordered_children.len();
                let position: Option<usize> = match index_of_id(
                    &self.nodes[p].ordered_children,
                    id,
                ) {
                    Some(k) => if k < count { Some(k + 1) } else { None },
                    None => None,
                };
                proof {
                    assert(t0.node_ok(d0, p as int));
                    assert(t0.nodes[p as int].ordered_children.contains(id) <==> t0.child_link(
                        p,
                        id,
                    ));
                    assert(self.tree().nodes[p as int].ordered_children
                        == t0.nodes[p as int].ordered_children);
                    assert forall|j: int| 0 <= j < self.tree().nodes.len() implies self.tree().nodes[j].parent_id
                        != Some(copy) by {
                        if j < t0.nodes.len() {
                            assert(t0.node_ok(d0, j));
                        }
                    }
                    lemma_childless_has_nothing_under(
                        self.tree().nodes,
                        self.depth@,
                        p as int,
                        copy,
                    );
                }
                self.attach(copy, p, position);
            },
            None => {},
        }
        let ghost base = self.tree();
        let mut queue: Vec<usize> = Vec::new();
        queue.push(id);
        let ghost mut pi: Seq<int> = Seq::empty().push(0int);
        let mut head: usize = 0;
        proof {
            assert(queue@[0] == id);
            assert(copy_at(base, limit as int, 0) == base.nodes[limit as int]);
            assert(copied(t0, base, limit as int, queue@, 0, 0, now));
            assert(queue_ok(t0, d0, id, queue@, pi, 0, 1));
        }
        while head < queue.len()
            invariant
                self.wf(),
                old(self).wf(),
                self.current_view == old(self).current_view,
                self.open_workspace == old(self).open_workspace,
                self.retention == old(self).retention,
                self.tree().trash == t0.trash,
                self.tree().favorites == t0.favorites,
                t0 == old(self).tree(),
                d0 == old(self).depth@,
                t0.is_live_view(id),
                limit == t0.nodes.len(),
                copy == limit,
                self.histories@.len() >= limit,
                self.histories@.subrange(0, limit as int) == old(self).histories@,
                forall|k: int|
                    0 < k < queue@.len() ==> copy_at(self.tree(), limit as int, k).parent_id
                        == Some((limit + #[trigger] pi[k]) as usize),
                base.nodes.len() == limit + 1,
                head <= queue@.len(),
                forall|j: int| 0 <= j < limit ==> #[trigger] self.tree().nodes[j] == base.nodes[j],
                forall|j: int|
                    0 <= j < limit && t0.nodes[id as int].parent_id != Some(j as usize)
                        ==> #[trigger] base.nodes[j] == t0.nodes[j],
                self.tree().nodes[copy as int].parent_id == t0.nodes[id as int].parent_id,
                copied(t0, self.tree(), limit as int, queue@, head as int, 0, now),
                queue_ok(t0, d0, id, queue@, pi, head as int, queue@.len() as int),
            decreases limit - head,
        {
            proof {
                lemma_distinct_below(queue@, limit as nat);
                lemma_no_cycle(t0, d0, id);
            }
            let from: usize = queue[head];
            let total: usize = self.nodes.len();
            proof {
                assert(self.tree().nodes.len() == total);
                assert(is_under(t0.nodes, d0, from as int, id as int));
                assert(t0.node_ok(d0, from as int));
                assert(t0.nodes[id as int].parent_id != Some(from));
                assert(base.nodes[from as int] == t0.nodes[from as int]);
                assert(self.tree().nodes[from as int] == t0.nodes[from as int]);
            }
            let to: usize = limit + head;
            let kids: Vec<usize> = copy_ids(&self.nodes[from].ordered_children);
            let ghost start = queue@.len() as int;
            let mut i: usize = 0;
            while i < kids.len()
                invariant
                    self.wf(),
                    old(self).wf(),
                    self.current_view == old(self).current_view,
                    self.open_workspace == old(self).open_workspace,
                    self.retention == old(self).retention,
                    self.tree().trash == t0.trash,
                    self.tree().favorites == t0.favorites,
                    t0 == old(self).tree(),
                    d0 == old(self).depth@,
                    t0.is_live_view(id),
                    limit == t0.nodes.len(),
                    copy == limit,
                    self.histories@.len() >= limit,
                    self.histories@.subrange(0, limit as int) == old(self).histories@,
                    forall|k: int|
                        0 < k < queue@.len() ==> copy_at(self.tree(), limit as int, k).parent_id
                            == Some((limit + #[trigger] pi[k]) as usize),
                    base.nodes.len() == limit + 1,
                    head < start,
                    queue@.len() == start + i,
                    i <= kids@.len(),
                    from == queue@[head as int],
                    to == limit + head,
                    kids@ == t0.nodes[from as int].ordered_children,
                    kids@.no_duplicates(),
                    forall|n: int| 0 <= n < i ==> #[trigger] queue@[start + n] == kids@[n],
                    forall|j: int|
                        0 <= j < limit ==> #[trigger] self.tree().nodes[j] == base.nodes[j],
                    forall|j: int|
                        0 <= j < limit && t0.nodes[id as int].parent_id != Some(j as usize)
                            ==> #[trigger] base.nodes[j] == t0.nodes[j],
                    self.tree().nodes[copy as int].parent_id == t0.nodes[id as int].parent_id,
                    copied(t0, self.tree(), limit as int, queue@, head as int, i as int, now),
                    queue_ok(t0, d0, id, queue@, pi, head as int, start),
                decreases kids@.len() - i,
            {
                let c: usize = kids[i];
                let ghost cur = self.tree();
                let total: usize = self.nodes.len();
                proof {
                    assert(cur.nodes.len() == total);
                    assert forall|k: int| start <= k < queue@.len() implies #[trigger] queue@[k]
                        != c by {
                        assert(queue@[start + (k - start)] == kids@[k - start]);
                    }
                    assert(kids@.contains(c));
                    lemma_queue_step(t0, d0, id, queue@, pi, head as int, start, c);
                    lemma_copied_step(t0, cur, limit as int, queue@, head as int, i as int, now, c);
                    let q2 = queue@.push(c);
                    assert(is_under(t0.nodes, d0, q2[q2.len() - 1] as int, id as int));
                    lemma_no_cycle(t0, d0, id);
                    assert(t0.nodes[id as int].parent_id != Some(c));
                    assert(base.nodes[c as int] == t0.nodes[c as int]);
                    assert(cur.nodes[c as int] == t0.nodes[c as int]);
                    assert(copy_at(cur, limit as int, head as int).status == Status::Live);
                }
                let child_name = self.nodes[c].name.clone();
                let child_icon = copy_text(&self.nodes[c].icon);
                match self.create_view(to, child_name, None, child_icon, now) {
                    Ok(_) => {
                        let ghost pi0 = pi;
                        queue.push(c);
                        proof {
                            pi = pi.push(head as int);
                            assert(self.histories@.subrange(0, limit as int)
                                =~= self.histories@.subrange(0, cur.nodes.len() as int).subrange(
                                0,
                                limit as int,
                            ));
                            assert forall|k: int| 0 < k < queue@.len() implies copy_at(
                                self.tree(),
                                limit as int,
                                k,
                            ).parent_id == Some((limit + #[trigger] pi[k]) as usize) by {
                                if k < pi0.len() {
                                    assert(pi[k] == pi0[k]);
                                    assert(copy_at(self.tree(), limit as int, k).parent_id
                                        == copy_at(cur, limit as int, k).parent_id);
                                }
                            }
                        }
                    },
                    Err(_) => {
                        // The copy that receives the child is live, so
                        // the creation cannot fail.
                        proof {
                            assert(false);
                        }
                    },
                }
                i += 1;
            }
            head += 1;
        }
        proof {
            let q = queue@;
            let fin = self.tree();
            assert forall|k: int, i: int|
                0 <= k < q.len() && 0 <= i < t0.nodes[q[k] as int].ordered_children.len() implies q.contains(
                #[trigger] t0.nodes[q[k] as int].ordered_children[i],
            ) by {
                let o = t0.nodes[q[k] as int];
                let c = copy_at(fin, limit as int, k);
                assert(children_copied(o, c, q, limit as int, o.ordered_children.len() as int));
                let at = c.ordered_children[i] - limit;
                assert(q[at] == o.ordered_children[i]);
            }
            assert(subtree_queue(t0, fin, limit as int, id, q, pi));
        }
        Ok(copy)
    }
}

} // verus!
