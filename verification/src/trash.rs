//! Soft deletion: the trash ledger, restoring and purging.

use vstd::prelude::*;
use crate::engine::FolderEngine;
use crate::ids::{lemma_remove_at, remove_id};
use crate::laws::{
    lemma_purged_each, lemma_purged_gone, lemma_purged_wf, lemma_restore_target_clear,
    lemma_restored_all, lemma_restored_attached, lemma_restored_wf, lemma_trashed_wf,
    lemma_untrashed_wf,
};
use crate::model::{FolderError, Kind, NodeView, Status, TreeModel};
use crate::node::{Node, TrashEntry};

verus! {

impl TreeModel {
    /// The tree after each identifier of `ids`, in order, went to the trash
    /// where it named a live view and was passed over where it did not.
    pub open spec fn trashed_each(self, ids: Seq<usize>, now: u64) -> TreeModel
        decreases ids.len(),
    {
        if ids.len() == 0 {
            self
        } else {
            let next = if self.is_live_view(ids[0]) {
                self.trashed(ids[0], now)
            } else {
                self
            };
            next.trashed_each(ids.drop_first(), now)
        }
    }

    /// The tree after each identifier of `ids`, in order, was purged where
    /// it named a trashed view and was passed over where it did not.
    pub open spec fn purged_each(self, ids: Seq<usize>) -> TreeModel
        decreases ids.len(),
    {
        if ids.len() == 0 {
            self
        } else {
            let next = if self.is_trashed(ids[0]) {
                self.purged(ids[0])
            } else {
                self
            };
            next.purged_each(ids.drop_first())
        }
    }

    /// The tree after every entry of the trash, oldest first, was restored.
    pub open spec fn restored_all(self, root: Option<usize>) -> TreeModel
        decreases self.trash.len(),
    {
        if self.trash.len() == 0 {
            self
        } else {
            let next = self.restored(self.trash[0], root);
            if next.trash.len() < self.trash.len() {
                next.restored_all(root)
            } else {
                self
            }
        }
    }
}

/// The active view after the tree became `t`: kept while it is present.
pub open spec fn surviving(current: Option<usize>, t: TreeModel) -> Option<usize> {
    match current {
        Some(v) => if t.is_present(v) { Some(v) } else { None },
        None => None,
    }
}

impl FolderEngine {
    /// Sends the live view `id` to the trash: it leaves its parent's
    /// children, keeps its parent link and its own children, and enters the
    /// ledger with the time `now`. Fails with `NotFound`, changing nothing,
    /// where `id` names no live view.
    pub fn trash(&mut self, id: usize, now: u64) -> (r: Result<(), FolderError>)
        requires
            old(self).wf(),
        ensures
            final(self).wf(),
            final(self).same_session(old(self)),
            match r {
                Ok(_) => old(self).tree().is_live_view(id) && final(self).tree() == old(self).tree().trashed(id, now),
                Err(e) => e == FolderError::NotFound && !old(self).tree().is_live_view(id)
                    && *final(self) == *old(self),
            },
    {
        if !(self.is_live(id) && self.nodes[id].kind == Kind::View) {
            return Err(FolderError::NotFound);
        }
        proof {
            lemma_trashed_wf(self.tree(), self.depth@, id, now);
            assert(self.tree().node_ok(self.depth@, id as int));
        }
        match self.nodes[id].parent_id {
            Some(p) => {
                proof {
                    assert(self.tree().node_ok(self.depth@, p as int));
                }
                remove_id(&mut self.nodes[p].ordered_children, id);
            },
            None => {},
        }
        self.nodes[id].status = Status::Trashed;
        self.nodes[id].trashed_at = now;
        self.trash.push(id);
        proof {
            assert(self.tree().nodes =~= old(self).tree().trashed(id, now).nodes);
        }
        Ok(())
    }

    /// Brings the trashed view `id` back: below its recorded parent while
    /// that is live, else below the open workspace, which stands for the
    /// workspace root; always at the end of the children. The fallback
    /// needs an open workspace: with none open the view comes back live
    /// without a parent. Fails with `NotFound`, changing nothing, where
    /// `id` is not in the trash.
    pub fn restore(&mut self, id: usize) -> (r: Result<(), FolderError>)
        requires
            old(self).wf(),
        ensures
            final(self).wf(),
            final(self).same_session(old(self)),
            match r {
                Ok(_) => {
                    let target = old(self).tree().restore_target(id, old(self).open_workspace);
                    &&& old(self).tree().is_trashed(id)
                    &&& final(self).tree() == old(self).tree().restored(
                        id,
                        old(self).open_workspace,
                    )
                    &&& final(self).tree().is_live_view(id)
                    &&& !final(self).tree().trash.contains(id)
                    &&& final(self).tree().nodes[id as int].parent_id == target
                    &&& (target is None <==> (old(self).open_workspace is None && match old(
                        self).tree().nodes[id as int].parent_id {
                        Some(p) => !old(self).tree().is_live(p),
                        None => true,
                    }))
                    &&& (target matches Some(t) ==> final(
                        self).tree().nodes[t as int].ordered_children == old(
                        self).tree().nodes[t as int].ordered_children.push(id))
                },
                Err(e) => e == FolderError::NotFound && !old(self).tree().is_trashed(id)
                    && *final(self) == *old(self),
            },
    {
        if !(id < self.nodes.len() && self.nodes[id].status == Status::Trashed) {
            return Err(FolderError::NotFound);
        }
        let root: Option<usize> = self.open_workspace;
        let target: Option<usize> = match self.nodes[id].parent_id {
            Some(p) => {
                proof {
                    assert(self.tree().node_ok(self.depth@, id as int));
                }
                if self.nodes[p].status == Status::Live {
                    Some(p)
                } else {
                    root
                }
            },
            None => root,
        };
        proof {
            assert(target == self.tree().restore_target(id, root));
            lemma_untrashed_wf(self.tree(), self.depth@, id);
            lemma_restore_target_clear(self.tree(), self.depth@, id, root);
            lemma_restored_attached(self.tree(), self.depth@, id, root);
            lemma_restored_wf(self.tree(), self.depth@, id, root);
        }
        remove_id(&mut self.trash, id);
        self.nodes[id].status = Status::Live;
        self.nodes[id].parent_id = None;
        proof {
            assert(self.tree().nodes =~= old(self).tree().untrashed(id).nodes);
            assert(self.tree() == old(self).tree().untrashed(id));
        }
        match target {
            Some(t) => {
                self.attach(id, t, None);
            },
            None => {},
        }
        Ok(())
    }

    /// Removes the trashed view `id` for good: every node that named it as
    /// parent becomes an orphan, it leaves the trash and the favorites, and
    /// it stops being the active view. Fails with `NotFound`, changing
    /// nothing, where `id` is not in the trash.
    pub fn purge(&mut self, id: usize) -> (r: Result<(), FolderError>)
        requires
            old(self).wf(),
        ensures
            final(self).wf(),
            final(self).open_workspace == old(self).open_workspace,
            final(self).histories@ == old(self).histories@,
            final(self).retention == old(self).retention,
            match r {
                Ok(_) => {
                    &&& old(self).tree().is_trashed(id)
                    &&& final(self).tree() == old(self).tree().purged(id)
                    &&& !final(self).tree().is_present(id)
                    &&& !final(self).tree().trash.contains(id)
                    &&& !final(self).tree().favorites.contains(id)
                    &&& forall|p: usize|
                        (p as int) < old(self).nodes@.len() ==> !(
                        #[trigger] final(self).tree().nodes[p as int].ordered_children.contains(id))
                    &&& forall|x: int|
                        0 <= x < old(self).nodes@.len() && x != id ==> (
                        #[trigger] final(self).tree().nodes[x]).status == old(
                            self).tree().nodes[x].status
                    &&& final(self).current_view == surviving(
                        old(self).current_view,
                        final(self).tree(),
                    )
                },
                Err(e) => e == FolderError::NotFound && !old(self).tree().is_trashed(id)
                    && *final(self) == *old(self),
            },
    {
        if !(id < self.nodes.len() && self.nodes[id].status == Status::Trashed) {
            return Err(FolderError::NotFound);
        }
        proof {
            lemma_purged_wf(self.tree(), self.depth@, id);
            lemma_purged_gone(self.tree(), self.depth@, id);
        }
        let n: usize = self.nodes.len();
        let mut j: usize = 0;
        while j < n
            invariant
                j <= n,
                n == self.nodes@.len(),
                n == old(self).nodes@.len(),
                forall|k: int|
                    0 <= k < n ==> (#[trigger] self.nodes@[k])@ == if k < j && old(self).nodes@[k].parent_id == Some(id) {
                        NodeView { parent_id: None, ..old(self).nodes@[k]@ }
                    } else {
                        old(self).nodes@[k]@
                    },
                self.trash == old(self).trash,
                self.favorites == old(self).favorites,
                self.current_view == old(self).current_view,
                self.open_workspace == old(self).open_workspace,
                self.histories == old(self).histories,
                self.retention == old(self).retention,
                self.depth == old(self).depth,
            decreases n - j,
        {
            let points_here: bool = match self.nodes[j].parent_id {
                Some(p) => p == id,
                None => false,
            };
            if points_here {
                self.nodes[j].parent_id = None;
            }
            j += 1;
        }
        self.nodes[id] = Node::tombstone();
        proof {
            assert(old(self).tree().node_ok(old(self).depth@, id as int));
        }
        remove_id(&mut self.trash, id);
        proof {
            assert(old(self).tree().favorites.no_duplicates());
        }
        remove_id(&mut self.favorites, id);
        match self.current_view {
            Some(v) => {
                if v == id {
                    self.current_view = None;
                }
            },
            None => {},
        }
        proof {
            assert(self.tree().nodes =~= old(self).tree().purged(id).nodes);
        }
        Ok(())
    }

    /// Restores every entry of the trash, oldest first.
    pub fn restore_all(&mut self)
        requires
            old(self).wf(),
        ensures
            final(self).wf(),
            final(self).same_session(old(self)),
            final(self).tree() == old(self).tree().restored_all(old(self).open_workspace),
            final(self).tree().trash.len() == 0,
            final(self).nodes@.len() == old(self).nodes@.len(),
            forall|x: usize|
                (x as int) < old(self).nodes@.len() ==> (
                #[trigger] final(self).tree().nodes[x as int]).status == if old(
                    self).tree().is_trashed(x) {
                    Status::Live
                } else {
                    old(self).tree().nodes[x as int].status
                },
    {
        proof {
            lemma_restored_all(self.tree(), self.depth@, self.open_workspace);
        }
        while self.trash.len() > 0
            invariant
                self.wf(),
                self.same_session(old(self)),
                self.tree().restored_all(self.open_workspace) == old(self).tree().restored_all(
                    old(self).open_workspace,
                ),
            decreases self.trash@.len(),
        {
            let id: usize = self.trash[0];
            proof {
                assert(self.tree().trash.contains(id));
                lemma_restored_wf(self.tree(), self.depth@, id, self.open_workspace);
                lemma_remove_at(self.trash@, 0);
            }
            let _ = self.restore(id);
        }
    }

    /// Purges every entry of the trash, oldest first.
    pub fn delete_all(&mut self)
        requires
            old(self).wf(),
        ensures
            final(self).wf(),
            final(self).open_workspace == old(self).open_workspace,
            final(self).histories@ == old(self).histories@,
            final(self).retention == old(self).retention,
            final(self).tree() == old(self).tree().purged_each(old(self).tree().trash),
            final(self).current_view == surviving(old(self).current_view, final(self).tree()),
            final(self).tree().trash.len() == 0,
            final(self).nodes@.len() == old(self).nodes@.len(),
            forall|x: usize|
                (x as int) < old(self).nodes@.len() ==> (#[trigger] final(self).tree().is_present(x)
                    <==> old(self).tree().is_live(x)),
            forall|x: int|
                0 <= x < old(self).nodes@.len() && (#[trigger] final(self).tree().nodes[x]).status
                    != Status::Purged ==> final(self).tree().nodes[x].status == old(
                    self).tree().nodes[x].status,
    {
        proof {
            lemma_purged_each(self.tree(), self.depth@, self.trash@);
            assert forall|x: usize| (x as int) < self.nodes@.len() implies (self.tree().is_trashed(x)
                && self.trash@.contains(x)) == self.tree().is_trashed(x) by {
                assert(self.tree().trash.contains(x) <==> self.tree().is_trashed(x));
            }
        }
        let ghost all = self.trash@;
        while self.trash.len() > 0
            invariant
                self.wf(),
                self.open_workspace == old(self).open_workspace,
                self.histories@ == old(self).histories@,
                self.retention == old(self).retention,
                self.tree().purged_each(self.trash@) == old(self).tree().purged_each(all),
                self.current_view == surviving(old(self).current_view, self.tree()),
                forall|v: usize| self.tree().is_present(v) ==> old(self).tree().is_present(v),
                self.nodes@.len() == old(self).nodes@.len(),
            decreases self.trash@.len(),
        {
            let id: usize = self.trash[0];
            proof {
                assert(self.tree().trash.contains(id));
                lemma_remove_at(self.trash@, 0);
                assert(self.trash@.remove(0) =~= self.trash@.drop_first());
            }
            let _ = self.purge(id);
        }
    }

    /// Sends each of `ids` to the trash. An identifier that names no live
    /// view is passed over: the call succeeds whatever the identifiers are.
    pub fn delete_views(&mut self, ids: &Vec<usize>, now: u64) -> (r: Result<(), FolderError>)
        requires
            old(self).wf(),
        ensures
            final(self).wf(),
            final(self).same_session(old(self)),
            r is Ok,
            final(self).tree() == old(self).tree().trashed_each(ids@, now),
    {
        let mut i: usize = 0;
        proof {
            assert(ids@.subrange(0, ids@.len() as int) =~= ids@);
        }
        while i < ids.len()
            invariant
                i <= ids@.len(),
                self.wf(),
                self.same_session(old(self)),
                self.tree().trashed_each(ids@.subrange(i as int, ids@.len() as int), now) == old(self).tree().trashed_each(ids@, now),
            decreases ids@.len() - i,
        {
            proof {
                let rest = ids@.subrange(i as int, ids@.len() as int);
                assert(rest[0] == ids@[i as int]);
                assert(rest.drop_first() =~= ids@.subrange(i + 1, ids@.len() as int));
            }
            let _ = self.trash(ids[i], now);
            i += 1;
        }
        Ok(())
    }

    /// Purges each of `ids`. An identifier that is not in the trash is
    /// passed over: the call succeeds whatever the identifiers are.
    pub fn delete_trash(&mut self, ids: &Vec<usize>) -> (r: Result<(), FolderError>)
        requires
            old(self).wf(),
        ensures
            final(self).wf(),
            final(self).open_workspace == old(self).open_workspace,
            final(self).histories@ == old(self).histories@,
            final(self).retention == old(self).retention,
            r is Ok,
            final(self).tree() == old(self).tree().purged_each(ids@),
            final(self).current_view == surviving(old(self).current_view, final(self).tree()),
            final(self).nodes@.len() == old(self).nodes@.len(),
            forall|x: usize|
                (x as int) < old(self).nodes@.len() ==> (#[trigger] final(self).tree().is_present(x)
                    <==> (old(self).tree().is_present(x) && !(old(self).tree().is_trashed(x)
                    && ids@.contains(x)))),
            forall|x: int|
                0 <= x < old(self).nodes@.len() && (#[trigger] final(self).tree().nodes[x]).status
                    != Status::Purged ==> final(self).tree().nodes[x].status == old(
                    self).tree().nodes[x].status,
    {
        proof {
            lemma_purged_each(self.tree(), self.depth@, ids@);
        }
        let mut i: usize = 0;
        proof {
            assert(ids@.subrange(0, ids@.len() as int) =~= ids@);
        }
        while i < ids.len()
            invariant
                i <= ids@.len(),
                self.wf(),
                self.open_workspace == old(self).open_workspace,
                self.histories@ == old(self).histories@,
                self.retention == old(self).retention,
                self.tree().purged_each(ids@.subrange(i as int, ids@.len() as int)) == old(self).tree().purged_each(ids@),
                self.current_view == surviving(old(self).current_view, self.tree()),
                forall|v: usize| self.tree().is_present(v) ==> old(self).tree().is_present(v),
                self.nodes@.len() == old(self).nodes@.len(),
            decreases ids@.len() - i,
        {
            proof {
                let rest = ids@.subrange(i as int, ids@.len() as int);
                assert(rest[0] == ids@[i as int]);
                assert(rest.drop_first() =~= ids@.subrange(i + 1, ids@.len() as int));
            }
            let _ = self.purge(ids[i]);
            i += 1;
        }
        Ok(())
    }

    /// The trash ledger, oldest entry first.
    pub fn list_trash(&self) -> (r: Vec<TrashEntry>)
        requires
            self.wf(),
        ensures
            r@.len() == self.tree().trash.len(),
            forall|k: int|
                0 <= k < r@.len() ==> #[trigger] r@[k] == (TrashEntry {
                    id: self.tree().trash[k],
                    trashed_at: self.tree().nodes[self.tree().trash[k] as int].trashed_at,
                }),
    {
        let mut out: Vec<TrashEntry> = Vec::new();
        let mut i: usize = 0;
        while i < self.trash.len()
            invariant
                self.wf(),
                i <= self.trash@.len(),
                out@.len() == i,
                forall|k: int|
                    0 <= k < i ==> #[trigger] out@[k] == (TrashEntry {
                        id: self.tree().trash[k],
                        trashed_at: self.tree().nodes[self.tree().trash[k] as int].trashed_at,
                    }),
            decreases self.trash@.len() - i,
        {
            let id: usize = self.trash[i];
            proof {
                assert(self.tree().trash.contains(id));
            }
            out.push(TrashEntry { id, trashed_at: self.nodes[id].trashed_at });
            i += 1;
        }
        out
    }
}

} // verus!
