//! Snapshot histories: capture, bounded retention, listing and restoring.

use vstd::prelude::*;
use crate::engine::FolderEngine;
use crate::ids::copy_ids;
use crate::model::{lemma_with_orphan_wf, tombstone, FolderError, Kind, TreeModel};
use crate::node::{copy_nodes, table, Node, Snapshot};
use crate::trash::surviving;

verus! {

/// What a snapshot holds, as plain mathematical values.
pub struct SnapshotView {
    pub workspace_id: usize,
    pub taken_at: u64,
    pub tree: TreeModel,
}

impl View for Snapshot {
    type V = SnapshotView;

    open spec fn view(&self) -> SnapshotView {
        SnapshotView { workspace_id: self.workspace_id, taken_at: self.taken_at, tree: self.tree() }
    }
}

/// The contents of a list of snapshots.
pub open spec fn views(h: Seq<Snapshot>) -> Seq<SnapshotView> {
    Seq::new(h.len(), |k: int| h[k]@)
}

/// The newest `bound` entries of a history kept oldest first.
pub open spec fn bounded(s: Seq<SnapshotView>, bound: nat) -> Seq<SnapshotView> {
    if s.len() > bound {
        s.subrange(s.len() - bound, s.len() as int)
    } else {
        s
    }
}

/// The entries of a history kept oldest first, taken newest first and cut
/// off after `limit` of them.
pub open spec fn newest_first(s: Seq<SnapshotView>, limit: nat) -> Seq<SnapshotView> {
    Seq::new(if limit < s.len() { limit } else { s.len() }, |k: int| s[s.len() - 1 - k])
}

impl TreeModel {
    /// The tree with tombstones added until the table has `n` entries.
    pub open spec fn padded(self, n: nat) -> TreeModel {
        TreeModel {
            nodes: Seq::new(
                if n > self.nodes.len() { n } else { self.nodes.len() },
                |i: int| if i < self.nodes.len() { self.nodes[i] } else { tombstone() },
            ),
            ..self
        }
    }
}

/// Restoring a snapshot into a table that is no longer than the snapshot's
/// gives back the captured tree itself: the same identifiers, the same
/// parents and children, the same trash and favorites.
pub proof fn lemma_round_trip(captured: TreeModel, n: nat)
    requires
        n <= captured.nodes.len(),
    ensures
        captured.padded(n) == captured,
{
    assert(captured.padded(n).nodes =~= captured.nodes);
}

/// A history after one more capture never exceeds the bound, and where the
/// bound is positive its newest entry is that capture.
pub proof fn lemma_bounded(s: Seq<SnapshotView>, x: SnapshotView, bound: nat)
    ensures
        bounded(s.push(x), bound).len() <= bound,
        bound > 0 ==> bounded(s.push(x), bound).last() == x,
        bound > 0 ==> newest_first(bounded(s.push(x), bound), bound)[0] == x,
{
}

impl FolderEngine {
    /// The history of `workspace_id`, oldest first; empty for an unknown
    /// identifier.
    pub open spec fn history(&self, workspace_id: usize) -> Seq<SnapshotView> {
        if (workspace_id as int) < self.histories@.len() {
            views(self.histories@[workspace_id as int]@)
        } else {
            Seq::empty()
        }
    }

    /// Captures the whole tree for the workspace `workspace_id` at the time
    /// `now`, appends the capture to that workspace's history and evicts the
    /// oldest entries beyond the retention bound. Fails with `NotFound`,
    /// changing nothing, where the identifier names no workspace.
    pub fn capture(&mut self, workspace_id: usize, now: u64) -> (r: Result<Snapshot, FolderError>)
        requires
            old(self).wf(),
        ensures
            final(self).wf(),
            final(self).tree() == old(self).tree(),
            final(self).depth == old(self).depth,
            final(self).current_view == old(self).current_view,
            final(self).open_workspace == old(self).open_workspace,
            final(self).retention == old(self).retention,
            match r {
                Ok(s) => {
                    &&& old(self).tree().is_workspace(workspace_id)
                    &&& s@ == (SnapshotView { workspace_id, taken_at: now, tree: old(self).tree() })
                    &&& s.wf()
                    &&& final(self).history(workspace_id) == bounded(
                        old(self).history(workspace_id).push(s@),
                        old(self).retention as nat,
                    )
                    &&& forall|w: usize|
                        w != workspace_id ==> final(self).history(w) == old(self).history(w)
                },
                Err(e) => e == FolderError::NotFound && !old(self).tree().is_workspace(
                    workspace_id,
                ) && *final(self) == *old(self),
            },
    {
        if !(workspace_id < self.nodes.len() && self.nodes[workspace_id].kind == Kind::Workspace) {
            return Err(FolderError::NotFound);
        }
        let depth: Ghost<Seq<nat>> = Ghost(self.depth@);
        let snap = Snapshot {
            workspace_id,
            taken_at: now,
            nodes: copy_nodes(&self.nodes),
            trash: copy_ids(&self.trash),
            favorites: copy_ids(&self.favorites),
            depth,
        };
        let out = snap.duplicate();
        let ghost before = self.histories@[workspace_id as int]@;
        self.histories[workspace_id].push(snap);
        if self.histories[workspace_id].len() > self.retention {
            self.histories[workspace_id].remove(0);
        }
        proof {
            let after = self.histories@[workspace_id as int]@;
            assert(views(after) =~= bounded(views(before).push(snap@), self.retention as nat));
            assert forall|w: usize| w != workspace_id implies self.history(w) == old(self).history(
                w,
            ) by {}
            assert forall|w: int, k: int|
                0 <= w < self.histories@.len() && 0 <= k < self.histories@[w]@.len() implies {
                let s = #[trigger] self.histories@[w]@[k];
                s.wf() && s.workspace_id == w
            } by {
                if w == workspace_id {
                    if after.len() == before.len() + 1 {
                        if k < before.len() {
                            assert(after[k] == before[k]);
                        }
                    } else if k + 1 < before.len() {
                        assert(after[k] == before[k + 1]);
                    }
                } else {
                    assert(self.histories@[w] == old(self).histories@[w]);
                }
            }
        }
        Ok(out)
    }

    /// The snapshots of `workspace_id`, newest first, at most `limit` of
    /// them; none where the identifier is unknown.
    pub fn list(&self, workspace_id: usize, limit: usize) -> (r: Vec<Snapshot>)
        requires
            self.wf(),
        ensures
            views(r@) == newest_first(self.history(workspace_id), limit as nat),
            !self.tree().is_workspace(workspace_id) ==> r@.len() == 0,
            forall|k: int| 0 <= k < r@.len() ==> (#[trigger] r@[k]).wf(),
            r@.len() == if limit < self.history(workspace_id).len() {
                limit as nat
            } else {
                self.history(workspace_id).len()
            },
    {
        let mut out: Vec<Snapshot> = Vec::new();
        if workspace_id >= self.histories.len() {
            assert(views(out@) =~= newest_first(self.history(workspace_id), limit as nat));
            return out;
        }
        let h = &self.histories[workspace_id];
        let n: usize = h.len();
        let mut k: usize = 0;
        proof {
            assert forall|j: int| 0 <= j < n implies (#[trigger] h@[j]).wf() by {
                assert(self.histories@[workspace_id as int]@[j].wf());
            }
        }
        while k < n && k < limit
            invariant
                n == h@.len(),
                k <= n,
                k <= limit,
                out@.len() == k,
                forall|j: int| 0 <= j < k ==> (#[trigger] out@[j])@ == h@[n - 1 - j]@,
                forall|j: int| 0 <= j < k ==> (#[trigger] out@[j]).wf(),
                forall|j: int| 0 <= j < n ==> (#[trigger] h@[j]).wf(),
            decreases n - k,
        {
            out.push(h[n - 1 - k].duplicate());
            k += 1;
        }
        assert(views(out@) =~= newest_first(views(h@), limit as nat));
        out
    }

    /// An engine that starts from the tree of `snapshot`, with no open
    /// workspace, no active view and empty histories.
    pub fn from_snapshot(snapshot: &Snapshot, retention: usize) -> (r: FolderEngine)
        requires
            snapshot.wf(),
        ensures
            r.wf(),
            r.tree() == snapshot.tree(),
            r.current_view is None,
            r.open_workspace is None,
            r.retention == retention,
            forall|w: usize| r.history(w).len() == 0,
    {
        let mut r = FolderEngine::new(retention);
        let ghost before = r;
        proof {
            assert forall|w: usize| before.history(w).len() == 0 by {
                if w == 0 {
                    assert(before.histories@[0]@.len() == 0);
                }
            }
        }
        r.restore_snapshot(snapshot);
        proof {
            lemma_round_trip(snapshot.tree(), 1);
            assert forall|w: usize| r.history(w).len() == 0 by {
                assert(before.history(w).len() == 0);
            }
        }
        r
    }

    /// Puts the tree of `snapshot` in place of the current one. Identifiers
    /// assigned after the capture stay unassigned: their records become
    /// tombstones. The active view and the open workspace are kept while
    /// the restored tree still holds them.
    pub fn restore_snapshot(&mut self, snapshot: &Snapshot)
        requires
            old(self).wf(),
            snapshot.wf(),
        ensures
            final(self).wf(),
            final(self).tree() == snapshot.tree().padded(old(self).tree().nodes.len()),
            final(self).current_view == surviving(old(self).current_view, final(self).tree()),
            final(self).open_workspace == match old(self).open_workspace {
                Some(w) => if final(self).tree().is_workspace(w) { Some(w) } else { None },
                None => None,
            },
            final(self).retention == old(self).retention,
            forall|w: usize|
                final(self).history(w) == if final(self).tree().is_workspace(w) {
                    old(self).history(w)
                } else {
                    Seq::empty()
                },
    {
        let target: usize = self.nodes.len();
        self.nodes = copy_nodes(&snapshot.nodes);
        self.trash = copy_ids(&snapshot.trash);
        self.favorites = copy_ids(&snapshot.favorites);
        proof {
            self.depth@ = snapshot.depth@;
            assert(self.tree() == snapshot.tree());
            lemma_round_trip(snapshot.tree(), self.nodes@.len() as nat);
        }
        while self.nodes.len() < target
            invariant
                self.tree().wf(self.depth@),
                self.nodes@.len() >= snapshot.nodes@.len(),
                target == old(self).nodes@.len(),
                self.nodes@.len() == snapshot.nodes@.len() || self.nodes@.len() <= target,
                self.tree() == snapshot.tree().padded(self.nodes@.len() as nat),
                self.histories == old(self).histories,
                self.current_view == old(self).current_view,
                self.open_workspace == old(self).open_workspace,
                self.retention == old(self).retention,
            decreases target - self.nodes@.len(),
        {
            let ghost before = self.tree();
            let node = Node::tombstone();
            proof {
                lemma_with_orphan_wf(self.tree(), self.depth@, node@);
            }
            self.nodes.push(node);
            proof {
                self.depth@ = self.depth@.push(0);
                assert(self.tree().nodes =~= before.with_node(node@).nodes);
                assert(self.tree().nodes =~= snapshot.tree().padded(
                    self.nodes@.len() as nat,
                ).nodes);
            }
        }
        proof {
            assert(self.tree().nodes =~= snapshot.tree().padded(
                old(self).tree().nodes.len(),
            ).nodes);
        }
        while self.histories.len() < self.nodes.len()
            invariant
                self.tree().wf(self.depth@),
                self.tree() == snapshot.tree().padded(old(self).tree().nodes.len()),
                self.histories@.len() >= old(self).histories@.len(),
                self.histories@.len() <= self.nodes@.len(),
                forall|w: int|
                    0 <= w < old(self).histories@.len() ==> #[trigger] self.histories@[w] == old(self).histories@[w],
                forall|w: int|
                    old(self).histories@.len() <= w < self.histories@.len() ==> (
                    #[trigger] self.histories@[w])@.len() == 0,
                self.current_view == old(self).current_view,
                self.open_workspace == old(self).open_workspace,
                self.retention == old(self).retention,
            decreases self.nodes@.len() - self.histories@.len(),
        {
            self.histories.push(Vec::new());
        }
        let ghost kept = self.histories@;
        let mut at: usize = 0;
        while at < self.histories.len()
            invariant
                at <= self.histories@.len(),
                self.histories@.len() == kept.len(),
                self.histories@.len() == self.nodes@.len(),
                self.tree().wf(self.depth@),
                self.tree() == snapshot.tree().padded(old(self).tree().nodes.len()),
                old(self).wf(),
                kept.len() >= old(self).histories@.len(),
                forall|w: int|
                    0 <= w < old(self).histories@.len() ==> #[trigger] kept[w] == old(self).histories@[w],
                forall|w: int|
                    old(self).histories@.len() <= w < kept.len() ==> (#[trigger] kept[w])@.len() == 0,
                forall|w: int|
                    0 <= w < kept.len() && (w >= at || self.tree().nodes[w].kind
                        == Kind::Workspace) ==> #[trigger] self.histories@[w] == kept[w],
                forall|w: int|
                    0 <= w < at && self.tree().nodes[w].kind != Kind::Workspace ==> (
                    #[trigger] self.histories@[w])@.len() == 0,
                self.current_view == old(self).current_view,
                self.open_workspace == old(self).open_workspace,
                self.retention == old(self).retention,
            decreases self.histories@.len() - at,
        {
            if self.nodes[at].kind != Kind::Workspace {
                self.histories[at] = Vec::new();
            }
            at += 1;
        }
        match self.current_view {
            Some(v) => {
                if !self.is_present(v) {
                    self.current_view = None;
                }
            },
            None => {},
        }
        match self.open_workspace {
            Some(w) => {
                if !(w < self.nodes.len() && self.nodes[w].kind == Kind::Workspace) {
                    self.open_workspace = None;
                }
            },
            None => {},
        }
        proof {
            assert forall|w: int| 0 <= w < self.histories@.len() implies (
            #[trigger] self.histories@[w])@.len() <= self.retention by {
                if self.tree().nodes[w].kind == Kind::Workspace {
                    assert(self.histories@[w] == kept[w]);
                    if w < old(self).histories@.len() {
                        assert(kept[w] == old(self).histories@[w]);
                    }
                }
            }
            assert forall|w: int, k: int|
                0 <= w < self.histories@.len() && 0 <= k < self.histories@[w]@.len() implies {
                let s = #[trigger] self.histories@[w]@[k];
                s.wf() && s.workspace_id == w
            } by {
                if self.tree().nodes[w].kind == Kind::Workspace {
                    assert(self.histories@[w] == kept[w]);
                    if w < old(self).histories@.len() {
                        assert(kept[w] == old(self).histories@[w]);
                    }
                }
            }
            assert forall|w: usize|
                self.history(w) == if self.tree().is_workspace(w) {
                    old(self).history(w)
                } else {
                    Seq::empty()
                } by {
                if (w as int) < self.histories@.len() {
                    if self.tree().nodes[w as int].kind == Kind::Workspace {
                        assert(self.histories@[w as int] == kept[w as int]);
                        if (w as int) < old(self).histories@.len() {
                            assert(kept[w as int] == old(self).histories@[w as int]);
                        } else {
                            assert(views(kept[w as int]@) =~= Seq::empty());
                        }
                    } else {
                        assert(views(self.histories@[w as int]@) =~= Seq::empty());
                    }
                }
            }
        }
    }
}

} // verus!
