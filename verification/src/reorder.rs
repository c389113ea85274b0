//! Moves stated by a place among siblings, and lookups that fail where
//! nothing is found.

use vstd::prelude::*;
use crate::engine::FolderEngine;
use crate::ids::index_of_id;
use crate::model::{lemma_no_cycle, FolderError, Kind, TreeModel};
use crate::node::Node;

verus! {

impl TreeModel {
    /// The position right behind the sibling `prev` among the children of
    /// `new_parent`, counted without `id` itself; the front where no
    /// sibling is named, the end where the named one is not a child.
    pub open spec fn nested_position(self, id: usize, new_parent: usize, prev: Option<usize>) -> Option<
        usize,
    > {
        let kids = self.nodes[new_parent as int].ordered_children;
        match prev {
            None => Some(0),
            Some(p) => if kids.contains(p) {
                let k = kids.index_of(p);
                if kids.contains(id) && kids.index_of(id) < k {
                    Some(k as usize)
                } else {
                    Some((k + 1) as usize)
                }
            } else {
                None
            },
        }
    }
}

impl FolderEngine {
    /// The open workspace; `NotFound` where none is open.
    pub fn current_workspace(&self) -> (r: Result<usize, FolderError>)
        requires
            self.wf(),
        ensures
            match self.open_workspace {
                Some(w) => r == Ok::<usize, FolderError>(w) && self.tree().is_workspace(w),
                None => r == Err::<usize, FolderError>(FolderError::NotFound),
            },
    {
        match self.open_workspace {
            Some(w) => Ok(w),
            None => Err(FolderError::NotFound),
        }
    }

    /// The record of the present view `id`; `NotFound` where `id` names no
    /// present view.
    pub fn read_view(&self, id: usize) -> (r: Result<&Node, FolderError>)
        ensures
            match r {
                Ok(n) => self.tree().is_view(id) && *n == self.nodes@[id as int] && n@
                    == self.tree().nodes[id as int],
                Err(e) => e == FolderError::NotFound && !self.tree().is_view(id),
            },
    {
        if self.is_view(id) {
            Ok(&self.nodes[id])
        } else {
            Err(FolderError::NotFound)
        }
    }

    /// Moves the live view `id` to the clamped position `to` among the
    /// children of its own parent. Fails with `NotFound`, changing nothing,
    /// where `id` names no live view, has no parent, or has a parent that
    /// is not live.
    pub fn reorder_view(&mut self, id: usize, to: usize) -> (r: Result<(), FolderError>)
        requires
            old(self).wf(),
        ensures
            final(self).wf(),
            final(self).same_session(old(self)),
            match r {
                Ok(_) => {
                    &&& old(self).tree().is_live_view(id)
                    &&& old(self).tree().nodes[id as int].parent_id matches Some(p)
                        && old(self).tree().is_live(p) && final(self).tree() == old(self).tree().moved(id, p, Some(to))
                },
                Err(e) => {
                    &&& *final(self) == *old(self)
                    &&& e == FolderError::NotFound
                    &&& (!old(self).tree().is_live_view(id) || match old(self).tree().nodes[id as int].parent_id {
                        Some(p) => !old(self).tree().is_live(p),
                        None => true,
                    })
                },
            },
    {
        if !(self.is_live(id) && self.nodes[id].kind == Kind::View) {
            return Err(FolderError::NotFound);
        }
        match self.nodes[id].parent_id {
            Some(p) => {
                proof {
                    lemma_no_cycle(self.tree(), self.depth@, id);
                }
                self.move_view(id, p, Some(to))
            },
            None => Err(FolderError::NotFound),
        }
    }

    /// Moves the live view `id` below the live node `new_parent_id`, right
    /// behind the sibling `prev_view_id`, or to the front where no sibling
    /// is named. Fails as `move_view` does.
    pub fn move_nested_view(&mut self, id: usize, new_parent_id: usize, prev_view_id: Option<usize>) -> (r:
        Result<(), FolderError>)
        requires
            old(self).wf(),
        ensures
            final(self).wf(),
            final(self).same_session(old(self)),
            match r {
                Ok(_) => {
                    &&& old(self).tree().is_live_view(id)
                    &&& old(self).tree().is_live(new_parent_id)
                    &&& !old(self).under(new_parent_id, id)
                    &&& final(self).tree() == old(self).tree().moved(
                        id,
                        new_parent_id,
                        old(self).tree().nested_position(id, new_parent_id, prev_view_id),
                    )
                },
                Err(e) => {
                    &&& *final(self) == *old(self)
                    &&& e == if !old(self).tree().is_live_view(id) || !old(self).tree().is_live(
                        new_parent_id,
                    ) {
                        FolderError::NotFound
                    } else {
                        FolderError::InvalidOperation
                    }
                    &&& (e == FolderError::InvalidOperation ==> old(self).under(new_parent_id, id))
                },
            },
    {
        let position: Option<usize> = if new_parent_id < self.nodes.len() {
            let kids = &self.nodes[new_parent_id].ordered_children;
            let count: usize = kids.len();
            proof {
                assert(self.tree().node_ok(self.depth@, new_parent_id as int));
                assert(kids@ == self.tree().nodes[new_parent_id as int].ordered_children);
            }
            match prev_view_id {
                None => Some(0),
                Some(p) => match index_of_id(kids, p) {
                    None => None,
                    Some(k) => {
                        let before: bool = match index_of_id(kids, id) {
                            Some(j) => j < k,
                            None => false,
                        };
                        proof {
                            assert(kids@.contains(p));
                            assert(kids@.index_of(p) == k);
                            if kids@.contains(id) {
                                let j = kids@.index_of(id);
                                assert(kids@[j] == id);
                            }
                        }
                        if before || k >= count {
                            Some(k)
                        } else {
                            Some(k + 1)
                        }
                    },
                },
            }
        } else {
            None
        };
        self.move_view(id, new_parent_id, position)
    }
}

} // verus!
