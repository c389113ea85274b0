//! Favorites, the active view and the open workspace.

use vstd::prelude::*;
use crate::engine::FolderEngine;
use crate::ids::{copy_ids, remove_id};
use crate::laws::lemma_toggled_wf;
use crate::model::{ancestors, fresh_node, FolderError, Kind, TreeModel};
use crate::node::text_view;

verus! {

impl TreeModel {
    /// The tree after the favorite tag of each of `ids`, in order, was
    /// flipped where it named a present view.
    pub open spec fn toggled_each(self, ids: Seq<usize>) -> TreeModel
        decreases ids.len(),
    {
        if ids.len() == 0 {
            self
        } else {
            let next = if self.is_view(ids[0]) {
                self.toggled(ids[0])
            } else {
                self
            };
            next.toggled_each(ids.drop_first())
        }
    }
}

/// What a handle to an engine gives: the engine while it is there, `Gone`
/// once it has been torn down.
pub fn upgrade_folder<T>(handle: Option<T>) -> (r: Result<T, FolderError>)
    ensures
        match handle {
            Some(e) => r == Ok::<T, FolderError>(e),
            None => r == Err::<T, FolderError>(FolderError::Gone),
        },
{
    match handle {
        Some(e) => Ok(e),
        None => Err(FolderError::Gone),
    }
}

impl FolderEngine {
    /// Flips the favorite tag of the present view `id`: a newly tagged view
    /// goes to the end of the favorites, an untagged one leaves them. Fails
    /// with `NotFound`, changing nothing, where `id` names no present view.
    pub fn toggle_favorite(&mut self, id: usize) -> (r: Result<(), FolderError>)
        requires
            old(self).wf(),
        ensures
            final(self).wf(),
            final(self).same_session(old(self)),
            match r {
                Ok(_) => old(self).tree().is_view(id) && final(self).tree() == old(self).tree().toggled(id),
                Err(e) => e == FolderError::NotFound && !old(self).tree().is_view(id) && *final(self) == *old(self),
            },
    {
        if !self.is_view(id) {
            return Err(FolderError::NotFound);
        }
        proof {
            lemma_toggled_wf(self.tree(), self.depth@, id);
        }
        if self.nodes[id].is_favorite {
            remove_id(&mut self.favorites, id);
            self.nodes[id].is_favorite = false;
        } else {
            self.favorites.push(id);
            self.nodes[id].is_favorite = true;
        }
        proof {
            assert(self.tree().nodes =~= old(self).tree().toggled(id).nodes);
        }
        Ok(())
    }

    /// Flips the favorite tag of each of `ids`. An identifier that names no
    /// present view is passed over: the call succeeds whatever the
    /// identifiers are.
    pub fn toggle_favorites(&mut self, ids: &Vec<usize>) -> (r: Result<(), FolderError>)
        requires
            old(self).wf(),
        ensures
            final(self).wf(),
            final(self).same_session(old(self)),
            r is Ok,
            final(self).tree() == old(self).tree().toggled_each(ids@),
    {
        let mut i: usize = 0;
        proof {
            assert(ids@.subrange(0, ids@.len() as int) =~= ids@);
        }
        while i < ids.len()
            invariant
                i <= ids@.len(),
                self.wf(),
                self.same_session(old(self)),
                self.tree().toggled_each(ids@.subrange(i as int, ids@.len() as int)) == old(self).tree().toggled_each(ids@),
            decreases ids@.len() - i,
        {
            proof {
                let rest = ids@.subrange(i as int, ids@.len() as int);
                assert(rest[0] == ids@[i as int]);
                assert(rest.drop_first() =~= ids@.subrange(i + 1, ids@.len() as int));
            }
            let _ = self.toggle_favorite(ids[i]);
            i += 1;
        }
        Ok(())
    }

    /// The favorite views in tagging order. A purged view has left the
    /// favorites, so every identifier returned resolves.
    pub fn list_favorites(&self) -> (r: Vec<usize>)
        requires
            self.wf(),
        ensures
            r@ == self.tree().favorites,
            forall|k: int| 0 <= k < r@.len() ==> self.tree().is_present(#[trigger] r@[k]),
    {
        proof {
            assert forall|k: int| 0 <= k < self.favorites@.len() implies self.tree().is_present(
                #[trigger] self.favorites@[k],
            ) by {
                let id = self.favorites@[k];
                assert(self.tree().favorites.contains(id));
                assert(self.tree().node_ok(self.depth@, id as int));
            }
        }
        copy_ids(&self.favorites)
    }

    /// Makes the present view `id` the active view. Fails with `NotFound`,
    /// changing nothing, where `id` names no present view.
    pub fn set_current(&mut self, id: usize) -> (r: Result<(), FolderError>)
        requires
            old(self).wf(),
        ensures
            final(self).wf(),
            match r {
                Ok(_) => old(self).tree().is_view(id) && *final(self) == (FolderEngine {
                    current_view: Some(id),
                    ..*old(self)
                }),
                Err(e) => e == FolderError::NotFound && !old(self).tree().is_view(id) && *final(self) == *old(self),
            },
    {
        if !self.is_view(id) {
            return Err(FolderError::NotFound);
        }
        self.current_view = Some(id);
        Ok(())
    }

    /// Creates a view as `create_view` does and, where `set_as_current` is
    /// set, makes it the active view.
    pub fn create_view_with(
        &mut self,
        parent_id: usize,
        name: String,
        position: Option<usize>,
        icon: Option<String>,
        set_as_current: bool,
        now: u64,
    ) -> (r: Result<usize, FolderError>)
        requires
            old(self).wf(),
        ensures
            final(self).wf(),
            match r {
                Ok(id) => {
                    &&& old(self).tree().is_live(parent_id)
                    &&& id == old(self).nodes@.len()
                    &&& final(self).tree() == old(self).tree().created(
                        parent_id,
                        name@,
                        text_view(icon),
                        position,
                        now,
                    )
                    &&& final(self).current_view == if set_as_current {
                        Some(id)
                    } else {
                        old(self).current_view
                    }
                    &&& final(self).open_workspace == old(self).open_workspace
                    &&& final(self).retention == old(self).retention
                    &&& final(self).grown_histories(old(self))
                    &&& final(self).depth@ == old(self).depth@.push(
                        old(self).depth@[parent_id as int] + 1,
                    )
                    &&& ancestors(final(self).tree().nodes, final(self).depth@, id as int)
                        == seq![parent_id] + ancestors(
                        old(self).tree().nodes,
                        old(self).depth@,
                        parent_id as int,
                    )
                },
                Err(e) => e == FolderError::NotFound && !old(self).tree().is_live(parent_id)
                    && *final(self) == *old(self),
            },
    {
        match self.create_view(parent_id, name, position, icon, now) {
            Ok(id) => {
                if set_as_current {
                    let _ = self.set_current(id);
                }
                Ok(id)
            },
            Err(e) => Err(e),
        }
    }

    /// Creates an orphan view as `create_orphan_view` does and, where
    /// `set_as_current` is set, makes it the active view.
    pub fn create_orphan_view_with(
        &mut self,
        name: String,
        icon: Option<String>,
        set_as_current: bool,
        now: u64,
    ) -> (id: usize)
        requires
            old(self).wf(),
        ensures
            final(self).wf(),
            id == old(self).nodes@.len(),
            final(self).tree() == old(self).tree().with_node(
                fresh_node(Kind::View, name@, text_view(icon), None, now),
            ),
            final(self).current_view == if set_as_current {
                Some(id)
            } else {
                old(self).current_view
            },
            final(self).open_workspace == old(self).open_workspace,
            final(self).retention == old(self).retention,
            final(self).grown_histories(old(self)),
    {
        let id: usize = self.create_orphan_view(name, icon, now);
        if set_as_current {
            let _ = self.set_current(id);
        }
        id
    }

    /// Clears the active view where it is `id`; does nothing otherwise.
    pub fn close(&mut self, id: usize)
        requires
            old(self).wf(),
        ensures
            final(self).wf(),
            *final(self) == (FolderEngine {
                current_view: if old(self).current_view == Some(id) {
                    None
                } else {
                    old(self).current_view
                },
                ..*old(self)
            }),
    {
        match self.current_view {
            Some(v) => {
                if v == id {
                    self.current_view = None;
                }
            },
            None => {},
        }
    }

    /// The active view, if there is one. A purged view is never active.
    pub fn get_current(&self) -> (r: Option<usize>)
        requires
            self.wf(),
        ensures
            r == self.current_view,
            r matches Some(v) ==> self.tree().is_present(v),
    {
        self.current_view
    }

    /// Opens the workspace `id` in place of the one that was open; the
    /// active view of the former context is released. Fails with
    /// `InvalidOperation` where `id` is the empty identifier 0, with
    /// `NotFound` where it names no workspace; a failure changes nothing.
    pub fn open_workspace(&mut self, id: usize) -> (r: Result<(), FolderError>)
        requires
            old(self).wf(),
        ensures
            final(self).wf(),
            match r {
                Ok(_) => id != 0 && old(self).tree().is_workspace(id) && *final(self) == (
                FolderEngine { current_view: None, open_workspace: Some(id), ..*old(self) }),
                Err(e) => {
                    &&& *final(self) == *old(self)
                    &&& !old(self).tree().is_workspace(id)
                    &&& e == if id == 0 {
                        FolderError::InvalidOperation
                    } else {
                        FolderError::NotFound
                    }
                },
            },
    {
        proof {
            assert(self.tree().node_ok(self.depth@, 0));
        }
        if id == 0 {
            return Err(FolderError::InvalidOperation);
        }
        if !(id < self.nodes.len() && self.nodes[id].kind == Kind::Workspace) {
            return Err(FolderError::NotFound);
        }
        self.open_workspace = Some(id);
        self.current_view = None;
        Ok(())
    }
}

} // verus!
