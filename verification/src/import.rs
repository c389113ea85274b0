//! Batches of insertion commands applied as a whole or not at all.

use vstd::prelude::*;
use crate::engine::FolderEngine;
use crate::model::{fresh_node, is_under, sunk_depth, FolderError, Kind, TreeModel};
use crate::node::{copy_nodes, copy_text, table, text_view};

verus! {

/// One insertion of a batch. Identifiers are assigned in sequence, so a
/// command may name a view that an earlier command of the batch created.
pub enum ImportCommand {
    /// Create a view below a live node.
    Create { parent_id: usize, name: String, icon: Option<String>, position: Option<usize> },
    /// Create a view without a parent.
    CreateOrphan { name: String, icon: Option<String> },
    /// Hang a live view below a live node.
    Attach { id: usize, parent_id: usize, position: Option<usize> },
}

/// What a command holds, as plain mathematical values.
pub enum CommandView {
    Create { parent_id: usize, name: Seq<char>, icon: Option<Seq<char>>, position: Option<usize> },
    CreateOrphan { name: Seq<char>, icon: Option<Seq<char>> },
    Attach { id: usize, parent_id: usize, position: Option<usize> },
}

impl View for ImportCommand {
    type V = CommandView;

    open spec fn view(&self) -> CommandView {
        match *self {
            ImportCommand::Create { parent_id, name, icon, position } => CommandView::Create {
                parent_id,
                name: name@,
                icon: text_view(icon),
                position,
            },
            ImportCommand::CreateOrphan { name, icon } => CommandView::CreateOrphan {
                name: name@,
                icon: text_view(icon),
            },
            ImportCommand::Attach { id, parent_id, position } => CommandView::Attach {
                id,
                parent_id,
                position,
            },
        }
    }
}

/// The contents of a batch.
pub open spec fn batch(cmds: Seq<ImportCommand>) -> Seq<CommandView> {
    Seq::new(cmds.len(), |i: int| cmds[i]@)
}

/// The tree and the depths after one command, or the error that the
/// command meets.
pub open spec fn import_step(t: TreeModel, depth: Seq<nat>, c: CommandView, now: u64) -> Result<
    (TreeModel, Seq<nat>),
    FolderError,
> {
    match c {
        CommandView::Create { parent_id, name, icon, position } => if t.is_live(parent_id) {
            Ok(
                (
                    t.created(parent_id, name, icon, position, now),
                    depth.push(depth[parent_id as int] + 1),
                ),
            )
        } else {
            Err(FolderError::NotFound)
        },
        CommandView::CreateOrphan { name, icon } => Ok(
            (t.with_node(fresh_node(Kind::View, name, icon, None, now)), depth.push(0)),
        ),
        CommandView::Attach { id, parent_id, position } => if !t.is_live_view(id) || !t.is_live(
            parent_id,
        ) {
            Err(FolderError::NotFound)
        } else if is_under(t.nodes, depth, parent_id as int, id as int) {
            Err(FolderError::InvalidOperation)
        } else {
            Ok(
                (
                    t.moved(id, parent_id, position),
                    sunk_depth(t.detached(id).nodes, depth, id as int, parent_id as int),
                ),
            )
        },
    }
}

/// The tree and the depths after the whole batch, or the error of the
/// first command that fails.
pub open spec fn imported(t: TreeModel, depth: Seq<nat>, cmds: Seq<CommandView>, now: u64) -> Result<
    (TreeModel, Seq<nat>),
    FolderError,
>
    decreases cmds.len(),
{
    if cmds.len() == 0 {
        Ok((t, depth))
    } else {
        match import_step(t, depth, cmds[0], now) {
            Ok((t1, d1)) => imported(t1, d1, cmds.drop_first(), now),
            Err(e) => Err(e),
        }
    }
}

impl FolderEngine {
    /// Applies one command.
    fn apply(&mut self, cmd: &ImportCommand, now: u64) -> (r: Result<(), FolderError>)
        requires
            old(self).wf(),
        ensures
            final(self).wf(),
            final(self).current_view == old(self).current_view,
            final(self).open_workspace == old(self).open_workspace,
            final(self).retention == old(self).retention,
            final(self).histories@.len() >= old(self).histories@.len(),
            final(self).histories@.subrange(0, old(self).histories@.len() as int) == old(self).histories@,
            match r {
                Ok(_) => import_step(old(self).tree(), old(self).depth@, cmd@, now) == Ok::<
                    (TreeModel, Seq<nat>),
                    FolderError,
                >((final(self).tree(), final(self).depth@)),
                Err(e) => import_step(old(self).tree(), old(self).depth@, cmd@, now) == Err::<
                    (TreeModel, Seq<nat>),
                    FolderError,
                >(e) && *final(self) == *old(self),
            },
    {
        proof {
            assert(self.histories@.subrange(0, self.histories@.len() as int) =~= self.histories@);
        }
        match cmd {
            ImportCommand::Create { parent_id, name, icon, position } => {
                match self.create_view(*parent_id, name.clone(), *position, copy_text(icon), now) {
                    Ok(_) => Ok(()),
                    Err(e) => Err(e),
                }
            },
            ImportCommand::CreateOrphan { name, icon } => {
                let _ = self.create_orphan_view(name.clone(), copy_text(icon), now);
                Ok(())
            },
            ImportCommand::Attach { id, parent_id, position } => self.move_view(
                *id,
                *parent_id,
                *position,
            ),
        }
    }

    /// Applies the commands in order as one batch. Where a command fails,
    /// the error of that command is returned and the tree is as it was
    /// before the batch.
    pub fn import(&mut self, cmds: &Vec<ImportCommand>, now: u64) -> (r: Result<(), FolderError>)
        requires
            old(self).wf(),
        ensures
            final(self).wf(),
            final(self).current_view == old(self).current_view,
            final(self).open_workspace == old(self).open_workspace,
            final(self).retention == old(self).retention,
            match r {
                Ok(_) => imported(old(self).tree(), old(self).depth@, batch(cmds@), now) == Ok::<
                    (TreeModel, Seq<nat>),
                    FolderError,
                >((final(self).tree(), final(self).depth@)),
                Err(e) => {
                    &&& imported(old(self).tree(), old(self).depth@, batch(cmds@), now) == Err::<
                        (TreeModel, Seq<nat>),
                        FolderError,
                    >(e)
                    &&& final(self).tree() == old(self).tree()
                    &&& final(self).depth@ == old(self).depth@
                    &&& final(self).histories@ == old(self).histories@
                },
            },
    {
        let saved = copy_nodes(&self.nodes);
        let saved_len: usize = self.histories.len();
        let mut i: usize = 0;
        proof {
            assert(batch(cmds@).subrange(0, cmds@.len() as int) =~= batch(cmds@));
            assert(self.histories@.subrange(0, saved_len as int) =~= self.histories@);
        }
        while i < cmds.len()
            invariant
                i <= cmds@.len(),
                self.wf(),
                old(self).wf(),
                self.current_view == old(self).current_view,
                self.open_workspace == old(self).open_workspace,
                self.retention == old(self).retention,
                self.trash@ == old(self).trash@,
                self.favorites@ == old(self).favorites@,
                table(saved@) == old(self).tree().nodes,
                saved_len == old(self).histories@.len(),
                self.histories@.len() >= saved_len,
                self.histories@.subrange(0, saved_len as int) == old(self).histories@,
                imported(
                    self.tree(),
                    self.depth@,
                    batch(cmds@).subrange(i as int, cmds@.len() as int),
                    now,
                ) == imported(old(self).tree(), old(self).depth@, batch(cmds@), now),
            decreases cmds@.len() - i,
        {
            let ghost before = self.histories@;
            proof {
                let rest = batch(cmds@).subrange(i as int, cmds@.len() as int);
                assert(rest[0] == cmds@[i as int]@);
                assert(rest.drop_first() =~= batch(cmds@).subrange(i + 1, cmds@.len() as int));
            }
            match self.apply(&cmds[i], now) {
                Ok(_) => {
                    proof {
                        assert(self.histories@.subrange(0, saved_len as int)
                            =~= self.histories@.subrange(0, before.len() as int).subrange(
                            0,
                            saved_len as int,
                        ));
                    }
                },
                Err(e) => {
                    self.nodes = saved;
                    self.histories.truncate(saved_len);
                    proof {
                        self.depth@ = old(self).depth@;
                        assert(self.histories@ =~= old(self).histories@);
                        assert(self.tree() == old(self).tree());
                    }
                    return Err(e);
                },
            }
            i += 1;
        }
        Ok(())
    }
}

} // verus!
