//! What the engine asks its host to do.
//!
//! Operations that need the disk are cut into steps. A step changes the engine and hands out the
//! actions that the host has to perform, in order, before the next step. When an action fails the
//! host drops the rest of the operation: what earlier steps have changed stays changed.

use vstd::prelude::*;
use std::sync::Arc;
use bytes::Bytes;
use crate::bytes_spec;
use crate::table::{SsTable, TableView};

verus! {

/// A change of the layout, as the manifest records it.
#[derive(Clone, Copy, Debug, PartialEq, Eq, Structural)]
pub enum ManifestRecord {
    /// The table with this id took the place of the memtable with this id.
    Flush(usize),
    /// A memtable with this id receives writes from now on.
    NewMemtable(usize),
}

/// What an action is.
#[verifier::ext_equal]
pub enum ActionView {
    /// Create the write-ahead log with an id.
    CreateWal(usize),
    /// Append an entry to the write-ahead log with an id.
    AppendWal(usize, Seq<u8>, Seq<u8>),
    /// Make the write-ahead log with an id durable.
    SyncWal(usize),
    /// Remove the write-ahead log with an id.
    RemoveWal(usize),
    /// Write a table to a file of its own, and make it durable.
    WriteSst(TableView),
    /// Make the names in the directory durable.
    SyncDir,
    /// Create an empty manifest.
    CreateManifest,
    /// Append a record to the manifest, and make it durable.
    AddRecord(ManifestRecord),
}

/// What the host is asked to do.
pub enum Action {
    CreateWal(usize),
    AppendWal(usize, Bytes, Bytes),
    SyncWal(usize),
    RemoveWal(usize),
    WriteSst(Arc<SsTable>),
    SyncDir,
    CreateManifest,
    AddRecord(ManifestRecord),
}

impl View for Action {
    type V = ActionView;

    open spec fn view(&self) -> ActionView {
        match *self {
            Action::CreateWal(id) => ActionView::CreateWal(id),
            Action::AppendWal(id, k, v) => ActionView::AppendWal(
                id,
                bytes_spec::bytes_of(k),
                bytes_spec::bytes_of(v),
            ),
            Action::SyncWal(id) => ActionView::SyncWal(id),
            Action::RemoveWal(id) => ActionView::RemoveWal(id),
            Action::WriteSst(t) => ActionView::WriteSst(t@),
            Action::SyncDir => ActionView::SyncDir,
            Action::CreateManifest => ActionView::CreateManifest,
            Action::AddRecord(r) => ActionView::AddRecord(r),
        }
    }
}

pub open spec fn action_views(actions: Seq<Action>) -> Seq<ActionView> {
    actions.map_values(|a: Action| a@)
}

/// **Actions are what they say**: each does to the file with its id what its name says, with the
/// bytes it carries, and they are performed in the order in which they are listed.
pub proof fn actions_are_what_they_say(id: usize, k: Bytes, v: Bytes, t: Arc<SsTable>)
    ensures
        Action::CreateWal(id)@ == ActionView::CreateWal(id),
        Action::AppendWal(id, k, v)@ == ActionView::AppendWal(
            id,
            bytes_spec::bytes_of(k),
            bytes_spec::bytes_of(v),
        ),
        Action::SyncWal(id)@ == ActionView::SyncWal(id),
        Action::RemoveWal(id)@ == ActionView::RemoveWal(id),
        Action::WriteSst(t)@ == ActionView::WriteSst(t@),
        Action::SyncDir@ == ActionView::SyncDir,
        Action::CreateManifest@ == ActionView::CreateManifest,
        forall|r: ManifestRecord| (#[trigger] Action::AddRecord(r)@) == ActionView::AddRecord(r),
        forall|actions: Seq<Action>, i: int|
            0 <= i < actions.len() ==> #[trigger] action_views(actions)[i] == actions[i]@,
        forall|actions: Seq<Action>| (#[trigger] action_views(actions)).len() == actions.len(),
{
}

/// The outcome of a step: what the host has to do now, in order, and which step comes after that,
/// if there is one.
pub struct Phase<S> {
    pub actions: Vec<Action>,
    pub next: Option<S>,
}

} // verus!
