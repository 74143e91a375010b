//! Live maintenance: what each filesystem event does to the index.
//!
//! A live index couples a filesystem watcher with a single-writer
//! indexing queue: the watcher reports debounced events, and a worker
//! applies the queued actions strictly in order. The watcher, the queue
//! and the worker threads live outside the library; the decision of which
//! actions an event queues is made here.

use vstd::prelude::*;

verus! {

/// A debounced filesystem event, as the watcher reports it.
pub enum FileEvent {
    /// A file was created.
    Create(String),
    /// A file's contents were written.
    Write(String),
    /// A file was removed.
    Remove(String),
    /// A file moved from the first path to the second.
    Rename(String, String),
    /// The watcher asks for a full rescan; ignored.
    Rescan,
    /// A file's permissions changed; ignored.
    Chmod(String),
    /// A write will happen shortly; ignored.
    NoticeWrite(String),
    /// A removal will happen shortly; ignored.
    NoticeRemove(String),
    /// The watcher reported an error; logged and dropped by the caller.
    Failure(Option<String>),
}

/// Action to be performed by the indexing worker.
pub enum IndexingAction {
    /// Index one file.
    Add { path: String },
    /// Walk a directory and index every file under it.
    AddDir { path: String },
    /// Remove one file from the index.
    Remove { path: String },
    /// Walk a directory and remove every entry under it from the index.
    RemoveDir { path: String },
}

/// The actions one filesystem event queues, in order: a write re-indexes
/// the file, a create indexes it, a removal purges it, and a rename
/// purges the old path and indexes the new one. All other events queue
/// nothing.
pub open spec fn spec_actions(event: FileEvent) -> Seq<IndexingAction> {
    match event {
        FileEvent::Create(p) => seq![IndexingAction::Add { path: p }],
        FileEvent::Write(p) => seq![
            IndexingAction::Remove { path: p },
            IndexingAction::Add { path: p },
        ],
        FileEvent::Remove(p) => seq![IndexingAction::Remove { path: p }],
        FileEvent::Rename(old_path, new_path) => seq![
            IndexingAction::Remove { path: old_path },
            IndexingAction::Add { path: new_path },
        ],
        _ => Seq::empty(),
    }
}

/// Translate one filesystem event into the actions to queue, in order.
pub fn actions_for_event(event: FileEvent) -> (acts: Vec<IndexingAction>)
    ensures
        acts@ == spec_actions(event),
{
    let ghost ge = event;
    let mut acts: Vec<IndexingAction> = Vec::new();
    match event {
        FileEvent::Create(p) => {
            acts.push(IndexingAction::Add { path: p });
        },
        FileEvent::Write(p) => {
            let p2 = p.clone();
            acts.push(IndexingAction::Remove { path: p });
            acts.push(IndexingAction::Add { path: p2 });
        },
        FileEvent::Remove(p) => {
            acts.push(IndexingAction::Remove { path: p });
        },
        FileEvent::Rename(old_path, new_path) => {
            acts.push(IndexingAction::Remove { path: old_path });
            acts.push(IndexingAction::Add { path: new_path });
        },
        _ => {},
    }
    proof {
        assert(acts@ =~= spec_actions(ge));
    }
    acts
}

} // verus!
