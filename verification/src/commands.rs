use vstd::prelude::*;

use crate::state::{DocumentId, DocumentMode, ViewId, ViewMode, WindowId};
use crate::types::{Direction, Pos};

verus! {

/// The requests the action protocol serves: cursor movement, commits, edits
/// and mode changes.
#[derive(Clone, PartialEq, Eq, Debug)]
pub enum ActionCommand {
    MoveCursors { view: ViewId, direction: Direction },
    MoveCursorToPos { view: ViewId, pos: Pos },
    CreateCursorAtPos { view: ViewId, pos: Pos },
    RemoveCursor { view: ViewId, offset: usize },
    StartCommit { doc: DocumentId },
    EndCommit { doc: DocumentId },
    Insert { view: ViewId, text: String },
    InsertAt { view: ViewId, text: String, offset: usize },
    Backspace { view: ViewId },
    Delete { view: ViewId },
    Remove { view: ViewId, offset: usize, len: usize },
    SetDocumentMode { doc: DocumentId, mode: DocumentMode },
    SetViewMode { view: ViewId, mode: ViewMode },
}

/// The requests the buffer protocol serves.
pub enum BufferCommand {
    Init { window: WindowId, view: ViewId, doc: crate::fed_core::DocumentId },
    ScrollTo { view: ViewId, pos: Pos },
    ScrollIfNeeded { view: ViewId, pos: Pos },
    Resize,
}

/// The requests the cursor protocol serves.
pub enum CursorCommand {
    Move { view: ViewId, direction: Direction },
    MoveTo { view: ViewId, pos: Pos },
}

/// The requests the screen protocol serves.
pub enum ScreenCommand {
    Resize(usize, usize),
    Render,
}

} // verus!
