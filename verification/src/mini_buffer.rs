use vstd::prelude::*;

use crate::commands::ActionCommand;
use crate::state::{DocumentId, ViewId, WindowId};
use crate::types::{Decoration, Face, Pos, Rect, Span};

verus! {

/// The layers of floating windows; later ones are drawn on top.
#[derive(Clone, Copy, PartialEq, Eq, Structural, PartialOrd, Ord, Debug)]
pub enum ZLayer {
    /// The highest layer, so that the mini buffer is always on top.
    MiniBuffer,
}

/// Decorates the mini buffer's document with its prompt: a virtual text
/// before its first byte.
pub struct MiniBufferDecorationProvider {
    pub prompt: String,
    pub face: Face,
}

impl MiniBufferDecorationProvider {
    pub fn new(prompt: String, face: Face) -> (p: Self)
        ensures
            p.prompt == prompt,
            p.face == face,
    {
        MiniBufferDecorationProvider { prompt, face }
    }

    /// Edits of the document do not move the prompt.
    pub fn edit(&mut self, offset: usize, removed: usize, inserted: usize)
        ensures
            *final(self) == *old(self),
    {
    }

    /// Nothing to recompute when the shown range changes.
    pub fn update(&mut self, start: usize, end: usize)
        ensures
            *final(self) == *old(self),
    {
    }

    /// Adds the decorations of the byte range starting at `start` to `out`:
    /// the prompt, when the range starts at the document's first byte.
    pub fn range(&self, start: usize, end: usize, out: &mut Vec<Span<Decoration>>)
        ensures
            start != 0 ==> final(out)@ == old(out)@,
            start == 0 ==> final(out)@ == old(out)@.push(
                Span { start: 0, end: 0, data: Decoration::VirtualText { text: self.prompt, face: self.face } },
            ),
    {
        if start != 0 {
            return;
        }
        out.push(Span { start, end: 0, data: Decoration::VirtualText { text: self.prompt.clone(), face: self.face } });
    }
}

/// The identifier of what the mini buffer shows, a message or a prompt.
#[derive(Clone, Copy, PartialEq, Eq, Structural, Debug)]
pub struct MiniBufferId(pub usize);

/// What the mini buffer shows.
#[derive(Clone, Copy, PartialEq, Eq, Structural, Debug)]
pub enum MiniBufferKind {
    Inactive,
    Message,
    Prompt,
}

/// The mini buffer's part of the editor state: what it shows under which
/// identifier, the document and view it shows it with, its window, the
/// window that was active before it, and whether a prompt awaits its answer.
#[derive(Clone, Copy, PartialEq, Eq, Structural, Debug)]
pub struct MiniBufferStore {
    pub kind: MiniBufferKind,
    pub id: MiniBufferId,
    pub doc: DocumentId,
    pub view: ViewId,
    pub window: Option<WindowId>,
    pub prev_window: Option<WindowId>,
    pub awaits_answer: bool,
}

/// What the editor does for the mini buffer, in order.
#[derive(Clone, PartialEq, Eq, Debug)]
pub enum MiniBufferEffect {
    /// Sends the command to the action protocol.
    Act(ActionCommand),
    /// Unlinks the window from its view and takes it out of the workspace.
    DropWindow(WindowId),
    /// Makes the window the active one, or none.
    Activate(Option<WindowId>),
    /// Takes the prompt decoration off the view.
    DropPrompt(ViewId),
    /// Opens a floating window over everything that shows the view of the
    /// document; its identifier is handed to `shown` or `prompt_shown`.
    Float { doc: DocumentId, view: ViewId, rect: Rect },
    /// Puts the prompt decoration on the view.
    AddPrompt { view: ViewId, prompt: String },
    /// Answers the prompt with the text typed.
    Answer(String),
    /// Gives the floating window a new size.
    ResizeFloating { window: WindowId, width: usize, height: usize },
}

/// Whether closing the mini buffer under `id` does anything: it shows
/// something under that identifier, in a window.
pub open spec fn closes(s: MiniBufferStore, id: MiniBufferId) -> bool {
    s.kind != MiniBufferKind::Inactive && s.id == id && s.window.is_some()
}

/// The store once the mini buffer is closed.
pub open spec fn closed(s: MiniBufferStore) -> MiniBufferStore {
    MiniBufferStore { kind: MiniBufferKind::Inactive, window: None, prev_window: None, awaits_answer: false, ..s }
}

/// What closing does to the view, given its cursors and the length of the
/// mini buffer's document: the prompt goes, then each cursor, then the text.
pub open spec fn clear_effects(view: ViewId, cursors: Seq<usize>, len: usize) -> Seq<MiniBufferEffect> {
    seq![MiniBufferEffect::DropPrompt(view)] + cursors.map_values(
        |o: usize| MiniBufferEffect::Act(ActionCommand::RemoveCursor { view, offset: o }),
    ) + seq![MiniBufferEffect::Act(ActionCommand::Remove { view, offset: 0, len })]
}

/// What closing the mini buffer of `s` does: its window goes, the window
/// before it is active again, and the view is cleared where it still exists
/// with its document (`view` holds its cursors and the document's length).
pub open spec fn close_effects(s: MiniBufferStore, view: Option<(Vec<usize>, usize)>) -> Seq<MiniBufferEffect> {
    seq![MiniBufferEffect::DropWindow(s.window.unwrap()), MiniBufferEffect::Activate(s.prev_window)] + match view {
        Some(v) => clear_effects(s.view, v.0@, v.1),
        None => Seq::empty(),
    }
}

/// A message or prompt shown in window `w` under `id` (`shown`), from a mini
/// buffer that showed nothing while the window `active` was active, closes
/// under `id`: the window goes, `active` is active again, and the mini buffer
/// shows nothing, in no window, and awaits no answer.
pub proof fn lemma_shown_then_closed(s: MiniBufferStore, kind: MiniBufferKind, active: Option<WindowId>, w: WindowId, id: MiniBufferId)
    requires
        s.kind == MiniBufferKind::Inactive,
        kind != MiniBufferKind::Inactive,
    ensures
        ({
            let shown = MiniBufferStore { kind, prev_window: active, window: Some(w), id, ..s };
            &&& closes(shown, id)
            &&& closed(shown).kind == MiniBufferKind::Inactive
            &&& closed(shown).window.is_none()
            &&& !closed(shown).awaits_answer
            &&& close_effects(shown, None) == seq![MiniBufferEffect::DropWindow(w), MiniBufferEffect::Activate(active)]
        }),
{
    let shown = MiniBufferStore { kind, prev_window: active, window: Some(w), id, ..s };
    assert(close_effects(shown, None) =~= seq![MiniBufferEffect::DropWindow(w), MiniBufferEffect::Activate(active)]);
}

/// The row at the bottom of a terminal of the size given, where the mini
/// buffer's window goes.
pub open spec fn bottom_row(width: usize, height: usize) -> Rect {
    Rect { pos: Pos { x: 0, y: if height > 0 { (height - 1) as usize } else { 0 } }, width, height: 1 }
}

/// The mini buffer protocol: the size of the terminal and the identifier
/// that the next message or prompt gets.
pub struct MiniBufferProtocol {
    pub width: usize,
    pub height: usize,
    pub next_id: usize,
}

impl MiniBufferProtocol {
    pub fn new(width: usize, height: usize) -> (p: Self)
        ensures
            p.width == width,
            p.height == height,
            p.next_id == 1,
    {
        MiniBufferProtocol { width, height, next_id: 1 }
    }

    /// Closes the mini buffer if it shows something under `id`, in a window;
    /// `view` holds the cursors of its view and the length of its document,
    /// where both still exist.
    pub fn close(&mut self, store: &mut MiniBufferStore, id: MiniBufferId, view: Option<(Vec<usize>, usize)>) -> (effects: Vec<
        MiniBufferEffect,
    >)
        ensures
            *final(self) == *old(self),
            if closes(*old(store), id) {
                *final(store) == closed(*old(store)) && effects@ == close_effects(*old(store), view)
            } else {
                *final(store) == *old(store) && effects@.len() == 0
            },
    {
        let mut effects: Vec<MiniBufferEffect> = Vec::new();
        if store.kind == MiniBufferKind::Inactive || store.id != id {
            return effects;
        }
        let window = match store.window {
            None => {
                return effects;
            },
            Some(w) => w,
        };
        let ghost s0 = *store;
        store.window = None;
        effects.push(MiniBufferEffect::DropWindow(window));
        effects.push(MiniBufferEffect::Activate(store.prev_window));
        store.kind = MiniBufferKind::Inactive;
        store.prev_window = None;
        store.awaits_answer = false;
        let v = store.view;
        match view {
            None => {},
            Some((cursors, len)) => {
                let ghost head = effects@;
                effects.push(MiniBufferEffect::DropPrompt(v));
                let mut i: usize = 0;
                while i < cursors.len()
                    invariant
                        i <= cursors@.len(),
                        effects@ == head + seq![MiniBufferEffect::DropPrompt(v)] + cursors@.subrange(
                            0,
                            i as int,
                        ).map_values(
                            |o: usize| MiniBufferEffect::Act(ActionCommand::RemoveCursor { view: v, offset: o }),
                        ),
                    decreases cursors@.len() - i,
                {
                    effects.push(MiniBufferEffect::Act(ActionCommand::RemoveCursor { view: v, offset: cursors[i] }));
                    i = i + 1;
                    proof {
                        let f = |o: usize| MiniBufferEffect::Act(ActionCommand::RemoveCursor { view: v, offset: o });
                        assert(cursors@.subrange(0, i as int) =~= cursors@.subrange(0, i - 1).push(cursors@[i - 1]));
                        assert(cursors@.subrange(0, i as int).map_values(f) =~= cursors@.subrange(
                            0,
                            i - 1,
                        ).map_values(f).push(f(cursors@[i - 1])));
                    }
                }
                effects.push(MiniBufferEffect::Act(ActionCommand::Remove { view: v, offset: 0, len }));
                proof {
                    assert(cursors@.subrange(0, cursors@.len() as int) =~= cursors@);
                }
            },
        }
        proof {
            assert(*store == closed(s0));
            assert(effects@ =~= close_effects(s0, view));
        }
        effects
    }

    /// The row the mini buffer's window takes.
    fn bar(&self) -> (r: Rect)
        ensures
            r == bottom_row(self.width, self.height),
    {
        Rect::new(Pos::new(0, self.height.saturating_sub(1)), self.width, 1)
    }

    /// Shows `message` in the mini buffer, unless a prompt is open: closes
    /// what it shows (see `close`), remembers the window `active`, writes the
    /// message and asks for the floating window, whose identifier `shown`
    /// takes.
    pub fn message(&mut self, store: &mut MiniBufferStore, message: String, active: Option<WindowId>, view: Option<
        (Vec<usize>, usize),
    >) -> (effects: Vec<MiniBufferEffect>)
        ensures
            *final(self) == *old(self),
            if old(store).kind == MiniBufferKind::Prompt {
                *final(store) == *old(store) && effects@.len() == 0
            } else {
                let s = *old(store);
                let c = closes(s, s.id);
                let after = if c { closed(s) } else { s };
                let prev = if c { s.prev_window } else { active };
                &&& *final(store) == (MiniBufferStore { kind: MiniBufferKind::Message, prev_window: prev, ..after })
                &&& effects@ == (if c { close_effects(s, view) } else { Seq::empty() }) + seq![
                    MiniBufferEffect::Act((ActionCommand::InsertAt { view: s.view, text: message, offset: 0 })),
                    (MiniBufferEffect::Float {
                        doc: s.doc,
                        view: s.view,
                        rect: bottom_row(old(self).width, old(self).height),
                    }),
                ]
            },
    {
        if store.kind == MiniBufferKind::Prompt {
            return Vec::new();
        }
        let ghost s = *store;
        let prev = if store.kind != MiniBufferKind::Inactive && store.window.is_some() {
            store.prev_window
        } else {
            active
        };
        let id = store.id;
        let mut effects = self.close(store, id, view);
        store.kind = MiniBufferKind::Message;
        store.prev_window = prev;
        let ghost head = effects@;
        effects.push(MiniBufferEffect::Act(ActionCommand::InsertAt { view: store.view, text: message, offset: 0 }));
        let rect = self.bar();
        effects.push(MiniBufferEffect::Float { doc: store.doc, view: store.view, rect });
        proof {
            assert(effects@ =~= head + seq![
                MiniBufferEffect::Act(ActionCommand::InsertAt { view: s.view, text: message, offset: 0 }),
                MiniBufferEffect::Float { doc: s.doc, view: s.view, rect },
            ]);
        }
        effects
    }

    /// Opens a prompt in the mini buffer, unless one is open: closes what it
    /// shows (see `close`), remembers the window `active`, places a cursor and
    /// asks for the floating window, whose identifier `prompt_shown` takes.
    pub fn prompt(&mut self, store: &mut MiniBufferStore, active: Option<WindowId>, view: Option<(Vec<usize>, usize)>) -> (effects:
        Vec<MiniBufferEffect>)
        ensures
            *final(self) == *old(self),
            if old(store).kind == MiniBufferKind::Prompt {
                *final(store) == *old(store) && effects@.len() == 0
            } else {
                let s = *old(store);
                let c = closes(s, s.id);
                let after = if c { closed(s) } else { s };
                let prev = if c { s.prev_window } else { active };
                &&& *final(store) == (MiniBufferStore {
                    kind: MiniBufferKind::Prompt,
                    prev_window: prev,
                    awaits_answer: true,
                    ..after
                })
                &&& effects@ == (if c { close_effects(s, view) } else { Seq::empty() }) + seq![
                    MiniBufferEffect::Act((ActionCommand::CreateCursorAtPos { view: s.view, pos: (Pos { x: 0, y: 0 }) })),
                    (MiniBufferEffect::Float {
                        doc: s.doc,
                        view: s.view,
                        rect: bottom_row(old(self).width, old(self).height),
                    }),
                ]
            },
    {
        if store.kind == MiniBufferKind::Prompt {
            return Vec::new();
        }
        let ghost s = *store;
        let prev = if store.kind != MiniBufferKind::Inactive && store.window.is_some() {
            store.prev_window
        } else {
            active
        };
        let id = store.id;
        let mut effects = self.close(store, id, view);
        store.kind = MiniBufferKind::Prompt;
        store.prev_window = prev;
        store.awaits_answer = true;
        let ghost head = effects@;
        effects.push(MiniBufferEffect::Act(ActionCommand::CreateCursorAtPos { view: store.view, pos: Pos::new(0, 0) }));
        let rect = self.bar();
        effects.push(MiniBufferEffect::Float { doc: store.doc, view: store.view, rect });
        proof {
            assert(effects@ =~= head + seq![
                MiniBufferEffect::Act(ActionCommand::CreateCursorAtPos { view: s.view, pos: Pos { x: 0, y: 0 } }),
                MiniBufferEffect::Float { doc: s.doc, view: s.view, rect },
            ]);
        }
        effects
    }

    /// Takes the floating window opened for a message: the message shows in
    /// it under the next identifier, which is returned.
    pub fn shown(&mut self, store: &mut MiniBufferStore, window: WindowId) -> (id: MiniBufferId)
        ensures
            id == MiniBufferId(old(self).next_id),
            *final(self) == (MiniBufferProtocol { next_id: old(self).next_id.wrapping_add(1), ..*old(self) }),
            *final(store) == (MiniBufferStore { window: Some(window), id, ..*old(store) }),
    {
        let id = MiniBufferId(self.next_id);
        self.next_id = self.next_id.wrapping_add(1);
        store.window = Some(window);
        store.id = id;
        id
    }

    /// Takes the floating window opened for a prompt: where the view still
    /// exists (`view_exists`), the prompt decorates it, shows in the window
    /// under the next identifier, which is returned, and the window becomes
    /// the active one. The identifier is used up either way.
    pub fn prompt_shown(&mut self, store: &mut MiniBufferStore, window: WindowId, prompt: String, view_exists: bool) -> (r: (
        Option<MiniBufferId>,
        Vec<MiniBufferEffect>,
    ))
        ensures
            *final(self) == (MiniBufferProtocol { next_id: old(self).next_id.wrapping_add(1), ..*old(self) }),
            if view_exists {
                let id = MiniBufferId(old(self).next_id);
                &&& r.0 == Some(id)
                &&& *final(store) == (MiniBufferStore { window: Some(window), id, ..*old(store) })
                &&& r.1@ == seq![
                    (MiniBufferEffect::AddPrompt { view: old(store).view, prompt }),
                    MiniBufferEffect::Activate(Some(window)),
                ]
            } else {
                r.0.is_none() && *final(store) == *old(store) && r.1@.len() == 0
            },
    {
        let id = MiniBufferId(self.next_id);
        self.next_id = self.next_id.wrapping_add(1);
        let mut effects: Vec<MiniBufferEffect> = Vec::new();
        if !view_exists {
            return (None, effects);
        }
        effects.push(MiniBufferEffect::AddPrompt { view: store.view, prompt });
        store.window = Some(window);
        store.id = id;
        effects.push(MiniBufferEffect::Activate(Some(window)));
        (Some(id), effects)
    }

    /// Submits the open prompt: where the mini buffer's document still
    /// exists (`text` holds it) and the prompt awaits its answer, the text is
    /// the answer and the mini buffer closes (see `close`).
    pub fn submit(&mut self, store: &mut MiniBufferStore, text: Option<String>, view: Option<(Vec<usize>, usize)>) -> (effects:
        Vec<MiniBufferEffect>)
        ensures
            *final(self) == *old(self),
            if old(store).kind != MiniBufferKind::Prompt || text.is_none() || !old(store).awaits_answer {
                *final(store) == *old(store) && effects@.len() == 0
            } else {
                let s = (MiniBufferStore { awaits_answer: false, ..*old(store) });
                &&& *final(store) == if closes(s, s.id) { closed(s) } else { s }
                &&& effects@ == seq![MiniBufferEffect::Answer(text.unwrap())] + if closes(s, s.id) {
                    close_effects(s, view)
                } else {
                    Seq::empty()
                }
            },
    {
        if store.kind != MiniBufferKind::Prompt || !store.awaits_answer {
            return Vec::new();
        }
        let answer = match text {
            None => {
                return Vec::new();
            },
            Some(t) => t,
        };
        store.awaits_answer = false;
        let mut effects: Vec<MiniBufferEffect> = Vec::new();
        effects.push(MiniBufferEffect::Answer(answer));
        let id = store.id;
        let mut rest = self.close(store, id, view);
        let ghost head = effects@;
        let ghost tail = rest@;
        effects.append(&mut rest);
        proof {
            assert(effects@ =~= head + tail);
        }
        effects
    }

    /// Takes the new size of the terminal; an open mini buffer's window
    /// follows its width.
    pub fn resize(&mut self, store: &MiniBufferStore, width: usize, height: usize) -> (effects: Vec<MiniBufferEffect>)
        ensures
            *final(self) == (MiniBufferProtocol { width, height, ..*old(self) }),
            if store.kind == MiniBufferKind::Inactive || store.window.is_none() {
                effects@.len() == 0
            } else {
                effects@ == seq![(MiniBufferEffect::ResizeFloating { window: store.window.unwrap(), width, height: 1 })]
            },
    {
        self.width = width;
        self.height = height;
        let mut effects: Vec<MiniBufferEffect> = Vec::new();
        if store.kind == MiniBufferKind::Inactive {
            return effects;
        }
        match store.window {
            None => {},
            Some(w) => effects.push(MiniBufferEffect::ResizeFloating { window: w, width, height: 1 }),
        }
        effects
    }
}

} // verus!
