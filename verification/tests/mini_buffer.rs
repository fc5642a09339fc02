use fed::commands::ActionCommand;
use fed::mini_buffer::{MiniBufferEffect, MiniBufferId, MiniBufferKind, MiniBufferProtocol, MiniBufferStore};
use fed::state::{DocumentId, ViewId, WindowId};
use fed::types::{Pos, Rect};

fn idle() -> MiniBufferStore {
    MiniBufferStore {
        kind: MiniBufferKind::Inactive,
        id: MiniBufferId(0),
        doc: DocumentId(7),
        view: ViewId(8),
        window: None,
        prev_window: None,
        awaits_answer: false,
    }
}

fn bar(w: usize, h: usize) -> MiniBufferEffect {
    MiniBufferEffect::Float { doc: DocumentId(7), view: ViewId(8), rect: Rect::new(Pos::new(0, h - 1), w, 1) }
}

#[test]
fn a_message_is_written_into_a_window_at_the_bottom() {
    let mut p = MiniBufferProtocol::new(80, 24);
    let mut store = idle();
    let effects = p.message(&mut store, "saved".to_string(), Some(WindowId(1)), None);
    assert_eq!(
        effects,
        vec![
            MiniBufferEffect::Act(ActionCommand::InsertAt { view: ViewId(8), text: "saved".to_string(), offset: 0 }),
            bar(80, 24),
        ]
    );
    assert_eq!(store.kind, MiniBufferKind::Message);
    assert_eq!(store.prev_window, Some(WindowId(1)));
    let id = p.shown(&mut store, WindowId(5));
    assert_eq!(id, MiniBufferId(1));
    assert_eq!(p.next_id, 2);
    assert_eq!(store.window, Some(WindowId(5)));
    assert_eq!(store.id, MiniBufferId(1));
}

#[test]
fn a_prompt_replaces_a_message_and_answers_on_submit() {
    let mut p = MiniBufferProtocol::new(10, 5);
    let mut store = idle();
    p.message(&mut store, "hi".to_string(), Some(WindowId(1)), None);
    p.shown(&mut store, WindowId(5));
    let effects = p.prompt(&mut store, Some(WindowId(5)), Some((vec![2], 2)));
    assert_eq!(
        effects,
        vec![
            MiniBufferEffect::DropWindow(WindowId(5)),
            MiniBufferEffect::Activate(Some(WindowId(1))),
            MiniBufferEffect::DropPrompt(ViewId(8)),
            MiniBufferEffect::Act(ActionCommand::RemoveCursor { view: ViewId(8), offset: 2 }),
            MiniBufferEffect::Act(ActionCommand::Remove { view: ViewId(8), offset: 0, len: 2 }),
            MiniBufferEffect::Act(ActionCommand::CreateCursorAtPos { view: ViewId(8), pos: Pos::new(0, 0) }),
            bar(10, 5),
        ]
    );
    assert_eq!(store.kind, MiniBufferKind::Prompt);
    assert_eq!(store.prev_window, Some(WindowId(1)));
    assert!(store.awaits_answer);
    let (id, effects) = p.prompt_shown(&mut store, WindowId(6), "Path: ".to_string(), true);
    assert_eq!(id, Some(MiniBufferId(2)));
    assert_eq!(
        effects,
        vec![
            MiniBufferEffect::AddPrompt { view: ViewId(8), prompt: "Path: ".to_string() },
            MiniBufferEffect::Activate(Some(WindowId(6))),
        ]
    );
    assert!(p.prompt(&mut store, None, None).is_empty());
    assert!(p.message(&mut store, "busy".to_string(), None, None).is_empty());
    let effects = p.submit(&mut store, Some("a.txt".to_string()), None);
    assert_eq!(
        effects,
        vec![
            MiniBufferEffect::Answer("a.txt".to_string()),
            MiniBufferEffect::DropWindow(WindowId(6)),
            MiniBufferEffect::Activate(Some(WindowId(1))),
        ]
    );
    assert_eq!(store.kind, MiniBufferKind::Inactive);
    assert_eq!(store.window, None);
    assert!(!store.awaits_answer);
}

#[test]
fn submitting_without_a_prompt_does_nothing() {
    let mut p = MiniBufferProtocol::new(10, 5);
    let mut store = idle();
    assert!(p.submit(&mut store, Some("x".to_string()), None).is_empty());
    assert_eq!(store, idle());
}

#[test]
fn closing_another_identifier_does_nothing() {
    let mut p = MiniBufferProtocol::new(10, 5);
    let mut store = idle();
    p.message(&mut store, "hi".to_string(), None, None);
    p.shown(&mut store, WindowId(3));
    let before = store;
    assert!(p.close(&mut store, MiniBufferId(9), None).is_empty());
    assert_eq!(store, before);
    assert_eq!(
        p.close(&mut store, MiniBufferId(1), None),
        vec![MiniBufferEffect::DropWindow(WindowId(3)), MiniBufferEffect::Activate(None)]
    );
}

#[test]
fn resizing_follows_the_width() {
    let mut p = MiniBufferProtocol::new(10, 5);
    let mut store = idle();
    assert!(p.resize(&store, 20, 6).is_empty());
    assert_eq!((p.width, p.height), (20, 6));
    p.message(&mut store, "hi".to_string(), None, None);
    p.shown(&mut store, WindowId(3));
    assert_eq!(
        p.resize(&store, 30, 9),
        vec![MiniBufferEffect::ResizeFloating { window: WindowId(3), width: 30, height: 1 }]
    );
    let effects = p.message(&mut store, "again".to_string(), None, None);
    assert_eq!(effects.last(), Some(&bar(30, 9)));
}

