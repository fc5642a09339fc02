use fed::commands::ActionCommand;
use fed::input::{
    click_action, dispatch_order, insert_key, key_text, mini_buffer_key, normal_key, Key, KeyInputPriority,
    MiniBufferKeyOutcome, Modifiers, MouseInputPriority, NormalKeyOutcome, PasteInputPriority,
    ResizeInputPriority,
};
use fed::piece_table::PieceTable;
use fed::scroll::{fetch_height, fetch_lines, scroll_to_show, split_shown_lines, view_scroll};
use fed::state::{DocumentId, Layout, ViewId, ViewMode};
use fed::types::{Direction, Pos, Rect};

fn none() -> Modifiers {
    Modifiers { shift: false, control: false, alt: false, super_key: false, hyper: false, meta: false }
}

#[test]
fn normal_mode_keys() {
    let v = ViewId(3);
    let d = DocumentId(5);
    match normal_key(ViewMode::Normal, v, d, Key::Char('h'), none()) {
        NormalKeyOutcome::Actions(cmds) => {
            assert_eq!(cmds.len(), 1);
            assert!(matches!(cmds[0], ActionCommand::MoveCursors { view: ViewId(3), direction: Direction::Left }));
        },
        _ => panic!("h moves left"),
    }
    match normal_key(ViewMode::Normal, v, d, Key::Char('i'), none()) {
        NormalKeyOutcome::Actions(cmds) => {
            assert!(matches!(cmds[0], ActionCommand::StartCommit { doc: DocumentId(5) }));
            assert!(matches!(cmds[1], ActionCommand::SetViewMode { mode: ViewMode::Insert, .. }));
        },
        _ => panic!("i enters insert mode"),
    }
    let mut ctrl = none();
    ctrl.control = true;
    assert!(matches!(normal_key(ViewMode::Normal, v, d, Key::Char('q'), ctrl), NormalKeyOutcome::Quit));
    assert!(matches!(normal_key(ViewMode::Normal, v, d, Key::Char('z'), none()), NormalKeyOutcome::Ignored));
    assert!(matches!(normal_key(ViewMode::Insert, v, d, Key::Char('h'), none()), NormalKeyOutcome::Ignored));
    assert!(matches!(normal_key(ViewMode::Normal, v, d, Key::Char('T'), none()), NormalKeyOutcome::ShowGreeting));
}

#[test]
fn insert_mode_keys() {
    let v = ViewId(1);
    let d = DocumentId(1);
    let cmds = insert_key(ViewMode::Insert, v, d, Key::Char('x'), none()).unwrap();
    assert!(matches!(&cmds[0], ActionCommand::Insert { text, .. } if text == "x"));
    let cmds = insert_key(ViewMode::Insert, v, d, Key::Enter, none()).unwrap();
    assert!(matches!(&cmds[0], ActionCommand::Insert { text, .. } if text == "\n"));
    let cmds = insert_key(ViewMode::Insert, v, d, Key::Esc, none()).unwrap();
    assert!(matches!(cmds[0], ActionCommand::EndCommit { .. }));
    assert!(matches!(cmds[1], ActionCommand::SetViewMode { mode: ViewMode::Normal, .. }));
    assert!(insert_key(ViewMode::Normal, v, d, Key::Char('x'), none()).is_none());
    assert!(insert_key(ViewMode::Insert, v, d, Key::Other, none()).is_none());
}

#[test]
fn modifiers_are_spelled_out() {
    let mut m = none();
    m.control = true;
    assert_eq!(key_text('x', m), "<C-x>");
    m.alt = true;
    m.meta = true;
    m.shift = true;
    assert_eq!(key_text('x', m), "<C-A-M-x>");
    assert_eq!(key_text('y', none()), "y");
}

#[test]
fn mini_buffer_keys() {
    let v = ViewId(2);
    assert!(matches!(mini_buffer_key(false, v, Key::Enter, none()), MiniBufferKeyOutcome::Ignored));
    assert!(matches!(mini_buffer_key(true, v, Key::Enter, none()), MiniBufferKeyOutcome::Submit));
    assert!(matches!(mini_buffer_key(true, v, Key::Esc, none()), MiniBufferKeyOutcome::Close));
    match mini_buffer_key(true, v, Key::Up, none()) {
        MiniBufferKeyOutcome::Actions(cmds) => assert!(cmds.is_empty()),
        _ => panic!("up is taken"),
    }
}

#[test]
fn priorities_order() {
    assert!(KeyInputPriority::MiniBufferMode > KeyInputPriority::InsertMode);
    assert!(KeyInputPriority::InsertMode > KeyInputPriority::NormalMode);
    assert!(ResizeInputPriority::ScreenProtocol > ResizeInputPriority::ViewProtocol);
}

#[test]
fn clicks_map_to_text_positions() {
    let rect = Rect::new(Pos::new(10, 5), 20, 10);
    let v = ViewId(1);
    let r = click_action(ViewMode::Normal, ViewMode::Normal, true, false, v, Pos::new(15, 6), rect, 3, 1, Pos::new(0, 4));
    assert!(matches!(r, Some(ActionCommand::MoveCursorToPos { pos: Pos { x: 2, y: 5 }, .. })));
    let r = click_action(ViewMode::Normal, ViewMode::Normal, true, true, v, Pos::new(15, 6), rect, 3, 1, Pos::new(0, 0));
    assert!(matches!(r, Some(ActionCommand::CreateCursorAtPos { pos: Pos { x: 2, y: 1 }, .. })));
    assert!(click_action(ViewMode::Normal, ViewMode::Normal, true, false, v, Pos::new(11, 6), rect, 3, 1, Pos::new(0, 0)).is_none());
    assert!(click_action(ViewMode::Normal, ViewMode::Normal, true, false, v, Pos::new(15, 14), rect, 3, 1, Pos::new(0, 0)).is_none());
    assert!(click_action(ViewMode::Insert, ViewMode::Normal, true, false, v, Pos::new(15, 6), rect, 3, 1, Pos::new(0, 0)).is_none());
}

#[test]
fn scrolling_shows_the_position() {
    let (s, needed) = scroll_to_show(Pos::new(0, 0), Pos::new(3, 12), 10, 5);
    assert_eq!(s, Pos::new(0, 8));
    assert!(needed);
    let (s, needed) = scroll_to_show(Pos::new(4, 8), Pos::new(2, 9), 10, 5);
    assert_eq!(s, Pos::new(2, 8));
    assert!(needed);
    let (s, needed) = scroll_to_show(Pos::new(0, 8), Pos::new(3, 9), 10, 5);
    assert_eq!(s, Pos::new(0, 8));
    assert!(!needed);
    let (s, needed) = scroll_to_show(Pos::new(1, 1), Pos::new(3, 2), 0, 0);
    assert_eq!(s, Pos::new(4, 3));
    assert!(needed);
}

#[test]
fn views_scroll_within_their_text_area() {
    let rect = Rect::new(Pos::new(0, 0), 12, 6);
    let layout = Layout { gutter: true, mode_line: 1 };
    assert_eq!(view_scroll(Pos::new(0, 0), Pos::new(0, 5), rect, layout, 20), Some(Pos::new(0, 1)));
    assert_eq!(view_scroll(Pos::new(0, 0), Pos::new(0, 4), rect, layout, 20), None);
    assert_eq!(view_scroll(Pos::new(0, 0), Pos::new(9, 0), rect, layout, 20), Some(Pos::new(1, 0)));
    assert_eq!(view_scroll(Pos::new(0, 0), Pos::new(9, 9), Rect::new(Pos::new(0, 0), 3, 6), layout, 20), None);
}

#[test]
fn fetched_lines_keep_their_newlines() {
    let lines = split_shown_lines(&"ab\ncd".to_string());
    assert_eq!(lines, vec!["ab\n".to_string(), "cd".to_string()]);
    let lines = split_shown_lines(&"ab\n".to_string());
    assert_eq!(lines, vec!["ab\n".to_string(), String::new()]);
    let lines = split_shown_lines(&String::new());
    assert_eq!(lines, vec![String::new()]);
    let t = PieceTable::from_str("a\nb\nc\nd");
    let d = fetch_lines(&t, 1, 1);
    assert_eq!(d.offset, 2);
    assert_eq!(d.lines, vec!["b\n".to_string(), "c\n".to_string(), String::new()]);
}

#[test]
fn handlers_are_asked_by_level_then_in_order_added() {
    let levels = vec![
        KeyInputPriority::NormalMode.level(),
        KeyInputPriority::MiniBufferMode.level(),
        KeyInputPriority::InsertMode.level(),
        KeyInputPriority::MiniBufferMode.level(),
    ];
    assert_eq!(levels, vec![0, 2, 1, 2]);
    assert_eq!(dispatch_order(&levels), vec![1, 3, 2, 0]);
    assert_eq!(dispatch_order(&vec![]), Vec::<usize>::new());
    assert_eq!(dispatch_order(&vec![0, 0, 0]), vec![0, 1, 2]);
}

#[test]
fn resize_handlers_put_the_screen_first() {
    let levels = vec![
        ResizeInputPriority::ViewProtocol.level(),
        ResizeInputPriority::ScreenProtocol.level(),
        ResizeInputPriority::MiniBufferProtocol.level(),
    ];
    assert_eq!(dispatch_order(&levels), vec![1, 2, 0]);
    assert_eq!(MouseInputPriority::InsertMode.level(), 1);
    assert_eq!(PasteInputPriority::Any.level(), 0);
}

#[test]
fn a_view_fetches_for_its_tallest_window() {
    assert_eq!(fetch_height(&vec![10, 3, 7], 1), 9);
    assert_eq!(fetch_height(&vec![1, 0], 1), 0);
    assert_eq!(fetch_height(&vec![], 1), 0);
    assert_eq!(fetch_height(&vec![4], 0), 4);
}

#[test]
fn events_go_to_the_first_handler_that_takes_them() {
    assert_eq!(fed::input::next_handler(3, 0, false), Some(0));
    assert_eq!(fed::input::next_handler(3, 1, false), Some(1));
    assert_eq!(fed::input::next_handler(3, 2, true), None);
    assert_eq!(fed::input::next_handler(3, 3, false), None);
    assert_eq!(fed::input::next_handler(0, 0, false), None);
}
