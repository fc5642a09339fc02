use vstd::prelude::*;
use vstd::string::StringExecFns;

use crate::commands::ActionCommand;
use crate::state::{DocumentId, ViewId, ViewMode};
use crate::types::{Direction, Pos, Rect};
use crate::unicode::char_string;

verus! {

// Priorities are sorted in reverse: the later a variant, the earlier its
// handler is asked and may take the event.

/// The order in which key handlers are asked.
#[derive(Clone, Copy, PartialEq, Eq, Structural, PartialOrd, Ord, Debug)]
pub enum KeyInputPriority {
    NormalMode,
    InsertMode,
    /// Highest, so that an active mini buffer takes the keys.
    MiniBufferMode,
}

/// The order in which mouse handlers are asked.
#[derive(Clone, Copy, PartialEq, Eq, Structural, PartialOrd, Ord, Debug)]
pub enum MouseInputPriority {
    NormalMode,
    InsertMode,
    /// Highest, so that an active mini buffer takes the mouse.
    MiniBufferMode,
}

/// The order in which paste handlers are asked. No protocol takes pastes
/// yet; the one level is for the first that will.
#[derive(Clone, Copy, PartialEq, Eq, Structural, PartialOrd, Ord, Debug)]
pub enum PasteInputPriority {
    Any,
}

/// The order in which resize handlers are told.
#[derive(Clone, Copy, PartialEq, Eq, Structural, PartialOrd, Ord, Debug)]
pub enum ResizeInputPriority {
    ViewProtocol,
    MiniBufferProtocol,
    /// Highest, so that the screen buffer is resized first.
    ScreenProtocol,
}

impl KeyInputPriority {
    /// The place of the priority in its order, lowest first.
    pub fn level(&self) -> (r: u8)
        ensures
            r == match *self {
                KeyInputPriority::NormalMode => 0u8,
                KeyInputPriority::InsertMode => 1u8,
                KeyInputPriority::MiniBufferMode => 2u8,
            },
    {
        match *self {
            KeyInputPriority::NormalMode => 0,
            KeyInputPriority::InsertMode => 1,
            KeyInputPriority::MiniBufferMode => 2,
        }
    }
}

impl MouseInputPriority {
    /// The place of the priority in its order, lowest first.
    pub fn level(&self) -> (r: u8)
        ensures
            r == match *self {
                MouseInputPriority::NormalMode => 0u8,
                MouseInputPriority::InsertMode => 1u8,
                MouseInputPriority::MiniBufferMode => 2u8,
            },
    {
        match *self {
            MouseInputPriority::NormalMode => 0,
            MouseInputPriority::InsertMode => 1,
            MouseInputPriority::MiniBufferMode => 2,
        }
    }
}

impl PasteInputPriority {
    /// The place of the priority in its order, lowest first.
    pub fn level(&self) -> (r: u8)
        ensures
            r == 0,
    {
        match *self {
            PasteInputPriority::Any => 0,
        }
    }
}

impl ResizeInputPriority {
    /// The place of the priority in its order, lowest first.
    pub fn level(&self) -> (r: u8)
        ensures
            r == match *self {
                ResizeInputPriority::ViewProtocol => 0u8,
                ResizeInputPriority::MiniBufferProtocol => 1u8,
                ResizeInputPriority::ScreenProtocol => 2u8,
            },
    {
        match *self {
            ResizeInputPriority::ViewProtocol => 0,
            ResizeInputPriority::MiniBufferProtocol => 1,
            ResizeInputPriority::ScreenProtocol => 2,
        }
    }
}

/// Which handler, by its place in the dispatch order, to ask next for an
/// event, when the first `asked` of the `count` handlers were asked and
/// `taken` says whether the last of them took it: none once one took the
/// event or every handler was asked, so the event goes to the first handler
/// in the order that takes it.
pub fn next_handler(count: usize, asked: usize, taken: bool) -> (r: Option<usize>)
    ensures
        r == (if taken || asked >= count { None::<usize> } else { Some(asked) }),
{
    if taken || asked >= count {
        None
    } else {
        Some(asked)
    }
}

/// Whether the handler `a` is asked before the handler `b`, given the levels
/// of all handlers in the order they were added: a higher level first, and
/// of two on one level the one added first.
pub open spec fn asked_before(levels: Seq<u8>, a: int, b: int) -> bool {
    levels[a] > levels[b] || (levels[a] == levels[b] && a < b)
}

/// The order in which handlers are asked for an event, as indices into the
/// handlers in the order they were added: by level, highest first, and in
/// the order of adding within a level.
pub fn dispatch_order(levels: &Vec<u8>) -> (order: Vec<usize>)
    ensures
        order@.len() == levels@.len(),
        forall|i: int| 0 <= i < order@.len() ==> #[trigger] order@[i] < levels@.len(),
        forall|i: int, j: int|
            0 <= i < j < order@.len() ==> asked_before(levels@, #[trigger] order@[i] as int, #[trigger] order@[j] as int),
{
    let mut order: Vec<usize> = Vec::new();
    let mut i: usize = 0;
    while i < levels.len()
        invariant
            i <= levels@.len(),
            order@.len() == i,
            forall|k: int| 0 <= k < order@.len() ==> #[trigger] order@[k] < i,
            forall|a: int, b: int|
                0 <= a < b < order@.len() ==> asked_before(levels@, #[trigger] order@[a] as int, #[trigger] order@[b] as int),
        decreases levels@.len() - i,
    {
        let r = levels[i];
        let mut p: usize = 0;
        while p < order.len() && levels[order[p]] >= r
            invariant
                p <= order@.len(),
                order@.len() == i,
                i < levels@.len(),
                forall|k: int| 0 <= k < order@.len() ==> #[trigger] order@[k] < i,
                forall|q: int| 0 <= q < p ==> levels@[#[trigger] order@[q] as int] >= r,
            decreases order@.len() - p,
        {
            p = p + 1;
        }
        let ghost before = order@;
        proof {
            assert forall|q: int| p <= q < before.len() implies levels@[#[trigger] before[q] as int] < r by {
                assert(levels@[before[p as int] as int] < r);
                if q > p {
                    assert(asked_before(levels@, before[p as int] as int, before[q] as int));
                }
            }
        }
        order.insert(p, i);
        proof {
            assert(order@ == before.insert(p as int, i));
            assert forall|k: int| 0 <= k < order@.len() implies #[trigger] order@[k] < i + 1 by {
                if k < p {
                    assert(order@[k] == before[k]);
                } else if k > p {
                    assert(order@[k] == before[k - 1]);
                }
            }
            assert forall|a: int, b: int| 0 <= a < b < order@.len() implies asked_before(
                levels@,
                #[trigger] order@[a] as int,
                #[trigger] order@[b] as int,
            ) by {
                if b < p {
                    assert(order@[a] == before[a] && order@[b] == before[b]);
                    assert(asked_before(levels@, before[a] as int, before[b] as int));
                } else if b == p {
                    assert(order@[a] == before[a]);
                    assert(levels@[before[a] as int] >= r);
                } else if a == p {
                    assert(order@[b] == before[b - 1]);
                    assert(levels@[before[b - 1] as int] < r);
                } else if a < p {
                    assert(order@[a] == before[a] && order@[b] == before[b - 1]);
                    assert(asked_before(levels@, before[a] as int, before[b - 1] as int));
                } else {
                    assert(order@[a] == before[a - 1] && order@[b] == before[b - 1]);
                    assert(asked_before(levels@, before[a - 1] as int, before[b - 1] as int));
                }
            }
        }
        i = i + 1;
    }
    order
}

/// Implemented by protocol input handlers to receive pasted text.
pub trait PasteInputHandler: Send + Sync + 'static {
    /// The static priority of the handler, which decides when it is asked.
    fn priority(&self) -> PasteInputPriority;

    /// Takes, or leaves, pasted text: `true` when the handler consumed it.
    fn paste(&mut self, text: &String) -> bool;
}

/// Implemented by protocol input handlers to learn of terminal resizes.
pub trait ResizeInputHandler: Send + Sync + 'static {
    /// The static priority of the handler, which decides when it is told.
    fn priority(&self) -> ResizeInputPriority;

    /// Learns the new terminal size, in columns and rows.
    fn resize(&mut self, size: (u16, u16));
}

/// A key, as the editor tells them apart.
#[derive(Clone, Copy, PartialEq, Eq, Structural, Debug)]
pub enum Key {
    Char(char),
    Left,
    Right,
    Up,
    Down,
    Backspace,
    Delete,
    Enter,
    Tab,
    Esc,
    Other,
}

/// The modifier keys held with a key.
#[derive(Clone, Copy, PartialEq, Eq, Structural, Debug)]
pub struct Modifiers {
    pub shift: bool,
    pub control: bool,
    pub alt: bool,
    pub super_key: bool,
    pub hyper: bool,
    pub meta: bool,
}

/// The letters of the held modifiers other than shift, in the order
/// control, alt, super, hyper, meta.
pub open spec fn modifier_letters(m: Modifiers) -> Seq<char> {
    (if m.control { seq!['C'] } else { Seq::empty() }) + (if m.alt { seq!['A'] } else { Seq::empty() })
        + (if m.super_key { seq!['S'] } else { Seq::empty() }) + (if m.hyper { seq!['H'] } else { Seq::empty() })
        + (if m.meta { seq!['M'] } else { Seq::empty() })
}

/// Letters joined by dashes.
pub open spec fn dashed(s: Seq<char>) -> Seq<char>
    decreases s.len(),
{
    if s.len() <= 1 {
        s
    } else {
        dashed(s.drop_last()) + seq!['-', s.last()]
    }
}

/// The text a typed `char` inserts: the `char`, or, with modifiers, the
/// modifiers and the `char` in angle brackets, as in `<C-A-x>`.
pub open spec fn typed_text(c: char, m: Modifiers) -> Seq<char> {
    let letters = modifier_letters(m);
    if letters.len() > 0 {
        seq!['<'] + dashed(letters) + seq!['-', c, '>']
    } else {
        seq![c]
    }
}

/// Writes the text a typed `char` inserts.
pub fn key_text(c: char, m: Modifiers) -> (s: String)
    ensures
        s@ == typed_text(c, m),
{
    let mut letters: Vec<char> = Vec::new();
    if m.control {
        letters.push('C');
    }
    if m.alt {
        letters.push('A');
    }
    if m.super_key {
        letters.push('S');
    }
    if m.hyper {
        letters.push('H');
    }
    if m.meta {
        letters.push('M');
    }
    proof {
        assert(letters@ =~= modifier_letters(m));
    }
    if letters.len() == 0 {
        return char_string(c);
    }
    let mut s = "<".to_owned();
    proof {
        reveal_strlit("<");
        assert(s@ =~= seq!['<']);
    }
    let mut k: usize = 0;
    while k < letters.len()
        invariant
            k <= letters@.len(),
            letters@.len() > 0,
            s@ == seq!['<'] + dashed(letters@.take(k as int)),
        decreases letters@.len() - k,
    {
        let ghost before = s@;
        if k > 0 {
            s.append("-");
            proof {
                reveal_strlit("-");
            }
        }
        let l = char_string(letters[k]);
        s.append(l.as_str());
        proof {
            assert(letters@.take(k + 1).drop_last() =~= letters@.take(k as int));
            if k > 0 {
                assert("-"@ =~= seq!['-']);
                assert(s@ =~= seq!['<'] + (dashed(letters@.take(k as int)) + seq!['-', letters@[k as int]]));
            } else {
                assert(letters@.take(1) =~= seq![letters@[0]]);
                assert(s@ =~= seq!['<'] + dashed(letters@.take(1)));
            }
        }
        k = k + 1;
    }
    s.append("-");
    let cs = char_string(c);
    s.append(cs.as_str());
    s.append(">");
    proof {
        reveal_strlit("-");
        reveal_strlit(">");
        assert(letters@.take(letters@.len() as int) == letters@);
        assert(s@ =~= seq!['<'] + dashed(letters@) + seq!['-', c, '>']);
    }
    s
}

/// Whether `c` asks to insert `text` in `view`.
pub open spec fn is_insert(c: ActionCommand, view: ViewId, text: Seq<char>) -> bool {
    match c {
        ActionCommand::Insert { view: w, text: t } => w == view && t@ == text,
        _ => false,
    }
}

/// A single request.
fn single(c: ActionCommand) -> (v: Vec<ActionCommand>)
    ensures
        v@ == seq![c],
{
    let mut v = Vec::new();
    v.push(c);
    v
}

/// Two requests, in order.
fn pair(a: ActionCommand, b: ActionCommand) -> (v: Vec<ActionCommand>)
    ensures
        v@ == seq![a, b],
{
    let mut v = Vec::new();
    v.push(a);
    v.push(b);
    v
}

/// What a key does in normal mode.
pub enum NormalKeyOutcome {
    /// Not for normal mode: another handler may take it.
    Ignored,
    /// Control-q: leave the editor.
    Quit,
    /// Actions to request, in order.
    Actions(Vec<ActionCommand>),
    /// `T`: show a greeting in the mini buffer for a while.
    ShowGreeting,
    /// `P`: ask for a line in the mini buffer and show it back.
    AskPrompt,
}

/// What a key does in a view in normal mode: `h`, `j`, `k`, `l` move the
/// cursors left, down, up and right, `i` opens a commit and enters insert
/// mode, control-q quits.
pub fn normal_key(mode: ViewMode, view: ViewId, doc: DocumentId, key: Key, m: Modifiers) -> (r: NormalKeyOutcome)
    ensures
        mode != ViewMode::Normal ==> r is Ignored,
        mode == ViewMode::Normal && m.control && key == Key::Char('q') ==> r is Quit,
        mode == ViewMode::Normal && !(m.control && key == Key::Char('q')) ==> match key {
            Key::Char('h') => r matches NormalKeyOutcome::Actions(v)
                && v@ == seq![ActionCommand::MoveCursors { view, direction: Direction::Left }],
            Key::Char('j') => r matches NormalKeyOutcome::Actions(v)
                && v@ == seq![ActionCommand::MoveCursors { view, direction: Direction::Down }],
            Key::Char('k') => r matches NormalKeyOutcome::Actions(v)
                && v@ == seq![ActionCommand::MoveCursors { view, direction: Direction::Up }],
            Key::Char('l') => r matches NormalKeyOutcome::Actions(v)
                && v@ == seq![ActionCommand::MoveCursors { view, direction: Direction::Right }],
            Key::Char('i') => r matches NormalKeyOutcome::Actions(v) && v@ == seq![
                ActionCommand::StartCommit { doc },
                ActionCommand::SetViewMode { view, mode: ViewMode::Insert },
            ],
            Key::Char('T') => r is ShowGreeting,
            Key::Char('P') => r is AskPrompt,
            _ => r is Ignored,
        },
{
    if mode != ViewMode::Normal {
        return NormalKeyOutcome::Ignored;
    }
    if m.control && key == Key::Char('q') {
        return NormalKeyOutcome::Quit;
    }
    match key {
        Key::Char('h') => NormalKeyOutcome::Actions(single(ActionCommand::MoveCursors { view, direction: Direction::Left })),
        Key::Char('j') => NormalKeyOutcome::Actions(single(ActionCommand::MoveCursors { view, direction: Direction::Down })),
        Key::Char('k') => NormalKeyOutcome::Actions(single(ActionCommand::MoveCursors { view, direction: Direction::Up })),
        Key::Char('l') => NormalKeyOutcome::Actions(single(ActionCommand::MoveCursors { view, direction: Direction::Right })),
        Key::Char('i') => {
            NormalKeyOutcome::Actions(
                pair(ActionCommand::StartCommit { doc }, ActionCommand::SetViewMode { view, mode: ViewMode::Insert }),
            )
        },
        Key::Char('T') => NormalKeyOutcome::ShowGreeting,
        Key::Char('P') => NormalKeyOutcome::AskPrompt,
        _ => NormalKeyOutcome::Ignored,
    }
}

/// What a key does in a view in insert mode: arrows move the cursors,
/// backspace and delete remove, a `char`, enter and tab insert their text,
/// escape closes the commit and returns to normal mode. `None` for keys
/// insert mode leaves to others.
pub fn insert_key(mode: ViewMode, view: ViewId, doc: DocumentId, key: Key, m: Modifiers) -> (r: Option<Vec<ActionCommand>>)
    ensures
        mode != ViewMode::Insert ==> r is None,
        mode == ViewMode::Insert ==> match key {
            Key::Left => r matches Some(v) && v@ == seq![ActionCommand::MoveCursors { view, direction: Direction::Left }],
            Key::Right => r matches Some(v) && v@ == seq![ActionCommand::MoveCursors { view, direction: Direction::Right }],
            Key::Up => r matches Some(v) && v@ == seq![ActionCommand::MoveCursors { view, direction: Direction::Up }],
            Key::Down => r matches Some(v) && v@ == seq![ActionCommand::MoveCursors { view, direction: Direction::Down }],
            Key::Backspace => r matches Some(v) && v@ == seq![ActionCommand::Backspace { view }],
            Key::Delete => r matches Some(v) && v@ == seq![ActionCommand::Delete { view }],
            Key::Char(c) => r matches Some(v) && v@.len() == 1 && is_insert(v@[0], view, typed_text(c, m)),
            Key::Enter => r matches Some(v) && v@.len() == 1 && is_insert(v@[0], view, seq!['\n']),
            Key::Tab => r matches Some(v) && v@.len() == 1 && is_insert(v@[0], view, seq!['\t']),
            Key::Esc => r matches Some(v) && v@ == seq![
                ActionCommand::EndCommit { doc },
                ActionCommand::SetViewMode { view, mode: ViewMode::Normal },
            ],
            Key::Other => r is None,
        },
{
    if mode != ViewMode::Insert {
        return None;
    }
    match key {
        Key::Left => Some(single(ActionCommand::MoveCursors { view, direction: Direction::Left })),
        Key::Right => Some(single(ActionCommand::MoveCursors { view, direction: Direction::Right })),
        Key::Up => Some(single(ActionCommand::MoveCursors { view, direction: Direction::Up })),
        Key::Down => Some(single(ActionCommand::MoveCursors { view, direction: Direction::Down })),
        Key::Backspace => Some(single(ActionCommand::Backspace { view })),
        Key::Delete => Some(single(ActionCommand::Delete { view })),
        Key::Char(c) => Some(single(ActionCommand::Insert { view, text: key_text(c, m) })),
        Key::Enter => Some(single(ActionCommand::Insert { view, text: char_string('\n') })),
        Key::Tab => Some(single(ActionCommand::Insert { view, text: char_string('\t') })),
        Key::Esc => {
            Some(pair(ActionCommand::EndCommit { doc }, ActionCommand::SetViewMode { view, mode: ViewMode::Normal }))
        },
        Key::Other => None,
    }
}

/// What a key does in an active mini buffer prompt.
pub enum MiniBufferKeyOutcome {
    /// Not for the prompt.
    Ignored,
    /// Actions to request on the prompt's view, in order.
    Actions(Vec<ActionCommand>),
    /// Enter: hand in the prompt's text.
    Submit,
    /// Escape: close the prompt.
    Close,
}

/// What a key does while the mini buffer's prompt has the focus: left and
/// right move, up and down do nothing yet, backspace, delete, `char`s and tab
/// edit, enter submits, escape closes.
pub fn mini_buffer_key(prompt_active: bool, view: ViewId, key: Key, m: Modifiers) -> (r: MiniBufferKeyOutcome)
    ensures
        !prompt_active ==> r is Ignored,
        prompt_active ==> match key {
            Key::Left => r matches MiniBufferKeyOutcome::Actions(v)
                && v@ == seq![ActionCommand::MoveCursors { view, direction: Direction::Left }],
            Key::Right => r matches MiniBufferKeyOutcome::Actions(v)
                && v@ == seq![ActionCommand::MoveCursors { view, direction: Direction::Right }],
            Key::Up => r matches MiniBufferKeyOutcome::Actions(v) && v@.len() == 0,
            Key::Down => r matches MiniBufferKeyOutcome::Actions(v) && v@.len() == 0,
            Key::Backspace => r matches MiniBufferKeyOutcome::Actions(v) && v@ == seq![ActionCommand::Backspace { view }],
            Key::Delete => r matches MiniBufferKeyOutcome::Actions(v) && v@ == seq![ActionCommand::Delete { view }],
            Key::Char(c) => r matches MiniBufferKeyOutcome::Actions(v) && v@.len() == 1 && is_insert(
                v@[0],
                view,
                typed_text(c, m),
            ),
            Key::Tab => r matches MiniBufferKeyOutcome::Actions(v) && v@.len() == 1 && is_insert(v@[0], view, seq!['\t']),
            Key::Enter => r is Submit,
            Key::Esc => r is Close,
            Key::Other => r is Ignored,
        },
{
    if !prompt_active {
        return MiniBufferKeyOutcome::Ignored;
    }
    match key {
        Key::Left => MiniBufferKeyOutcome::Actions(single(ActionCommand::MoveCursors { view, direction: Direction::Left })),
        Key::Right => MiniBufferKeyOutcome::Actions(single(ActionCommand::MoveCursors { view, direction: Direction::Right })),
        Key::Up => MiniBufferKeyOutcome::Actions(Vec::new()),
        Key::Down => MiniBufferKeyOutcome::Actions(Vec::new()),
        Key::Backspace => MiniBufferKeyOutcome::Actions(single(ActionCommand::Backspace { view })),
        Key::Delete => MiniBufferKeyOutcome::Actions(single(ActionCommand::Delete { view })),
        Key::Char(c) => MiniBufferKeyOutcome::Actions(single(ActionCommand::Insert { view, text: key_text(c, m) })),
        Key::Enter => MiniBufferKeyOutcome::Submit,
        Key::Tab => MiniBufferKeyOutcome::Actions(single(ActionCommand::Insert { view, text: char_string('\t') })),
        Key::Esc => MiniBufferKeyOutcome::Close,
        Key::Other => MiniBufferKeyOutcome::Ignored,
    }
}

/// The text position a click at the screen position `click` points at in a
/// window at `rect`, whose view has a gutter of `gutter` columns, a mode
/// line of `mode_line` rows and is scrolled by `scroll`; `None` for a click
/// on the gutter or the mode line.
pub open spec fn click_pos(click: Pos, rect: Rect, gutter: int, mode_line: int, scroll: Pos) -> Option<Pos> {
    let x = if click.x >= rect.pos.x { click.x - rect.pos.x } else { 0 };
    let y = if click.y >= rect.pos.y { click.y - rect.pos.y } else { 0 };
    let h = if rect.height >= mode_line { rect.height - mode_line } else { 0 };
    if x < gutter || y >= h {
        None
    } else {
        Some(Pos { x: (x - gutter + scroll.x) as usize, y: (y + scroll.y) as usize })
    }
}

/// A click inside a window's text area (right of the gutter, above the mode
/// line) points at the text position that is its place in the text area
/// plus the view's scroll, on both axes; a click in the gutter or on the
/// mode line points at none.
pub proof fn lemma_click_pos(click: Pos, rect: Rect, gutter: int, mode_line: int, scroll: Pos)
    requires
        0 <= gutter,
        0 <= mode_line,
        click.x - rect.pos.x - gutter + scroll.x <= usize::MAX,
        click.y - rect.pos.y + scroll.y <= usize::MAX,
    ensures
        rect.pos.x + gutter <= click.x && rect.pos.y <= click.y && click.y < rect.pos.y + rect.height
            - mode_line ==> click_pos(click, rect, gutter, mode_line, scroll) == Some(
            Pos {
                x: (click.x - rect.pos.x - gutter + scroll.x) as usize,
                y: (click.y - rect.pos.y + scroll.y) as usize,
            },
        ),
        rect.pos.x <= click.x < rect.pos.x + gutter ==> click_pos(click, rect, gutter, mode_line, scroll)
            is None,
        rect.pos.y <= click.y && click.y >= rect.pos.y + rect.height - mode_line ==> click_pos(
            click,
            rect,
            gutter,
            mode_line,
            scroll,
        ) is None,
{
}

/// What a left click does in a view whose mode is `mode`, in the mode
/// `wanted`: with alt it adds a cursor at the text position clicked, else it
/// moves the cursors there. `None` for other modes, other mouse events, and
/// clicks on the gutter or the mode line.
pub fn click_action(
    mode: ViewMode,
    wanted: ViewMode,
    left_down: bool,
    alt: bool,
    view: ViewId,
    click: Pos,
    rect: Rect,
    gutter: usize,
    mode_line: usize,
    scroll: Pos,
) -> (r: Option<ActionCommand>)
    requires
        scroll.x + click.x <= usize::MAX,
        scroll.y + click.y <= usize::MAX,
    ensures
        mode != wanted || !left_down ==> r is None,
        mode == wanted && left_down ==> match click_pos(click, rect, gutter as int, mode_line as int, scroll) {
            None => r is None,
            Some(pos) => if alt {
                r == Some(ActionCommand::CreateCursorAtPos { view, pos })
            } else {
                r == Some(ActionCommand::MoveCursorToPos { view, pos })
            },
        },
{
    if mode != wanted || !left_down {
        return None;
    }
    let x = click.x.saturating_sub(rect.pos.x);
    let y = click.y.saturating_sub(rect.pos.y);
    if x < gutter || y >= rect.height.saturating_sub(mode_line) {
        return None;
    }
    let pos = Pos::new(x - gutter + scroll.x, y + scroll.y);
    if alt {
        Some(ActionCommand::CreateCursorAtPos { view, pos })
    } else {
        Some(ActionCommand::MoveCursorToPos { view, pos })
    }
}

} // verus!
