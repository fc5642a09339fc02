use vstd::prelude::*;

verus! {

/// A position on a grid: column `x`, row `y`.
#[derive(Clone, Copy, PartialEq, Eq, Structural, Debug)]
pub struct Pos {
    pub x: usize,
    pub y: usize,
}

impl Pos {
    pub fn new(x: usize, y: usize) -> (p: Self)
        ensures
            p.x == x,
            p.y == y,
    {
        Pos { x, y }
    }
}

/// A rectangle on a grid, given by its top left corner and its size.
#[derive(Clone, Copy, PartialEq, Eq, Structural, Debug)]
pub struct Rect {
    pub pos: Pos,
    pub width: usize,
    pub height: usize,
}

impl Rect {
    pub fn new(pos: Pos, width: usize, height: usize) -> (r: Self)
        ensures
            r.pos == pos,
            r.width == width,
            r.height == height,
    {
        Rect { pos, width, height }
    }

    /// Whether `p` lies inside the rectangle.
    pub open spec fn spec_contains(self, p: Pos) -> bool {
        self.pos.x <= p.x < self.pos.x + self.width && self.pos.y <= p.y < self.pos.y + self.height
    }

    /// Whether `p` lies inside the rectangle.
    pub fn contains(&self, p: Pos) -> (b: bool)
        ensures
            b == self.spec_contains(p),
    {
        p.x >= self.pos.x && p.x - self.pos.x < self.width && p.y >= self.pos.y && p.y - self.pos.y
            < self.height
    }

    /// Whether the two rectangles share columns, and whether they share rows.
    pub open spec fn spec_intersects(self, other: Rect) -> (bool, bool) {
        (
            self.pos.x < other.pos.x + other.width && other.pos.x < self.pos.x + self.width,
            self.pos.y < other.pos.y + other.height && other.pos.y < self.pos.y + self.height,
        )
    }

    /// Whether the two rectangles share columns, and whether they share rows.
    pub fn intersects(&self, other: &Rect) -> (r: (bool, bool))
        ensures
            r == self.spec_intersects(*other),
    {
        let x = (self.pos.x < other.pos.x || self.pos.x - other.pos.x < other.width) && (other.pos.x
            < self.pos.x || other.pos.x - self.pos.x < self.width);
        let y = (self.pos.y < other.pos.y || self.pos.y - other.pos.y < other.height) && (other.pos.y
            < self.pos.y || other.pos.y - self.pos.y < self.height);
        (x, y)
    }

    /// The distance of the two corners, counted along the columns and the
    /// rows.
    pub open spec fn spec_distance(self, other: Rect) -> int {
        let dx = if self.pos.x >= other.pos.x { self.pos.x - other.pos.x } else { other.pos.x - self.pos.x };
        let dy = if self.pos.y >= other.pos.y { self.pos.y - other.pos.y } else { other.pos.y - self.pos.y };
        dx + dy
    }

    /// The distance of the two corners, counted along the columns and the
    /// rows.
    pub fn distance(&self, other: &Rect) -> (d: usize)
        requires
            self.spec_distance(*other) <= usize::MAX,
        ensures
            d == self.spec_distance(*other),
    {
        let dx = if self.pos.x >= other.pos.x { self.pos.x - other.pos.x } else { other.pos.x - self.pos.x };
        let dy = if self.pos.y >= other.pos.y { self.pos.y - other.pos.y } else { other.pos.y - self.pos.y };
        dx + dy
    }
}

/// The four directions a cursor moves in.
#[derive(Clone, Copy, PartialEq, Eq, Structural, Debug)]
pub enum Direction {
    Up,
    Down,
    Left,
    Right,
}

/// A terminal colour.
#[derive(Clone, Copy, PartialEq, Eq, Structural, Debug)]
pub struct Rgb {
    pub r: u8,
    pub g: u8,
    pub b: u8,
}

/// How a cell is drawn. A field that is `None` leaves the terminal's default.
#[derive(Clone, Copy, PartialEq, Eq, Structural, Debug)]
pub struct Face {
    pub fg: Option<Rgb>,
    pub bg: Option<Rgb>,
    pub bold: Option<bool>,
    pub italic: Option<bool>,
    pub underline: Option<bool>,
    pub reverse: Option<bool>,
}

/// The face that sets nothing.
pub open spec fn plain_face() -> Face {
    Face { fg: None, bg: None, bold: None, italic: None, underline: None, reverse: None }
}

/// `layer` laid over `base`: each field that `layer` sets wins.
pub open spec fn merged_face(base: Face, layer: Face) -> Face {
    Face {
        fg: if layer.fg.is_some() { layer.fg } else { base.fg },
        bg: if layer.bg.is_some() { layer.bg } else { base.bg },
        bold: if layer.bold.is_some() { layer.bold } else { base.bold },
        italic: if layer.italic.is_some() { layer.italic } else { base.italic },
        underline: if layer.underline.is_some() { layer.underline } else { base.underline },
        reverse: if layer.reverse.is_some() { layer.reverse } else { base.reverse },
    }
}

impl Face {
    /// The face that sets nothing.
    pub fn plain() -> (f: Self)
        ensures
            f == plain_face(),
    {
        Face { fg: None, bg: None, bold: None, italic: None, underline: None, reverse: None }
    }

    /// Lays `layer` over this face: each field that `layer` sets wins.
    pub fn merge(&mut self, layer: Face)
        ensures
            *final(self) == merged_face(*old(self), layer),
    {
        if layer.fg.is_some() {
            self.fg = layer.fg;
        }
        if layer.bg.is_some() {
            self.bg = layer.bg;
        }
        if layer.bold.is_some() {
            self.bold = layer.bold;
        }
        if layer.italic.is_some() {
            self.italic = layer.italic;
        }
        if layer.underline.is_some() {
            self.underline = layer.underline;
        }
        if layer.reverse.is_some() {
            self.reverse = layer.reverse;
        }
    }
}

impl Default for Face {
    fn default() -> (f: Self)
        ensures
            f == plain_face(),
    {
        Face::plain()
    }
}

/// A cursor of a view: the byte offset it stands at, and the column it
/// prefers when it moves up or down.
#[derive(Clone, Copy, PartialEq, Eq, Structural, Debug)]
pub struct Cursor {
    pub offset: usize,
    pub pref_x: usize,
}

impl Cursor {
    pub fn new(offset: usize, pref_x: usize) -> (c: Self)
        ensures
            c.offset == offset,
            c.pref_x == pref_x,
    {
        Cursor { offset, pref_x }
    }
}

/// Data attached to the byte range `start..end` of a document.
#[derive(Clone, Debug)]
pub struct Span<T> {
    pub start: usize,
    pub end: usize,
    pub data: T,
}

/// What a span does to how its text is drawn.
#[derive(Clone, Debug)]
pub enum Decoration {
    /// Draws the text with `face` laid over it.
    Style { face: Face },
    /// Draws `text` in place of the spanned text.
    Replace { text: String, face: Face },
    /// Draws `text` before the span's first byte, taking no bytes.
    VirtualText { text: String, face: Face },
}

} // verus!
