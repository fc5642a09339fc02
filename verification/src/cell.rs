use vstd::prelude::*;

use crate::types::{plain_face, Face};

verus! {

/// One cell of the terminal grid: a grapheme, the columns it takes and its
/// face. A wide grapheme is followed by cells with an empty text and width 0.
pub struct Cell {
    /// A string, since a grapheme may be several code points.
    pub ch: String,
    pub width: usize,
    pub face: Face,
}

/// The mathematical model of a `Cell`.
pub struct CellView {
    pub ch: Seq<char>,
    pub width: usize,
    pub face: Face,
}

impl View for Cell {
    type V = CellView;

    open spec fn view(&self) -> CellView {
        CellView { ch: self.ch@, width: self.width, face: self.face }
    }
}

/// The views of a sequence of cells.
pub open spec fn cell_views(cs: Seq<Cell>) -> Seq<CellView> {
    cs.map_values(|c: Cell| c@)
}

/// The blank cell: a space of one column with the plain face.
pub open spec fn blank_cell() -> CellView {
    CellView { ch: seq![' '], width: 1, face: plain_face() }
}

impl Cell {
    pub fn new(ch: String, width: usize, face: Face) -> (c: Self)
        ensures
            c@ == (CellView { ch: ch@, width, face }),
    {
        Cell { ch, width, face }
    }

    /// A space of one column with the face `face`.
    pub fn space(face: Face) -> (c: Self)
        ensures
            c@ == (CellView { ch: seq![' '], width: 1, face }),
    {
        let ch = " ".to_owned();
        proof {
            reveal_strlit(" ");
            assert(ch@ =~= seq![' ']);
        }
        Cell { ch, width: 1, face }
    }

    /// The trailing part of a wide grapheme: no text, no width.
    pub fn trailing(face: Face) -> (c: Self)
        ensures
            c@ == (CellView { ch: Seq::empty(), width: 0, face }),
    {
        Cell { ch: String::new(), width: 0, face }
    }

    /// A copy of this cell.
    pub fn duplicate(&self) -> (c: Self)
        ensures
            c@ == self@,
    {
        Cell { ch: self.ch.clone(), width: self.width, face: self.face }
    }

    /// Whether two cells draw the same.
    pub fn same(&self, other: &Cell) -> (r: bool)
        ensures
            r == (self@ == other@),
    {
        self.ch == other.ch && self.width == other.width && self.face == other.face
    }
}

impl Default for Cell {
    fn default() -> (c: Self)
        ensures
            c@ == blank_cell(),
    {
        Cell::space(Face::plain())
    }
}

} // verus!
