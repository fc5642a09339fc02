use vstd::prelude::*;

verus! {

/// The identifier of a view: one way of looking at a document, with its own
/// cursors, scroll and mode.
#[derive(Clone, Copy, PartialEq, Eq, Structural, Hash, Debug)]
pub struct ViewId(pub usize);

/// The identifier of a document of the editor's state.
#[derive(Clone, Copy, PartialEq, Eq, Structural, Hash, Debug)]
pub struct DocumentId(pub usize);

/// The identifier of a window of the workspace.
#[derive(Clone, Copy, PartialEq, Eq, Structural, Hash, Debug)]
pub struct WindowId(pub usize);

/// The editing mode of a view.
#[derive(Clone, Copy, PartialEq, Eq, Structural, Debug)]
pub enum ViewMode {
    Normal,
    Insert,
}

/// The mode of a document.
#[derive(Clone, Copy, PartialEq, Eq, Structural, Debug)]
pub enum DocumentMode {
    Text,
}

/// The name a mode is shown by.
pub open spec fn mode_name(m: ViewMode) -> Seq<char> {
    match m {
        ViewMode::Normal => seq!['N', 'O', 'R', 'M', 'A', 'L'],
        ViewMode::Insert => seq!['I', 'N', 'S', 'E', 'R', 'T'],
    }
}

impl ViewMode {
    /// The name the mode is shown by, in capitals.
    pub fn name(&self) -> (s: String)
        ensures
            s@ == mode_name(*self),
    {
        match self {
            ViewMode::Normal => {
                let s = "NORMAL".to_owned();
                proof {
                    reveal_strlit("NORMAL");
                    assert(s@ =~= mode_name(*self));
                }
                s
            },
            ViewMode::Insert => {
                let s = "INSERT".to_owned();
                proof {
                    reveal_strlit("INSERT");
                    assert(s@ =~= mode_name(*self));
                }
                s
            },
        }
    }
}

/// The number of decimal digits of `n`.
pub open spec fn digits(n: nat) -> nat
    decreases n,
{
    if n < 10 {
        1
    } else {
        digits(n / 10) + 1
    }
}

/// Counts the decimal digits of `n`.
pub fn count_digits(n: usize) -> (d: usize)
    ensures
        d == digits(n as nat),
{
    let mut m = n;
    let mut d: usize = 1;
    proof {
        lemma_digits_bound(n as nat);
    }
    while m >= 10
        invariant
            d + digits(m as nat) == digits(n as nat) + 1,
            digits(n as nat) <= n / 10 + 1,
            m <= n,
        decreases m,
    {
        proof {
            lemma_digits_bound(m as nat);
            lemma_digits_bound((m / 10) as nat);
        }
        m = m / 10;
        d = d + 1;
    }
    d
}

proof fn lemma_digits_bound(n: nat)
    ensures
        digits(n) <= n / 10 + 1,
        digits(n) >= 1,
    decreases n,
{
    if n >= 10 {
        lemma_digits_bound(n / 10);
    }
}

/// How a view is laid out in its window: whether it has a gutter with line
/// numbers, and how many rows its mode line takes.
#[derive(Clone, Copy, PartialEq, Eq, Structural, Debug)]
pub struct Layout {
    pub gutter: bool,
    pub mode_line: usize,
}

/// The columns of the gutter of a document of `lines` lines: the digits of
/// the largest line number and a space, or none without a gutter.
pub open spec fn gutter_columns(gutter: bool, lines: nat) -> nat {
    if gutter {
        digits(lines) + 1
    } else {
        0
    }
}

impl Layout {
    /// The columns of the gutter for a document of `lines` lines.
    pub fn gutter_width(&self, lines: usize) -> (w: usize)
        ensures
            w == gutter_columns(self.gutter, lines as nat),
    {
        if self.gutter {
            proof {
                lemma_digits_bound(lines as nat);
            }
            count_digits(lines) + 1
        } else {
            0
        }
    }
}

/// The lines of a document a view shows, and the byte at which they start.
pub struct LocalViewData {
    pub offset: usize,
    pub lines: Vec<String>,
}

} // verus!
