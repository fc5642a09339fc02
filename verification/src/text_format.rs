use vstd::prelude::*;
use vstd::string::StringExecFns;

use crate::state::digits;
use crate::unicode::char_string;

verus! {

/// The decimal digit `d`.
pub open spec fn digit_char(d: nat) -> char {
    (48 + d) as char
}

/// The decimal representation of `n`.
pub open spec fn decimal_text(n: nat) -> Seq<char>
    decreases n,
{
    if n < 10 {
        seq![digit_char(n)]
    } else {
        decimal_text(n / 10).push(digit_char(n % 10))
    }
}

/// Writes `n` in decimal.
pub fn decimal(n: usize) -> (s: String)
    ensures
        s@ == decimal_text(n as nat),
    decreases n,
{
    let d = (n % 10) as u8;
    let c = (48u8 + d) as char;
    proof {
        assert(c == digit_char((n % 10) as nat));
    }
    if n < 10 {
        return char_string(c);
    }
    let mut s = decimal(n / 10);
    let last = char_string(c);
    s.append(last.as_str());
    s
}

/// `s` right-aligned in `width` columns: spaces before it up to `width`.
pub open spec fn pad_left(s: Seq<char>, width: nat) -> Seq<char> {
    Seq::new((if width > s.len() { width - s.len() } else { 0 }) as nat, |i: int| ' ') + s
}

/// `n` spaces.
pub open spec fn blanks(n: nat) -> Seq<char> {
    Seq::new(n, |i: int| ' ')
}

/// A string of `n` spaces.
pub fn spaces(n: usize) -> (s: String)
    ensures
        s@ == blanks(n as nat),
{
    let mut s = String::new();
    let mut k: usize = 0;
    while k < n
        invariant
            k <= n,
            s@ == blanks(k as nat),
        decreases n - k,
    {
        let sp = char_string(' ');
        s.append(sp.as_str());
        k = k + 1;
        proof {
            assert(s@ =~= blanks(k as nat));
        }
    }
    s
}

/// `s` right-aligned in `width` columns.
pub fn right_aligned(s: &String, width: usize) -> (r: String)
    ensures
        r@ == pad_left(s@, width as nat),
{
    let n = s.as_str().unicode_len();
    let pad = if width > n {
        width - n
    } else {
        0
    };
    let mut r = spaces(pad);
    r.append(s.as_str());
    proof {
        assert(r@ =~= pad_left(s@, width as nat));
    }
    r
}

/// A number is written with as many `char`s as it has decimal digits, so
/// every line number up to the document's line count fits in its gutter.
pub proof fn lemma_decimal_len(n: nat)
    ensures
        decimal_text(n).len() == digits(n),
    decreases n,
{
    if n >= 10 {
        lemma_decimal_len(n / 10);
    }
}

/// A larger number has no fewer digits.
pub proof fn lemma_digits_monotone(a: nat, b: nat)
    requires
        a <= b,
    ensures
        digits(a) <= digits(b),
    decreases b,
{
    if b >= 10 && a >= 10 {
        lemma_digits_monotone(a / 10, b / 10);
    }
}

} // verus!
