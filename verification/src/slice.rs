use vstd::prelude::*;
use vstd::utf8::{decode_utf8, valid_utf8};

use core::ops::{Range, RangeFrom, RangeFull, RangeInclusive, RangeTo, RangeToInclusive};

use crate::piece_table::PieceTable;

verus! {

#[verifier::external_type_specification]
#[verifier::external_body]
pub struct ExRangeFull(RangeFull);

#[verifier::external_type_specification]
#[verifier::external_body]
#[verifier::reject_recursive_types(Idx)]
pub struct ExRangeFrom<Idx>(RangeFrom<Idx>);

#[verifier::external_type_specification]
#[verifier::external_body]
#[verifier::reject_recursive_types(Idx)]
pub struct ExRangeTo<Idx>(RangeTo<Idx>);

#[verifier::external_type_specification]
#[verifier::external_body]
#[verifier::reject_recursive_types(Idx)]
pub struct ExRangeToInclusive<Idx>(RangeToInclusive<Idx>);

/// The lower bound of a `start..` range, its public field `start`.
pub uninterp spec fn range_from_start(r: RangeFrom<usize>) -> usize;

/// The upper bound of a `..end` range, its public field `end`.
pub uninterp spec fn range_to_end(r: RangeTo<usize>) -> usize;

/// The upper bound of a `..=end` range, its public field `end`.
pub uninterp spec fn range_to_inclusive_end(r: RangeToInclusive<usize>) -> usize;

/// Reads the field `start` of a `RangeFrom`: the range's lower bound.
#[verifier::external_body]
fn from_start(r: &RangeFrom<usize>) -> (s: usize)
    ensures
        s == range_from_start(*r),
{
    r.start
}

/// Reads the field `end` of a `RangeTo`: the range's upper bound.
#[verifier::external_body]
fn to_end(r: &RangeTo<usize>) -> (e: usize)
    ensures
        e == range_to_end(*r),
{
    r.end
}

/// Reads the field `end` of a `RangeToInclusive`: the range's inclusive
/// upper bound.
#[verifier::external_body]
fn to_inclusive_end(r: &RangeToInclusive<usize>) -> (e: usize)
    ensures
        e == range_to_inclusive_end(*r),
{
    r.end
}

/// Calls `RangeInclusive::start`, which returns the lower bound of the range.
#[verifier::external_body]
fn inclusive_start(r: &RangeInclusive<usize>) -> (s: usize)
    ensures
        s == r@.start,
{
    *r.start()
}

/// Calls `RangeInclusive::end`, which returns the upper bound of the range.
#[verifier::external_body]
fn inclusive_end(r: &RangeInclusive<usize>) -> (e: usize)
    ensures
        e == r@.end,
{
    *r.end()
}

/// Slicing of the text stored in a piece table by a range of byte positions.
pub trait Slice<T> {
    /// The range is well formed for the table, and the bytes it selects are
    /// valid UTF-8.
    spec fn slice_ok(&self, idx: T) -> bool;

    /// The bytes the range selects.
    spec fn slice_bytes_of(&self, idx: T) -> Seq<u8>;

    /// Returns a slice of the text stored in the `PieceTable`.
    fn slice(&self, idx: T) -> (s: String)
        requires
            self.slice_ok(idx),
        ensures
            s@ == decode_utf8(self.slice_bytes_of(idx));
}

impl Slice<Range<usize>> for PieceTable {
    /// A range `start..end` of a table must lie in the text and hold at
    /// least one byte.
    open spec fn slice_ok(&self, idx: Range<usize>) -> bool {
        &&& self.wf()
        &&& idx.start < idx.end
        &&& idx.end <= self.text().len()
        &&& valid_utf8(self.text().subrange(idx.start as int, idx.end as int))
    }

    open spec fn slice_bytes_of(&self, idx: Range<usize>) -> Seq<u8> {
        self.text().subrange(idx.start as int, idx.end as int)
    }

    /// Returns the text stored in the `PieceTable` from pos `start..end`.
    fn slice(&self, idx: Range<usize>) -> (s: String) {
        self.slice_range(idx.start, idx.end)
    }
}

impl Slice<RangeFrom<usize>> for PieceTable {
    /// A range `start..` must start within the text.
    open spec fn slice_ok(&self, idx: RangeFrom<usize>) -> bool {
        &&& self.wf()
        &&& range_from_start(idx) <= self.text().len()
        &&& valid_utf8(self.text().subrange(range_from_start(idx) as int, self.text().len() as int))
    }

    open spec fn slice_bytes_of(&self, idx: RangeFrom<usize>) -> Seq<u8> {
        self.text().subrange(range_from_start(idx) as int, self.text().len() as int)
    }

    /// Returns the text stored in the `PieceTable` from pos `start..`.
    fn slice(&self, idx: RangeFrom<usize>) -> (s: String) {
        let start = from_start(&idx);
        let len = self.len();
        self.slice_range(start, len)
    }
}

impl Slice<RangeFull> for PieceTable {
    open spec fn slice_ok(&self, idx: RangeFull) -> bool {
        &&& self.wf()
        &&& valid_utf8(self.text())
    }

    open spec fn slice_bytes_of(&self, idx: RangeFull) -> Seq<u8> {
        self.text()
    }

    /// Returns the entire text stored in the `PieceTable`.
    fn slice(&self, idx: RangeFull) -> (s: String) {
        self.to_string()
    }
}

impl Slice<RangeInclusive<usize>> for PieceTable {
    /// A range `start..=end` must lie in the text; `end` cannot be
    /// `usize::MAX`.
    open spec fn slice_ok(&self, idx: RangeInclusive<usize>) -> bool {
        &&& self.wf()
        &&& idx@.end != usize::MAX
        &&& idx@.start <= idx@.end
        &&& idx@.end < self.text().len()
        &&& valid_utf8(self.text().subrange(idx@.start as int, idx@.end + 1))
    }

    open spec fn slice_bytes_of(&self, idx: RangeInclusive<usize>) -> Seq<u8> {
        self.text().subrange(idx@.start as int, idx@.end + 1)
    }

    /// Returns the text stored in the `PieceTable` from pos `start..=end`.
    fn slice(&self, idx: RangeInclusive<usize>) -> (s: String) {
        let start = inclusive_start(&idx);
        let end = inclusive_end(&idx);
        let len = self.len();
        proof {
            assert(end < len);
        }
        self.slice_range(start, end + 1)
    }
}

impl Slice<RangeTo<usize>> for PieceTable {
    /// A range `..end` must end within the text and hold at least one byte.
    open spec fn slice_ok(&self, idx: RangeTo<usize>) -> bool {
        &&& self.wf()
        &&& 0 < range_to_end(idx) <= self.text().len()
        &&& valid_utf8(self.text().subrange(0, range_to_end(idx) as int))
    }

    open spec fn slice_bytes_of(&self, idx: RangeTo<usize>) -> Seq<u8> {
        self.text().subrange(0, range_to_end(idx) as int)
    }

    /// Returns the text stored in the `PieceTable` from pos `..end`.
    fn slice(&self, idx: RangeTo<usize>) -> (s: String) {
        let end = to_end(&idx);
        self.slice(0..end)
    }
}

impl Slice<RangeToInclusive<usize>> for PieceTable {
    /// A range `..=end` must end within the text; `end` cannot be
    /// `usize::MAX`.
    open spec fn slice_ok(&self, idx: RangeToInclusive<usize>) -> bool {
        &&& self.wf()
        &&& range_to_inclusive_end(idx) < self.text().len()
        &&& valid_utf8(self.text().subrange(0, range_to_inclusive_end(idx) + 1))
    }

    open spec fn slice_bytes_of(&self, idx: RangeToInclusive<usize>) -> Seq<u8> {
        self.text().subrange(0, range_to_inclusive_end(idx) + 1)
    }

    /// Returns the text stored in the `PieceTable` from pos `..=end`.
    fn slice(&self, idx: RangeToInclusive<usize>) -> (s: String) {
        let end = to_inclusive_end(&idx);
        let len = self.len();
        proof {
            assert(end < len);
        }
        self.slice(0..end + 1)
    }
}

} // verus!
