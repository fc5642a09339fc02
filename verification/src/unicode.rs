use unicode_segmentation::UnicodeSegmentation;
use unicode_width::UnicodeWidthStr;
use vstd::prelude::*;
use vstd::string::StrSliceExecFns;
use vstd::utf8::encode_utf8;

verus! {

/// The extended grapheme clusters of a text, as `unicode-segmentation`
/// splits it.
pub uninterp spec fn grapheme_clusters(s: Seq<char>) -> Seq<Seq<char>>;

/// The number of terminal columns a text takes, as `unicode-width` counts it.
pub uninterp spec fn str_width(s: Seq<char>) -> usize;

/// The concatenation of a sequence of texts.
pub open spec fn concat(gs: Seq<Seq<char>>) -> Seq<char>
    decreases gs.len(),
{
    if gs.len() == 0 {
        Seq::empty()
    } else {
        concat(gs.drop_last()) + gs.last()
    }
}

/// The views of a vector of strings.
pub open spec fn string_views(v: Seq<String>) -> Seq<Seq<char>> {
    v.map_values(|g: String| g@)
}

/// Calls `UnicodeSegmentation::graphemes(s, true)`, collecting the clusters.
/// The crate's iterator hands out consecutive slices of `s` from its first
/// byte to its last, each ending at a boundary strictly after it started: so
/// the clusters are not empty and join to `s`. Where the boundaries fall is
/// left to the name `grapheme_clusters`.
#[verifier::external_body]
pub(crate) fn graphemes(s: &str) -> (r: Vec<String>)
    ensures
        string_views(r@) == grapheme_clusters(s@),
        concat(string_views(r@)) == s@,
        forall|i: int| 0 <= i < r@.len() ==> #[trigger] r@[i]@.len() > 0,
{
    s.graphemes(true).map(|g| g.to_string()).collect()
}

/// Calls `UnicodeWidthStr::width(s)`: the columns the text takes, by the
/// crate's tables, named `str_width`.
#[verifier::external_body]
pub(crate) fn width(s: &str) -> (w: usize)
    ensures
        w == str_width(s@),
{
    s.width()
}

/// Whether the text's last `char` is a newline.
pub(crate) fn ends_with_newline(s: &str) -> (r: bool)
    ensures
        r == (s@.len() > 0 && s@.last() == '\n'),
{
    let n = s.unicode_len();
    if n == 0 {
        false
    } else {
        s.get_char(n - 1) == '\n'
    }
}

/// Calls `ToString::to_string` on a `char`: the one-`char` string.
#[verifier::external_body]
pub(crate) fn char_string(c: char) -> (s: String)
    ensures
        s@ == seq![c],
{
    c.to_string()
}

/// The encoding of a concatenation is the concatenation of the encodings.
pub proof fn lemma_encode_concat(a: Seq<char>, b: Seq<char>)
    ensures
        encode_utf8(a + b) == encode_utf8(a) + encode_utf8(b),
    decreases a.len(),
{
    if a.len() == 0 {
        assert(a + b =~= b);
        assert(encode_utf8(a) =~= Seq::<u8>::empty());
        assert(encode_utf8(a) + encode_utf8(b) =~= encode_utf8(b));
    } else {
        assert((a + b)[0] == a[0]);
        assert((a + b).drop_first() =~= a.drop_first() + b);
        lemma_encode_concat(a.drop_first(), b);
        assert(encode_utf8(a + b) =~= encode_utf8(a) + encode_utf8(b));
    }
}

/// Each part of a concatenation takes no more bytes than the whole.
pub proof fn lemma_part_bytes(gs: Seq<Seq<char>>, i: int)
    requires
        0 <= i < gs.len(),
    ensures
        encode_utf8(gs[i]).len() <= encode_utf8(concat(gs)).len(),
    decreases gs.len(),
{
    lemma_encode_concat(concat(gs.drop_last()), gs.last());
    if i < gs.len() - 1 {
        lemma_part_bytes(gs.drop_last(), i);
        assert(gs.drop_last()[i] == gs[i]);
    }
}

} // verus!
