//! The expand marker: the text `|expand` in a key.

use crate::marker_laws::{lemma_strip_unmarked, lemma_stripped_marked_iff_spliced};
use crate::text::{contains, occurs, occurs_at, replace, replaced};
use vstd::prelude::*;

verus! {

/// The marker that tags a key for expansion: the text `|expand`.
pub open spec fn marker() -> Seq<char> {
    seq!['|', 'e', 'x', 'p', 'a', 'n', 'd']
}

/// A key is marked if the marker stands anywhere in it, not only at its end.
pub open spec fn is_marked(key: Seq<char>) -> bool {
    occurs(key, marker())
}

/// The text of a key with the marker taken out wherever it occurs.
pub open spec fn stripped(key: Seq<char>) -> Seq<char> {
    replaced(key, marker(), Seq::empty())
}

/// A marker is spliced together at `at`: the first `k` characters of a marker stand there, a
/// whole marker stands right behind them, and what follows that marker begins, once it is
/// stripped, with the rest of the first.
pub open spec fn spliced_at(key: Seq<char>, at: int, k: int) -> bool {
    &&& 1 <= k < marker().len()
    &&& occurs_at(key, marker().take(k), at)
    &&& occurs_at(key, marker(), at + k)
    &&& occurs_at(stripped(key.skip(at + k + marker().len())), marker().skip(k), 0)
}

/// Taking the markers out of `key` splices a marker together somewhere.
pub open spec fn spliced(key: Seq<char>) -> bool {
    exists|at: int, k: int| spliced_at(key, at, k)
}

/// The marker as a string slice.
pub fn marker_text() -> (text: &'static str)
    ensures
        text@ == marker(),
{
    let text = "|expand";
    proof {
        reveal_strlit("|expand");
        assert(text@ =~= marker());
    }
    text
}

/// Whether the marker stands in `key`.
pub fn has_marker(key: &str) -> (b: bool)
    ensures
        b == is_marked(key@),
{
    contains(key, marker_text())
}

/// The key without the marker: every occurrence of it is taken out.
///
/// No marker is left in the result, unless taking the markers out splices one together.
pub fn strip_marker(key: &str) -> (out: String)
    ensures
        out@ == stripped(key@),
        !is_marked(key@) ==> out@ == key@,
        !spliced(key@) ==> !is_marked(out@),
{
    let nothing = "";
    proof {
        reveal_strlit("");
        assert(nothing@ =~= Seq::<char>::empty());
        lemma_stripped_marked_iff_spliced(key@);
        if !is_marked(key@) {
            lemma_strip_unmarked(key@);
        }
    }
    replace(key, marker_text(), nothing)
}

} // verus!
