//! What holds of stripping: when the stripped key is free of the marker.

use crate::marker::{is_marked, marker, spliced, spliced_at, stripped};
use crate::text::{
    lemma_occurs_at_skip, lemma_replaced_absent, lemma_replaced_from, occurs_at, replaced,
};
use vstd::prelude::*;

verus! {

/// A key that is not marked is its own stripped form.
pub proof fn lemma_strip_unmarked(key: Seq<char>)
    requires
        !is_marked(key),
    ensures
        stripped(key) == key,
{
    lemma_replaced_absent(key, marker(), Seq::empty());
}

/// The character `|` stands somewhere in `text`.
pub open spec fn has_bar(text: Seq<char>) -> bool {
    exists|i: int| 0 <= i < text.len() && #[trigger] text[i] == '|'
}

/// Every `|` of `key` is the beginning of a marker.
pub open spec fn bars_begin_markers(key: Seq<char>) -> bool {
    forall|i: int| 0 <= i < key.len() && #[trigger] key[i] == '|' ==> occurs_at(key, marker(), i)
}

/// A marker begins with `|`.
proof fn lemma_marker_at_bar(text: Seq<char>, at: int)
    requires
        occurs_at(text, marker(), at),
    ensures
        0 <= at < text.len(),
        text[at] == '|',
{
    assert(text.subrange(at, at + marker().len())[0] == marker()[0]);
}

/// Where every `|` of a key is the beginning of a marker, stripping takes every `|` out.
proof fn lemma_strip_leaves_no_bar(key: Seq<char>)
    requires
        bars_begin_markers(key),
    ensures
        !has_bar(stripped(key)),
    decreases key.len(),
{
    let m = marker();
    if key.len() < m.len() {
        assert forall|i: int| 0 <= i < key.len() implies key[i] != '|' by {
            if key[i] == '|' {
                assert(occurs_at(key, m, i));
            }
        }
    } else if occurs_at(key, m, 0) {
        let rest = key.skip(m.len() as int);
        assert forall|i: int| 0 <= i < rest.len() && #[trigger] rest[i] == '|' implies occurs_at(
            rest,
            m,
            i,
        ) by {
            assert(key[i + m.len()] == '|');
            assert(occurs_at(key, m, i + m.len()));
            assert(rest.subrange(i, i + m.len()) =~= key.subrange(
                i + m.len(),
                i + m.len() + m.len(),
            ));
        }
        lemma_strip_leaves_no_bar(rest);
        assert(stripped(key) =~= stripped(rest));
    } else {
        let rest = key.skip(1);
        assert(key[0] != '|');
        assert forall|i: int| 0 <= i < rest.len() && #[trigger] rest[i] == '|' implies occurs_at(
            rest,
            m,
            i,
        ) by {
            assert(key[i + 1] == '|');
            assert(occurs_at(key, m, i + 1));
            assert(rest.subrange(i, i + m.len()) =~= key.subrange(i + 1, i + 1 + m.len()));
        }
        lemma_strip_leaves_no_bar(rest);
        let out = stripped(key);
        assert(out =~= key.take(1) + stripped(rest));
        assert forall|i: int| 0 <= i < out.len() implies #[trigger] out[i] != '|' by {
            if i > 0 {
                assert(out[i] == stripped(rest)[i - 1]);
            }
        }
    }
}

/// Where every `|` of a key is the beginning of a marker, the stripped key holds no `|`, and
/// so no marker.
pub proof fn lemma_strip_clears_marker(key: Seq<char>)
    requires
        bars_begin_markers(key),
    ensures
        !has_bar(stripped(key)),
        !is_marked(stripped(key)),
{
    lemma_strip_leaves_no_bar(key);
    if is_marked(stripped(key)) {
        let at = choose|at: int| occurs_at(stripped(key), marker(), at);
        lemma_marker_at_bar(stripped(key), at);
    }
}

/// A key that is an unmarked text with the marker at its end is stripped to that text, in
/// which no marker is left.
pub proof fn lemma_strip_marked_suffix(base: Seq<char>)
    requires
        !is_marked(base),
    ensures
        stripped(base + marker()) == base,
        !is_marked(stripped(base + marker())),
    decreases base.len(),
{
    let m = marker();
    let key = base + m;
    if base.len() == 0 {
        assert(key =~= m);
        assert(key.subrange(0, m.len() as int) =~= m);
        assert(key.skip(m.len() as int) =~= Seq::<char>::empty());
        assert(occurs_at(key, m, 0));
        assert(replaced(Seq::<char>::empty(), m, Seq::empty()) == Seq::<char>::empty());
        assert(stripped(key) =~= base);
    } else {
        if occurs_at(key, m, 0) {
            if base.len() >= m.len() {
                assert(base.subrange(0, m.len() as int) =~= key.subrange(0, m.len() as int));
                assert(occurs_at(base, m, 0));
            } else {
                let window = key.subrange(0, m.len() as int);
                assert(window[base.len() as int] == key[base.len() as int]);
                assert(key[base.len() as int] == m[0]);
                assert(window[base.len() as int] == m[base.len() as int]);
            }
        }
        let rest = base.skip(1);
        assert(!is_marked(rest)) by {
            if is_marked(rest) {
                let at = choose|at: int| occurs_at(rest, m, at);
                assert(rest.subrange(at, at + m.len()) =~= base.subrange(
                    at + 1,
                    at + 1 + m.len(),
                ));
                assert(occurs_at(base, m, at + 1));
            }
        }
        lemma_strip_marked_suffix(rest);
        assert(key.skip(1) =~= rest + m);
        assert(key.take(1) + rest =~= base);
    }
}

/// Behind the beginning of a marker that a whole marker follows, stripping gives what is left
/// of that beginning and then goes on behind the whole marker.
proof fn lemma_strip_through_beginning(key: Seq<char>, at: int, k: int, j: int)
    requires
        1 <= k < marker().len(),
        0 <= j <= k,
        occurs_at(key, marker().take(k), at),
        occurs_at(key, marker(), at + k),
    ensures
        stripped(key.skip(at + j)) == marker().subrange(j, k) + stripped(
            key.skip(at + k + marker().len()),
        ),
    decreases k - j,
{
    let m = marker();
    lemma_replaced_from(key, m, Seq::empty(), at + j);
    if j == k {
        assert(m.subrange(k, k) + stripped(key.skip(at + k + m.len())) =~= Seq::<char>::empty()
            + stripped(key.skip(at + k + m.len())));
    } else {
        assert(!occurs_at(key, m, at + j)) by {
            if occurs_at(key, m, at + j) {
                assert(key.subrange(at + j, at + j + m.len())[k - j] == key[at + k]);
                assert(key.subrange(at + k, at + k + m.len())[0] == key[at + k]);
            }
        }
        lemma_strip_through_beginning(key, at, k, j + 1);
        assert(key.subrange(at, at + k)[j] == key[at + j]);
        assert(key.subrange(at + j, at + j + 1) =~= m.subrange(j, j + 1));
        assert(m.subrange(j, j + 1) + m.subrange(j + 1, k) =~= m.subrange(j, k));
        assert(m.subrange(j, j + 1) + (m.subrange(j + 1, k) + stripped(
            key.skip(at + k + m.len()),
        )) =~= m.subrange(j, k) + stripped(key.skip(at + k + m.len())));
    }
}

/// Stripping a key comes by every `|` of it: the stripped key is some text and then what
/// stripping gives from that `|` on.
proof fn lemma_strip_up_to_bar(key: Seq<char>, at: int) -> (front: Seq<char>)
    requires
        0 <= at < key.len(),
        key[at] == '|',
    ensures
        stripped(key) == front + stripped(key.skip(at)),
    decreases at,
{
    let m = marker();
    assert(key.skip(0) =~= key);
    if at == 0 {
        assert(Seq::<char>::empty() + stripped(key) =~= stripped(key));
        Seq::empty()
    } else {
        lemma_replaced_from(key, m, Seq::empty(), 0);
        if key.len() < m.len() {
            lemma_replaced_from(key, m, Seq::empty(), at);
            assert(key.take(at) + key.skip(at) =~= key);
            key.take(at)
        } else if occurs_at(key, m, 0) {
            assert(at >= m.len()) by {
                if at < m.len() {
                    assert(key.subrange(0, m.len() as int)[at] == key[at]);
                }
            }
            let rest = key.skip(m.len() as int);
            let front = lemma_strip_up_to_bar(rest, at - m.len());
            assert(rest.skip(at - m.len()) =~= key.skip(at));
            assert(Seq::<char>::empty() + stripped(rest) =~= stripped(rest));
            front
        } else {
            let rest = key.skip(1);
            let inner = lemma_strip_up_to_bar(rest, at - 1);
            assert(rest.skip(at - 1) =~= key.skip(at));
            assert(key.subrange(0, 1) + (inner + stripped(key.skip(at))) =~= (key.subrange(0, 1)
                + inner) + stripped(key.skip(at)));
            key.subrange(0, 1) + inner
        }
    }
}

/// Where a marker is spliced together, the stripped key is marked.
pub proof fn lemma_spliced_is_marked(key: Seq<char>, at: int, k: int)
    requires
        spliced_at(key, at, k),
    ensures
        is_marked(stripped(key)),
{
    let m = marker();
    lemma_strip_through_beginning(key, at, k, 0);
    let tail = stripped(key.skip(at + k + m.len()));
    let here = stripped(key.skip(at));
    assert(m.subrange(0, k) =~= m.take(k));
    assert(here == m.take(k) + tail);
    assert(tail.subrange(0, m.len() - k) == m.skip(k));
    let head = here.subrange(0, m.len() as int);
    assert(head =~= m) by {
        assert forall|i: int| 0 <= i < m.len() implies #[trigger] head[i] == m[i] by {
            if i >= k {
                assert(tail.subrange(0, m.len() - k)[i - k] == m.skip(k)[i - k]);
            }
        }
    }
    assert(key.subrange(at, at + k)[0] == m.take(k)[0]);
    let front = lemma_strip_up_to_bar(key, at);
    let all = stripped(key);
    assert(all.subrange(front.len() as int, (front.len() + m.len()) as int) =~= head);
    assert(occurs_at(all, m, front.len() as int));
}

/// Where the beginning of a marker stands in a key without the whole marker, and stripping
/// gives behind it the rest of the marker, a marker is spliced together.
proof fn lemma_beginning_continues(key: Seq<char>, at: int, k: int)
    requires
        1 <= k <= marker().len(),
        0 <= at,
        occurs_at(key, marker().take(k), at),
        !occurs_at(key, marker(), at),
        occurs_at(stripped(key.skip(at + k)), marker().skip(k), 0),
    ensures
        spliced(key),
    decreases marker().len() - k,
{
    let m = marker();
    if k == m.len() {
        assert(m.take(k) =~= m);
    } else {
        lemma_replaced_from(key, m, Seq::empty(), at + k);
        let behind = key.skip(at + k);
        let out = stripped(behind);
        let rest = m.skip(k);
        assert(out.subrange(0, rest.len() as int) == rest);
        if key.len() - (at + k) < m.len() {
            let window = key.subrange(at, at + m.len());
            assert(window =~= m) by {
                assert forall|i: int| 0 <= i < m.len() implies #[trigger] window[i] == m[i] by {
                    if i < k {
                        assert(key.subrange(at, at + k)[i] == m.take(k)[i]);
                    } else {
                        assert(out.subrange(0, rest.len() as int)[i - k] == rest[i - k]);
                        assert(behind[i - k] == key[at + i]);
                    }
                }
            }
        } else if occurs_at(key, m, at + k) {
            assert(Seq::<char>::empty() + stripped(key.skip(at + k + m.len())) =~= stripped(
                key.skip(at + k + m.len()),
            ));
            assert(spliced_at(key, at, k));
        } else {
            let next = stripped(key.skip(at + k + 1));
            assert(out == key.subrange(at + k, at + k + 1) + next);
            assert(out.subrange(0, rest.len() as int)[0] == rest[0]);
            assert(key[at + k] == m[k]);
            let longer = key.subrange(at, at + k + 1);
            assert(longer =~= m.take(k + 1)) by {
                assert forall|i: int| 0 <= i < k + 1 implies #[trigger] longer[i] == m[i] by {
                    if i < k {
                        assert(key.subrange(at, at + k)[i] == m.take(k)[i]);
                    }
                }
            }
            let ahead = next.subrange(0, m.len() - k - 1);
            assert(ahead =~= m.skip(k + 1)) by {
                assert forall|i: int| 0 <= i < m.len() - k - 1 implies #[trigger] ahead[i] == m[i
                    + k + 1] by {
                    assert(out.subrange(0, rest.len() as int)[i + 1] == rest[i + 1]);
                    assert(out[i + 1] == next[i]);
                }
            }
            lemma_beginning_continues(key, at, k + 1);
        }
    }
}

/// Where the stripped key is marked, a marker was spliced together.
pub proof fn lemma_marked_is_spliced(key: Seq<char>)
    requires
        is_marked(stripped(key)),
    ensures
        spliced(key),
    decreases key.len(),
{
    let m = marker();
    assert(key.skip(0) =~= key);
    lemma_replaced_from(key, m, Seq::empty(), 0);
    let out = stripped(key);
    let found = choose|found: int| occurs_at(out, m, found);
    if key.len() < m.len() {
    } else if occurs_at(key, m, 0) {
        let rest = key.skip(m.len() as int);
        assert(Seq::<char>::empty() + stripped(rest) =~= stripped(rest));
        lemma_marked_is_spliced(rest);
        let (at, k) = choose|at: int, k: int| spliced_at(rest, at, k);
        lemma_occurs_at_skip(key, m.take(k), m.len() as int, at);
        lemma_occurs_at_skip(key, m, m.len() as int, at + k);
        assert(rest.skip(at + k + m.len()) =~= key.skip(at + m.len() + k + m.len()));
        assert(spliced_at(key, at + m.len(), k));
    } else {
        let rest = key.skip(1);
        assert(out == key.subrange(0, 1) + stripped(rest));
        if found >= 1 {
            assert(stripped(rest).subrange(found - 1, found - 1 + m.len()) =~= out.subrange(
                found,
                found + m.len(),
            ));
            assert(occurs_at(stripped(rest), m, found - 1));
            lemma_marked_is_spliced(rest);
            let (at, k) = choose|at: int, k: int| spliced_at(rest, at, k);
            lemma_occurs_at_skip(key, m.take(k), 1, at);
            lemma_occurs_at_skip(key, m, 1, at + k);
            assert(rest.skip(at + k + m.len()) =~= key.skip(at + 1 + k + m.len()));
            assert(spliced_at(key, at + 1, k));
        } else {
            assert(out.subrange(0, m.len() as int)[0] == m[0]);
            assert(key.subrange(0, 1) =~= m.take(1));
            let ahead = stripped(rest).subrange(0, m.len() - 1);
            assert(ahead =~= m.skip(1)) by {
                assert forall|i: int| 0 <= i < m.len() - 1 implies #[trigger] ahead[i] == m[i
                    + 1] by {
                    assert(out.subrange(0, m.len() as int)[i + 1] == m[i + 1]);
                    assert(out[i + 1] == stripped(rest)[i]);
                }
            }
            lemma_beginning_continues(key, 0, 1);
        }
    }
}

/// The stripped key is marked exactly where taking the markers out splices one together.
pub proof fn lemma_stripped_marked_iff_spliced(key: Seq<char>)
    ensures
        is_marked(stripped(key)) <==> spliced(key),
{
    if is_marked(stripped(key)) {
        lemma_marked_is_spliced(key);
    }
    if spliced(key) {
        let (at, k) = choose|at: int, k: int| spliced_at(key, at, k);
        lemma_spliced_is_marked(key, at, k);
    }
}

/// Where taking the markers out of a key splices none together, no marker is left in the
/// stripped key.
pub proof fn lemma_strip_removes_marker(key: Seq<char>)
    requires
        !spliced(key),
    ensures
        !is_marked(stripped(key)),
{
    lemma_stripped_marked_iff_spliced(key);
}

} // verus!
