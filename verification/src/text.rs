//! Substring search and replacement on character sequences.
//!
//! Texts are modelled as `Seq<char>`. A pattern is looked for as a substring, never as a whole
//! value, and replacing scans the text once from the left, so occurrences are taken in the
//! order they begin and never overlap.

use vstd::prelude::*;
use vstd::string::*;

verus! {

/// `pattern` stands in `text` at index `at`.
pub open spec fn occurs_at(text: Seq<char>, pattern: Seq<char>, at: int) -> bool {
    &&& 0 <= at
    &&& at + pattern.len() <= text.len()
    &&& text.subrange(at, at + pattern.len()) == pattern
}

/// `pattern` stands somewhere in `text`. The empty pattern stands in every text.
pub open spec fn occurs(text: Seq<char>, pattern: Seq<char>) -> bool {
    exists|at: int| occurs_at(text, pattern, at)
}

/// `text` with every occurrence of `pattern` replaced by `with`, reading from the left.
///
/// After an occurrence the scan goes on behind it, so what `with` brings in is never searched
/// again. The empty pattern stands before every character and at the end.
pub open spec fn replaced(text: Seq<char>, pattern: Seq<char>, with: Seq<char>) -> Seq<char>
    decreases text.len(),
{
    if pattern.len() == 0 {
        if text.len() == 0 {
            with
        } else {
            with + text.take(1) + replaced(text.skip(1), pattern, with)
        }
    } else if text.len() < pattern.len() {
        text
    } else if occurs_at(text, pattern, 0) {
        with + replaced(text.skip(pattern.len() as int), pattern, with)
    } else {
        text.take(1) + replaced(text.skip(1), pattern, with)
    }
}

/// Copies the characters of a string slice into a vector.
pub fn chars_of(s: &str) -> (out: Vec<char>)
    ensures
        out@ == s@,
{
    let mut out: Vec<char> = Vec::new();
    for c in it: s.chars()
        invariant
            it.seq() == s@,
            out@ == it.seq().take(it.index()),
    {
        out.push(c);
    }
    out
}

/// Whether `pattern` stands in `text` at index `at`.
fn matches_at(text: &Vec<char>, pattern: &Vec<char>, at: usize) -> (b: bool)
    requires
        at + pattern.len() <= text.len(),
    ensures
        b == occurs_at(text@, pattern@, at as int),
{
    let mut k: usize = 0;
    while k < pattern.len()
        invariant
            k <= pattern.len(),
            at + pattern.len() <= text.len(),
            forall|j: int| 0 <= j < k ==> text@[at + j] == pattern@[j],
        decreases pattern.len() - k,
    {
        if text[at + k] != pattern[k] {
            proof {
                let window = text@.subrange(at as int, at + pattern.len());
                assert(window[k as int] == text@[at + k]);
            }
            return false;
        }
        k += 1;
    }
    proof {
        assert(text@.subrange(at as int, at + pattern.len()) =~= pattern@);
    }
    true
}

/// Whether `pattern` is a substring of `text`.
pub fn contains(text: &str, pattern: &str) -> (b: bool)
    ensures
        b == occurs(text@, pattern@),
{
    let t = chars_of(text);
    let p = chars_of(pattern);
    if p.len() > t.len() {
        return false;
    }
    let last: usize = t.len() - p.len();
    let mut i: usize = 0;
    loop
        invariant
            i <= last,
            last + p.len() == t.len(),
            t@ == text@,
            p@ == pattern@,
            forall|at: int| 0 <= at < i ==> !occurs_at(t@, p@, at),
        decreases last - i,
    {
        if matches_at(&t, &p, i) {
            return true;
        }
        if i == last {
            return false;
        }
        i += 1;
    }
}

/// How `replaced` goes on from index `at` of a text, for a pattern that is not empty.
pub proof fn lemma_replaced_from(text: Seq<char>, pattern: Seq<char>, with: Seq<char>, at: int)
    requires
        0 <= at <= text.len(),
        pattern.len() > 0,
    ensures
        text.len() - at < pattern.len() ==> replaced(text.skip(at), pattern, with) == text.skip(at),
        occurs_at(text, pattern, at) ==> replaced(text.skip(at), pattern, with) == with + replaced(
            text.skip(at + pattern.len()),
            pattern,
            with,
        ),
        text.len() - at >= pattern.len() && !occurs_at(text, pattern, at) ==> replaced(
            text.skip(at),
            pattern,
            with,
        ) == text.subrange(at, at + 1) + replaced(text.skip(at + 1), pattern, with),
{
    let rest = text.skip(at);
    if rest.len() >= pattern.len() {
        assert(rest.subrange(0, pattern.len() as int) =~= text.subrange(at, at + pattern.len()));
        assert(rest.skip(pattern.len() as int) =~= text.skip(at + pattern.len()));
        assert(rest.skip(1) =~= text.skip(at + 1));
        assert(rest.take(1) =~= text.subrange(at, at + 1));
    }
}

/// An occurrence in what is left of a text behind its first `n` characters is an occurrence in
/// the text, `n` places further on.
pub proof fn lemma_occurs_at_skip(text: Seq<char>, pattern: Seq<char>, n: int, at: int)
    requires
        0 <= n <= text.len(),
        0 <= at,
    ensures
        occurs_at(text.skip(n), pattern, at) == occurs_at(text, pattern, at + n),
{
    if at + n + pattern.len() <= text.len() {
        assert(text.skip(n).subrange(at, at + pattern.len()) =~= text.subrange(
            at + n,
            at + n + pattern.len(),
        ));
    }
}

/// A text in which the pattern does not occur is left as it is.
pub proof fn lemma_replaced_absent(text: Seq<char>, pattern: Seq<char>, with: Seq<char>)
    requires
        !occurs(text, pattern),
    ensures
        replaced(text, pattern, with) == text,
    decreases text.len(),
{
    if pattern.len() == 0 {
        assert(text.subrange(0, 0) =~= pattern);
        assert(occurs_at(text, pattern, 0));
    } else if text.len() >= pattern.len() {
        assert(!occurs_at(text, pattern, 0));
        let rest = text.skip(1);
        assert(!occurs(rest, pattern)) by {
            if occurs(rest, pattern) {
                let at = choose|at: int| occurs_at(rest, pattern, at);
                assert(rest.subrange(at, at + pattern.len()) =~= text.subrange(
                    at + 1,
                    at + 1 + pattern.len(),
                ));
                assert(occurs_at(text, pattern, at + 1));
            }
        }
        lemma_replaced_absent(rest, pattern, with);
        assert(text.take(1) + rest =~= text);
    }
}

/// `text` with every occurrence of `pattern` replaced by `with`.
pub fn replace(text: &str, pattern: &str, with: &str) -> (out: String)
    ensures
        out@ == replaced(text@, pattern@, with@),
{
    let t = chars_of(text);
    let p = chars_of(pattern);
    let n: usize = t.len();
    let m: usize = p.len();
    let mut out = String::new();
    proof {
        assert(t@.skip(0) =~= t@);
        assert(out@ + t@.subrange(0, 0) + replaced(t@, p@, with@) =~= replaced(t@, p@, with@));
    }
    if m == 0 {
        let mut i: usize = 0;
        while i < n
            invariant
                i <= n,
                n == t.len(),
                t@ == text@,
                p@ == pattern@,
                p@.len() == 0,
                out@ + replaced(t@.skip(i as int), p@, with@) == replaced(t@, p@, with@),
            decreases n - i,
        {
            proof {
                let rest = t@.skip(i as int);
                assert(rest.take(1) =~= t@.subrange(i as int, i + 1));
                assert(rest.skip(1) =~= t@.skip(i + 1));
                assert(out@ + with@ + t@.subrange(i as int, i + 1) + replaced(
                    t@.skip(i + 1),
                    p@,
                    with@,
                ) =~= out@ + replaced(rest, p@, with@));
            }
            out.append(with);
            out.append(text.substring_char(i, i + 1));
            i += 1;
        }
        out.append(with);
        return out;
    }
    let mut kept: usize = 0;
    let mut i: usize = 0;
    while n - i >= m
        invariant
            kept <= i <= n,
            n == t.len(),
            m == p.len(),
            m > 0,
            t@ == text@,
            p@ == pattern@,
            out@ + t@.subrange(kept as int, i as int) + replaced(t@.skip(i as int), p@, with@)
                == replaced(t@, p@, with@),
        decreases n - i,
    {
        proof {
            lemma_replaced_from(t@, p@, with@, i as int);
        }
        if matches_at(&t, &p, i) {
            proof {
                assert(out@ + t@.subrange(kept as int, i as int) + with@ + t@.subrange(
                    i + m,
                    i + m,
                ) + replaced(t@.skip(i + m), p@, with@) =~= out@ + t@.subrange(
                    kept as int,
                    i as int,
                ) + replaced(t@.skip(i as int), p@, with@));
            }
            out.append(text.substring_char(kept, i));
            out.append(with);
            i += m;
            kept = i;
        } else {
            proof {
                assert(out@ + t@.subrange(kept as int, i + 1) + replaced(t@.skip(i + 1), p@, with@)
                    =~= out@ + t@.subrange(kept as int, i as int) + replaced(
                    t@.skip(i as int),
                    p@,
                    with@,
                ));
            }
            i += 1;
        }
    }
    proof {
        lemma_replaced_from(t@, p@, with@, i as int);
        assert(out@ + t@.subrange(kept as int, n as int) =~= out@ + t@.subrange(
            kept as int,
            i as int,
        ) + t@.skip(i as int));
    }
    out.append(text.substring_char(kept, n));
    out
}

} // verus!
