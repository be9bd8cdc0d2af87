//! Searching in character sequences.
//!
//! Strings are viewed as sequences of `char`. The executable functions work
//! on character slices, which [`chars_of`] produces from a string in one pass.

use vstd::prelude::*;

verus! {

/// Whether `pat` occurs in `text` starting at index `at`.
pub open spec fn occurs_at(text: Seq<char>, pat: Seq<char>, at: int) -> bool {
    &&& 0 <= at
    &&& at + pat.len() <= text.len()
    &&& text.subrange(at, at + pat.len()) == pat
}

/// Whether `pat` occurs somewhere in `text`. The empty pattern occurs in
/// every text.
pub open spec fn has_substring(text: Seq<char>, pat: Seq<char>) -> bool {
    exists|at: int| occurs_at(text, pat, at)
}

/// The least index `i >= from` at which `pat` occurs in `text`, if there is
/// one.
pub open spec fn find_from(text: Seq<char>, pat: Seq<char>, from: int) -> Option<int>
    decreases text.len() + 1 - from,
{
    if from + pat.len() > text.len() {
        None
    } else if occurs_at(text, pat, from) {
        Some(from)
    } else {
        find_from(text, pat, from + 1)
    }
}

/// `find_from` yields an occurrence at or after `from` that no other such
/// occurrence precedes, and yields nothing only where there is none.
pub proof fn lemma_find_from_is_first(text: Seq<char>, pat: Seq<char>, from: int)
    ensures
        match find_from(text, pat, from) {
            Some(i) => {
                &&& from <= i
                &&& occurs_at(text, pat, i)
                &&& forall|j: int| from <= j < i ==> !occurs_at(text, pat, j)
            },
            None => forall|j: int| from <= j ==> !occurs_at(text, pat, j),
        },
    decreases text.len() + 1 - from,
{
    if from + pat.len() > text.len() {
    } else if occurs_at(text, pat, from) {
    } else {
        lemma_find_from_is_first(text, pat, from + 1);
    }
}

/// A text has a substring exactly when the search from its start finds one.
pub proof fn lemma_has_substring_iff_found(text: Seq<char>, pat: Seq<char>)
    ensures
        has_substring(text, pat) <==> find_from(text, pat, 0) is Some,
{
    lemma_find_from_is_first(text, pat, 0);
}

/// The characters of `s`, in order.
pub fn chars_of(s: &str) -> (v: Vec<char>)
    ensures
        v@ == s@,
{
    let mut v: Vec<char> = Vec::new();
    for c in it: s.chars()
        invariant
            v@ == it.seq().take(it.index() as int),
    {
        v.push(c);
    }
    v
}

/// Whether `pat` occurs in `text` at index `at`.
pub fn occurs_here(text: &[char], pat: &[char], at: usize) -> (r: bool)
    ensures
        r == occurs_at(text@, pat@, at as int),
{
    let n: usize = text.len();
    if at > n || pat.len() > n - at {
        return false;
    }
    let mut k: usize = 0;
    while k < pat.len()
        invariant
            k <= pat@.len(),
            at + pat@.len() <= text@.len() == n,
            forall|j: int| 0 <= j < k ==> text@[at + j] == pat@[j],
        decreases pat@.len() - k,
    {
        if text[at + k] != pat[k] {
            proof {
                let sub = text@.subrange(at as int, at + pat@.len());
                assert(sub[k as int] == text@[at + k]);
            }
            return false;
        }
        k += 1;
    }
    assert(text@.subrange(at as int, at + pat@.len()) =~= pat@);
    true
}

/// The first index at or after `from` at which `pat` occurs in `text`.
pub fn find_in(text: &[char], pat: &[char], from: usize) -> (r: Option<usize>)
    ensures
        match r {
            Some(i) => find_from(text@, pat@, from as int) == Some(i as int),
            None => find_from(text@, pat@, from as int) is None,
        },
{
    if pat.len() > text.len() {
        return None;
    }
    let last: usize = text.len() - pat.len();
    let mut i: usize = from;
    while i <= last
        invariant
            from <= i,
            last == text@.len() - pat@.len(),
            find_from(text@, pat@, from as int) == find_from(text@, pat@, i as int),
        decreases last - i + 1,
    {
        if occurs_here(text, pat, i) {
            return Some(i);
        }
        if i == last {
            assert(find_from(text@, pat@, i + 1) is None);
            return None;
        }
        i += 1;
    }
    None
}

/// Whether `pat` occurs somewhere in `text`.
pub fn contains(text: &[char], pat: &[char]) -> (r: bool)
    ensures
        r == has_substring(text@, pat@),
{
    proof {
        lemma_has_substring_iff_found(text@, pat@);
    }
    find_in(text, pat, 0).is_some()
}

/// Whether two character slices hold the same text.
pub fn same_text(a: &[char], b: &[char]) -> (r: bool)
    ensures
        r == (a@ == b@),
{
    if a.len() != b.len() {
        return false;
    }
    let r = occurs_here(a, b, 0);
    assert(a@.subrange(0, a@.len() as int) =~= a@);
    r
}

} // verus!
