//! Exact, prefix, suffix and substring predicates on character
//! sequences, with executable checks over character vectors.

use vstd::prelude::*;

verus! {

/// `q` is a prefix of `w`.
pub open spec fn is_prefix(q: Seq<char>, w: Seq<char>) -> bool {
    q.len() <= w.len() && w.take(q.len() as int) == q
}

/// `q` is a suffix of `w`.
pub open spec fn is_suffix(q: Seq<char>, w: Seq<char>) -> bool {
    q.len() <= w.len() && w.skip(w.len() - q.len()) == q
}

/// `q` occurs in `w` starting at position `pos`.
pub open spec fn occurs_at(q: Seq<char>, w: Seq<char>, pos: int) -> bool {
    0 <= pos && pos + q.len() <= w.len() && w.subrange(pos, pos + q.len()) == q
}

/// `q` occurs somewhere in `w`.
pub open spec fn is_substring(q: Seq<char>, w: Seq<char>) -> bool {
    exists|pos: int| occurs_at(q, w, pos)
}

/// Whether `q` occurs in `w` at position `pos`, by character comparison.
fn occurs_at_exec(q: &Vec<char>, w: &Vec<char>, pos: usize) -> (r: bool)
    requires
        pos + q@.len() <= w@.len(),
    ensures
        r == occurs_at(q@, w@, pos as int),
{
    let wlen = w.len();
    let mut i: usize = 0;
    while i < q.len()
        invariant
            i <= q@.len(),
            wlen == w@.len(),
            pos + q@.len() <= wlen,
            forall|k: int| 0 <= k < i ==> q@[k] == w@[pos + k],
        decreases q@.len() - i,
    {
        if q[i] != w[pos + i] {
            assert(w@.subrange(pos as int, pos + q@.len())[i as int] != q@[i as int]);
            return false;
        }
        i = i + 1;
    }
    proof {
        assert(w@.subrange(pos as int, pos + q@.len()) =~= q@);
    }
    true
}

/// Whether the character sequences of `q` and `w` are equal.
pub fn eq_chars(q: &Vec<char>, w: &Vec<char>) -> (r: bool)
    ensures
        r == (q@ == w@),
{
    if q.len() != w.len() {
        proof {
            assert(q@ != w@);
        }
        return false;
    }
    let r = occurs_at_exec(q, w, 0);
    proof {
        if r {
            assert(w@.subrange(0, q@.len() as int) =~= w@);
        } else {
            assert(w@.subrange(0, q@.len() as int) =~= w@);
        }
    }
    r
}

/// Whether `w` starts with `q`.
pub fn starts_with_chars(w: &Vec<char>, q: &Vec<char>) -> (r: bool)
    ensures
        r == is_prefix(q@, w@),
{
    if q.len() > w.len() {
        return false;
    }
    let r = occurs_at_exec(q, w, 0);
    proof {
        assert(w@.subrange(0, q@.len() as int) =~= w@.take(q@.len() as int));
    }
    r
}

/// Whether `w` ends with `q`.
pub fn ends_with_chars(w: &Vec<char>, q: &Vec<char>) -> (r: bool)
    ensures
        r == is_suffix(q@, w@),
{
    if q.len() > w.len() {
        return false;
    }
    let pos = w.len() - q.len();
    let r = occurs_at_exec(q, w, pos);
    proof {
        assert(w@.subrange(pos as int, pos + q@.len()) =~= w@.skip(w@.len() - q@.len()));
    }
    r
}

/// Whether `q` occurs somewhere in `w`.
pub fn contains_chars(w: &Vec<char>, q: &Vec<char>) -> (r: bool)
    ensures
        r == is_substring(q@, w@),
{
    if q.len() > w.len() {
        return false;
    }
    let last = w.len() - q.len();
    let mut pos: usize = 0;
    while pos <= last
        invariant
            q@.len() <= w@.len(),
            last == w@.len() - q@.len(),
            pos <= last + 1,
            forall|k: int| 0 <= k < pos ==> !occurs_at(q@, w@, k),
        decreases last + 1 - pos,
    {
        if occurs_at_exec(q, w, pos) {
            return true;
        }
        if pos == last {
            return false;
        }
        pos = pos + 1;
    }
    false
}

} // verus!
