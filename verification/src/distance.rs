//! Levenshtein edit distance: a mathematical definition, the classic
//! dynamic-programming implementation, and the metric laws (in particular
//! the triangle inequality) that justify distance-based pruning.

use vstd::prelude::*;

verus! {

/// The smaller of two natural numbers.
pub open spec fn min2(x: nat, y: nat) -> nat {
    if x <= y {
        x
    } else {
        y
    }
}

/// The smallest of three natural numbers.
pub open spec fn min3(x: nat, y: nat, z: nat) -> nat {
    min2(min2(x, y), z)
}

/// Edit distance between two character sequences: the least number of
/// single-character insertions, deletions and substitutions that turns
/// `a` into `b`, written as the standard recurrence on last characters.
pub open spec fn edit_dist(a: Seq<char>, b: Seq<char>) -> nat
    decreases a.len() + b.len(),
{
    if a.len() == 0 {
        b.len()
    } else if b.len() == 0 {
        a.len()
    } else if a.last() == b.last() {
        edit_dist(a.drop_last(), b.drop_last())
    } else {
        1 + min3(
            edit_dist(a.drop_last(), b),
            edit_dist(a, b.drop_last()),
            edit_dist(a.drop_last(), b.drop_last()),
        )
    }
}

/// A sequence is at distance zero from itself.
pub proof fn lemma_edit_dist_self(a: Seq<char>)
    ensures
        edit_dist(a, a) == 0,
    decreases a.len(),
{
    if a.len() > 0 {
        lemma_edit_dist_self(a.drop_last());
    }
}

/// Distance zero means the sequences are equal: together with
/// `lemma_edit_dist_self`, distance zero characterises equality.
pub proof fn lemma_edit_dist_zero(a: Seq<char>, b: Seq<char>)
    requires
        edit_dist(a, b) == 0,
    ensures
        a == b,
    decreases a.len() + b.len(),
{
    if a.len() == 0 || b.len() == 0 {
        assert(a =~= b);
    } else if a.last() == b.last() {
        lemma_edit_dist_zero(a.drop_last(), b.drop_last());
        assert(a =~= a.drop_last().push(a.last()));
        assert(b =~= b.drop_last().push(b.last()));
    }
}

/// The distance never exceeds the longer length.
pub proof fn lemma_edit_dist_le_max(a: Seq<char>, b: Seq<char>)
    ensures
        edit_dist(a, b) <= a.len() || edit_dist(a, b) <= b.len(),
        edit_dist(a, b) <= a.len() + b.len(),
    decreases a.len() + b.len(),
{
    if a.len() == 0 || b.len() == 0 {
    } else if a.last() == b.last() {
        lemma_edit_dist_le_max(a.drop_last(), b.drop_last());
    } else {
        lemma_edit_dist_le_max(a.drop_last(), b.drop_last());
    }
}

/// The distance is at least the difference of the lengths.
pub proof fn lemma_edit_dist_ge_diff(a: Seq<char>, b: Seq<char>)
    ensures
        edit_dist(a, b) + a.len() >= b.len(),
        edit_dist(a, b) + b.len() >= a.len(),
    decreases a.len() + b.len(),
{
    if a.len() == 0 || b.len() == 0 {
    } else if a.last() == b.last() {
        lemma_edit_dist_ge_diff(a.drop_last(), b.drop_last());
    } else {
        lemma_edit_dist_ge_diff(a.drop_last(), b);
        lemma_edit_dist_ge_diff(a, b.drop_last());
        lemma_edit_dist_ge_diff(a.drop_last(), b.drop_last());
    }
}

/// Edit distance is symmetric.
pub proof fn lemma_edit_dist_sym(a: Seq<char>, b: Seq<char>)
    ensures
        edit_dist(a, b) == edit_dist(b, a),
    decreases a.len() + b.len(),
{
    if a.len() == 0 || b.len() == 0 {
    } else if a.last() == b.last() {
        lemma_edit_dist_sym(a.drop_last(), b.drop_last());
    } else {
        lemma_edit_dist_sym(a.drop_last(), b);
        lemma_edit_dist_sym(a, b.drop_last());
        lemma_edit_dist_sym(a.drop_last(), b.drop_last());
    }
}

/// Dropping the last character of either argument moves the distance by
/// at most one in either direction.
pub proof fn lemma_edit_dist_adjacent(a: Seq<char>, b: Seq<char>)
    ensures
        a.len() > 0 ==> edit_dist(a, b) <= 1 + edit_dist(a.drop_last(), b),
        a.len() > 0 ==> edit_dist(a.drop_last(), b) <= 1 + edit_dist(a, b),
        b.len() > 0 ==> edit_dist(a, b) <= 1 + edit_dist(a, b.drop_last()),
        b.len() > 0 ==> edit_dist(a, b.drop_last()) <= 1 + edit_dist(a, b),
    decreases a.len() + b.len(),
{
    if a.len() == 0 && b.len() == 0 {
    } else if a.len() == 0 {
        lemma_edit_dist_adjacent(a, b.drop_last());
    } else if b.len() == 0 {
        lemma_edit_dist_adjacent(a.drop_last(), b);
    } else {
        lemma_edit_dist_adjacent(a.drop_last(), b);
        lemma_edit_dist_adjacent(a, b.drop_last());
        lemma_edit_dist_adjacent(a.drop_last(), b.drop_last());
    }
}

/// The triangle inequality.  This is what lets a metric tree discard a
/// whole subtree: all words of a subtree lie at one known distance from
/// the node's word, so their distance to the query is pinned to a window.
pub proof fn lemma_edit_dist_triangle(a: Seq<char>, b: Seq<char>, c: Seq<char>)
    ensures
        edit_dist(a, c) <= edit_dist(a, b) + edit_dist(b, c),
    decreases a.len() + b.len() + c.len(),
{
    if b.len() == 0 {
        lemma_edit_dist_le_max(a, c);
    } else if a.len() == 0 {
        lemma_edit_dist_ge_diff(b, c);
    } else if c.len() == 0 {
        lemma_edit_dist_ge_diff(a, b);
    } else {
        let a1 = a.drop_last();
        let b1 = b.drop_last();
        let c1 = c.drop_last();
        if a.last() == b.last() {
            if b.last() == c.last() {
                lemma_edit_dist_triangle(a1, b1, c1);
            } else {
                let m = min3(edit_dist(b1, c), edit_dist(b, c1), edit_dist(b1, c1));
                if m == edit_dist(b1, c) {
                    lemma_edit_dist_triangle(a1, b1, c);
                } else if m == edit_dist(b, c1) {
                    lemma_edit_dist_triangle(a, b, c1);
                } else {
                    lemma_edit_dist_triangle(a1, b1, c1);
                }
            }
        } else {
            let m = min3(edit_dist(a1, b), edit_dist(a, b1), edit_dist(a1, b1));
            if m == edit_dist(a1, b) {
                lemma_edit_dist_triangle(a1, b, c);
                lemma_edit_dist_adjacent(a, c);
            } else if m == edit_dist(a, b1) {
                lemma_edit_dist_triangle(a, b1, c);
                lemma_edit_dist_adjacent(b, c);
            } else {
                if b.last() == c.last() {
                    lemma_edit_dist_triangle(a1, b1, c1);
                } else {
                    let n = min3(edit_dist(b1, c), edit_dist(b, c1), edit_dist(b1, c1));
                    if n == edit_dist(b1, c) {
                        lemma_edit_dist_triangle(a1, b1, c);
                        lemma_edit_dist_adjacent(a, c);
                    } else if n == edit_dist(b, c1) {
                        lemma_edit_dist_triangle(a, b, c1);
                        lemma_edit_dist_adjacent(a, c1);
                    } else {
                        lemma_edit_dist_triangle(a1, b1, c1);
                    }
                }
            }
        }
    }
}

/// Collects the characters of a string slice into a vector.
pub fn chars_of(s: &str) -> (r: Vec<char>)
    ensures
        r@ == s@,
{
    let n = s.unicode_len();
    let mut r: Vec<char> = Vec::new();
    let mut i: usize = 0;
    while i < n
        invariant
            n == s@.len(),
            i <= n,
            r@ == s@.take(i as int),
        decreases n - i,
    {
        r.push(s.get_char(i));
        i = i + 1;
        proof {
            assert(r@ =~= s@.take(i as int));
        }
    }
    proof {
        assert(s@.take(n as int) =~= s@);
    }
    r
}

/// Edit distance on character vectors: one row of the dynamic-programming
/// table is kept, and each cell is proved equal to the distance of the
/// corresponding prefixes.
pub fn levenshtein_chars(a: &Vec<char>, b: &Vec<char>) -> (r: usize)
    ensures
        r == edit_dist(a@, b@),
{
    let alen = a.len();
    let blen = b.len();
    let mut costs: Vec<usize> = Vec::new();
    costs.push(0);
    while costs.len() <= blen
        invariant
            1 <= costs@.len() <= blen + 1,
            blen == b@.len(),
            forall|k: int| 0 <= k < costs@.len() ==> costs@[k] == edit_dist(a@.take(0), b@.take(k)),
        decreases blen + 1 - costs@.len(),
    {
        let j = costs.len();
        proof {
            assert(a@.take(0) =~= Seq::<char>::empty());
            assert(b@.take(j as int).len() == j);
        }
        costs.push(j);
    }
    let mut i: usize = 0;
    while i < alen
        invariant
            i <= alen,
            alen == a@.len(),
            blen == b@.len(),
            costs@.len() == blen + 1,
            forall|k: int| 0 <= k <= blen ==> costs@[k] == edit_dist(a@.take(i as int), b@.take(k)),
        decreases alen - i,
    {
        let ca = a[i];
        let mut last_cost: usize = i;
        proof {
            assert(b@.take(0) =~= Seq::<char>::empty());
            assert(a@.take(i as int).len() == i);
            assert(a@.take(i + 1).len() == i + 1);
            assert(a@.take(i + 1).drop_last() =~= a@.take(i as int));
        }
        costs[0] = i + 1;
        let mut j: usize = 0;
        while j < blen
            invariant
                j <= blen,
                i < alen,
                alen == a@.len(),
                blen == b@.len(),
                ca == a@[i as int],
                costs@.len() == blen + 1,
                last_cost == edit_dist(a@.take(i as int), b@.take(j as int)),
                forall|k: int| 0 <= k <= j ==> costs@[k] == edit_dist(a@.take(i + 1), b@.take(k)),
                forall|k: int| j < k <= blen ==> costs@[k] == edit_dist(a@.take(i as int), b@.take(k)),
            decreases blen - j,
        {
            let cb = b[j];
            proof {
                assert(a@.take(i + 1).drop_last() =~= a@.take(i as int));
                assert(b@.take(j + 1).drop_last() =~= b@.take(j as int));
                assert(a@.take(i + 1).last() == a@[i as int]);
                assert(b@.take(j + 1).last() == b@[j as int]);
                lemma_edit_dist_le_max(a@.take(i as int), b@.take(j as int));
                lemma_edit_dist_le_max(a@.take(i + 1), b@.take(j as int));
                lemma_edit_dist_le_max(a@.take(i as int), b@.take(j + 1));
            }
            let new_cost: usize = if ca == cb {
                last_cost
            } else {
                let mut m = last_cost;
                if costs[j] < m {
                    m = costs[j];
                }
                if costs[j + 1] < m {
                    m = costs[j + 1];
                }
                1 + m
            };
            assert(new_cost == edit_dist(a@.take(i + 1), b@.take(j + 1)));
            last_cost = costs[j + 1];
            costs[j + 1] = new_cost;
            j = j + 1;
        }
        i = i + 1;
    }
    proof {
        assert(a@.take(alen as int) =~= a@);
        assert(b@.take(blen as int) =~= b@);
    }
    costs[blen]
}

/// Levenshtein distance between two strings, counted over characters.
pub fn levenshtein(a: &str, b: &str) -> (r: usize)
    ensures
        r == edit_dist(a@, b@),
{
    let av = chars_of(a);
    let bv = chars_of(b);
    levenshtein_chars(&av, &bv)
}

} // verus!
