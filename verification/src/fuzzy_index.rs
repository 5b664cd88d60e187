//! The fuzzy word index: a metric tree in which every child is keyed by
//! the exact edit distance between its word and its parent's word.
//!
//! The well-formedness invariant is stronger than the per-edge metric
//! law: under a child keyed `d`, *every* word of that subtree lies at
//! distance exactly `d` from the parent's word, because every insertion
//! that reached the subtree chose the child by that distance.  This is
//! what makes the window pruning of the fuzzy search complete.

use vstd::prelude::*;

use crate::distance::edit_dist;
use crate::distance::lemma_edit_dist_self;
use crate::distance::lemma_edit_dist_sym;
use crate::distance::lemma_edit_dist_triangle;
use crate::distance::lemma_edit_dist_zero;
use crate::distance::chars_of;
use crate::distance::levenshtein_chars;
use crate::text::is_prefix;
use crate::text::is_suffix;
use crate::text::is_substring;
use crate::text::eq_chars;
use crate::text::starts_with_chars;
use crate::text::ends_with_chars;
use crate::text::contains_chars;

verus! {

/// How `search_match` compares each stored word against the query.
#[derive(Debug, Clone, Copy, PartialEq, Eq, Structural)]
pub enum MatchMode {
    Prefix,
    Suffix,
    Substring,
    Exact,
}

/// What it means for a stored word `w` to match query `q` in a mode.
pub open spec fn mode_matches(mode: MatchMode, q: Seq<char>, w: Seq<char>) -> bool {
    match mode {
        MatchMode::Prefix => is_prefix(q, w),
        MatchMode::Suffix => is_suffix(q, w),
        MatchMode::Substring => is_substring(q, w),
        MatchMode::Exact => w == q,
    }
}

struct Node {
    word: String,
    children: Vec<(usize, Node)>,
}

/// The set of words stored in the subtree rooted at `n`.
spec fn node_words(n: Node) -> Set<Seq<char>>
    decreases n,
{
    children_words(n.children@).insert(n.word@)
}

/// The set of words stored under any of the child entries `cs`.
spec fn children_words(cs: Seq<(usize, Node)>) -> Set<Seq<char>>
    decreases cs,
{
    if cs.len() == 0 {
        Set::empty()
    } else {
        node_words(cs[0].1).union(children_words(cs.drop_first()))
    }
}

/// Every word of the subtree rooted at `n` is at distance exactly `d`
/// from the word `pw`.
spec fn at_dist(n: Node, pw: Seq<char>, d: nat) -> bool {
    forall|w: Seq<char>| node_words(n).contains(w) ==> edit_dist(w, pw) == d
}

/// One child entry of a node whose word is `pw` is sound: a positive
/// key, all subtree words at exactly that distance from `pw`, and a
/// well-formed subtree.
spec fn entry_ok(pw: Seq<char>, e: (usize, Node)) -> bool {
    &&& e.0 > 0
    &&& at_dist(e.1, pw, e.0 as nat)
    &&& node_wf(e.1)
}

/// All child entries of a node whose word is `pw` are sound.
spec fn children_ok(pw: Seq<char>, cs: Seq<(usize, Node)>) -> bool
    decreases cs,
{
    if cs.len() == 0 {
        true
    } else {
        &&& cs[0].0 > 0
        &&& at_dist(cs[0].1, pw, cs[0].0 as nat)
        &&& node_wf(cs[0].1)
        &&& children_ok(pw, cs.drop_first())
    }
}

/// Distinct children carry distinct distance keys.
spec fn unique_keys(cs: Seq<(usize, Node)>) -> bool {
    forall|i: int, j: int| 0 <= i < j < cs.len() ==> cs[i].0 != cs[j].0
}

/// Well-formedness of a subtree.  In particular, for every child entry
/// `(d, c)`, `edit_dist(c.word, n.word) == d`: the metric invariant.
spec fn node_wf(n: Node) -> bool
    decreases n,
{
    children_ok(n.word@, n.children@) && unique_keys(n.children@)
}

/// `children_ok` is the pointwise conjunction of `entry_ok`.
proof fn lemma_children_ok_iff(pw: Seq<char>, cs: Seq<(usize, Node)>)
    ensures
        children_ok(pw, cs) <==> (forall|i: int| 0 <= i < cs.len() ==> entry_ok(pw, #[trigger] cs[i])),
    decreases cs,
{
    if cs.len() > 0 {
        lemma_children_ok_iff(pw, cs.drop_first());
        if children_ok(pw, cs) {
            assert forall|i: int| 0 <= i < cs.len() implies entry_ok(pw, #[trigger] cs[i]) by {
                if i > 0 {
                    assert(cs.drop_first()[i - 1] == cs[i]);
                }
            }
        }
        if forall|i: int| 0 <= i < cs.len() ==> entry_ok(pw, #[trigger] cs[i]) {
            assert forall|i: int| 0 <= i < cs.drop_first().len() implies entry_ok(
                pw,
                #[trigger] cs.drop_first()[i],
            ) by {
                assert(cs.drop_first()[i] == cs[i + 1]);
            }
            assert(entry_ok(pw, cs[0]));
        }
    }
}

/// A word is under some child entry exactly when it is under one of them.
proof fn lemma_children_words_iff(cs: Seq<(usize, Node)>, w: Seq<char>)
    ensures
        children_words(cs).contains(w) <==> (exists|i: int|
            0 <= i < cs.len() && node_words(#[trigger] cs[i].1).contains(w)),
    decreases cs,
{
    if cs.len() > 0 {
        lemma_children_words_iff(cs.drop_first(), w);
        if children_words(cs).contains(w) {
            if node_words(cs[0].1).contains(w) {
                assert(0 <= 0 < cs.len() && node_words(cs[0].1).contains(w));
            } else {
                let i = choose|i: int|
                    0 <= i < cs.drop_first().len() && node_words(
                        #[trigger] cs.drop_first()[i].1,
                    ).contains(w);
                assert(cs.drop_first()[i] == cs[i + 1]);
                assert(node_words(cs[i + 1].1).contains(w));
            }
        }
        if exists|i: int| 0 <= i < cs.len() && node_words(#[trigger] cs[i].1).contains(w) {
            let i = choose|i: int| 0 <= i < cs.len() && node_words(#[trigger] cs[i].1).contains(w);
            if i == 0 {
            } else {
                assert(cs.drop_first()[i - 1] == cs[i]);
                assert(node_words(cs.drop_first()[i - 1].1).contains(w));
            }
        }
    }
}

impl Node {
    /// A leaf storing exactly one word.
    fn new(word: String) -> (n: Node)
        ensures
            node_wf(n),
            node_words(n) == Set::empty().insert(word@),
            n.word@ == word@,
    {
        let n = Node { word, children: Vec::new() };
        proof {
            assert(n.children@.len() == 0);
            assert(node_words(n) =~= Set::empty().insert(n.word@));
        }
        n
    }

    /// Inserts a word into the subtree.  At each node the edit distance
    /// `d` to the node's word is computed; distance zero means the word
    /// is already stored and the tree is left unchanged (duplicates are
    /// rejected at insertion, so stored words are distinct); otherwise
    /// insertion descends into the child keyed `d`, creating it if
    /// missing.
    fn insert(&mut self, word: String, wc: &Vec<char>)
        requires
            node_wf(*old(self)),
            wc@ == word@,
        ensures
            node_wf(*final(self)),
            node_words(*final(self)) == node_words(*old(self)).insert(wc@),
            final(self).word@ == old(self).word@,
        decreases *old(self),
    {
        let selfwc = chars_of(self.word.as_str());
        let d = levenshtein_chars(wc, &selfwc);
        if d == 0 {
            proof {
                lemma_edit_dist_zero(wc@, self.word@);
                assert(node_words(*self).contains(wc@));
                assert(node_words(*self) =~= node_words(*self).insert(wc@));
            }
            return ;
        }
        let ghost pw = self.word@;
        let ghost cs = self.children@;
        let n = self.children.len();
        let mut i: usize = 0;
        while i < n
            invariant
                *self == *old(self),
                node_wf(*old(self)),
                wc@ == word@,
                cs == self.children@,
                pw == self.word@,
                n == self.children@.len(),
                i <= n,
                d == edit_dist(wc@, self.word@),
                d > 0,
                forall|k: int| 0 <= k < i ==> (#[trigger] self.children@[k]).0 != d,
            decreases n - i,
        {
            if self.children[i].0 == d {
                proof {
                    let os = *old(self);
                    assert(decreases_to!(os => os.children));
                    assert(decreases_to!(os.children => os.children@));
                    assert(decreases_to!(os.children@ => os.children@[i as int]));
                    assert(decreases_to!(os.children@[i as int] => os.children@[i as int].1));
                    lemma_children_ok_iff(pw, cs);
                    assert(entry_ok(pw, cs[i as int]));
                }
                let (key, mut child) = self.children.swap_remove(i);
                child.insert(word, wc);
                self.children.push((key, child));
                proof {
                    let fs = *self;
                    let fcs = fs.children@;
                    let last = fcs.len() - 1;
                    // every entry of the new list is an old entry, except the
                    // re-inserted child, which gained exactly the new word
                    assert(forall|k: int|
                        0 <= k < last ==> #[trigger] fcs[k] == (if k == i {
                            cs.last()
                        } else {
                            cs[k]
                        }));
                    assert(fcs[last as int].0 == d);
                    assert(node_words(fcs[last as int].1) == node_words(cs[i as int].1).insert(
                        wc@,
                    ));
                    lemma_children_ok_iff(pw, cs);
                    assert forall|k: int| 0 <= k < fcs.len() implies entry_ok(
                        pw,
                        #[trigger] fcs[k],
                    ) by {
                        if k == last {
                            assert(entry_ok(pw, cs[i as int]));
                            assert forall|w: Seq<char>|
                                node_words(fcs[k].1).contains(w) implies edit_dist(w, pw)
                                == d by {
                                if w != wc@ {
                                    assert(node_words(cs[i as int].1).contains(w));
                                }
                            }
                        }
                    }
                    lemma_children_ok_iff(pw, fcs);
                    // distance keys are a rearrangement of the old ones
                    assert forall|k1: int, k2: int| 0 <= k1 < k2 < fcs.len() implies fcs[k1].0
                        != fcs[k2].0 by {
                        if k2 == last {
                            if k1 == i {
                                assert(fcs[k1].0 == cs[cs.len() - 1].0);
                                if i < cs.len() - 1 {
                                    assert(cs[i as int].0 != cs[cs.len() - 1].0);
                                }
                            } else {
                                assert(fcs[k1].0 == cs[k1].0);
                                assert(cs[k1].0 != cs[i as int].0);
                            }
                        } else {
                            assert(fcs[k1].0 == (if k1 == i {
                                cs.last()
                            } else {
                                cs[k1]
                            }).0);
                            assert(fcs[k2].0 == (if k2 == i {
                                cs.last()
                            } else {
                                cs[k2]
                            }).0);
                        }
                    }
                    assert(node_wf(fs));
                    // word sets: the new list holds the old words plus the new one
                    assert forall|w: Seq<char>| #![all_triggers]
                        children_words(fcs).contains(w)
                        <==> (children_words(cs).contains(w) || w == wc@) by {
                        lemma_children_words_iff(fcs, w);
                        lemma_children_words_iff(cs, w);
                        if children_words(fcs).contains(w) {
                            let k = choose|k: int|
                                0 <= k < fcs.len() && node_words(#[trigger] fcs[k].1).contains(w);
                            if k == last {
                                if w != wc@ {
                                    assert(node_words(cs[i as int].1).contains(w));
                                }
                            } else if k == i {
                                assert(node_words(cs[cs.len() - 1].1).contains(w));
                            } else {
                                assert(node_words(cs[k].1).contains(w));
                            }
                        }
                        if children_words(cs).contains(w) {
                            let k = choose|k: int|
                                0 <= k < cs.len() && node_words(#[trigger] cs[k].1).contains(w);
                            if k == i {
                                assert(node_words(fcs[last as int].1).contains(w));
                            } else if k == cs.len() - 1 {
                                if i < cs.len() - 1 {
                                    assert(node_words(fcs[i as int].1).contains(w));
                                } else {
                                    assert(node_words(fcs[last as int].1).contains(w));
                                }
                            } else {
                                assert(node_words(fcs[k].1).contains(w));
                            }
                        }
                        if w == wc@ {
                            assert(node_words(fcs[last as int].1).contains(w));
                        }
                    }
                    assert(node_words(fs) == children_words(fcs).insert(pw));
                    assert(node_words(*old(self)) == children_words(cs).insert(pw));
                    assert forall|w: Seq<char>| #[trigger] node_words(fs).contains(w) implies
                        node_words(*old(self)).insert(wc@).contains(w) by {
                        if w != pw {
                            assert(children_words(fcs).contains(w));
                            assert(children_words(cs).contains(w) || w == wc@);
                        }
                    }
                    assert forall|w: Seq<char>| #[trigger] node_words(*old(self)).insert(
                        wc@,
                    ).contains(w) implies node_words(fs).contains(w) by {
                        if w != pw {
                            assert(children_words(cs).contains(w) || w == wc@);
                            assert(children_words(fcs).contains(w));
                        }
                    }
                    assert(node_words(fs) =~= node_words(*old(self)).insert(wc@));
                }
                return ;
            }
            i = i + 1;
        }
        // no child at this distance: attach a fresh leaf
        let leaf = Node::new(word);
        self.children.push((d, leaf));
        proof {
            let fs = *self;
            let fcs = fs.children@;
            let last = fcs.len() - 1;
            lemma_children_ok_iff(pw, cs);
            assert forall|k: int| 0 <= k < fcs.len() implies entry_ok(pw, #[trigger] fcs[k]) by {
                if k == last {
                    assert forall|w: Seq<char>| node_words(fcs[k].1).contains(w) implies edit_dist(
                        w,
                        pw,
                    ) == d by {
                        assert(w == wc@);
                    }
                } else {
                    assert(fcs[k] == cs[k]);
                }
            }
            lemma_children_ok_iff(pw, fcs);
            assert(node_wf(fs));
            assert forall|w: Seq<char>| #![all_triggers]
                children_words(fcs).contains(w) <==> (children_words(cs).contains(w) || w
                == wc@) by {
                lemma_children_words_iff(fcs, w);
                lemma_children_words_iff(cs, w);
                if children_words(fcs).contains(w) {
                    let k = choose|k: int|
                        0 <= k < fcs.len() && node_words(#[trigger] fcs[k].1).contains(w);
                    if k < last {
                        assert(node_words(cs[k].1).contains(w));
                    }
                }
                if children_words(cs).contains(w) {
                    let k = choose|k: int|
                        0 <= k < cs.len() && node_words(#[trigger] cs[k].1).contains(w);
                    assert(node_words(fcs[k].1).contains(w));
                }
                if w == wc@ {
                    assert(node_words(fcs[last as int].1).contains(w));
                }
            }
            assert(node_words(fs) == children_words(fcs).insert(pw));
            assert(node_words(*old(self)) == children_words(cs).insert(pw));
            assert forall|w: Seq<char>| #[trigger] node_words(fs).contains(w) implies node_words(
                *old(self),
            ).insert(wc@).contains(w) by {
                if w != pw {
                    assert(children_words(fcs).contains(w));
                    assert(children_words(cs).contains(w) || w == wc@);
                }
            }
            assert forall|w: Seq<char>| #[trigger] node_words(*old(self)).insert(wc@).contains(
                w,
            ) implies node_words(fs).contains(w) by {
                if w != pw {
                    assert(children_words(cs).contains(w) || w == wc@);
                    assert(children_words(fcs).contains(w));
                }
            }
            assert(node_words(fs) =~= node_words(*old(self)).insert(wc@));
        }
    }

    /// Whether the subtree stores exactly this word.  The walk follows
    /// the single child keyed by the computed distance: well-formedness
    /// pins every stored word to that branch.
    fn contains_word(&self, wc: &Vec<char>) -> (r: bool)
        requires
            node_wf(*self),
        ensures
            r == node_words(*self).contains(wc@),
        decreases *self,
    {
        let selfwc = chars_of(self.word.as_str());
        let d = levenshtein_chars(wc, &selfwc);
        if d == 0 {
            proof {
                lemma_edit_dist_zero(wc@, self.word@);
            }
            return true;
        }
        let ghost pw = self.word@;
        let ghost cs = self.children@;
        let n = self.children.len();
        let mut i: usize = 0;
        while i < n
            invariant
                node_wf(*self),
                n == self.children@.len(),
                i <= n,
                d == edit_dist(wc@, self.word@),
                d > 0,
                cs == self.children@,
                pw == self.word@,
                forall|k: int| 0 <= k < i ==> (#[trigger] self.children@[k]).0 != d,
            decreases n - i,
        {
            if self.children[i].0 == d {
                proof {
                    assert(decreases_to!(*self => self.children));
                    assert(decreases_to!(self.children => self.children@));
                    assert(decreases_to!(self.children@ => self.children@[i as int]));
                    assert(decreases_to!(self.children@[i as int] => self.children@[
                        i as int].1));
                    lemma_children_ok_iff(pw, cs);
                    assert(entry_ok(pw, cs[i as int]));
                }
                let child = &self.children[i];
                let r = child.1.contains_word(wc);
                proof {
                    lemma_children_words_iff(cs, wc@);
                    lemma_edit_dist_self(pw);
                    if node_words(*self).contains(wc@) && !r {
                        let k = choose|k: int|
                            0 <= k < cs.len() && node_words(#[trigger] cs[k].1).contains(wc@);
                        assert(entry_ok(pw, cs[k]));
                        assert(edit_dist(wc@, pw) == cs[k].0);
                        assert(k == i);
                    }
                }
                return r;
            }
            i = i + 1;
        }
        proof {
            lemma_children_ok_iff(pw, cs);
            lemma_children_words_iff(cs, wc@);
            lemma_edit_dist_self(pw);
            if node_words(*self).contains(wc@) {
                let k = choose|k: int|
                    0 <= k < cs.len() && node_words(#[trigger] cs[k].1).contains(wc@);
                assert(entry_ok(pw, cs[k]));
                assert(edit_dist(wc@, pw) == cs[k].0);
            }
        }
        false
    }
}

/// The two retrieval modes of the tree: all words within an edit
/// distance bound, or all words satisfying a string predicate.
#[derive(Debug, Clone, Copy)]
enum SearchKind {
    Within(usize),
    By(MatchMode),
}

/// Whether stored word `w` answers query `q` under the given kind.
spec fn kind_matches(kind: SearchKind, q: Seq<char>, w: Seq<char>) -> bool {
    match kind {
        SearchKind::Within(k) => edit_dist(q, w) <= k,
        SearchKind::By(m) => mode_matches(m, q, w),
    }
}

/// `ss` holds some string whose characters are `w`.
pub open spec fn seq_has_word(ss: Seq<String>, w: Seq<char>) -> bool {
    exists|i: int| 0 <= i < ss.len() && ss[i]@ == w
}

/// No two strings of `ss` have the same characters.
pub open spec fn distinct_words(ss: Seq<String>) -> bool {
    forall|i: int, j: int| 0 <= i < j < ss.len() ==> ss[i]@ != ss[j]@
}

/// Membership in a split sequence is membership in either half.
proof fn lemma_seq_has_split(full: Seq<String>, n: int, w: Seq<char>)
    requires
        0 <= n <= full.len(),
    ensures
        seq_has_word(full, w) <==> (seq_has_word(full.take(n), w) || seq_has_word(
            full.skip(n),
            w,
        )),
{
    if seq_has_word(full, w) {
        let i = choose|i: int| 0 <= i < full.len() && full[i]@ == w;
        if i < n {
            assert(full.take(n)[i]@ == w);
        } else {
            assert(full.skip(n)[i - n]@ == w);
        }
    }
    if seq_has_word(full.take(n), w) {
        let i = choose|i: int| 0 <= i < full.take(n).len() && full.take(n)[i]@ == w;
        assert(full[i]@ == w);
    }
    if seq_has_word(full.skip(n), w) {
        let i = choose|i: int| 0 <= i < full.skip(n).len() && full.skip(n)[i]@ == w;
        assert(full[i + n]@ == w);
    }
}

/// A word stored under child `i` is stored under no other child, and is
/// not the node's own word: subtrees hold disjoint word sets.
proof fn lemma_children_separate(n: Node, i: int, w: Seq<char>)
    requires
        node_wf(n),
        0 <= i < n.children@.len(),
        node_words(n.children@[i].1).contains(w),
    ensures
        w != n.word@,
        forall|j: int|
            0 <= j < n.children@.len() && j != i ==> !node_words(
                (#[trigger] n.children@[j]).1,
            ).contains(w),
{
    let cs = n.children@;
    let pw = n.word@;
    lemma_children_ok_iff(pw, cs);
    assert(entry_ok(pw, cs[i]));
    assert(edit_dist(w, pw) == cs[i].0);
    lemma_edit_dist_self(pw);
    assert forall|j: int|
        0 <= j < cs.len() && j != i implies !node_words((#[trigger] cs[j]).1).contains(w) by {
        assert(entry_ok(pw, cs[j]));
        if node_words(cs[j].1).contains(w) {
            assert(edit_dist(w, pw) == cs[j].0);
        }
    }
}

/// Checks one stored word against the query, by kind.
fn word_answers(kind: SearchKind, qc: &Vec<char>, wc: &Vec<char>) -> (r: bool)
    ensures
        r == kind_matches(kind, qc@, wc@),
{
    match kind {
        SearchKind::Within(k) => {
            let d = levenshtein_chars(qc, wc);
            d <= k
        },
        SearchKind::By(m) => match m {
            MatchMode::Prefix => starts_with_chars(wc, qc),
            MatchMode::Suffix => ends_with_chars(wc, qc),
            MatchMode::Substring => contains_chars(wc, qc),
            MatchMode::Exact => eq_chars(wc, qc),
        },
    }
}

impl Node {
    /// Collects every word of the subtree that answers the query,
    /// appending to `results`.  A distance-bounded search descends into
    /// a child keyed `k` only when `k` lies within `max_dist` of the
    /// distance between the query and this node's word; the triangle
    /// inequality shows the skipped subtrees hold no answers, so the
    /// result is exactly what a scan of all stored words would give.
    fn search_rec(&self, kind: SearchKind, qc: &Vec<char>, results: &mut Vec<String>)
        requires
            node_wf(*self),
        ensures
            old(results)@.len() <= final(results)@.len(),
            final(results)@.take(old(results)@.len() as int) == old(results)@,
            distinct_words(final(results)@.skip(old(results)@.len() as int)),
            forall|w: Seq<char>|
                #[trigger] seq_has_word(final(results)@.skip(old(results)@.len() as int), w)
                    <==> (node_words(*self).contains(w) && kind_matches(kind, qc@, w)),
        decreases *self,
    {
        let ghost r0 = results@;
        let ghost pw = self.word@;
        let ghost cs = self.children@;
        let selfwc = chars_of(self.word.as_str());
        if word_answers(kind, qc, &selfwc) {
            results.push(self.word.clone());
        }
        proof {
            assert(results@.take(r0.len() as int) =~= r0);
            if kind_matches(kind, qc@, pw) {
                assert(results@.skip(r0.len() as int) =~= seq![self.word]);
                assert(results@.skip(r0.len() as int)[0]@ == pw);
            } else {
                assert(results@.skip(r0.len() as int) =~= Seq::<String>::empty());
            }
        }
        let use_window: bool;
        let d: usize;
        match kind {
            SearchKind::Within(_) => {
                use_window = true;
                d = levenshtein_chars(qc, &selfwc);
            },
            SearchKind::By(_) => {
                use_window = false;
                d = 0;
            },
        }
        let n = self.children.len();
        let mut i: usize = 0;
        while i < n
            invariant
                node_wf(*self),
                pw == self.word@,
                cs == self.children@,
                n == cs.len(),
                i <= n,
                use_window ==> kind is Within && d == edit_dist(qc@, pw),
                !use_window ==> kind is By,
                r0.len() <= results@.len(),
                results@.take(r0.len() as int) == r0,
                distinct_words(results@.skip(r0.len() as int)),
                forall|w: Seq<char>|
                    #[trigger] seq_has_word(results@.skip(r0.len() as int), w) <==> ((w == pw
                        && kind_matches(kind, qc@, pw)) || (exists|j: int|
                        0 <= j < i && node_words((#[trigger] cs[j]).1).contains(w) && kind_matches(
                            kind,
                            qc@,
                            w,
                        ))),
            decreases n - i,
        {
            let key = self.children[i].0;
            let visit: bool = if use_window {
                match kind {
                    SearchKind::Within(md) => {
                        if key >= d {
                            key - d <= md
                        } else {
                            d - key <= md
                        }
                    },
                    SearchKind::By(_) => true,
                }
            } else {
                true
            };
            let ghost rpre = results@;
            if visit {
                proof {
                    assert(decreases_to!(*self => self.children));
                    assert(decreases_to!(self.children => self.children@));
                    assert(decreases_to!(self.children@ => self.children@[i as int]));
                    assert(decreases_to!(self.children@[i as int] => self.children@[
                        i as int].1));
                    lemma_children_ok_iff(pw, cs);
                    assert(entry_ok(pw, cs[i as int]));
                }
                let child = &self.children[i];
                child.1.search_rec(kind, qc, results);
            }
            proof {
                if visit {
                    let app_old = rpre.skip(r0.len() as int);
                    let app_i = results@.skip(rpre.len() as int);
                    let app_new = results@.skip(r0.len() as int);
                    assert(results@.take(rpre.len() as int) == rpre);
                    assert(results@.take(r0.len() as int) =~= r0);
                    assert(app_new =~= app_old + app_i);
                    assert(app_new.take(app_old.len() as int) =~= app_old);
                    assert(app_new.skip(app_old.len() as int) =~= app_i);
                    // appended words from distinct subtrees never repeat
                    assert forall|k1: int, k2: int|
                        0 <= k1 < k2 < app_new.len() implies app_new[k1]@ != app_new[k2]@ by {
                        if k1 < app_old.len() && k2 >= app_old.len() {
                            let w = app_new[k1]@;
                            if app_new[k2]@ == w {
                                assert(seq_has_word(app_old, w));
                                assert(seq_has_word(app_i, w));
                                assert(node_words(cs[i as int].1).contains(w));
                                if w == pw && kind_matches(kind, qc@, pw) {
                                    lemma_children_separate(*self, i as int, w);
                                } else {
                                    let j = choose|j: int|
                                        0 <= j < i && node_words(
                                            (#[trigger] cs[j]).1,
                                        ).contains(w) && kind_matches(kind, qc@, w);
                                    lemma_children_separate(*self, j, w);
                                }
                            }
                        } else if k2 < app_old.len() {
                        } else {
                            assert(app_i[k1 - app_old.len()]@ != app_i[k2 - app_old.len()]@);
                        }
                    }
                    // membership in the grown section
                    assert forall|w: Seq<char>| #[trigger] seq_has_word(app_new, w) implies ((w
                        == pw && kind_matches(kind, qc@, pw)) || (exists|j: int|
                        0 <= j < i + 1 && node_words((#[trigger] cs[j]).1).contains(w)
                            && kind_matches(kind, qc@, w))) by {
                        lemma_seq_has_split(app_new, app_old.len() as int, w);
                        if seq_has_word(app_old, w) {
                        } else {
                            assert(seq_has_word(app_i, w));
                            assert(node_words(cs[i as int].1).contains(w));
                        }
                    }
                    assert forall|w: Seq<char>|
                        ((w == pw && kind_matches(kind, qc@, pw)) || (exists|j: int|
                            0 <= j < i + 1 && node_words((#[trigger] cs[j]).1).contains(w)
                                && kind_matches(kind, qc@, w))) implies #[trigger] seq_has_word(
                        app_new,
                        w,
                    ) by {
                        lemma_seq_has_split(app_new, app_old.len() as int, w);
                        if w == pw && kind_matches(kind, qc@, pw) {
                            assert(seq_has_word(app_old, w));
                        } else {
                            let j = choose|j: int|
                                0 <= j < i + 1 && node_words((#[trigger] cs[j]).1).contains(w)
                                    && kind_matches(kind, qc@, w);
                            if j < i {
                                assert(seq_has_word(app_old, w));
                            } else {
                                assert(seq_has_word(app_i, w));
                            }
                        }
                    }
                } else {
                    // the window excludes this child: no word of its
                    // subtree can answer the query
                    let md = kind->Within_0;
                    lemma_children_ok_iff(pw, cs);
                    assert(entry_ok(pw, cs[i as int]));
                    assert forall|w: Seq<char>|
                        node_words(cs[i as int].1).contains(w) implies !kind_matches(
                        kind,
                        qc@,
                        w,
                    ) by {
                        assert(edit_dist(w, pw) == cs[i as int].0);
                        if kind_matches(kind, qc@, w) {
                            lemma_edit_dist_triangle(qc@, w, pw);
                            lemma_edit_dist_triangle(w, qc@, pw);
                            lemma_edit_dist_sym(w, qc@);
                        }
                    }
                    assert forall|w: Seq<char>| #[trigger] seq_has_word(
                        results@.skip(r0.len() as int),
                        w,
                    ) implies ((w == pw && kind_matches(kind, qc@, pw)) || (exists|j: int|
                        0 <= j < i + 1 && node_words((#[trigger] cs[j]).1).contains(w)
                            && kind_matches(kind, qc@, w))) by {}
                    assert forall|w: Seq<char>|
                        ((w == pw && kind_matches(kind, qc@, pw)) || (exists|j: int|
                            0 <= j < i + 1 && node_words((#[trigger] cs[j]).1).contains(w)
                                && kind_matches(kind, qc@, w))) implies #[trigger] seq_has_word(
                        results@.skip(r0.len() as int),
                        w,
                    ) by {
                        if !(w == pw && kind_matches(kind, qc@, pw)) {
                            let j = choose|j: int|
                                0 <= j < i + 1 && node_words((#[trigger] cs[j]).1).contains(w)
                                    && kind_matches(kind, qc@, w);
                            assert(j < i);
                        }
                    }
                }
            }
            i = i + 1;
        }
        proof {
            assert forall|w: Seq<char>| #[trigger] seq_has_word(
                results@.skip(r0.len() as int),
                w,
            ) implies (node_words(*self).contains(w) && kind_matches(kind, qc@, w)) by {
                lemma_children_words_iff(cs, w);
            }
            assert forall|w: Seq<char>|
                node_words(*self).contains(w) && kind_matches(kind, qc@, w) implies
                #[trigger] seq_has_word(results@.skip(r0.len() as int), w) by {
                lemma_children_words_iff(cs, w);
            }
        }
    }
}

/// Membership in a pushed sequence is membership before, or equality
/// with the new element.
proof fn lemma_seq_has_push(ss: Seq<String>, x: String, w: Seq<char>)
    ensures
        seq_has_word(ss.push(x), w) <==> (seq_has_word(ss, w) || x@ == w),
{
    if seq_has_word(ss.push(x), w) {
        let i = choose|i: int| 0 <= i < ss.push(x).len() && ss.push(x)[i]@ == w;
        if i < ss.len() {
            assert(ss[i]@ == w);
        }
    }
    if seq_has_word(ss, w) {
        let i = choose|i: int| 0 <= i < ss.len() && ss[i]@ == w;
        assert(ss.push(x)[i]@ == w);
    }
    if x@ == w {
        assert(ss.push(x)[ss.len() as int]@ == w);
    }
}

/// The in-memory index of all words answered so far in a session.
pub struct FuzzyIndex {
    root: Option<Node>,
}

impl FuzzyIndex {
    /// The set of stored words, as character sequences.
    pub closed spec fn words(self) -> Set<Seq<char>> {
        match self.root {
            None => Set::empty(),
            Some(n) => node_words(n),
        }
    }

    /// Structural validity: every child edge carries the exact edit
    /// distance between the words it joins (the metric invariant), and
    /// every word of a subtree keyed `d` lies at distance `d` from the
    /// subtree's parent word.
    pub closed spec fn wf(self) -> bool {
        match self.root {
            None => true,
            Some(n) => node_wf(n),
        }
    }

    /// An empty index.
    pub fn new() -> (r: FuzzyIndex)
        ensures
            r.wf(),
            r.words() == Set::<Seq<char>>::empty(),
    {
        FuzzyIndex { root: None }
    }

    /// Adds one word.  Inserting a word that is already stored leaves
    /// the index unchanged.
    pub fn add_word(&mut self, word: String)
        requires
            old(self).wf(),
        ensures
            final(self).wf(),
            final(self).words() == old(self).words().insert(word@),
    {
        let wc = chars_of(word.as_str());
        let root_opt = self.root.take();
        match root_opt {
            None => {
                self.root = Some(Node::new(word));
                proof {
                    assert(Set::empty().insert(wc@) =~= old(self).words().insert(wc@));
                }
            },
            Some(mut n) => {
                n.insert(word, &wc);
                self.root = Some(n);
            },
        }
    }

    /// Whether the word is stored.
    pub fn contains_word(&self, word: &str) -> (r: bool)
        requires
            self.wf(),
        ensures
            r == self.words().contains(word@),
    {
        let wc = chars_of(word);
        match &self.root {
            None => false,
            Some(n) => n.contains_word(&wc),
        }
    }

    /// Adds every word of a batch and returns the words that were not
    /// stored before the batch, each exactly once.
    pub fn add_words(&mut self, words: &Vec<String>) -> (added: Vec<String>)
        requires
            old(self).wf(),
        ensures
            final(self).wf(),
            forall|w: Seq<char>|
                #[trigger] final(self).words().contains(w) <==> (old(self).words().contains(w)
                    || seq_has_word(words@, w)),
            distinct_words(added@),
            forall|w: Seq<char>|
                #[trigger] seq_has_word(added@, w) <==> (seq_has_word(words@, w) && !old(
                    self,
                ).words().contains(w)),
    {
        let mut added: Vec<String> = Vec::new();
        let n = words.len();
        let mut i: usize = 0;
        proof {
            assert(words@.take(0) =~= Seq::<String>::empty());
        }
        while i < n
            invariant
                n == words@.len(),
                i <= n,
                self.wf(),
                forall|w: Seq<char>|
                    #[trigger] self.words().contains(w) <==> (old(self).words().contains(w)
                        || seq_has_word(words@.take(i as int), w)),
                distinct_words(added@),
                forall|w: Seq<char>|
                    #[trigger] seq_has_word(added@, w) <==> (seq_has_word(words@.take(i as int), w)
                        && !old(self).words().contains(w)),
            decreases n - i,
        {
            let w = &words[i];
            let ghost pre = *self;
            let ghost added_pre = added@;
            let have = self.contains_word(w.as_str());
            if !have {
                self.add_word(w.clone());
                added.push(w.clone());
            }
            proof {
                assert(words@.take(i + 1) =~= words@.take(i as int).push(words@[i as int]));
                assert forall|w2: Seq<char>| #[trigger] seq_has_word(words@.take(i + 1), w2) implies (
                seq_has_word(words@.take(i as int), w2) || words@[i as int]@ == w2) by {
                    lemma_seq_has_push(words@.take(i as int), words@[i as int], w2);
                }
                assert forall|w2: Seq<char>|
                    seq_has_word(words@.take(i as int), w2) || words@[i as int]@ == w2 implies
                    #[trigger] seq_has_word(words@.take(i + 1), w2) by {
                    lemma_seq_has_push(words@.take(i as int), words@[i as int], w2);
                }
                if !have {
                    assert forall|w2: Seq<char>| #[trigger] seq_has_word(added@, w2) implies (
                    seq_has_word(added_pre, w2) || w@ == w2) by {
                        lemma_seq_has_push(added_pre, words@[i as int], w2);
                    }
                    assert forall|w2: Seq<char>|
                        seq_has_word(added_pre, w2) || w@ == w2 implies #[trigger] seq_has_word(
                        added@,
                        w2,
                    ) by {
                        lemma_seq_has_push(added_pre, words@[i as int], w2);
                    }
                    assert(distinct_words(added@)) by {
                        assert(forall|k: int|
                            0 <= k < added_pre.len() ==> #[trigger] added@[k] == added_pre[k]);
                        assert(!seq_has_word(added_pre, w@));
                    }
                }
            }
            i = i + 1;
        }
        proof {
            assert(words@.take(n as int) =~= words@);
        }
        added
    }

    /// All stored words within edit distance `max_dist` of the query:
    /// exactly the words a scan of the whole store would select, each
    /// exactly once.
    pub fn search_fuzzy(&self, query: &str, max_dist: usize) -> (r: Vec<String>)
        requires
            self.wf(),
        ensures
            distinct_words(r@),
            forall|w: Seq<char>|
                #[trigger] seq_has_word(r@, w) <==> (self.words().contains(w) && edit_dist(
                    query@,
                    w,
                ) <= max_dist),
    {
        let qc = chars_of(query);
        let mut results: Vec<String> = Vec::new();
        match &self.root {
            None => {},
            Some(n) => {
                n.search_rec(SearchKind::Within(max_dist), &qc, &mut results);
            },
        }
        proof {
            assert(results@.skip(0) =~= results@);
        }
        results
    }

    /// All stored words matching the query under the given mode: exactly
    /// the words a scan of the whole store would select, each exactly
    /// once.
    pub fn search_match(&self, query: &str, mode: MatchMode) -> (r: Vec<String>)
        requires
            self.wf(),
        ensures
            distinct_words(r@),
            forall|w: Seq<char>|
                #[trigger] seq_has_word(r@, w) <==> (self.words().contains(w) && mode_matches(
                    mode,
                    query@,
                    w,
                )),
    {
        let qc = chars_of(query);
        let mut results: Vec<String> = Vec::new();
        match &self.root {
            None => {},
            Some(n) => {
                n.search_rec(SearchKind::By(mode), &qc, &mut results);
            },
        }
        proof {
            assert(results@.skip(0) =~= results@);
        }
        results
    }
}

/// Which retrievals a combined search runs: a distance-bounded fuzzy
/// pass, a predicate pass, either, or both.
#[derive(Debug, Clone, Copy)]
pub struct SearchOptions {
    pub fuzzy_distance: Option<usize>,
    pub match_mode: Option<MatchMode>,
}

/// Whether `w` answers a combined search with options `o` for query `q`.
pub open spec fn options_match(o: SearchOptions, q: Seq<char>, w: Seq<char>) -> bool {
    ||| (o.fuzzy_distance matches Some(k) && edit_dist(q, w) <= k)
    ||| (o.match_mode matches Some(m) && mode_matches(m, q, w))
}

/// Whether some string of `v` has the characters `wc`.
pub fn vec_has_word(v: &Vec<String>, wc: &Vec<char>) -> (r: bool)
    ensures
        r == seq_has_word(v@, wc@),
{
    let n = v.len();
    let mut i: usize = 0;
    while i < n
        invariant
            n == v@.len(),
            i <= n,
            forall|k: int| 0 <= k < i ==> (#[trigger] v@[k])@ != wc@,
        decreases n - i,
    {
        let ec = chars_of(v[i].as_str());
        if eq_chars(&ec, wc) {
            return true;
        }
        i = i + 1;
    }
    false
}

/// Appends to `acc` the strings of `extra` whose characters are not yet
/// present, keeping the accumulated list free of repeats.
fn merge_unique(acc: &mut Vec<String>, extra: &Vec<String>)
    requires
        distinct_words(old(acc)@),
    ensures
        distinct_words(final(acc)@),
        forall|w: Seq<char>|
            #[trigger] seq_has_word(final(acc)@, w) <==> (seq_has_word(old(acc)@, w)
                || seq_has_word(extra@, w)),
{
    let n = extra.len();
    let mut i: usize = 0;
    proof {
        assert(extra@.take(0) =~= Seq::<String>::empty());
    }
    while i < n
        invariant
            n == extra@.len(),
            i <= n,
            distinct_words(acc@),
            forall|w: Seq<char>|
                #[trigger] seq_has_word(acc@, w) <==> (seq_has_word(old(acc)@, w) || seq_has_word(
                    extra@.take(i as int),
                    w,
                )),
        decreases n - i,
    {
        let ghost acc_pre = acc@;
        let wc = chars_of(extra[i].as_str());
        if !vec_has_word(acc, &wc) {
            acc.push(extra[i].clone());
            proof {
                assert(forall|k: int| 0 <= k < acc_pre.len() ==> #[trigger] acc@[k] == acc_pre[k]);
            }
        }
        proof {
            assert(extra@.take(i + 1) =~= extra@.take(i as int).push(extra@[i as int]));
            assert forall|w: Seq<char>| #[trigger] seq_has_word(acc@, w) implies (seq_has_word(
                old(acc)@,
                w,
            ) || seq_has_word(extra@.take(i + 1), w)) by {
                lemma_seq_has_push(acc_pre, extra@[i as int], w);
                lemma_seq_has_push(extra@.take(i as int), extra@[i as int], w);
            }
            assert forall|w: Seq<char>|
                seq_has_word(old(acc)@, w) || seq_has_word(extra@.take(i + 1), w) implies
                #[trigger] seq_has_word(acc@, w) by {
                lemma_seq_has_push(acc_pre, extra@[i as int], w);
                lemma_seq_has_push(extra@.take(i as int), extra@[i as int], w);
            }
        }
        i = i + 1;
    }
    proof {
        assert(extra@.take(n as int) =~= extra@);
    }
}

/// Runs the retrievals selected by `options` and merges their answers,
/// without repeats: exactly the stored words that answer either pass.
pub fn find_words(index: &FuzzyIndex, query: &str, options: &SearchOptions) -> (r: Vec<String>)
    requires
        index.wf(),
    ensures
        distinct_words(r@),
        forall|w: Seq<char>|
            #[trigger] seq_has_word(r@, w) <==> (index.words().contains(w) && options_match(
                *options,
                query@,
                w,
            )),
{
    let mut merged: Vec<String> = Vec::new();
    match options.fuzzy_distance {
        Some(k) => {
            let like = index.search_fuzzy(query, k);
            merge_unique(&mut merged, &like);
        },
        None => {},
    }
    match options.match_mode {
        Some(m) => {
            let matched = index.search_match(query, m);
            merge_unique(&mut merged, &matched);
        },
        None => {},
    }
    merged
}

/// The default combined lookup used while a proposal is enriched: words
/// within a quarter of the query's length in edit distance, together
/// with words containing the query as a substring.
pub fn default_find(index: &FuzzyIndex, query: &str) -> (r: Vec<String>)
    requires
        index.wf(),
    ensures
        distinct_words(r@),
        forall|w: Seq<char>|
            #[trigger] seq_has_word(r@, w) <==> (index.words().contains(w) && (edit_dist(query@, w)
                <= query@.len() / 4 || is_substring(query@, w))),
{
    let qlen = query.unicode_len();
    let options = SearchOptions {
        fuzzy_distance: Some(qlen / 4),
        match_mode: Some(MatchMode::Substring),
    };
    find_words(index, query, &options)
}

} // verus!
