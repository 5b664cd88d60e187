//! Per-session game state: the turn queue, the lazily installed word
//! index, and the vote coordinator that decides whether a proposed word
//! is accepted, plus the registry of all sessions.
//!
//! The coordinator is one atomic transition function: a ballot is
//! recorded, the tallies are recomputed and the outcome applied in a
//! single step, so no decision is ever made on stale counts.

use vstd::prelude::*;

use crate::fuzzy_index::FuzzyIndex;
use crate::message::TryMessageBuilder;
use crate::message::build_seq;
use crate::message::accept_seq;
use crate::message::reject_seq;
use crate::message::skip_seq;
use crate::message::set_queue_seq;
use crate::message::add_queue_seq;
use crate::message::generate_accept_message;
use crate::message::generate_reject_message;
use crate::message::generate_skip_message;
use crate::message::generate_set_queue_message;
use crate::message::generate_add_queue_message;
use crate::message::vec_has_u64;

verus! {

/// A ballot list with `x` added, if absent.
pub open spec fn seq_insert(s: Seq<u64>, x: u64) -> Seq<u64> {
    if s.contains(x) {
        s
    } else {
        s.push(x)
    }
}

/// A participant list with every occurrence of `x` removed.
pub open spec fn seq_remove(s: Seq<u64>, x: u64) -> Seq<u64> {
    s.filter(|y: u64| y != x)
}

proof fn lemma_push_contains(s: Seq<u64>, a: u64, y: u64)
    ensures
        s.push(a).contains(y) <==> (s.contains(y) || a == y),
{
    if s.push(a).contains(y) {
        let k = choose|k: int| 0 <= k < s.push(a).len() && s.push(a)[k] == y;
        if k < s.len() {
            assert(s[k] == y);
        }
    }
    if s.contains(y) {
        let k = choose|k: int| 0 <= k < s.len() && s[k] == y;
        assert(s.push(a)[k] == y);
    }
    if a == y {
        assert(s.push(a)[s.len() as int] == y);
    }
}

/// Removal keeps exactly the other participants.
pub proof fn lemma_seq_remove_contains(s: Seq<u64>, x: u64, y: u64)
    ensures
        seq_remove(s, x).contains(y) <==> (s.contains(y) && y != x),
    decreases s.len(),
{
    reveal(Seq::filter);
    if s.len() > 0 {
        lemma_seq_remove_contains(s.drop_last(), x, y);
        if s.last() != x {
            lemma_push_contains(seq_remove(s.drop_last(), x), s.last(), y);
        }
        lemma_push_contains(s.drop_last(), s.last(), y);
        assert(s.drop_last().push(s.last()) =~= s);
    }
}

/// Insertion keeps the present participants and adds the new one.
pub proof fn lemma_seq_insert_contains(s: Seq<u64>, x: u64, y: u64)
    ensures
        seq_insert(s, x).contains(y) <==> (s.contains(y) || y == x),
{
    if !s.contains(x) {
        lemma_push_contains(s, x, y);
    }
}

proof fn lemma_seq_remove_no_dup(s: Seq<u64>, x: u64)
    requires
        s.no_duplicates(),
    ensures
        seq_remove(s, x).no_duplicates(),
    decreases s.len(),
{
    reveal(Seq::filter);
    if s.len() > 0 {
        assert(s.drop_last().no_duplicates());
        lemma_seq_remove_no_dup(s.drop_last(), x);
        if s.last() != x {
            let sub = seq_remove(s.drop_last(), x);
            lemma_seq_remove_contains(s.drop_last(), x, s.last());
            assert(!s.drop_last().contains(s.last())) by {
                if s.drop_last().contains(s.last()) {
                    let k = choose|k: int|
                        0 <= k < s.drop_last().len() && s.drop_last()[k] == s.last();
                    assert(s[k] == s.last());
                }
            }
            assert(!sub.contains(s.last()));
            assert(sub.push(s.last()).no_duplicates()) by {
                assert forall|k1: int, k2: int|
                    0 <= k1 < k2 < sub.push(s.last()).len() implies sub.push(s.last())[k1]
                    != sub.push(s.last())[k2] by {
                    if k2 == sub.len() {
                        assert(sub.contains(sub[k1])) by {
                            assert(sub[k1] == sub[k1]);
                        }
                    }
                }
            }
        }
    }
}

proof fn lemma_seq_insert_no_dup(s: Seq<u64>, x: u64)
    requires
        s.no_duplicates(),
    ensures
        seq_insert(s, x).no_duplicates(),
{
    if !s.contains(x) {
        assert forall|k1: int, k2: int|
            0 <= k1 < k2 < s.push(x).len() implies s.push(x)[k1] != s.push(x)[k2] by {
            if k2 == s.len() {
                assert(s.contains(s[k1])) by {
                    assert(s[k1] == s[k1]);
                }
            }
        }
    }
}

/// Collects the participants of `v` other than `x`.
fn without(v: &Vec<u64>, x: u64) -> (r: Vec<u64>)
    ensures
        r@ == seq_remove(v@, x),
{
    let mut r: Vec<u64> = Vec::new();
    let n = v.len();
    let mut i: usize = 0;
    proof {
        reveal(Seq::filter);
        assert(v@.take(0) =~= Seq::<u64>::empty());
        assert(r@ =~= seq_remove(v@.take(0), x));
    }
    while i < n
        invariant
            n == v@.len(),
            i <= n,
            r@ == seq_remove(v@.take(i as int), x),
        decreases n - i,
    {
        let y = v[i];
        if y != x {
            r.push(y);
        }
        proof {
            reveal(Seq::filter);
            assert(v@.take(i + 1) =~= v@.take(i as int).push(y));
            assert(v@.take(i + 1).drop_last() =~= v@.take(i as int));
            assert(v@.take(i + 1).last() == y);
        }
        i = i + 1;
    }
    proof {
        assert(v@.take(n as int) =~= v@);
    }
    r
}

/// Adds a participant to one side of the ballot, if absent.
fn ballot_insert(v: &mut Vec<u64>, x: u64)
    ensures
        final(v)@ == seq_insert(old(v)@, x),
{
    let present = vec_has_u64(v, x);
    if !present {
        v.push(x);
    }
}

/// Removes a participant from one side of the ballot.
fn ballot_remove(v: &mut Vec<u64>, x: u64)
    ensures
        final(v)@ == seq_remove(old(v)@, x),
{
    let r = without(v, x);
    *v = r;
}

/// The vote coordinator's state: the current proposal, the status
/// message it is shown in, the ballots cast so far, and the render
/// snapshot that the enrichment lookups fill in.
pub struct VoteState {
    pub target_user: Option<u64>,
    pub target_word: Option<String>,
    pub vote_message: Option<u64>,
    pub good_users: Vec<u64>,
    pub bad_users: Vec<u64>,
    pub message_builder: TryMessageBuilder,
}

/// Each ballot side lists a participant at most once, and no
/// participant stands on both sides.
pub open spec fn vote_wf(v: VoteState) -> bool {
    &&& v.good_users@.no_duplicates()
    &&& v.bad_users@.no_duplicates()
    &&& forall|u: u64| v.good_users@.contains(u) ==> !v.bad_users@.contains(u)
}

/// No proposal, no ballots, an empty snapshot.
pub open spec fn vote_idle(v: VoteState) -> bool {
    &&& v.target_user is None
    &&& v.target_word is None
    &&& v.vote_message is None
    &&& v.good_users@ == Seq::<u64>::empty()
    &&& v.bad_users@ == Seq::<u64>::empty()
}

impl VoteState {
    /// The idle state.
    pub fn new() -> (r: VoteState)
        ensures
            vote_wf(r),
            vote_idle(r),
    {
        VoteState {
            target_user: None,
            target_word: None,
            vote_message: None,
            good_users: Vec::new(),
            bad_users: Vec::new(),
            message_builder: TryMessageBuilder::new(),
        }
    }

    /// Whether a status message id refers to the current proposal.  An
    /// absent proposal matches only id zero, which no real message has.
    pub fn is_latest_vote(&self, message_id: u64) -> (r: bool)
        ensures
            r == match self.vote_message {
                Some(m) => m == message_id,
                None => message_id == 0,
            },
    {
        match self.vote_message {
            Some(m) => m == message_id,
            None => message_id == 0,
        }
    }
}

/// One session: its identifier, its turn queue, its vote coordinator,
/// and its word index once installed.
pub struct RoomState {
    pub room_id: u64,
    pub user_queue: Vec<u64>,
    pub vote_state: VoteState,
    pub index: Option<FuzzyIndex>,
}

impl RoomState {
    /// Whether the word index has been installed.
    pub open spec fn index_loaded(self) -> bool {
        self.index is Some
    }

    /// The words of the index, or none while it is not installed.
    pub open spec fn index_words(self) -> Set<Seq<char>> {
        match self.index {
            Some(i) => i.words(),
            None => Set::empty(),
        }
    }

    /// Validity: well-formed ballots and, once installed, a well-formed
    /// index.
    pub open spec fn wf(self) -> bool {
        &&& vote_wf(self.vote_state)
        &&& (self.index matches Some(i) ==> i.wf())
    }

    /// A fresh session with an empty queue and no proposal.
    pub fn new(room_id: u64) -> (r: RoomState)
        ensures
            r.wf(),
            r.room_id == room_id,
            r.user_queue@ == Seq::<u64>::empty(),
            vote_idle(r.vote_state),
            !r.index_loaded(),
    {
        RoomState { room_id, user_queue: Vec::new(), vote_state: VoteState::new(), index: None }
    }

    /// Installs an index, for instance one decoded from the session's
    /// backing file.
    pub fn install_index(&mut self, idx: FuzzyIndex)
        requires
            idx.wf(),
        ensures
            *final(self) == (RoomState { index: final(self).index, ..*old(self) }),
            final(self).index_loaded(),
            final(self).index_words() == idx.words(),
            old(self).wf() ==> final(self).wf(),
    {
        self.index = Some(idx);
    }

    /// Installs an empty index unless one is already installed.
    pub fn ensure_index(&mut self)
        ensures
            *final(self) == (RoomState { index: final(self).index, ..*old(self) }),
            final(self).index_loaded(),
            final(self).index_words() == if old(self).index_loaded() {
                old(self).index_words()
            } else {
                Set::<Seq<char>>::empty()
            },
            old(self).wf() ==> final(self).wf(),
    {
        if self.index.is_none() {
            self.index = Some(FuzzyIndex::new());
        }
    }

    /// The installed index, for lookups.
    pub fn index_ref(&self) -> (r: &FuzzyIndex)
        requires
            self.index_loaded(),
            self.wf(),
        ensures
            r.wf(),
            r.words() == self.index_words(),
    {
        match &self.index {
            Some(i) => i,
            None => unreached(),
        }
    }

    /// The bytes of the session's index for its backing file, or
    /// `NotLoaded` exactly when no index has been installed (saving
    /// before loading would silently persist an empty history).
    pub fn encode_words(&self) -> (r: Result<Vec<u8>, SaveError>)
        requires
            self.wf(),
        ensures
            r is Err <==> !self.index_loaded(),
            r matches Err(e) ==> e == SaveError::NotLoaded,
            r matches Ok(bytes) ==> exists|ws: Seq<Seq<char>>|
                {
                    &&& crate::codec::bounded_words(ws)
                    &&& (forall|w: Seq<char>|
                        #[trigger] ws.contains(w) <==> self.index_words().contains(w))
                    &&& bytes@ == crate::codec::enc_words(ws)
                },
    {
        match &self.index {
            None => Err(SaveError::NotLoaded),
            Some(i) => Ok(crate::codec::encode_index(i)),
        }
    }
}

/// Failure to persist a session: the index was never loaded.
#[derive(Debug, Clone, Copy, PartialEq, Eq, Structural)]
pub enum SaveError {
    NotLoaded,
}

/// The number of matching ballots that decides a vote for a queue of
/// `total` participants: more than half.
pub fn majority(total: usize) -> (r: usize)
    ensures
        r == total / 2 + 1,
{
    total / 2 + 1
}

/// The turn queue rotated so that its first `k` entries move to the
/// back.
pub open spec fn rotated(q: Seq<u64>, k: int) -> Seq<u64> {
    q.skip(k) + q.take(k)
}

/// The turn queue after one accepted word: the head moves to the back.
pub open spec fn rotated1(q: Seq<u64>) -> Seq<u64> {
    if q.len() == 0 {
        q
    } else {
        rotated(q, 1)
    }
}

/// Rotates the first `k` participants to the back of the queue.
fn rotate_queue(v: &mut Vec<u64>, k: usize)
    requires
        k <= old(v)@.len(),
    ensures
        final(v)@ == rotated(old(v)@, k as int),
{
    let n = v.len();
    let mut out: Vec<u64> = Vec::new();
    let mut i: usize = k;
    while i < n
        invariant
            n == v@.len(),
            k <= i <= n,
            v@ == old(v)@,
            out@ == v@.subrange(k as int, i as int),
        decreases n - i,
    {
        out.push(v[i]);
        proof {
            assert(out@ =~= v@.subrange(k as int, i + 1));
        }
        i = i + 1;
    }
    let mut j: usize = 0;
    while j < k
        invariant
            n == v@.len(),
            k <= n,
            j <= k,
            v@ == old(v)@,
            out@ == v@.skip(k as int) + v@.take(j as int),
        decreases k - j,
    {
        out.push(v[j]);
        proof {
            assert(out@ =~= v@.skip(k as int) + v@.take(j + 1));
        }
        j = j + 1;
    }
    *v = out;
}

/// One side of the good ballots after a participant's action.
pub open spec fn good_ballots_after(g: Seq<u64>, u: u64, good: bool, cancel: bool) -> Seq<u64> {
    if cancel {
        seq_remove(g, u)
    } else if good {
        seq_insert(g, u)
    } else {
        seq_remove(g, u)
    }
}

/// One side of the bad ballots after a participant's action.
pub open spec fn bad_ballots_after(b: Seq<u64>, u: u64, good: bool, cancel: bool) -> Seq<u64> {
    if cancel {
        seq_remove(b, u)
    } else if good {
        seq_remove(b, u)
    } else {
        seq_insert(b, u)
    }
}

/// Ballot exclusivity: a participant who casts a good ballot and then a
/// bad one ends up with exactly one ballot, on the bad side, never
/// both.
pub proof fn lemma_ballot_exclusivity(g0: Seq<u64>, b0: Seq<u64>, u: u64)
    ensures
        ({
            let g1 = good_ballots_after(g0, u, true, false);
            let b1 = bad_ballots_after(b0, u, true, false);
            let g2 = good_ballots_after(g1, u, false, false);
            let b2 = bad_ballots_after(b1, u, false, false);
            b2.contains(u) && !g2.contains(u)
        }),
{
    let g1 = good_ballots_after(g0, u, true, false);
    let b1 = bad_ballots_after(b0, u, true, false);
    lemma_seq_remove_contains(g1, u, u);
    lemma_seq_insert_contains(b1, u, u);
}

/// What a ballot led to: nothing (no live proposal, or the proposer's
/// own ballot), or a resolution or updated status to show, each with
/// the status message to edit.
pub enum VoteOutcome {
    Ignored,
    Accepted { message_id: u64, message: String },
    Rejected { message_id: u64, message: String },
    Pending { message_id: u64, message: String },
}

/// Records one ballot and resolves it in the same step.  The proposer's
/// own ballot never counts toward either tally; a ballot with no live
/// proposal is a silent no-op.  With the new tallies: a good majority
/// commits the word into the index, rotates the queue head to the back
/// and resets the coordinator; a bad majority resets the coordinator
/// and leaves queue and index untouched; otherwise the ballots are
/// copied into the render snapshot and the updated status is returned.
pub fn cast_vote(room: &mut RoomState, user_id: u64, good: bool, cancel: bool) -> (r: VoteOutcome)
    requires
        old(room).wf(),
        old(room).index_loaded(),
    ensures
        final(room).wf(),
        final(room).index_loaded(),
        final(room).room_id == old(room).room_id,
        (old(room).vote_state.vote_message is None || old(room).vote_state.target_word is None
            || old(room).vote_state.target_user == Some(user_id)) ==> (r is Ignored && *final(room)
            == *old(room)),
        (old(room).vote_state.vote_message is Some && old(room).vote_state.target_word is Some
            && old(room).vote_state.target_user != Some(user_id)) ==> ({
            let g = good_ballots_after(old(room).vote_state.good_users@, user_id, good, cancel);
            let b = bad_ballots_after(old(room).vote_state.bad_users@, user_id, good, cancel);
            let maj = old(room).user_queue@.len() / 2 + 1;
            let w = old(room).vote_state.target_word->0;
            let mid = old(room).vote_state.vote_message->0;
            &&& (g.len() >= maj ==> {
                &&& (r matches VoteOutcome::Accepted { message_id, message } && message_id == mid
                    && message@ == accept_seq(g.len(), b.len(), w@, final(room).user_queue@))
                &&& final(room).user_queue@ == rotated1(old(room).user_queue@)
                &&& vote_idle(final(room).vote_state)
                &&& final(room).index_words() == old(room).index_words().insert(w@)
            })
            &&& (g.len() < maj && b.len() >= maj ==> {
                &&& (r matches VoteOutcome::Rejected { message_id, message } && message_id == mid
                    && message@ == reject_seq(g.len(), b.len(), w@, final(room).user_queue@))
                &&& final(room).user_queue@ == old(room).user_queue@
                &&& vote_idle(final(room).vote_state)
                &&& final(room).index_words() == old(room).index_words()
            })
            &&& (g.len() < maj && b.len() < maj ==> {
                &&& (r matches VoteOutcome::Pending { message_id, message } && message_id == mid
                    && message@ == build_seq(final(room).vote_state.message_builder))
                &&& final(room).user_queue@ == old(room).user_queue@
                &&& final(room).index_words() == old(room).index_words()
                &&& final(room).vote_state.target_user == old(room).vote_state.target_user
                &&& final(room).vote_state.target_word == old(room).vote_state.target_word
                &&& final(room).vote_state.vote_message == old(room).vote_state.vote_message
                &&& final(room).vote_state.good_users@ == g
                &&& final(room).vote_state.bad_users@ == b
                &&& final(room).vote_state.message_builder == (TryMessageBuilder {
                    vote_good: final(room).vote_state.message_builder.vote_good,
                    vote_bad: final(room).vote_state.message_builder.vote_bad,
                    ..old(room).vote_state.message_builder
                })
                &&& final(room).vote_state.message_builder.vote_good@ == g
                &&& final(room).vote_state.message_builder.vote_bad@ == b
            })
        }),
{
    let mid = match room.vote_state.vote_message {
        Some(m) => m,
        None => {
            return VoteOutcome::Ignored;
        },
    };
    let word = match &room.vote_state.target_word {
        Some(w) => w.clone(),
        None => {
            return VoteOutcome::Ignored;
        },
    };
    match room.vote_state.target_user {
        Some(u) if u == user_id => {
            return VoteOutcome::Ignored;
        },
        _ => {},
    }
    let ghost g0 = room.vote_state.good_users@;
    let ghost b0 = room.vote_state.bad_users@;
    // record the ballot: one side gains it, the other loses it
    if cancel {
        ballot_remove(&mut room.vote_state.good_users, user_id);
        ballot_remove(&mut room.vote_state.bad_users, user_id);
    } else if good {
        ballot_insert(&mut room.vote_state.good_users, user_id);
        ballot_remove(&mut room.vote_state.bad_users, user_id);
    } else {
        ballot_remove(&mut room.vote_state.good_users, user_id);
        ballot_insert(&mut room.vote_state.bad_users, user_id);
    }
    proof {
        let g = room.vote_state.good_users@;
        let b = room.vote_state.bad_users@;
        if cancel {
            lemma_seq_remove_no_dup(g0, user_id);
            lemma_seq_remove_no_dup(b0, user_id);
        } else if good {
            lemma_seq_insert_no_dup(g0, user_id);
            lemma_seq_remove_no_dup(b0, user_id);
        } else {
            lemma_seq_remove_no_dup(g0, user_id);
            lemma_seq_insert_no_dup(b0, user_id);
        }
        assert forall|y: u64| g.contains(y) implies !b.contains(y) by {
            lemma_seq_insert_contains(g0, user_id, y);
            lemma_seq_remove_contains(g0, user_id, y);
            lemma_seq_insert_contains(b0, user_id, y);
            lemma_seq_remove_contains(b0, user_id, y);
        }
        assert(vote_wf(room.vote_state));
    }
    let good_count = room.vote_state.good_users.len();
    let bad_count = room.vote_state.bad_users.len();
    let maj = majority(room.user_queue.len());
    if good_count >= maj {
        let k: usize = if room.user_queue.len() > 0 {
            1
        } else {
            0
        };
        rotate_queue(&mut room.user_queue, k);
        proof {
            if k == 0 {
                assert(rotated(old(room).user_queue@, 0) =~= old(room).user_queue@);
            }
        }
        let message = generate_accept_message(good_count, bad_count, word.as_str(),
            &room.user_queue);
        room.vote_state = VoteState::new();
        let idx_opt = room.index.take();
        let mut idx = match idx_opt {
            Some(i) => i,
            None => unreached(),
        };
        idx.add_word(word);
        room.index = Some(idx);
        VoteOutcome::Accepted { message_id: mid, message }
    } else if bad_count >= maj {
        let message = generate_reject_message(good_count, bad_count, word.as_str(),
            &room.user_queue);
        room.vote_state = VoteState::new();
        VoteOutcome::Rejected { message_id: mid, message }
    } else {
        let cg = room.vote_state.good_users.clone();
        let cb = room.vote_state.bad_users.clone();
        proof {
            assert(cg@ =~= room.vote_state.good_users@);
            assert(cb@ =~= room.vote_state.bad_users@);
        }
        room.vote_state.message_builder.vote_good = cg;
        room.vote_state.message_builder.vote_bad = cb;
        let message = room.vote_state.message_builder.build();
        VoteOutcome::Pending { message_id: mid, message }
    }
}

/// Starts a proposal: captures the proposer, the word, and the
/// eligible voters (everyone in the queue but the proposer), clears
/// all ballots, and returns the initial status text.  A proposal that
/// was still open is overwritten: the latest word always wins, and
/// ballots cast on the superseded proposal are discarded.
pub fn propose_word(room: &mut RoomState, user_id: u64, word: String) -> (r: String)
    requires
        old(room).wf(),
    ensures
        final(room).wf(),
        final(room).room_id == old(room).room_id,
        final(room).user_queue@ == old(room).user_queue@,
        final(room).index_words() == old(room).index_words(),
        final(room).index_loaded() == old(room).index_loaded(),
        final(room).vote_state.target_user == Some(user_id),
        final(room).vote_state.target_word matches Some(w) && w@ == word@,
        final(room).vote_state.vote_message is None,
        final(room).vote_state.good_users@ == Seq::<u64>::empty(),
        final(room).vote_state.bad_users@ == Seq::<u64>::empty(),
        ({
            let bld = final(room).vote_state.message_builder;
            &&& bld.user == Some(user_id)
            &&& bld.word matches Some(w) && w@ == word@
            &&& bld.mean is None
            &&& bld.all_users@ == seq_remove(old(room).user_queue@, user_id)
            &&& bld.vote_good@ == Seq::<u64>::empty()
            &&& bld.vote_bad@ == Seq::<u64>::empty()
            &&& bld.like_words is None
        }),
        r@ == build_seq(final(room).vote_state.message_builder),
{
    let voters = without(&room.user_queue, user_id);
    let builder = TryMessageBuilder::init(user_id, word.clone(), voters);
    let message = builder.build();
    room.vote_state = VoteState {
        target_user: Some(user_id),
        target_word: Some(word),
        vote_message: None,
        good_users: Vec::new(),
        bad_users: Vec::new(),
        message_builder: builder,
    };
    message
}

/// Records the id of the status message that carries the proposal.
pub fn set_vote_message(room: &mut RoomState, message_id: u64)
    requires
        old(room).wf(),
    ensures
        final(room).wf(),
        *final(room) == (RoomState {
            vote_state: VoteState {
                vote_message: Some(message_id),
                ..old(room).vote_state
            },
            ..*old(room)
        }),
{
    room.vote_state.vote_message = Some(message_id);
}

/// Stores the similar words found by the index lookup in the render
/// snapshot, and returns the re-rendered status only if the proposal
/// the lookup was started for is still the current one: an enrichment
/// of a superseded proposal updates nothing visible.
pub fn apply_similar_words(room: &mut RoomState, word: &str, words: Vec<String>) -> (r: Option<
    String,
>)
    requires
        old(room).wf(),
    ensures
        final(room).wf(),
        *final(room) == (RoomState {
            vote_state: VoteState {
                message_builder: TryMessageBuilder {
                    like_words: Some(words),
                    ..old(room).vote_state.message_builder
                },
                ..old(room).vote_state
            },
            ..*old(room)
        }),
        if old(room).vote_state.target_word matches Some(tw) && tw@ == word@ {
            r matches Some(m) && m@ == build_seq(final(room).vote_state.message_builder)
        } else {
            r is None
        },
{
    let current: bool = match &room.vote_state.target_word {
        Some(tw) => {
            let twc = crate::distance::chars_of(tw.as_str());
            let wc = crate::distance::chars_of(word);
            crate::text::eq_chars(&twc, &wc)
        },
        None => false,
    };
    room.vote_state.message_builder.like_words = Some(words);
    if current {
        Some(room.vote_state.message_builder.build())
    } else {
        None
    }
}

/// Stores the definition found by the external lookup in the render
/// snapshot, under the same staleness guard as the similar words.
pub fn apply_meaning(room: &mut RoomState, word: &str, mean: String) -> (r: Option<String>)
    requires
        old(room).wf(),
    ensures
        final(room).wf(),
        *final(room) == (RoomState {
            vote_state: VoteState {
                message_builder: TryMessageBuilder {
                    mean: Some(mean),
                    ..old(room).vote_state.message_builder
                },
                ..old(room).vote_state
            },
            ..*old(room)
        }),
        if old(room).vote_state.target_word matches Some(tw) && tw@ == word@ {
            r matches Some(m) && m@ == build_seq(final(room).vote_state.message_builder)
        } else {
            r is None
        },
{
    let current: bool = match &room.vote_state.target_word {
        Some(tw) => {
            let twc = crate::distance::chars_of(tw.as_str());
            let wc = crate::distance::chars_of(word);
            crate::text::eq_chars(&twc, &wc)
        },
        None => false,
    };
    room.vote_state.message_builder.mean = Some(mean);
    if current {
        Some(room.vote_state.message_builder.build())
    } else {
        None
    }
}

/// Skips turns: rotates the queue by `len` places (modulo its length),
/// abandons any open proposal, and reports who was skipped and whose
/// turn it now is.
pub fn skip_turn(room: &mut RoomState, len: usize) -> (r: String)
    requires
        old(room).wf(),
    ensures
        final(room).wf(),
        final(room).room_id == old(room).room_id,
        final(room).index_words() == old(room).index_words(),
        final(room).index_loaded() == old(room).index_loaded(),
        final(room).user_queue@ == if old(room).user_queue@.len() == 0 {
            old(room).user_queue@
        } else {
            rotated(old(room).user_queue@, (len as int) % (old(room).user_queue@.len() as int))
        },
        vote_idle(final(room).vote_state),
        r@ == skip_seq(
            final(room).user_queue@,
            if old(room).user_queue@.len() == 0 {
                None
            } else {
                Some(old(room).user_queue@[0])
            },
        ),
{
    let skipped: Option<u64> = if room.user_queue.len() > 0 {
        Some(room.user_queue[0])
    } else {
        None
    };
    let size = room.user_queue.len();
    if size > 0 {
        rotate_queue(&mut room.user_queue, len % size);
    }
    room.vote_state = VoteState::new();
    generate_skip_message(&room.user_queue, skipped)
}

/// Replaces the turn queue, unless the new order is empty, and reports
/// the order now in force.
pub fn set_queue(room: &mut RoomState, users: Vec<u64>) -> (r: String)
    requires
        old(room).wf(),
    ensures
        final(room).wf(),
        r@ == set_queue_seq(users@, old(room).user_queue@),
        *final(room) == (RoomState { user_queue: final(room).user_queue, ..*old(room) }),
        final(room).user_queue@ == if users@.len() == 0 {
            old(room).user_queue@
        } else {
            users@
        },
{
    let message = generate_set_queue_message(&users, &room.user_queue);
    if users.len() > 0 {
        room.user_queue = users;
    }
    message
}

/// Appends one participant to the turn queue and reports the new
/// order.
pub fn add_queue(room: &mut RoomState, user_id: u64) -> (r: String)
    requires
        old(room).wf(),
    ensures
        final(room).wf(),
        r@ == add_queue_seq(old(room).user_queue@, user_id),
        *final(room) == (RoomState { user_queue: final(room).user_queue, ..*old(room) }),
        final(room).user_queue@ == old(room).user_queue@.push(user_id),
{
    let message = generate_add_queue_message(&room.user_queue, user_id);
    room.user_queue.push(user_id);
    message
}

/// Classifies a reaction emoji as a good ballot, a bad ballot, or
/// neither.
pub fn reaction_vote_kind(emoji: &str) -> (r: Option<bool>)
    ensures
        emoji@ == "👍"@ ==> r == Some(true),
        emoji@ == "👎"@ ==> r == Some(false),
        emoji@ != "👍"@ && emoji@ != "👎"@ ==> r is None,
{
    let ec = crate::distance::chars_of(emoji);
    let up = crate::distance::chars_of("👍");
    let down = crate::distance::chars_of("👎");
    proof {
        reveal_strlit("👍");
        reveal_strlit("👎");
        assert("👍"@[0] != "👎"@[0]);
        assert("👍"@ != "👎"@);
    }
    if crate::text::eq_chars(&ec, &up) {
        Some(true)
    } else if crate::text::eq_chars(&ec, &down) {
        Some(false)
    } else {
        None
    }
}

/// The registry of all sessions, one per room id, in creation order.
pub struct RoomManager {
    rooms: Vec<RoomState>,
}

impl RoomManager {
    /// The registered sessions.
    pub closed spec fn rooms_seq(self) -> Seq<RoomState> {
        self.rooms@
    }

    /// Validity: distinct room ids, each session valid.
    pub open spec fn wf(self) -> bool {
        &&& (forall|i: int, j: int|
            0 <= i < j < self.rooms_seq().len() ==> self.rooms_seq()[i].room_id
                != self.rooms_seq()[j].room_id)
        &&& (forall|i: int|
            0 <= i < self.rooms_seq().len() ==> (#[trigger] self.rooms_seq()[i]).wf())
    }

    /// Whether a session exists for this room id.
    pub open spec fn has_room_spec(self, room_id: u64) -> bool {
        exists|i: int|
            0 <= i < self.rooms_seq().len() && (#[trigger] self.rooms_seq()[i]).room_id == room_id
    }

    /// An empty registry.
    pub fn new() -> (r: RoomManager)
        ensures
            r.wf(),
            r.rooms_seq() == Seq::<RoomState>::empty(),
    {
        RoomManager { rooms: Vec::new() }
    }

    /// Whether a session exists for this room id.
    pub fn has_room(&self, room_id: u64) -> (r: bool)
        ensures
            r == self.has_room_spec(room_id),
    {
        let n = self.rooms.len();
        let mut i: usize = 0;
        while i < n
            invariant
                n == self.rooms_seq().len(),
                i <= n,
                forall|k: int| 0 <= k < i ==> (#[trigger] self.rooms_seq()[k]).room_id != room_id,
            decreases n - i,
        {
            if self.rooms[i].room_id == room_id {
                return true;
            }
            i = i + 1;
        }
        false
    }

    /// Creates the session for this room id if it is absent; an
    /// existing session is kept untouched.
    pub fn create_room(&mut self, room_id: u64)
        requires
            old(self).wf(),
        ensures
            final(self).wf(),
            final(self).has_room_spec(room_id),
            old(self).has_room_spec(room_id) ==> *final(self) == *old(self),
            !old(self).has_room_spec(room_id) ==> {
                &&& final(self).rooms_seq().len() == old(self).rooms_seq().len() + 1
                &&& final(self).rooms_seq().take(old(self).rooms_seq().len() as int) == old(
                    self,
                ).rooms_seq()
                &&& ({
                    let room = final(self).rooms_seq().last();
                    &&& room.room_id == room_id
                    &&& room.user_queue@ == Seq::<u64>::empty()
                    &&& vote_idle(room.vote_state)
                    &&& !room.index_loaded()
                })
            },
    {
        let present = self.has_room(room_id);
        if !present {
            let ghost pre = self.rooms@;
            self.rooms.push(RoomState::new(room_id));
            proof {
                assert(self.rooms@.take(pre.len() as int) =~= pre);
                assert(self.rooms@[pre.len() as int].room_id == room_id);
            }
        }
    }

    /// The number of registered sessions.
    pub fn room_count(&self) -> (r: usize)
        ensures
            r == self.rooms_seq().len(),
    {
        self.rooms.len()
    }

    /// One registered session, by position.
    pub fn room_at(&self, i: usize) -> (r: &RoomState)
        requires
            i < self.rooms_seq().len(),
        ensures
            *r == self.rooms_seq()[i as int],
    {
        &self.rooms[i]
    }

    /// Removes and hands out the session for a room id, to be worked on
    /// and put back; `None` when the id is unknown.
    pub fn take_room(&mut self, room_id: u64) -> (r: Option<RoomState>)
        requires
            old(self).wf(),
        ensures
            final(self).wf(),
            !old(self).has_room_spec(room_id) ==> (r is None && *final(self) == *old(self)),
            old(self).has_room_spec(room_id) ==> (r matches Some(room) && room.room_id == room_id
                && room.wf() && !final(self).has_room_spec(room_id) && exists|i: int|
                {
                    &&& 0 <= i < old(self).rooms_seq().len()
                    &&& old(self).rooms_seq()[i] == room
                    &&& final(self).rooms_seq() == old(self).rooms_seq().remove(i)
                }),
    {
        let n = self.rooms.len();
        let mut i: usize = 0;
        while i < n
            invariant
                old(self).wf(),
                *self == *old(self),
                n == self.rooms_seq().len(),
                i <= n,
                forall|k: int| 0 <= k < i ==> (#[trigger] self.rooms_seq()[k]).room_id != room_id,
            decreases n - i,
        {
            if self.rooms[i].room_id == room_id {
                let ghost pre = self.rooms@;
                let room = self.rooms.remove(i);
                proof {
                    assert(room == pre[i as int]);
                    assert(self.rooms@ == pre.remove(i as int));
                    assert forall|k: int|
                        0 <= k < self.rooms@.len() implies (#[trigger] self.rooms@[k]).room_id
                        != room_id by {
                        if k < i {
                            assert(self.rooms@[k] == pre[k]);
                        } else {
                            assert(self.rooms@[k] == pre[k + 1]);
                        }
                    }
                    assert forall|k1: int, k2: int|
                        0 <= k1 < k2 < self.rooms@.len() implies self.rooms@[k1].room_id
                        != self.rooms@[k2].room_id by {
                        let p1: int = if k1 < i {
                            k1
                        } else {
                            k1 + 1
                        };
                        let p2: int = if k2 < i {
                            k2
                        } else {
                            k2 + 1
                        };
                        assert(self.rooms@[k1] == pre[p1]);
                        assert(self.rooms@[k2] == pre[p2]);
                    }
                    assert forall|k: int| 0 <= k < self.rooms@.len() implies (
                    #[trigger] self.rooms@[k]).wf() by {
                        if k < i {
                            assert(self.rooms@[k] == pre[k]);
                        } else {
                            assert(self.rooms@[k] == pre[k + 1]);
                        }
                    }
                }
                return Some(room);
            }
            i = i + 1;
        }
        None
    }

    /// Puts a session back into the registry.
    pub fn put_room(&mut self, room: RoomState)
        requires
            old(self).wf(),
            room.wf(),
            !old(self).has_room_spec(room.room_id),
        ensures
            final(self).wf(),
            final(self).rooms_seq() == old(self).rooms_seq().push(room),
            final(self).has_room_spec(room.room_id),
    {
        let ghost pre = self.rooms@;
        self.rooms.push(room);
        proof {
            assert(self.rooms@[pre.len() as int] == room);
            assert forall|k1: int, k2: int|
                0 <= k1 < k2 < self.rooms@.len() implies self.rooms@[k1].room_id
                != self.rooms@[k2].room_id by {
                if k2 == pre.len() {
                    assert(self.rooms@[k1] == pre[k1]);
                }
            }
        }
    }

    /// Drains the registry for a bulk save-and-unload: every session is
    /// handed out and none remains registered.
    pub fn take_all(&mut self) -> (r: Vec<RoomState>)
        requires
            old(self).wf(),
        ensures
            final(self).wf(),
            final(self).rooms_seq() == Seq::<RoomState>::empty(),
            r@ == old(self).rooms_seq(),
    {
        let mut out: Vec<RoomState> = Vec::new();
        core::mem::swap(&mut out, &mut self.rooms);
        out
    }
}

} // verus!
