//! Rendering of the game's status and reply texts.  Every message is
//! specified as the exact character sequence it must carry.

use vstd::prelude::*;

use crate::fuzzy_index::seq_has_word;

verus! {

/// The character of one decimal digit.
pub open spec fn digit_char(d: nat) -> char {
    if d == 0 {
        '0'
    } else if d == 1 {
        '1'
    } else if d == 2 {
        '2'
    } else if d == 3 {
        '3'
    } else if d == 4 {
        '4'
    } else if d == 5 {
        '5'
    } else if d == 6 {
        '6'
    } else if d == 7 {
        '7'
    } else if d == 8 {
        '8'
    } else {
        '9'
    }
}

/// The decimal digits of a number, most significant first.
pub open spec fn dec_digits(n: nat) -> Seq<char>
    decreases n,
{
    if n < 10 {
        seq![digit_char(n)]
    } else {
        dec_digits(n / 10).push(digit_char(n % 10))
    }
}

/// Renders a number in decimal.
pub fn number_string(x: u128) -> (r: String)
    ensures
        r@ == dec_digits(x as nat),
{
    let mut digits: Vec<char> = Vec::new();
    let mut v: u128 = x;
    proof {
        assert(digits@.reverse() =~= Seq::<char>::empty());
        assert(dec_digits(x as nat) + digits@.reverse() =~= dec_digits(x as nat));
    }
    loop
        invariant_except_break
            v > 0 ==> dec_digits(x as nat) == dec_digits(v as nat) + digits@.reverse(),
            v == 0 ==> digits@.len() == 0 && x == 0,
        ensures
            dec_digits(x as nat) == digits@.reverse(),
        decreases v,
    {
        let d = v % 10;
        let dc: char = match d {
            0 => '0',
            1 => '1',
            2 => '2',
            3 => '3',
            4 => '4',
            5 => '5',
            6 => '6',
            7 => '7',
            8 => '8',
            _ => '9',
        };
        let ghost dpre = digits@;
        let ghost vpre = v;
        digits.push(dc);
        proof {
            assert(dc == digit_char((v % 10) as nat));
            assert(digits@.reverse() =~= seq![dc] + dpre.reverse());
        }
        v = v / 10;
        proof {
            if vpre > 0 {
                if vpre >= 10 {
                    assert(dec_digits(vpre as nat) == dec_digits((vpre / 10) as nat).push(
                        digit_char((vpre % 10) as nat),
                    ));
                    assert(dec_digits((vpre / 10) as nat) + digits@.reverse() =~= (dec_digits(
                        (vpre / 10) as nat,
                    ).push(dc)) + dpre.reverse());
                } else {
                    assert(dec_digits(vpre as nat) =~= seq![dc]);
                    assert(dec_digits(vpre as nat) + dpre.reverse() =~= digits@.reverse());
                }
            } else {
                // only reached when the whole number is zero
                assert(dpre.len() == 0);
                assert(dec_digits(0) =~= seq!['0']);
                assert(digits@.reverse() =~= seq!['0']);
            }
        }
        if v == 0 {
            break ;
        }
    }
    let n = digits.len();
    let mut s = String::new();
    let mut i: usize = 0;
    while i < n
        invariant
            n == digits@.len(),
            i <= n,
            s@ == digits@.reverse().take(i as int),
        decreases n - i,
    {
        s.push(digits[n - 1 - i]);
        proof {
            assert(digits@.reverse()[i as int] == digits@[n - 1 - i]);
            assert(s@ =~= digits@.reverse().take(i + 1));
        }
        i = i + 1;
    }
    proof {
        assert(digits@.reverse().take(n as int) =~= digits@.reverse());
    }
    s
}

/// The chat markup that addresses one participant.
pub open spec fn mention_seq(id: u64) -> Seq<char> {
    "<@"@ + dec_digits(id as nat) + ">"@
}

/// Renders the markup that addresses one participant.
pub fn mention_string(id: u64) -> (r: String)
    ensures
        r@ == mention_seq(id),
{
    let mut s = String::from_str("<@");
    let digits = number_string(id as u128);
    s.append(digits.as_str());
    s.append(">");
    s
}

/// Participant mentions joined by a separator.
pub open spec fn joined_mentions(ids: Seq<u64>, sep: Seq<char>) -> Seq<char>
    decreases ids.len(),
{
    if ids.len() == 0 {
        Seq::empty()
    } else if ids.len() == 1 {
        mention_seq(ids[0])
    } else {
        mention_seq(ids[0]) + sep + joined_mentions(ids.drop_first(), sep)
    }
}

/// Renders participant mentions joined by a separator.
pub fn mentions_joined(ids: &Vec<u64>, sep: &str) -> (r: String)
    ensures
        r@ == joined_mentions(ids@, sep@),
{
    let mut s = String::new();
    let n = ids.len();
    let mut i: usize = 0;
    proof {
        assert(ids@.skip(0) =~= ids@);
        assert(Seq::<char>::empty() + joined_mentions(ids@, sep@) =~= joined_mentions(
            ids@,
            sep@,
        ));
    }
    while i < n
        invariant
            n == ids@.len(),
            i <= n,
            joined_mentions(ids@, sep@) == s@ + joined_mentions(ids@.skip(i as int), sep@),
        decreases n - i,
    {
        let ghost spre = s@;
        let m = mention_string(ids[i]);
        s.append(m.as_str());
        if i + 1 < n {
            s.append(sep);
        }
        proof {
            let t = ids@.skip(i as int);
            assert(t[0] == ids@[i as int]);
            assert(t.drop_first() =~= ids@.skip(i + 1));
            if t.len() == 1 {
                assert(joined_mentions(t, sep@) == mention_seq(ids@[i as int]));
                assert(s@ + joined_mentions(ids@.skip(i + 1), sep@) =~= spre + joined_mentions(
                    t,
                    sep@,
                ));
            } else {
                assert(joined_mentions(t, sep@) == mention_seq(t[0]) + sep@ + joined_mentions(
                    t.drop_first(),
                    sep@,
                ));
                assert(s@ + joined_mentions(ids@.skip(i + 1), sep@) =~= spre + joined_mentions(
                    t,
                    sep@,
                ));
            }
        }
        i = i + 1;
    }
    proof {
        assert(joined_mentions(ids@.skip(n as int), sep@) =~= Seq::<char>::empty());
        assert(joined_mentions(ids@, sep@) =~= s@);
    }
    s
}

/// Words joined by a separator, in order.
pub open spec fn joined_words(ss: Seq<String>, sep: Seq<char>) -> Seq<char>
    decreases ss.len(),
{
    if ss.len() == 0 {
        Seq::empty()
    } else if ss.len() == 1 {
        ss[0]@
    } else {
        ss[0]@ + sep + joined_words(ss.drop_first(), sep)
    }
}

/// Renders words joined by a separator.
pub fn words_joined(ss: &Vec<String>, sep: &str) -> (r: String)
    ensures
        r@ == joined_words(ss@, sep@),
{
    let mut s = String::new();
    let n = ss.len();
    let mut i: usize = 0;
    proof {
        assert(ss@.skip(0) =~= ss@);
        assert(Seq::<char>::empty() + joined_words(ss@, sep@) =~= joined_words(ss@, sep@));
    }
    while i < n
        invariant
            n == ss@.len(),
            i <= n,
            joined_words(ss@, sep@) == s@ + joined_words(ss@.skip(i as int), sep@),
        decreases n - i,
    {
        let ghost spre = s@;
        s.append(ss[i].as_str());
        if i + 1 < n {
            s.append(sep);
        }
        proof {
            let t = ss@.skip(i as int);
            assert(t[0] == ss@[i as int]);
            assert(t.drop_first() =~= ss@.skip(i + 1));
            if t.len() == 1 {
                assert(joined_words(t, sep@) == ss@[i as int]@);
                assert(s@ + joined_words(ss@.skip(i + 1), sep@) =~= spre + joined_words(t, sep@));
            } else {
                assert(joined_words(t, sep@) == t[0]@ + sep@ + joined_words(t.drop_first(), sep@));
                assert(s@ + joined_words(ss@.skip(i + 1), sep@) =~= spre + joined_words(t, sep@));
            }
        }
        i = i + 1;
    }
    proof {
        assert(joined_words(ss@.skip(n as int), sep@) =~= Seq::<char>::empty());
        assert(joined_words(ss@, sep@) =~= s@);
    }
    s
}

/// Each word followed by a line break.
pub open spec fn words_lines(ss: Seq<String>) -> Seq<char>
    decreases ss.len(),
{
    if ss.len() == 0 {
        Seq::empty()
    } else {
        ss[0]@ + "\n"@ + words_lines(ss.drop_first())
    }
}

/// Renders each word on its own line.
pub fn words_lines_string(ss: &Vec<String>) -> (r: String)
    ensures
        r@ == words_lines(ss@),
{
    let mut s = String::new();
    let n = ss.len();
    let mut i: usize = 0;
    proof {
        assert(ss@.skip(0) =~= ss@);
        assert(Seq::<char>::empty() + words_lines(ss@) =~= words_lines(ss@));
    }
    while i < n
        invariant
            n == ss@.len(),
            i <= n,
            words_lines(ss@) == s@ + words_lines(ss@.skip(i as int)),
        decreases n - i,
    {
        let ghost spre = s@;
        s.append(ss[i].as_str());
        s.append("\n");
        proof {
            let t = ss@.skip(i as int);
            assert(t[0] == ss@[i as int]);
            assert(t.drop_first() =~= ss@.skip(i + 1));
            assert(words_lines(t) == t[0]@ + "\n"@ + words_lines(t.drop_first()));
            assert(s@ + words_lines(ss@.skip(i + 1)) =~= spre + words_lines(t));
        }
        i = i + 1;
    }
    proof {
        assert(words_lines(ss@.skip(n as int)) =~= Seq::<char>::empty());
        assert(words_lines(ss@) =~= s@);
    }
    s
}

/// Whether a list of participants holds one.
pub fn vec_has_u64(v: &Vec<u64>, x: u64) -> (r: bool)
    ensures
        r == v@.contains(x),
{
    let n = v.len();
    let mut i: usize = 0;
    while i < n
        invariant
            n == v@.len(),
            i <= n,
            forall|k: int| 0 <= k < i ==> v@[k] != x,
        decreases n - i,
    {
        if v[i] == x {
            return true;
        }
        i = i + 1;
    }
    false
}

/// The participants of `all` who cast no ballot on either side.
pub open spec fn unvoted(all: Seq<u64>, good: Seq<u64>, bad: Seq<u64>) -> Seq<u64> {
    all.filter(|u: u64| !good.contains(u) && !bad.contains(u))
}

/// Collects the participants who cast no ballot on either side.
pub fn unvoted_of(all: &Vec<u64>, good: &Vec<u64>, bad: &Vec<u64>) -> (r: Vec<u64>)
    ensures
        r@ == unvoted(all@, good@, bad@),
{
    let mut r: Vec<u64> = Vec::new();
    let n = all.len();
    let mut i: usize = 0;
    proof {
        reveal(Seq::filter);
        assert(all@.take(0) =~= Seq::<u64>::empty());
        assert(r@ =~= unvoted(all@.take(0), good@, bad@));
    }
    while i < n
        invariant
            n == all@.len(),
            i <= n,
            r@ == unvoted(all@.take(i as int), good@, bad@),
        decreases n - i,
    {
        let u = all[i];
        let in_good = vec_has_u64(good, u);
        let in_bad = vec_has_u64(bad, u);
        if !in_good && !in_bad {
            r.push(u);
        }
        proof {
            reveal(Seq::filter);
            assert(all@.take(i + 1) =~= all@.take(i as int).push(u));
            assert(all@.take(i + 1).drop_last() =~= all@.take(i as int));
            assert(all@.take(i + 1).last() == u);
        }
        i = i + 1;
    }
    proof {
        assert(all@.take(n as int) =~= all@);
    }
    r
}

/// The render snapshot of a proposal in progress: the proposer, the
/// proposed word, the meaning and similar words found so far, and the
/// ballots.  `build` turns it into the status text shown to the room.
#[derive(Debug)]
pub struct TryMessageBuilder {
    pub user: Option<u64>,
    pub word: Option<String>,
    pub mean: Option<String>,
    pub all_users: Vec<u64>,
    pub vote_good: Vec<u64>,
    pub vote_bad: Vec<u64>,
    pub like_words: Option<Vec<String>>,
}

/// The fixed reply when the proposed word was already answered.
pub open spec fn already_answered_seq(user: Option<u64>, w: Seq<char>) -> Seq<char> {
    match user {
        Some(u) => w + " はすでに回答されています。\n"@ + mention_seq(u)
            + " は、別の回答を提出してください。"@,
        None => w + " はすでに回答されています。"@,
    }
}

/// The proposal line of the status text.
pub open spec fn proposal_seq(b: TryMessageBuilder) -> Seq<char> {
    if b.user is Some && b.word is Some {
        mention_seq(b.user->0) + " が "@ + b.word->0@ + " を回答しました。\n"@
    } else {
        Seq::empty()
    }
}

/// The meaning section of the status text.
pub open spec fn meaning_seq(b: TryMessageBuilder) -> Seq<char> {
    match b.word {
        Some(w) => match b.mean {
            Some(m) => w@ + " の意味は以下の通りです\n```\n"@ + m@ + "\n```\n"@,
            None => w@ + " の意味を検索中...\n"@,
        },
        None => Seq::empty(),
    }
}

/// The similar-words section of the status text.
pub open spec fn similar_seq(b: TryMessageBuilder) -> Seq<char> {
    match b.like_words {
        Some(lw) => if lw@.len() > 0 {
            "類似する単語は以下の通りです:\n```\n"@ + words_lines(lw@) + "```\n"@
        } else {
            match b.word {
                Some(w) => w@ + " に類似する単語は回答されていません。\n"@,
                None => Seq::empty(),
            }
        },
        None => match b.word {
            Some(w) => w@ + " に類似する単語を検索中...\n"@,
            None => Seq::empty(),
        },
    }
}

/// The ballot section of the status text.  The not-yet-voted count is
/// the length of the rendered not-yet-voted list, so the text stays
/// consistent with itself even when a ballot arrives from outside the
/// turn queue.
pub open spec fn ballots_seq(b: TryMessageBuilder) -> Seq<char> {
    let nv = unvoted(b.all_users@, b.vote_good@, b.vote_bad@);
    ":timer: 投票状況 ("@ + dec_digits((b.vote_good@.len() + b.vote_bad@.len()) as nat)
        + " / "@ + dec_digits(b.all_users@.len() as nat) + "人 投票済み)\n\n"@
        + ":thumbsup: Good("@ + dec_digits(b.vote_good@.len() as nat) + "): "@
        + joined_mentions(b.vote_good@, ", "@) + "\n"@ + ":thumbsdown: Bad("@ + dec_digits(
        b.vote_bad@.len() as nat,
    ) + "): "@ + joined_mentions(b.vote_bad@, ", "@) + "\n"@ + ":crab: 未投票("@ + dec_digits(
        nv.len() as nat,
    ) + "): "@ + joined_mentions(nv, ", "@) + "\n"@
}

/// The whole status text of a proposal.
pub open spec fn build_seq(b: TryMessageBuilder) -> Seq<char> {
    if b.word is Some && b.like_words is Some && seq_has_word(b.like_words->0@, b.word->0@) {
        already_answered_seq(b.user, b.word->0@)
    } else {
        proposal_seq(b) + meaning_seq(b) + similar_seq(b) + ballots_seq(b)
    }
}

impl TryMessageBuilder {
    /// An empty snapshot.
    pub fn new() -> (r: TryMessageBuilder)
        ensures
            r.user is None,
            r.word is None,
            r.mean is None,
            r.all_users@ == Seq::<u64>::empty(),
            r.vote_good@ == Seq::<u64>::empty(),
            r.vote_bad@ == Seq::<u64>::empty(),
            r.like_words is None,
    {
        TryMessageBuilder {
            user: None,
            word: None,
            mean: None,
            all_users: Vec::new(),
            vote_good: Vec::new(),
            vote_bad: Vec::new(),
            like_words: None,
        }
    }

    /// The snapshot of a fresh proposal: proposer, word and the
    /// eligible voters, with nothing looked up and no ballots yet.
    pub fn init(user_id: u64, word: String, users: Vec<u64>) -> (r: TryMessageBuilder)
        ensures
            r.user == Some(user_id),
            r.word matches Some(w) && w@ == word@,
            r.mean is None,
            r.all_users@ == users@,
            r.vote_good@ == Seq::<u64>::empty(),
            r.vote_bad@ == Seq::<u64>::empty(),
            r.like_words is None,
    {
        TryMessageBuilder {
            user: Some(user_id),
            word: Some(word),
            mean: None,
            all_users: users,
            vote_good: Vec::new(),
            vote_bad: Vec::new(),
            like_words: None,
        }
    }

    /// Renders the status text for this snapshot.
    #[verifier::rlimit(100)]
    pub fn build(&self) -> (r: String)
        ensures
            r@ == build_seq(*self),
    {
        let already: bool = match (&self.word, &self.like_words) {
            (Some(w), Some(lw)) => {
                let wc = crate::distance::chars_of(w.as_str());
                crate::fuzzy_index::vec_has_word(lw, &wc)
            },
            _ => false,
        };
        if already {
            let w = match &self.word {
                Some(w) => w,
                None => unreached(),
            };
            let mut s = String::from_str(w.as_str());
            match self.user {
                Some(u) => {
                    s.append(" はすでに回答されています。\n");
                    let m = mention_string(u);
                    s.append(m.as_str());
                    s.append(" は、別の回答を提出してください。");
                },
                None => {
                    s.append(" はすでに回答されています。");
                },
            }
            proof {
                assert(s@ =~= build_seq(*self));
            }
            return s;
        }
        let mut s = String::new();
        // the proposal line
        match (self.user, &self.word) {
            (Some(u), Some(w)) => {
                let m = mention_string(u);
                s.append(m.as_str());
                s.append(" が ");
                s.append(w.as_str());
                s.append(" を回答しました。\n");
            },
            _ => {},
        }
        proof {
            assert(s@ =~= proposal_seq(*self));
        }
        // the meaning section
        match &self.word {
            Some(w) => match &self.mean {
                Some(m) => {
                    s.append(w.as_str());
                    s.append(" の意味は以下の通りです\n```\n");
                    s.append(m.as_str());
                    s.append("\n```\n");
                },
                None => {
                    s.append(w.as_str());
                    s.append(" の意味を検索中...\n");
                },
            },
            None => {},
        }
        proof {
            assert(s@ =~= proposal_seq(*self) + meaning_seq(*self));
        }
        // the similar-words section
        match &self.like_words {
            Some(lw) => {
                if lw.len() > 0 {
                    s.append("類似する単語は以下の通りです:\n```\n");
                    let lines = words_lines_string(lw);
                    s.append(lines.as_str());
                    s.append("```\n");
                } else {
                    match &self.word {
                        Some(w) => {
                            s.append(w.as_str());
                            s.append(" に類似する単語は回答されていません。\n");
                        },
                        None => {},
                    }
                }
            },
            None => {
                match &self.word {
                    Some(w) => {
                        s.append(w.as_str());
                        s.append(" に類似する単語を検索中...\n");
                    },
                    None => {},
                }
            },
        }
        proof {
            assert(s@ =~= proposal_seq(*self) + meaning_seq(*self) + similar_seq(*self));
        }
        // the ballot section
        let ballots = ballots_string(self);
        s.append(ballots.as_str());
        proof {
            assert(s@ =~= build_seq(*self));
        }
        s
    }
}

/// Renders the ballot section of the status text.
#[verifier::rlimit(100)]
fn ballots_string(b: &TryMessageBuilder) -> (r: String)
    ensures
        r@ == ballots_seq(*b),
{
    let voted: u128 = b.vote_good.len() as u128 + b.vote_bad.len() as u128;
    let nv = unvoted_of(&b.all_users, &b.vote_good, &b.vote_bad);
    let mut s = String::from_str(":timer: 投票状況 (");
    let t = number_string(voted);
    s.append(t.as_str());
    s.append(" / ");
    let t = number_string(b.all_users.len() as u128);
    s.append(t.as_str());
    s.append("人 投票済み)\n\n");
    s.append(":thumbsup: Good(");
    let t = number_string(b.vote_good.len() as u128);
    s.append(t.as_str());
    s.append("): ");
    let t = mentions_joined(&b.vote_good, ", ");
    s.append(t.as_str());
    s.append("\n");
    s.append(":thumbsdown: Bad(");
    let t = number_string(b.vote_bad.len() as u128);
    s.append(t.as_str());
    s.append("): ");
    let t = mentions_joined(&b.vote_bad, ", ");
    s.append(t.as_str());
    s.append("\n");
    s.append(":crab: 未投票(");
    let t = number_string(nv.len() as u128);
    s.append(t.as_str());
    s.append("): ");
    let t = mentions_joined(&nv, ", ");
    s.append(t.as_str());
    s.append("\n");
    proof {
        assert(s@ =~= ballots_seq(*b));
    }
    s
}

/// The reply to registering the room's channel.
pub open spec fn register_seq(is_registered: bool) -> Seq<char> {
    if is_registered {
        "このチャンネルはすでに追加されています。"@
    } else {
        "このチャンネルをしりとりチャンネルとして追加しました。"@
    }
}

/// Renders the reply to registering the room's channel.
pub fn generate_register_message(is_registered: bool) -> (r: String)
    ensures
        r@ == register_seq(is_registered),
{
    if is_registered {
        String::from_str("このチャンネルはすでに追加されています。")
    } else {
        String::from_str("このチャンネルをしりとりチャンネルとして追加しました。")
    }
}

/// The reply to setting the turn queue: the new order when one was
/// given, otherwise the current order, or a note that none is set.
pub open spec fn set_queue_seq(users: Seq<u64>, current: Seq<u64>) -> Seq<char> {
    if users.len() == 0 {
        if current.len() == 0 {
            "順番が設定されていません"@
        } else {
            "現在の順番: "@ + joined_mentions(current, " -> "@) + "\n次は "@ + mention_seq(
                current[0],
            ) + " の番です。"@
        }
    } else {
        joined_mentions(users, " -> "@) + " の順番に設定しました。\n次は "@ + mention_seq(
            users[0],
        ) + " の番です。"@
    }
}

/// Renders the reply to setting the turn queue.
pub fn generate_set_queue_message(users: &Vec<u64>, current_users: &Vec<u64>) -> (r: String)
    ensures
        r@ == set_queue_seq(users@, current_users@),
{
    if users.len() == 0 {
        if current_users.len() == 0 {
            return String::from_str("順番が設定されていません");
        }
        let mut s = String::from_str("現在の順番: ");
        let t = mentions_joined(current_users, " -> ");
        s.append(t.as_str());
        s.append("\n次は ");
        let t = mention_string(current_users[0]);
        s.append(t.as_str());
        s.append(" の番です。");
        proof {
            assert(s@ =~= set_queue_seq(users@, current_users@));
        }
        return s;
    }
    let mut s = mentions_joined(users, " -> ");
    s.append(" の順番に設定しました。\n次は ");
    let t = mention_string(users[0]);
    s.append(t.as_str());
    s.append(" の番です。");
    proof {
        assert(s@ =~= set_queue_seq(users@, current_users@));
    }
    s
}

/// The reply to adding one participant to the turn queue.
pub open spec fn add_queue_seq(users: Seq<u64>, added: u64) -> Seq<char> {
    mention_seq(added) + " をゲームに追加しました。\n現在の順番は "@ + joined_mentions(
        users.push(added),
        ", "@,
    ) + " です。\n次は "@ + mention_seq(users.push(added)[0]) + " です。"@
}

/// Renders the reply to adding one participant to the turn queue.
pub fn generate_add_queue_message(users: &Vec<u64>, add: u64) -> (r: String)
    ensures
        r@ == add_queue_seq(users@, add),
{
    let mut new_queue = users.clone();
    new_queue.push(add);
    let mut s = mention_string(add);
    s.append(" をゲームに追加しました。\n現在の順番は ");
    let t = mentions_joined(&new_queue, ", ");
    s.append(t.as_str());
    s.append(" です。\n次は ");
    let t = mention_string(new_queue[0]);
    s.append(t.as_str());
    s.append(" です。");
    proof {
        assert(s@ =~= add_queue_seq(users@, add));
    }
    s
}

/// The reply to a lookup: the similar words found, or that none was.
pub open spec fn find_seq(word: Seq<char>, words: Seq<String>) -> Seq<char> {
    if words.len() == 0 {
        "「"@ + word + "」に類似する単語は見つかりませんでした。"@
    } else {
        "「"@ + word + "」に類似する単語を見つけました:\n"@ + joined_words(words, "\n"@)
    }
}

/// Renders the reply to a lookup.
pub fn generate_find_message(word: &str, words: &Vec<String>) -> (r: String)
    ensures
        r@ == find_seq(word@, words@),
{
    let mut s = String::from_str("「");
    s.append(word);
    if words.len() == 0 {
        s.append("」に類似する単語は見つかりませんでした。");
    } else {
        s.append("」に類似する単語を見つけました:\n");
        let t = words_joined(words, "\n");
        s.append(t.as_str());
    }
    proof {
        assert(s@ =~= find_seq(word@, words@));
    }
    s
}

/// The reply to a batch of added words: the words actually added, or
/// that none was.
pub open spec fn added_words_seq(words: Seq<String>) -> Seq<char> {
    if words.len() == 0 {
        "追加された単語はありません。"@
    } else {
        "以下の単語を追加しました。```\n"@ + words_lines(words) + "```"@
    }
}

/// Renders the reply to a batch of added words.
pub fn generate_added_words_message(words: &Vec<String>) -> (r: String)
    ensures
        r@ == added_words_seq(words@),
{
    if words.len() == 0 {
        return String::from_str("追加された単語はありません。");
    }
    let mut s = String::from_str("以下の単語を追加しました。```\n");
    let t = words_lines_string(words);
    s.append(t.as_str());
    s.append("```");
    proof {
        assert(s@ =~= added_words_seq(words@));
    }
    s
}

/// The announcement that a word was accepted, naming the next turn.
pub open spec fn accept_seq(good: nat, bad: nat, word: Seq<char>, queue: Seq<u64>) -> Seq<char> {
    "投票終了！結果: YES("@ + dec_digits(good) + ") / NO("@ + dec_digits(bad) + ")\n\""@
        + word + "\"は可決されました。"@ + if queue.len() > 0 {
        "\n次は"@ + mention_seq(queue[0]) + " の番です。"@
    } else {
        Seq::<char>::empty()
    }
}

/// Renders the announcement that a word was accepted.  `queue` is the
/// turn order after the rotation.
pub fn generate_accept_message(good: usize, bad: usize, word: &str, queue: &Vec<u64>) -> (r: String)
    ensures
        r@ == accept_seq(good as nat, bad as nat, word@, queue@),
{
    let mut s = String::from_str("投票終了！結果: YES(");
    let t = number_string(good as u128);
    s.append(t.as_str());
    s.append(") / NO(");
    let t = number_string(bad as u128);
    s.append(t.as_str());
    s.append(")\n\"");
    s.append(word);
    s.append("\"は可決されました。");
    if queue.len() > 0 {
        s.append("\n次は");
        let t = mention_string(queue[0]);
        s.append(t.as_str());
        s.append(" の番です。");
    }
    proof {
        assert(s@ =~= accept_seq(good as nat, bad as nat, word@, queue@));
    }
    s
}

/// The announcement that a word was rejected, asking for another.
pub open spec fn reject_seq(good: nat, bad: nat, word: Seq<char>, queue: Seq<u64>) -> Seq<char> {
    "投票終了！結果: NO("@ + dec_digits(bad) + ") / YES("@ + dec_digits(good) + ")\n\""@
        + word + "\"は否決されました。"@ + if queue.len() > 0 {
        "\n"@ + mention_seq(queue[0]) + " は、別の回答をしてください。"@
    } else {
        Seq::<char>::empty()
    }
}

/// Renders the announcement that a word was rejected.  `queue` is the
/// unchanged turn order.
pub fn generate_reject_message(good: usize, bad: usize, word: &str, queue: &Vec<u64>) -> (r: String)
    ensures
        r@ == reject_seq(good as nat, bad as nat, word@, queue@),
{
    let mut s = String::from_str("投票終了！結果: NO(");
    let t = number_string(bad as u128);
    s.append(t.as_str());
    s.append(") / YES(");
    let t = number_string(good as u128);
    s.append(t.as_str());
    s.append(")\n\"");
    s.append(word);
    s.append("\"は否決されました。");
    if queue.len() > 0 {
        s.append("\n");
        let t = mention_string(queue[0]);
        s.append(t.as_str());
        s.append(" は、別の回答をしてください。");
    }
    proof {
        assert(s@ =~= reject_seq(good as nat, bad as nat, word@, queue@));
    }
    s
}

/// The instruction text sent to the external definition lookup, ending
/// with the word to define.
pub open spec fn prompt_seq(word: Seq<char>) -> Seq<char> {
    "以下の形式で、英単語の意味を日本語で教えてください。\n\n1. まず「意味」を簡潔にまとめる\n2. 品詞ごとに分けて書くが、存在しない品詞は絶対に書かない\n3. 名詞の場合は複数形も示し、例文を1つ添える\n4. 動詞・形容詞・副詞の場合も存在する場合のみ書く\n5. もし単語の先頭が大文字の場合は、固有名詞として扱い、品詞に関わらずその意味と例文を必ず書き、正式名称を書く\n6. Markdown形式で見やすく書く\n\n形式は次の通りです：\n\n**意味**\n(例：外見・量など) 同様な、類似の、似ていて\n\n**名詞**\n[複数形で] 単語\n例文：*This is an example.*\n→ これは例です。\n\n**動詞**\n単語（意味）\n例文：*Use it in a sentence.*\n→ 文で使ってみてください。\n\n単語: "@
        + word
}

/// Renders the instruction text for the external definition lookup.
pub fn build_prompt(word: &str) -> (r: String)
    ensures
        r@ == prompt_seq(word@),
{
    let mut s = String::from_str(
        "以下の形式で、英単語の意味を日本語で教えてください。\n\n1. まず「意味」を簡潔にまとめる\n2. 品詞ごとに分けて書くが、存在しない品詞は絶対に書かない\n3. 名詞の場合は複数形も示し、例文を1つ添える\n4. 動詞・形容詞・副詞の場合も存在する場合のみ書く\n5. もし単語の先頭が大文字の場合は、固有名詞として扱い、品詞に関わらずその意味と例文を必ず書き、正式名称を書く\n6. Markdown形式で見やすく書く\n\n形式は次の通りです：\n\n**意味**\n(例：外見・量など) 同様な、類似の、似ていて\n\n**名詞**\n[複数形で] 単語\n例文：*This is an example.*\n→ これは例です。\n\n**動詞**\n単語（意味）\n例文：*Use it in a sentence.*\n→ 文で使ってみてください。\n\n単語: ",
    );
    s.append(word);
    s
}

/// The reply to skipping: who was skipped and whose turn it now is.
pub open spec fn skip_seq(queue: Seq<u64>, skipped: Option<u64>) -> Seq<char> {
    match skipped {
        None => "スキップする対象がいません。"@,
        Some(u) => if queue.len() == 0 {
            mention_seq(u) + " をスキップしました。"@
        } else {
            mention_seq(u) + " をスキップしました。\n次は "@ + mention_seq(queue[0])
                + " の番です。"@
        },
    }
}

/// Renders the reply to skipping.
pub fn generate_skip_message(queue: &Vec<u64>, skipped: Option<u64>) -> (r: String)
    ensures
        r@ == skip_seq(queue@, skipped),
{
    match skipped {
        None => String::from_str("スキップする対象がいません。"),
        Some(u) => {
            let mut s = mention_string(u);
            if queue.len() == 0 {
                s.append(" をスキップしました。");
            } else {
                s.append(" をスキップしました。\n次は ");
                let t = mention_string(queue[0]);
                s.append(t.as_str());
                s.append(" の番です。");
            }
            proof {
                assert(s@ =~= skip_seq(queue@, skipped));
            }
            s
        },
    }
}

} // verus!
