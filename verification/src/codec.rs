//! Binary codec for the index's backing file.
//!
//! The file holds the stored words one after another; each word is its
//! character count as eight little-endian bytes followed by one
//! little-endian 32-bit code per character.  Decoding rebuilds the index
//! by inserting every word, so a decoded index is well-formed by
//! construction, and the contracts of `encode_index` and `decode_index`
//! together give the round trip: decoding what was encoded yields an
//! index with exactly the same stored words, and every search answers
//! from the stored words alone.

use vstd::prelude::*;

use crate::fuzzy_index::FuzzyIndex;
use crate::fuzzy_index::MatchMode;
use crate::fuzzy_index::seq_has_word;
use crate::text::is_prefix;

verus! {

/// Relies on `String::push`: appends the given character to the end of
/// the string.
pub assume_specification[ String::push ](s: &mut String, ch: char)
    ensures
        final(s)@ == old(s)@.push(ch),
;

/// A character's Unicode scalar value.
pub open spec fn char_code(c: char) -> u32 {
    c as u32
}

/// Relies on `char::from_u32`: returns the character with the given
/// code where one exists (the code is a Unicode scalar value), and
/// `None` otherwise.
pub assume_specification[ char::from_u32 ](v: u32) -> (r: Option<char>)
    ensures
        r matches Some(c) ==> char_code(c) == v,
        forall|c: char| char_code(c) == v ==> r == Some(c),
;

/// Decoding failure: the bytes are not an encoding of any word list.
#[derive(Debug, Clone, Copy, PartialEq, Eq, Structural)]
pub enum IndexError {
    Decode,
}

/// The eight little-endian bytes of a 64-bit count.
pub open spec fn enc_u64(x: u64) -> Seq<u8> {
    seq![
        x as u8,
        (x >> 8) as u8,
        (x >> 16) as u8,
        (x >> 24) as u8,
        (x >> 32) as u8,
        (x >> 40) as u8,
        (x >> 48) as u8,
        (x >> 56) as u8,
    ]
}

/// The four little-endian bytes of a character code.
pub open spec fn enc_u32(x: u32) -> Seq<u8> {
    seq![x as u8, (x >> 8) as u8, (x >> 16) as u8, (x >> 24) as u8]
}

/// The codes of a word's characters, four bytes each.
pub open spec fn enc_chars(w: Seq<char>) -> Seq<u8>
    decreases w.len(),
{
    if w.len() == 0 {
        Seq::empty()
    } else {
        enc_u32(w[0] as u32) + enc_chars(w.drop_first())
    }
}

/// One encoded word: character count, then the characters.
pub open spec fn enc_word(w: Seq<char>) -> Seq<u8> {
    enc_u64(w.len() as u64) + enc_chars(w)
}

/// The whole encoded word list.
pub open spec fn enc_words(ws: Seq<Seq<char>>) -> Seq<u8>
    decreases ws.len(),
{
    if ws.len() == 0 {
        Seq::empty()
    } else {
        enc_word(ws[0]) + enc_words(ws.drop_first())
    }
}

/// Word lists whose counts fit the encoding's 64-bit length fields.
pub open spec fn bounded_words(ws: Seq<Seq<char>>) -> bool {
    forall|i: int| 0 <= i < ws.len() ==> (#[trigger] ws[i]).len() < 0x1_0000_0000_0000_0000
}

proof fn lemma_enc_chars_len(w: Seq<char>)
    ensures
        enc_chars(w).len() == 4 * w.len(),
    decreases w.len(),
{
    if w.len() > 0 {
        lemma_enc_chars_len(w.drop_first());
    }
}

proof fn lemma_enc_chars_push(w: Seq<char>, c: char)
    ensures
        enc_chars(w.push(c)) == enc_chars(w) + enc_u32(c as u32),
    decreases w.len(),
{
    if w.len() == 0 {
        assert(w.push(c)[0] == c);
        assert(w.push(c).drop_first() =~= Seq::<char>::empty());
        assert(enc_chars(Seq::<char>::empty()) =~= Seq::<u8>::empty());
        assert(enc_chars(w.push(c)) == enc_u32(c as u32) + enc_chars(Seq::<char>::empty()));
        assert(enc_chars(w.push(c)) =~= enc_u32(c as u32));
        assert(enc_chars(w) + enc_u32(c as u32) =~= enc_u32(c as u32));
    } else {
        assert(w.push(c)[0] == w[0]);
        assert(w.push(c).drop_first() =~= w.drop_first().push(c));
        lemma_enc_chars_push(w.drop_first(), c);
        assert(enc_u32(w[0] as u32) + (enc_chars(w.drop_first()) + enc_u32(c as u32)) =~= (enc_u32(
            w[0] as u32,
        ) + enc_chars(w.drop_first())) + enc_u32(c as u32));
    }
}

proof fn lemma_enc_words_push(ws: Seq<Seq<char>>, w: Seq<char>)
    ensures
        enc_words(ws.push(w)) == enc_words(ws) + enc_word(w),
    decreases ws.len(),
{
    if ws.len() == 0 {
        assert(ws.push(w)[0] == w);
        assert(ws.push(w).drop_first() =~= Seq::<Seq<char>>::empty());
        assert(enc_words(Seq::<Seq<char>>::empty()) =~= Seq::<u8>::empty());
        assert(enc_words(ws.push(w)) == enc_word(w) + enc_words(Seq::<Seq<char>>::empty()));
        assert(enc_words(ws.push(w)) =~= enc_word(w));
        assert(enc_words(ws) + enc_word(w) =~= enc_word(w));
    } else {
        assert(ws.push(w)[0] == ws[0]);
        assert(ws.push(w).drop_first() =~= ws.drop_first().push(w));
        lemma_enc_words_push(ws.drop_first(), w);
        assert(enc_words(ws.push(w)) == enc_word(ws[0]) + enc_words(ws.drop_first().push(w)));
        assert(enc_word(ws[0]) + (enc_words(ws.drop_first()) + enc_word(w)) =~= (enc_word(ws[0])
            + enc_words(ws.drop_first())) + enc_word(w));
    }
}

/// Appends the eight little-endian bytes of `x`.
fn push_u64(out: &mut Vec<u8>, x: u64)
    ensures
        final(out)@ == old(out)@ + enc_u64(x),
{
    out.push(#[verifier::truncate] (x as u8));
    out.push(#[verifier::truncate] ((x >> 8) as u8));
    out.push(#[verifier::truncate] ((x >> 16) as u8));
    out.push(#[verifier::truncate] ((x >> 24) as u8));
    out.push(#[verifier::truncate] ((x >> 32) as u8));
    out.push(#[verifier::truncate] ((x >> 40) as u8));
    out.push(#[verifier::truncate] ((x >> 48) as u8));
    out.push(#[verifier::truncate] ((x >> 56) as u8));
    proof {
        assert(final(out)@ =~= old(out)@ + enc_u64(x));
    }
}

/// Appends the four little-endian bytes of `x`.
fn push_u32(out: &mut Vec<u8>, x: u32)
    ensures
        final(out)@ == old(out)@ + enc_u32(x),
{
    out.push(#[verifier::truncate] (x as u8));
    out.push(#[verifier::truncate] ((x >> 8) as u8));
    out.push(#[verifier::truncate] ((x >> 16) as u8));
    out.push(#[verifier::truncate] ((x >> 24) as u8));
    proof {
        assert(final(out)@ =~= old(out)@ + enc_u32(x));
    }
}

/// Appends one encoded word.  A word held in memory always has fewer
/// characters than the length field can carry.
fn push_word(out: &mut Vec<u8>, w: &String)
    ensures
        final(out)@ == old(out)@ + enc_word(w@),
        w@.len() < 0x1_0000_0000_0000_0000,
{
    let wc = crate::distance::chars_of(w.as_str());
    let n = wc.len();
    push_u64(out, n as u64);
    let mut i: usize = 0;
    proof {
        assert(w@.take(0) =~= Seq::<char>::empty());
    }
    while i < n
        invariant
            n == wc@.len(),
            wc@ == w@,
            i <= n,
            out@ == old(out)@ + enc_u64(n as u64) + enc_chars(w@.take(i as int)),
        decreases n - i,
    {
        let ghost pre = out@;
        push_u32(out, wc[i] as u32);
        proof {
            assert(w@.take(i + 1) =~= w@.take(i as int).push(w@[i as int]));
            lemma_enc_chars_push(w@.take(i as int), w@[i as int]);
            assert(out@ =~= old(out)@ + enc_u64(n as u64) + enc_chars(w@.take(i + 1)));
        }
        i = i + 1;
    }
    proof {
        assert(w@.take(n as int) =~= w@);
        assert(out@ =~= old(out)@ + enc_word(w@));
    }
}

proof fn lemma_enc_u64_injective(x: u64, y: u64)
    requires
        enc_u64(x) == enc_u64(y),
    ensures
        x == y,
{
    assert(enc_u64(x)[0] == x as u8 && enc_u64(y)[0] == y as u8);
    assert(x == y) by (bit_vector)
        requires
            x as u8 == y as u8,
            (x >> 8) as u8 == (y >> 8) as u8,
            (x >> 16) as u8 == (y >> 16) as u8,
            (x >> 24) as u8 == (y >> 24) as u8,
            (x >> 32) as u8 == (y >> 32) as u8,
            (x >> 40) as u8 == (y >> 40) as u8,
            (x >> 48) as u8 == (y >> 48) as u8,
            (x >> 56) as u8 == (y >> 56) as u8,
    ;
}

proof fn lemma_enc_u32_injective(x: u32, y: u32)
    requires
        enc_u32(x) == enc_u32(y),
    ensures
        x == y,
{
    assert(enc_u32(x)[0] == x as u8 && enc_u32(y)[0] == y as u8);
    assert(x == y) by (bit_vector)
        requires
            x as u8 == y as u8,
            (x >> 8) as u8 == (y >> 8) as u8,
            (x >> 16) as u8 == (y >> 16) as u8,
            (x >> 24) as u8 == (y >> 24) as u8,
    ;
}

/// Reads the 64-bit count encoded at `pos`.
fn read_u64(bytes: &Vec<u8>, pos: usize) -> (v: u64)
    requires
        pos + 8 <= bytes@.len(),
    ensures
        enc_u64(v) == bytes@.subrange(pos as int, pos + 8),
{
    let n = bytes.len();
    assert(pos + 8 <= n);
    let b0 = bytes[pos];
    let b1 = bytes[pos + 1];
    let b2 = bytes[pos + 2];
    let b3 = bytes[pos + 3];
    let b4 = bytes[pos + 4];
    let b5 = bytes[pos + 5];
    let b6 = bytes[pos + 6];
    let b7 = bytes[pos + 7];
    let v: u64 = (b0 as u64) | ((b1 as u64) << 8) | ((b2 as u64) << 16) | ((b3 as u64) << 24) | (
    (b4 as u64) << 32) | ((b5 as u64) << 40) | ((b6 as u64) << 48) | ((b7 as u64) << 56);
    proof {
        assert(v as u8 == b0 && (v >> 8) as u8 == b1 && (v >> 16) as u8 == b2 && (v >> 24) as u8
            == b3 && (v >> 32) as u8 == b4 && (v >> 40) as u8 == b5 && (v >> 48) as u8 == b6 && (v
            >> 56) as u8 == b7) by (bit_vector)
            requires
                v == (b0 as u64) | ((b1 as u64) << 8) | ((b2 as u64) << 16) | ((b3 as u64) << 24)
                    | ((b4 as u64) << 32) | ((b5 as u64) << 40) | ((b6 as u64) << 48) | ((
                b7 as u64) << 56),
        ;
        assert(enc_u64(v) =~= bytes@.subrange(pos as int, pos + 8));
    }
    v
}

/// Reads the 32-bit character code encoded at `pos`.
fn read_u32(bytes: &Vec<u8>, pos: usize) -> (v: u32)
    requires
        pos + 4 <= bytes@.len(),
    ensures
        enc_u32(v) == bytes@.subrange(pos as int, pos + 4),
{
    let n = bytes.len();
    assert(pos + 4 <= n);
    let b0 = bytes[pos];
    let b1 = bytes[pos + 1];
    let b2 = bytes[pos + 2];
    let b3 = bytes[pos + 3];
    let v: u32= (b0 as u32) | ((b1 as u32) << 8) | ((b2 as u32) << 16) | ((b3 as u32) << 24);
    proof {
        assert(v as u8 == b0 && (v >> 8) as u8 == b1 && (v >> 16) as u8 == b2 && (v >> 24) as u8
            == b3) by (bit_vector)
            requires
                v == (b0 as u32) | ((b1 as u32) << 8) | ((b2 as u32) << 16) | ((b3 as u32) << 24),
        ;
        assert(enc_u32(v) =~= bytes@.subrange(pos as int, pos + 4));
    }
    v
}

proof fn lemma_enc_words_split(ws: Seq<Seq<char>>, k: int)
    requires
        0 <= k <= ws.len(),
    ensures
        enc_words(ws) == enc_words(ws.take(k)) + enc_words(ws.skip(k)),
    decreases k,
{
    if k == 0 {
        assert(ws.take(0) =~= Seq::<Seq<char>>::empty());
        assert(ws.skip(0) =~= ws);
        assert(enc_words(Seq::<Seq<char>>::empty()) =~= Seq::<u8>::empty());
        assert(enc_words(ws.take(0)) + enc_words(ws.skip(0)) =~= enc_words(ws));
    } else {
        lemma_enc_words_split(ws, k - 1);
        assert(ws.take(k) =~= ws.take(k - 1).push(ws[k - 1]));
        lemma_enc_words_push(ws.take(k - 1), ws[k - 1]);
        let tail = ws.skip(k - 1);
        assert(tail.len() > 0);
        assert(tail[0] == ws[k - 1]);
        assert(tail.drop_first() =~= ws.skip(k));
        assert(enc_words(tail) == enc_word(ws[k - 1]) + enc_words(ws.skip(k)));
        assert((enc_words(ws.take(k - 1)) + enc_word(ws[k - 1])) + enc_words(ws.skip(k)) =~= enc_words(
            ws.take(k - 1),
        ) + (enc_word(ws[k - 1]) + enc_words(ws.skip(k))));
    }
}

proof fn lemma_enc_chars_split(w: Seq<char>, j: int)
    requires
        0 <= j <= w.len(),
    ensures
        enc_chars(w) == enc_chars(w.take(j)) + enc_chars(w.skip(j)),
    decreases j,
{
    if j == 0 {
        assert(w.take(0) =~= Seq::<char>::empty());
        assert(w.skip(0) =~= w);
        assert(enc_chars(Seq::<char>::empty()) =~= Seq::<u8>::empty());
        assert(enc_chars(w.take(0)) + enc_chars(w.skip(0)) =~= enc_chars(w));
    } else {
        lemma_enc_chars_split(w, j - 1);
        assert(w.take(j) =~= w.take(j - 1).push(w[j - 1]));
        lemma_enc_chars_push(w.take(j - 1), w[j - 1]);
        let tail = w.skip(j - 1);
        assert(tail.len() > 0);
        assert(tail[0] == w[j - 1]);
        assert(tail.drop_first() =~= w.skip(j));
        assert(enc_chars(tail) == enc_u32(w[j - 1] as u32) + enc_chars(w.skip(j)));
        assert((enc_chars(w.take(j - 1)) + enc_u32(w[j - 1] as u32)) + enc_chars(w.skip(j)) =~= enc_chars(
            w.take(j - 1),
        ) + (enc_u32(w[j - 1] as u32) + enc_chars(w.skip(j))));
    }
}

/// A character's code fits in 32 bits, so equal codes mean equal
/// characters.
proof fn lemma_char_code_injective(c1: char, c2: char)
    requires
        c1 as u32 == c2 as u32,
    ensures
        c1 == c2,
{
    assert(0 <= c1 as int <= 0x10FFFF);
    assert(0 <= c2 as int <= 0x10FFFF);
    assert(c1 as u32 == c1 as int as u32);
    assert(c1 as int as u32 == c1 as int);
    assert(c2 as u32 == c2 as int as u32);
    assert(c2 as int as u32 == c2 as int);
}

proof fn lemma_enc_chars_injective(u: Seq<char>, v: Seq<char>)
    requires
        u.len() == v.len(),
        enc_chars(u) == enc_chars(v),
    ensures
        u == v,
    decreases u.len(),
{
    if u.len() == 0 {
        assert(u =~= v);
    } else {
        lemma_enc_chars_len(u.drop_first());
        lemma_enc_chars_len(v.drop_first());
        let eu = enc_chars(u);
        assert(eu == enc_u32(u[0] as u32) + enc_chars(u.drop_first()));
        assert(eu == enc_u32(v[0] as u32) + enc_chars(v.drop_first()));
        assert(enc_u32(u[0] as u32) =~= eu.take(4));
        assert(enc_u32(v[0] as u32) =~= eu.take(4));
        lemma_enc_u32_injective(u[0] as u32, v[0] as u32);
        lemma_char_code_injective(u[0], v[0]);
        assert(u[0] == v[0]);
        assert(enc_chars(u.drop_first()) =~= eu.skip(4));
        assert(enc_chars(v.drop_first()) =~= eu.skip(4));
        lemma_enc_chars_injective(u.drop_first(), v.drop_first());
        assert forall|i: int| 0 <= i < u.len() implies u[i] == v[i] by {
            if i > 0 {
                assert(u[i] == u.drop_first()[i - 1]);
                assert(v[i] == v.drop_first()[i - 1]);
            }
        }
        assert(u =~= v);
    }
}

/// A word list is recoverable from any extension of its encoding: the
/// encoding is prefix-deterministic.
proof fn lemma_enc_words_prefix(xs: Seq<Seq<char>>, ys: Seq<Seq<char>>)
    requires
        bounded_words(xs),
        bounded_words(ys),
        enc_words(xs).is_prefix_of(enc_words(ys)),
    ensures
        xs.len() <= ys.len(),
        xs == ys.take(xs.len() as int),
    decreases xs.len(),
{
    if xs.len() == 0 {
        assert(xs =~= ys.take(0));
    } else {
        let ex = enc_words(xs);
        let ey = enc_words(ys);
        lemma_enc_chars_len(xs[0]);
        assert(ex == enc_word(xs[0]) + enc_words(xs.drop_first()));
        assert(ex.len() >= 8);
        if ys.len() == 0 {
            assert(ey.len() == 0);
            assert(false);
        }
        lemma_enc_chars_len(ys[0]);
        assert(ey == enc_word(ys[0]) + enc_words(ys.drop_first()));
        // the first eight bytes carry both head lengths
        assert(enc_u64(xs[0].len() as u64) =~= ex.take(8));
        assert(enc_u64(ys[0].len() as u64) =~= ey.take(8));
        assert(ex.take(8) =~= ey.take(8));
        lemma_enc_u64_injective(xs[0].len() as u64, ys[0].len() as u64);
        assert(xs[0].len() == ys[0].len());
        let m = xs[0].len() as int;
        // the next 4*m bytes carry both head words
        assert(enc_chars(xs[0]) =~= ex.subrange(8, 8 + 4 * m));
        assert(enc_chars(ys[0]) =~= ey.subrange(8, 8 + 4 * m));
        assert(ex.subrange(8, 8 + 4 * m) =~= ey.subrange(8, 8 + 4 * m));
        lemma_enc_chars_injective(xs[0], ys[0]);
        assert(xs[0] == ys[0]);
        // what remains is the encoding of both tails
        assert(enc_words(xs.drop_first()) =~= ex.skip(8 + 4 * m));
        assert(enc_words(ys.drop_first()) =~= ey.skip(8 + 4 * m));
        assert(enc_words(xs.drop_first()).is_prefix_of(enc_words(ys.drop_first())));
        assert(bounded_words(xs.drop_first())) by {
            assert(forall|i: int|
                0 <= i < xs.drop_first().len() ==> #[trigger] xs.drop_first()[i] == xs[i + 1]);
        }
        assert(bounded_words(ys.drop_first())) by {
            assert(forall|i: int|
                0 <= i < ys.drop_first().len() ==> #[trigger] ys.drop_first()[i] == ys[i + 1]);
        }
        lemma_enc_words_prefix(xs.drop_first(), ys.drop_first());
        assert(xs =~= ys.take(xs.len() as int)) by {
            assert(forall|i: int|
                1 <= i < xs.len() ==> #[trigger] xs[i] == xs.drop_first()[i - 1]);
            assert(forall|i: int|
                0 <= i < xs.len() - 1 ==> #[trigger] xs.drop_first()[i] == ys.drop_first().take(
                    xs.len() - 1,
                )[i]);
            assert(forall|i: int|
                1 <= i < xs.len() ==> #[trigger] ys.take(xs.len() as int)[i] == ys.drop_first()[i
                    - 1]);
        }
    }
}

/// Equal encodings come from equal word lists.
proof fn lemma_enc_words_deterministic(xs: Seq<Seq<char>>, ys: Seq<Seq<char>>)
    requires
        bounded_words(xs),
        bounded_words(ys),
        enc_words(xs) == enc_words(ys),
    ensures
        xs == ys,
{
    assert(enc_words(xs).is_prefix_of(enc_words(ys)));
    assert(enc_words(ys).is_prefix_of(enc_words(xs)));
    lemma_enc_words_prefix(xs, ys);
    lemma_enc_words_prefix(ys, xs);
    assert(xs =~= ys);
}

/// Positions a candidate list's next word at the decoder's cursor: the
/// words read so far are the candidate's first words, and the rest of
/// the bytes encode the candidate's remaining words.
proof fn lemma_decode_position(b: Seq<u8>, parsed: Seq<Seq<char>>, pos: int, ws: Seq<Seq<char>>)
    requires
        bounded_words(parsed),
        bounded_words(ws),
        0 <= pos <= b.len(),
        b.take(pos) == enc_words(parsed),
        b == enc_words(ws),
    ensures
        parsed.len() <= ws.len(),
        parsed == ws.take(parsed.len() as int),
        b.skip(pos) == enc_words(ws.skip(parsed.len() as int)),
{
    assert(enc_words(parsed).is_prefix_of(enc_words(ws))) by {
        assert(enc_words(parsed) =~= enc_words(ws).take(pos));
    }
    lemma_enc_words_prefix(parsed, ws);
    let k = parsed.len() as int;
    lemma_enc_words_split(ws, k);
    assert(enc_words(ws.take(k)) == enc_words(parsed));
    assert(b.skip(pos) =~= enc_words(ws.skip(k)));
}

/// Encodes the index's stored words.  The bytes are the encoding of
/// some listing of the stored word set, each word once.
pub fn encode_index(index: &FuzzyIndex) -> (r: Vec<u8>)
    requires
        index.wf(),
    ensures
        exists|ws: Seq<Seq<char>>|
            {
                &&& bounded_words(ws)
                &&& (forall|w: Seq<char>| #[trigger] ws.contains(w) <==> index.words().contains(w))
                &&& r@ == enc_words(ws)
            },
{
    // an empty query is a prefix of every word, so a prefix search for
    // it lists the whole store
    let list = index.search_match("", MatchMode::Prefix);
    proof {
        reveal_strlit("");
        assert forall|w: Seq<char>| is_prefix(""@, w) by {
            assert(w.take(0) =~= ""@);
        }
    }
    let n = list.len();
    let mut out: Vec<u8> = Vec::new();
    let mut i: usize = 0;
    proof {
        assert(list@.take(0) =~= Seq::<String>::empty());
        assert(list@.take(0).map_values(|s: String| s@) =~= Seq::<Seq<char>>::empty());
        assert(enc_words(Seq::<Seq<char>>::empty()) =~= Seq::<u8>::empty());
    }
    while i < n
        invariant
            n == list@.len(),
            i <= n,
            out@ == enc_words(list@.take(i as int).map_values(|s: String| s@)),
            forall|k: int| 0 <= k < i ==> (#[trigger] list@[k])@.len() < 0x1_0000_0000_0000_0000,
        decreases n - i,
    {
        push_word(&mut out, &list[i]);
        proof {
            let prev = list@.take(i as int).map_values(|s: String| s@);
            let next = list@.take(i + 1).map_values(|s: String| s@);
            assert(list@.take(i + 1) =~= list@.take(i as int).push(list@[i as int]));
            assert(next =~= prev.push(list@[i as int]@));
            lemma_enc_words_push(prev, list@[i as int]@);
        }
        i = i + 1;
    }
    proof {
        let ws = list@.map_values(|s: String| s@);
        assert(list@.take(n as int) =~= list@);
        assert(out@ == enc_words(ws));
        assert(bounded_words(ws));
        assert forall|w: Seq<char>| #[trigger] ws.contains(w) implies index.words().contains(w) by {
            let k = choose|k: int| 0 <= k < ws.len() && ws[k] == w;
            assert(seq_has_word(list@, w));
        }
        assert forall|w: Seq<char>| index.words().contains(w) implies #[trigger] ws.contains(w) by {
            assert(seq_has_word(list@, w));
            let k = choose|k: int| 0 <= k < list@.len() && list@[k]@ == w;
            assert(ws[k] == w);
        }
    }
    out
}

/// Positions a candidate list's word at the decoder's cursor: after
/// the words read so far, the bytes hold a word of `cnt` characters.
proof fn lemma_decode_word_shape(
    b: Seq<u8>,
    parsed: Seq<Seq<char>>,
    word_start: int,
    cnt: u64,
    ws: Seq<Seq<char>>,
)
    requires
        bounded_words(parsed),
        bounded_words(ws),
        0 <= word_start,
        word_start + 8 <= b.len(),
        b.take(word_start) == enc_words(parsed),
        enc_u64(cnt) == b.subrange(word_start, word_start + 8),
        b == enc_words(ws),
    ensures
        parsed.len() < ws.len(),
        ws[parsed.len() as int].len() == cnt,
        b.len() >= word_start + 8 + 4 * cnt,
        enc_chars(ws[parsed.len() as int]) == b.subrange(word_start + 8, word_start + 8 + 4 * cnt),
{
    lemma_decode_position(b, parsed, word_start, ws);
    let k = parsed.len() as int;
    let tail = ws.skip(k);
    assert(enc_words(tail).len() == b.len() - word_start);
    assert(tail.len() > 0);
    let w = tail[0];
    lemma_enc_chars_len(w);
    assert(enc_words(tail) == enc_word(w) + enc_words(tail.drop_first()));
    assert(enc_u64(w.len() as u64) =~= enc_words(tail).take(8));
    assert(enc_words(tail).take(8) =~= b.subrange(word_start, word_start + 8));
    lemma_enc_u64_injective(w.len() as u64, cnt);
    assert(ws[k] == w);
    assert(w.len() < 0x1_0000_0000_0000_0000);
    assert(w.len() == cnt);
    assert(enc_chars(w) =~= enc_words(tail).subrange(8, 8 + 4 * (cnt as int)));
    assert(enc_chars(w) =~= b.subrange(word_start + 8, word_start + 8 + 4 * (cnt as int)));
}

/// Decodes a backing file.  Decoding succeeds exactly on byte strings
/// that encode some word list, and then yields a well-formed index
/// holding exactly those words; together with `encode_index` this gives
/// the round trip, since every search is determined by the stored word
/// set.  On any other input the decoder reports `IndexError::Decode`
/// (the caller falls back to an empty index).
pub fn decode_index(bytes: &Vec<u8>) -> (r: Result<FuzzyIndex, IndexError>)
    ensures
        r matches Ok(t) ==> t.wf(),
        forall|ws: Seq<Seq<char>>|
            bounded_words(ws) && bytes@ == enc_words(ws) ==> (r matches Ok(t) && (forall|
                w: Seq<char>,
            | #[trigger] t.words().contains(w) <==> ws.contains(w))),
        r matches Ok(t) ==> exists|ws: Seq<Seq<char>>|
            {
                &&& bounded_words(ws)
                &&& bytes@ == enc_words(ws)
                &&& (forall|w: Seq<char>| #[trigger] t.words().contains(w) <==> ws.contains(w))
            },
{
    let n = bytes.len();
    let mut pos: usize = 0;
    let mut idx = FuzzyIndex::new();
    let ghost mut parsed: Seq<Seq<char>> = Seq::empty();
    proof {
        assert(bytes@.take(0) =~= Seq::<u8>::empty());
        assert(enc_words(Seq::<Seq<char>>::empty()) =~= Seq::<u8>::empty());
    }
    while pos < n
        invariant
            n == bytes@.len(),
            pos <= n,
            idx.wf(),
            forall|w: Seq<char>| #[trigger] idx.words().contains(w) <==> parsed.contains(w),
            bounded_words(parsed),
            bytes@.take(pos as int) == enc_words(parsed),
        decreases n - pos,
    {
        // every candidate list continues here with another word, which
        // needs at least an eight-byte length field
        if n - pos < 8 {
            proof {
                assert forall|ws: Seq<Seq<char>>|
                    !(bounded_words(ws) && bytes@ == enc_words(ws)) by {
                    if bounded_words(ws) && bytes@ == enc_words(ws) {
                        lemma_decode_position(bytes@, parsed, pos as int, ws);
                        let tail = ws.skip(parsed.len() as int);
                        assert(enc_words(tail).len() == n - pos);
                        assert(tail.len() > 0);
                        lemma_enc_chars_len(tail[0]);
                        assert(enc_words(tail) == enc_word(tail[0]) + enc_words(
                            tail.drop_first(),
                        ));
                        assert(false);
                    }
                }
            }
            return Err(IndexError::Decode);
        }
        let cnt64 = read_u64(bytes, pos);
        let word_start = pos;
        pos = pos + 8;
        let mut s = String::new();
        let mut j: u64 = 0;
        while j < cnt64
            invariant
                n == bytes@.len(),
                j <= cnt64,
                word_start + 8 <= n,
                pos == word_start + 8 + 4 * j,
                pos <= n,
                s@.len() == j,
                enc_u64(cnt64) == bytes@.subrange(word_start as int, word_start + 8),
                bytes@.subrange(word_start + 8, pos as int) == enc_chars(s@),
                bytes@.take(word_start as int) == enc_words(parsed),
                bounded_words(parsed),
                forall|w: Seq<char>| #[trigger] idx.words().contains(w) <==> parsed.contains(w),
                idx.wf(),
            decreases cnt64 - j,
        {
            if n - pos < 4 {
                proof {
                    assert forall|ws: Seq<Seq<char>>|
                        !(bounded_words(ws) && bytes@ == enc_words(ws)) by {
                        if bounded_words(ws) && bytes@ == enc_words(ws) {
                            lemma_decode_word_shape(
                                bytes@,
                                parsed,
                                word_start as int,
                                cnt64,
                                ws,
                            );
                            assert(n >= word_start + 8 + 4 * (cnt64 as int));
                            assert(false);
                        }
                    }
                }
                return Err(IndexError::Decode);
            }
            let code = read_u32(bytes, pos);
            match char::from_u32(code) {
                Some(c) => {
                    let ghost spre = s@;
                    s.push(c);
                    proof {
                        lemma_enc_chars_push(spre, c);
                        assert(bytes@.subrange(word_start + 8, pos + 4) =~= bytes@.subrange(
                            word_start + 8,
                            pos as int,
                        ) + bytes@.subrange(pos as int, pos + 4));
                    }
                    pos = pos + 4;
                },
                None => {
                    proof {
                        assert forall|ws: Seq<Seq<char>>|
                            !(bounded_words(ws) && bytes@ == enc_words(ws)) by {
                            if bounded_words(ws) && bytes@ == enc_words(ws) {
                                lemma_decode_word_shape(
                                    bytes@,
                                    parsed,
                                    word_start as int,
                                    cnt64,
                                    ws,
                                );
                                let w = ws[parsed.len() as int];
                                lemma_enc_chars_split(w, j as int);
                                lemma_enc_chars_len(w.take(j as int));
                                let wtail = w.skip(j as int);
                                assert(wtail.len() > 0);
                                lemma_enc_chars_len(wtail.drop_first());
                                assert(enc_chars(wtail) == enc_u32(wtail[0] as u32) + enc_chars(
                                    wtail.drop_first(),
                                ));
                                assert(wtail[0] == w[j as int]);
                                assert(enc_u32(w[j as int] as u32) =~= enc_chars(w).subrange(
                                    4 * (j as int),
                                    4 * (j as int) + 4,
                                ));
                                assert(enc_u32(w[j as int] as u32) =~= bytes@.subrange(
                                    pos as int,
                                    pos + 4,
                                ));
                                lemma_enc_u32_injective(w[j as int] as u32, code);
                                assert(char_code(w[j as int]) == code);
                                assert(false);
                            }
                        }
                    }
                    return Err(IndexError::Decode);
                },
            }
            j = j + 1;
        }
        let ghost parsed_pre = parsed;
        let ghost spre = s@;
        idx.add_word(s);
        proof {
            parsed = parsed.push(spre);
            assert forall|w: Seq<char>| #[trigger] parsed.contains(w) implies (parsed_pre.contains(
                w,
            ) || w == spre) by {
                let k = choose|k: int| 0 <= k < parsed.len() && parsed[k] == w;
                if k < parsed_pre.len() {
                    assert(parsed_pre[k] == w);
                }
            }
            assert forall|w: Seq<char>| parsed_pre.contains(w) || w == spre implies
                #[trigger] parsed.contains(w) by {
                if parsed_pre.contains(w) {
                    let k = choose|k: int| 0 <= k < parsed_pre.len() && parsed_pre[k] == w;
                    assert(parsed[k] == w);
                } else {
                    assert(parsed[parsed.len() - 1] == w);
                }
            }
            lemma_enc_words_push(parsed_pre, spre);
            assert(spre.len() == cnt64);
            assert(bounded_words(parsed)) by {
                assert(forall|k: int|
                    0 <= k < parsed_pre.len() ==> #[trigger] parsed[k] == parsed_pre[k]);
                assert(parsed[parsed.len() - 1] == spre);
            }
            assert(enc_word(spre) == enc_u64(cnt64) + enc_chars(spre));
            assert(bytes@.take(pos as int) =~= bytes@.take(word_start as int) + bytes@.subrange(
                word_start as int,
                word_start + 8,
            ) + bytes@.subrange(word_start + 8, pos as int));
            assert(bytes@.take(pos as int) =~= enc_words(parsed));
        }
    }
    proof {
        assert(bytes@.take(n as int) =~= bytes@);
        assert(bytes@ == enc_words(parsed));
        assert forall|ws: Seq<Seq<char>>|
            bounded_words(ws) && bytes@ == enc_words(ws) implies (forall|w: Seq<char>|
            #[trigger] idx.words().contains(w) <==> ws.contains(w)) by {
            lemma_enc_words_deterministic(parsed, ws);
        }
        assert(exists|ws: Seq<Seq<char>>|
            {
                &&& bounded_words(ws)
                &&& bytes@ == enc_words(ws)
                &&& (forall|w: Seq<char>| #[trigger] idx.words().contains(w) <==> ws.contains(w))
            }) by {
            assert({
                &&& bounded_words(parsed)
                &&& bytes@ == enc_words(parsed)
                &&& (forall|w: Seq<char>|
                    #[trigger] idx.words().contains(w) <==> parsed.contains(w))
            });
        }
    }
    Ok(idx)
}

} // verus!

