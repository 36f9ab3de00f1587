//! The Battlefield 3 variant: word-oriented packets over the same byte
//! stream capability.
//!
//! A packet is `sequence (i32 le) | packet_size (i32 le) | word_count
//! (i32 le)` followed by `word_count` words, each `word_size (i32 le) |
//! word bytes | 0x00`. The body text is the whitespace-separated join of
//! the words; `packet_size` counts the whole packet, header included. The
//! `sequence` field packs the id in its low bits and the origin/type bits
//! in its top three bits; responses carry `3 << 29` or-ed over the id.

use vstd::prelude::*;
use vstd::utf8::{decode_utf8, encode_utf8, valid_utf8};
use crate::error::{Error, TransportError};
use crate::packet::{PacketType, MAX_WIRE_BODY};
use crate::transport::Transport;
use crate::wire::{append_bytes, append_i32_le, bytes_contains, bytes_to_string, i32_of_le_vec, lemma_i32_le_round_trip, spec_bytes_contains, spec_i32_le, spec_i32_of_le};

verus! {

/// A packet larger than this is rejected by the server.
pub const BTF3_MAX_PAYLOAD_SIZE: usize = 16384;

/// The id a fresh connection starts from.
pub const BTF3_INITIAL_PACKET_ID: i32 = 1;

/// The span of the id field inside `sequence`.
pub const BTF3_ID_MASK: i32 = 0x3fff;

/// The whitespace bytes a body is split on: space, tab, line feed, form
/// feed, carriage return.
pub open spec fn is_ws_byte(b: u8) -> bool {
    b == 32 || b == 9 || b == 10 || b == 12 || b == 13
}

/// The words of a body: its maximal runs of non-whitespace bytes.
pub open spec fn spec_split_words(s: Seq<u8>) -> Seq<Seq<u8>>
    decreases s.len(),
{
    if s.len() == 0 {
        Seq::<Seq<u8>>::empty()
    } else if is_ws_byte(s[0]) {
        spec_split_words(s.drop_first())
    } else {
        let rest = spec_split_words(s.drop_first());
        if s.len() > 1 && !is_ws_byte(s[1]) {
            seq![seq![s[0]] + rest[0]] + rest.drop_first()
        } else {
            seq![seq![s[0]]] + rest
        }
    }
}

/// Words joined back into a body with single spaces.
pub open spec fn spec_join_words(ws: Seq<Seq<u8>>) -> Seq<u8>
    decreases ws.len(),
{
    if ws.len() == 0 {
        Seq::<u8>::empty()
    } else if ws.len() == 1 {
        ws[0]
    } else {
        ws[0] + seq![32u8] + spec_join_words(ws.drop_first())
    }
}

/// A word is never empty and never holds whitespace.
pub open spec fn word_ok(w: Seq<u8>) -> bool {
    &&& w.len() > 0
    &&& forall|i: int| 0 <= i < w.len() ==> !is_ws_byte(#[trigger] w[i])
}

pub open spec fn words_ok(ws: Seq<Seq<u8>>) -> bool {
    forall|i: int| 0 <= i < ws.len() ==> word_ok(#[trigger] ws[i])
}

/// The wire size the words contribute: four length bytes and one null
/// byte around each word.
pub open spec fn spec_words_size(ws: Seq<Seq<u8>>) -> int
    decreases ws.len(),
{
    if ws.len() == 0 {
        0
    } else {
        ws[0].len() + 5 + spec_words_size(ws.drop_first())
    }
}

/// The whole packet size: the three header fields plus the words.
pub open spec fn spec_bf3_packet_size(ws: Seq<Seq<u8>>) -> int {
    12 + spec_words_size(ws)
}

pub proof fn lemma_split_all_words_ok(s: Seq<u8>)
    ensures
        words_ok(spec_split_words(s)),
    decreases s.len(),
{
    if s.len() == 0 {
    } else if is_ws_byte(s[0]) {
        lemma_split_all_words_ok(s.drop_first());
    } else {
        lemma_split_all_words_ok(s.drop_first());
        let rest = spec_split_words(s.drop_first());
        if s.len() > 1 && !is_ws_byte(s[1]) {
            assert(s.drop_first().len() > 0 && !is_ws_byte(s.drop_first()[0]));
            assert(rest.len() > 0) by {
                lemma_split_nonempty(s.drop_first());
            }
            let merged = seq![s[0]] + rest[0];
            assert(word_ok(merged)) by {
                assert(forall|i: int| 0 < i < merged.len() ==> merged[i] == rest[0][i - 1]);
            }
        }
    }
}

/// A string starting with a non-whitespace byte splits into at least one
/// word, and its first word starts with that byte.
pub proof fn lemma_split_nonempty(s: Seq<u8>)
    requires
        s.len() > 0,
        !is_ws_byte(s[0]),
    ensures
        spec_split_words(s).len() > 0,
        spec_split_words(s)[0].len() > 0,
        spec_split_words(s)[0][0] == s[0],
    decreases s.len(),
{
    if s.len() > 1 && !is_ws_byte(s[1]) {
        lemma_split_nonempty(s.drop_first());
    }
}

/// Splitting a word followed by a whitespace-or-empty tail peels the word
/// off the front.
pub proof fn lemma_split_prepend_word(w: Seq<u8>, t: Seq<u8>)
    requires
        word_ok(w),
        t.len() == 0 || is_ws_byte(t[0]),
    ensures
        spec_split_words(w + t) == seq![w] + spec_split_words(t),
    decreases w.len(),
{
    let s = w + t;
    assert(s[0] == w[0]);
    assert(!is_ws_byte(s[0]));
    if w.len() == 1 {
        assert(s.drop_first() =~= t);
        if s.len() > 1 && !is_ws_byte(s[1]) {
            assert(s[1] == t[0]);
            assert(false);
        }
        assert(seq![s[0]] =~= w);
        assert(seq![seq![s[0]]] =~= seq![w]);
        assert(spec_split_words(s) =~= seq![w] + spec_split_words(t));
    } else {
        assert(s.len() > 1 && s[1] == w[1] && !is_ws_byte(s[1]));
        assert(s.drop_first() =~= w.drop_first() + t);
        assert(word_ok(w.drop_first())) by {
            assert(forall|i: int| 0 <= i < w.drop_first().len() ==> w.drop_first()[i] == w[i + 1]);
        }
        lemma_split_prepend_word(w.drop_first(), t);
        let rest = spec_split_words(s.drop_first());
        assert(rest == seq![w.drop_first()] + spec_split_words(t));
        assert(rest[0] == w.drop_first());
        assert(rest.drop_first() =~= spec_split_words(t));
        assert(seq![s[0]] + rest[0] =~= w);
        assert(spec_split_words(s) =~= seq![w] + spec_split_words(t));
    }
}

/// Splitting the single-space join of well-formed words yields those
/// words back: the word framing loses nothing.
pub proof fn lemma_split_join(ws: Seq<Seq<u8>>)
    requires
        words_ok(ws),
    ensures
        spec_split_words(spec_join_words(ws)) == ws,
    decreases ws.len(),
{
    if ws.len() == 0 {
    } else if ws.len() == 1 {
        let w = ws[0];
        assert(w + Seq::<u8>::empty() =~= w);
        lemma_split_prepend_word(w, Seq::<u8>::empty());
        assert(spec_split_words(spec_join_words(ws)) =~= ws);
    } else {
        let w = ws[0];
        let t = seq![32u8] + spec_join_words(ws.drop_first());
        assert(spec_join_words(ws) =~= w + t);
        lemma_split_prepend_word(w, t);
        assert(words_ok(ws.drop_first())) by {
            assert(forall|i: int|
                0 <= i < ws.drop_first().len() ==> ws.drop_first()[i] == ws[i + 1]);
        }
        lemma_split_join(ws.drop_first());
        assert(t.drop_first() =~= spec_join_words(ws.drop_first()));
        assert(spec_split_words(t) == spec_split_words(spec_join_words(ws.drop_first())));
        assert(spec_split_words(spec_join_words(ws)) =~= ws);
    }
}

/// One decode round normalizes a body, and the framing is then stable:
/// the words of the space-joined words of any body are those words
/// themselves, so re-encoding a decoded body frames the same words.
pub proof fn lemma_bf3_normalization(s: Seq<u8>)
    ensures
        spec_split_words(spec_join_words(spec_split_words(s))) == spec_split_words(s),
{
    lemma_split_all_words_ok(s);
    lemma_split_join(spec_split_words(s));
}

pub proof fn lemma_words_size_cons(x: Seq<u8>, tail: Seq<Seq<u8>>)
    ensures
        spec_words_size(seq![x] + tail) == x.len() + 5 + spec_words_size(tail),
{
    let ws = seq![x] + tail;
    assert(ws.len() > 0 && ws[0] == x);
    assert(ws.drop_first() =~= tail);
}

/// Every word costs at least its framing; the whole body costs at most
/// six bytes of wire per body byte.
pub proof fn lemma_words_size_bound(s: Seq<u8>)
    ensures
        spec_words_size(spec_split_words(s)) <= 6 * s.len(),
    decreases s.len(),
{
    if s.len() == 0 {
    } else if is_ws_byte(s[0]) {
        lemma_words_size_bound(s.drop_first());
    } else {
        lemma_words_size_bound(s.drop_first());
        let rest = spec_split_words(s.drop_first());
        if s.len() > 1 && !is_ws_byte(s[1]) {
            lemma_split_nonempty(s.drop_first());
            lemma_words_size_cons(seq![s[0]] + rest[0], rest.drop_first());
            assert(rest =~= seq![rest[0]] + rest.drop_first());
            lemma_words_size_cons(rest[0], rest.drop_first());
        } else {
            lemma_words_size_cons(seq![s[0]], rest);
        }
    }
}

pub proof fn lemma_words_size_at_least(ws: Seq<Seq<u8>>)
    ensures
        spec_words_size(ws) >= 5 * ws.len(),
    decreases ws.len(),
{
    if ws.len() > 0 {
        lemma_words_size_at_least(ws.drop_first());
    }
}

/// Any one word's framed size is within the total.
pub proof fn lemma_words_size_each(ws: Seq<Seq<u8>>, i: int)
    requires
        0 <= i < ws.len(),
    ensures
        ws[i].len() + 5 <= spec_words_size(ws),
    decreases ws.len(),
{
    if i == 0 {
        lemma_words_size_at_least(ws.drop_first());
    } else {
        lemma_words_size_each(ws.drop_first(), i - 1);
    }
}

pub proof fn lemma_words_size_take(ws: Seq<Seq<u8>>, k: int)
    requires
        0 <= k < ws.len(),
    ensures
        spec_words_size(ws.take(k + 1)) == spec_words_size(ws.take(k)) + ws[k].len() + 5,
    decreases k,
{
    if k == 0 {
        assert(ws.take(0) =~= Seq::<Seq<u8>>::empty());
        assert(ws.take(1) =~= seq![ws[0]]);
        lemma_words_size_cons(ws[0], Seq::<Seq<u8>>::empty());
        assert(seq![ws[0]] + Seq::<Seq<u8>>::empty() =~= seq![ws[0]]);
    } else {
        lemma_words_size_take(ws.drop_first(), k - 1);
        assert(ws.take(k + 1) =~= seq![ws[0]] + ws.drop_first().take(k));
        assert(ws.take(k) =~= seq![ws[0]] + ws.drop_first().take(k - 1));
        lemma_words_size_cons(ws[0], ws.drop_first().take(k));
        lemma_words_size_cons(ws[0], ws.drop_first().take(k - 1));
        assert(ws.drop_first()[k - 1] == ws[k]);
    }
}

pub proof fn lemma_words_size_take_le(ws: Seq<Seq<u8>>, k: int)
    requires
        0 <= k <= ws.len(),
    ensures
        spec_words_size(ws.take(k)) <= spec_words_size(ws),
    decreases ws.len() - k,
{
    if k == ws.len() {
        assert(ws.take(k) =~= ws);
    } else {
        lemma_words_size_take(ws, k);
        lemma_words_size_take_le(ws, k + 1);
    }
}

/// Joining one more word onto a body.
pub proof fn lemma_join_push(ws: Seq<Seq<u8>>, w: Seq<u8>)
    ensures
        ws.len() == 0 ==> spec_join_words(ws.push(w)) == w,
        ws.len() > 0 ==> spec_join_words(ws.push(w)) == spec_join_words(ws) + seq![32u8] + w,
    decreases ws.len(),
{
    if ws.len() == 0 {
        assert(ws.push(w)[0] == w);
    } else {
        lemma_join_push(ws.drop_first(), w);
        assert(ws.push(w).drop_first() =~= ws.drop_first().push(w));
        if ws.len() == 1 {
            assert(spec_join_words(ws.push(w)) =~= spec_join_words(ws) + seq![32u8] + w);
        } else {
            assert(spec_join_words(ws.push(w)) =~= spec_join_words(ws) + seq![32u8] + w);
        }
    }
}

/// The little-endian framing of one word: its size, its bytes, a null.
pub open spec fn spec_word_bytes(w: Seq<u8>) -> Seq<u8> {
    spec_i32_le(w.len() as i32) + w + seq![0u8]
}

/// The framings of a word list, concatenated.
pub open spec fn spec_words_bytes(ws: Seq<Seq<u8>>) -> Seq<u8>
    decreases ws.len(),
{
    if ws.len() == 0 {
        Seq::<u8>::empty()
    } else {
        spec_word_bytes(ws[0]) + spec_words_bytes(ws.drop_first())
    }
}

/// The encoding of one packet: sequence, declared size, word count, then
/// the framed words.
pub open spec fn spec_bf3_packet_bytes(sequence: i32, ws: Seq<Seq<u8>>) -> Seq<u8> {
    spec_i32_le(sequence) + spec_i32_le(spec_bf3_packet_size(ws) as i32) + spec_i32_le(
        ws.len() as i32,
    ) + spec_words_bytes(ws)
}

/// Parses `n` framed words from the front of `s`; yields the words and
/// the remaining stream. `None` when a size field is impossible, beyond
/// the allocation bound, or runs past the stream.
pub open spec fn spec_parse_words(s: Seq<u8>, n: int) -> Option<(Seq<Seq<u8>>, Seq<u8>)>
    decreases n,
{
    if n <= 0 {
        Some((Seq::<Seq<u8>>::empty(), s))
    } else if s.len() < 4 {
        None
    } else {
        let wlen = spec_i32_of_le(s.subrange(0, 4)) as int;
        if wlen < 0 || wlen > MAX_WIRE_BODY as int || s.len() < 5 + wlen {
            None
        } else {
            match spec_parse_words(s.skip(5 + wlen), n - 1) {
                Some((ws, rem)) => Some((seq![s.subrange(4, 4 + wlen)] + ws, rem)),
                None => None,
            }
        }
    }
}

/// The origin/type bits of a sequence field: its top three bits.
pub open spec fn spec_bf3_seq_kind(sequence: i32) -> u32 {
    (sequence as u32) >> 29
}

/// The packet type a sequence field's top bits read as.
pub open spec fn spec_bf3_type_of_seq(sequence: i32) -> PacketType {
    if spec_bf3_seq_kind(sequence) <= 1 {
        PacketType::ExecCommand
    } else {
        PacketType::ResponseValue
    }
}

pub open spec fn spec_bf3_seq(s: Seq<u8>) -> i32
    recommends
        s.len() >= 4,
{
    spec_i32_of_le(s.subrange(0, 4))
}

pub open spec fn spec_bf3_declared_size(s: Seq<u8>) -> int
    recommends
        s.len() >= 8,
{
    spec_i32_of_le(s.subrange(4, 8)) as int
}

pub open spec fn spec_bf3_count(s: Seq<u8>) -> int
    recommends
        s.len() >= 12,
{
    spec_i32_of_le(s.subrange(8, 12)) as int
}

/// The words of the packet at the front of the stream.
pub open spec fn spec_bf3_words_of(s: Seq<u8>) -> Seq<Seq<u8>> {
    spec_parse_words(s.skip(12), spec_bf3_count(s))->Some_0.0
}

/// The stream left after the packet at the front.
pub open spec fn spec_bf3_rest(s: Seq<u8>) -> Seq<u8> {
    spec_parse_words(s.skip(12), spec_bf3_count(s))->Some_0.1
}

/// True when a complete, well-formed word-oriented packet sits at the
/// front of `s`: known type bits, a plausible word count, every word
/// framed within the stream, the declared size accounting for exactly the
/// words read, and a body that is valid text.
pub open spec fn spec_bf3_wire_ok(s: Seq<u8>) -> bool {
    &&& s.len() >= 12
    &&& spec_bf3_seq_kind(spec_bf3_seq(s)) <= 3
    &&& 0 <= spec_bf3_count(s) <= MAX_WIRE_BODY as int
    &&& spec_parse_words(s.skip(12), spec_bf3_count(s)) is Some
    &&& spec_bf3_declared_size(s) == spec_bf3_packet_size(spec_bf3_words_of(s))
    &&& valid_utf8(spec_join_words(spec_bf3_words_of(s)))
}

/// Parsing the framing of a word list yields the list back and leaves
/// exactly what followed it.
pub proof fn lemma_parse_words_bytes(ws: Seq<Seq<u8>>, rest: Seq<u8>)
    requires
        forall|i: int| 0 <= i < ws.len() ==> (#[trigger] ws[i]).len() <= MAX_WIRE_BODY as int,
    ensures
        spec_parse_words(spec_words_bytes(ws) + rest, ws.len() as int) == Some((ws, rest)),
    decreases ws.len(),
{
    if ws.len() == 0 {
        assert(spec_words_bytes(ws) + rest =~= rest);
    } else {
        let w = ws[0];
        let s = spec_words_bytes(ws) + rest;
        lemma_i32_le_round_trip(w.len() as i32);
        assert(s =~= spec_i32_le(w.len() as i32) + (w + seq![0u8] + spec_words_bytes(
            ws.drop_first(),
        ) + rest));
        assert(s.subrange(0, 4) =~= spec_i32_le(w.len() as i32));
        let wlen = spec_i32_of_le(s.subrange(0, 4)) as int;
        assert(wlen == w.len());
        assert(s.len() >= 5 + wlen);
        assert(s.subrange(4, 4 + wlen) =~= w);
        assert(s.skip(5 + wlen) =~= spec_words_bytes(ws.drop_first()) + rest);
        assert(forall|i: int|
            0 <= i < ws.drop_first().len() ==> (#[trigger] ws.drop_first()[i]).len()
                <= MAX_WIRE_BODY as int) by {
            assert(forall|i: int|
                0 <= i < ws.drop_first().len() ==> ws.drop_first()[i] == ws[i + 1]);
        }
        lemma_parse_words_bytes(ws.drop_first(), rest);
        assert(seq![w] + ws.drop_first() =~= ws);
    }
}

#[verifier::when_used_as_spec(is_ws_byte)]
fn is_ws_byte_exec(b: u8) -> (r: bool)
    ensures
        r == is_ws_byte(b),
{
    b == 32 || b == 9 || b == 10 || b == 12 || b == 13
}

/// Splitting at a whitespace byte skips it.
proof fn lemma_split_skip_ws(s: Seq<u8>, i: int)
    requires
        0 <= i < s.len(),
        is_ws_byte(s[i]),
    ensures
        spec_split_words(s.skip(i)) == spec_split_words(s.skip(i + 1)),
{
    assert(s.skip(i).drop_first() =~= s.skip(i + 1));
}

/// The start and end offsets of each word of `s`, in order.
fn split_words(s: &[u8]) -> (r: Vec<(usize, usize)>)
    ensures
        r@.len() == spec_split_words(s@).len(),
        forall|k: int|
            0 <= k < r@.len() ==> {
                &&& (#[trigger] r@[k]).0 <= r@[k].1 <= s@.len()
                &&& s@.subrange(r@[k].0 as int, r@[k].1 as int) == spec_split_words(s@)[k]
            },
{
    let mut r: Vec<(usize, usize)> = Vec::new();
    let ghost mut done: Seq<Seq<u8>> = Seq::empty();
    let mut i: usize = 0;
    let _slen = s.len();
    proof {
        assert(s@.skip(0) =~= s@);
        assert(done + spec_split_words(s@) =~= spec_split_words(s@));
    }
    while i < s.len()
        invariant
            i <= s@.len(),
            s@.len() <= usize::MAX,
            spec_split_words(s@) == done + spec_split_words(s@.skip(i as int)),
            r@.len() == done.len(),
            forall|k: int|
                0 <= k < r@.len() ==> {
                    &&& (#[trigger] r@[k]).0 <= r@[k].1 <= s@.len()
                    &&& s@.subrange(r@[k].0 as int, r@[k].1 as int) == done[k]
                },
        decreases s@.len() - i,
    {
        if is_ws_byte_exec(s[i]) {
            proof {
                lemma_split_skip_ws(s@, i as int);
            }
            i = i + 1;
        } else {
            let start = i;
            let mut j = i + 1;
            while j < s.len() && !is_ws_byte_exec(s[j])
                invariant
                    i < j <= s@.len(),
                    s@.len() <= usize::MAX,
                    i < s@.len(),
                    forall|k: int| i <= k < j ==> !is_ws_byte(#[trigger] s@[k]),
                decreases s@.len() - j,
            {
                j = j + 1;
            }
            let ghost w = s@.subrange(i as int, j as int);
            proof {
                assert(word_ok(w));
                assert(s@.skip(i as int) =~= w + s@.skip(j as int));
                if j < s@.len() {
                    assert(is_ws_byte(s@.skip(j as int)[0]));
                } else {
                    assert(s@.skip(j as int).len() == 0);
                }
                lemma_split_prepend_word(w, s@.skip(j as int));
            }
            r.push((start, j));
            proof {
                let new_done = done.push(w);
                assert(done + (seq![w] + spec_split_words(s@.skip(j as int))) =~= new_done
                    + spec_split_words(s@.skip(j as int)));
                done = new_done;
            }
            i = j;
        }
    }
    proof {
        assert(s@.skip(i as int).len() == 0);
        assert(spec_split_words(s@.skip(i as int)) =~= Seq::<Seq<u8>>::empty());
        assert(done + spec_split_words(s@.skip(i as int)) =~= done);
    }
    r
}

pub proof fn lemma_words_bytes_take(ws: Seq<Seq<u8>>, k: int)
    requires
        0 <= k < ws.len(),
    ensures
        spec_words_bytes(ws.take(k + 1)) == spec_words_bytes(ws.take(k)) + spec_word_bytes(ws[k]),
    decreases k,
{
    if k == 0 {
        assert(ws.take(0) =~= Seq::<Seq<u8>>::empty());
        assert(ws.take(1) =~= seq![ws[0]]);
        assert(seq![ws[0]].drop_first() =~= Seq::<Seq<u8>>::empty());
        assert(spec_words_bytes(ws.take(1)) =~= spec_word_bytes(ws[0]));
        assert(spec_words_bytes(ws.take(0)) + spec_word_bytes(ws[0]) =~= spec_word_bytes(ws[0]));
    } else {
        lemma_words_bytes_take(ws.drop_first(), k - 1);
        assert(ws.take(k + 1) =~= seq![ws[0]] + ws.drop_first().take(k));
        assert(ws.take(k) =~= seq![ws[0]] + ws.drop_first().take(k - 1));
        assert((seq![ws[0]] + ws.drop_first().take(k)).drop_first() =~= ws.drop_first().take(k));
        assert((seq![ws[0]] + ws.drop_first().take(k - 1)).drop_first() =~= ws.drop_first().take(
            k - 1,
        ));
        assert(ws.drop_first()[k - 1] == ws[k]);
        assert(spec_words_bytes(ws.take(k + 1)) =~= spec_words_bytes(ws.take(k))
            + spec_word_bytes(ws[k]));
    }
}

/// A word-oriented packet: the three header fields as read or written on
/// the wire, the body as the space-joined word text, and the packet type
/// carried by the sequence field's top bits.
#[derive(Debug, PartialEq)]
pub struct Btf3Packet {
    sequence: i32,
    packet_size: i32,
    word_count: i32,
    body: String,
    ptype: PacketType,
}

/// True when `p` is the packet decoded from the front of `s`.
pub open spec fn bf3_decodes_to(s: Seq<u8>, p: Btf3Packet) -> bool {
    &&& spec_bf3_wire_ok(s)
    &&& p.spec_sequence() == spec_bf3_seq(s)
    &&& p.spec_packet_size() as int == spec_bf3_declared_size(s)
    &&& p.spec_word_count() as int == spec_bf3_count(s)
    &&& p.spec_type() == spec_bf3_type_of_seq(spec_bf3_seq(s))
    &&& p.spec_body() == decode_utf8(spec_join_words(spec_bf3_words_of(s)))
}

impl Btf3Packet {
    pub closed spec fn spec_sequence(self) -> i32 {
        self.sequence
    }

    pub closed spec fn spec_packet_size(self) -> i32 {
        self.packet_size
    }

    pub closed spec fn spec_word_count(self) -> i32 {
        self.word_count
    }

    pub closed spec fn spec_body(self) -> Seq<char> {
        self.body@
    }

    pub closed spec fn spec_type(self) -> PacketType {
        self.ptype
    }

    /// The size and count fields agree with the body's words: they were
    /// computed, not taken from caller input.
    pub open spec fn wf(self) -> bool {
        let ws = spec_split_words(encode_utf8(self.spec_body()));
        &&& self.spec_packet_size() as int == spec_bf3_packet_size(ws)
        &&& self.spec_word_count() as int == ws.len()
    }

    /// The type field agrees with the top bits of the sequence field.
    pub open spec fn type_matches_sequence(self) -> bool {
        match self.spec_type() {
            PacketType::ExecCommand => spec_bf3_seq_kind(self.spec_sequence()) <= 1,
            PacketType::ResponseValue => 2 <= spec_bf3_seq_kind(self.spec_sequence()) <= 3,
            _ => false,
        }
    }

    /// The bytes this packet serializes to.
    pub open spec fn spec_bytes(self) -> Seq<u8> {
        spec_bf3_packet_bytes(
            self.spec_sequence(),
            spec_split_words(encode_utf8(self.spec_body())),
        )
    }

    /// Builds a packet around `body`, deriving the sequence field from the
    /// id and the direction the type implies: requests carry the id as is,
    /// responses carry `3 << 29` or-ed over it.
    pub fn new(id: i32, ptype: PacketType, body: String) -> (p: Btf3Packet)
        requires
            0 <= id <= BTF3_ID_MASK,
            !(ptype is Unknown),
            spec_bf3_packet_size(spec_split_words(encode_utf8(body@))) <= i32::MAX,
        ensures
            p.wf(),
            p.spec_body() == body@,
            p.spec_type() == ptype,
            (ptype is Auth || ptype is ExecCommand) ==> p.spec_sequence() == id,
            (ptype is AuthResponse || ptype is ResponseValue) ==> p.spec_sequence() == (
            (3i32 << 29) | id),
            (ptype is ExecCommand || ptype is ResponseValue) ==> p.type_matches_sequence(),
    {
        let sequence = match ptype {
            PacketType::Auth => id,
            PacketType::ExecCommand => id,
            PacketType::AuthResponse => (3i32 << 29) | id,
            PacketType::ResponseValue => (3i32 << 29) | id,
            PacketType::Unknown(_) => unreached(),
        };
        proof {
            assert(((id as u32) >> 29) == 0 && ((((3i32 << 29) | id) as u32) >> 29)
                == 3) by (bit_vector)
                requires
                    0 <= id <= 0x3fff,
            ;
        }
        let ghost ws = spec_split_words(encode_utf8(body@));
        let words = split_words(body.as_str().as_bytes());
        let mut size: usize = 12;
        let mut k: usize = 0;
        proof {
            assert(ws.take(0) =~= Seq::<Seq<u8>>::empty());
        }
        while k < words.len()
            invariant
                k <= words@.len(),
                words@.len() == ws.len(),
                forall|t: int|
                    0 <= t < words@.len() ==> {
                        &&& (#[trigger] words@[t]).0 <= words@[t].1
                        &&& words@[t].1 - words@[t].0 == ws[t].len()
                    },
                size == 12 + spec_words_size(ws.take(k as int)),
                12 + spec_words_size(ws) <= i32::MAX,
            decreases words@.len() - k,
        {
            let pair = words[k];
            let wl = pair.1 - pair.0;
            proof {
                lemma_words_size_take(ws, k as int);
                lemma_words_size_take_le(ws, k as int + 1);
            }
            size = size + wl + 5;
            k = k + 1;
        }
        proof {
            assert(ws.take(ws.len() as int) =~= ws);
            lemma_words_size_at_least(ws);
        }
        let word_count = words.len();
        Btf3Packet {
            sequence,
            packet_size: size as i32,
            word_count: word_count as i32,
            body,
            ptype,
        }
    }

    /// A response that does not carry "OK" anywhere in its body reports a
    /// failed request; 79 and 75 are the bytes of `O` and `K`.
    pub fn is_error(&self) -> (r: bool)
        ensures
            r == !spec_bytes_contains(encode_utf8(self.spec_body()), seq![79u8, 75u8]),
    {
        let mut needle: Vec<u8> = Vec::new();
        needle.push(79);
        needle.push(75);
        proof {
            assert(needle@ =~= seq![79u8, 75u8]);
        }
        !bytes_contains(self.body.as_str().as_bytes(), needle.as_slice())
    }

    pub fn get_body(&self) -> (r: &str)
        ensures
            r@ == self.spec_body(),
    {
        self.body.as_str()
    }

    pub fn get_type(&self) -> (r: PacketType)
        ensures
            r == self.spec_type(),
    {
        self.ptype
    }

    /// The id field packed in the low bits of the sequence.
    pub fn get_id(&self) -> (r: i32)
        ensures
            r == self.spec_sequence() & BTF3_ID_MASK,
    {
        self.sequence & BTF3_ID_MASK
    }

    /// Encodes this packet as its wire bytes.
    pub fn encode(&self) -> (buf: Vec<u8>)
        requires
            self.wf(),
        ensures
            buf@ == self.spec_bytes(),
    {
        let ghost ws = spec_split_words(encode_utf8(self.spec_body()));
        let bytes = self.body.as_str().as_bytes();
        let words = split_words(bytes);
        let mut buf: Vec<u8> = Vec::new();
        append_i32_le(&mut buf, self.sequence);
        append_i32_le(&mut buf, self.packet_size);
        append_i32_le(&mut buf, self.word_count);
        let ghost header = spec_i32_le(self.spec_sequence()) + spec_i32_le(
            self.spec_packet_size(),
        ) + spec_i32_le(self.spec_word_count());
        let mut k: usize = 0;
        proof {
            assert(ws.take(0) =~= Seq::<Seq<u8>>::empty());
            assert(buf@ =~= header + spec_words_bytes(ws.take(0)));
        }
        while k < words.len()
            invariant
                k <= words@.len(),
                words@.len() == ws.len(),
                bytes@ == encode_utf8(self.spec_body()),
                forall|t: int|
                    0 <= t < words@.len() ==> {
                        &&& (#[trigger] words@[t]).0 <= words@[t].1 <= bytes@.len()
                        &&& bytes@.subrange(words@[t].0 as int, words@[t].1 as int) == ws[t]
                    },
                12 + spec_words_size(ws) <= i32::MAX,
                buf@ == header + spec_words_bytes(ws.take(k as int)),
            decreases words@.len() - k,
        {
            let pair = words[k];
            let wl = pair.1 - pair.0;
            proof {
                lemma_words_size_each(ws, k as int);
            }
            append_i32_le(&mut buf, wl as i32);
            append_bytes(&mut buf, vstd::slice::slice_subrange(bytes, pair.0, pair.1));
            buf.push(0);
            proof {
                lemma_words_bytes_take(ws, k as int);
                assert(buf@ =~= header + spec_words_bytes(ws.take(k as int + 1)));
            }
            k = k + 1;
        }
        proof {
            assert(ws.take(ws.len() as int) =~= ws);
            assert((self.spec_packet_size() as int) == spec_bf3_packet_size(ws));
            assert(buf@ =~= self.spec_bytes());
        }
        buf
    }

    /// Reads one packet from the transport: the three header fields, then
    /// exactly `word_count` framed words, checking that the declared size
    /// accounts for what was read.
    ///
    /// Fails with [`Error::MalformedPacket`] when the type bits are
    /// outside the known encoding, a count or size field is impossible or
    /// beyond the allocation bound, the length accounting does not match,
    /// or the body is not valid text; such a failure proves the stream did
    /// not hold a well-formed packet. A transport failure surfaces as
    /// [`Error::Io`].
    pub fn deserialize<T: Transport>(r: &mut T) -> (res: Result<Btf3Packet, Error>)
        ensures
            final(r).written() == old(r).written(),
            final(r).slept() == old(r).slept(),
            match res {
                Ok(p) => {
                    &&& bf3_decodes_to(old(r).to_read(), p)
                    &&& final(r).to_read() == spec_bf3_rest(old(r).to_read())
                },
                Err(e) => e is Io || e is MalformedPacket,
            },
            (res matches Err(e) && e is MalformedPacket) ==> !spec_bf3_wire_ok(old(r).to_read()),
    {
        let ghost s = old(r).to_read();
        let seq_bytes = match r.read_exact(4) {
            Ok(v) => v,
            Err(e) => { return Err(Error::Io(e)) },
        };
        proof {
            assert(seq_bytes@ =~= s.subrange(0, 4));
        }
        let sequence = i32_of_le_vec(&seq_bytes);
        let kind = (sequence as u32) >> 29;
        let ptype = if kind <= 1 {
            PacketType::ExecCommand
        } else if kind <= 3 {
            PacketType::ResponseValue
        } else {
            return Err(Error::MalformedPacket);
        };
        let size_bytes = match r.read_exact(4) {
            Ok(v) => v,
            Err(e) => { return Err(Error::Io(e)) },
        };
        proof {
            assert(size_bytes@ =~= s.subrange(4, 8));
        }
        let packet_size = i32_of_le_vec(&size_bytes);
        let count_bytes = match r.read_exact(4) {
            Ok(v) => v,
            Err(e) => { return Err(Error::Io(e)) },
        };
        proof {
            assert(count_bytes@ =~= s.subrange(8, 12));
        }
        let word_count = i32_of_le_vec(&count_bytes);
        if word_count < 0 || word_count > MAX_WIRE_BODY as i32 {
            return Err(Error::MalformedPacket);
        }
        let count = word_count as usize;
        let ghost s12 = s.skip(12);
        proof {
            assert(r.to_read() =~= s12);
        }
        let mut body: Vec<u8> = Vec::new();
        let mut sum: u64 = 0;
        let ghost mut done: Seq<Seq<u8>> = Seq::empty();
        let mut k: usize = 0;
        proof {
            assert(done + Seq::<Seq<u8>>::empty() =~= done);
        }
        while k < count
            invariant
                k <= count,
                s == old(r).to_read(),
                s12 == s.skip(12),
                count == spec_bf3_count(s),
                count <= MAX_WIRE_BODY,
                r.written() == old(r).written(),
                r.slept() == old(r).slept(),
                done.len() == k as int,
                sum == spec_words_size(done),
                sum <= (k as int) * 1048581,
                k == 0 ==> body@ == Seq::<u8>::empty(),
                k > 0 ==> body@ == spec_join_words(done) + seq![32u8],
                match spec_parse_words(r.to_read(), count as int - k as int) {
                    Some((ws2, rem)) => spec_parse_words(s12, count as int) == Some(
                        (done + ws2, rem),
                    ),
                    None => spec_parse_words(s12, count as int) is None,
                },
            decreases count - k,
        {
            let ghost cur = r.to_read();
            let ghost n = count as int - k as int;
            let wl_bytes = match r.read_exact(4) {
                Ok(v) => v,
                Err(e) => { return Err(Error::Io(e)) },
            };
            proof {
                assert(wl_bytes@ =~= cur.subrange(0, 4));
            }
            let wlen = i32_of_le_vec(&wl_bytes);
            if wlen < 0 || wlen > MAX_WIRE_BODY as i32 {
                proof {
                    assert(spec_parse_words(cur, n) is None);
                }
                return Err(Error::MalformedPacket);
            }
            let word = match r.read_exact(wlen as usize) {
                Ok(v) => v,
                Err(e) => { return Err(Error::Io(e)) },
            };
            let _null = match r.read_exact(1) {
                Ok(v) => v,
                Err(e) => { return Err(Error::Io(e)) },
            };
            let ghost w = cur.subrange(4, 4 + wlen as int);
            proof {
                assert(word@ =~= w);
                assert(r.to_read() =~= cur.skip(5 + wlen as int));
            }
            append_bytes(&mut body, word.as_slice());
            body.push(32);
            proof {
                lemma_join_push(done, w);
                let new_done = done.push(w);
                assert(body@ =~= spec_join_words(new_done) + seq![32u8]);
                match spec_parse_words(r.to_read(), n - 1) {
                    Some((ws2, rem)) => {
                        assert(spec_parse_words(cur, n) == Some((seq![w] + ws2, rem)));
                        assert(done + (seq![w] + ws2) =~= new_done + ws2);
                    },
                    None => {
                        assert(spec_parse_words(cur, n) is None);
                    },
                }
                lemma_words_size_take(new_done, done.len() as int);
                assert(new_done.take(done.len() as int) =~= done);
                assert(new_done.take(done.len() as int + 1) =~= new_done);
                assert(sum as int + wlen as int + 5 <= (k as int + 1) * 1048581)
                    by (nonlinear_arith)
                    requires
                        sum as int <= (k as int) * 1048581,
                        0 <= wlen as int <= 1048576,
                ;
                assert((k as int + 1) * 1048581 <= 1048577 * 1048581) by (nonlinear_arith)
                    requires
                        k as int + 1 <= 1048577,
                ;
                done = new_done;
            }
            sum = sum + wlen as u64 + 5;
            k = k + 1;
        }
        proof {
            assert(spec_parse_words(r.to_read(), 0) == Some((Seq::<Seq<u8>>::empty(), r.to_read())));
            assert(done + Seq::<Seq<u8>>::empty() =~= done);
            assert(spec_parse_words(s12, count as int) == Some((done, r.to_read())));
            lemma_words_size_at_least(done);
            assert((k as int) * 1048581 <= 1048577 * 1048581) by (nonlinear_arith)
                requires
                    k as int <= 1048577,
            ;
        }
        if packet_size < 12 || sum != (packet_size - 12) as u64 {
            return Err(Error::MalformedPacket);
        }
        let _last = body.pop();
        proof {
            if k > 0 {
                assert((spec_join_words(done) + seq![32u8]).drop_last() =~= spec_join_words(done));
            } else {
                assert(spec_join_words(done) =~= Seq::<u8>::empty());
            }
            assert(body@ =~= spec_join_words(done));
        }
        let body_str = match bytes_to_string(body) {
            Some(b) => b,
            None => { return Err(Error::MalformedPacket) },
        };
        Ok(Btf3Packet { sequence, packet_size, word_count, body: body_str, ptype })
    }

    /// Writes this packet to the transport as one buffer.
    pub fn serialize<T: Transport>(&self, w: &mut T) -> (res: Result<(), TransportError>)
        requires
            self.wf(),
        ensures
            final(w).to_read() == old(w).to_read(),
            final(w).slept() == old(w).slept(),
            res is Ok ==> final(w).written() == old(w).written() + self.spec_bytes(),
    {
        let buf = self.encode();
        w.write_all(buf.as_slice())
    }
}

/// Decoding the encoding of a well-formed word-oriented packet yields
/// that packet back, and consumes exactly its bytes, whatever follows on
/// the stream. The body must already be in word-normal form (single
/// spaces, no leading or trailing whitespace), since the wire carries
/// words, not raw whitespace; and the type must be one the sequence bits
/// can carry back (`ExecCommand` or `ResponseValue`).
pub proof fn lemma_bf3_round_trip(p: Btf3Packet, rest: Seq<u8>)
    requires
        p.wf(),
        p.type_matches_sequence(),
        encode_utf8(p.spec_body()) == spec_join_words(spec_split_words(encode_utf8(p.spec_body()))),
        spec_bf3_packet_size(spec_split_words(encode_utf8(p.spec_body()))) <= MAX_WIRE_BODY as int,
    ensures
        bf3_decodes_to(p.spec_bytes() + rest, p),
        spec_bf3_rest(p.spec_bytes() + rest) == rest,
{
    let eb = encode_utf8(p.spec_body());
    let ws = spec_split_words(eb);
    let s = p.spec_bytes() + rest;
    lemma_i32_le_round_trip(p.spec_sequence());
    lemma_i32_le_round_trip((spec_bf3_packet_size(ws)) as i32);
    lemma_i32_le_round_trip(ws.len() as i32);
    lemma_words_size_at_least(ws);
    assert(s.subrange(0, 4) =~= spec_i32_le(p.spec_sequence()));
    assert(s.subrange(4, 8) =~= spec_i32_le(spec_bf3_packet_size(ws) as i32));
    assert(s.subrange(8, 12) =~= spec_i32_le(ws.len() as i32));
    assert(spec_bf3_seq(s) == p.spec_sequence());
    assert(spec_bf3_declared_size(s) == spec_bf3_packet_size(ws));
    assert(spec_bf3_count(s) == ws.len());
    assert(s.skip(12) =~= spec_words_bytes(ws) + rest);
    assert(forall|i: int|
        0 <= i < ws.len() ==> (#[trigger] ws[i]).len() <= MAX_WIRE_BODY as int) by {
        assert forall|i: int| 0 <= i < ws.len() implies (#[trigger] ws[i]).len()
            <= MAX_WIRE_BODY as int by {
            lemma_words_size_each(ws, i);
        }
    }
    lemma_parse_words_bytes(ws, rest);
    assert(spec_bf3_words_of(s) == ws);
    assert(spec_bf3_rest(s) == rest);
    vstd::utf8::encode_utf8_valid_utf8(p.spec_body());
    vstd::utf8::encode_utf8_decode_utf8(p.spec_body());
    assert(spec_join_words(ws) == eb);
}

/// The id advance rule of this variant: increment within the 14-bit id
/// field, wrapping back to the initial id when the field would overflow.
pub open spec fn spec_bf3_next_id(id: i32) -> i32 {
    if id >= BTF3_ID_MASK {
        BTF3_INITIAL_PACKET_ID
    } else {
        (id + 1) as i32
    }
}

/// Ids of a healthy connection stay within the sequence field's id bits,
/// advance monotonically, and wrap only at the field boundary.
pub proof fn lemma_bf3_id_advancement(id: i32)
    requires
        BTF3_INITIAL_PACKET_ID <= id <= BTF3_ID_MASK,
    ensures
        BTF3_INITIAL_PACKET_ID <= spec_bf3_next_id(id) <= BTF3_ID_MASK,
        id < BTF3_ID_MASK ==> spec_bf3_next_id(id) == id + 1,
        id == BTF3_ID_MASK ==> spec_bf3_next_id(id) == BTF3_INITIAL_PACKET_ID,
{
}

/// A client connection to a Battlefield 3 remote administration
/// interface: one response per request, login through the
/// `login.PlainText` command.
pub struct Btf3Connection<T> {
    stream: T,
    next_packet_id: i32,
}

impl<T: Transport> Btf3Connection<T> {
    pub closed spec fn spec_io(self) -> T {
        self.stream
    }

    pub closed spec fn spec_next_packet_id(self) -> i32 {
        self.next_packet_id
    }

    /// The id stays within the sequence field's id bits.
    pub open spec fn wf(self) -> bool {
        BTF3_INITIAL_PACKET_ID <= self.spec_next_packet_id() <= BTF3_ID_MASK
    }

    /// Performs the login handshake over an established byte stream. An
    /// empty password skips the exchange entirely; otherwise the
    /// `login.PlainText` command is run, and the connection stands only
    /// if the server's response carries "OK".
    pub fn handshake(io: T, password: &str) -> (res: Result<Btf3Connection<T>, Error>)
        ensures
            password@.len() == 0 ==> res is Ok,
            (res matches Err(e) && e is MalformedPacket) ==> !spec_bf3_wire_ok(io.to_read()),
            match res {
                Ok(conn) => {
                    &&& conn.wf()
                    &&& conn.spec_io().slept() == io.slept()
                    &&& if password@.len() == 0 {
                        &&& conn.spec_io().written() == io.written()
                        &&& conn.spec_io().to_read() == io.to_read()
                        &&& conn.spec_next_packet_id() == BTF3_INITIAL_PACKET_ID
                    } else {
                        &&& conn.spec_io().written() == io.written() + spec_bf3_packet_bytes(
                            BTF3_INITIAL_PACKET_ID,
                            spec_split_words(encode_utf8("login.PlainText "@ + password@)),
                        )
                        &&& spec_bf3_wire_ok(io.to_read())
                        &&& spec_bytes_contains(
                            spec_join_words(spec_bf3_words_of(io.to_read())),
                            seq![79u8, 75u8],
                        )
                        &&& conn.spec_io().to_read() == spec_bf3_rest(io.to_read())
                        &&& conn.spec_next_packet_id() == spec_bf3_next_id(BTF3_INITIAL_PACKET_ID)
                    }
                },
                Err(e) => {
                    &&& e is Auth || e is Io || e is MalformedPacket || e is CommandTooLong
                    &&& e is Auth ==> spec_bf3_wire_ok(io.to_read()) && !spec_bytes_contains(
                        spec_join_words(spec_bf3_words_of(io.to_read())),
                        seq![79u8, 75u8],
                    )
                    &&& e is CommandTooLong ==> encode_utf8("login.PlainText "@ + password@).len()
                        > BTF3_MAX_PAYLOAD_SIZE
                },
            },
    {
        let mut conn = Btf3Connection { stream: io, next_packet_id: BTF3_INITIAL_PACKET_ID };
        if password.is_empty() {
            return Ok(conn);
        }
        let login = String::from_str("login.PlainText ").concat(password);
        let response = match conn.cmd(login.as_str()) {
            Ok(s) => s,
            Err(e) => { return Err(e) },
        };
        let mut needle: Vec<u8> = Vec::new();
        needle.push(79);
        needle.push(75);
        proof {
            assert(needle@ =~= seq![79u8, 75u8]);
        }
        if bytes_contains(response.as_str().as_bytes(), needle.as_slice()) {
            proof {
                let words = spec_bf3_words_of(io.to_read());
                vstd::utf8::decode_utf8_encode_utf8(spec_join_words(words));
            }
            Ok(conn)
        } else {
            proof {
                let words = spec_bf3_words_of(io.to_read());
                vstd::utf8::decode_utf8_encode_utf8(spec_join_words(words));
            }
            Err(Error::Auth)
        }
    }

    /// Runs one command and returns the server's response text.
    ///
    /// A command longer than [`BTF3_MAX_PAYLOAD_SIZE`] bytes is rejected
    /// with [`Error::CommandTooLong`] before anything is sent, and
    /// exactly then: the connection is left untouched and stays usable.
    /// This variant expects one response packet per request.
    pub fn cmd(&mut self, command: &str) -> (res: Result<String, Error>)
        requires
            old(self).wf(),
        ensures
            final(self).wf(),
            (res matches Err(e) && e is CommandTooLong) <==> encode_utf8(command@).len()
                > BTF3_MAX_PAYLOAD_SIZE,
            (res matches Err(e) && e is CommandTooLong) ==> *final(self) == *old(self),
            final(self).spec_io().slept() == old(self).spec_io().slept(),
            (res matches Err(e) && e is MalformedPacket) ==> !spec_bf3_wire_ok(
                old(self).spec_io().to_read(),
            ),
            match res {
                Ok(s) => {
                    &&& final(self).spec_io().written() == old(self).spec_io().written()
                        + spec_bf3_packet_bytes(
                        old(self).spec_next_packet_id(),
                        spec_split_words(encode_utf8(command@)),
                    )
                    &&& final(self).spec_next_packet_id() == spec_bf3_next_id(
                        old(self).spec_next_packet_id(),
                    )
                    &&& spec_bf3_wire_ok(old(self).spec_io().to_read())
                    &&& s@ == decode_utf8(
                        spec_join_words(spec_bf3_words_of(old(self).spec_io().to_read())),
                    )
                    &&& final(self).spec_io().to_read() == spec_bf3_rest(
                        old(self).spec_io().to_read(),
                    )
                },
                Err(e) => e is CommandTooLong || e is Io || e is MalformedPacket,
            },
    {
        if command.as_bytes().len() > BTF3_MAX_PAYLOAD_SIZE {
            return Err(Error::CommandTooLong);
        }
        proof {
            lemma_words_size_bound(encode_utf8(command@));
        }
        let packet = Btf3Packet::new(
            self.next_packet_id,
            PacketType::ExecCommand,
            String::from_str(command),
        );
        let next = match self.send_packet(packet) {
            Ok(n) => n,
            Err(e) => { return Err(e) },
        };
        self.next_packet_id = next;
        self.receive_response()
    }

    /// Receives one response packet and hands out its body.
    fn receive_response(&mut self) -> (res: Result<String, Error>)
        ensures
            final(self).spec_next_packet_id() == old(self).spec_next_packet_id(),
            final(self).spec_io().written() == old(self).spec_io().written(),
            final(self).spec_io().slept() == old(self).spec_io().slept(),
            (res matches Err(e) && e is MalformedPacket) ==> !spec_bf3_wire_ok(
                old(self).spec_io().to_read(),
            ),
            match res {
                Ok(s) => {
                    &&& spec_bf3_wire_ok(old(self).spec_io().to_read())
                    &&& s@ == decode_utf8(
                        spec_join_words(spec_bf3_words_of(old(self).spec_io().to_read())),
                    )
                    &&& final(self).spec_io().to_read() == spec_bf3_rest(
                        old(self).spec_io().to_read(),
                    )
                },
                Err(e) => e is Io || e is MalformedPacket,
            },
    {
        let received_packet = match self.receive_packet() {
            Ok(p) => p,
            Err(e) => { return Err(e) },
        };
        Ok(String::from_str(received_packet.get_body()))
    }

    /// Serializes one packet onto the stream and hands back the id the
    /// connection should advance to.
    fn send_packet(&mut self, packet: Btf3Packet) -> (res: Result<i32, Error>)
        requires
            old(self).wf(),
            packet.wf(),
        ensures
            final(self).spec_next_packet_id() == old(self).spec_next_packet_id(),
            final(self).spec_io().to_read() == old(self).spec_io().to_read(),
            final(self).spec_io().slept() == old(self).spec_io().slept(),
            match res {
                Ok(n) => {
                    &&& n == spec_bf3_next_id(old(self).spec_next_packet_id())
                    &&& BTF3_INITIAL_PACKET_ID <= n <= BTF3_ID_MASK
                    &&& final(self).spec_io().written() == old(self).spec_io().written()
                        + packet.spec_bytes()
                },
                Err(e) => e is Io,
            },
    {
        let id = if self.next_packet_id >= BTF3_ID_MASK {
            BTF3_INITIAL_PACKET_ID
        } else {
            self.next_packet_id + 1
        };
        match packet.serialize(&mut self.stream) {
            Ok(()) => Ok(id),
            Err(e) => Err(Error::Io(e)),
        }
    }

    /// Hands the transport back, consuming the connection.
    pub fn into_inner(self) -> (t: T)
        ensures
            t == self.spec_io(),
    {
        self.stream
    }

    /// Reads the next packet from the stream.
    fn receive_packet(&mut self) -> (res: Result<Btf3Packet, Error>)
        ensures
            final(self).spec_next_packet_id() == old(self).spec_next_packet_id(),
            final(self).spec_io().written() == old(self).spec_io().written(),
            final(self).spec_io().slept() == old(self).spec_io().slept(),
            (res matches Err(e) && e is MalformedPacket) ==> !spec_bf3_wire_ok(
                old(self).spec_io().to_read(),
            ),
            match res {
                Ok(p) => {
                    &&& bf3_decodes_to(old(self).spec_io().to_read(), p)
                    &&& final(self).spec_io().to_read() == spec_bf3_rest(
                        old(self).spec_io().to_read(),
                    )
                },
                Err(e) => e is Io || e is MalformedPacket,
            },
    {
        Btf3Packet::deserialize(&mut self.stream)
    }
}

} // verus!
