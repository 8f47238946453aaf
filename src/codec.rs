use vstd::prelude::*;
use crate::{CodecError, Token};
use crate::symbols::{symbols_of, bytes_of, read_u16_vec, symbols_to_bytes};
use crate::matcher::{tokens_from, step_token, emitted_at, find_tokens, lemma_step_token, lemma_token_at};
use crate::container::{token_words, fits_word, serialize_tokens};
use crate::degroup::{triples_of, par_drain_to_tuple};
use crate::reconstruct::{replay_from, apply_spec, valid_reference, reconstruct};

verus! {

/// The container that encodes the bytes `b`.
pub open spec fn encoded_spec(b: Seq<u8>) -> Seq<u8> {
    bytes_of(token_words(tokens_from(symbols_of(b), 0)))
}

/// Drops the padding byte of the last symbol when the original byte count
/// was odd.
pub open spec fn trim_padding(b: Seq<u8>, odd_length: bool) -> Seq<u8> {
    if odd_length && b.len() > 0 {
        b.drop_last()
    } else {
        b
    }
}

/// What decoding the container `c` gives: its words must form whole
/// tokens, and the tokens must replay without a bad back-reference.
pub open spec fn decoded_spec(c: Seq<u8>, odd_length: bool) -> Result<Seq<u8>, CodecError> {
    let w = symbols_of(c);
    if w.len() % 3 != 0 {
        Err(CodecError::MalformedContainer)
    } else {
        match replay_from(Seq::empty(), triples_of(w)) {
            Ok(s) => Ok(trim_padding(bytes_of(s), odd_length)),
            Err(e) => Err(e),
        }
    }
}

proof fn lemma_tokens_fit(s: Seq<u16>)
    ensures
        forall|i: int|
            0 <= i < tokens_from(s, 0).len() ==> fits_word(#[trigger] tokens_from(s, 0)[i]),
{
    assert forall|i: int| 0 <= i < tokens_from(s, 0).len() implies fits_word(
        #[trigger] tokens_from(s, 0)[i],
    ) by {
        lemma_token_at(s, 0, i);
        lemma_step_token(s, emitted_at(tokens_from(s, 0), i));
    }
}

/// Encodes bytes: reads them as symbols, finds the tokens, and stores them
/// as words. Never fails: a match never runs longer than its offset, and
/// an offset never exceeds the window.
pub fn encode(bytes: &[u8]) -> (r: Result<Vec<u8>, CodecError>)
    ensures
        r is Ok,
        r->Ok_0@ == encoded_spec(bytes@),
{
    let symbols = read_u16_vec(bytes);
    let tokens = find_tokens(&symbols);
    proof {
        lemma_tokens_fit(symbols@);
    }
    serialize_tokens(&tokens)
}

/// Reads a container as words. Fails with `MalformedContainer` when they
/// do not form whole tokens.
pub fn container_words(container: &[u8]) -> (r: Result<Vec<u16>, CodecError>)
    ensures
        r is Ok <==> symbols_of(container@).len() % 3 == 0,
        r is Ok ==> r->Ok_0@ == symbols_of(container@),
        r is Err ==> r->Err_0 == CodecError::MalformedContainer,
{
    let words = read_u16_vec(container);
    if words.len() % 3 != 0 {
        return Err(CodecError::MalformedContainer);
    }
    Ok(words)
}

/// Replays tokens against an empty output and writes the symbols out as
/// bytes, dropping the padding byte when `odd_length` is set.
pub fn decode_tokens(tokens: &Vec<Token>, odd_length: bool) -> (r: Result<Vec<u8>, CodecError>)
    ensures
        r is Ok <==> replay_from(Seq::empty(), tokens@) is Ok,
        r is Ok ==> r->Ok_0@ == trim_padding(
            bytes_of(replay_from(Seq::empty(), tokens@)->Ok_0),
            odd_length,
        ),
        r is Err ==> r->Err_0 == replay_from(Seq::empty(), tokens@)->Err_0,
{
    let symbols = match reconstruct(tokens) {
        Ok(s) => s,
        Err(e) => {
            return Err(e);
        },
    };
    let mut out = symbols_to_bytes(&symbols);
    if odd_length && out.len() > 0 {
        out.pop();
    }
    Ok(out)
}

/// Decodes a container: reads it as words, groups them into tokens, replays
/// them, and writes the symbols out as bytes. `odd_length` says that the
/// original byte count was odd, so that the padding byte of the last symbol
/// is dropped; the container itself does not record it. An empty container
/// decodes to no bytes.
pub fn decode(container: &[u8], odd_length: bool) -> (r: Result<Vec<u8>, CodecError>)
    ensures
        r is Ok <==> decoded_spec(container@, odd_length) is Ok,
        r is Ok ==> r->Ok_0@ == decoded_spec(container@, odd_length)->Ok_0,
        r is Err ==> r->Err_0 == decoded_spec(container@, odd_length)->Err_0,
{
    let words = match container_words(container) {
        Ok(w) => w,
        Err(e) => {
            return Err(e);
        },
    };
    let tokens = if words.len() == 0 {
        assert(triples_of(words@) =~= Seq::<Token>::empty());
        Vec::new()
    } else {
        match par_drain_to_tuple(&words) {
            Ok(t) => t,
            Err(e) => {
                return Err(e);
            },
        }
    };
    decode_tokens(&tokens, odd_length)
}

proof fn lemma_symbols_of_bytes(w: Seq<u16>)
    ensures
        symbols_of(bytes_of(w)) == w,
{
    let b = bytes_of(w);
    assert forall|i: int| 0 <= i < w.len() implies #[trigger] symbols_of(b)[i] == w[i] by {
        assert((2 * i) / 2 == i && (2 * i) % 2 == 0);
        assert((2 * i + 1) / 2 == i && (2 * i + 1) % 2 == 1);
        assert(b[2 * i] as int == w[i] as int / 256);
        assert(b[2 * i + 1] as int == w[i] as int % 256);
    }
    assert(symbols_of(b) =~= w);
}

proof fn lemma_bytes_of_symbols(b: Seq<u8>)
    ensures
        trim_padding(bytes_of(symbols_of(b)), b.len() % 2 == 1) == b,
{
    let s = symbols_of(b);
    let r = bytes_of(s);
    assert forall|j: int| 0 <= j < b.len() implies #[trigger] r[j] == b[j] by {
        let i = j / 2;
        assert(0 <= i < s.len());
        if j % 2 == 0 {
            assert(j == 2 * i);
        } else {
            assert(j == 2 * i + 1);
        }
    }
    if b.len() % 2 == 1 {
        assert(r.drop_last() =~= b);
    } else {
        assert(r =~= b);
    }
}

proof fn lemma_triples_of_words(ts: Seq<Token>)
    requires
        forall|i: int| 0 <= i < ts.len() ==> fits_word(#[trigger] ts[i]),
    ensures
        triples_of(token_words(ts)) == ts,
{
    let w = token_words(ts);
    assert forall|i: int| 0 <= i < ts.len() implies #[trigger] triples_of(w)[i] == ts[i] by {
        assert((3 * i) / 3 == i && (3 * i) % 3 == 0);
        assert((3 * i + 1) / 3 == i && (3 * i + 1) % 3 == 1);
        assert((3 * i + 2) / 3 == i && (3 * i + 2) % 3 == 2);
        assert(fits_word(ts[i]));
    }
    assert(triples_of(w) =~= ts);
}

proof fn lemma_replay_tokens(s: Seq<u16>, pos: int)
    requires
        0 <= pos <= s.len(),
    ensures
        replay_from(s.take(pos), tokens_from(s, pos)) == Ok::<Seq<u16>, CodecError>(s),
    decreases s.len() - pos,
{
    if pos == s.len() {
        assert(s.take(pos) =~= s);
    } else {
        let t = step_token(s, pos);
        lemma_step_token(s, pos);
        let next = pos + t.length + 1;
        lemma_replay_tokens(s, next);
        let ts = tokens_from(s, pos);
        assert(ts == seq![t] + tokens_from(s, next));
        assert(ts[0] == t);
        assert(ts.drop_first() =~= tokens_from(s, next));
        assert(valid_reference(pos, t));
        if t.is_literal_spec() {
            assert(apply_spec(s.take(pos), t) =~= s.take(next));
        } else {
            let off = t.offset as int;
            let start = pos - off;
            let run = Seq::new(t.length as nat, |i: int| s.take(pos)[start + i % off]);
            assert forall|i: int| 0 <= i < t.length implies #[trigger] run[i] == s[pos + i] by {
                vstd::arithmetic::div_mod::lemma_small_mod(i as nat, off as nat);
                assert(s[start + i] == s[pos + i]);
            }
            assert(apply_spec(s.take(pos), t) =~= s.take(next));
        }
    }
}

/// Decoding the container that encodes any bytes `b`, told whether their
/// count was odd, gives back `b`.
pub proof fn lemma_round_trip(b: Seq<u8>)
    ensures
        decoded_spec(encoded_spec(b), b.len() % 2 == 1) == Ok::<Seq<u8>, CodecError>(b),
{
    let s = symbols_of(b);
    let ts = tokens_from(s, 0);
    let w = token_words(ts);
    lemma_symbols_of_bytes(w);
    assert(w.len() % 3 == 0);
    lemma_tokens_fit(s);
    lemma_triples_of_words(ts);
    lemma_replay_tokens(s, 0);
    assert(s.take(0) =~= Seq::<u16>::empty());
    lemma_bytes_of_symbols(b);
}

} // verus!
