use vstd::prelude::*;
use vstd::arithmetic::div_mod::{lemma_small_mod, lemma_mod_sub_multiples_vanish};
use crate::{CodecError, Token};

verus! {

/// True when `t` can be replayed against an output of `len` symbols: it is
/// a bare literal, or it refers back at least one and at most `len` symbols.
pub open spec fn valid_reference(len: int, t: Token) -> bool {
    t.is_literal_spec() || (0 < t.offset && t.offset <= len)
}

/// The output after replaying `t`: the run of `length` symbols that starts
/// `offset` symbols back, read as the output grows, so that a run longer
/// than the offset repeats its last `offset` symbols; then the literal.
pub open spec fn apply_spec(out: Seq<u16>, t: Token) -> Seq<u16> {
    if t.is_literal_spec() {
        out.push(t.literal)
    } else {
        let start = out.len() - t.offset;
        (out + Seq::new(t.length as nat, |i: int| out[start + i % (t.offset as int)])).push(
            t.literal,
        )
    }
}

/// The output after replaying `ts` in order against `out`, or the error of
/// the first token that refers back too far.
pub open spec fn replay_from(out: Seq<u16>, ts: Seq<Token>) -> Result<Seq<u16>, CodecError>
    decreases ts.len(),
{
    if ts.len() == 0 {
        Ok(out)
    } else if valid_reference(out.len() as int, ts[0]) {
        replay_from(apply_spec(out, ts[0]), ts.drop_first())
    } else {
        Err(CodecError::InvalidBackReference)
    }
}

/// Replays one token against the output: copies its run one symbol at a
/// time, each read from the output as it stands, then appends the literal.
/// Fails with `InvalidBackReference`, leaving the output alone, when the
/// token refers back past the start or has a run with no offset.
pub fn apply_token(out: &mut Vec<u16>, t: Token) -> (r: Result<(), CodecError>)
    ensures
        r is Ok <==> valid_reference(old(out)@.len() as int, t),
        r is Ok ==> final(out)@ == apply_spec(old(out)@, t),
        r is Err ==> r->Err_0 == CodecError::InvalidBackReference && final(out)@ == old(out)@,
{
    if t.offset == 0 && t.length == 0 {
        out.push(t.literal);
        return Ok(());
    }
    let len0 = out.len();
    if t.offset == 0 || t.offset > len0 {
        return Err(CodecError::InvalidBackReference);
    }
    let ghost old_out = out@;
    let start = len0 - t.offset;
    let mut i: usize = 0;
    while i < t.length
        invariant
            len0 == old_out.len(),
            0 < t.offset <= len0,
            start == len0 - t.offset,
            i <= t.length,
            out@.len() == len0 + i,
            forall|k: int| 0 <= k < len0 ==> out@[k] == old_out[k],
            forall|k: int|
                0 <= k < i ==> #[trigger] out@[len0 + k] == old_out[start + k % (t.offset as int)],
        decreases t.length - i,
    {
        let cur = out.len();
        assert(start + i < cur);
        let v = out[start + i];
        proof {
            let off = t.offset as int;
            if (i as int) < off {
                lemma_small_mod(i as nat, off as nat);
            } else {
                lemma_mod_sub_multiples_vanish(i as int, off);
                assert(out@[len0 + (i - off)] == old_out[start + (i - off) % off]);
            }
            assert(v == old_out[start + (i as int) % off]);
        }
        out.push(v);
        i = i + 1;
    }
    let ghost run = Seq::new(t.length as nat, |k: int| old_out[start + k % (t.offset as int)]);
    assert forall|j: int| len0 <= j < out@.len() implies out@[j] == (old_out + run)[j] by {
        assert(out@[len0 + (j - len0)] == old_out[start + (j - len0) % (t.offset as int)]);
    }
    assert(out@ =~= old_out + Seq::new(
        t.length as nat,
        |k: int| old_out[start + k % (t.offset as int)],
    ));
    out.push(t.literal);
    Ok(())
}

/// Replays a token stream against an empty output.
pub fn reconstruct(tokens: &Vec<Token>) -> (r: Result<Vec<u16>, CodecError>)
    ensures
        r is Ok <==> replay_from(Seq::empty(), tokens@) is Ok,
        r is Ok ==> r->Ok_0@ == replay_from(Seq::empty(), tokens@)->Ok_0,
        r is Err ==> r->Err_0 == replay_from(Seq::empty(), tokens@)->Err_0,
{
    let mut out: Vec<u16> = Vec::new();
    let mut i: usize = 0;
    assert(tokens@.subrange(0, tokens@.len() as int) =~= tokens@);
    while i < tokens.len()
        invariant
            i <= tokens@.len(),
            replay_from(Seq::empty(), tokens@) == replay_from(
                out@,
                tokens@.subrange(i as int, tokens@.len() as int),
            ),
        decreases tokens@.len() - i,
    {
        let ghost rest = tokens@.subrange(i as int, tokens@.len() as int);
        proof {
            assert(rest[0] == tokens@[i as int]);
            assert(rest.drop_first() =~= tokens@.subrange(i + 1, tokens@.len() as int));
        }
        match apply_token(&mut out, tokens[i]) {
            Ok(()) => {},
            Err(e) => {
                return Err(e);
            },
        }
        i = i + 1;
    }
    Ok(out)
}

} // verus!
