use vstd::prelude::*;
use crate::{CodecError, Token};
use crate::symbols::{bytes_of, symbols_to_bytes};

verus! {

/// True when the token's offset and length each fit in a 16-bit word.
pub open spec fn fits_word(t: Token) -> bool {
    t.offset <= u16::MAX && t.length <= u16::MAX
}

/// The words of a token stream: offset, length and literal of each token,
/// in order.
pub open spec fn token_words(ts: Seq<Token>) -> Seq<u16> {
    Seq::new(
        3 * ts.len(),
        |j: int|
            if j % 3 == 0 {
                ts[j / 3].offset as u16
            } else if j % 3 == 1 {
                ts[j / 3].length as u16
            } else {
                ts[j / 3].literal
            },
    )
}

/// Stores tokens as three big-endian 16-bit words each. Fails with
/// `EncodingOverflow`, writing nothing, when some offset or length does not
/// fit in a word.
pub fn serialize_tokens(tokens: &Vec<Token>) -> (r: Result<Vec<u8>, CodecError>)
    ensures
        r is Ok <==> forall|i: int| 0 <= i < tokens@.len() ==> fits_word(#[trigger] tokens@[i]),
        r is Ok ==> r->Ok_0@ == bytes_of(token_words(tokens@)),
        r is Err ==> r->Err_0 == CodecError::EncodingOverflow,
{
    let mut words: Vec<u16> = Vec::new();
    let mut i: usize = 0;
    while i < tokens.len()
        invariant
            i <= tokens@.len(),
            words@.len() == 3 * i,
            forall|k: int| 0 <= k < i ==> fits_word(#[trigger] tokens@[k]),
            forall|j: int| 0 <= j < 3 * i ==> words@[j] == token_words(tokens@)[j],
        decreases tokens@.len() - i,
    {
        let t = tokens[i];
        if t.offset > 0xFFFF || t.length > 0xFFFF {
            return Err(CodecError::EncodingOverflow);
        }
        words.push(t.offset as u16);
        words.push(t.length as u16);
        words.push(t.literal);
        proof {
            assert forall|j: int| 0 <= j < 3 * (i + 1) implies words@[j] == token_words(
                tokens@,
            )[j] by {
                if j >= 3 * i {
                    assert(j / 3 == i);
                }
            }
        }
        i = i + 1;
    }
    assert(words@ =~= token_words(tokens@));
    Ok(symbols_to_bytes(&words))
}

} // verus!
