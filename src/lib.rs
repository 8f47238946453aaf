//! An LZ77-family codec over 16-bit symbols with a bounded sliding window.
//!
//! Bytes are read as big-endian 16-bit symbols, the symbol sequence is
//! turned into (offset, length, literal) tokens by an earliest-match window
//! search, and the tokens are stored as three big-endian 16-bit words each.
//! Decoding groups the words back into tokens, chunk by chunk, and replays
//! them against a growing buffer.

mod symbols;
mod matcher;
mod container;
mod degroup;
mod reconstruct;
mod codec;

pub use symbols::{read_u16_vec, symbols_to_bytes, symbols_of, bytes_of};
pub use matcher::{find_tokens, tokens_from, step_token, earliest_from, extend_match, window_start, emitted_at, lemma_token_validity, lemma_step_token, WINDOW};
pub use container::{serialize_tokens, token_words, fits_word};
pub use degroup::{drain_to_tuple, drain_to_tuple_with, par_drain_to_tuple, largest_factor_under_val, triples_of, chunks_upto, chunked_triples, splits_evenly, is_largest_factor, lemma_degroup_worker_invariance};
pub use reconstruct::{apply_token, reconstruct, replay_from, apply_spec, valid_reference};
pub use codec::{encode, decode, container_words, decode_tokens, encoded_spec, decoded_spec, trim_padding, lemma_round_trip};

use vstd::prelude::*;

verus! {

/// One step of the token stream: copy `length` symbols from `offset`
/// symbols back, then append `literal`. `offset == 0 && length == 0` is a
/// bare literal.
#[derive(Clone, Copy, Debug, PartialEq, Eq, Structural)]
pub struct Token {
    pub offset: usize,
    pub length: usize,
    pub literal: u16,
}

impl Token {
    /// True when the token carries no back-reference.
    pub open spec fn is_literal_spec(self) -> bool {
        self.offset == 0 && self.length == 0
    }

    /// A token that only appends `literal`.
    pub fn literal(literal: u16) -> (r: Token)
        ensures
            r == (Token { offset: 0, length: 0, literal }),
    {
        Token { offset: 0, length: 0, literal }
    }

    /// True when the token carries no back-reference.
    pub fn is_literal(&self) -> (r: bool)
        ensures
            r == self.is_literal_spec(),
    {
        self.offset == 0 && self.length == 0
    }
}

/// The failures of encoding and decoding.
#[derive(Clone, Copy, Debug, PartialEq, Eq, Structural)]
pub enum CodecError {
    /// An offset or a length does not fit in a 16-bit word.
    EncodingOverflow,
    /// The container does not hold a whole number of tokens.
    MalformedContainer,
    /// The word stream cannot be split into equal chunks of whole tokens.
    IrregularTokenStream,
    /// A token refers back past the start of the output.
    InvalidBackReference,
}

} // verus!
