use vstd::prelude::*;
use crate::Token;

verus! {

/// How far back, in symbols, the encoder searches for a match.
pub const WINDOW: usize = 4000;

/// The oldest position that the search at `pos` may look at.
pub open spec fn window_start(pos: int) -> int {
    if pos <= WINDOW {
        0
    } else {
        pos - WINDOW
    }
}

/// The smallest candidate `c'` with `c <= c' < pos` whose symbol equals the
/// one at `pos`, if any.
pub open spec fn earliest_from(s: Seq<u16>, pos: int, c: int) -> Option<int>
    decreases pos - c,
{
    if c >= pos {
        None
    } else if s[c] == s[pos] {
        Some(c)
    } else {
        earliest_from(s, pos, c + 1)
    }
}

/// The length of the match between `pos` and the earlier candidate `c`,
/// grown from `len`: it stops before reaching `pos` from the candidate side,
/// and leaves at least one symbol after the run for the literal.
pub open spec fn extend_match(s: Seq<u16>, pos: int, c: int, len: int) -> int
    decreases pos - c - len,
{
    if c + len < pos && pos + len + 1 < s.len() && s[pos + len] == s[c + len] {
        extend_match(s, pos, c, len + 1)
    } else {
        len
    }
}

/// The token emitted at `pos`: a match with the earliest equal symbol in
/// the window, or a bare literal when there is none or `pos` is the last
/// symbol.
pub open spec fn step_token(s: Seq<u16>, pos: int) -> Token {
    if pos + 1 < s.len() {
        match earliest_from(s, pos, window_start(pos)) {
            Some(c) => {
                let len = extend_match(s, pos, c, 1);
                Token { offset: (pos - c) as usize, length: len as usize, literal: s[pos + len] }
            },
            None => Token { offset: 0, length: 0, literal: s[pos] },
        }
    } else {
        Token { offset: 0, length: 0, literal: s[pos] }
    }
}

/// The tokens that encode `s` from position `pos` on.
pub open spec fn tokens_from(s: Seq<u16>, pos: int) -> Seq<Token>
    decreases s.len() - pos,
{
    if pos < 0 || pos >= s.len() {
        Seq::empty()
    } else {
        let t = step_token(s, pos);
        proof {
            lemma_step_token(s, pos);
        }
        seq![t] + tokens_from(s, pos + t.length + 1)
    }
}

/// The number of symbols that the tokens before index `i` stand for: the
/// position at which token `i` was emitted.
pub open spec fn emitted_at(ts: Seq<Token>, i: int) -> int
    decreases i,
{
    if i <= 0 {
        0
    } else {
        emitted_at(ts, i - 1) + ts[i - 1].length + 1
    }
}

proof fn lemma_earliest_from(s: Seq<u16>, pos: int, c: int)
    requires
        0 <= c,
        pos < s.len(),
    ensures
        match earliest_from(s, pos, c) {
            Some(e) => c <= e < pos && s[e] == s[pos] && forall|k: int|
                c <= k < e ==> s[k] != s[pos],
            None => forall|k: int| c <= k < pos ==> s[k] != s[pos],
        },
    decreases pos - c,
{
    if c < pos && s[c] != s[pos] {
        lemma_earliest_from(s, pos, c + 1);
    }
}

proof fn lemma_extend_match(s: Seq<u16>, pos: int, c: int, len: int)
    requires
        0 <= c,
        1 <= len,
        c + len <= pos,
        pos + len < s.len(),
        forall|k: int| 0 <= k < len ==> #[trigger] s[c + k] == s[pos + k],
    ensures
        len <= extend_match(s, pos, c, len),
        c + extend_match(s, pos, c, len) <= pos,
        pos + extend_match(s, pos, c, len) < s.len(),
        forall|k: int| 0 <= k < extend_match(s, pos, c, len) ==> #[trigger] s[c + k] == s[pos + k],
    decreases pos - c - len,
{
    if c + len < pos && pos + len + 1 < s.len() && s[pos + len] == s[c + len] {
        lemma_extend_match(s, pos, c, len + 1);
    }
}

/// What holds of the token emitted at `pos`: a back-reference reaches at
/// most `WINDOW` symbols and never before the start, its run lies before
/// `pos` and matches the symbols at `pos`, and the literal is the symbol
/// after the run.
pub proof fn lemma_step_token(s: Seq<u16>, pos: int)
    requires
        0 <= pos < s.len(),
    ensures
        ({
            let t = step_token(s, pos);
            &&& t.is_literal_spec() ==> t.literal == s[pos]
            &&& !t.is_literal_spec() ==> {
                &&& 1 <= t.length <= t.offset <= WINDOW
                &&& t.offset <= pos
                &&& pos + t.length < s.len()
                &&& forall|k: int| 0 <= k < t.length ==> #[trigger] s[pos - t.offset + k] == s[pos + k]
                &&& t.literal == s[pos + t.length]
            }
        }),
{
    if pos + 1 < s.len() {
        let lo = window_start(pos);
        lemma_earliest_from(s, pos, lo);
        match earliest_from(s, pos, lo) {
            Some(c) => {
                lemma_extend_match(s, pos, c, 1);
            },
            None => {},
        }
    }
}

/// Every back-reference token that the encoder emits reaches at most
/// `WINDOW` symbols back, and no further back than the position at which
/// it was emitted.
pub proof fn lemma_token_validity(s: Seq<u16>, i: int)
    requires
        0 <= i < tokens_from(s, 0).len(),
        tokens_from(s, 0)[i].offset > 0,
    ensures
        tokens_from(s, 0)[i].offset <= WINDOW,
        tokens_from(s, 0)[i].offset <= emitted_at(tokens_from(s, 0), i),
{
    lemma_token_at(s, 0, i);
    lemma_step_token(s, emitted_at(tokens_from(s, 0), i));
}

/// The token at index `i` of the encoding from `pos` is the step taken at
/// `pos` plus the symbols covered by the tokens before it.
pub(crate) proof fn lemma_token_at(s: Seq<u16>, pos: int, i: int)
    requires
        0 <= pos <= s.len(),
        0 <= i < tokens_from(s, pos).len(),
    ensures
        0 <= emitted_at(tokens_from(s, pos), i),
        pos + emitted_at(tokens_from(s, pos), i) < s.len(),
        tokens_from(s, pos)[i] == step_token(s, pos + emitted_at(tokens_from(s, pos), i)),
    decreases i,
{
    let t = step_token(s, pos);
    lemma_step_token(s, pos);
    let next = pos + t.length + 1;
    let ts = tokens_from(s, pos);
    let rest = tokens_from(s, next);
    assert(ts == seq![t] + rest);
    lemma_emitted_shift(t, rest, i);
    if i == 0 {
        assert(ts[0] == t);
    } else {
        lemma_token_at(s, next, i - 1);
        assert(ts[i] == rest[i - 1]);
    }
}

proof fn lemma_emitted_shift(t: Token, rest: Seq<Token>, i: int)
    requires
        0 <= i <= rest.len(),
    ensures
        i >= 1 ==> emitted_at(seq![t] + rest, i) == t.length + 1 + emitted_at(rest, i - 1),
        i == 0 ==> emitted_at(seq![t] + rest, i) == 0,
    decreases i,
{
    let ts = seq![t] + rest;
    if i == 1 {
        assert(ts[0] == t);
        assert(emitted_at(ts, 1) == emitted_at(ts, 0) + ts[0].length + 1);
    } else if i >= 2 {
        lemma_emitted_shift(t, rest, i - 1);
        assert(ts[i - 1] == rest[i - 2]);
        assert(emitted_at(rest, i - 1) == emitted_at(rest, i - 2) + rest[i - 2].length + 1);
    }
}

/// Encodes a symbol sequence as tokens, scanning each window from its
/// oldest position and taking the first equal symbol.
pub fn find_tokens(s: &Vec<u16>) -> (r: Vec<Token>)
    ensures
        r@ == tokens_from(s@, 0),
{
    let n = s.len();
    let mut r: Vec<Token> = Vec::new();
    let mut pos: usize = 0;
    while pos < n
        invariant
            n == s@.len(),
            pos <= n,
            tokens_from(s@, 0) == r@ + tokens_from(s@, pos as int),
        decreases n - pos,
    {
        proof {
            lemma_step_token(s@, pos as int);
        }
        let mut t = Token::literal(s[pos]);
        if pos + 1 < n {
            let lo: usize = if pos <= WINDOW { 0 } else { pos - WINDOW };
            let mut c: usize = lo;
            while c < pos
                invariant_except_break
                    t == (Token { offset: 0, length: 0, literal: s@[pos as int] }),
                invariant
                    n == s@.len(),
                    pos + 1 < n,
                    lo <= c <= pos,
                    lo == window_start(pos as int),
                    earliest_from(s@, pos as int, lo as int) == earliest_from(
                        s@,
                        pos as int,
                        c as int,
                    ),
                ensures
                    t == step_token(s@, pos as int),
                decreases pos - c,
            {
                if s[c] == s[pos] {
                    let mut len: usize = 1;
                    proof {
                        lemma_extend_match(s@, pos as int, c as int, 1);
                    }
                    while c + len < pos && pos + len + 1 < n && s[pos + len] == s[c + len]
                        invariant
                            n == s@.len(),
                            c < pos,
                            pos + 1 < n,
                            1 <= len,
                            c + len <= pos,
                            pos + len < n,
                            extend_match(s@, pos as int, c as int, 1) == extend_match(
                                s@,
                                pos as int,
                                c as int,
                                len as int,
                            ),
                        decreases pos - c - len,
                    {
                        len = len + 1;
                    }
                    proof {
                        lemma_extend_match(s@, pos as int, c as int, len as int);
                    }
                    t = Token { offset: pos - c, length: len, literal: s[pos + len] };
                    break;
                }
                c = c + 1;
            }
        }
        assert(t == step_token(s@, pos as int));
        let ghost old_pos = pos;
        r.push(t);
        pos = pos + t.length + 1;
        proof {
            assert(tokens_from(s@, old_pos as int) == seq![t] + tokens_from(s@, pos as int));
            assert(tokens_from(s@, 0) =~= r@ + tokens_from(s@, pos as int));
        }
    }
    proof {
        assert(tokens_from(s@, pos as int) == Seq::<Token>::empty());
        assert(r@ =~= r@ + Seq::<Token>::empty());
    }
    r
}

} // verus!
