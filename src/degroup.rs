use vstd::prelude::*;
use vstd::arithmetic::div_mod::lemma_small_mod;
use crate::{CodecError, Token};

verus! {

/// The tokens of a flat word stream: each run of three words is an offset,
/// a length and a literal.
pub open spec fn triples_of(w: Seq<u16>) -> Seq<Token> {
    Seq::new(
        w.len() / 3,
        |i: int| Token { offset: w[3 * i] as usize, length: w[3 * i + 1] as usize, literal: w[3 * i + 2] },
    )
}

/// The tokens of the first `j` chunks of `w`, each `size` words long,
/// grouped chunk by chunk and joined in chunk order.
pub open spec fn chunks_upto(w: Seq<u16>, size: int, j: int) -> Seq<Token>
    decreases j,
{
    if j <= 0 {
        Seq::empty()
    } else {
        chunks_upto(w, size, j - 1) + triples_of(w.subrange((j - 1) * size, j * size))
    }
}

/// The tokens of `w` grouped by `workers` equal chunks and joined in chunk
/// order.
pub open spec fn chunked_triples(w: Seq<u16>, workers: int) -> Seq<Token> {
    chunks_upto(w, w.len() as int / workers, workers)
}

/// True when `w` is a non-empty stream of whole tokens that splits into
/// `workers` chunks of whole tokens.
pub open spec fn splits_evenly(w: Seq<u16>, workers: int) -> bool {
    &&& w.len() % 3 == 0
    &&& w.len() > 0
    &&& workers > 0
    &&& (w.len() as int / 3) % workers == 0
}

/// True when `k` is the largest divisor of `val` that is at most `limit`.
pub open spec fn is_largest_factor(val: int, limit: int, k: int) -> bool {
    &&& 1 <= k <= limit
    &&& val % k == 0
    &&& forall|j: int| k < j <= limit ==> #[trigger] (val % j) != 0
}

proof fn lemma_triples_concat(a: Seq<u16>, b: Seq<u16>)
    requires
        a.len() % 3 == 0,
    ensures
        triples_of(a + b) == triples_of(a) + triples_of(b),
{
    assert(triples_of(a + b) =~= triples_of(a) + triples_of(b));
}

proof fn lemma_chunks_upto(w: Seq<u16>, q: int, j: int)
    requires
        0 <= j,
        0 <= q,
        j * (3 * q) <= w.len(),
    ensures
        chunks_upto(w, 3 * q, j) == triples_of(w.subrange(0, j * (3 * q))),
    decreases j,
{
    if j == 0 {
        assert(j * (3 * q) == 0) by (nonlinear_arith)
            requires
                j == 0,
        ;
        assert(triples_of(w.subrange(0, 0)) =~= Seq::<Token>::empty());
    } else {
        let size = 3 * q;
        let lo = (j - 1) * size;
        let hi = j * size;
        assert(lo == hi - size && lo == 3 * ((j - 1) * q)) by (nonlinear_arith)
            requires
                lo == (j - 1) * size,
                hi == j * size,
                size == 3 * q,
        ;
        assert(0 <= lo) by (nonlinear_arith)
            requires
                lo == 3 * ((j - 1) * q),
                j >= 1,
                q >= 0,
        ;
        lemma_chunks_upto(w, q, j - 1);
        let a = w.subrange(0, lo);
        let b = w.subrange(lo, hi);
        assert(w.subrange(0, hi) =~= a + b);
        lemma_triples_concat(a, b);
    }
}

/// Grouping a word stream by any number of equal chunks of whole tokens,
/// and joining the groups in chunk order, gives the same tokens as grouping
/// it whole; so any two such worker counts give the same tokens.
pub proof fn lemma_degroup_worker_invariance(w: Seq<u16>, k1: int, k2: int)
    requires
        splits_evenly(w, k1),
        splits_evenly(w, k2),
    ensures
        chunked_triples(w, k1) == triples_of(w),
        chunked_triples(w, k1) == chunked_triples(w, k2),
{
    lemma_chunked_whole(w, k1);
    lemma_chunked_whole(w, k2);
}

proof fn lemma_chunked_whole(w: Seq<u16>, k: int)
    requires
        splits_evenly(w, k),
    ensures
        chunked_triples(w, k) == triples_of(w),
{
    let m = w.len() as int / 3;
    let q = m / k;
    assert(m == k * q) by (nonlinear_arith)
        requires
            m % k == 0,
            k > 0,
            q == m / k,
    ;
    assert(w.len() as int / k == 3 * q) by (nonlinear_arith)
        requires
            w.len() as int == 3 * m,
            m == k * q,
            k > 0,
    ;
    assert(k * (3 * q) == w.len() as int) by (nonlinear_arith)
        requires
            w.len() as int == 3 * m,
            m == k * q,
    ;
    lemma_chunks_upto(w, q, k);
    assert(w.subrange(0, w.len() as int) =~= w);
}

/// Groups one chunk of whole tokens into tokens, in order.
pub fn drain_to_tuple(chunk: &[u16]) -> (r: Vec<Token>)
    requires
        chunk@.len() % 3 == 0,
    ensures
        r@ == triples_of(chunk@),
{
    let n = chunk.len();
    let mut r: Vec<Token> = Vec::new();
    let mut pos: usize = 0;
    while pos < n
        invariant
            n == chunk@.len(),
            n % 3 == 0,
            pos % 3 == 0,
            pos <= n,
            r@.len() == pos / 3,
            forall|i: int| 0 <= i < pos / 3 ==> r@[i] == triples_of(chunk@)[i],
        decreases n - pos,
    {
        r.push(
            Token {
                offset: chunk[pos] as usize,
                length: chunk[pos + 1] as usize,
                literal: chunk[pos + 2],
            },
        );
        pos = pos + 3;
    }
    assert(r@ =~= triples_of(chunk@));
    r
}

/// The largest divisor of `val` that is at most `limit`; `None` when `val`
/// or `limit` is zero, where there is none.
pub fn largest_factor_under_val(val: usize, limit: usize) -> (r: Option<usize>)
    ensures
        r is None <==> (val == 0 || limit == 0),
        r is Some ==> is_largest_factor(val as int, limit as int, r->Some_0 as int),
{
    if val == 0 || limit == 0 {
        return None;
    }
    let mut k: usize = if val < limit { val } else { limit };
    proof {
        assert forall|j: int| k < j <= limit implies #[trigger] (val as int % j) != 0 by {
            lemma_small_mod(val as nat, j as nat);
        }
    }
    while val % k != 0
        invariant
            1 <= k <= limit,
            k <= val,
            forall|j: int| k < j <= limit ==> #[trigger] (val as int % j) != 0,
        decreases k,
    {
        k = k - 1;
    }
    Some(k)
}

/// Groups a flat word stream into tokens with `workers` equal chunks,
/// grouped one by one and joined in chunk order. Fails with
/// `IrregularTokenStream` when the stream does not split that way.
pub fn drain_to_tuple_with(words: &Vec<u16>, workers: usize) -> (r: Result<Vec<Token>, CodecError>)
    ensures
        r is Ok <==> splits_evenly(words@, workers as int),
        r is Ok ==> r->Ok_0@ == chunked_triples(words@, workers as int),
        r is Err ==> r->Err_0 == CodecError::IrregularTokenStream,
{
    let n = words.len();
    if n % 3 != 0 || n == 0 || workers == 0 || (n / 3) % workers != 0 {
        return Err(CodecError::IrregularTokenStream);
    }
    let size = n / workers;
    let ghost q = (n as int / 3) / (workers as int);
    proof {
        assert(n as int / 3 == workers * q) by (nonlinear_arith)
            requires
                (n as int / 3) % (workers as int) == 0,
                workers > 0,
                q == (n as int / 3) / (workers as int),
        ;
        assert(size == 3 * q && workers * size == n) by (nonlinear_arith)
            requires
                n % 3 == 0,
                n as int / 3 == workers * q,
                workers > 0,
                size == n as int / (workers as int),
        ;
    }
    let mut r: Vec<Token> = Vec::new();
    let mut j: usize = 0;
    let mut start: usize = 0;
    while j < workers
        invariant
            n == words@.len(),
            size == n as int / (workers as int),
            size == 3 * q,
            workers * size == n,
            j <= workers,
            start == j * size,
            r@ == chunks_upto(words@, size as int, j as int),
        decreases workers - j,
    {
        proof {
            assert((j + 1) * size <= workers * size) by (nonlinear_arith)
                requires
                    j < workers,
            ;
            assert((j + 1) * size == j * size + size) by (nonlinear_arith);
            assert(size % 3 == 0);
        }
        let chunk = vstd::slice::slice_subrange(words.as_slice(), start, start + size);
        let mut part = drain_to_tuple(chunk);
        r.append(&mut part);
        start = start + size;
        j = j + 1;
    }
    Ok(r)
}

/// Groups a flat word stream into tokens with as many chunks as the largest
/// divisor, at most 100, of its token count. Fails with
/// `IrregularTokenStream` when the stream is empty or holds a partial token.
pub fn par_drain_to_tuple(words: &Vec<u16>) -> (r: Result<Vec<Token>, CodecError>)
    ensures
        r is Ok <==> (words@.len() % 3 == 0 && words@.len() > 0),
        r is Ok ==> r->Ok_0@ == triples_of(words@),
        r is Err ==> r->Err_0 == CodecError::IrregularTokenStream,
{
    let n = words.len();
    if n % 3 != 0 {
        return Err(CodecError::IrregularTokenStream);
    }
    match largest_factor_under_val(n / 3, 100) {
        None => Err(CodecError::IrregularTokenStream),
        Some(workers) => {
            let r = drain_to_tuple_with(words, workers);
            proof {
                if r is Ok {
                    lemma_chunked_whole(words@, workers as int);
                }
            }
            r
        },
    }
}

} // verus!
