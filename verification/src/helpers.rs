use vstd::arithmetic::div_mod::lemma_fundamental_div_mod_converse;
use vstd::prelude::*;

verus! {

/// Where chunk `i` of a sequence of length `len` ends, for chunks of
/// `chunk_size` elements: one past the last full chunk boundary, capped at
/// the end of the sequence.
pub open spec fn chunk_end(len: int, chunk_size: int, i: int) -> int {
    if (i + 1) * chunk_size <= len {
        (i + 1) * chunk_size
    } else {
        len
    }
}

/// Splits a vector into consecutive chunks of `chunk_size` elements; the
/// last chunk holds whatever remains and may be shorter.  Consumes the
/// vector, so the elements move instead of being cloned.
pub fn vec_chunks<T>(vec: Vec<T>, chunk_size: usize) -> (r: Vec<Vec<T>>)
    requires
        chunk_size >= 1,
    ensures
        r@.len() == (vec@.len() + chunk_size - 1) / (chunk_size as int),
        forall|i: int|
            0 <= i < r@.len() ==> #[trigger] r@[i]@ == vec@.subrange(
                i * (chunk_size as int),
                chunk_end(vec@.len() as int, chunk_size as int, i),
            ),
{
    let ghost all = vec@;
    let ghost cs = chunk_size as int;
    let total = vec.len();
    let mut rest = vec;
    let mut r: Vec<Vec<T>> = Vec::new();
    let mut taken: usize = 0;
    proof {
        assert(taken == r@.len() * cs) by (nonlinear_arith)
            requires
                taken == 0 && r@.len() == 0,
        ;
    }
    while rest.len() >= chunk_size
        invariant
            chunk_size >= 1,
            all.len() <= usize::MAX,
            taken + rest@.len() == all.len(),
            cs == chunk_size as int,
            taken == r@.len() * cs,
            rest@ == all.subrange(taken as int, all.len() as int),
            forall|i: int|
                0 <= i < r@.len() ==> #[trigger] r@[i]@ == all.subrange(
                    i * cs,
                    chunk_end(all.len() as int, cs, i),
                ),
        decreases rest@.len(),
    {
        let ghost j = r@.len() as int;
        let tail = rest.split_off(chunk_size);
        let chunk = rest;
        rest = tail;
        r.push(chunk);
        taken = taken + chunk_size;
        proof {
            assert((j + 1) * cs == j * cs + cs) by (nonlinear_arith);
            assert(chunk_end(all.len() as int, cs, j) == (j + 1) * cs);
            assert(r@[j]@ == all.subrange(j * cs, chunk_end(all.len() as int, cs, j)));
        }
    }
    let ghost q = r@.len() as int;
    if rest.len() > 0 {
        let ghost t = rest@.len() as int;
        proof {
            assert((q + 1) * cs == q * cs + cs) by (nonlinear_arith);
            assert(chunk_end(all.len() as int, cs, q) == all.len());
            assert(rest@ == all.subrange(q * cs, chunk_end(all.len() as int, cs, q)));
            lemma_fundamental_div_mod_converse(all.len() + cs - 1, cs, q + 1, t - 1);
        }
        r.push(rest);
    } else {
        proof {
            lemma_fundamental_div_mod_converse(all.len() + cs - 1, cs, q, cs - 1);
        }
    }
    r
}

} // verus!
