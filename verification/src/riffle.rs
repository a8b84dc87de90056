use crate::pcg::{pcg_advance_n, PCG};
use vstd::prelude::*;

verus! {

/// How many flips in `f` are true.
pub open spec fn count_true(f: Seq<bool>) -> nat
    decreases f.len(),
{
    if f.len() == 0 {
        0
    } else {
        (if f[0] {
            1nat
        } else {
            0nat
        }) + count_true(f.drop_first())
    }
}

/// The cards of `s` whose own flip equals `keep`, in their original
/// relative order: the "heads" stream for `keep == true`, the "tails"
/// stream for `keep == false`.
pub open spec fn flip_stream(s: Seq<i32>, f: Seq<bool>, keep: bool) -> Seq<i32>
    decreases s.len(),
{
    if s.len() == 0 || f.len() == 0 {
        Seq::empty()
    } else {
        let rest = flip_stream(s.drop_first(), f.drop_first(), keep);
        if f[0] == keep {
            seq![s[0]] + rest
        } else {
            rest
        }
    }
}

/// One riffle pass: the deck is partitioned into the heads and tails
/// streams by each card's own flip, and rebuilt by emitting, at every
/// position, the next unconsumed element of the stream that position's
/// flip selects.
pub open spec fn spec_riffle(s: Seq<i32>, f: Seq<bool>) -> Seq<i32> {
    Seq::new(
        s.len(),
        |i: int|
            if f[i] {
                flip_stream(s, f, true)[count_true(f.take(i)) as int]
            } else {
                flip_stream(s, f, false)[i - count_true(f.take(i))]
            },
    )
}

proof fn lemma_count_true_concat(x: Seq<bool>, y: Seq<bool>)
    ensures
        count_true(x + y) == count_true(x) + count_true(y),
    decreases x.len(),
{
    if x.len() == 0 {
        assert(x + y =~= y);
    } else {
        assert((x + y).drop_first() =~= x.drop_first() + y);
        lemma_count_true_concat(x.drop_first(), y);
    }
}

proof fn lemma_count_true_bound(f: Seq<bool>)
    ensures
        count_true(f) <= f.len(),
    decreases f.len(),
{
    if f.len() > 0 {
        lemma_count_true_bound(f.drop_first());
    }
}

proof fn lemma_count_true_take_succ(f: Seq<bool>, i: int)
    requires
        0 <= i < f.len(),
    ensures
        count_true(f.take(i + 1)) == count_true(f.take(i)) + (if f[i] {
            1nat
        } else {
            0nat
        }),
{
    assert(f.take(i + 1) =~= f.take(i) + seq![f[i]]);
    lemma_count_true_concat(f.take(i), seq![f[i]]);
    assert(seq![f[i]].drop_first() =~= Seq::<bool>::empty());
    assert(count_true(Seq::<bool>::empty()) == 0);
    assert(count_true(seq![f[i]]) == (if f[i] {
        1nat
    } else {
        0nat
    }));
}

/// Stream lengths: the heads stream holds one card per true flip, the
/// tails stream the rest.
pub proof fn lemma_stream_len(s: Seq<i32>, f: Seq<bool>)
    requires
        s.len() == f.len(),
    ensures
        count_true(f) <= f.len(),
        flip_stream(s, f, true).len() == count_true(f),
        flip_stream(s, f, false).len() == f.len() - count_true(f),
    decreases s.len(),
{
    if s.len() > 0 {
        lemma_stream_len(s.drop_first(), f.drop_first());
    }
}

proof fn lemma_stream_select(s: Seq<i32>, f: Seq<bool>, i: int)
    requires
        s.len() == f.len(),
        0 <= i < s.len(),
    ensures
        count_true(f.take(i)) <= i,
        f[i] ==> count_true(f.take(i)) < flip_stream(s, f, true).len() && flip_stream(
            s,
            f,
            true,
        )[count_true(f.take(i)) as int] == s[i],
        !f[i] ==> i - count_true(f.take(i)) < flip_stream(s, f, false).len() && flip_stream(
            s,
            f,
            false,
        )[i - count_true(f.take(i))] == s[i],
    decreases i,
{
    lemma_count_true_bound(f.take(i));
    lemma_stream_len(s, f);
    if i == 0 {
        assert(f.take(0) =~= Seq::<bool>::empty());
    } else {
        let sd = s.drop_first();
        let fd = f.drop_first();
        lemma_stream_select(sd, fd, i - 1);
        assert(f.take(i) =~= seq![f[0]] + fd.take(i - 1));
        lemma_count_true_concat(seq![f[0]], fd.take(i - 1));
        assert(seq![f[0]].drop_first() =~= Seq::<bool>::empty());
        assert(count_true(Seq::<bool>::empty()) == 0);
        assert(count_true(f.take(i)) == count_true(fd.take(i - 1)) + (if f[0] {
            1nat
        } else {
            0nat
        }));
        assert(f[i] == fd[i - 1]);
        assert(s[i] == sd[i - 1]);
    }
}

/// Recombining the two streams by the very flip sequence that formed
/// them restores the deck: the riffle pass is the identity permutation.
pub proof fn lemma_riffle_identity(s: Seq<i32>, f: Seq<bool>)
    requires
        s.len() == f.len(),
    ensures
        spec_riffle(s, f) == s,
{
    assert forall|i: int| 0 <= i < s.len() implies spec_riffle(s, f)[i] == s[i] by {
        lemma_stream_select(s, f, i);
    }
    assert(spec_riffle(s, f) =~= s);
}

/// Splits the deck into the heads and tails streams: each card goes by
/// its own flip, keeping the original relative order.
pub fn split_streams(deck: &Vec<i32>, flips: &Vec<bool>) -> (r: (Vec<i32>, Vec<i32>))
    requires
        flips@.len() == deck@.len(),
    ensures
        r.0@ == flip_stream(deck@, flips@, true),
        r.1@ == flip_stream(deck@, flips@, false),
{
    let ghost s = deck@;
    let ghost f = flips@;
    let size = deck.len();
    let mut heads: Vec<i32> = Vec::new();
    let mut tails: Vec<i32> = Vec::new();
    for i in 0..size
        invariant
            s.len() == size,
            f.len() == size,
            deck@ == s,
            flips@ == f,
            heads@ == flip_stream(s.take(i as int), f.take(i as int), true),
            tails@ == flip_stream(s.take(i as int), f.take(i as int), false),
    {
        proof {
            lemma_stream_push(s.take(i as int), f.take(i as int), s[i as int], f[i as int], true);
            lemma_stream_push(s.take(i as int), f.take(i as int), s[i as int], f[i as int], false);
            assert(s.take(i + 1) =~= s.take(i as int).push(s[i as int]));
            assert(f.take(i + 1) =~= f.take(i as int).push(f[i as int]));
        }
        if flips[i] {
            heads.push(deck[i]);
        } else {
            tails.push(deck[i]);
        }
    }
    proof {
        assert(s.take(size as int) =~= s);
        assert(f.take(size as int) =~= f);
    }
    (heads, tails)
}

proof fn lemma_stream_push(s: Seq<i32>, f: Seq<bool>, x: i32, b: bool, keep: bool)
    requires
        s.len() == f.len(),
    ensures
        flip_stream(s.push(x), f.push(b), keep) == (if b == keep {
            flip_stream(s, f, keep).push(x)
        } else {
            flip_stream(s, f, keep)
        }),
    decreases s.len(),
{
    if s.len() == 0 {
        assert(s.push(x).drop_first() =~= Seq::<i32>::empty());
        assert(f.push(b).drop_first() =~= Seq::<bool>::empty());
        assert(flip_stream(Seq::<i32>::empty(), Seq::<bool>::empty(), keep) == Seq::<i32>::empty());
        assert(f.push(b)[0] == b);
        assert(s.push(x)[0] == x);
        if b == keep {
            assert(flip_stream(s.push(x), f.push(b), keep) == seq![x] + Seq::<i32>::empty());
            assert(seq![x] + Seq::<i32>::empty() =~= flip_stream(s, f, keep).push(x));
        } else {
            assert(flip_stream(s.push(x), f.push(b), keep) =~= flip_stream(s, f, keep));
        }
    } else {
        lemma_stream_push(s.drop_first(), f.drop_first(), x, b, keep);
        assert(s.push(x).drop_first() =~= s.drop_first().push(x));
        assert(f.push(b).drop_first() =~= f.drop_first().push(b));
        let rest = flip_stream(s.drop_first(), f.drop_first(), keep);
        assert(f.push(b)[0] == f[0]);
        assert(s.push(x)[0] == s[0]);
        if f[0] == keep {
            assert(flip_stream(s, f, keep) == seq![s[0]] + rest);
            if b == keep {
                assert(flip_stream(s.push(x), f.push(b), keep) == seq![s[0]] + rest.push(x));
                assert(seq![s[0]] + rest.push(x) =~= (seq![s[0]] + rest).push(x));
            } else {
                assert(flip_stream(s.push(x), f.push(b), keep) == seq![s[0]] + rest);
            }
        } else {
            assert(flip_stream(s, f, keep) == rest);
            if b == keep {
                assert(flip_stream(s.push(x), f.push(b), keep) == rest.push(x));
            } else {
                assert(flip_stream(s.push(x), f.push(b), keep) == rest);
            }
        }
    }
}

/// One riffle pass with an explicit flip sequence: partition by flip,
/// then rebuild in flip order.  The rebuilt deck is exactly
/// `spec_riffle`, which provably equals the original deck.
pub fn riffle_pass(deck: &mut Vec<i32>, flips: &Vec<bool>)
    requires
        flips@.len() == old(deck)@.len(),
    ensures
        final(deck)@ == spec_riffle(old(deck)@, flips@),
        final(deck)@ == old(deck)@,
{
    let ghost s = deck@;
    let ghost f = flips@;
    let (heads, tails) = split_streams(deck, flips);
    let size = deck.len();
    let mut result: Vec<i32> = Vec::new();
    let mut hi: usize = 0;
    let mut ti: usize = 0;
    for i in 0..size
        invariant
            s.len() == size,
            f.len() == size,
            deck@ == s,
            flips@ == f,
            heads@ == flip_stream(s, f, true),
            tails@ == flip_stream(s, f, false),
            hi == count_true(f.take(i as int)),
            hi + ti == i,
            result@.len() == i,
            forall|j: int| 0 <= j < i ==> #[trigger] result@[j] == spec_riffle(s, f)[j],
    {
        proof {
            lemma_stream_select(s, f, i as int);
            lemma_count_true_take_succ(f, i as int);
        }
        if flips[i] {
            let v = heads[hi];
            result.push(v);
            hi = hi + 1;
        } else {
            let v = tails[ti];
            result.push(v);
            ti = ti + 1;
        }
    }
    proof {
        lemma_riffle_identity(s, f);
        assert(result@ =~= spec_riffle(s, f));
    }
    *deck = result;
}

/// Repeats the riffle pass `riffle_count` times, drawing one flip per
/// card position from the engine each pass.  The engine advances by
/// exactly one draw per flip; the deck, partitioned and recombined by
/// the same flips, comes back unchanged.
pub fn riffle_shuffle(deck: &mut Vec<i32>, pcg: &mut PCG, riffle_count: usize)
    ensures
        final(deck)@ == old(deck)@,
        final(deck)@.to_multiset() == old(deck)@.to_multiset(),
        final(pcg)@ == pcg_advance_n(old(pcg)@, (riffle_count * old(deck)@.len()) as nat),
        riffle_count == 0 ==> final(pcg)@ == old(pcg)@,
{
    let ghost orig = deck@;
    let ghost s0 = pcg@;
    let size = deck.len();
    let ghost mut drawn: nat = 0;
    proof {
        assert(0 * size as int == 0) by (nonlinear_arith);
    }
    for pass in 0..riffle_count
        invariant
            orig.len() == size,
            deck@ == orig,
            drawn == pass * size as int,
            pcg@ == pcg_advance_n(s0, drawn),
    {
        let mut flips: Vec<bool> = Vec::new();
        for i in 0..size
            invariant
                flips@.len() == i,
                drawn == pass * size as int + i,
                pcg@ == pcg_advance_n(s0, drawn),
        {
            let b = pcg.rand_bool();
            flips.push(b);
            proof {
                assert(pcg_advance_n(s0, drawn + 1) == crate::pcg::pcg_advance(
                    pcg_advance_n(s0, drawn),
                ));
                drawn = drawn + 1;
            }
        }
        riffle_pass(deck, &flips);
        proof {
            assert((pass + 1) * size as int == pass * size as int + size as int)
                by (nonlinear_arith);
        }
    }
    proof {
        assert(0 * size as int == 0) by (nonlinear_arith);
    }
}

} // verus!
