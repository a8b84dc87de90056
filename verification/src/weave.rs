use vstd::multiset::Multiset;
use vstd::prelude::*;
use vstd::seq_lib::{lemma_multiset_commutative, lemma_seq_union_to_multiset_commutative};

verus! {

/// One perfect-weave pass over a deck `s`: with `half = len / 2` and the
/// offsets `(0, half)` for an out-shuffle or `(half, 0)` for an
/// in-shuffle, position `2i` takes `s[i + off0]` and position `2i + 1`
/// takes `s[i + off1]`.
pub open spec fn weave_pass(s: Seq<i32>, out: bool) -> Seq<i32> {
    let half = s.len() as int / 2;
    let off0 = if out { 0int } else { half };
    let off1 = if out { half } else { 0int };
    Seq::new(
        s.len(),
        |j: int| if j % 2 == 0 { s[j / 2 + off0] } else { s[j / 2 + off1] },
    )
}

/// `n` consecutive weave passes, each consuming the previous pass's
/// output.
pub open spec fn weave_n(s: Seq<i32>, n: nat, out: bool) -> Seq<i32>
    decreases n,
{
    if n == 0 {
        s
    } else {
        weave_pass(weave_n(s, (n - 1) as nat, out), out)
    }
}

/// The exact alternation of two equally long sequences: elements of `a`
/// at even positions, elements of `b` at odd ones.
pub open spec fn interleave(a: Seq<i32>, b: Seq<i32>) -> Seq<i32>
    decreases a.len(),
{
    if a.len() == 0 || b.len() == 0 {
        a + b
    } else {
        seq![a[0], b[0]] + interleave(a.drop_first(), b.drop_first())
    }
}

proof fn lemma_interleave_index(a: Seq<i32>, b: Seq<i32>)
    requires
        a.len() == b.len(),
    ensures
        interleave(a, b).len() == 2 * a.len(),
        forall|i: int|
            0 <= i < a.len() ==> #[trigger] interleave(a, b)[2 * i] == a[i] && interleave(a, b)[2
                * i + 1] == b[i],
    decreases a.len(),
{
    if a.len() > 0 {
        lemma_interleave_index(a.drop_first(), b.drop_first());
        assert forall|i: int| 0 <= i < a.len() implies #[trigger] interleave(a, b)[2 * i] == a[i]
            && interleave(a, b)[2 * i + 1] == b[i] by {
            if i > 0 {
                assert(interleave(a.drop_first(), b.drop_first())[2 * (i - 1)] == a.drop_first()[i
                    - 1]);
                assert(interleave(a.drop_first(), b.drop_first())[2 * (i - 1) + 1]
                    == b.drop_first()[i - 1]);
                assert(interleave(a, b)[2 * i] == interleave(a.drop_first(), b.drop_first())[2 * i
                    - 2]);
                assert(interleave(a, b)[2 * i + 1] == interleave(a.drop_first(), b.drop_first())[2
                    * i - 1]);
            }
        }
    }
}

proof fn lemma_interleave_multiset(a: Seq<i32>, b: Seq<i32>)
    requires
        a.len() == b.len(),
    ensures
        interleave(a, b).to_multiset() == (a + b).to_multiset(),
    decreases a.len(),
{
    broadcast use vstd::seq_lib::group_to_multiset_ensures;
    broadcast use vstd::multiset::group_multiset_axioms;

    if a.len() == 0 {
        assert(interleave(a, b) == a + b);
    } else {
        let at = a.drop_first();
        let bt = b.drop_first();
        lemma_interleave_multiset(at, bt);
        lemma_multiset_commutative(seq![a[0], b[0]], interleave(at, bt));
        lemma_multiset_commutative(at, bt);
        lemma_multiset_commutative(a, b);
        assert(seq![a[0], b[0]].to_multiset() =~= Multiset::<i32>::empty().insert(a[0]).insert(
            b[0],
        )) by {
            assert(seq![a[0], b[0]] =~= Seq::<i32>::empty().push(a[0]).push(b[0]));
            assert(Seq::<i32>::empty().to_multiset().len() == 0);
            assert(Seq::<i32>::empty().to_multiset() =~= Multiset::<i32>::empty());
        }
        assert(a.to_multiset() =~= at.to_multiset().insert(a[0])) by {
            assert(at.insert(0, a[0]) =~= a);
        }
        assert(b.to_multiset() =~= bt.to_multiset().insert(b[0])) by {
            assert(bt.insert(0, b[0]) =~= b);
        }
        assert(interleave(a, b).to_multiset() =~= (a + b).to_multiset());
    }
}

/// A weave pass only rearranges the deck: the multiset of cards is
/// unchanged.
pub proof fn lemma_weave_pass_multiset(s: Seq<i32>, out: bool)
    requires
        s.len() % 2 == 0,
    ensures
        weave_pass(s, out).to_multiset() == s.to_multiset(),
{
    let half = s.len() as int / 2;
    let lo = s.subrange(0, half);
    let hi = s.subrange(half, s.len() as int);
    let a = if out { lo } else { hi };
    let b = if out { hi } else { lo };
    lemma_interleave_index(a, b);
    assert forall|j: int| 0 <= j < s.len() implies weave_pass(s, out)[j] == interleave(a, b)[j] by {
        if j % 2 == 0 {
            let i = j / 2;
            assert(interleave(a, b)[2 * i] == a[i]);
        } else {
            let i = (j - 1) / 2;
            assert(interleave(a, b)[2 * i] == a[i]);
            assert(interleave(a, b)[2 * i + 1] == b[i]);
            assert(j / 2 == i);
        }
    }
    assert(weave_pass(s, out) =~= interleave(a, b));
    lemma_interleave_multiset(a, b);
    if out {
        assert(a + b =~= s);
    } else {
        lemma_seq_union_to_multiset_commutative(a, b);
        assert(b + a =~= s);
    }
}

/// Iterated weave passes preserve the multiset of cards and the deck
/// length.
pub proof fn lemma_weave_n_multiset(s: Seq<i32>, n: nat, out: bool)
    requires
        n == 0 || s.len() % 2 == 0,
    ensures
        weave_n(s, n, out).to_multiset() == s.to_multiset(),
        weave_n(s, n, out).len() == s.len(),
    decreases n,
{
    if n > 0 {
        lemma_weave_n_multiset(s, (n - 1) as nat, out);
        lemma_weave_pass_multiset(weave_n(s, (n - 1) as nat, out), out);
    }
}

/// Out-shuffle passes keep the first and the last card in place, however
/// often they run; the in-shuffle does not share this property.
pub proof fn lemma_out_shuffle_fixes_ends(s: Seq<i32>, n: nat)
    requires
        s.len() >= 2,
        s.len() % 2 == 0,
    ensures
        weave_n(s, n, true)[0] == s[0],
        weave_n(s, n, true)[s.len() - 1] == s[s.len() - 1],
    decreases n,
{
    if n > 0 {
        lemma_out_shuffle_fixes_ends(s, (n - 1) as nat);
        let prev = weave_n(s, (n - 1) as nat, true);
        lemma_weave_n_multiset(s, (n - 1) as nat, true);
        let len = s.len() as int;
        assert((len - 1) % 2 == 1);
        assert((len - 1) / 2 == len / 2 - 1);
        assert(weave_pass(prev, true)[len - 1] == prev[len - 1]);
        assert(weave_pass(prev, true)[0] == prev[0]);
    }
}

/// Repeats the perfect-weave pass `weave_count` times; `out` selects the
/// out-shuffle (first and last card stay fixed) over the in-shuffle.
/// A deck of odd length is rejected by precondition whenever at least one
/// pass runs, since the halving formula would leave one card unassigned.
pub fn weave_shuffle(deck: &mut Vec<i32>, weave_count: usize, out: bool)
    requires
        weave_count == 0 || old(deck)@.len() % 2 == 0,
    ensures
        final(deck)@ == weave_n(old(deck)@, weave_count as nat, out),
        final(deck)@.to_multiset() == old(deck)@.to_multiset(),
        weave_count == 0 ==> final(deck)@ == old(deck)@,
{
    let ghost orig = deck@;
    let size = deck.len();
    let half = size / 2;
    let (off0, off1) = if out { (0usize, half) } else { (half, 0usize) };
    for pass in 0..weave_count
        invariant
            weave_count == 0 || orig.len() % 2 == 0,
            orig.len() == size,
            half == size as int / 2,
            off0 == if out { 0int } else { half as int },
            off1 == if out { half as int } else { 0int },
            deck@ == weave_n(orig, pass as nat, out),
            deck@.len() == size,
    {
        let ghost prev = deck@;
        let mut other: Vec<i32> = Vec::new();
        for i in 0..half
            invariant
                prev.len() == size,
                size % 2 == 0,
                half == size as int / 2,
                off0 == if out { 0int } else { half as int },
                off1 == if out { half as int } else { 0int },
                deck@ == prev,
                other@.len() == 2 * i,
                forall|j: int|
                    0 <= j < 2 * i ==> #[trigger] other@[j] == (if j % 2 == 0 {
                        prev[j / 2 + off0]
                    } else {
                        prev[j / 2 + off1]
                    }),
        {
            let v0 = deck[i + off0];
            let v1 = deck[i + off1];
            other.push(v0);
            other.push(v1);
        }
        proof {
            assert(other@ =~= weave_pass(prev, out));
        }
        *deck = other;
        proof {
            assert(deck@ == weave_n(orig, (pass + 1) as nat, out));
        }
    }
    proof {
        lemma_weave_n_multiset(orig, weave_count as nat, out);
    }
}

} // verus!
