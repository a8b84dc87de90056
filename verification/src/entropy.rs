use vstd::arithmetic::div_mod::{
    lemma_fundamental_div_mod, lemma_fundamental_div_mod_converse, lemma_mod_bound,
};
use vstd::prelude::*;

verus! {

/// The circular displacement at position `i` of deck `s`: the value at
/// `i` minus the value one before it (the last card for `i == 0`),
/// reduced modulo the deck size into `[0, size)`.
pub open spec fn displacement(s: Seq<i32>, i: int) -> int {
    let n = s.len() as int;
    let j = if i == 0 {
        n - 1
    } else {
        i - 1
    };
    (s[i] - s[j]) % n
}

/// How many positions in `0..upto` have displacement `d`.
pub open spec fn disp_count(s: Seq<i32>, d: int, upto: int) -> nat
    decreases upto,
{
    if upto <= 0 {
        0
    } else {
        disp_count(s, d, upto - 1) + (if displacement(s, upto - 1) == d {
            1nat
        } else {
            0nat
        })
    }
}

/// The histogram of all circular displacements of `s`, one bin per
/// possible displacement `0..size`.  The Shannon-entropy randomness
/// score is computed from these counts.
pub open spec fn spec_histogram(s: Seq<i32>) -> Seq<nat> {
    Seq::new(s.len(), |d: int| disp_count(s, d, s.len() as int))
}

/// Whether `h` is exactly the displacement histogram of deck `d`.
pub open spec fn is_histogram_of(h: Seq<usize>, d: Seq<i32>) -> bool {
    h.len() == d.len() && forall|x: int| 0 <= x < d.len() ==> h[x] == spec_histogram(d)[x]
}

proof fn lemma_disp_count_le(s: Seq<i32>, d: int, upto: int)
    requires
        upto >= 0,
    ensures
        disp_count(s, d, upto) <= upto,
    decreases upto,
{
    if upto > 0 {
        lemma_disp_count_le(s, d, upto - 1);
    }
}

proof fn lemma_neg_mod(x: int, n: int)
    requires
        x > 0,
        n > 0,
    ensures
        (0 - x) % n == (if x % n == 0 {
            0int
        } else {
            n - (x % n)
        }),
{
    let q = x / n;
    let m = x % n;
    lemma_fundamental_div_mod(x, n);
    if m == 0 {
        assert(0 - x == (0 - q) * n + 0) by (nonlinear_arith)
            requires
                x == n * q + 0,
        ;
        lemma_fundamental_div_mod_converse(0 - x, n, 0 - q, 0);
    } else {
        assert(0 - x == (0 - q - 1) * n + (n - m)) by (nonlinear_arith)
            requires
                x == n * q + m,
        ;
        lemma_fundamental_div_mod_converse(0 - x, n, 0 - q - 1, n - m);
    }
}

/// The circular displacement between the cards at `i` and `j`, computed
/// with unsigned machine arithmetic.
fn displacement_between(deck: &Vec<i32>, i: usize, j: usize) -> (d: usize)
    requires
        deck@.len() >= 1,
        i < deck@.len(),
        j < deck@.len(),
    ensures
        d == (deck@[i as int] - deck@[j as int]) % (deck@.len() as int),
        d < deck@.len(),
{
    let n64 = deck.len() as u64;
    let a = deck[i];
    let b = deck[j];
    if a >= b {
        let diff = (a as i64 - b as i64) as u64;
        (diff % n64) as usize
    } else {
        let diff = (b as i64 - a as i64) as u64;
        let m = diff % n64;
        proof {
            lemma_neg_mod(diff as int, n64 as int);
        }
        if m == 0 {
            0
        } else {
            (n64 - m) as usize
        }
    }
}

/// Tallies the histogram of the deck's circular adjacent displacements,
/// wraparound pair included: bin `d` counts the positions whose
/// displacement is `d`.
pub fn displacement_histogram(deck: &Vec<i32>) -> (hist: Vec<usize>)
    requires
        deck@.len() >= 1,
    ensures
        is_histogram_of(hist@, deck@),
{
    let size = deck.len();
    let mut hist: Vec<usize> = Vec::new();
    while hist.len() < size
        invariant
            hist@.len() <= size,
            forall|x: int| 0 <= x < hist@.len() ==> hist@[x] == 0,
        decreases size - hist@.len(),
    {
        hist.push(0);
    }
    for i in 0..size
        invariant
            deck@.len() == size,
            hist@.len() == size,
            forall|x: int| 0 <= x < size ==> hist@[x] == disp_count(deck@, x, i as int),
    {
        let j = if i == 0 {
            size - 1
        } else {
            i - 1
        };
        let d = displacement_between(deck, i, j);
        proof {
            lemma_disp_count_le(deck@, d as int, i as int);
        }
        let cur = hist[d];
        hist[d] = cur + 1;
    }
    hist
}

/// In an ascending deck `1..=n` with `n >= 2`, every circular
/// displacement equals `1` — the wraparound pair included, since
/// `(1 - n) mod n == 1`.  The histogram is therefore concentrated in one
/// bin, which is what makes the deck's entropy score exactly zero.
pub proof fn lemma_ascending_histogram(s: Seq<i32>)
    requires
        s.len() >= 2,
        forall|i: int| 0 <= i < s.len() ==> s[i] == i + 1,
    ensures
        forall|i: int| 0 <= i < s.len() ==> #[trigger] displacement(s, i) == 1,
        spec_histogram(s)[1] == s.len(),
        forall|d: int| 0 <= d < s.len() && d != 1 ==> #[trigger] spec_histogram(s)[d] == 0,
{
    let n = s.len() as int;
    assert forall|i: int| 0 <= i < s.len() implies #[trigger] displacement(s, i) == 1 by {
        assert(s[i] == i + 1);
        if i == 0 {
            assert(s[n - 1] == n);
            assert(s[0] - s[n - 1] == 1 - n);
            assert(1 - n == (0 - 1) * n + 1) by (nonlinear_arith);
            lemma_fundamental_div_mod_converse(1 - n, n, 0 - 1, 1);
        } else {
            assert(s[i - 1] == i);
            assert(s[i] - s[i - 1] == 1);
            assert(1int % n == 1) by (nonlinear_arith)
                requires
                    n >= 2,
            ;
        }
    }
    assert forall|d: int| 0 <= d < s.len() implies #[trigger] disp_count(s, d, n) == (if d == 1 {
        s.len() as int
    } else {
        0int
    }) by {
        lemma_const_disp_count(s, d, n);
    }
}

/// The sum of a histogram's bins.
pub open spec fn hist_sum(h: Seq<nat>) -> nat
    decreases h.len(),
{
    if h.len() == 0 {
        0
    } else {
        hist_sum(h.drop_last()) + h.last()
    }
}

/// The sum of the first `m` bins, each counting positions in `0..upto`.
spec fn sum_counts(s: Seq<i32>, m: int, upto: int) -> nat
    decreases m,
{
    if m <= 0 {
        0
    } else {
        sum_counts(s, m - 1, upto) + disp_count(s, m - 1, upto)
    }
}

proof fn lemma_sum_counts_zero(s: Seq<i32>, m: int)
    ensures
        sum_counts(s, m, 0) == 0,
    decreases m,
{
    if m > 0 {
        lemma_sum_counts_zero(s, m - 1);
    }
}

proof fn lemma_sum_counts_step(s: Seq<i32>, m: int, u: int)
    requires
        u >= 0,
    ensures
        sum_counts(s, m, u + 1) == sum_counts(s, m, u) + (if 0 <= displacement(s, u) < m {
            1nat
        } else {
            0nat
        }),
    decreases m,
{
    if m > 0 {
        lemma_sum_counts_step(s, m - 1, u);
    }
}

proof fn lemma_sum_counts_total(s: Seq<i32>, u: int)
    requires
        s.len() >= 1,
        0 <= u <= s.len(),
    ensures
        sum_counts(s, s.len() as int, u) == u,
    decreases u,
{
    if u == 0 {
        lemma_sum_counts_zero(s, s.len() as int);
    } else {
        lemma_sum_counts_total(s, u - 1);
        lemma_sum_counts_step(s, s.len() as int, u - 1);
        let n = s.len() as int;
        let j = if u - 1 == 0 {
            n - 1
        } else {
            u - 2
        };
        lemma_mod_bound(s[u - 1] - s[j], n);
    }
}

proof fn lemma_hist_prefix(s: Seq<i32>, m: int)
    requires
        0 <= m <= s.len(),
    ensures
        hist_sum(spec_histogram(s).take(m)) == sum_counts(s, m, s.len() as int),
    decreases m,
{
    if m > 0 {
        lemma_hist_prefix(s, m - 1);
        assert(spec_histogram(s).take(m).drop_last() =~= spec_histogram(s).take(m - 1));
        assert(spec_histogram(s).take(m).last() == disp_count(s, m - 1, s.len() as int));
    }
}

/// Every position contributes to exactly one bin: the histogram's bins
/// sum to the deck size.  This is what normalizes the bin frequencies
/// `count / size` into a probability distribution, over which the
/// entropy score is bounded by `log2(size)`.
pub proof fn lemma_histogram_total(s: Seq<i32>)
    requires
        s.len() >= 1,
    ensures
        hist_sum(spec_histogram(s)) == s.len(),
{
    lemma_hist_prefix(s, s.len() as int);
    lemma_sum_counts_total(s, s.len() as int);
    assert(spec_histogram(s).take(s.len() as int) =~= spec_histogram(s));
}

proof fn lemma_const_disp_count(s: Seq<i32>, d: int, upto: int)
    requires
        0 <= upto <= s.len(),
        forall|i: int| 0 <= i < s.len() ==> #[trigger] displacement(s, i) == 1,
    ensures
        disp_count(s, d, upto) == (if d == 1 {
            upto
        } else {
            0int
        }),
    decreases upto,
{
    if upto > 0 {
        lemma_const_disp_count(s, d, upto - 1);
    }
}

} // verus!
