use crate::entropy::{displacement_histogram, is_histogram_of};
use crate::pcg::{pcg_advance_n, PCG};
use crate::pile::{pile_shuffle, spec_pile_shuffle, ShuffleError};
use crate::riffle::riffle_shuffle;
use crate::weave::{weave_n, weave_shuffle};
use vstd::prelude::*;

verus! {

broadcast use vstd::seq_lib::group_to_multiset_ensures;

/// The ordered deck `1..=size`; empty when `size` is not positive.
pub open spec fn spec_deck(size: int) -> Seq<i32> {
    Seq::new(
        if size >= 0 {
            size as nat
        } else {
            0nat
        },
        |i: int| (i + 1) as i32,
    )
}

/// Builds the ordered deck `1..=size`; a non-positive `size` gives the
/// empty deck.
pub fn deck(size: i32) -> (r: Vec<i32>)
    ensures
        r@ == spec_deck(size as int),
        size >= 0 ==> r@.len() == size,
        size < 0 ==> r@.len() == 0,
{
    let n: usize = if size > 0 {
        size as usize
    } else {
        0
    };
    let mut r: Vec<i32> = Vec::new();
    for idx in 0..n
        invariant
            n <= i32::MAX,
            r@.len() == idx,
            forall|i: int| 0 <= i < idx ==> r@[i] == i + 1,
    {
        r.push((idx as i32) + 1);
    }
    proof {
        assert(r@ =~= spec_deck(size as int));
    }
    r
}

/// One shuffle technique with its parameters.
pub enum Shuffle {
    Pile { pile_count: usize, move_count: usize },
    Riffle { riffle_count: usize },
    Weave { weave_count: usize, out: bool },
}

/// Whether a shuffle choice fits a deck of the given length: a weave
/// that runs at least one pass needs an even deck.
pub open spec fn shuffle_fits(s: Shuffle, len: nat) -> bool {
    match s {
        Shuffle::Weave { weave_count, .. } => weave_count == 0 || len % 2 == 0,
        _ => true,
    }
}

/// One application of the chosen shuffle, as a function of the deck and
/// the engine state: the success flag, the shuffled deck and the engine
/// state after it.  Riffle and weave always succeed; the riffle returns
/// the deck unchanged after one engine draw per card per pass, the
/// weave draws nothing.
pub open spec fn spec_apply(deck: Seq<i32>, s: u64, sh: Shuffle) -> (bool, Seq<i32>, u64) {
    match sh {
        Shuffle::Pile { pile_count, move_count } => spec_pile_shuffle(
            deck,
            s,
            pile_count as int,
            move_count as int,
        ),
        Shuffle::Riffle { riffle_count } => (
            true,
            deck,
            pcg_advance_n(s, (riffle_count * deck.len()) as nat),
        ),
        Shuffle::Weave { weave_count, out } => (true, weave_n(deck, weave_count as nat, out), s),
    }
}

/// Applies the chosen shuffle operator to the deck with the given
/// engine: deck, engine state and outcome are exactly `spec_apply` of
/// the inputs.  Every outcome leaves the deck a permutation of its old
/// value; only the pile shuffle can fault, and only when its rejection
/// sampling exhausts its retry budget.
pub fn apply_shuffle(deck: &mut Vec<i32>, pcg: &mut PCG, s: &Shuffle) -> (r: Result<
    (),
    ShuffleError,
>)
    requires
        shuffle_fits(*s, old(deck)@.len()),
        old(deck)@.len() < usize::MAX,
    ensures
        final(deck)@.to_multiset() == old(deck)@.to_multiset(),
        !(s is Pile) ==> r is Ok,
        ({
            let run = spec_apply(old(deck)@, old(pcg)@, *s);
            &&& (r is Ok <==> run.0)
            &&& final(deck)@ == run.1
            &&& final(pcg)@ == run.2
        }),
{
    match s {
        Shuffle::Pile { pile_count, move_count } => pile_shuffle(
            deck,
            pcg,
            *pile_count,
            *move_count,
        ),
        Shuffle::Riffle { riffle_count } => {
            riffle_shuffle(deck, pcg, *riffle_count);
            Ok(())
        },
        Shuffle::Weave { weave_count, out } => {
            weave_shuffle(deck, *weave_count, *out);
            Ok(())
        },
    }
}

/// `k` consecutive trials, as a function of the starting engine state:
/// each trial shuffles a fresh ordered deck `1..=size` with the engine
/// state the previous trials left.  Yields the success flag, the
/// shuffled deck of every completed trial in order, and the final
/// engine state; a failed trial stops the run where it stands.
pub open spec fn spec_trials(size: int, s: u64, sh: Shuffle, k: nat) -> (bool, Seq<Seq<i32>>, u64)
    decreases k,
{
    if k == 0 {
        (true, Seq::empty(), s)
    } else {
        let prev = spec_trials(size, s, sh, (k - 1) as nat);
        if !prev.0 {
            prev
        } else {
            let run = spec_apply(spec_deck(size), prev.2, sh);
            if run.0 {
                (true, prev.1.push(run.1), run.2)
            } else {
                (false, prev.1, run.2)
            }
        }
    }
}

proof fn lemma_trials_fail(size: int, s: u64, sh: Shuffle, j: nat, k: nat)
    requires
        j <= k,
        !spec_trials(size, s, sh, j).0,
    ensures
        spec_trials(size, s, sh, k) == spec_trials(size, s, sh, j),
    decreases k,
{
    if k > j {
        lemma_trials_fail(size, s, sh, j, (k - 1) as nat);
    }
}

/// Whether `h` is the displacement histogram of some permutation of the
/// ordered deck `1..=size`.
pub open spec fn histogram_of_permutation(h: Seq<usize>, size: int) -> bool {
    exists|d: Seq<i32>|
        d.to_multiset() == spec_deck(size).to_multiset() && is_histogram_of(h, d)
}

/// Runs `repeats` independent trials with the given engine: each trial
/// builds the fresh ordered deck `1..=size`, shuffles it with the
/// engine state the previous trials left, and tallies the shuffled
/// deck's displacement histogram, from which the trial's entropy score
/// is computed.  The outcome, the final engine state and each trial's
/// shuffled deck are exactly `spec_trials` of the inputs; the run
/// faults if and only if some trial's pile shuffle exhausts its retry
/// budget, and every returned histogram belongs to a permutation of the
/// base deck.
pub fn trial_histograms(size: i32, repeats: usize, pcg: &mut PCG, s: &Shuffle) -> (r: Result<
    Vec<Vec<usize>>,
    ShuffleError,
>)
    requires
        size >= 1,
        shuffle_fits(*s, size as nat),
    ensures
        !(s is Pile) ==> r is Ok,
        ({
            let run = spec_trials(size as int, old(pcg)@, *s, repeats as nat);
            &&& (r is Ok <==> run.0)
            &&& final(pcg)@ == run.2
            &&& match r {
                Ok(hs) => hs@.len() == repeats && run.1.len() == repeats && forall|t: int|
                    0 <= t < repeats ==> is_histogram_of(#[trigger] hs@[t]@, run.1[t]),
                Err(e) => true,
            }
        }),
        match r {
            Ok(hs) => hs@.len() == repeats && forall|t: int|
                0 <= t < repeats ==> histogram_of_permutation(#[trigger] hs@[t]@, size as int),
            Err(e) => true,
        },
{
    let ghost s0 = pcg@;
    let mut out: Vec<Vec<usize>> = Vec::new();
    let ghost mut decks: Seq<Seq<i32>> = Seq::empty();
    for t in 0..repeats
        invariant
            size >= 1,
            shuffle_fits(*s, size as nat),
            s0 == old(pcg)@,
            out@.len() == t,
            decks.len() == t,
            spec_trials(size as int, s0, *s, t as nat) == (true, decks, pcg@),
            forall|u: int| 0 <= u < t ==> is_histogram_of(#[trigger] out@[u]@, decks[u]),
            forall|u: int|
                0 <= u < t ==> histogram_of_permutation(#[trigger] out@[u]@, size as int),
    {
        let ghost s_entry = pcg@;
        let mut dk = deck(size);
        let result = apply_shuffle(&mut dk, pcg, s);
        match result {
            Ok(()) => {},
            Err(e) => {
                proof {
                    assert(spec_trials(size as int, s0, *s, (t + 1) as nat) == (
                        false,
                        decks,
                        pcg@,
                    ));
                    lemma_trials_fail(size as int, s0, *s, (t + 1) as nat, repeats as nat);
                }
                return Err(e);
            },
        }
        proof {
            assert(spec_apply(spec_deck(size as int), s_entry, *s) == (true, dk@, pcg@));
            assert(spec_trials(size as int, s0, *s, (t + 1) as nat) == (
                true,
                decks.push(dk@),
                pcg@,
            ));
            assert(dk@.to_multiset().len() == dk@.len());
            assert(spec_deck(size as int).to_multiset().len() == spec_deck(size as int).len());
            assert(dk@.len() >= 1);
        }
        let h = displacement_histogram(&dk);
        proof {
            assert(histogram_of_permutation(h@, size as int)) by {
                assert(dk@.to_multiset() == spec_deck(size as int).to_multiset() && is_histogram_of(
                    h@,
                    dk@,
                ));
            }
            decks = decks.push(dk@);
        }
        out.push(h);
    }
    Ok(out)
}

} // verus!
