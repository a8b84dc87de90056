use crate::pcg::PCG;
use vstd::multiset::Multiset;
use vstd::prelude::*;
use vstd::seq_lib::lemma_multiset_commutative;

verus! {

broadcast use vstd::seq_lib::group_to_multiset_ensures, vstd::multiset::group_multiset_axioms;

/// The fault raised when a rejection-sampling pick exhausts its retry
/// budget; the deck is still a permutation of its old value when it is
/// raised.
#[derive(Clone, Copy, Debug, PartialEq, Eq, Structural)]
pub enum ShuffleError {
    RetryLimit,
}

/// How many draws one rejection-sampling pick may make before faulting.
pub const RETRY_LIMIT: usize = 10000;

/// The views of a sequence of piles.
pub open spec fn pile_views(ps: Seq<Vec<i32>>) -> Seq<Seq<i32>> {
    ps.map_values(|p: Vec<i32>| p@)
}

/// All cards held by a sequence of piles, as one multiset.
pub open spec fn piles_ms(ps: Seq<Seq<i32>>) -> Multiset<i32>
    decreases ps.len(),
{
    if ps.len() == 0 {
        Multiset::empty()
    } else {
        piles_ms(ps.drop_last()).add(ps.last().to_multiset())
    }
}

/// The deck formed by concatenating piles in reverse index order: the
/// last pile first.
pub open spec fn gather_rev(ps: Seq<Seq<i32>>) -> Seq<i32>
    decreases ps.len(),
{
    if ps.len() == 0 {
        Seq::empty()
    } else {
        ps.last() + gather_rev(ps.drop_last())
    }
}

proof fn lemma_piles_ms_push(ps: Seq<Seq<i32>>, v: Seq<i32>)
    ensures
        piles_ms(ps.push(v)) == piles_ms(ps).add(v.to_multiset()),
{
    assert(ps.push(v).drop_last() =~= ps);
    assert(ps.push(v).last() == v);
}

/// Replacing pile `i` by `v` trades exactly the old pile's cards for the
/// new pile's cards.
proof fn lemma_piles_ms_update(ps: Seq<Seq<i32>>, i: int, v: Seq<i32>)
    requires
        0 <= i < ps.len(),
    ensures
        piles_ms(ps.update(i, v)).add(ps[i].to_multiset()) == piles_ms(ps).add(v.to_multiset()),
    decreases ps.len(),
{
    broadcast use vstd::multiset::group_multiset_axioms;

    if i == ps.len() - 1 {
        assert(ps.update(i, v).drop_last() =~= ps.drop_last());
        assert(ps.update(i, v).last() == v);
        assert(piles_ms(ps.update(i, v)).add(ps[i].to_multiset()) =~= piles_ms(ps).add(
            v.to_multiset(),
        ));
    } else {
        lemma_piles_ms_update(ps.drop_last(), i, v);
        assert(ps.update(i, v).drop_last() =~= ps.drop_last().update(i, v));
        assert(ps.update(i, v).last() == ps.last());
        assert(ps.drop_last()[i] == ps[i]);
        assert forall|x: i32|
            piles_ms(ps.update(i, v)).add(ps[i].to_multiset()).count(x) == piles_ms(ps).add(
                v.to_multiset(),
            ).count(x) by {
            assert(piles_ms(ps.drop_last().update(i, v)).add(ps[i].to_multiset()).count(x)
                == piles_ms(ps.drop_last()).add(v.to_multiset()).count(x));
        }
        assert(piles_ms(ps.update(i, v)).add(ps[i].to_multiset()) =~= piles_ms(ps).add(
            v.to_multiset(),
        ));
    }
}

/// No single pile holds more cards than all piles together.
proof fn lemma_pile_len_le(ps: Seq<Seq<i32>>, i: int)
    requires
        0 <= i < ps.len(),
    ensures
        ps[i].to_multiset().len() <= piles_ms(ps).len(),
    decreases ps.len(),
{
    broadcast use vstd::multiset::group_multiset_axioms;

    if i < ps.len() - 1 {
        lemma_pile_len_le(ps.drop_last(), i);
        assert(ps.drop_last()[i] == ps[i]);
    }
}

/// Gathering the piles in reverse order yields exactly the cards they
/// hold.
proof fn lemma_gather_rev_ms(ps: Seq<Seq<i32>>)
    ensures
        gather_rev(ps).to_multiset() == piles_ms(ps),
    decreases ps.len(),
{
    broadcast use vstd::multiset::group_multiset_axioms;

    if ps.len() > 0 {
        lemma_gather_rev_ms(ps.drop_last());
        lemma_multiset_commutative(ps.last(), gather_rev(ps.drop_last()));
        assert(gather_rev(ps).to_multiset() =~= piles_ms(ps));
    }
}

/// A capped rejection-sampling pick of a non-empty pile, as a function
/// of the engine state: draw an index, advance the state, retry while
/// the drawn pile is empty, give up when the budget runs out.  Yields
/// the pick and the engine state after the draws.
pub open spec fn pick_nonempty_spec(ps: Seq<Seq<i32>>, s: u64, tries: nat) -> (Option<int>, u64)
    decreases tries,
{
    if tries == 0 {
        (None, s)
    } else {
        let idx = (crate::pcg::pcg_output(s) % (ps.len() as u64)) as int;
        let s2 = crate::pcg::pcg_advance(s);
        if ps[idx].len() > 0 {
            (Some(idx), s2)
        } else {
            pick_nonempty_spec(ps, s2, (tries - 1) as nat)
        }
    }
}

/// A capped rejection-sampling pick of an index other than `exclude`,
/// empty piles allowed, as a function of the engine state.
pub open spec fn pick_other_spec(count: int, exclude: int, s: u64, tries: nat) -> (Option<int>, u64)
    decreases tries,
{
    if tries == 0 {
        (None, s)
    } else {
        let idx = (crate::pcg::pcg_output(s) % (count as u64)) as int;
        let s2 = crate::pcg::pcg_advance(s);
        if idx != exclude {
            (Some(idx), s2)
        } else {
            pick_other_spec(count, exclude, s2, (tries - 1) as nat)
        }
    }
}

/// One cut-and-move step as a function of the piles and the engine
/// state: pick a non-empty source, pick a distinct destination, draw a
/// cut position in `[0, len(source)]`, and move the source's suffix
/// from the cut onto the destination.  A failed pick leaves the piles
/// unchanged and clears the flag; the engine state after the draws is
/// returned either way.
pub open spec fn pile_step(ps: Seq<Seq<i32>>, s: u64) -> (bool, Seq<Seq<i32>>, u64) {
    match pick_nonempty_spec(ps, s, RETRY_LIMIT as nat) {
        (None, s1) => (false, ps, s1),
        (Some(from), s1) => match pick_other_spec(ps.len() as int, from, s1, RETRY_LIMIT as nat) {
            (None, s2) => (false, ps, s2),
            (Some(to), s2) => {
                let a = ps[from];
                let cut = (crate::pcg::pcg_output(s2) % ((a.len() + 1) as u64)) as int;
                (
                    true,
                    ps.update(from, a.take(cut)).update(to, ps[to] + a.skip(cut)),
                    crate::pcg::pcg_advance(s2),
                )
            },
        },
    }
}

/// `k` consecutive cut-and-move steps; a failed step stops the run
/// where it stands.
pub open spec fn pile_moves(ps: Seq<Seq<i32>>, s: u64, k: nat) -> (bool, Seq<Seq<i32>>, u64)
    decreases k,
{
    if k == 0 {
        (true, ps, s)
    } else {
        let prev = pile_moves(ps, s, (k - 1) as nat);
        if !prev.0 {
            prev
        } else {
            pile_step(prev.1, prev.2)
        }
    }
}

/// The starting layout: the whole deck in pile `0`, all other piles
/// empty.
pub open spec fn initial_piles(deck: Seq<i32>, pile_count: int) -> Seq<Seq<i32>> {
    Seq::new(
        pile_count as nat,
        |i: int|
            if i == 0 {
                deck
            } else {
                Seq::empty()
            },
    )
}

/// The pile shuffle as a function of the deck, the engine state and the
/// two counts: for `pile_count <= 1` a no-op; otherwise `move_count`
/// cut-and-move steps from the starting layout, followed by the reverse
/// gather.  The flag is false exactly when some pick exhausted its
/// retry budget; the deck is the gather of the piles as they then stood
/// either way.
pub open spec fn spec_pile_shuffle(deck: Seq<i32>, s: u64, pile_count: int, move_count: int) -> (
    bool,
    Seq<i32>,
    u64,
) {
    if pile_count <= 1 {
        (true, deck, s)
    } else {
        let run = pile_moves(initial_piles(deck, pile_count), s, move_count as nat);
        (run.0, gather_rev(run.1), run.2)
    }
}

proof fn lemma_pile_moves_fail(ps: Seq<Seq<i32>>, s: u64, j: nat, k: nat)
    requires
        j <= k,
        !pile_moves(ps, s, j).0,
    ensures
        pile_moves(ps, s, k) == pile_moves(ps, s, j),
    decreases k,
{
    if k > j {
        lemma_pile_moves_fail(ps, s, j, (k - 1) as nat);
    }
}

/// Gathering the untouched starting layout restores the deck: every
/// pile above `0` is empty and pile `0` comes last.
proof fn lemma_gather_initial(deck: Seq<i32>, pile_count: int)
    requires
        pile_count >= 1,
    ensures
        gather_rev(initial_piles(deck, pile_count)) == deck,
    decreases pile_count,
{
    if pile_count == 1 {
        assert(initial_piles(deck, 1).drop_last() =~= Seq::<Seq<i32>>::empty());
        assert(initial_piles(deck, 1).last() == deck);
        assert(deck + gather_rev(Seq::<Seq<i32>>::empty()) =~= deck);
    } else {
        lemma_gather_initial(deck, pile_count - 1);
        assert(initial_piles(deck, pile_count).drop_last() =~= initial_piles(
            deck,
            pile_count - 1,
        ));
        assert(initial_piles(deck, pile_count).last() =~= Seq::<i32>::empty());
        assert(Seq::<i32>::empty() + gather_rev(initial_piles(deck, pile_count - 1)) =~= gather_rev(
            initial_piles(deck, pile_count - 1),
        ));
    }
}

/// Picks a pile index uniformly by rejection sampling, redrawing until
/// the pile at the index is non-empty; gives up after `RETRY_LIMIT`
/// draws.  Result and final engine state are exactly
/// `pick_nonempty_spec`.
fn pick_nonempty(piles: &Vec<Vec<i32>>, pcg: &mut PCG) -> (r: Option<usize>)
    requires
        piles@.len() >= 1,
    ensures
        ({
            let pick = pick_nonempty_spec(pile_views(piles@), old(pcg)@, RETRY_LIMIT as nat);
            &&& final(pcg)@ == pick.1
            &&& match r {
                Some(i) => pick.0 == Some(i as int) && i < piles@.len() && piles@[i as int]@.len()
                    > 0,
                None => pick.0 is None,
            }
        }),
{
    let ghost s0 = pcg@;
    let ghost ps = pile_views(piles@);
    let mut tries: usize = 0;
    while tries < RETRY_LIMIT
        invariant
            piles@.len() >= 1,
            tries <= RETRY_LIMIT,
            s0 == old(pcg)@,
            ps == pile_views(piles@),
            ps.len() == piles@.len(),
            pick_nonempty_spec(ps, s0, RETRY_LIMIT as nat) == pick_nonempty_spec(
                ps,
                pcg@,
                (RETRY_LIMIT - tries) as nat,
            ),
        decreases RETRY_LIMIT - tries,
    {
        let ghost prev = pcg@;
        let idx = pcg.rand_int(piles.len());
        proof {
            assert(idx as int == (crate::pcg::pcg_output(prev) % (ps.len() as u64)) as int);
            assert(ps[idx as int] == piles@[idx as int]@);
        }
        if piles[idx].len() > 0 {
            return Some(idx);
        }
        tries = tries + 1;
    }
    None
}

/// Picks a pile index other than `exclude` uniformly by rejection
/// sampling, empty piles allowed; gives up after `RETRY_LIMIT` draws.
/// Result and final engine state are exactly `pick_other_spec`.
fn pick_other(pile_count: usize, exclude: usize, pcg: &mut PCG) -> (r: Option<usize>)
    requires
        pile_count >= 2,
    ensures
        ({
            let pick = pick_other_spec(pile_count as int, exclude as int, old(pcg)@, RETRY_LIMIT as nat);
            &&& final(pcg)@ == pick.1
            &&& match r {
                Some(i) => pick.0 == Some(i as int) && i < pile_count && i != exclude,
                None => pick.0 is None,
            }
        }),
{
    let ghost s0 = pcg@;
    let mut tries: usize = 0;
    while tries < RETRY_LIMIT
        invariant
            pile_count >= 2,
            tries <= RETRY_LIMIT,
            s0 == old(pcg)@,
            pick_other_spec(pile_count as int, exclude as int, s0, RETRY_LIMIT as nat)
                == pick_other_spec(
                pile_count as int,
                exclude as int,
                pcg@,
                (RETRY_LIMIT - tries) as nat,
            ),
        decreases RETRY_LIMIT - tries,
    {
        let ghost prev = pcg@;
        let idx = pcg.rand_int(pile_count);
        proof {
            assert(idx as int == (crate::pcg::pcg_output(prev) % (pile_count as u64)) as int);
        }
        if idx != exclude {
            return Some(idx);
        }
        tries = tries + 1;
    }
    None
}

/// Empties the piles into the deck, last pile first.
fn gather_into(deck: &mut Vec<i32>, piles: &mut Vec<Vec<i32>>)
    ensures
        final(deck)@ == gather_rev(pile_views(old(piles)@)),
        final(deck)@.to_multiset() == piles_ms(pile_views(old(piles)@)),
        final(piles)@.len() == 0,
{
    let ghost whole = pile_views(piles@);
    deck.clear();
    proof {
        assert(gather_rev(whole) =~= deck@ + gather_rev(pile_views(piles@)));
    }
    while piles.len() > 0
        invariant
            gather_rev(whole) == deck@ + gather_rev(pile_views(piles@)),
        decreases piles@.len(),
    {
        let ghost before = pile_views(piles@);
        let p = piles.pop();
        let mut p = match p {
            Some(v) => v,
            None => Vec::new(),
        };
        proof {
            assert(pile_views(piles@) =~= before.drop_last());
            assert(p@ == before.last());
        }
        let ghost deck_before = deck@;
        deck.append(&mut p);
        proof {
            assert(deck_before + (before.last() + gather_rev(before.drop_last())) =~= (deck_before
                + before.last()) + gather_rev(before.drop_last()));
        }
    }
    proof {
        assert(pile_views(piles@) =~= Seq::<Seq<i32>>::empty());
        assert(deck@ + gather_rev(pile_views(piles@)) =~= deck@);
        lemma_gather_rev_ms(whole);
    }
}

/// Shuffles by piling: the whole deck starts in pile `0` of `pile_count`
/// piles; `move_count` times, a random cut from the top of a random
/// non-empty pile moves onto a second random pile; the piles are then
/// gathered in reverse index order.  `pile_count <= 1` is a documented
/// no-op that touches neither the deck nor the engine.  The pile picks
/// use rejection sampling with a retry budget; if the engine exhausts it,
/// the shuffle stops early with `ShuffleError::RetryLimit` and the deck
/// holds the gathered piles.  Deck, engine state and outcome are exactly
/// `spec_pile_shuffle` of the inputs, and every outcome leaves the deck
/// a permutation of its old value.
pub fn pile_shuffle(
    deck: &mut Vec<i32>,
    pcg: &mut PCG,
    pile_count: usize,
    move_count: usize,
) -> (r: Result<(), ShuffleError>)
    requires
        old(deck)@.len() < usize::MAX,
    ensures
        final(deck)@.to_multiset() == old(deck)@.to_multiset(),
        ({
            let run = spec_pile_shuffle(
                old(deck)@,
                old(pcg)@,
                pile_count as int,
                move_count as int,
            );
            &&& (r is Ok <==> run.0)
            &&& final(deck)@ == run.1
            &&& final(pcg)@ == run.2
        }),
        pile_count <= 1 ==> r is Ok && final(deck)@ == old(deck)@ && final(pcg)@ == old(pcg)@,
        pile_count >= 2 && move_count == 0 ==> r is Ok && final(deck)@ == old(deck)@ && final(pcg)@
            == old(pcg)@,
{
    broadcast use vstd::seq_lib::group_to_multiset_ensures;

    if pile_count <= 1 {
        return Ok(());
    }
    let ghost orig = deck@;
    let ghost s0 = pcg@;
    let ghost init = initial_piles(orig, pile_count as int);
    let mut first: Vec<i32> = Vec::new();
    core::mem::swap(deck, &mut first);
    let mut piles: Vec<Vec<i32>> = Vec::new();
    piles.push(first);
    proof {
        assert(pile_views(piles@) =~= Seq::<Seq<i32>>::empty().push(orig));
        lemma_piles_ms_push(Seq::<Seq<i32>>::empty(), orig);
        assert(Multiset::<i32>::empty().add(orig.to_multiset()) =~= orig.to_multiset());
    }
    let mut k: usize = 1;
    while k < pile_count
        invariant
            1 <= k <= pile_count,
            piles@.len() == k,
            piles_ms(pile_views(piles@)) == orig.to_multiset(),
            piles@[0]@ == orig,
            forall|i: int| 1 <= i < k ==> #[trigger] piles@[i]@.len() == 0,
        decreases pile_count - k,
    {
        let ghost before = pile_views(piles@);
        piles.push(Vec::new());
        k = k + 1;
        proof {
            assert(pile_views(piles@) =~= before.push(Seq::<i32>::empty()));
            lemma_piles_ms_push(before, Seq::<i32>::empty());
            assert(Seq::<i32>::empty().to_multiset().len() == 0);
            assert(piles_ms(pile_views(piles@)) =~= orig.to_multiset());
        }
    }
    proof {
        assert(pile_views(piles@) =~~= init);
    }
    for _mv in 0..move_count
        invariant
            pile_count >= 2,
            piles@.len() == pile_count,
            piles_ms(pile_views(piles@)) == orig.to_multiset(),
            orig == old(deck)@,
            s0 == old(pcg)@,
            init == initial_piles(orig, pile_count as int),
            orig.len() < usize::MAX,
            pile_moves(init, s0, _mv as nat) == (true, pile_views(piles@), pcg@),
        {
        let ghost cur_ps = pile_views(piles@);
        let ghost s_entry = pcg@;
        let from = match pick_nonempty(&piles, pcg) {
            Some(i) => i,
            None => {
                proof {
                    assert(pile_step(cur_ps, s_entry) == (false, cur_ps, pcg@));
                    assert(pile_moves(init, s0, (_mv + 1) as nat) == (false, cur_ps, pcg@));
                    lemma_pile_moves_fail(init, s0, (_mv + 1) as nat, move_count as nat);
                }
                gather_into(deck, &mut piles);
                return Err(ShuffleError::RetryLimit);
            },
        };
        let ghost s_mid = pcg@;
        let to = match pick_other(pile_count, from, pcg) {
            Some(i) => i,
            None => {
                proof {
                    assert(pile_step(cur_ps, s_entry) == (false, cur_ps, pcg@));
                    assert(pile_moves(init, s0, (_mv + 1) as nat) == (false, cur_ps, pcg@));
                    lemma_pile_moves_fail(init, s0, (_mv + 1) as nat, move_count as nat);
                }
                gather_into(deck, &mut piles);
                return Err(ShuffleError::RetryLimit);
            },
        };
        let ghost s_picked = pcg@;
        let ghost d0 = pile_views(piles@);
        let mut from_vec = piles.remove(from);
        let ghost a = from_vec@;
        proof {
            assert(a == d0[from as int]);
            lemma_pile_len_le(d0, from as int);
            assert(a.to_multiset().len() == a.len());
            assert(orig.to_multiset().len() == orig.len());
            assert(from_vec@.len() < usize::MAX);
        }
        let cut = pcg.rand_int(1 + from_vec.len());
        let mut moved = from_vec.split_off(cut);
        let ghost a1 = from_vec@;
        let ghost a2 = moved@;
        piles.insert(from, from_vec);
        let ghost p2 = piles@;
        let mut to_vec = piles.remove(to);
        let ghost b = to_vec@;
        to_vec.append(&mut moved);
        piles.insert(to, to_vec);
        proof {
            let d2 = pile_views(p2);
            let d4 = pile_views(piles@);
            assert(d2 =~= d0.update(from as int, a1));
            assert(d4 =~= d2.update(to as int, b + a2));
            assert(b == d2[to as int]);
            lemma_piles_ms_update(d0, from as int, a1);
            lemma_piles_ms_update(d2, to as int, b + a2);
            assert(a =~= a1 + a2);
            lemma_multiset_commutative(a1, a2);
            lemma_multiset_commutative(b, a2);
            broadcast use vstd::multiset::group_multiset_axioms;

            assert forall|x: i32| piles_ms(d4).count(x) == piles_ms(d0).count(x) by {
                assert(piles_ms(d2).add(d0[from as int].to_multiset()).count(x) == piles_ms(
                    d0,
                ).add(a1.to_multiset()).count(x));
                assert(piles_ms(d4).add(d2[to as int].to_multiset()).count(x) == piles_ms(d2).add(
                    (b + a2).to_multiset(),
                ).count(x));
            }
            assert(piles_ms(pile_views(piles@)) =~= piles_ms(d0));
            assert(a.take(cut as int) =~= a1);
            assert(a.skip(cut as int) =~= a2);
            assert(b == cur_ps[to as int]);
            let step = pile_step(cur_ps, s_entry);
            assert(step.0 == true);
            assert(step.1 =~~= d4);
            assert(step.2 == pcg@);
            assert(step == (true, pile_views(piles@), pcg@));
            assert(pile_moves(init, s0, (_mv + 1) as nat) == (true, pile_views(piles@), pcg@));
        }
    }
    proof {
        if move_count == 0 {
            lemma_gather_initial(orig, pile_count as int);
        }
    }
    gather_into(deck, &mut piles);
    Ok(())
}

} // verus!
