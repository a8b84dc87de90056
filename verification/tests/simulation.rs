use shuffle_entropy::entropy::displacement_histogram;
use shuffle_entropy::helpers::vec_chunks;
use shuffle_entropy::pile::pile_shuffle;
use shuffle_entropy::riffle::{riffle_pass, riffle_shuffle, split_streams};
use shuffle_entropy::stats::{apply_shuffle, deck, trial_histograms, Shuffle};
use shuffle_entropy::weave::weave_shuffle;
use shuffle_entropy::PCG;

/// An independent rendition of the engine's draw: linear-congruential
/// advance, then the rotate/xor-shift-multiply output mix of the
/// pre-update state.
fn reference_draw(state: &mut u64) -> u64 {
    let prev = *state;
    *state = 0x14057b7ef767814fu64.wrapping_add(prev.wrapping_mul(0x5851f42d4c957f2d));
    let shifted = ((prev >> 18) ^ prev) >> 27;
    let rot = prev >> 59;
    let lsh = 0u64.wrapping_sub(rot) & 31;
    let x0 = (shifted >> rot) | (shifted << lsh);
    let x1 = (x0 ^ (x0 >> 30)).wrapping_mul(0xbf58476d1ce4e5b9);
    let x2 = (x1 ^ (x1 >> 27)).wrapping_mul(0x94d049bb133111eb);
    x2 ^ (x2 >> 31)
}

fn entropy_bits_of(hist: &[usize], size: usize) -> f64 {
    let mut acc = 0.0f64;
    for &count in hist {
        if count > 0 {
            let p = count as f64 / size as f64;
            acc -= p * p.log2();
        }
    }
    acc
}

fn assert_is_permutation_of_ascending(mut d: Vec<i32>, size: i32) {
    d.sort();
    let expected: Vec<i32> = (1..=size).collect();
    assert_eq!(d, expected);
}

#[test]
fn engine_matches_reference_formula() {
    for seed in [0u64, 1, 42, 0xdeadbeef, u64::MAX] {
        let mut pcg = PCG::seeded(seed);
        let mut state = seed;
        for _ in 0..100 {
            let expected = reference_draw(&mut state);
            assert_eq!(pcg.internal(), expected);
        }
    }
}

#[test]
fn engine_rand_int_is_modulo_of_draw() {
    let mut pcg = PCG::seeded(7);
    let mut state = 7u64;
    for range in [1usize, 2, 3, 13, 52, 1000] {
        let expected = (reference_draw(&mut state) % range as u64) as usize;
        let got = pcg.rand_int(range);
        assert_eq!(got, expected);
        assert!(got < range);
    }
}

#[test]
fn engine_rand_bool_is_parity_of_draw() {
    let mut pcg = PCG::seeded(99);
    let mut state = 99u64;
    for _ in 0..50 {
        let expected = reference_draw(&mut state) & 1 == 0;
        assert_eq!(pcg.rand_bool(), expected);
    }
}

#[test]
fn engine_seeded_is_deterministic() {
    let mut a = PCG::seeded(123456);
    let mut b = PCG::seeded(123456);
    for _ in 0..20 {
        assert_eq!(a.rand_int(1000), b.rand_int(1000));
    }
}

#[test]
fn deck_builds_ascending_run() {
    assert_eq!(deck(5), vec![1, 2, 3, 4, 5]);
    assert_eq!(deck(1), vec![1]);
    assert_eq!(deck(0), Vec::<i32>::new());
    assert_eq!(deck(-3), Vec::<i32>::new());
}

#[test]
fn chunks_split_exactly() {
    let v = vec![1, 2, 3, 4, 5, 6, 7];
    assert_eq!(vec_chunks(v, 3), vec![vec![1, 2, 3], vec![4, 5, 6], vec![7]]);
    let v = vec![1, 2, 3, 4];
    assert_eq!(vec_chunks(v, 2), vec![vec![1, 2], vec![3, 4]]);
    let v = vec![1, 2];
    assert_eq!(vec_chunks(v, 5), vec![vec![1, 2]]);
    let v: Vec<i32> = vec![];
    assert_eq!(vec_chunks(v, 3), Vec::<Vec<i32>>::new());
    let v = vec![9];
    assert_eq!(vec_chunks(v, 1), vec![vec![9]]);
}

#[test]
fn weave_out_shuffle_small_deck() {
    let mut d = vec![1, 2, 3, 4];
    weave_shuffle(&mut d, 1, true);
    assert_eq!(d, vec![1, 3, 2, 4]);
}

#[test]
fn weave_in_shuffle_small_deck() {
    let mut d = vec![1, 2, 3, 4];
    weave_shuffle(&mut d, 1, false);
    assert_eq!(d, vec![3, 1, 4, 2]);
}

#[test]
fn weave_zero_passes_is_identity() {
    let mut d = vec![5, 4, 3, 2, 1];
    weave_shuffle(&mut d, 0, true);
    assert_eq!(d, vec![5, 4, 3, 2, 1]);
    let mut d = vec![2, 7, 1];
    weave_shuffle(&mut d, 0, false);
    assert_eq!(d, vec![2, 7, 1]);
}

#[test]
fn weave_preserves_cards() {
    let mut d = deck(52);
    weave_shuffle(&mut d, 7, true);
    assert_is_permutation_of_ascending(d, 52);
    let mut d = deck(52);
    weave_shuffle(&mut d, 11, false);
    assert_is_permutation_of_ascending(d, 52);
}

#[test]
fn weave_out_keeps_first_and_last_card() {
    let mut d = deck(10);
    weave_shuffle(&mut d, 3, true);
    assert_eq!(d[0], 1);
    assert_eq!(d[9], 10);
}

#[test]
fn riffle_streams_partition_by_flip() {
    let d = vec![1, 2, 3, 4, 5, 6, 7, 8];
    let flips = vec![true, false, true, true, false, false, true, false];
    let (heads, tails) = split_streams(&d, &flips);
    assert_eq!(heads, vec![1, 3, 4, 7]);
    assert_eq!(tails, vec![2, 5, 6, 8]);
}

#[test]
fn riffle_pass_recombines_in_flip_order() {
    let mut d = vec![1, 2, 3, 4, 5, 6, 7, 8];
    let flips = vec![true, false, true, true, false, false, true, false];
    riffle_pass(&mut d, &flips);
    assert_eq!(d, vec![1, 2, 3, 4, 5, 6, 7, 8]);
}

#[test]
fn riffle_zero_passes_leaves_deck_and_engine() {
    let mut d = vec![3, 1, 2];
    let mut used = PCG::seeded(5);
    let mut fresh = PCG::seeded(5);
    riffle_shuffle(&mut d, &mut used, 0);
    assert_eq!(d, vec![3, 1, 2]);
    assert_eq!(used.internal(), fresh.internal());
}

#[test]
fn riffle_draws_one_flip_per_card() {
    let mut d = deck(10);
    let mut used = PCG::seeded(77);
    let mut fresh = PCG::seeded(77);
    riffle_shuffle(&mut d, &mut used, 3);
    assert_eq!(d, deck(10));
    for _ in 0..30 {
        fresh.internal();
    }
    assert_eq!(used.internal(), fresh.internal());
}

#[test]
fn pile_single_pile_is_identity() {
    let mut d = vec![4, 2, 9, 1];
    let mut used = PCG::seeded(11);
    let mut fresh = PCG::seeded(11);
    let r = pile_shuffle(&mut d, &mut used, 1, 250);
    assert!(r.is_ok());
    assert_eq!(d, vec![4, 2, 9, 1]);
    assert_eq!(used.internal(), fresh.internal());
    let mut d = vec![8, 6];
    let r = pile_shuffle(&mut d, &mut used, 0, 3);
    assert!(r.is_ok());
    assert_eq!(d, vec![8, 6]);
}

#[test]
fn pile_preserves_cards() {
    for seed in [1u64, 2, 3, 500] {
        let mut d = deck(52);
        let mut pcg = PCG::seeded(seed);
        let r = pile_shuffle(&mut d, &mut pcg, 13, 250);
        assert!(r.is_ok());
        assert_is_permutation_of_ascending(d, 52);
    }
}

#[test]
fn pile_zero_moves_reverses_gathered_piles() {
    // With no moves the whole deck sits in pile 0 and the gather order
    // is reverse pile order, so the deck comes back unchanged: piles
    // 1.. are empty and pile 0 is appended last, with no engine draw.
    let mut d = vec![1, 2, 3];
    let mut used = PCG::seeded(4);
    let mut fresh = PCG::seeded(4);
    let r = pile_shuffle(&mut d, &mut used, 4, 0);
    assert!(r.is_ok());
    assert_eq!(d, vec![1, 2, 3]);
    assert_eq!(used.internal(), fresh.internal());
}

#[test]
fn pile_is_deterministic_in_deck_and_engine_state() {
    // The engine is the only randomness source, so equal inputs and
    // equal engine states give equal decks and equal engine states.
    let mut d1 = deck(20);
    let mut d2 = deck(20);
    let mut e1 = PCG::seeded(321);
    let mut e2 = PCG::seeded(321);
    assert!(pile_shuffle(&mut d1, &mut e1, 5, 80).is_ok());
    assert!(pile_shuffle(&mut d2, &mut e2, 5, 80).is_ok());
    assert_eq!(d1, d2);
    assert_eq!(e1.internal(), e2.internal());
}

#[test]
fn histogram_of_ascending_deck_is_concentrated() {
    let d = deck(4);
    let hist = displacement_histogram(&d);
    assert_eq!(hist, vec![0, 4, 0, 0]);
    let d = deck(52);
    let hist = displacement_histogram(&d);
    assert_eq!(hist[1], 52);
    assert_eq!(hist.iter().sum::<usize>(), 52);
}

#[test]
fn histogram_small_cases() {
    let d = vec![2, 1];
    assert_eq!(displacement_histogram(&d), vec![0, 2]);
    let d = vec![1];
    assert_eq!(displacement_histogram(&d), vec![1]);
    let d = vec![1, 3, 2, 4];
    // displacements: (1-4) mod 4 = 1, (3-1) mod 4 = 2, (2-3) mod 4 = 3,
    // (4-2) mod 4 = 2
    assert_eq!(displacement_histogram(&d), vec![0, 1, 2, 1]);
}

#[test]
fn entropy_of_ascending_deck_is_zero() {
    let d = deck(52);
    let hist = displacement_histogram(&d);
    assert_eq!(entropy_bits_of(&hist, 52), 0.0);
}

#[test]
fn entropy_lies_between_zero_and_log2_size() {
    let size = 52usize;
    let max = (size as f64).log2();
    let mut pcg = PCG::seeded(2024);
    for _ in 0..20 {
        let mut d = deck(size as i32);
        let r = pile_shuffle(&mut d, &mut pcg, 13, 250);
        assert!(r.is_ok());
        let hist = displacement_histogram(&d);
        let e = entropy_bits_of(&hist, size);
        assert!(e >= 0.0);
        assert!(e <= max + 1e-9);
    }
}

#[test]
fn apply_shuffle_covers_all_kinds() {
    let mut pcg = PCG::seeded(31);
    let mut d = deck(10);
    assert!(apply_shuffle(&mut d, &mut pcg, &Shuffle::Pile { pile_count: 3, move_count: 40 })
        .is_ok());
    assert_is_permutation_of_ascending(d, 10);
    let mut d = deck(10);
    assert!(apply_shuffle(&mut d, &mut pcg, &Shuffle::Riffle { riffle_count: 2 }).is_ok());
    assert_is_permutation_of_ascending(d, 10);
    let mut d = deck(10);
    assert!(apply_shuffle(&mut d, &mut pcg, &Shuffle::Weave { weave_count: 2, out: false })
        .is_ok());
    assert_is_permutation_of_ascending(d, 10);
}

#[test]
fn trials_return_one_histogram_per_repeat() {
    let mut pcg = PCG::seeded(9);
    let hs = trial_histograms(6, 10, &mut pcg, &Shuffle::Pile { pile_count: 3, move_count: 25 })
        .expect("retry budget is never exhausted by the real engine here");
    assert_eq!(hs.len(), 10);
    for h in &hs {
        assert_eq!(h.len(), 6);
        assert_eq!(h.iter().sum::<usize>(), 6);
    }
}

#[test]
fn trials_with_riffle_score_the_recombined_deck() {
    let mut pcg = PCG::seeded(9);
    let hs = trial_histograms(6, 4, &mut pcg, &Shuffle::Riffle { riffle_count: 5 })
        .expect("a riffle never faults");
    // The riffle recombines its own partition, so every trial scores the
    // ascending deck: one bin holds all six displacements.
    for h in &hs {
        assert_eq!(h, &vec![0, 6, 0, 0, 0, 0]);
    }
}

#[test]
fn stats_mean_and_sigma_match_recomputation() {
    let size = 12i32;
    let repeats = 30usize;
    let mut pcg = PCG::seeded(555);
    let hs = trial_histograms(size, repeats, &mut pcg, &Shuffle::Pile {
        pile_count: 4,
        move_count: 60,
    })
    .expect("retry budget is never exhausted by the real engine here");
    let scores: Vec<f64> = hs.iter().map(|h| entropy_bits_of(h, size as usize)).collect();
    let mean = scores.iter().sum::<f64>() / repeats as f64;
    let sigma = (scores
        .iter()
        .map(|x| {
            let d = x - mean;
            d * d
        })
        .sum::<f64>()
        / repeats as f64)
        .sqrt();
    // The same aggregation, written differently: accumulate in one pass.
    let mut total = 0.0f64;
    let mut total_sq = 0.0f64;
    for s in &scores {
        total += s;
        total_sq += s * s;
    }
    let mean2 = total / repeats as f64;
    let var2 = total_sq / repeats as f64 - mean2 * mean2;
    assert!((mean - mean2).abs() < 1e-9);
    assert!((sigma * sigma - var2).abs() < 1e-9);
}
