use frame_lcm::composite::{combinations, composite_gt_n, factorizations, ratio, summarize, CompositeS};
use frame_lcm::factorization::{factorize, reconstruct, Factorization};
use frame_lcm::merge::{common, common_pair, merge, merge_pair};

fn fac(entries: &[(u64, u64)]) -> Factorization {
    Factorization { entries: entries.to_vec() }
}

#[test]
fn factorize_scenario_durations() {
    assert_eq!(factorize(160).entries, vec![(2, 5), (5, 1)]);
    assert_eq!(factorize(220).entries, vec![(2, 2), (5, 1), (11, 1)]);
    assert_eq!(factorize(280).entries, vec![(2, 3), (5, 1), (7, 1)]);
}

#[test]
fn factorize_one_is_empty() {
    assert!(factorize(1).entries.is_empty());
    assert_eq!(reconstruct(&Factorization::empty()), Some(1));
}

#[test]
fn factorize_primes_and_powers() {
    assert_eq!(factorize(2).entries, vec![(2, 1)]);
    assert_eq!(factorize(97).entries, vec![(97, 1)]);
    assert_eq!(factorize(1_000_000_007).entries, vec![(1_000_000_007, 1)]);
    assert_eq!(factorize(1 << 63).entries, vec![(2, 63)]);
    assert_eq!(factorize(360).entries, vec![(2, 3), (3, 2), (5, 1)]);
}

#[test]
fn reconstruct_round_trip() {
    for n in [1u64, 2, 3, 12, 80, 160, 220, 280, 360, 1024, 9_699_690, 1_000_000_007, 1 << 63, u32::MAX as u64] {
        assert_eq!(reconstruct(&factorize(n)), Some(n as u128));
    }
}

#[test]
fn reconstruct_overflow_is_none() {
    assert_eq!(reconstruct(&fac(&[(2, 127)])), Some(1u128 << 127));
    assert_eq!(reconstruct(&fac(&[(2, 128)])), None);
    assert_eq!(reconstruct(&fac(&[(3, 1), (2_147_483_647, 4), (4_294_967_291, 2)])), None);
}

#[test]
fn exponent_lookup() {
    let f = factorize(280);
    assert_eq!(f.exponent(2), 3);
    assert_eq!(f.exponent(7), 1);
    assert_eq!(f.exponent(3), 0);
}

#[test]
fn merge_pair_takes_larger_exponents() {
    let m = merge_pair(&factorize(160), &factorize(220));
    assert_eq!(m.entries, vec![(2, 5), (5, 1), (11, 1)]);
    let m = merge_pair(&fac(&[(3, 1)]), &fac(&[(2, 2), (7, 4)]));
    assert_eq!(m.entries, vec![(2, 2), (3, 1), (7, 4)]);
}

#[test]
fn merge_of_none_is_empty() {
    assert!(merge(&Vec::new()).entries.is_empty());
}

#[test]
fn merge_of_scenario() {
    let fs = vec![factorize(160), factorize(220), factorize(220), factorize(280)];
    let m = merge(&fs);
    assert_eq!(m.entries, vec![(2, 5), (5, 1), (7, 1), (11, 1)]);
    assert_eq!(reconstruct(&m), Some(12320));
}

#[test]
fn common_of_scenario() {
    let fs = vec![factorize(160), factorize(220), factorize(280)];
    assert_eq!(common(&fs).entries, vec![(2, 2), (5, 1)]);
    assert!(common(&Vec::new()).entries.is_empty());
    assert_eq!(common_pair(&factorize(12), &factorize(35)).entries, vec![]);
    assert_eq!(common(&vec![factorize(12)]).entries, vec![(2, 2), (3, 1)]);
}

#[test]
fn composite_new_and_frames() {
    let c = CompositeS::new(2, 7);
    assert_eq!(c.time_a, 2);
    assert_eq!(c.time_b, 7);
    assert_eq!(c.frames_a(), 120);
    assert_eq!(c.frames_b(), 420);
    assert_eq!(c.duration_frames, 620);
    assert_eq!(c.duration_frames_factors.entries, vec![(2, 2), (5, 1), (31, 1)]);
    assert_eq!(CompositeS::new(0, 0).duration_frames, 80);
}

#[test]
fn combinations_in_row_major_order() {
    let cs = combinations(&vec![1, 2]);
    let got: Vec<(u64, u64, u64)> = cs.iter().map(|c| (c.time_a, c.time_b, c.duration_frames)).collect();
    assert_eq!(got, vec![(1, 1, 200), (1, 2, 260), (2, 1, 260), (2, 2, 320)]);
    assert!(combinations(&Vec::new()).is_empty());
    assert_eq!(combinations(&vec![1, 2, 3, 5, 7, 10]).len(), 36);
}

#[test]
fn filter_above_thirty_is_empty() {
    let cs = combinations(&vec![1, 2]);
    assert!(composite_gt_n(&cs, 30).is_empty());
}

#[test]
fn filter_keeps_pairs_with_large_primes() {
    let cs = combinations(&vec![1, 2]);
    let pairs = |r: Vec<CompositeS>| r.iter().map(|c| (c.time_a, c.time_b)).collect::<Vec<_>>();
    assert_eq!(pairs(composite_gt_n(&cs, 10)), vec![(1, 2), (2, 1)]);
    assert_eq!(pairs(composite_gt_n(&cs, 12)), vec![(1, 2), (2, 1)]);
    assert_eq!(pairs(composite_gt_n(&cs, 13)), vec![]);
    assert_eq!(pairs(composite_gt_n(&cs, 4)).len(), 4);
    let cs = combinations(&vec![2, 7]);
    assert_eq!(pairs(composite_gt_n(&cs, 30)), vec![(2, 7), (7, 2)]);
}

#[test]
fn ratio_of_scenario() {
    let cs = combinations(&vec![1, 2]);
    let got: Vec<u128> = cs.iter().map(|c| ratio(20800, c)).collect();
    assert_eq!(got, vec![104, 80, 80, 65]);
}

#[test]
fn summarize_scenario() {
    let s = summarize(&vec![1, 2]);
    assert_eq!(s.merged_factors.entries, vec![(2, 6), (5, 2), (13, 1)]);
    assert_eq!(s.common_factors.entries, vec![(2, 2), (5, 1)]);
    assert_eq!(s.number, Some(20800));
    assert_eq!(s.loop_values, vec![104, 80, 80, 65]);
    for (c, lv) in s.composite.iter().zip(s.loop_values.iter()) {
        assert_eq!(lv * c.duration_frames as u128, 20800);
        assert_eq!(20800 % c.duration_frames as u128, 0);
    }
}

#[test]
fn summarize_full_timing_list() {
    let s = summarize(&vec![1, 2, 3, 5, 7, 10]);
    let n = s.number.unwrap();
    assert_eq!(s.loop_values.len(), 36);
    for (c, lv) in s.composite.iter().zip(s.loop_values.iter()) {
        assert_eq!(lv * c.duration_frames as u128, n);
    }
    let fs = factorizations(&s.composite);
    assert_eq!(fs.len(), 36);
}

#[test]
fn summarize_of_no_timings() {
    let s = summarize(&Vec::new());
    assert!(s.composite.is_empty());
    assert!(s.merged_factors.entries.is_empty());
    assert_eq!(s.number, Some(1));
    assert!(s.loop_values.is_empty());
}
