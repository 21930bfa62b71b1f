use risk_engine::probability::{
    conquer_probability, dice_distribution, export_entries, p_lose2, p_win1, p_win2, precompute,
    seed_probability_cache, ProbabilityCache,
};

#[test]
fn single_attacker_never_wins() {
    let mut cache = ProbabilityCache::new();
    for d in 0..20u16 {
        assert_eq!(conquer_probability(&mut cache, 1, d), 0);
    }
}

#[test]
fn empty_defence_is_certain_conquest() {
    let mut cache = ProbabilityCache::new();
    for a in 2..20u16 {
        assert_eq!(conquer_probability(&mut cache, a, 0), 10000);
    }
}

#[test]
fn two_versus_one_is_41_67_percent() {
    let mut cache = ProbabilityCache::new();
    assert_eq!(conquer_probability(&mut cache, 2, 1), 4167);
}

#[test]
fn probability_monotone_in_armies() {
    let mut cache = ProbabilityCache::new();
    for d in 0..15u16 {
        for a in 1..15u16 {
            let lo = conquer_probability(&mut cache, a, d);
            let hi = conquer_probability(&mut cache, a + 1, d);
            assert!(lo <= hi);
        }
    }
    for a in 1..15u16 {
        for d in 0..15u16 {
            let hi = conquer_probability(&mut cache, a, d);
            let lo = conquer_probability(&mut cache, a, d + 1);
            assert!(lo <= hi);
        }
    }
}

#[test]
fn dice_distribution_sizes() {
    assert_eq!(dice_distribution(1).unwrap().len(), 6);
    assert_eq!(dice_distribution(2).unwrap().len(), 21);
    assert_eq!(dice_distribution(3).unwrap().len(), 56);
    assert!(dice_distribution(0).is_err());
    assert!(dice_distribution(4).is_err());
}

#[test]
fn dice_distribution_pairs_are_ordered() {
    for n in 1..=3u16 {
        for (lo, hi) in dice_distribution(n).unwrap() {
            assert!(1 <= lo && lo <= hi && hi <= 6);
        }
    }
    // one die: the dummy second-best is always 1
    for (lo, _) in dice_distribution(1).unwrap() {
        assert_eq!(lo, 1);
    }
}

#[test]
fn round_odds_match_the_recursion_tables() {
    // the counts used by the estimator's tables, recomputed by enumeration
    assert_eq!(p_win2(3), (105, 441));
    assert_eq!(p_lose2(3), (196, 441));
    assert_eq!(p_win2(4), (420, 1176));
    assert_eq!(p_lose2(4), (378, 1176));
    assert_eq!(p_win2(9), (420, 1176));
    assert_eq!(p_win1(2, 1), (15, 36));
    assert_eq!(p_win1(2, 5), (35, 126));
    assert_eq!(p_win1(3, 1), (70, 126));
    assert_eq!(p_win1(7, 1), (210, 336));
}

#[test]
fn seeding_accepts_matching_entries() {
    let mut a = ProbabilityCache::new();
    precompute(&mut a, 6, 6);
    let entries = export_entries(&a);
    assert!(!entries.is_empty());
    let mut b = ProbabilityCache::new();
    assert!(seed_probability_cache(&mut b, &entries).is_ok());
}

#[test]
fn seeding_rejects_a_corrupt_entry() {
    let mut cache = ProbabilityCache::new();
    let entries = vec![(2u16, 1u16, 4167u16), (3u16, 1u16, 1u16)];
    assert!(seed_probability_cache(&mut cache, &entries).is_err());
}

#[test]
fn known_probabilities_sample() {
    let mut cache = ProbabilityCache::new();
    // one-die duels resolve through the 15/36 and 35/126 odds
    assert_eq!(conquer_probability(&mut cache, 2, 2), 1157);
    assert_eq!(conquer_probability(&mut cache, 3, 2), 3704);
    assert_eq!(conquer_probability(&mut cache, 5, 3), 6159);
    assert_eq!(conquer_probability(&mut cache, 10, 10), 4241);
}
