use risk_engine::card::{calculate_trade_in_bonus, CardKind};

#[test]
fn three_infantry_grant_four() {
    let kinds = vec![CardKind::Infantry, CardKind::Infantry, CardKind::Infantry];
    assert_eq!(calculate_trade_in_bonus(&kinds), Ok(4));
}

#[test]
fn three_cavalry_grant_six() {
    let kinds = vec![CardKind::Cavalry, CardKind::Cavalry, CardKind::Cavalry];
    assert_eq!(calculate_trade_in_bonus(&kinds), Ok(6));
}

#[test]
fn three_artillery_grant_eight() {
    let kinds = vec![CardKind::Artillery, CardKind::Artillery, CardKind::Artillery];
    assert_eq!(calculate_trade_in_bonus(&kinds), Ok(8));
}

#[test]
fn one_of_each_grants_ten() {
    let kinds = vec![CardKind::Infantry, CardKind::Cavalry, CardKind::Artillery];
    assert_eq!(calculate_trade_in_bonus(&kinds), Ok(10));
}

#[test]
fn joker_completed_pair_grants_ten() {
    let kinds = vec![CardKind::Infantry, CardKind::Infantry, CardKind::Joker];
    assert_eq!(calculate_trade_in_bonus(&kinds), Ok(10));
}

#[test]
fn joker_completed_mix_grants_ten() {
    let kinds = vec![CardKind::Infantry, CardKind::Cavalry, CardKind::Joker];
    assert_eq!(calculate_trade_in_bonus(&kinds), Ok(10));
    let all_wild = vec![CardKind::Joker, CardKind::Joker, CardKind::Joker];
    assert_eq!(calculate_trade_in_bonus(&all_wild), Ok(10));
}

#[test]
fn mismatched_set_is_rejected() {
    let kinds = vec![CardKind::Infantry, CardKind::Infantry, CardKind::Cavalry];
    assert!(calculate_trade_in_bonus(&kinds).is_err());
}

#[test]
fn short_or_long_sets_are_rejected() {
    let two = vec![CardKind::Infantry, CardKind::Infantry];
    assert!(calculate_trade_in_bonus(&two).is_err());
    let four = vec![
        CardKind::Infantry,
        CardKind::Infantry,
        CardKind::Infantry,
        CardKind::Infantry,
    ];
    assert!(calculate_trade_in_bonus(&four).is_err());
}
