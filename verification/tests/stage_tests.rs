use kanji_card::stage::{LearnSetState, SetState, DAY_MILLIS};

#[test]
fn next_walks_the_fixed_order() {
    assert_eq!(LearnSetState::Tobe.next(), LearnSetState::OneDay);
    assert_eq!(LearnSetState::OneDay.next(), LearnSetState::TwoDay);
    assert_eq!(LearnSetState::TwoDay.next(), LearnSetState::ThreeDay);
    assert_eq!(LearnSetState::FiveDay.next(), LearnSetState::SevenDay);
    assert_eq!(LearnSetState::SevenDay.next(), LearnSetState::TenDay);
}

#[test]
fn promotion_from_day3_reaches_day5_exactly() {
    assert_eq!(LearnSetState::ThreeDay.next(), LearnSetState::FiveDay);
}

#[test]
fn terminal_stage_is_absorbing() {
    assert_eq!(LearnSetState::TenDay.next(), LearnSetState::TenDay);
    assert!(LearnSetState::TenDay.is_terminal());
    assert!(!LearnSetState::SevenDay.is_terminal());
}

#[test]
fn offsets_follow_the_fixed_table() {
    assert_eq!(LearnSetState::Tobe.offset_millis(), 0);
    assert_eq!(LearnSetState::OneDay.offset_millis(), DAY_MILLIS);
    assert_eq!(LearnSetState::TwoDay.offset_millis(), 2 * DAY_MILLIS);
    assert_eq!(LearnSetState::ThreeDay.offset_millis(), 3 * DAY_MILLIS);
    assert_eq!(LearnSetState::FiveDay.offset_millis(), 5 * DAY_MILLIS);
    assert_eq!(LearnSetState::SevenDay.offset_millis(), 7 * DAY_MILLIS);
    assert_eq!(LearnSetState::TenDay.offset_millis(), 10 * DAY_MILLIS);
}

#[test]
fn coarse_projection_keeps_only_intake_as_tobe() {
    assert_eq!(LearnSetState::Tobe.as_set_state(), SetState::Tobe);
    assert_eq!(LearnSetState::OneDay.as_set_state(), SetState::Current);
    assert_eq!(LearnSetState::TenDay.as_set_state(), SetState::Current);
}
