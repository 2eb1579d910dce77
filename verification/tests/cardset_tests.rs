use kanji_card::cardset::CardSet;
use kanji_card::stage::{LearnSetState, DAY_MILLIS};
use kanji_card::LifecycleError;
use kanji_card::MAX_SET_LEN;

fn filled_set(count: u64) -> CardSet {
    let mut set = CardSet::new(100);
    let mut i: u64 = 0;
    while i < count {
        let word = format!("word{}", i);
        set.push(200 + i, &word, "meaning").expect("set accepts while writable");
        i += 1;
    }
    set
}

#[test]
fn new_set_is_empty_writable_intake() {
    let set = CardSet::new(1);
    assert_eq!(set.id(), 1);
    assert_eq!(set.state(), LearnSetState::Tobe);
    assert!(set.state_timestamp().is_none());
    assert!(set.words().is_empty());
    assert!(set.story().is_none());
    assert!(set.is_writabe());
}

#[test]
fn push_fills_up_to_capacity_then_refuses() {
    let mut set = filled_set(MAX_SET_LEN as u64);
    assert_eq!(set.words().len(), MAX_SET_LEN);
    assert!(!set.is_writabe());
    let overflow = set.push(999, "余り", "leftover");
    assert_eq!(overflow, Err(LifecycleError::InvalidTransition));
    assert_eq!(set.words().len(), MAX_SET_LEN);
}

#[test]
fn push_after_promotion_is_refused() {
    let mut set = filled_set(1);
    assert!(set.iter(10).is_none());
    assert_eq!(set.state(), LearnSetState::OneDay);
    assert_eq!(set.push(999, "あと", "later"), Err(LifecycleError::InvalidTransition));
}

#[test]
fn eligibility_boundary_at_exactly_one_day() {
    let mut set = filled_set(2);
    let entered: i64 = 1_700_000_000_000;
    assert!(set.iter(entered).is_none());
    assert_eq!(set.state(), LearnSetState::OneDay);
    assert_eq!(set.time_to_learn(), Some(entered + DAY_MILLIS));
    // 23 hours 59 minutes after entering the stage: not yet due
    assert!(!set.need_to_learn(entered + DAY_MILLIS - 60_000));
    // 24 hours exactly: due
    assert!(set.need_to_learn(entered + DAY_MILLIS));
    assert!(set.need_to_learn(entered + DAY_MILLIS + 1));
}

#[test]
fn set_without_stage_entry_is_never_due() {
    let set = filled_set(1);
    assert!(set.time_to_learn().is_none());
    assert!(!set.need_to_learn(i64::MAX));
}

#[test]
fn promotion_refreshes_the_stage_entry_instant() {
    let mut set = filled_set(1);
    assert!(set.iter(1000).is_none());
    assert_eq!(set.state_timestamp(), Some(1000));
    assert!(set.iter(2000).is_none());
    assert_eq!(set.state_timestamp(), Some(2000));
    assert_eq!(set.state(), LearnSetState::TwoDay);
}

#[test]
fn migration_fires_exactly_on_entering_the_terminal_stage() {
    let mut set = filled_set(3);
    // Tobe -> OneDay -> TwoDay -> ThreeDay -> FiveDay -> SevenDay
    for step in 0..5 {
        assert!(set.iter(step).is_none());
    }
    assert_eq!(set.state(), LearnSetState::SevenDay);
    let released = set.iter(777).expect("the step into the terminal stage migrates");
    assert_eq!(set.state(), LearnSetState::TenDay);
    assert_eq!(released.len(), 3);
    for (i, card) in released.iter().enumerate() {
        assert_eq!(card.word(), format!("word{}", i));
        assert_eq!(card.release_timestamp(), Some(777));
    }
    // the set's own cards stay unstamped; the set is handed to the caller
    // for deletion
    for card in set.words() {
        assert!(card.release_timestamp().is_none());
    }
}

#[test]
fn put_story_derives_readings_per_sentence() {
    let mut set = filled_set(1);
    let story = vec!["食べる".to_string(), "ねこ".to_string()];
    let translate = vec!["to eat".to_string(), "cat".to_string()];
    set.put_story(50, &story, &translate).expect("intake-stage set takes a story");
    let attached = set.story().expect("story attached");
    assert_eq!(attached.id(), 50);
    assert_eq!(attached.story(), &story);
    assert_eq!(attached.story_translate(), &translate);
    let readings = attached.story_reading();
    assert_eq!(readings.len(), 2);
    assert_ne!(readings[0], "食べる");
    assert_eq!(readings[1], "ねこ");
}

#[test]
fn put_story_refused_twice_or_after_promotion() {
    let mut set = filled_set(1);
    let story = vec!["ねこ".to_string()];
    let translate = vec!["cat".to_string()];
    set.put_story(50, &story, &translate).expect("first attach succeeds");
    assert_eq!(set.put_story(51, &story, &translate), Err(LifecycleError::InvalidTransition));

    let mut promoted = filled_set(1);
    assert!(promoted.iter(1).is_none());
    assert_eq!(
        promoted.put_story(52, &story, &translate),
        Err(LifecycleError::InvalidTransition)
    );
}
