use kanji_card::card::Card;
use kanji_card::cardset::{CardSet, Story};
use kanji_card::llm::ExtractedWord;
use kanji_card::service::SetService;
use kanji_card::stage::LearnSetState;
use kanji_card::LifecycleError;

#[test]
fn from_parts_round_trips_a_state() {
    // build a state through the service, then rebuild it from its records
    let mut service = SetService::new();
    service
        .save_words(
            vec![
                ExtractedWord { word: "本".to_string(), translation: "book".to_string() },
                ExtractedWord { word: "猫".to_string(), translation: "cat".to_string() },
            ],
            false,
        )
        .unwrap();
    let set_id = service.list_sets()[0].id();
    service.to_next_iter(set_id, 10).unwrap();

    let sets = service.list_sets();
    let words = service.list_released_words(None);
    let stories = service.list_released_stories();
    let rebuilt = SetService::from_parts(&sets, &words, &stories, 1_000).unwrap();

    let rebuilt_sets = rebuilt.list_sets();
    assert_eq!(rebuilt_sets.len(), 1);
    assert_eq!(rebuilt_sets[0].id(), set_id);
    assert_eq!(rebuilt_sets[0].state(), LearnSetState::OneDay);
    assert_eq!(rebuilt_sets[0].state_timestamp(), Some(10));
    assert_eq!(rebuilt_sets[0].words().len(), 2);
    assert_eq!(rebuilt_sets[0].words()[0].word(), "本");
}

#[test]
fn from_parts_rejects_records_that_break_invariants() {
    // an active card carrying a release stamp is refused
    let stamped = Card::from_parts(1, "本".to_string(), None, "book".to_string(), Some(5));
    let set = CardSet::from_parts(2, LearnSetState::Tobe, None, vec![stamped], None);
    assert_eq!(
        SetService::from_parts(&vec![set], &vec![], &vec![], 100).err(),
        Some(LifecycleError::StorageFailure)
    );

    // an archived card without a release stamp is refused
    let unstamped = Card::from_parts(1, "本".to_string(), None, "book".to_string(), None);
    assert_eq!(
        SetService::from_parts(&vec![], &vec![unstamped], &vec![], 100).err(),
        Some(LifecycleError::StorageFailure)
    );

    // an identifier at or above the counter is refused
    let late = Card::from_parts(100, "本".to_string(), None, "book".to_string(), Some(5));
    assert_eq!(
        SetService::from_parts(&vec![], &vec![late], &vec![], 100).err(),
        Some(LifecycleError::StorageFailure)
    );

    // an active set in the terminal stage is refused
    let terminal = CardSet::from_parts(3, LearnSetState::TenDay, Some(1), vec![], None);
    assert_eq!(
        SetService::from_parts(&vec![terminal], &vec![], &vec![], 100).err(),
        Some(LifecycleError::StorageFailure)
    );
}

#[test]
fn rebuilt_stories_keep_their_texts() {
    let story = Story::from_parts(
        7,
        vec!["猫がいます".to_string()],
        vec!["there is a cat".to_string()],
        vec!["ねこがいます".to_string()],
    );
    let service = SetService::from_parts(&vec![], &vec![], &vec![story], 100).unwrap();
    let stories = service.list_released_stories();
    assert_eq!(stories.len(), 1);
    assert_eq!(stories[0].id(), 7);
    assert_eq!(stories[0].story()[0], "猫がいます");
    assert_eq!(stories[0].story_reading()[0], "ねこがいます");
}
