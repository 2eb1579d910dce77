use kanji_card::llm::ExtractedWord;
use kanji_card::service::SetService;
use kanji_card::stage::LearnSetState;
use kanji_card::LifecycleError;

fn ew(word: &str, translation: &str) -> ExtractedWord {
    ExtractedWord { word: word.to_string(), translation: translation.to_string() }
}

/// Drive the single intake-stage set of a fresh service into the archive.
fn archive_first_set(service: &mut SetService, now: i64) -> u64 {
    let set_id = service.list_sets()[0].id();
    for step in 0..5 {
        assert_eq!(service.to_next_iter(set_id, now + step), Ok(false));
    }
    assert_eq!(service.to_next_iter(set_id, now + 5), Ok(true));
    set_id
}

#[test]
fn intake_drops_known_and_repeated_words() {
    let mut service = SetService::new();
    service.save_words(vec![ew("本", "book")], false).unwrap();
    archive_first_set(&mut service, 0);
    // "本" is in the archive now; intake of 本 and 猫 adds only 猫
    service
        .save_words(vec![ew("本", "book"), ew("猫", "cat")], false)
        .unwrap();
    let sets = service.list_sets();
    assert_eq!(sets.len(), 1);
    assert_eq!(sets[0].words().len(), 1);
    assert_eq!(sets[0].words()[0].word(), "猫");
}

#[test]
fn intake_drops_duplicates_within_the_input() {
    let mut service = SetService::new();
    service
        .save_words(vec![ew("猫", "cat"), ew("犬", "dog"), ew("猫", "a cat")], false)
        .unwrap();
    let sets = service.list_sets();
    assert_eq!(sets.len(), 1);
    let words: Vec<&str> = sets[0].words().iter().map(|c| c.word()).collect();
    assert_eq!(words, vec!["猫", "犬"]);
}

#[test]
fn intake_dedups_against_active_sets_too() {
    let mut service = SetService::new();
    service.save_words(vec![ew("犬", "dog")], false).unwrap();
    service.save_words(vec![ew("犬", "dog again"), ew("鳥", "bird")], false).unwrap();
    let sets = service.list_sets();
    assert_eq!(sets.len(), 1);
    let words: Vec<&str> = sets[0].words().iter().map(|c| c.word()).collect();
    assert_eq!(words, vec!["犬", "鳥"]);
}

#[test]
fn nine_words_fill_one_set_and_open_a_second() {
    let mut service = SetService::new();
    let mut words = Vec::new();
    for i in 0..9 {
        words.push(ew(&format!("word{}", i), &format!("meaning{}", i)));
    }
    service.save_words(words, false).unwrap();
    let sets = service.list_sets();
    assert_eq!(sets.len(), 2);
    assert_eq!(sets[0].words().len(), 8);
    assert!(!sets[0].is_writabe());
    assert_eq!(sets[1].words().len(), 1);
    assert!(sets[1].is_writabe());
    assert_eq!(sets[1].words()[0].word(), "word8");
}

#[test]
fn intake_appends_to_the_most_recent_writable_set() {
    let mut service = SetService::new();
    service.save_words(vec![ew("一", "one")], false).unwrap();
    service.save_words(vec![ew("二", "two")], false).unwrap();
    let sets = service.list_sets();
    assert_eq!(sets.len(), 1);
    assert_eq!(sets[0].words().len(), 2);
}

#[test]
fn empty_intake_changes_nothing() {
    let mut service = SetService::new();
    service.save_words(vec![], false).unwrap();
    assert!(service.list_sets().is_empty());
    service.save_words(vec![ew("一", "one"), ew("一", "one")], false).unwrap();
    service.save_words(vec![ew("一", "one")], false).unwrap();
    assert_eq!(service.list_sets().len(), 1);
    assert_eq!(service.list_sets()[0].words().len(), 1);
}

#[test]
fn intake_trims_candidates_and_dedups_against_the_trimmed_word() {
    let mut service = SetService::new();
    service.save_words(vec![ew("  猫 ", " cat ")], false).unwrap();
    let sets = service.list_sets();
    assert_eq!(sets[0].words()[0].word(), "猫");
    assert_eq!(sets[0].words()[0].translation(), "cat");
    // the stored word is trimmed, so the bare word is now known
    service.save_words(vec![ew("猫", "cat")], false).unwrap();
    assert_eq!(service.list_sets()[0].words().len(), 1);
}

#[test]
fn promote_unknown_set_reports_not_found() {
    let mut service = SetService::new();
    assert_eq!(service.to_next_iter(12345, 0), Err(LifecycleError::NotFound));
}

#[test]
fn promotion_walks_stages_and_migrates_from_day7() {
    let mut service = SetService::new();
    service.save_words(vec![ew("本", "book"), ew("猫", "cat")], false).unwrap();
    let set_id = service.list_sets()[0].id();

    let expected = [
        LearnSetState::OneDay,
        LearnSetState::TwoDay,
        LearnSetState::ThreeDay,
        LearnSetState::FiveDay,
        LearnSetState::SevenDay,
    ];
    for (step, want) in expected.iter().enumerate() {
        assert_eq!(service.to_next_iter(set_id, step as i64), Ok(false));
        let set = service.get_set(set_id).unwrap();
        assert_eq!(set.state(), *want);
        assert_eq!(set.state_timestamp(), Some(step as i64));
    }

    // the step out of Day7 stamps every card and migrates the set
    assert_eq!(service.to_next_iter(set_id, 999), Ok(true));
    assert!(matches!(service.get_set(set_id), Err(LifecycleError::NotFound)));
    let archived = service.list_released_words(None);
    assert_eq!(archived.len(), 2);
    for card in &archived {
        assert_eq!(card.release_timestamp(), Some(999));
    }
    let words: Vec<&str> = archived.iter().map(|c| c.word()).collect();
    assert_eq!(words, vec!["本", "猫"]);
}

#[test]
fn recall_round_trip_restores_words_and_empties_archive() {
    let mut service = SetService::new();
    service.save_words(vec![ew("本", "book"), ew("猫", "cat")], false).unwrap();
    archive_first_set(&mut service, 0);
    assert!(service.list_sets().is_empty());
    let ids = service.list_released_word_ids();
    assert_eq!(ids.len(), 2);

    service.mark_as_tobe(&ids).unwrap();

    let sets = service.list_sets();
    assert_eq!(sets.len(), 1);
    assert_eq!(sets[0].state(), LearnSetState::Tobe);
    let pairs: Vec<(&str, &str)> =
        sets[0].words().iter().map(|c| (c.word(), c.translation())).collect();
    assert_eq!(pairs, vec![("本", "book"), ("猫", "cat")]);
    assert!(service.list_released_word_ids().is_empty());
    assert!(service.list_released_words(None).is_empty());
}

#[test]
fn recall_skips_identifiers_the_archive_does_not_hold() {
    let mut service = SetService::new();
    service.save_words(vec![ew("本", "book")], false).unwrap();
    archive_first_set(&mut service, 0);
    let mut ids = service.list_released_word_ids();
    ids.push(987_654);
    service.mark_as_tobe(&ids).unwrap();
    assert_eq!(service.list_sets().len(), 1);
    assert_eq!(service.list_sets()[0].words().len(), 1);
}

#[test]
fn search_is_case_insensitive_across_all_texts() {
    let mut service = SetService::new();
    service
        .save_words(vec![ew("食べる", "To Eat"), ew("ねこ", "Cat")], false)
        .unwrap();
    archive_first_set(&mut service, 0);

    let all = service.list_released_words(None);
    assert_eq!(all.len(), 2);
    // translation, case-folded
    let hits = service.list_released_words(Some(&"to eat".to_string()));
    assert_eq!(hits.len(), 1);
    assert_eq!(hits[0].word(), "食べる");
    // word text
    let hits = service.list_released_words(Some(&"ねこ".to_string()));
    assert_eq!(hits.len(), 1);
    assert_eq!(hits[0].word(), "ねこ");
    // derived reading of the kanji word
    let hits = service.list_released_words(Some(&"たべ".to_string()));
    assert_eq!(hits.len(), 1);
    assert_eq!(hits[0].word(), "食べる");
    // no match
    assert!(service.list_released_words(Some(&"dog".to_string())).is_empty());
}

#[test]
fn attach_story_once_and_only_while_in_intake() {
    let mut service = SetService::new();
    service.save_words(vec![ew("猫", "cat")], false).unwrap();
    let set_id = service.list_sets()[0].id();
    let story = vec!["猫がいます".to_string()];
    let translate = vec!["there is a cat".to_string()];

    assert_eq!(service.attach_story(99, &story, &translate), Err(LifecycleError::NotFound));
    service.attach_story(set_id, &story, &translate).unwrap();
    let set = service.get_set(set_id).unwrap();
    let attached = set.story().expect("story attached");
    assert_eq!(attached.story(), &story);
    assert_eq!(attached.story_reading().len(), 1);
    assert_eq!(
        service.attach_story(set_id, &story, &translate),
        Err(LifecycleError::InvalidTransition)
    );
}

#[test]
fn migrated_story_lands_in_the_archive() {
    let mut service = SetService::new();
    service.save_words(vec![ew("猫", "cat")], false).unwrap();
    let set_id = service.list_sets()[0].id();
    let story = vec!["猫がいます".to_string()];
    let translate = vec!["there is a cat".to_string()];
    service.attach_story(set_id, &story, &translate).unwrap();
    archive_first_set(&mut service, 0);
    let stories = service.list_released_stories();
    assert_eq!(stories.len(), 1);
    assert_eq!(stories[0].story(), &story);
    assert_eq!(stories[0].story_translate(), &translate);
}

#[test]
fn overview_counts_and_previews_each_bucket() {
    let mut service = SetService::new();
    // archive one word
    service.save_words(vec![ew("一", "one")], false).unwrap();
    archive_first_set(&mut service, 0);
    // a full set, promoted once (under review), plus a fresh writable set
    let mut words = Vec::new();
    for i in 0..9 {
        words.push(ew(&format!("word{}", i), "meaning"));
    }
    service.save_words(words, false).unwrap();
    let full_id = service.list_sets()[0].id();
    assert_eq!(service.to_next_iter(full_id, 5), Ok(false));

    let overview = service.get_overview();
    assert_eq!(overview.tobe.total_words, 1);
    assert_eq!(overview.tobe.preview_words.len(), 1);
    assert_eq!(overview.tobe.preview_words[0].word(), "word8");
    assert_eq!(overview.current.total_words, 8);
    assert_eq!(overview.current.preview_words.len(), 3);
    assert_eq!(overview.current.preview_words[0].word(), "word0");
    assert_eq!(overview.finished.total_words, 1);
    assert_eq!(overview.finished.preview_words.len(), 1);
    assert_eq!(overview.finished.preview_words[0].word(), "一");
}

#[test]
fn get_released_word_finds_archived_cards() {
    let mut service = SetService::new();
    service.save_words(vec![ew("本", "book")], false).unwrap();
    archive_first_set(&mut service, 42);
    let ids = service.list_released_word_ids();
    let card = service.get_released_word(ids[0]).expect("archived card loads");
    assert_eq!(card.word(), "本");
    assert_eq!(card.release_timestamp(), Some(47));
    assert!(service.get_released_word(424_242).is_none());
}

#[test]
fn error_descriptions_are_not_empty() {
    assert!(!LifecycleError::NotFound.describe().is_empty());
    assert!(!LifecycleError::InvalidTransition.describe().is_empty());
    assert!(!LifecycleError::StorageFailure.describe().is_empty());
    assert!(!LifecycleError::UpstreamContentError.describe().is_empty());
}
