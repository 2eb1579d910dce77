use kanji_card::card::Card;
use kanji_card::cardset::{CardSet, Story};
use kanji_card::repo::{CardSetRepository, ReleaseRepository};
use kanji_card::stage::LearnSetState;

fn released(id: u64, word: &str, when: i64) -> Card {
    let mut card = Card::new(id, word, "meaning");
    card.set_release_timestamp(when);
    card
}

#[test]
fn card_set_repository_saves_loads_and_removes() {
    let mut repo = CardSetRepository::new();
    let mut set = CardSet::new(1);
    set.push(2, "猫", "cat").unwrap();
    repo.save(set);
    assert_eq!(repo.len(), 1);
    let loaded = repo.load(1).expect("saved set loads");
    assert_eq!(loaded.words()[0].word(), "猫");
    assert!(repo.load(9).is_none());
    let removed = repo.remove(1).expect("saved set removes");
    assert_eq!(removed.id(), 1);
    assert!(repo.load(1).is_none());
    assert!(repo.remove(1).is_none());
}

#[test]
fn save_overwrites_the_same_set_idempotently() {
    let mut repo = CardSetRepository::new();
    let mut set = CardSet::new(1);
    set.push(2, "猫", "cat").unwrap();
    repo.save(set.clone());
    repo.save(set);
    assert_eq!(repo.len(), 1);
}

#[test]
fn max_id_in_state_picks_the_most_recent_of_that_stage() {
    let mut repo = CardSetRepository::new();
    repo.save(CardSet::new(3));
    repo.save(CardSet::new(7));
    let mut promoted = CardSet::new(9);
    assert!(promoted.iter(1).is_none());
    repo.save(promoted);
    assert_eq!(repo.max_id_in_state(LearnSetState::Tobe), Some(7));
    assert_eq!(repo.max_id_in_state(LearnSetState::OneDay), Some(9));
    assert_eq!(repo.max_id_in_state(LearnSetState::TwoDay), None);
}

#[test]
fn list_ids_filters_by_stage() {
    let mut repo = CardSetRepository::new();
    repo.save(CardSet::new(3));
    let mut promoted = CardSet::new(4);
    assert!(promoted.iter(1).is_none());
    repo.save(promoted);
    assert_eq!(repo.list_ids(LearnSetState::Tobe), vec![3]);
    assert_eq!(repo.list_ids(LearnSetState::OneDay), vec![4]);
    assert_eq!(repo.list_all().len(), 2);
}

#[test]
fn release_repository_saves_cards_and_story_together() {
    let mut repo = ReleaseRepository::new();
    let story = Story::from_parts(
        9,
        vec!["一".to_string()],
        vec!["one".to_string()],
        vec!["いち".to_string()],
    );
    repo.save(vec![released(1, "一", 5), released(2, "二", 5)], Some(story));
    assert_eq!(repo.words_len(), 2);
    assert_eq!(repo.list_word_ids(), vec![1, 2]);
    assert_eq!(repo.load_word(1).expect("card stored").word(), "一");
    assert_eq!(repo.list_story_ids(), vec![9]);
    assert_eq!(repo.load_story(9).expect("story stored").story()[0], "一");
    assert_eq!(repo.list_all_words().len(), 2);
    assert_eq!(repo.list_all_stories().len(), 1);
}

#[test]
fn load_word_by_ids_skips_missing_identifiers() {
    let mut repo = ReleaseRepository::new();
    repo.save(vec![released(1, "一", 5), released(2, "二", 5)], None);
    let loaded = repo.load_word_by_ids(&vec![2, 99, 1]);
    let words: Vec<&str> = loaded.iter().map(|c| c.word()).collect();
    assert_eq!(words, vec!["二", "一"]);
}

#[test]
fn update_word_upserts_in_place() {
    let mut repo = ReleaseRepository::new();
    repo.save(vec![released(1, "一", 5)], None);
    repo.update_word(released(1, "壱", 6));
    assert_eq!(repo.words_len(), 1);
    assert_eq!(repo.load_word(1).unwrap().word(), "壱");
}

#[test]
fn remove_word_by_ids_skips_missing_identifiers() {
    let mut repo = ReleaseRepository::new();
    repo.save(vec![released(1, "一", 5), released(2, "二", 5)], None);
    repo.remove_word_by_ids(&vec![1, 42]);
    assert_eq!(repo.list_word_ids(), vec![2]);
    assert!(repo.remove_word(1).is_none());
    assert!(repo.remove_word(2).is_some());
}

#[test]
fn remove_story_by_ids_clears_stories() {
    let mut repo = ReleaseRepository::new();
    let story = Story::from_parts(9, vec![], vec![], vec![]);
    repo.save(vec![], Some(story));
    assert_eq!(repo.list_story_ids(), vec![9]);
    repo.remove_story_by_ids(&vec![9]);
    assert!(repo.list_story_ids().is_empty());
    assert!(repo.remove_story(9).is_none());
}
