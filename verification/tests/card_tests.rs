use kanji_card::card::Card;
use kanji_card::text::{lower_chars, to_reading, trimmed};

#[test]
fn new_card_trims_and_starts_unreleased() {
    let card = Card::new(7, "  食べる ", " to eat  ");
    assert_eq!(card.id(), 7);
    assert_eq!(card.word(), "食べる");
    assert_eq!(card.translation(), "to eat");
    assert!(card.release_timestamp().is_none());
}

#[test]
fn reading_of_kanji_word_is_derived_and_differs() {
    let card = Card::new(1, "食べる", "to eat");
    let reading = card.reading().expect("a kanji word gets a reading");
    assert_ne!(reading, "食べる");
    assert!(!reading.is_empty());
}

#[test]
fn reading_of_kana_word_is_absent() {
    let card = Card::new(2, "ねこ", "cat");
    assert!(card.reading().is_none());
}

#[test]
fn reading_derivation_on_neko_kanji() {
    assert_eq!(to_reading("猫"), Some("ねこ".to_string()));
    assert_eq!(to_reading("ねこ"), None);
}

#[test]
fn release_stamp_is_set_once_at_migration() {
    let mut card = Card::new(3, "本", "book");
    card.set_release_timestamp(1_700_000_000_000);
    assert_eq!(card.release_timestamp(), Some(1_700_000_000_000));
}

#[test]
fn has_word_matches_exactly() {
    let card = Card::new(4, "本", "book");
    assert!(card.has_word(&"本".to_string()));
    assert!(!card.has_word(&"本 ".to_string()));
}

#[test]
fn search_matches_word_reading_and_translation_case_insensitively() {
    let card = Card::new(5, "食べる", "To Eat");
    assert!(card.matches_query(&lower_chars("たべ")));
    assert!(card.matches_query(&lower_chars("食べ")));
    assert!(card.matches_query(&lower_chars("TO EAT")));
    assert!(card.matches_query(&lower_chars("eat")));
    assert!(!card.matches_query(&lower_chars("drink")));
}

#[test]
fn trimmed_strips_outer_whitespace_only() {
    assert_eq!(trimmed("  a b  "), "a b");
    assert_eq!(trimmed("ab"), "ab");
    assert_eq!(trimmed("   "), "");
}

#[test]
fn card_clone_is_exact() {
    let card = Card::new(6, "猫", "cat");
    let copy = card.clone();
    assert_eq!(copy.id(), card.id());
    assert_eq!(copy.word(), card.word());
    assert_eq!(copy.reading(), card.reading());
    assert_eq!(copy.translation(), card.translation());
    assert_eq!(copy.release_timestamp(), card.release_timestamp());
}
