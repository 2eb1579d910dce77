//! A single vocabulary card.
//!
//! A card is created at intake with a fresh identifier, the trimmed word
//! and translation, and a derived reading; it is mutated exactly once
//! afterwards, to stamp the release time when its set migrates into the
//! archive.

use vstd::prelude::*;

use crate::text::{card_text_matches, contains_folded, spec_reading, to_reading, trim_of, trimmed};

verus! {

/// A single vocabulary item: word text, optional derived reading,
/// translation, and the release instant once archived.
pub struct Card {
    id: u64,
    word: String,
    reading: Option<String>,
    translation: String,
    release_timestamp: Option<i64>,
}

/// The abstract value of a [`Card`]: its texts as character sequences.
pub struct CardView {
    pub id: u64,
    pub word: Seq<char>,
    pub reading: Option<Seq<char>>,
    pub translation: Seq<char>,
    pub release_timestamp: Option<i64>,
}

impl View for Card {
    type V = CardView;

    closed spec fn view(&self) -> CardView {
        CardView {
            id: self.id,
            word: self.word@,
            reading: match self.reading {
                Some(r) => Some(r@),
                None => None,
            },
            translation: self.translation@,
            release_timestamp: self.release_timestamp,
        }
    }
}

/// The card a single intake candidate produces: word and translation
/// trimmed, the reading derived from the trimmed word, no release stamp.
pub open spec fn spec_new_card(id: u64, word: Seq<char>, translation: Seq<char>) -> CardView {
    CardView {
        id,
        word: trim_of(word),
        reading: spec_reading(trim_of(word)),
        translation: trim_of(translation),
        release_timestamp: None,
    }
}

impl Card {
    /// Create a card from one intake candidate: trim both texts and derive
    /// the reading from the trimmed word.
    pub fn new(id: u64, word: &str, translation: &str) -> (c: Card)
        ensures
            c@ == spec_new_card(id, word@, translation@),
    {
        let word = trimmed(word);
        let translation = trimmed(translation);
        let reading = to_reading(word.as_str());
        Card { id, word, reading, translation, release_timestamp: None }
    }

    /// Rebuild a card from stored fields, exactly as they were persisted.
    pub fn from_parts(
        id: u64,
        word: String,
        reading: Option<String>,
        translation: String,
        release_timestamp: Option<i64>,
    ) -> (c: Card)
        ensures
            c@ == (CardView {
                id,
                word: word@,
                reading: match reading {
                    Some(r) => Some(r@),
                    None => None,
                },
                translation: translation@,
                release_timestamp,
            }),
    {
        Card { id, word, reading, translation, release_timestamp }
    }

    /// The card's identifier.
    pub fn id(&self) -> (r: u64)
        ensures
            r == self@.id,
    {
        self.id
    }

    /// The word text.
    pub fn word(&self) -> (r: &str)
        ensures
            r@ == self@.word,
    {
        self.word.as_str()
    }

    /// The derived reading, absent when the word is already phonetic.
    pub fn reading(&self) -> (r: Option<&str>)
        ensures
            match r {
                Some(s) => self@.reading == Some(s@),
                None => self@.reading is None,
            },
    {
        match &self.reading {
            Some(s) => Some(s.as_str()),
            None => None,
        }
    }

    /// The translation text.
    pub fn translation(&self) -> (r: &str)
        ensures
            r@ == self@.translation,
    {
        self.translation.as_str()
    }

    /// The instant the card was released into the archive, if it was.
    pub fn release_timestamp(&self) -> (r: Option<i64>)
        ensures
            r == self@.release_timestamp,
    {
        self.release_timestamp
    }

    /// Stamp the release instant. Done exactly once, at migration.
    pub fn set_release_timestamp(&mut self, timestamp: i64)
        ensures
            final(self)@ == (CardView { release_timestamp: Some(timestamp), ..old(self)@ }),
    {
        self.release_timestamp = Some(timestamp);
    }

    /// Whether the card carries exactly this word text.
    pub fn has_word(&self, w: &String) -> (r: bool)
        ensures
            r == (self@.word == w@),
    {
        self.word == *w
    }

    /// Whether the card matches a search needle, case-insensitively: the
    /// needle, already lower-case, occurs in the word, the reading or the
    /// translation.
    pub fn matches_query(&self, needle_lower: &Vec<char>) -> (r: bool)
        ensures
            r == card_text_matches(self@.word, self@.reading, self@.translation, needle_lower@),
    {
        if contains_folded(self.word.as_str(), needle_lower) {
            return true;
        }
        match &self.reading {
            Some(reading) => {
                if contains_folded(reading.as_str(), needle_lower) {
                    return true;
                }
            },
            None => {},
        }
        contains_folded(self.translation.as_str(), needle_lower)
    }
}

impl Clone for Card {
    /// An exact copy of the card.
    fn clone(&self) -> (c: Card)
        ensures
            c == *self,
    {
        Card {
            id: self.id,
            word: self.word.clone(),
            reading: match &self.reading {
                Some(s) => Some(s.clone()),
                None => None,
            },
            translation: self.translation.clone(),
            release_timestamp: self.release_timestamp,
        }
    }
}

} // verus!
