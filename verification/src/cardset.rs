//! A review set: an ordered, capacity-bounded batch of cards sharing one
//! stage, with a stage-entry timestamp and an optional companion story.

use vstd::prelude::*;

use crate::LifecycleError;
use crate::MAX_SET_LEN;
use crate::card::{spec_new_card, Card, CardView};
use crate::stage::LearnSetState;
use crate::text::{hiragana_of, to_reading};

verus! {

/// A companion narrative generated from a set's words: sentences, their
/// translations, and their derived readings.
pub struct Story {
    id: u64,
    story: Vec<String>,
    story_translate: Vec<String>,
    story_reading: Vec<String>,
}

/// The abstract value of a [`Story`].
pub struct StoryView {
    pub id: u64,
    pub story: Seq<Seq<char>>,
    pub story_translate: Seq<Seq<char>>,
    pub story_reading: Seq<Seq<char>>,
}

impl View for Story {
    type V = StoryView;

    closed spec fn view(&self) -> StoryView {
        StoryView {
            id: self.id,
            story: self.story.deep_view(),
            story_translate: self.story_translate.deep_view(),
            story_reading: self.story_reading.deep_view(),
        }
    }
}

/// The reading attached to one story sentence: its hiragana rendering,
/// or the sentence itself when it is already phonetic.
pub open spec fn spec_sentence_reading(s: Seq<char>) -> Seq<char> {
    if hiragana_of(s) == s {
        s
    } else {
        hiragana_of(s)
    }
}

impl Story {
    /// Rebuild a story from stored fields, exactly as they were persisted.
    pub fn from_parts(
        id: u64,
        story: Vec<String>,
        story_translate: Vec<String>,
        story_reading: Vec<String>,
    ) -> (r: Story)
        ensures
            r@ == (StoryView {
                id,
                story: story.deep_view(),
                story_translate: story_translate.deep_view(),
                story_reading: story_reading.deep_view(),
            }),
    {
        Story { id, story, story_translate, story_reading }
    }

    /// The story's identifier.
    pub fn id(&self) -> (r: u64)
        ensures
            r == self@.id,
    {
        self.id
    }

    /// The sentences of the story.
    pub fn story(&self) -> (r: &Vec<String>)
        ensures
            r.deep_view() == self@.story,
    {
        &self.story
    }

    /// The translations of the sentences, in the same order.
    pub fn story_translate(&self) -> (r: &Vec<String>)
        ensures
            r.deep_view() == self@.story_translate,
    {
        &self.story_translate
    }

    /// The derived readings of the sentences, in the same order.
    pub fn story_reading(&self) -> (r: &Vec<String>)
        ensures
            r.deep_view() == self@.story_reading,
    {
        &self.story_reading
    }
}

impl Clone for Story {
    /// An exact copy of the story.
    fn clone(&self) -> (r: Story)
        ensures
            r@ == self@,
    {
        let r = Story {
            id: self.id,
            story: self.story.clone(),
            story_translate: self.story_translate.clone(),
            story_reading: self.story_reading.clone(),
        };
        proof {
            assert(r.story.deep_view() =~= self.story.deep_view());
            assert(r.story_translate.deep_view() =~= self.story_translate.deep_view());
            assert(r.story_reading.deep_view() =~= self.story_reading.deep_view());
        }
        r
    }
}

/// A review set: cards sharing one stage, the instant the set entered
/// that stage, and an optional companion story.
pub struct CardSet {
    id: u64,
    state: LearnSetState,
    state_timestamp: Option<i64>,
    words: Vec<Card>,
    story: Option<Story>,
}

/// The abstract value of a [`CardSet`].
pub struct CardSetView {
    pub id: u64,
    pub state: LearnSetState,
    pub state_timestamp: Option<i64>,
    pub words: Seq<CardView>,
    pub story: Option<StoryView>,
}

impl View for CardSet {
    type V = CardSetView;

    closed spec fn view(&self) -> CardSetView {
        CardSetView {
            id: self.id,
            state: self.state,
            state_timestamp: self.state_timestamp,
            words: self.words@.map_values(|c: Card| c@),
            story: match self.story {
                Some(s) => Some(s@),
                None => None,
            },
        }
    }
}

impl CardSetView {
    /// Well-formed: within capacity, and no card of an active set carries
    /// a release stamp.
    pub open spec fn wf(self) -> bool {
        &&& self.words.len() <= MAX_SET_LEN
        &&& forall|i: int|
            0 <= i < self.words.len() ==> (#[trigger] self.words[i]).release_timestamp is None
    }

    /// Writable: still in the intake stage and below capacity. Only a
    /// writable set accepts new cards.
    pub open spec fn spec_writable(self) -> bool {
        self.words.len() < MAX_SET_LEN && self.state is Tobe
    }

    /// The instant from which the set is due for review: the stage-entry
    /// instant plus the stage's fixed offset (saturated at the largest
    /// representable instant), or nothing while the set has not entered
    /// any stage.
    pub open spec fn spec_time_to_learn(self) -> Option<i64> {
        match self.state_timestamp {
            Some(t) => Some(
                if t + self.state.spec_offset_millis() <= i64::MAX {
                    (t + self.state.spec_offset_millis()) as i64
                } else {
                    i64::MAX
                },
            ),
            None => None,
        }
    }

    /// Due for review at instant `now`: the set has entered a stage and
    /// `now` has reached the stage-entry instant plus the stage's offset.
    pub open spec fn spec_due(self, now: i64) -> bool {
        match self.spec_time_to_learn() {
            Some(t) => t <= now,
            None => false,
        }
    }
}

/// The view a card takes when it is released at instant `now`.
pub open spec fn spec_released(c: CardView, now: i64) -> CardView {
    CardView { release_timestamp: Some(now), ..c }
}

impl CardSet {
    /// A new, empty, writable set in the intake stage.
    pub fn new(id: u64) -> (r: CardSet)
        ensures
            r@ == (CardSetView {
                id,
                state: LearnSetState::Tobe,
                state_timestamp: None,
                words: Seq::<CardView>::empty(),
                story: None,
            }),
            r@.wf(),
    {
        let r = CardSet {
            id,
            state: LearnSetState::Tobe,
            state_timestamp: None,
            words: Vec::new(),
            story: None,
        };
        proof {
            assert(r.words@.map_values(|c: Card| c@) =~= Seq::<CardView>::empty());
        }
        r
    }

    /// Rebuild a set from stored fields, exactly as they were persisted.
    pub fn from_parts(
        id: u64,
        state: LearnSetState,
        state_timestamp: Option<i64>,
        words: Vec<Card>,
        story: Option<Story>,
    ) -> (r: CardSet)
        ensures
            r@ == (CardSetView {
                id,
                state,
                state_timestamp,
                words: words@.map_values(|c: Card| c@),
                story: match story {
                    Some(s) => Some(s@),
                    None => None,
                },
            }),
    {
        CardSet { id, state, state_timestamp, words, story }
    }

    /// The set's identifier.
    pub fn id(&self) -> (r: u64)
        ensures
            r == self@.id,
    {
        self.id
    }

    /// The stage the set is in.
    pub fn state(&self) -> (r: LearnSetState)
        ensures
            r == self@.state,
    {
        self.state
    }

    /// The instant the set entered its stage, if it has entered one.
    pub fn state_timestamp(&self) -> (r: Option<i64>)
        ensures
            r == self@.state_timestamp,
    {
        self.state_timestamp
    }

    /// The cards of the set, in insertion order.
    pub fn words(&self) -> (r: &Vec<Card>)
        ensures
            r@.map_values(|c: Card| c@) == self@.words,
    {
        &self.words
    }

    /// The companion story, if one was attached.
    pub fn story(&self) -> (r: Option<&Story>)
        ensures
            match r {
                Some(s) => self@.story == Some(s@),
                None => self@.story is None,
            },
    {
        match &self.story {
            Some(s) => Some(s),
            None => None,
        }
    }

    /// Whether the set still accepts cards: in the intake stage and below
    /// capacity.
    pub fn is_writabe(&self) -> (r: bool)
        ensures
            r == self@.spec_writable(),
    {
        proof {
            assert(self.words@.map_values(|c: Card| c@).len() == self.words@.len());
        }
        self.words.len() < MAX_SET_LEN && self.state == LearnSetState::Tobe
    }

    /// Append one candidate as a card, under a caller-chosen fresh
    /// identifier. Appending to a set that is not writable is refused.
    pub fn push(&mut self, card_id: u64, word: &str, translation: &str) -> (r: Result<
        (),
        LifecycleError,
    >)
        ensures
            old(self)@.spec_writable() ==> r is Ok && final(self)@ == (CardSetView {
                words: old(self)@.words.push(spec_new_card(card_id, word@, translation@)),
                ..old(self)@
            }),
            !old(self)@.spec_writable() ==> r == Err::<(), LifecycleError>(
                LifecycleError::InvalidTransition,
            ) && final(self)@ == old(self)@,
    {
        if !self.is_writabe() {
            return Err(LifecycleError::InvalidTransition);
        }
        let card = Card::new(card_id, word, translation);
        self.words.push(card);
        proof {
            assert(self.words@.map_values(|c: Card| c@) =~= old(self).words@.map_values(
                |c: Card| c@,
            ).push(spec_new_card(card_id, word@, translation@)));
        }
        Ok(())
    }

    /// Attach the companion story, deriving a reading for each sentence.
    /// Refused once the set has a story or has left the intake stage.
    pub fn put_story(&mut self, story_id: u64, story: &Vec<String>, story_translate: &Vec<
        String,
    >) -> (r: Result<(), LifecycleError>)
        ensures
            (old(self)@.story is None && old(self)@.state is Tobe) ==> r is Ok && final(self)@
                == (CardSetView {
                story: Some(
                    StoryView {
                        id: story_id,
                        story: story.deep_view(),
                        story_translate: story_translate.deep_view(),
                        story_reading: Seq::new(
                            story.deep_view().len(),
                            |i: int| spec_sentence_reading(story.deep_view()[i]),
                        ),
                    },
                ),
                ..old(self)@
            }),
            !(old(self)@.story is None && old(self)@.state is Tobe) ==> r == Err::<
                (),
                LifecycleError,
            >(LifecycleError::InvalidTransition) && final(self)@ == old(self)@,
    {
        if self.story.is_some() {
            return Err(LifecycleError::InvalidTransition);
        }
        if !(self.state == LearnSetState::Tobe) {
            return Err(LifecycleError::InvalidTransition);
        }
        let n = story.len();
        let mut reading: Vec<String> = Vec::new();
        let mut i: usize = 0;
        while i < n
            invariant
                n == story@.len(),
                i <= n,
                reading@.len() == i,
                reading.deep_view() =~= Seq::new(
                    i as nat,
                    |j: int| spec_sentence_reading(story.deep_view()[j]),
                ),
            decreases n - i,
        {
            let sentence = &story[i];
            let derived = match to_reading(sentence.as_str()) {
                Some(r) => r,
                None => sentence.clone(),
            };
            let ghost prev = reading.deep_view();
            proof {
                assert(derived@ == spec_sentence_reading(story.deep_view()[i as int]));
            }
            reading.push(derived);
            proof {
                let target = Seq::new(
                    (i + 1) as nat,
                    |j: int| spec_sentence_reading(story.deep_view()[j]),
                );
                assert forall|j: int| 0 <= j < i + 1 implies reading.deep_view()[j] == target[j] by {
                    assert(reading.deep_view()[j] == reading@[j].deep_view());
                    if j < i {
                        assert(prev[j] == Seq::new(
                            i as nat,
                            |j2: int| spec_sentence_reading(story.deep_view()[j2]),
                        )[j]);
                    }
                }
                assert(reading.deep_view() =~= target);
            }
            i += 1;
        }
        let mut sentences: Vec<String> = Vec::new();
        let mut translations: Vec<String> = Vec::new();
        let mut k: usize = 0;
        while k < n
            invariant
                n == story@.len(),
                k <= n,
                sentences@.len() == k,
                sentences.deep_view() =~= story.deep_view().take(k as int),
            decreases n - k,
        {
            sentences.push(story[k].clone());
            proof {
                assert(sentences.deep_view() =~= story.deep_view().take(k + 1 as int));
            }
            k += 1;
        }
        let tn = story_translate.len();
        let mut t: usize = 0;
        while t < tn
            invariant
                tn == story_translate@.len(),
                t <= tn,
                translations@.len() == t,
                translations.deep_view() =~= story_translate.deep_view().take(t as int),
            decreases tn - t,
        {
            translations.push(story_translate[t].clone());
            proof {
                assert(translations.deep_view() =~= story_translate.deep_view().take(t + 1 as int));
            }
            t += 1;
        }
        proof {
            assert(sentences.deep_view() =~= story.deep_view());
            assert(translations.deep_view() =~= story_translate.deep_view());
        }
        self.story = Some(
            Story { id: story_id, story: sentences, story_translate: translations, story_reading: reading },
        );
        Ok(())
    }

    /// The instant from which the set is due for review.
    pub fn time_to_learn(&self) -> (r: Option<i64>)
        ensures
            r == self@.spec_time_to_learn(),
    {
        match self.state_timestamp {
            Some(t) => {
                let offset = self.state.offset_millis();
                if t <= i64::MAX - offset {
                    Some(t + offset)
                } else {
                    Some(i64::MAX)
                }
            },
            None => None,
        }
    }

    /// Whether the set is due for review at instant `now`.
    pub fn need_to_learn(&self, now: i64) -> (r: bool)
        ensures
            r == self@.spec_due(now),
    {
        match self.time_to_learn() {
            Some(t) => t <= now,
            None => false,
        }
    }

    /// One promotion step at instant `now`: enter the next stage of the
    /// fixed order and refresh the stage-entry instant. Exactly on the
    /// transition into the terminal stage, the step returns every card
    /// stamped with `now`, for the caller to migrate into the archive;
    /// every other step returns nothing.
    pub fn iter(&mut self, now: i64) -> (r: Option<Vec<Card>>)
        ensures
            final(self)@ == (CardSetView {
                state: old(self)@.state.spec_next(),
                state_timestamp: Some(now),
                ..old(self)@
            }),
            r is Some <==> (old(self)@.state.spec_next() is TenDay && !(old(self)@.state
                is TenDay)),
            r matches Some(cards) ==> cards@.map_values(|c: Card| c@) == Seq::new(
                old(self)@.words.len(),
                |i: int| spec_released(old(self)@.words[i], now),
            ),
    {
        let was_terminal = self.state.is_terminal();
        self.state = self.state.next();
        self.state_timestamp = Some(now);
        if self.state.is_terminal() && !was_terminal {
            let ghost snap = *self;
            let n = self.words.len();
            let mut released: Vec<Card> = Vec::new();
            let mut i: usize = 0;
            while i < n
                invariant
                    n == self.words@.len(),
                    i <= n,
                    *self == snap,
                    released@.len() == i,
                    released@.map_values(|c: Card| c@) =~= Seq::new(
                        i as nat,
                        |j: int| spec_released(self.words@.map_values(|c: Card| c@)[j], now),
                    ),
                decreases n - i,
            {
                let ghost prev = released@.map_values(|c: Card| c@);
                let mut card = self.words[i].clone();
                card.set_release_timestamp(now);
                proof {
                    assert(card@ == spec_released(
                        self.words@.map_values(|c: Card| c@)[i as int],
                        now,
                    ));
                }
                released.push(card);
                proof {
                    let target = Seq::new(
                        (i + 1) as nat,
                        |j: int| spec_released(self.words@.map_values(|c: Card| c@)[j], now),
                    );
                    assert forall|j: int| 0 <= j < i + 1 implies released@.map_values(
                        |c: Card| c@,
                    )[j] == target[j] by {
                        if j < i {
                            assert(prev[j] == Seq::new(
                                i as nat,
                                |j2: int| spec_released(
                                    self.words@.map_values(|c: Card| c@)[j2],
                                    now,
                                ),
                            )[j]);
                            assert(released@[j] == released@.subrange(0, i as int)[j]);
                        }
                    }
                    assert(released@.map_values(|c: Card| c@) =~= target);
                }
                i += 1;
            }
            Some(released)
        } else {
            None
        }
    }
}

impl Clone for CardSet {
    /// An exact copy of the set.
    fn clone(&self) -> (r: CardSet)
        ensures
            r@ == self@,
    {
        let n = self.words.len();
        let mut words: Vec<Card> = Vec::new();
        let mut i: usize = 0;
        while i < n
            invariant
                n == self.words@.len(),
                i <= n,
                words@.len() == i,
                words@.map_values(|c: Card| c@) =~= self.words@.map_values(|c: Card| c@).take(
                    i as int,
                ),
            decreases n - i,
        {
            words.push(self.words[i].clone());
            proof {
                assert(words@.map_values(|c: Card| c@) =~= self.words@.map_values(|c: Card| c@)
                    .take(i + 1 as int));
            }
            i += 1;
        }
        proof {
            assert(words@.map_values(|c: Card| c@) =~= self.words@.map_values(|c: Card| c@));
        }
        CardSet {
            id: self.id,
            state: self.state,
            state_timestamp: self.state_timestamp,
            words,
            story: match &self.story {
                Some(s) => Some(s.clone()),
                None => None,
            },
        }
    }
}

} // verus!
