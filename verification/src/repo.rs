//! The two record stores of the lifecycle core.
//!
//! [`CardSetRepository`] holds a user's active review sets, keyed by set
//! identifier. [`ReleaseRepository`] holds the archive: released cards and
//! their companion stories, in two keyed collections. Both are in-memory;
//! a caller environment that persists them does so around the core.

use vstd::prelude::*;

use crate::card::Card;
use crate::cardset::{CardSet, Story};
use crate::stage::LearnSetState;
use crate::table::Table;

verus! {

/// The active store: a user's review sets, keyed by set identifier.
pub struct CardSetRepository {
    table: Table<CardSet>,
}

impl View for CardSetRepository {
    type V = Map<u64, CardSet>;

    closed spec fn view(&self) -> Map<u64, CardSet> {
        self.table@
    }
}

impl CardSetRepository {
    /// The stored sets with their keys, in insertion order.
    pub closed spec fn entry_seq(self) -> Seq<(u64, CardSet)> {
        self.table.entry_seq()
    }

    /// Well-formed: keys are unique, every set is stored under its own
    /// identifier, every set is well-formed, and no active set sits in the
    /// terminal stage (a set is removed the instant it reaches it).
    pub open spec fn wf(self) -> bool {
        &&& self.entry_seq().map_values(|e: (u64, CardSet)| e.0).no_duplicates()
        &&& forall|k: u64|
            self@.contains_key(k) ==> {
                &&& (#[trigger] self@[k])@.id == k
                &&& self@[k]@.wf()
                &&& !(self@[k]@.state is TenDay)
            }
    }

    /// An empty active store.
    pub fn new() -> (r: CardSetRepository)
        ensures
            r.wf(),
            r@ == Map::<u64, CardSet>::empty(),
            r.entry_seq() == Seq::<(u64, CardSet)>::empty(),
    {
        CardSetRepository { table: Table::new() }
    }

    /// How many sets are stored.
    pub fn len(&self) -> (r: usize)
        ensures
            r == self.entry_seq().len(),
    {
        self.table.len()
    }

    /// The set at a position of the insertion order, with its key.
    pub fn entry_at(&self, i: usize) -> (r: &(u64, CardSet))
        requires
            i < self.entry_seq().len(),
        ensures
            *r == self.entry_seq()[i as int],
    {
        self.table.entry_at(i)
    }

    /// An entry of a well-formed store is a binding of its map view.
    pub proof fn lemma_entry_in_map(self, i: int)
        requires
            0 <= i < self.entry_seq().len(),
        ensures
            self@.contains_key(self.entry_seq()[i].0),
            self.wf() ==> self@[self.entry_seq()[i].0] == self.entry_seq()[i].1,
    {
        if self.wf() {
            assert(self.table.wf());
        }
        self.table.lemma_entry_in_map(i);
    }

    /// Every binding of the map view comes from an entry.
    pub proof fn lemma_map_in_entries(self, k: u64)
        requires
            self@.contains_key(k),
        ensures
            exists|i: int|
                0 <= i < self.entry_seq().len() && (#[trigger] self.entry_seq()[i]).0 == k,
    {
        self.table.lemma_map_in_entries(k);
        let i = choose|i: int|
            0 <= i < self.table.entry_seq().len() && (#[trigger] self.table.entry_seq()[i]).0 == k;
        assert((self.entry_seq()[i]).0 == k);
    }

    /// Persist a set under its own identifier, replacing any earlier
    /// record of it. Persisting an identical set again is harmless.
    pub fn save(&mut self, card_set: CardSet)
        requires
            old(self).wf(),
            card_set@.wf(),
            !(card_set@.state is TenDay),
        ensures
            final(self).wf(),
            final(self)@ == old(self)@.insert(card_set@.id, card_set),
    {
        let id = card_set.id();
        self.table.upsert(id, card_set);
    }

    /// Look a set up by its identifier.
    pub fn load(&self, id: u64) -> (r: Option<&CardSet>)
        requires
            self.wf(),
        ensures
            match r {
                Some(s) => self@.contains_key(id) && *s == self@[id],
                None => !self@.contains_key(id),
            },
    {
        self.table.load(id)
    }

    /// Remove a set, returning it; `None` when the identifier holds none.
    pub fn remove(&mut self, id: u64) -> (r: Option<CardSet>)
        requires
            old(self).wf(),
        ensures
            final(self).wf(),
            final(self)@ == old(self)@.remove(id),
            match r {
                Some(s) => old(self)@.contains_key(id) && s == old(self)@[id],
                None => !old(self)@.contains_key(id) && final(self)@ == old(self)@,
            },
    {
        self.table.remove(id)
    }

    /// The greatest identifier among the sets in a given stage: since
    /// identifiers are handed out in increasing order, this is the most
    /// recently created set of that stage.
    pub fn max_id_in_state(&self, state: LearnSetState) -> (r: Option<u64>)
        requires
            self.wf(),
        ensures
            match r {
                Some(m) => {
                    &&& self@.contains_key(m)
                    &&& self@[m]@.state == state
                    &&& forall|k: u64|
                        self@.contains_key(k) && (#[trigger] self@[k])@.state == state ==> k <= m
                },
                None => forall|k: u64|
                    self@.contains_key(k) ==> (#[trigger] self@[k])@.state != state,
            },
    {
        let n = self.table.len();
        let mut best: Option<u64> = None;
        let mut i: usize = 0;
        while i < n
            invariant
                self.wf(),
                n == self.entry_seq().len(),
                i <= n,
                match best {
                    Some(m) => {
                        &&& self@.contains_key(m)
                        &&& self@[m]@.state == state
                        &&& forall|j: int|
                            0 <= j < i && (#[trigger] self.entry_seq()[j]).1@.state == state
                                ==> self.entry_seq()[j].0 <= m
                    },
                    None => forall|j: int|
                        0 <= j < i ==> (#[trigger] self.entry_seq()[j]).1@.state != state,
                },
            decreases n - i,
        {
            let entry = self.table.entry_at(i);
            if entry.1.state() == state {
                proof {
                    self.lemma_entry_in_map(i as int);
                }
                match best {
                    Some(m) => {
                        if entry.0 > m {
                            best = Some(entry.0);
                        }
                    },
                    None => {
                        best = Some(entry.0);
                    },
                }
            }
            i += 1;
        }
        proof {
            match best {
                Some(m) => {
                    assert forall|k: u64|
                        self@.contains_key(k) && (#[trigger] self@[k])@.state == state implies k
                        <= m by {
                        self.lemma_map_in_entries(k);
                        let j = choose|j: int|
                            0 <= j < self.entry_seq().len() && (#[trigger] self.entry_seq()[j]).0
                                == k;
                        self.lemma_entry_in_map(j);
                    }
                },
                None => {
                    assert forall|k: u64| self.view().contains_key(k) implies (
                    #[trigger] self@[k])@.state != state by {
                        self.lemma_map_in_entries(k);
                        let j = choose|j: int|
                            0 <= j < self.entry_seq().len() && (#[trigger] self.entry_seq()[j]).0
                                == k;
                        self.lemma_entry_in_map(j);
                    }
                },
            }
        }
        best
    }

    /// The identifiers of the sets in a given stage.
    pub fn list_ids(&self, state: LearnSetState) -> (r: Vec<u64>)
        requires
            self.wf(),
        ensures
            forall|k: u64|
                #[trigger] r@.contains(k) <==> self@.contains_key(k) && self@[k]@.state == state,
            r@.no_duplicates(),
    {
        let n = self.table.len();
        let mut ids: Vec<u64> = Vec::new();
        let mut i: usize = 0;
        while i < n
            invariant
                self.wf(),
                n == self.entry_seq().len(),
                i <= n,
                forall|k: u64|
                    #[trigger] ids@.contains(k) <==> exists|j: int|
                        0 <= j < i && (#[trigger] self.entry_seq()[j]).0 == k && self.entry_seq()[j].1@.state == state,
                ids@.no_duplicates(),
            decreases n - i,
        {
            let entry = self.table.entry_at(i);
            if entry.1.state() == state {
                proof {
                    self.lemma_entry_in_map(i as int);
                    if ids@.contains(entry.0) {
                        let j = choose|j: int|
                            0 <= j < i && (#[trigger] self.entry_seq()[j]).0 == entry.0
                                && self.entry_seq()[j].1@.state == state;
                        self.lemma_entry_in_map(j);
                        assert(self.table.key_seq()[j] == self.table.key_seq()[i as int]);
                        assert(false);
                    }
                }
                let ghost ids0 = ids@;
                ids.push(entry.0);
                proof {
                    assert forall|k: u64| #[trigger] ids@.contains(k) implies exists|j: int|
                        0 <= j < i + 1 && (#[trigger] self.entry_seq()[j]).0 == k
                            && self.entry_seq()[j].1@.state == state by {
                        if ids0.contains(k) {
                            let j = choose|j: int|
                                0 <= j < i && (#[trigger] self.entry_seq()[j]).0 == k
                                    && self.entry_seq()[j].1@.state == state;
                            assert(0 <= j < i + 1 && self.entry_seq()[j].0 == k
                                && self.entry_seq()[j].1@.state == state);
                        } else {
                            let x = choose|x: int| 0 <= x < ids@.len() && ids@[x] == k;
                            assert(ids@[ids@.len() - 1] == entry.0);
                            assert(k == entry.0);
                            assert(0 <= i < i + 1 && self.entry_seq()[i as int].0 == k
                                && self.entry_seq()[i as int].1@.state == state);
                        }
                    }
                    assert forall|k: u64|
                        (exists|j: int|
                            0 <= j < i + 1 && (#[trigger] self.entry_seq()[j]).0 == k
                                && self.entry_seq()[j].1@.state == state) implies #[trigger] ids@
                        .contains(k) by {
                        let j = choose|j: int|
                            0 <= j < i + 1 && (#[trigger] self.entry_seq()[j]).0 == k
                                && self.entry_seq()[j].1@.state == state;
                        if j < i {
                            assert(ids0.contains(k));
                            let x = choose|x: int| 0 <= x < ids0.len() && ids0[x] == k;
                            assert(ids@[x] == k);
                        } else {
                            assert(ids@[ids@.len() - 1] == k);
                        }
                    }
                }
            } else {
                proof {
                    assert forall|k: u64| #[trigger] ids@.contains(k) implies exists|j: int|
                        0 <= j < i + 1 && (#[trigger] self.entry_seq()[j]).0 == k
                            && self.entry_seq()[j].1@.state == state by {
                        let j = choose|j: int|
                            0 <= j < i && (#[trigger] self.entry_seq()[j]).0 == k
                                && self.entry_seq()[j].1@.state == state;
                        assert(0 <= j < i + 1 && self.entry_seq()[j].0 == k && self.entry_seq()[j].1@.state == state);
                    }
                }
            }
            i += 1;
        }
        proof {
            assert forall|k: u64| #[trigger] ids@.contains(k) implies self@.contains_key(k)
                && self@[k]@.state == state by {
                let j = choose|j: int|
                    0 <= j < n && (#[trigger] self.entry_seq()[j]).0 == k && self.entry_seq()[j].1@.state == state;
                self.lemma_entry_in_map(j);
            }
            assert forall|k: u64|
                self@.contains_key(k) && self@[k]@.state == state implies #[trigger] ids@.contains(
                k,
            ) by {
                self.lemma_map_in_entries(k);
                let j = choose|j: int|
                    0 <= j < self.entry_seq().len() && (#[trigger] self.entry_seq()[j]).0 == k;
                self.lemma_entry_in_map(j);
            }
        }
        ids
    }

    /// Every stored set, in insertion order.
    pub fn list_all(&self) -> (r: Vec<CardSet>)
        ensures
            r@.len() == self.entry_seq().len(),
            forall|i: int| 0 <= i < r@.len() ==> (#[trigger] r@[i])@ == self.entry_seq()[i].1@,
    {
        let n = self.table.len();
        let mut all: Vec<CardSet> = Vec::new();
        let mut i: usize = 0;
        while i < n
            invariant
                n == self.entry_seq().len(),
                i <= n,
                all@.len() == i,
                forall|j: int| 0 <= j < i ==> (#[trigger] all@[j])@ == self.entry_seq()[j].1@,
            decreases n - i,
        {
            all.push(self.table.entry_at(i).1.clone());
            i += 1;
        }
        all
    }
}

/// The archive after upserting every card of a batch, each under its own
/// identifier, in order.
pub open spec fn insert_cards(m: Map<u64, Card>, cards: Seq<Card>) -> Map<u64, Card>
    decreases cards.len(),
{
    if cards.len() == 0 {
        m
    } else {
        insert_cards(m, cards.drop_last()).insert(cards.last()@.id, cards.last())
    }
}

/// The archived cards a list of identifiers selects, in the order of the
/// list; identifiers that hold no record are skipped.
pub open spec fn present_cards(m: Map<u64, Card>, ids: Seq<u64>) -> Seq<Card>
    decreases ids.len(),
{
    if ids.len() == 0 {
        Seq::empty()
    } else {
        present_cards(m, ids.drop_last()) + if m.contains_key(ids.last()) {
            seq![m[ids.last()]]
        } else {
            Seq::empty()
        }
    }
}

/// The archive: released cards and their companion stories, in two keyed
/// collections.
pub struct ReleaseRepository {
    words: Table<Card>,
    stories: Table<Story>,
}

impl ReleaseRepository {
    /// The archived cards with their keys, in insertion order.
    pub closed spec fn word_entries(self) -> Seq<(u64, Card)> {
        self.words.entry_seq()
    }

    /// The archived stories with their keys, in insertion order.
    pub closed spec fn story_entries(self) -> Seq<(u64, Story)> {
        self.stories.entry_seq()
    }

    /// The archived cards as a map from identifier to card.
    pub closed spec fn words_map(self) -> Map<u64, Card> {
        self.words@
    }

    /// The archived stories as a map from identifier to story.
    pub closed spec fn stories_map(self) -> Map<u64, Story> {
        self.stories@
    }

    /// Well-formed: keys unique in both collections, every record stored
    /// under its own identifier, and every archived card stamped with a
    /// release instant.
    pub open spec fn wf(self) -> bool {
        &&& self.word_entries().map_values(|e: (u64, Card)| e.0).no_duplicates()
        &&& self.story_entries().map_values(|e: (u64, Story)| e.0).no_duplicates()
        &&& forall|k: u64|
            self.words_map().contains_key(k) ==> {
                &&& (#[trigger] self.words_map()[k])@.id == k
                &&& self.words_map()[k]@.release_timestamp is Some
            }
        &&& forall|k: u64|
            self.stories_map().contains_key(k) ==> (#[trigger] self.stories_map()[k])@.id == k
    }

    /// An empty archive.
    pub fn new() -> (r: ReleaseRepository)
        ensures
            r.wf(),
            r.words_map() == Map::<u64, Card>::empty(),
            r.stories_map() == Map::<u64, Story>::empty(),
            r.word_entries() == Seq::<(u64, Card)>::empty(),
            r.story_entries() == Seq::<(u64, Story)>::empty(),
    {
        ReleaseRepository { words: Table::new(), stories: Table::new() }
    }

    /// How many cards the archive holds.
    pub fn words_len(&self) -> (r: usize)
        ensures
            r == self.word_entries().len(),
    {
        self.words.len()
    }

    /// The archived card at a position of the insertion order, with its key.
    pub fn word_at(&self, i: usize) -> (r: &(u64, Card))
        requires
            i < self.word_entries().len(),
        ensures
            *r == self.word_entries()[i as int],
    {
        self.words.entry_at(i)
    }

    /// A card entry of a well-formed archive is a binding of its map.
    pub proof fn lemma_word_entry_in_map(self, i: int)
        requires
            0 <= i < self.word_entries().len(),
        ensures
            self.words_map().contains_key(self.word_entries()[i].0),
            self.wf() ==> self.words_map()[self.word_entries()[i].0] == self.word_entries()[i].1,
    {
        if self.wf() {
            assert(self.words.wf());
        }
        self.words.lemma_entry_in_map(i);
    }

    /// Every binding of the card map comes from an entry.
    pub proof fn lemma_word_map_in_entries(self, k: u64)
        requires
            self.words_map().contains_key(k),
        ensures
            exists|i: int|
                0 <= i < self.word_entries().len() && (#[trigger] self.word_entries()[i]).0 == k,
    {
        self.words.lemma_map_in_entries(k);
        let i = choose|i: int|
            0 <= i < self.words.entry_seq().len() && (#[trigger] self.words.entry_seq()[i]).0 == k;
        assert((self.word_entries()[i]).0 == k);
    }

    /// Upsert a batch of released cards and, when one is given, the
    /// companion story, each under its own identifier.
    pub fn save(&mut self, cards: Vec<Card>, story: Option<Story>)
        requires
            old(self).wf(),
            forall|i: int|
                0 <= i < cards@.len() ==> (#[trigger] cards@[i])@.release_timestamp is Some,
        ensures
            final(self).wf(),
            final(self).words_map() == insert_cards(old(self).words_map(), cards@),
            final(self).stories_map() == match story {
                Some(s) => old(self).stories_map().insert(s@.id, s),
                None => old(self).stories_map(),
            },
    {
        proof {
            assert(old(self).words.wf());
        }
        let n = cards.len();
        let mut cards = cards;
        let ghost all = cards@;
        let mut i: usize = 0;
        while i < n
            invariant
                n == all.len(),
                cards@ == all,
                i <= n,
                self.words.wf(),
                self.stories == old(self).stories,
                self.stories_map() == old(self).stories_map(),
                self.story_entries() == old(self).story_entries(),
                forall|j: int|
                    0 <= j < all.len() ==> (#[trigger] all[j])@.release_timestamp is Some,
                self.words@ == insert_cards(old(self).words_map(), all.take(i as int)),
                forall|k: u64|
                    self.words@.contains_key(k) ==> {
                        &&& (#[trigger] self.words@[k])@.id == k
                        &&& self.words@[k]@.release_timestamp is Some
                    },
            decreases n - i,
        {
            let card = cards[i].clone();
            let id = card.id();
            self.words.upsert(id, card);
            proof {
                assert(all.take(i + 1 as int).drop_last() =~= all.take(i as int));
                assert(all.take(i + 1 as int).last() == all[i as int]);
                assert(self.stories_map() == old(self).stories_map());
                assert(self.story_entries() == old(self).story_entries());
            }
            i += 1;
        }
        proof {
            assert(all.take(n as int) =~= all);
        }
        let ghost mid = *self;
        match story {
            Some(s) => {
                proof {
                    assert(old(self).stories.wf());
                    assert(self.stories.wf());
                }
                let id = s.id();
                self.stories.upsert(id, s);
                proof {
                    assert(self.words == mid.words);
                    assert(self.words_map() == mid.words_map());
                    assert(self.word_entries() == mid.word_entries());
                }
            },
            None => {},
        }
    }

    /// Upsert one released card under its own identifier.
    pub fn update_word(&mut self, card: Card)
        requires
            old(self).wf(),
            card@.release_timestamp is Some,
        ensures
            final(self).wf(),
            final(self).words_map() == old(self).words_map().insert(card@.id, card),
            final(self).stories_map() == old(self).stories_map(),
    {
        proof {
            assert(old(self).words.wf());
        }
        let id = card.id();
        self.words.upsert(id, card);
        proof {
            assert(self.stories == old(self).stories);
            assert(self.stories_map() == old(self).stories_map());
            assert(self.story_entries() == old(self).story_entries());
        }
    }

    /// Look an archived card up by its identifier.
    pub fn load_word(&self, id: u64) -> (r: Option<&Card>)
        requires
            self.wf(),
        ensures
            match r {
                Some(c) => self.words_map().contains_key(id) && *c == self.words_map()[id],
                None => !self.words_map().contains_key(id),
            },
    {
        proof {
            assert(self.words.wf());
        }
        self.words.load(id)
    }

    /// Look an archived story up by its identifier.
    pub fn load_story(&self, id: u64) -> (r: Option<&Story>)
        requires
            self.wf(),
        ensures
            match r {
                Some(s) => self.stories_map().contains_key(id) && *s == self.stories_map()[id],
                None => !self.stories_map().contains_key(id),
            },
    {
        proof {
            assert(self.stories.wf());
        }
        self.stories.load(id)
    }

    /// The identifiers of all archived cards, in insertion order.
    pub fn list_word_ids(&self) -> (r: Vec<u64>)
        ensures
            r@ == self.word_entries().map_values(|e: (u64, Card)| e.0),
    {
        self.words.list_ids()
    }

    /// The identifiers of all archived stories, in insertion order.
    pub fn list_story_ids(&self) -> (r: Vec<u64>)
        ensures
            r@ == self.story_entries().map_values(|e: (u64, Story)| e.0),
    {
        self.stories.list_ids()
    }

    /// The archived cards a list of identifiers selects, in list order;
    /// identifiers that hold no record are skipped, never an error.
    pub fn load_word_by_ids(&self, ids: &Vec<u64>) -> (r: Vec<Card>)
        requires
            self.wf(),
        ensures
            r@ == present_cards(self.words_map(), ids@),
    {
        let n = ids.len();
        let mut out: Vec<Card> = Vec::new();
        let mut i: usize = 0;
        while i < n
            invariant
                self.wf(),
                n == ids@.len(),
                i <= n,
                out@ == present_cards(self.words_map(), ids@.take(i as int)),
            decreases n - i,
        {
            match self.load_word(ids[i]) {
                Some(card) => {
                    out.push(card.clone());
                },
                None => {},
            }
            proof {
                assert(ids@.take(i + 1 as int).drop_last() =~= ids@.take(i as int));
                assert(ids@.take(i + 1 as int).last() == ids@[i as int]);
                if self.words_map().contains_key(ids@[i as int]) {
                    assert(out@ =~= present_cards(self.words_map(), ids@.take(i + 1 as int)));
                } else {
                    assert(out@ =~= present_cards(self.words_map(), ids@.take(i + 1 as int)));
                }
            }
            i += 1;
        }
        proof {
            assert(ids@.take(n as int) =~= ids@);
        }
        out
    }

    /// Every archived card, in insertion order.
    pub fn list_all_words(&self) -> (r: Vec<Card>)
        ensures
            r@.len() == self.word_entries().len(),
            forall|i: int| 0 <= i < r@.len() ==> #[trigger] r@[i] == self.word_entries()[i].1,
    {
        let n = self.words.len();
        let mut all: Vec<Card> = Vec::new();
        let mut i: usize = 0;
        while i < n
            invariant
                n == self.word_entries().len(),
                i <= n,
                all@.len() == i,
                forall|j: int| 0 <= j < i ==> #[trigger] all@[j] == self.word_entries()[j].1,
            decreases n - i,
        {
            all.push(self.words.entry_at(i).1.clone());
            i += 1;
        }
        all
    }

    /// Every archived story, in insertion order.
    pub fn list_all_stories(&self) -> (r: Vec<Story>)
        ensures
            r@.len() == self.story_entries().len(),
            forall|i: int| 0 <= i < r@.len() ==> (#[trigger] r@[i])@ == self.story_entries()[i].1@,
    {
        let n = self.stories.len();
        let mut all: Vec<Story> = Vec::new();
        let mut i: usize = 0;
        while i < n
            invariant
                n == self.story_entries().len(),
                i <= n,
                all@.len() == i,
                forall|j: int| 0 <= j < i ==> (#[trigger] all@[j])@ == self.story_entries()[j].1@,
            decreases n - i,
        {
            all.push(self.stories.entry_at(i).1.clone());
            i += 1;
        }
        all
    }

    /// Remove one archived card, returning it; `None` when the identifier
    /// holds none.
    pub fn remove_word(&mut self, id: u64) -> (r: Option<Card>)
        requires
            old(self).wf(),
        ensures
            final(self).wf(),
            final(self).words_map() == old(self).words_map().remove(id),
            final(self).stories_map() == old(self).stories_map(),
            match r {
                Some(c) => old(self).words_map().contains_key(id) && c == old(
                    self,
                ).words_map()[id],
                None => !old(self).words_map().contains_key(id),
            },
    {
        proof {
            assert(old(self).words.wf());
        }
        let r = self.words.remove(id);
        proof {
            assert(self.stories == old(self).stories);
            assert(self.stories_map() == old(self).stories_map());
            assert(self.story_entries() == old(self).story_entries());
        }
        r
    }

    /// Remove the archived cards a list of identifiers selects;
    /// identifiers that hold no record are skipped.
    pub fn remove_word_by_ids(&mut self, ids: &Vec<u64>)
        requires
            old(self).wf(),
        ensures
            final(self).wf(),
            final(self).words_map() == old(self).words_map().remove_keys(ids@.to_set()),
            final(self).stories_map() == old(self).stories_map(),
    {
        let n = ids.len();
        let mut i: usize = 0;
        while i < n
            invariant
                n == ids@.len(),
                i <= n,
                self.wf(),
                self.stories == old(self).stories,
                self.words@ == old(self).words_map().remove_keys(ids@.take(i as int).to_set()),
            decreases n - i,
        {
            proof {
                assert(self.words.wf());
            }
            let ghost pre = *self;
            let _ = self.words.remove(ids[i]);
            proof {
                assert(self.stories == pre.stories);
                assert(self.stories_map() == pre.stories_map());
                assert(self.story_entries() == pre.story_entries());
                assert(ids@.take(i + 1 as int).to_set() =~= ids@.take(i as int).to_set().insert(
                    ids@[i as int],
                )) by {
                    assert forall|x: u64| #[trigger] ids@.take(i + 1 as int).to_set().contains(x)
                        implies ids@.take(i as int).to_set().insert(ids@[i as int]).contains(
                        x,
                    ) by {
                        let j = choose|j: int|
                            0 <= j < i + 1 && #[trigger] ids@.take(i + 1 as int)[j] == x;
                        if j < i {
                            assert(ids@.take(i as int)[j] == x);
                        }
                    }
                    assert forall|x: u64|
                        ids@.take(i as int).to_set().insert(ids@[i as int]).contains(x) implies
                        #[trigger] ids@.take(i + 1 as int).to_set().contains(x) by {
                        if x == ids@[i as int] {
                            assert(ids@.take(i + 1 as int)[i as int] == x);
                        } else {
                            let j = choose|j: int|
                                0 <= j < i && #[trigger] ids@.take(i as int)[j] == x;
                            assert(ids@.take(i + 1 as int)[j] == x);
                        }
                    }
                }
                assert(self.words@ =~= old(self).words_map().remove_keys(
                    ids@.take(i + 1 as int).to_set(),
                ));
            }
            i += 1;
        }
        proof {
            assert(ids@.take(n as int) =~= ids@);
        }
    }

    /// Remove one archived story; identifiers that hold no record are
    /// skipped.
    pub fn remove_story(&mut self, id: u64) -> (r: Option<Story>)
        requires
            old(self).wf(),
        ensures
            final(self).wf(),
            final(self).stories_map() == old(self).stories_map().remove(id),
            final(self).words_map() == old(self).words_map(),
            match r {
                Some(s) => old(self).stories_map().contains_key(id) && s == old(
                    self,
                ).stories_map()[id],
                None => !old(self).stories_map().contains_key(id),
            },
    {
        proof {
            assert(old(self).stories.wf());
        }
        let r = self.stories.remove(id);
        proof {
            assert(self.words == old(self).words);
            assert(self.words_map() == old(self).words_map());
            assert(self.word_entries() == old(self).word_entries());
            assert forall|k: u64| self.stories_map().contains_key(k) implies (
            #[trigger] self.stories_map()[k])@.id == k by {
                assert(old(self).stories_map().contains_key(k));
                assert(self.stories_map()[k] == old(self).stories_map()[k]);
            }
        }
        r
    }

    /// Remove the archived stories a list of identifiers selects;
    /// identifiers that hold no record are skipped.
    pub fn remove_story_by_ids(&mut self, ids: &Vec<u64>)
        requires
            old(self).wf(),
        ensures
            final(self).wf(),
            final(self).stories_map() == old(self).stories_map().remove_keys(ids@.to_set()),
            final(self).words_map() == old(self).words_map(),
    {
        let n = ids.len();
        let mut i: usize = 0;
        while i < n
            invariant
                n == ids@.len(),
                i <= n,
                self.wf(),
                self.words == old(self).words,
                self.stories@ == old(self).stories_map().remove_keys(ids@.take(i as int).to_set()),
            decreases n - i,
        {
            proof {
                assert(self.stories.wf());
            }
            let ghost pre = *self;
            let _ = self.stories.remove(ids[i]);
            proof {
                assert(self.words == pre.words);
                assert(self.words_map() == pre.words_map());
                assert(self.word_entries() == pre.word_entries());
                assert(ids@.take(i + 1 as int).to_set() =~= ids@.take(i as int).to_set().insert(
                    ids@[i as int],
                )) by {
                    assert forall|x: u64| #[trigger] ids@.take(i + 1 as int).to_set().contains(x)
                        implies ids@.take(i as int).to_set().insert(ids@[i as int]).contains(
                        x,
                    ) by {
                        let j = choose|j: int|
                            0 <= j < i + 1 && #[trigger] ids@.take(i + 1 as int)[j] == x;
                        if j < i {
                            assert(ids@.take(i as int)[j] == x);
                        }
                    }
                    assert forall|x: u64|
                        ids@.take(i as int).to_set().insert(ids@[i as int]).contains(x) implies
                        #[trigger] ids@.take(i + 1 as int).to_set().contains(x) by {
                        if x == ids@[i as int] {
                            assert(ids@.take(i + 1 as int)[i as int] == x);
                        } else {
                            let j = choose|j: int|
                                0 <= j < i && #[trigger] ids@.take(i as int)[j] == x;
                            assert(ids@.take(i + 1 as int)[j] == x);
                        }
                    }
                }
                assert(self.stories@ =~= old(self).stories_map().remove_keys(
                    ids@.take(i + 1 as int).to_set(),
                ));
                assert forall|k: u64| self.stories_map().contains_key(k) implies (
                #[trigger] self.stories_map()[k])@.id == k by {
                    assert(pre.stories_map().contains_key(k));
                    assert(self.stories_map()[k] == pre.stories_map()[k]);
                }
            }
            i += 1;
        }
        proof {
            assert(ids@.take(n as int) =~= ids@);
        }
    }
}

} // verus!
