//! The lifecycle service: intake with deduplication, staged promotion
//! with migration into the archive, recall, and archive queries.
//!
//! The service owns one user's active store and archive, plus the counter
//! that hands out identifiers. Identifiers increase with creation time, so
//! the greatest identifier among intake-stage sets always names the most
//! recently created one. Cross-user isolation is by construction: each
//! user's service value is independent of every other's.

use vstd::prelude::*;

use crate::card::{spec_new_card, Card, CardView};
use crate::cardset::{spec_released, CardSet, CardSetView, Story, StoryView};
use crate::llm::ExtractedWord;
use crate::repo::{insert_cards, CardSetRepository, ReleaseRepository};
use crate::stage::{LearnSetState, SetState};
use crate::text::{card_text_matches, lower_chars, lower_of};
use crate::LifecycleError;

verus! {

/// The abstract state of one user's lifecycle service.
pub struct ServiceView {
    /// Active review sets, by set identifier.
    pub sets: Map<u64, CardSetView>,
    /// Archived (released) cards, by card identifier.
    pub archive: Map<u64, CardView>,
    /// Archived companion stories, by story identifier.
    pub stories: Map<u64, StoryView>,
    /// The next identifier to hand out; all stored identifiers are below it.
    pub next_id: int,
}

/// The abstract value of a map of stored sets.
pub open spec fn deep_sets(m: Map<u64, CardSet>) -> Map<u64, CardSetView> {
    Map::new(|k: u64| m.contains_key(k), |k: u64| m[k]@)
}

/// The abstract value of a map of stored cards.
pub open spec fn deep_cards(m: Map<u64, Card>) -> Map<u64, CardView> {
    Map::new(|k: u64| m.contains_key(k), |k: u64| m[k]@)
}

/// The abstract value of a map of stored stories.
pub open spec fn deep_stories(m: Map<u64, Story>) -> Map<u64, StoryView> {
    Map::new(|k: u64| m.contains_key(k), |k: u64| m[k]@)
}

/// The archive after upserting a batch of released card views, each under
/// its own identifier, in order.
pub open spec fn insert_card_views(m: Map<u64, CardView>, cards: Seq<CardView>) -> Map<
    u64,
    CardView,
>
    decreases cards.len(),
{
    if cards.len() == 0 {
        m
    } else {
        insert_card_views(m, cards.drop_last()).insert(cards.last().id, cards.last())
    }
}

/// What one promotion step does to the whole state: `NotFound` for an
/// unknown set; otherwise the set enters the next stage with a fresh
/// stage-entry instant, and exactly on the transition into the terminal
/// stage its cards are stamped with `now` and upserted into the archive,
/// its story is upserted beside them, and the set leaves the active store.
pub open spec fn spec_promote(v: ServiceView, set_id: u64, now: i64) -> (ServiceView, Result<
    bool,
    LifecycleError,
>) {
    if !v.sets.contains_key(set_id) {
        (v, Err(LifecycleError::NotFound))
    } else {
        let s = v.sets[set_id];
        if s.state.spec_next() is TenDay && !(s.state is TenDay) {
            let stamped = Seq::new(s.words.len(), |i: int| spec_released(s.words[i], now));
            (
                ServiceView {
                    sets: v.sets.remove(set_id),
                    archive: insert_card_views(v.archive, stamped),
                    stories: match s.story {
                        Some(st) => v.stories.insert(st.id, st),
                        None => v.stories,
                    },
                    ..v
                },
                Ok(true),
            )
        } else {
            (
                ServiceView {
                    sets: v.sets.insert(
                        set_id,
                        CardSetView { state: s.state.spec_next(), state_timestamp: Some(now), ..s },
                    ),
                    ..v
                },
                Ok(false),
            )
        }
    }
}

/// One user's lifecycle service: the active store, the archive, and the
/// identifier counter.
pub struct SetService {
    set_repository: CardSetRepository,
    release_repository: ReleaseRepository,
    next_id: u64,
}

impl View for SetService {
    type V = ServiceView;

    closed spec fn view(&self) -> ServiceView {
        ServiceView {
            sets: deep_sets(self.set_repository@),
            archive: deep_cards(self.release_repository.words_map()),
            stories: deep_stories(self.release_repository.stories_map()),
            next_id: self.next_id as int,
        }
    }
}

/// Every identifier a set view holds is below the bound: the set's cards
/// and its story were all created before the bound was reached.
pub open spec fn set_ids_below(s: CardSetView, bound: int) -> bool {
    &&& forall|i: int| 0 <= i < s.words.len() ==> (#[trigger] s.words[i]).id < bound
    &&& match s.story {
        Some(st) => st.id < bound,
        None => true,
    }
}

impl SetService {
    /// The stored sets as views, in insertion order, with their keys.
    pub closed spec fn set_entries(self) -> Seq<(u64, CardSetView)> {
        self.set_repository.entry_seq().map_values(|e: (u64, CardSet)| (e.0, e.1@))
    }

    /// The archived cards as views, in insertion order, with their keys.
    pub closed spec fn archive_entries(self) -> Seq<(u64, CardView)> {
        self.release_repository.word_entries().map_values(|e: (u64, Card)| (e.0, e.1@))
    }

    /// The archived stories as views, in insertion order, with their keys.
    pub closed spec fn story_entries(self) -> Seq<(u64, StoryView)> {
        self.release_repository.story_entries().map_values(|e: (u64, Story)| (e.0, e.1@))
    }

    /// Well-formed: both repositories are well-formed and every stored
    /// identifier is below the counter.
    pub closed spec fn wf(self) -> bool {
        &&& self.set_repository.wf()
        &&& self.release_repository.wf()
        &&& forall|k: u64|
            #[trigger] self@.sets.contains_key(k) ==> k < self@.next_id && set_ids_below(
                self@.sets[k],
                self@.next_id,
            ) && self@.sets[k].wf() && !(self@.sets[k].state is TenDay)
        &&& forall|k: u64| #[trigger] self@.archive.contains_key(k) ==> k < self@.next_id
        &&& forall|k: u64| #[trigger] self@.stories.contains_key(k) ==> k < self@.next_id
    }

    /// What a well-formed state guarantees of its abstract view: every
    /// active set is well-formed, below the terminal stage, and stored
    /// under its own identifier, and every identifier is below the
    /// counter.
    pub proof fn lemma_wf_view(self)
        requires
            self.wf(),
        ensures
            forall|k: u64|
                #[trigger] self@.sets.contains_key(k) ==> self@.sets[k].wf() && !(
                self@.sets[k].state is TenDay) && self@.sets[k].id == k && k < self@.next_id,
            forall|k: u64|
                #[trigger] self@.archive.contains_key(k) ==> self@.archive[k].id == k
                    && self@.archive[k].release_timestamp is Some && k < self@.next_id,
            forall|k: u64|
                #[trigger] self@.stories.contains_key(k) ==> self@.stories[k].id == k && k
                    < self@.next_id,
            self@.next_id <= u64::MAX + 1,
    {
        assert forall|k: u64| #[trigger] self@.sets.contains_key(k) implies self@.sets[k].wf()
            && !(self@.sets[k].state is TenDay) && self@.sets[k].id == k && k
            < self@.next_id by {
            assert(self.set_repository@.contains_key(k));
            assert(self@.sets[k] == self.set_repository@[k]@);
        }
        assert forall|k: u64| #[trigger] self@.archive.contains_key(k) implies (
        self@.archive[k]).id == k && self@.archive[k].release_timestamp is Some && k
            < self@.next_id by {
            assert(self.release_repository.words_map().contains_key(k));
            assert(self@.archive[k] == self.release_repository.words_map()[k]@);
        }
        assert forall|k: u64| #[trigger] self@.stories.contains_key(k) implies (
        self@.stories[k]).id == k && k < self@.next_id by {
            assert(self.release_repository.stories_map().contains_key(k));
            assert(self@.stories[k] == self.release_repository.stories_map()[k]@);
        }
    }

    /// A fresh, empty service whose first identifier is zero.
    pub fn new() -> (r: SetService)
        ensures
            r.wf(),
            r@.sets == Map::<u64, CardSetView>::empty(),
            r@.archive == Map::<u64, CardView>::empty(),
            r@.stories == Map::<u64, StoryView>::empty(),
            r@.next_id == 0,
            r.set_entries() == Seq::<(u64, CardSetView)>::empty(),
            r.archive_entries() == Seq::<(u64, CardView)>::empty(),
            r.story_entries() == Seq::<(u64, StoryView)>::empty(),
    {
        let r = SetService {
            set_repository: CardSetRepository::new(),
            release_repository: ReleaseRepository::new(),
            next_id: 0,
        };
        proof {
            assert(r@.sets =~= Map::<u64, CardSetView>::empty());
            assert(r@.archive =~= Map::<u64, CardView>::empty());
            assert(r@.stories =~= Map::<u64, StoryView>::empty());
            assert(r.set_entries() =~= Seq::<(u64, CardSetView)>::empty());
            assert(r.archive_entries() =~= Seq::<(u64, CardView)>::empty());
            assert(r.story_entries() =~= Seq::<(u64, StoryView)>::empty());
        }
        r
    }

    /// The next identifier the service will hand out.
    pub fn next_id(&self) -> (r: u64)
        ensures
            r == self@.next_id,
    {
        self.next_id
    }

    /// Look an active set up by its identifier; `NotFound` when absent.
    pub fn get_set(&self, set_id: u64) -> (r: Result<&CardSet, LifecycleError>)
        requires
            self.wf(),
        ensures
            match r {
                Ok(s) => self@.sets.contains_key(set_id) && s@ == self@.sets[set_id],
                Err(e) => e == LifecycleError::NotFound && !self@.sets.contains_key(set_id),
            },
    {
        match self.set_repository.load(set_id) {
            Some(s) => Ok(s),
            None => Err(LifecycleError::NotFound),
        }
    }

    /// Every active set, in insertion order.
    pub fn list_sets(&self) -> (r: Vec<CardSet>)
        ensures
            r@.len() == self.set_entries().len(),
            forall|i: int|
                0 <= i < r@.len() ==> (#[trigger] r@[i])@ == self.set_entries()[i].1,
    {
        self.set_repository.list_all()
    }

    /// One promotion step of a set at instant `now`, exactly as
    /// [`spec_promote`] describes; `Ok(true)` reports that the set was
    /// migrated into the archive.
    pub fn to_next_iter(&mut self, set_id: u64, now: i64) -> (r: Result<bool, LifecycleError>)
        requires
            old(self).wf(),
        ensures
            final(self).wf(),
            final(self)@ == spec_promote(old(self)@, set_id, now).0,
            r == spec_promote(old(self)@, set_id, now).1,
    {
        proof {
            old(self).lemma_wf_view();
        }
        let removed = self.set_repository.remove(set_id);
        let mut set = match removed {
            Some(s) => s,
            None => {
                proof {
                    assert(!old(self)@.sets.contains_key(set_id));
                    assert(self@.sets =~= old(self)@.sets);
                    assert(self@ == old(self)@);
                }
                return Err(LifecycleError::NotFound);
            },
        };
        proof {
            assert(old(self)@.sets.contains_key(set_id));
            assert(set@ == old(self)@.sets[set_id]);
        }
        let released = set.iter(now);
        match released {
            Some(cards) => {
                let story: Option<Story> = match set.story() {
                    Some(s) => Some(s.clone()),
                    None => None,
                };
                proof {
                    assert(forall|i: int|
                        0 <= i < cards@.len() ==> (#[trigger] cards@[i])@.release_timestamp
                            is Some) by {
                        assert(forall|i: int|
                            0 <= i < cards@.len() ==> (#[trigger] cards@[i])@ == cards@.map_values(
                                |c: Card| c@,
                            )[i]);
                    }
                }
                self.release_repository.save(cards, story);
                proof {
                    let v0 = old(self)@;
                    let s = v0.sets[set_id];
                    let stamped = Seq::new(s.words.len(), |i: int| spec_released(s.words[i], now));
                    assert(self@.sets =~= v0.sets.remove(set_id));
                    lemma_deep_insert_cards(
                        old(self).release_repository.words_map(),
                        cards@,
                        stamped,
                    );
                    assert(self@.archive =~= insert_card_views(v0.archive, stamped));
                    match s.story {
                        Some(st) => {
                            assert(self@.stories =~= v0.stories.insert(st.id, st));
                        },
                        None => {
                            assert(self@.stories =~= v0.stories);
                        },
                    }
                    self.lemma_restore_wf_promote_migrate(*old(self), set_id, now);
                }
                Ok(true)
            },
            None => {
                proof {
                    assert(set@.wf());
                    assert(!(set@.state is TenDay));
                }
                self.set_repository.save(set);
                proof {
                    let v0 = old(self)@;
                    let s = v0.sets[set_id];
                    assert(self@.sets =~= v0.sets.insert(
                        set_id,
                        CardSetView { state: s.state.spec_next(), state_timestamp: Some(now), ..s },
                    ));
                    assert(self@.archive =~= v0.archive);
                    assert(self@.stories =~= v0.stories);
                    self.lemma_restore_wf_promote_keep(*old(self), set_id, now);
                }
                Ok(false)
            },
        }
    }

    /// One promotion step of a set at the instant the clock reads when
    /// the call is made: whatever instant the clock returned, the state
    /// moves exactly as [`spec_promote`] at that instant describes.
    pub fn to_next_iter_now(&mut self, set_id: u64) -> (r: Result<bool, LifecycleError>)
        requires
            old(self).wf(),
        ensures
            final(self).wf(),
            exists|t: i64|
                final(self)@ == (#[trigger] spec_promote(old(self)@, set_id, t)).0 && r
                    == spec_promote(old(self)@, set_id, t).1,
    {
        let now = crate::clock::now_millis();
        self.to_next_iter(set_id, now)
    }

    /// Well-formedness is restored after a migrating promotion.
    proof fn lemma_restore_wf_promote_migrate(self, prev: SetService, set_id: u64, now: i64)
        requires
            prev.wf(),
            prev@.sets.contains_key(set_id),
            self.set_repository.wf(),
            self.release_repository.wf(),
            self@.next_id == prev@.next_id,
            self@.sets == prev@.sets.remove(set_id),
            self@.archive == insert_card_views(
                prev@.archive,
                Seq::new(
                    prev@.sets[set_id].words.len(),
                    |i: int| spec_released(prev@.sets[set_id].words[i], now),
                ),
            ),
            self@.stories == match prev@.sets[set_id].story {
                Some(st) => prev@.stories.insert(st.id, st),
                None => prev@.stories,
            },
        ensures
            self.wf(),
    {
        prev.lemma_wf_view();
        let s = prev@.sets[set_id];
        let stamped = Seq::new(s.words.len(), |i: int| spec_released(s.words[i], now));
        assert forall|k: u64| #[trigger] self@.sets.contains_key(k) implies k < self@.next_id
            && set_ids_below(self@.sets[k], self@.next_id) && self@.sets[k].wf() && !(
        self@.sets[k].state is TenDay) by {
            assert(prev@.sets.contains_key(k));
            assert(self@.sets[k] == prev@.sets[k]);
        }
        lemma_insert_card_views_keys(prev@.archive, stamped, self@.next_id);
        assert forall|k: u64| #[trigger] self@.archive.contains_key(k) implies k
            < self@.next_id by {
            assert(forall|i: int|
                0 <= i < stamped.len() ==> (#[trigger] stamped[i]).id == s.words[i].id);
        }
    }

    /// Well-formedness is restored after a non-migrating promotion.
    proof fn lemma_restore_wf_promote_keep(self, prev: SetService, set_id: u64, now: i64)
        requires
            prev.wf(),
            prev@.sets.contains_key(set_id),
            self.set_repository.wf(),
            self.release_repository.wf(),
            self@.next_id == prev@.next_id,
            self@.sets == prev@.sets.insert(
                set_id,
                CardSetView {
                    state: prev@.sets[set_id].state.spec_next(),
                    state_timestamp: Some(now),
                    ..prev@.sets[set_id]
                },
            ),
            self@.archive == prev@.archive,
            self@.stories == prev@.stories,
        ensures
            self.wf(),
    {
        prev.lemma_wf_view();
        assert forall|k: u64| #[trigger] self@.sets.contains_key(k) implies k < self@.next_id
            && set_ids_below(self@.sets[k], self@.next_id) && self@.sets[k].wf() && !(
        self@.sets[k].state is TenDay) by {
            if k != set_id {
                assert(prev@.sets.contains_key(k));
                assert(self@.sets[k] == prev@.sets[k]);
            } else {
                assert(prev@.sets[set_id].wf());
            }
        }
    }
}

/// Upserting released cards and taking views commutes: the deep view of
/// the archive after `insert_cards` is `insert_card_views` of the deep
/// view, provided the view sequence matches the cards'.
pub proof fn lemma_deep_insert_cards(m: Map<u64, Card>, cards: Seq<Card>, views: Seq<CardView>)
    requires
        views == cards.map_values(|c: Card| c@),
    ensures
        deep_cards(insert_cards(m, cards)) =~= insert_card_views(deep_cards(m), views),
    decreases cards.len(),
{
    if cards.len() == 0 {
    } else {
        lemma_deep_insert_cards(
            m,
            cards.drop_last(),
            cards.drop_last().map_values(|c: Card| c@),
        );
        assert(views.drop_last() =~= cards.drop_last().map_values(|c: Card| c@));
        assert(views.last() == cards.last()@);
        assert(deep_cards(insert_cards(m, cards)) =~= insert_card_views(
            deep_cards(m),
            views,
        ));
    }
}

/// Upserting released card views keeps every key below a bound that the
/// old keys and the new cards' identifiers respect.
pub proof fn lemma_insert_card_views_keys(m: Map<u64, CardView>, cards: Seq<CardView>, bound: int)
    requires
        forall|k: u64| #[trigger] m.contains_key(k) ==> k < bound,
        forall|i: int| 0 <= i < cards.len() ==> (#[trigger] cards[i]).id < bound,
    ensures
        forall|k: u64| #[trigger] insert_card_views(m, cards).contains_key(k) ==> k < bound,
    decreases cards.len(),
{
    if cards.len() > 0 {
        assert forall|i: int| 0 <= i < cards.drop_last().len() implies (
        #[trigger] cards.drop_last()[i]).id < bound by {
            assert(cards.drop_last()[i] == cards[i]);
        }
        lemma_insert_card_views_keys(m, cards.drop_last(), bound);
        assert(cards[cards.len() - 1].id < bound);
        assert forall|k: u64| #[trigger] insert_card_views(m, cards).contains_key(k) implies k
            < bound by {
            if k != cards.last().id {
                assert(insert_card_views(m, cards.drop_last()).contains_key(k));
            }
        }
    }
}

/// One intake candidate, abstractly: the word and translation texts.
pub struct CandidateView {
    pub word: Seq<char>,
    pub translation: Seq<char>,
}

/// The abstract value of a candidate list.
pub open spec fn cand_views(ws: Seq<ExtractedWord>) -> Seq<CandidateView> {
    ws.map_values(|e: ExtractedWord| CandidateView { word: e.word@, translation: e.translation@ })
}

/// The candidates that a batch of archived cards re-enters at recall:
/// their words and translations, in order.
pub open spec fn card_pairs(cs: Seq<CardView>) -> Seq<CandidateView> {
    cs.map_values(|c: CardView| CandidateView { word: c.word, translation: c.translation })
}

/// A word is known when it already stands on some card of an active set
/// or on some archived card. Matching is exact, with no normalization.
pub open spec fn known_word(v: ServiceView, w: Seq<char>) -> bool {
    ||| exists|k: u64, i: int|
        #![auto]
        v.sets.contains_key(k) && 0 <= i < v.sets[k].words.len() && v.sets[k].words[i].word == w
    ||| exists|k: u64| #![auto] v.archive.contains_key(k) && v.archive[k].word == w
}

/// The candidate at position `j` survives deduplication: its word is not
/// known, and no earlier candidate carries the same word.
pub open spec fn keeps(v: ServiceView, cands: Seq<CandidateView>, j: int) -> bool {
    &&& !known_word(v, cands[j].word)
    &&& forall|l: int| 0 <= l < j ==> (#[trigger] cands[l]).word != cands[j].word
}

/// The surviving candidates among the first `n`, in input order.
pub open spec fn dedup_prefix(v: ServiceView, cands: Seq<CandidateView>, n: int) -> Seq<
    CandidateView,
>
    decreases n,
{
    if n <= 0 {
        Seq::empty()
    } else {
        dedup_prefix(v, cands, n - 1) + if keeps(v, cands, n - 1) {
            seq![cands[n - 1]]
        } else {
            Seq::empty()
        }
    }
}

/// Deduplication never adds candidates.
pub proof fn lemma_dedup_len(v: ServiceView, cands: Seq<CandidateView>, n: int)
    ensures
        n >= 0 ==> dedup_prefix(v, cands, n).len() <= n,
    decreases n,
{
    if n > 0 {
        lemma_dedup_len(v, cands, n - 1);
    }
}

/// The candidate survived from some input position that the filter keeps.
pub open spec fn survives_from(
    v: ServiceView,
    cands: Seq<CandidateView>,
    n: int,
    c: CandidateView,
) -> bool {
    exists|x: int| 0 <= x < n && #[trigger] cands[x] == c && keeps(v, cands, x)
}

/// Deduplication is sound: every surviving candidate's word is unknown to
/// the state, no two surviving candidates share a word, and each survivor
/// is an input candidate that the filter keeps. Together with
/// [`lemma_dedup_complete`], this is the whole of the intake filter.
pub proof fn lemma_dedup_sound(v: ServiceView, cands: Seq<CandidateView>, n: int)
    ensures
        forall|j: int|
            0 <= j < dedup_prefix(v, cands, n).len() ==> survives_from(
                v,
                cands,
                n,
                #[trigger] dedup_prefix(v, cands, n)[j],
            ),
        forall|j: int|
            0 <= j < dedup_prefix(v, cands, n).len() ==> !known_word(
                v,
                (#[trigger] dedup_prefix(v, cands, n)[j]).word,
            ),
        forall|j: int, l: int|
            0 <= j < l < dedup_prefix(v, cands, n).len() ==> (#[trigger] dedup_prefix(
                v,
                cands,
                n,
            )[j]).word != (#[trigger] dedup_prefix(v, cands, n)[l]).word,
    decreases n,
{
    if n > 0 {
        lemma_dedup_sound(v, cands, n - 1);
        let front = dedup_prefix(v, cands, n - 1);
        let whole = dedup_prefix(v, cands, n);
        assert forall|j: int| 0 <= j < whole.len() implies survives_from(
            v,
            cands,
            n,
            #[trigger] whole[j],
        ) by {
            if j < front.len() {
                assert(whole[j] == front[j]);
                assert(survives_from(v, cands, n - 1, front[j]));
                let x = choose|x: int|
                    0 <= x < n - 1 && #[trigger] cands[x] == front[j] && keeps(v, cands, x);
                assert(0 <= x < n && cands[x] == whole[j] && keeps(v, cands, x));
            } else {
                assert(keeps(v, cands, n - 1));
                assert(0 <= n - 1 < n && cands[n - 1] == whole[j] && keeps(v, cands, n - 1));
            }
        }
        assert forall|j: int| 0 <= j < whole.len() implies !known_word(
            v,
            (#[trigger] whole[j]).word,
        ) by {
            let x = choose|x: int| 0 <= x < n && #[trigger] cands[x] == whole[j] && keeps(v, cands, x);
        }
        assert forall|j: int, l: int|
            0 <= j < l < whole.len() implies (#[trigger] whole[j]).word != (
        #[trigger] whole[l]).word by {
            if l == whole.len() - 1 && keeps(v, cands, n - 1) {
                assert(whole[j] == front[j]);
                assert(survives_from(v, cands, n - 1, front[j]));
                let x = choose|x: int|
                    0 <= x < n - 1 && #[trigger] cands[x] == front[j] && keeps(v, cands, x);
                assert(cands[x].word != cands[n - 1].word);
            } else {
                assert(whole[j] == front[j] && whole[l] == front[l]);
            }
        }
    }
}

/// Deduplication is complete: a candidate whose word is unknown and not
/// carried by any earlier candidate survives.
pub proof fn lemma_dedup_complete(v: ServiceView, cands: Seq<CandidateView>, n: int, x: int)
    requires
        0 <= x < n,
        keeps(v, cands, x),
    ensures
        exists|j: int|
            0 <= j < dedup_prefix(v, cands, n).len() && #[trigger] dedup_prefix(v, cands, n)[j]
                == cands[x],
    decreases n,
{
    if x == n - 1 {
        let whole = dedup_prefix(v, cands, n);
        assert(whole[whole.len() - 1] == cands[x]);
    } else {
        lemma_dedup_complete(v, cands, n - 1, x);
        let front = dedup_prefix(v, cands, n - 1);
        let whole = dedup_prefix(v, cands, n);
        let j = choose|j: int| 0 <= j < front.len() && #[trigger] front[j] == cands[x];
        assert(whole[j] == cands[x]);
    }
}

/// The candidates intake will process: all of them when deduplication is
/// bypassed (recall), the surviving ones otherwise.
pub open spec fn surviving(v: ServiceView, cands: Seq<CandidateView>, skip: bool) -> Seq<
    CandidateView,
> {
    if skip {
        cands
    } else {
        dedup_prefix(v, cands, cands.len() as int)
    }
}

/// `k` names the most recently created intake-stage set: it is in the
/// intake stage and no intake-stage set has a greater identifier.
pub open spec fn is_max_tobe(sets: Map<u64, CardSetView>, k: u64) -> bool {
    &&& sets.contains_key(k)
    &&& sets[k].state is Tobe
    &&& forall|k2: u64| sets.contains_key(k2) && (#[trigger] sets[k2]).state is Tobe ==> k2 <= k
}

/// A new, empty, writable set in the intake stage.
pub open spec fn empty_set_view(id: u64) -> CardSetView {
    CardSetView {
        id,
        state: LearnSetState::Tobe,
        state_timestamp: None,
        words: Seq::empty(),
        story: None,
    }
}

/// The moving state of the intake pipeline: the sets persisted so far,
/// the set currently being filled, and the identifier counter.
pub struct FillState {
    pub sets: Map<u64, CardSetView>,
    pub cur: CardSetView,
    pub next_id: int,
}

/// A candidate appended to a set as a card under a fresh identifier.
pub open spec fn push_candidate(cv: CardSetView, id: u64, ew: CandidateView) -> CardSetView {
    CardSetView { words: cv.words.push(spec_new_card(id, ew.word, ew.translation)), ..cv }
}

/// One intake step: when the current set is no longer writable it is
/// persisted as it stands and a new empty set takes its place (the one
/// new set per overflow event); then the candidate is appended under a
/// fresh identifier.
pub open spec fn fill_step(fs: FillState, ew: CandidateView) -> FillState {
    let fs1 = if !fs.cur.spec_writable() {
        FillState {
            sets: fs.sets.insert(fs.cur.id, fs.cur),
            cur: empty_set_view(fs.next_id as u64),
            next_id: fs.next_id + 1,
        }
    } else {
        fs
    };
    FillState {
        sets: fs1.sets,
        cur: push_candidate(fs1.cur, fs1.next_id as u64, ew),
        next_id: fs1.next_id + 1,
    }
}

/// The intake pipeline over the first `n` candidates.
pub open spec fn fill(fs: FillState, cands: Seq<CandidateView>, n: int) -> FillState
    decreases n,
{
    if n <= 0 {
        fs
    } else {
        fill_step(fill(fs, cands, n - 1), cands[n - 1])
    }
}

/// Where intake starts writing: the most recently created intake-stage
/// set when it is still writable, else a new empty set under a fresh
/// identifier.
pub open spec fn spec_start(v: ServiceView) -> FillState {
    if exists|k: u64| is_max_tobe(v.sets, k) {
        let k = choose|k: u64| is_max_tobe(v.sets, k);
        if v.sets[k].spec_writable() {
            FillState { sets: v.sets, cur: v.sets[k], next_id: v.next_id }
        } else {
            FillState {
                sets: v.sets,
                cur: empty_set_view(v.next_id as u64),
                next_id: v.next_id + 1,
            }
        }
    } else {
        FillState { sets: v.sets, cur: empty_set_view(v.next_id as u64), next_id: v.next_id + 1 }
    }
}

/// What intake does to the whole state: candidates are deduplicated
/// (unless bypassed), survivors fill the current writable set and as many
/// new sets as overflow demands, and the final in-progress set is
/// persisted even when not full. With no candidates, or none surviving,
/// the state is untouched. The archive is never touched.
pub open spec fn spec_save_words(v: ServiceView, cands: Seq<CandidateView>, skip: bool) -> ServiceView {
    let sur = surviving(v, cands, skip);
    if cands.len() == 0 || sur.len() == 0 {
        v
    } else {
        let fs = fill(spec_start(v), sur, sur.len() as int);
        ServiceView { sets: fs.sets.insert(fs.cur.id, fs.cur), next_id: fs.next_id, ..v }
    }
}

/// The archived card views a list of identifiers selects, in list order;
/// identifiers that hold no record are skipped.
pub open spec fn present_card_views(m: Map<u64, CardView>, ids: Seq<u64>) -> Seq<CardView>
    decreases ids.len(),
{
    if ids.len() == 0 {
        Seq::empty()
    } else {
        present_card_views(m, ids.drop_last()) + if m.contains_key(ids.last()) {
            seq![m[ids.last()]]
        } else {
            Seq::empty()
        }
    }
}

/// What recall does to the whole state: the archived cards the
/// identifiers select re-enter intake as candidates with deduplication
/// bypassed, and only then do the selected identifiers leave the archive.
pub open spec fn spec_recall(v: ServiceView, ids: Seq<u64>) -> ServiceView {
    let loaded = present_card_views(v.archive, ids);
    let mid = spec_save_words(v, card_pairs(loaded), true);
    ServiceView { archive: mid.archive.remove_keys(ids.to_set()), ..mid }
}

/// Taking views commutes with selecting archived cards by identifier.
proof fn lemma_present_views(m: Map<u64, Card>, ids: Seq<u64>)
    ensures
        crate::repo::present_cards(m, ids).map_values(|c: Card| c@) =~= present_card_views(
            deep_cards(m),
            ids,
        ),
    decreases ids.len(),
{
    if ids.len() > 0 {
        lemma_present_views(m, ids.drop_last());
    }
}

/// Selecting by identifier yields at most one card per identifier.
proof fn lemma_present_views_len(m: Map<u64, CardView>, ids: Seq<u64>)
    ensures
        present_card_views(m, ids).len() <= ids.len(),
    decreases ids.len(),
{
    if ids.len() > 0 {
        lemma_present_views_len(m, ids.drop_last());
    }
}

/// Taking views commutes with inserting a set into the active store.
proof fn lemma_deep_sets_insert(m: Map<u64, CardSet>, id: u64, s: CardSet)
    ensures
        deep_sets(m.insert(id, s)) =~= deep_sets(m).insert(id, s@),
{
}

impl SetService {
    /// Whether a word already stands on a card of an active set or on an
    /// archived card.
    fn is_known_word(&self, w: &String) -> (r: bool)
        requires
            self.wf(),
        ensures
            r == known_word(self@, w@),
    {
        let sn = self.set_repository.len();
        let mut a: usize = 0;
        while a < sn
            invariant
                self.wf(),
                sn == self.set_repository.entry_seq().len(),
                a <= sn,
                forall|j: int, i: int|
                    #![auto]
                    0 <= j < a && 0 <= i < self.set_repository.entry_seq()[j].1@.words.len()
                        ==> self.set_repository.entry_seq()[j].1@.words[i].word != w@,
            decreases sn - a,
        {
            let entry = self.set_repository.entry_at(a);
            let cards = entry.1.words();
            let cn = cards.len();
            let ghost set_view = entry.1@;
            let mut b: usize = 0;
            while b < cn
                invariant
                    self.wf(),
                    a < self.set_repository.entry_seq().len(),
                    set_view == self.set_repository.entry_seq()[a as int].1@,
                    cn == cards@.len(),
                    b <= cn,
                    cards@.map_values(|c: Card| c@) == set_view.words,
                    forall|i: int| #![auto] 0 <= i < b ==> set_view.words[i].word != w@,
                decreases cn - b,
            {
                if cards[b].has_word(w) {
                    proof {
                        assert(cards@[b as int]@ == set_view.words[b as int]);
                        self.set_repository.lemma_entry_in_map(a as int);
                        let k = self.set_repository.entry_seq()[a as int].0;
                        assert(self@.sets.contains_key(k));
                        assert(self@.sets[k] == set_view);
                        assert(self@.sets[k].words[b as int].word == w@);
                    }
                    return true;
                }
                proof {
                    assert(cards@[b as int]@ == set_view.words[b as int]);
                }
                b += 1;
            }
            a += 1;
        }
        let an = self.release_repository.words_len();
        let mut c: usize = 0;
        while c < an
            invariant
                self.wf(),
                an == self.release_repository.word_entries().len(),
                c <= an,
                forall|j: int, i: int|
                    #![auto]
                    0 <= j < self.set_repository.entry_seq().len() && 0 <= i
                        < self.set_repository.entry_seq()[j].1@.words.len()
                        ==> self.set_repository.entry_seq()[j].1@.words[i].word != w@,
                forall|j: int|
                    #![auto]
                    0 <= j < c ==> self.release_repository.word_entries()[j].1@.word != w@,
            decreases an - c,
        {
            let entry = self.release_repository.word_at(c);
            if entry.1.has_word(w) {
                proof {
                    self.release_repository.lemma_word_entry_in_map(c as int);
                    let k = self.release_repository.word_entries()[c as int].0;
                    assert(self@.archive.contains_key(k));
                    assert(self@.archive[k].word == w@);
                }
                return true;
            }
            c += 1;
        }
        proof {
            if known_word(self@, w@) {
                if exists|k: u64, i: int|
                    #![auto]
                    self@.sets.contains_key(k) && 0 <= i < self@.sets[k].words.len()
                        && self@.sets[k].words[i].word == w@ {
                    let (k, i) = choose|k: u64, i: int|
                        #![auto]
                        self@.sets.contains_key(k) && 0 <= i < self@.sets[k].words.len()
                            && self@.sets[k].words[i].word == w@;
                    assert(self.set_repository@.contains_key(k));
                    self.set_repository.lemma_map_in_entries(k);
                    let j = choose|j: int|
                        0 <= j < self.set_repository.entry_seq().len() && (
                        #[trigger] self.set_repository.entry_seq()[j]).0 == k;
                    self.set_repository.lemma_entry_in_map(j);
                    assert(self.set_repository.entry_seq()[j].1@.words[i].word == w@);
                    assert(false);
                } else {
                    let k = choose|k: u64|
                        #![auto]
                        self@.archive.contains_key(k) && self@.archive[k].word == w@;
                    assert(self.release_repository.words_map().contains_key(k));
                    self.release_repository.lemma_word_map_in_entries(k);
                    let j = choose|j: int|
                        0 <= j < self.release_repository.word_entries().len() && (
                        #[trigger] self.release_repository.word_entries()[j]).0 == k;
                    self.release_repository.lemma_word_entry_in_map(j);
                    assert(self.release_repository.word_entries()[j].1@.word == w@);
                    assert(false);
                }
            }
        }
        false
    }

    /// Drop the candidates whose word is already known and, within the
    /// input, every repetition of an earlier candidate's word; order is
    /// kept.
    fn filter_new(&self, words: &Vec<ExtractedWord>) -> (r: Vec<ExtractedWord>)
        requires
            self.wf(),
        ensures
            cand_views(r@) == dedup_prefix(self@, cand_views(words@), words@.len() as int),
    {
        let n = words.len();
        let mut out: Vec<ExtractedWord> = Vec::new();
        let mut seen: Vec<String> = Vec::new();
        let mut j: usize = 0;
        while j < n
            invariant
                self.wf(),
                n == words@.len(),
                j <= n,
                out@.len() <= j,
                seen@.len() == j,
                cand_views(out@) == dedup_prefix(self@, cand_views(words@), j as int),
                seen@.map_values(|s: String| s@) == cand_views(words@).take(j as int).map_values(
                    |c: CandidateView| c.word,
                ),
            decreases n - j,
        {
            let ew = &words[j];
            let dup = contains_string(&seen, &ew.word);
            let known = self.is_known_word(&ew.word);
            proof {
                let cv = cand_views(words@);
                assert(cv[j as int].word == ew.word@);
                if dup {
                    let x = choose|x: int| 0 <= x < seen@.len() && (#[trigger] seen@[x])@ == ew.word@;
                    assert(seen@.map_values(|s: String| s@)[x] == ew.word@);
                    assert(cv.take(j as int).map_values(|c: CandidateView| c.word)[x] == ew.word@);
                    assert(cv[x].word == ew.word@);
                    assert(!keeps(self@, cv, j as int));
                } else {
                    assert forall|l: int| 0 <= l < j implies (#[trigger] cv[l]).word
                        != cv[j as int].word by {
                        if cv[l].word == ew.word@ {
                            assert(cv.take(j as int).map_values(|c: CandidateView| c.word)[l]
                                == ew.word@);
                            assert(seen@.map_values(|s: String| s@)[l] == ew.word@);
                            assert(seen@[l]@ == ew.word@);
                        }
                    }
                }
            }
            if !dup && !known {
                out.push(ew.clone());
                proof {
                    assert(keeps(self@, cand_views(words@), j as int));
                    assert(cand_views(out@) =~= dedup_prefix(
                        self@,
                        cand_views(words@),
                        j + 1 as int,
                    ));
                }
            } else {
                proof {
                    assert(!keeps(self@, cand_views(words@), j as int));
                    assert(cand_views(out@) =~= dedup_prefix(
                        self@,
                        cand_views(words@),
                        j + 1 as int,
                    ));
                }
            }
            let ghost seen_pre = seen@;
            seen.push(ew.word.clone());
            proof {
                let lhs = seen@.map_values(|s: String| s@);
                let rhs = cand_views(words@).take(j + 1 as int).map_values(
                    |c: CandidateView| c.word,
                );
                assert forall|x: int| 0 <= x < j + 1 implies lhs[x] == rhs[x] by {
                    if x < j {
                        assert(lhs[x] == seen_pre[x]@);
                        assert(seen_pre.map_values(|s: String| s@)[x] == seen_pre[x]@);
                        assert(rhs[x] == cand_views(words@).take(j as int).map_values(
                            |c: CandidateView| c.word,
                        )[x]);
                    } else {
                        assert(seen@[x] == ew.word);
                        assert(rhs[x] == cand_views(words@)[x].word);
                    }
                }
                assert(lhs =~= rhs);
            }
            j += 1;
        }
        proof {
            assert(cand_views(words@).len() == n);
        }
        out
    }

    /// Batch intake of candidate words, exactly as [`spec_save_words`]
    /// describes: deduplicate unless `skip_uniq`, fill the most recent
    /// writable intake-stage set, persist full sets and open new ones as
    /// capacity fills, and persist the final in-progress set. No
    /// candidate that survives deduplication is dropped.
    pub fn save_words(&mut self, words: Vec<ExtractedWord>, skip_uniq: bool) -> (r: Result<
        (),
        LifecycleError,
    >)
        requires
            old(self).wf(),
            old(self)@.next_id + 2 * words@.len() + 1 <= u64::MAX,
        ensures
            final(self).wf(),
            r is Ok,
            final(self)@ == spec_save_words(old(self)@, cand_views(words@), skip_uniq),
    {
        let ghost v0 = self@;
        let ghost cv = cand_views(words@);
        if words.len() == 0 {
            return Ok(());
        }
        let unique_words: Vec<ExtractedWord> = if skip_uniq {
            words
        } else {
            let r = self.filter_new(&words);
            r
        };
        proof {
            assert(cand_views(unique_words@) == surviving(v0, cv, skip_uniq));
        }
        proof {
            lemma_dedup_len(v0, cv, cv.len() as int);
            assert(cand_views(unique_words@).len() == unique_words@.len());
            assert(unique_words@.len() <= words@.len());
        }
        if unique_words.len() == 0 {
            proof {
                assert(surviving(v0, cv, skip_uniq).len() == 0);
            }
            return Ok(());
        }
        let ghost sur = cand_views(unique_words@);
        proof {
            old(self).lemma_wf_view();
            assert(sur.len() == unique_words@.len());
        }
        let ghost fs0 = spec_start(v0);
        let mut current_set: CardSet;
        match self.set_repository.max_id_in_state(LearnSetState::Tobe) {
            Some(m) => {
                proof {
                    assert(self@.sets.contains_key(m));
                    assert(is_max_tobe(v0.sets, m));
                    let k = choose|k: u64| is_max_tobe(v0.sets, k);
                    assert(k <= m && m <= k);
                }
                let loaded = match self.set_repository.load(m) {
                    Some(s) => s,
                    None => {
                        proof {
                            assert(false);
                        }
                        return Err(LifecycleError::NotFound);
                    },
                };
                if loaded.is_writabe() {
                    current_set = loaded.clone();
                } else {
                    current_set = CardSet::new(self.next_id);
                    self.next_id = self.next_id + 1;
                }
            },
            None => {
                proof {
                    if exists|k: u64| is_max_tobe(v0.sets, k) {
                        let k = choose|k: u64| is_max_tobe(v0.sets, k);
                        assert(v0.sets.contains_key(k) && v0.sets[k].state is Tobe);
                        assert(false);
                    }
                }
                current_set = CardSet::new(self.next_id);
                self.next_id = self.next_id + 1;
            },
        }
        proof {
            assert(deep_sets(self.set_repository@) == fs0.sets);
            assert(current_set@ == fs0.cur);
            assert(self.next_id as int == fs0.next_id);
            assert(fill(fs0, sur, 0) == fs0);
        }
        let n = unique_words.len();
        let mut i: usize = 0;
        while i < n
            invariant
                n == sur.len(),
                sur == cand_views(unique_words@),
                i <= n,
                self.set_repository.wf(),
                self.release_repository == old(self).release_repository,
                self.release_repository.wf(),
                deep_sets(self.set_repository@) == fill(fs0, sur, i as int).sets,
                current_set@ == fill(fs0, sur, i as int).cur,
                self.next_id as int == fill(fs0, sur, i as int).next_id,
                self.next_id as int <= v0.next_id + 1 + 2 * i,
                v0.next_id + 2 * n + 1 <= u64::MAX,
                current_set@.wf(),
                current_set@.state is Tobe,
                current_set@.id < self.next_id,
                set_ids_below(current_set@, self.next_id as int),
                forall|k: u64|
                    #[trigger] deep_sets(self.set_repository@).contains_key(k) ==> k
                        < self.next_id && set_ids_below(
                        deep_sets(self.set_repository@)[k],
                        self.next_id as int,
                    ) && deep_sets(self.set_repository@)[k].wf() && !(deep_sets(
                        self.set_repository@,
                    )[k].state is TenDay),
                v0.next_id <= self.next_id as int,
            decreases n - i,
        {
            let ghost fs_pre = fill(fs0, sur, i as int);
            let ghost fs1 = if !fs_pre.cur.spec_writable() {
                FillState {
                    sets: fs_pre.sets.insert(fs_pre.cur.id, fs_pre.cur),
                    cur: empty_set_view(fs_pre.next_id as u64),
                    next_id: fs_pre.next_id + 1,
                }
            } else {
                fs_pre
            };
            if !current_set.is_writabe() {
                let ghost repo_pre = self.set_repository@;
                let ghost full_set = current_set;
                self.set_repository.save(current_set);
                proof {
                    lemma_deep_sets_insert(repo_pre, full_set@.id, full_set);
                    assert(deep_sets(self.set_repository@) =~= fs1.sets);
                }
                current_set = CardSet::new(self.next_id);
                self.next_id = self.next_id + 1;
                proof {
                    assert(current_set@ == fs1.cur);
                }
            }
            proof {
                assert(deep_sets(self.set_repository@) == fs1.sets);
                assert(current_set@ == fs1.cur);
                assert(self.next_id as int == fs1.next_id);
                assert(current_set@.spec_writable());
                assert forall|k: u64|
                    #[trigger] deep_sets(self.set_repository@).contains_key(k) implies k
                    < self.next_id && set_ids_below(
                    deep_sets(self.set_repository@)[k],
                    self.next_id as int,
                ) && deep_sets(self.set_repository@)[k].wf() && !(deep_sets(
                    self.set_repository@,
                )[k].state is TenDay) by {
                    if !fs_pre.cur.spec_writable() && k == fs_pre.cur.id {
                        assert(deep_sets(self.set_repository@)[k] == fs_pre.cur);
                    } else {
                        assert(fs_pre.sets.contains_key(k));
                        assert(deep_sets(self.set_repository@)[k] == fs_pre.sets[k]);
                    }
                }
            }
            let ew = &unique_words[i];
            let card_id = self.next_id;
            proof {
                assert(sur[i as int].word == ew.word@ && sur[i as int].translation
                    == ew.translation@);
            }
            let res = current_set.push(card_id, ew.word.as_str(), ew.translation.as_str());
            proof {
                assert(res is Ok);
                assert(current_set@ == push_candidate(fs1.cur, card_id, sur[i as int]));
                assert(current_set@ == fill_step(fs_pre, sur[i as int]).cur);
                assert(current_set@.wf()) by {
                    assert(forall|x: int|
                        0 <= x < current_set@.words.len() - 1 ==> current_set@.words[x] == fs1.cur.words[x]);
                }
                assert(set_ids_below(current_set@, self.next_id + 1 as int)) by {
                    assert(forall|x: int|
                        0 <= x < current_set@.words.len() - 1 ==> current_set@.words[x] == fs1.cur.words[x]);
                }
            }
            self.next_id = self.next_id + 1;
            proof {
                assert(fill(fs0, sur, i + 1 as int) == fill_step(fs_pre, sur[i as int]));
                assert(deep_sets(self.set_repository@) == fill(fs0, sur, i + 1 as int).sets);
            }
            i += 1;
        }
        let ghost fs_end = fill(fs0, sur, n as int);
        let ghost repo_pre = self.set_repository@;
        let ghost last_set = current_set;
        self.set_repository.save(current_set);
        proof {
            lemma_deep_sets_insert(repo_pre, last_set@.id, last_set);
            assert(deep_sets(self.set_repository@) =~= fs_end.sets.insert(
                fs_end.cur.id,
                fs_end.cur,
            ));
            assert(self.release_repository == old(self).release_repository);
            assert(self@.archive =~= v0.archive);
            assert(self@.stories =~= v0.stories);
            assert(self@.sets =~= spec_save_words(v0, cv, skip_uniq).sets);
            assert(self@ == spec_save_words(v0, cv, skip_uniq));
            assert forall|k: u64| #[trigger] self@.sets.contains_key(k) implies k < self@.next_id
                && set_ids_below(self@.sets[k], self@.next_id) && self@.sets[k].wf() && !(
            self@.sets[k].state is TenDay) by {
                if k == fs_end.cur.id {
                    assert(self@.sets[k] == fs_end.cur);
                } else {
                    assert(fs_end.sets.contains_key(k));
                    assert(self@.sets[k] == fs_end.sets[k]);
                }
            }
            assert forall|k: u64| #[trigger] self@.archive.contains_key(k) implies k
                < self@.next_id by {
                assert(v0.archive.contains_key(k));
            }
            assert forall|k: u64| #[trigger] self@.stories.contains_key(k) implies k
                < self@.next_id by {
                assert(v0.stories.contains_key(k));
            }
            assert(self.wf());
        }
        Ok(())
    }

    /// Recall archived cards back into intake, exactly as [`spec_recall`]
    /// describes: the selected cards re-enter the pipeline with
    /// deduplication bypassed, and only after the re-intake succeeds do
    /// their identifiers leave the archive.
    pub fn mark_as_tobe(&mut self, word_ids: &Vec<u64>) -> (r: Result<(), LifecycleError>)
        requires
            old(self).wf(),
            old(self)@.next_id + 2 * word_ids@.len() + 1 <= u64::MAX,
        ensures
            final(self).wf(),
            r is Ok,
            final(self)@ == spec_recall(old(self)@, word_ids@),
    {
        let ghost v0 = self@;
        let cards = self.release_repository.load_word_by_ids(word_ids);
        proof {
            lemma_present_views(old(self).release_repository.words_map(), word_ids@);
            lemma_present_views_len(v0.archive, word_ids@);
        }
        let cn = cards.len();
        let mut extracted: Vec<ExtractedWord> = Vec::new();
        let mut i: usize = 0;
        while i < cn
            invariant
                cn == cards@.len(),
                i <= cn,
                extracted@.len() == i,
                cand_views(extracted@) == card_pairs(
                    cards@.map_values(|c: Card| c@).take(i as int),
                ),
            decreases cn - i,
        {
            let card = &cards[i];
            let ghost pre = extracted@;
            extracted.push(
                ExtractedWord { word: card.word().to_owned(), translation: card.translation().to_owned() },
            );
            proof {
                let views = cards@.map_values(|c: Card| c@);
                let lhs = cand_views(extracted@);
                let rhs = card_pairs(views.take(i + 1 as int));
                assert forall|x: int| 0 <= x < i + 1 implies lhs[x] == rhs[x] by {
                    if x < i {
                        assert(lhs[x] == cand_views(pre)[x]);
                        assert(rhs[x] == card_pairs(views.take(i as int))[x]);
                    } else {
                        assert(extracted@[x].word@ == views[x].word);
                        assert(extracted@[x].translation@ == views[x].translation);
                    }
                }
                assert(lhs =~= rhs);
            }
            i += 1;
        }
        proof {
            assert(cards@.map_values(|c: Card| c@).take(cn as int) =~= cards@.map_values(
                |c: Card| c@,
            ));
            assert(cand_views(extracted@) =~= card_pairs(present_card_views(v0.archive, word_ids@)));
        }
        let res = self.save_words(extracted, true);
        proof {
            assert(res is Ok);
        }
        let ghost mid = self@;
        self.release_repository.remove_word_by_ids(word_ids);
        proof {
            assert(self@.sets =~= mid.sets);
            assert(self@.stories =~= mid.stories);
            assert(self@.archive =~= mid.archive.remove_keys(word_ids@.to_set()));
            assert(self@ == spec_recall(v0, word_ids@));
            self.lemma_restore_wf_after_archive_removal(mid);
        }
        Ok(())
    }

    /// Well-formedness survives removing archived cards.
    proof fn lemma_restore_wf_after_archive_removal(self, mid: ServiceView)
        requires
            self.set_repository.wf(),
            self.release_repository.wf(),
            self@.sets == mid.sets,
            self@.stories == mid.stories,
            self@.next_id == mid.next_id,
            forall|k: u64|
                #[trigger] mid.sets.contains_key(k) ==> k < mid.next_id && set_ids_below(
                    mid.sets[k],
                    mid.next_id,
                ) && mid.sets[k].wf() && !(mid.sets[k].state is TenDay),
            forall|k: u64| #[trigger] self@.archive.contains_key(k) ==> mid.archive.contains_key(k),
            forall|k: u64| #[trigger] mid.archive.contains_key(k) ==> k < mid.next_id,
            forall|k: u64| #[trigger] mid.stories.contains_key(k) ==> k < mid.next_id,
        ensures
            self.wf(),
    {
    }
}

/// Whether some string of the list has exactly this text.
fn contains_string(v: &Vec<String>, w: &String) -> (r: bool)
    ensures
        r == exists|x: int| 0 <= x < v@.len() && (#[trigger] v@[x])@ == w@,
{
    let n = v.len();
    let mut i: usize = 0;
    while i < n
        invariant
            n == v@.len(),
            i <= n,
            forall|x: int| 0 <= x < i ==> (#[trigger] v@[x])@ != w@,
        decreases n - i,
    {
        if v[i].eq(w) {
            return true;
        }
        i += 1;
    }
    false
}

/// The archived cards that survive a search: all of them when no needle
/// is given, else those whose word, reading or translation contains the
/// needle case-insensitively. Order is kept.
pub open spec fn search_filter(cards: Seq<CardView>, needle: Option<Seq<char>>) -> Seq<CardView>
    decreases cards.len(),
{
    if cards.len() == 0 {
        Seq::empty()
    } else {
        let keep = match needle {
            None => true,
            Some(q) => card_text_matches(
                cards.last().word,
                cards.last().reading,
                cards.last().translation,
                q,
            ),
        };
        search_filter(cards.drop_last(), needle) + if keep {
            seq![cards.last()]
        } else {
            Seq::empty()
        }
    }
}

impl SetService {
    /// The archived cards, optionally filtered by a case-insensitive
    /// search across word, reading and translation, in archive order.
    pub fn list_released_words(&self, search: Option<&String>) -> (r: Vec<Card>)
        requires
            self.wf(),
        ensures
            r@.map_values(|c: Card| c@) == search_filter(
                self.archive_entries().map_values(|e: (u64, CardView)| e.1),
                match search {
                    None => None::<Seq<char>>,
                    Some(q) => Some(lower_of(q@)),
                },
            ),
    {
        let needle: Option<Vec<char>> = match search {
            Some(q) => Some(lower_chars(q.as_str())),
            None => None,
        };
        let ghost needle_spec: Option<Seq<char>> = match search {
            None => None::<Seq<char>>,
            Some(q) => Some(lower_of(q@)),
        };
        let ghost all = self.archive_entries().map_values(|e: (u64, CardView)| e.1);
        let an = self.release_repository.words_len();
        let mut out: Vec<Card> = Vec::new();
        let mut i: usize = 0;
        while i < an
            invariant
                self.wf(),
                an == self.release_repository.word_entries().len(),
                all == self.archive_entries().map_values(|e: (u64, CardView)| e.1),
                all.len() == an,
                i <= an,
                match (needle, needle_spec) {
                    (Some(nl), Some(q)) => nl@ == q,
                    (None, None) => true,
                    _ => false,
                },
                out@.map_values(|c: Card| c@) == search_filter(all.take(i as int), needle_spec),
            decreases an - i,
        {
            let entry = self.release_repository.word_at(i);
            let ghost pre = out@;
            let keep = match &needle {
                Some(nl) => entry.1.matches_query(nl),
                None => true,
            };
            if keep {
                out.push(entry.1.clone());
            }
            proof {
                assert(all[i as int] == entry.1@);
                assert(all.take(i + 1 as int).drop_last() =~= all.take(i as int));
                assert(all.take(i + 1 as int).last() == all[i as int]);
                assert(out@.map_values(|c: Card| c@) =~= search_filter(
                    all.take(i + 1 as int),
                    needle_spec,
                ));
            }
            i += 1;
        }
        proof {
            assert(all.take(an as int) =~= all);
        }
        out
    }

    /// Every archived companion story, in archive order.
    pub fn list_released_stories(&self) -> (r: Vec<Story>)
        ensures
            r@.len() == self.story_entries().len(),
            forall|i: int| 0 <= i < r@.len() ==> (#[trigger] r@[i])@ == self.story_entries()[i].1,
    {
        let r = self.release_repository.list_all_stories();
        proof {
            assert forall|i: int| 0 <= i < r@.len() implies (#[trigger] r@[i])@
                == self.story_entries()[i].1 by {
                assert(r@[i]@ == self.release_repository.story_entries()[i].1@);
            }
        }
        r
    }

    /// The identifiers of all archived cards, in archive order.
    pub fn list_released_word_ids(&self) -> (r: Vec<u64>)
        ensures
            r@ == self.archive_entries().map_values(|e: (u64, CardView)| e.0),
    {
        let r = self.release_repository.list_word_ids();
        proof {
            assert(r@ =~= self.archive_entries().map_values(|e: (u64, CardView)| e.0));
        }
        r
    }

    /// Look one archived card up by its identifier.
    pub fn get_released_word(&self, id: u64) -> (r: Option<&Card>)
        requires
            self.wf(),
        ensures
            match r {
                Some(c) => self@.archive.contains_key(id) && c@ == self@.archive[id],
                None => !self@.archive.contains_key(id),
            },
    {
        self.release_repository.load_word(id)
    }

    /// Attach a best-effort companion story to an intake-stage set,
    /// deriving a reading for each sentence. `NotFound` for an unknown
    /// set; refused with `InvalidTransition` once the set has a story or
    /// has left the intake stage, leaving the state untouched.
    pub fn attach_story(&mut self, set_id: u64, story: &Vec<String>, story_translate: &Vec<
        String,
    >) -> (r: Result<(), LifecycleError>)
        requires
            old(self).wf(),
            old(self)@.next_id < u64::MAX,
        ensures
            final(self).wf(),
            ({
                let v0 = old(self)@;
                if !v0.sets.contains_key(set_id) {
                    r == Err::<(), LifecycleError>(LifecycleError::NotFound) && final(self)@ == v0
                } else if v0.sets[set_id].story is None && v0.sets[set_id].state is Tobe {
                    r is Ok && final(self)@ == (ServiceView {
                        sets: v0.sets.insert(
                            set_id,
                            CardSetView {
                                story: Some(
                                    StoryView {
                                        id: v0.next_id as u64,
                                        story: story.deep_view(),
                                        story_translate: story_translate.deep_view(),
                                        story_reading: Seq::new(
                                            story.deep_view().len(),
                                            |i: int| crate::cardset::spec_sentence_reading(
                                                story.deep_view()[i],
                                            ),
                                        ),
                                    },
                                ),
                                ..v0.sets[set_id]
                            },
                        ),
                        next_id: v0.next_id + 1,
                        ..v0
                    })
                } else {
                    &&& r == Err::<(), LifecycleError>(LifecycleError::InvalidTransition)
                    &&& final(self)@ == v0
                }
            }),
    {
        proof {
            old(self).lemma_wf_view();
        }
        let loaded = match self.set_repository.load(set_id) {
            Some(s) => s,
            None => {
                proof {
                    assert(self@ == old(self)@);
                }
                return Err(LifecycleError::NotFound);
            },
        };
        let mut set = loaded.clone();
        let story_id = self.next_id;
        match set.put_story(story_id, story, story_translate) {
            Ok(()) => {
                self.next_id = self.next_id + 1;
                let ghost repo_pre = self.set_repository@;
                let ghost new_set = set;
                self.set_repository.save(set);
                proof {
                    let v0 = old(self)@;
                    lemma_deep_sets_insert(repo_pre, set_id, new_set);
                    assert(self@.sets =~= v0.sets.insert(set_id, new_set@));
                    assert(self@.archive =~= v0.archive);
                    assert(self@.stories =~= v0.stories);
                    assert forall|k: u64| #[trigger] self@.sets.contains_key(k) implies k
                        < self@.next_id && set_ids_below(self@.sets[k], self@.next_id)
                        && self@.sets[k].wf() && !(self@.sets[k].state is TenDay) by {
                        if k != set_id {
                            assert(v0.sets.contains_key(k));
                            assert(self@.sets[k] == v0.sets[k]);
                        }
                    }
                    assert forall|k: u64| #[trigger] self@.archive.contains_key(k) implies k
                        < self@.next_id by {
                        assert(v0.archive.contains_key(k));
                    }
                    assert forall|k: u64| #[trigger] self@.stories.contains_key(k) implies k
                        < self@.next_id by {
                        assert(v0.stories.contains_key(k));
                    }
                    assert(self.wf());
                }
                Ok(())
            },
            Err(e) => {
                proof {
                    assert(self@ == old(self)@);
                }
                Err(e)
            },
        }
    }
}

/// A set view holds a card made from this candidate: a card whose texts
/// are the candidate's, trimmed, and not yet released, on a set still in
/// the intake stage.
pub open spec fn holds_candidate(sv: CardSetView, c: CandidateView) -> bool {
    &&& sv.state is Tobe
    &&& exists|x: int|
        #![auto]
        0 <= x < sv.words.len() && sv.words[x].word == crate::text::trim_of(c.word)
            && sv.words[x].translation == crate::text::trim_of(c.translation)
            && sv.words[x].release_timestamp is None
}

/// Upserting a batch of released cards with distinct identifiers binds
/// each identifier to its own card.
proof fn lemma_insert_card_views_lookup(m: Map<u64, CardView>, cs: Seq<CardView>, j: int)
    requires
        0 <= j < cs.len(),
        cs.map_values(|c: CardView| c.id).no_duplicates(),
    ensures
        insert_card_views(m, cs).contains_key(cs[j].id),
        insert_card_views(m, cs)[cs[j].id] == cs[j],
    decreases cs.len(),
{
    let ids = cs.map_values(|c: CardView| c.id);
    if j == cs.len() - 1 {
    } else {
        assert(ids[j] == cs[j].id && ids[cs.len() - 1] == cs.last().id);
        assert(cs.last().id != cs[j].id);
        assert(cs.drop_last().map_values(|c: CardView| c.id) =~= ids.drop_last());
        lemma_insert_card_views_lookup(m, cs.drop_last(), j);
    }
}

/// Selecting identifiers that are all present yields their cards, in
/// order.
proof fn lemma_present_all(m: Map<u64, CardView>, ids: Seq<u64>)
    requires
        forall|j: int| 0 <= j < ids.len() ==> m.contains_key(#[trigger] ids[j]),
    ensures
        present_card_views(m, ids) =~= Seq::new(ids.len(), |j: int| m[ids[j]]),
    decreases ids.len(),
{
    if ids.len() > 0 {
        assert(forall|j: int|
            0 <= j < ids.drop_last().len() ==> m.contains_key(#[trigger] ids.drop_last()[j]));
        lemma_present_all(m, ids.drop_last());
        assert(m.contains_key(ids[ids.len() - 1]));
    }
}

/// Through the intake pipeline, every processed candidate ends on a card
/// of an intake-stage set: either the set still being filled, or one of
/// the persisted ones.
proof fn lemma_fill_holds(fs0: FillState, cands: Seq<CandidateView>, n: int)
    requires
        0 <= n <= cands.len(),
        0 <= fs0.next_id,
        fs0.next_id + 2 * cands.len() <= u64::MAX,
        fs0.cur.state is Tobe,
        fs0.cur.id < fs0.next_id,
        forall|k: u64| #[trigger] fs0.sets.contains_key(k) ==> k < fs0.next_id,
    ensures
        ({
            let fs = fill(fs0, cands, n);
            &&& fs.cur.state is Tobe
            &&& fs.cur.id < fs.next_id
            &&& fs0.next_id <= fs.next_id
            &&& fs.next_id <= fs0.next_id + 2 * n
            &&& forall|k: u64| #[trigger] fs.sets.contains_key(k) ==> k < fs.next_id
            &&& forall|j: int|
                0 <= j < n ==> holds_candidate(fs.cur, #[trigger] cands[j]) || exists|k: u64|
                    #![auto]
                    k != fs.cur.id && fs.sets.contains_key(k) && holds_candidate(
                        fs.sets[k],
                        cands[j],
                    )
        }),
    decreases n,
{
    if n > 0 {
        lemma_fill_holds(fs0, cands, n - 1);
        let fs = fill(fs0, cands, n - 1);
        let fs2 = fill(fs0, cands, n);
        let c = cands[n - 1];
        let fs1 = if !fs.cur.spec_writable() {
            FillState {
                sets: fs.sets.insert(fs.cur.id, fs.cur),
                cur: empty_set_view(fs.next_id as u64),
                next_id: fs.next_id + 1,
            }
        } else {
            fs
        };
        assert(fs2 == FillState {
            sets: fs1.sets,
            cur: push_candidate(fs1.cur, fs1.next_id as u64, c),
            next_id: fs1.next_id + 1,
        });
        assert(fs2.cur.words.last() == spec_new_card(fs1.next_id as u64, c.word, c.translation));
        assert(holds_candidate(fs2.cur, c)) by {
            let x = fs2.cur.words.len() - 1;
            assert(fs2.cur.words[x].word == crate::text::trim_of(c.word));
        }
        assert forall|j: int| 0 <= j < n implies holds_candidate(fs2.cur, #[trigger] cands[j])
            || exists|k: u64|
            #![auto]
            k != fs2.cur.id && fs2.sets.contains_key(k) && holds_candidate(
                fs2.sets[k],
                cands[j],
            ) by {
            if j == n - 1 {
            } else {
                if holds_candidate(fs.cur, cands[j]) {
                    if !fs.cur.spec_writable() {
                        assert(fs2.sets.contains_key(fs.cur.id));
                        assert(fs2.sets[fs.cur.id] == fs.cur);
                        assert(fs.cur.id != fs2.cur.id);
                        assert(holds_candidate(fs2.sets[fs.cur.id], cands[j]));
                    } else {
                        assert(fs2.cur == push_candidate(fs.cur, fs.next_id as u64, c));
                        let x = choose|x: int|
                            #![auto]
                            0 <= x < fs.cur.words.len() && fs.cur.words[x].word
                                == crate::text::trim_of(cands[j].word) && fs.cur.words[x].translation
                                == crate::text::trim_of(cands[j].translation)
                                && fs.cur.words[x].release_timestamp is None;
                        assert(fs2.cur.words[x] == fs.cur.words[x]);
                        assert(holds_candidate(fs2.cur, cands[j]));
                    }
                } else {
                    let k = choose|k: u64|
                        #![auto]
                        k != fs.cur.id && fs.sets.contains_key(k) && holds_candidate(
                            fs.sets[k],
                            cands[j],
                        );
                    assert(fs2.sets.contains_key(k));
                    assert(fs2.sets[k] == fs.sets[k]);
                    assert(k < fs.next_id);
                    assert(k != fs2.cur.id);
                }
            }
        }
    }
}

/// No surviving candidate is dropped: after intake, every candidate that
/// passed the filter stands on a card of some intake-stage set of the new
/// state, with its texts trimmed, unreleased.
pub proof fn lemma_intake_keeps_survivors(v: ServiceView, cands: Seq<CandidateView>, skip: bool)
    requires
        forall|k: u64| #[trigger] v.sets.contains_key(k) ==> k < v.next_id && v.sets[k].id == k,
        0 <= v.next_id,
        v.next_id + 2 * cands.len() + 1 <= u64::MAX,
    ensures
        forall|j: int|
            #![trigger surviving(v, cands, skip)[j]]
            0 <= j < surviving(v, cands, skip).len() ==> exists|k: u64|
                #![auto]
                spec_save_words(v, cands, skip).sets.contains_key(k) && holds_candidate(
                    spec_save_words(v, cands, skip).sets[k],
                    surviving(v, cands, skip)[j],
                ),
{
    let sur = surviving(v, cands, skip);
    if cands.len() == 0 || sur.len() == 0 {
    } else {
        if !skip {
            lemma_dedup_len(v, cands, cands.len() as int);
        }
        let fs0 = spec_start(v);
        assert(fs0.cur.state is Tobe && fs0.cur.id < fs0.next_id && forall|k: u64|
            #[trigger] fs0.sets.contains_key(k) ==> k < fs0.next_id) by {
            if exists|k: u64| is_max_tobe(v.sets, k) {
                let k = choose|k: u64| is_max_tobe(v.sets, k);
                assert(v.sets.contains_key(k));
            }
        }
        lemma_fill_holds(fs0, sur, sur.len() as int);
        let fs = fill(fs0, sur, sur.len() as int);
        let out = spec_save_words(v, cands, skip);
        assert(out.sets == fs.sets.insert(fs.cur.id, fs.cur));
        assert forall|j: int|
            #![trigger sur[j]]
            0 <= j < sur.len() implies exists|k: u64|
            #![auto]
            out.sets.contains_key(k) && holds_candidate(out.sets[k], sur[j]) by {
            if holds_candidate(fs.cur, sur[j]) {
                assert(out.sets.contains_key(fs.cur.id));
                assert(out.sets[fs.cur.id] == fs.cur);
            } else {
                let k = choose|k: u64|
                    #![auto]
                    k != fs.cur.id && fs.sets.contains_key(k) && holds_candidate(
                        fs.sets[k],
                        sur[j],
                    );
                assert(out.sets.contains_key(k));
                assert(out.sets[k] == fs.sets[k]);
            }
        }
    }
}

/// The recall round trip. Migrating a set out of its last review stage
/// and then recalling its cards by their identifiers puts every one of
/// its words back into an intake-stage set, with word and translation
/// kept, unreleased, and removes those identifiers from the archive. The
/// set's card texts are assumed already trimmed, as intake creates them.
pub proof fn lemma_recall_round_trip(v: ServiceView, set_id: u64, now: i64, ids: Seq<u64>)
    requires
        forall|k: u64|
            #[trigger] v.sets.contains_key(k) ==> k < v.next_id && v.sets[k].id == k,
        0 <= v.next_id,
        v.next_id + 2 * v.sets[set_id].words.len() + 1 <= u64::MAX,
        v.sets.contains_key(set_id),
        v.sets[set_id].state is SevenDay,
        ids == v.sets[set_id].words.map_values(|c: CardView| c.id),
        ids.no_duplicates(),
        forall|j: int|
            0 <= j < v.sets[set_id].words.len() ==> crate::text::trim_of(
                (#[trigger] v.sets[set_id].words[j]).word,
            ) == v.sets[set_id].words[j].word && crate::text::trim_of(
                v.sets[set_id].words[j].translation,
            ) == v.sets[set_id].words[j].translation,
    ensures
        spec_promote(v, set_id, now).1 == Ok::<bool, LifecycleError>(true),
        ({
            let after = spec_recall(spec_promote(v, set_id, now).0, ids);
            &&& forall|j: int|
                0 <= j < ids.len() ==> !(#[trigger] after.archive.contains_key(ids[j]))
            &&& forall|j: int|
                #![trigger v.sets[set_id].words[j]]
                0 <= j < v.sets[set_id].words.len() ==> exists|k: u64|
                    #![auto]
                    after.sets.contains_key(k) && holds_candidate(
                        after.sets[k],
                        CandidateView {
                            word: v.sets[set_id].words[j].word,
                            translation: v.sets[set_id].words[j].translation,
                        },
                    )
        }),
{
    let s = v.sets[set_id];
    let words = s.words;
    let stamped = Seq::new(words.len(), |i: int| spec_released(words[i], now));
    let migrated = spec_promote(v, set_id, now).0;
    assert(spec_promote(v, set_id, now).1 == Ok::<bool, LifecycleError>(true));
    assert(migrated.archive == insert_card_views(v.archive, stamped));
    assert(migrated.sets == v.sets.remove(set_id));
    assert(migrated.next_id == v.next_id);

    // the loaded cards are exactly the stamped ones, in order
    assert(stamped.map_values(|c: CardView| c.id) =~= ids);
    assert forall|j: int| 0 <= j < ids.len() implies migrated.archive.contains_key(
        #[trigger] ids[j],
    ) && migrated.archive[ids[j]] == stamped[j] by {
        assert(stamped[j].id == ids[j]);
        lemma_insert_card_views_lookup(v.archive, stamped, j);
    }
    let loaded = present_card_views(migrated.archive, ids);
    lemma_present_all(migrated.archive, ids);
    assert(loaded =~= stamped);
    let pairs = card_pairs(loaded);
    assert(pairs.len() == words.len());
    assert forall|j: int| 0 <= j < pairs.len() implies (#[trigger] pairs[j]) == (CandidateView {
        word: words[j].word,
        translation: words[j].translation,
    }) by {
        assert(loaded[j] == stamped[j]);
        assert(stamped[j] == spec_released(words[j], now));
    }

    let mid = spec_save_words(migrated, pairs, true);
    let after = spec_recall(migrated, ids);
    assert(after.archive == mid.archive.remove_keys(ids.to_set()));
    assert(mid.archive == migrated.archive);

    assert forall|j: int| 0 <= j < ids.len() implies !(#[trigger] after.archive.contains_key(
        ids[j],
    )) by {
        assert(ids.to_set().contains(ids[j]));
    }

    if words.len() > 0 {
        assert(surviving(migrated, pairs, true) == pairs);
        assert(forall|k: u64|
            #[trigger] migrated.sets.contains_key(k) ==> k < migrated.next_id
                && migrated.sets[k].id == k);
        lemma_intake_keeps_survivors(migrated, pairs, true);
        assert forall|j: int|
            #![trigger words[j]]
            0 <= j < words.len() implies exists|k: u64|
            #![auto]
            after.sets.contains_key(k) && holds_candidate(
                after.sets[k],
                CandidateView { word: words[j].word, translation: words[j].translation },
            ) by {
            assert(after.sets == mid.sets);
            let k = choose|k: u64|
                #![auto]
                mid.sets.contains_key(k) && holds_candidate(mid.sets[k], pairs[j]);
            assert(after.sets.contains_key(k) && holds_candidate(after.sets[k], pairs[j]));
        }
    }
}

/// The cards of all sets that fall in a coarse bucket, in set order then
/// card order.
pub open spec fn bucket_words(entries: Seq<(u64, CardSetView)>, b: SetState) -> Seq<CardView>
    decreases entries.len(),
{
    if entries.len() == 0 {
        Seq::empty()
    } else {
        bucket_words(entries.drop_last(), b) + if entries.last().1.state.spec_as_set_state() == b {
            entries.last().1.words
        } else {
            Seq::empty()
        }
    }
}

/// The first cards of a collection, at most three, in order.
pub open spec fn preview_of(ws: Seq<CardView>) -> Seq<CardView> {
    if ws.len() <= 3 {
        ws
    } else {
        ws.take(3)
    }
}

/// A word count capped at what `usize` can hold.
pub open spec fn capped(n: int) -> usize {
    if n <= usize::MAX {
        n as usize
    } else {
        usize::MAX
    }
}

/// One bucket of the overview: how many words it holds in all, and the
/// first few of them.
pub struct SetPreview {
    pub total_words: usize,
    pub preview_words: Vec<Card>,
}

/// A glance at a user's words: the still-filling sets, the sets under
/// review, and the archive, each with a count and a short preview.
pub struct WordOverview {
    pub tobe: SetPreview,
    pub current: SetPreview,
    pub finished: SetPreview,
}

impl SetService {
    /// Count and preview one coarse bucket of the active sets.
    fn bucket_preview(&self, b: SetState) -> (r: SetPreview)
        requires
            self.wf(),
        ensures
            r.total_words == capped(bucket_words(self.set_entries(), b).len() as int),
            r.preview_words@.map_values(|c: Card| c@) == preview_of(
                bucket_words(self.set_entries(), b),
            ),
    {
        let n = self.set_repository.len();
        let mut total: usize = 0;
        let mut preview: Vec<Card> = Vec::new();
        let mut i: usize = 0;
        while i < n
            invariant
                self.wf(),
                n == self.set_repository.entry_seq().len(),
                self.set_entries().len() == n,
                i <= n,
                total == capped(bucket_words(self.set_entries().take(i as int), b).len() as int),
                preview@.map_values(|c: Card| c@) == preview_of(
                    bucket_words(self.set_entries().take(i as int), b),
                ),
                preview@.len() <= 3,
            decreases n - i,
        {
            let ghost prefix = self.set_entries().take(i as int);
            let ghost bucket = bucket_words(prefix, b);
            let entry = self.set_repository.entry_at(i);
            let ghost entry_view = (entry.0, entry.1@);
            proof {
                assert(self.set_entries()[i as int] == entry_view);
                assert(self.set_entries().take(i + 1 as int).drop_last() =~= prefix);
                assert(self.set_entries().take(i + 1 as int).last() == entry_view);
            }
            if entry.1.state().as_set_state() == b {
                let cards = entry.1.words();
                let cn = cards.len();
                proof {
                    assert(cards@.map_values(|c: Card| c@) == entry_view.1.words);
                    assert(bucket_words(self.set_entries().take(i + 1 as int), b) =~= bucket
                        + entry_view.1.words);
                }
                if total <= usize::MAX - cn {
                    total = total + cn;
                } else {
                    total = usize::MAX;
                }
                proof {
                    assert(bucket + entry_view.1.words.take(0) =~= bucket);
                }
                let mut x: usize = 0;
                while x < cn
                    invariant
                        cn == cards@.len(),
                        x <= cn,
                        cards@.map_values(|c: Card| c@) == entry_view.1.words,
                        preview@.len() <= 3,
                        preview@.map_values(|c: Card| c@) == preview_of(
                            bucket + entry_view.1.words.take(x as int),
                        ),
                    decreases cn - x,
                {
                    let ghost sofar = bucket + entry_view.1.words.take(x as int);
                    if preview.len() < 3 {
                        proof {
                            assert(preview@.map_values(|c: Card| c@).len() == preview@.len());
                            assert(preview_of(sofar).len() < 3);
                        }
                        preview.push(cards[x].clone());
                        proof {
                            assert(sofar.len() <= 3);
                            assert(preview_of(sofar) == sofar);
                            assert(bucket + entry_view.1.words.take(x + 1 as int) =~= sofar.push(
                                entry_view.1.words[x as int],
                            ));
                            assert(preview@.map_values(|c: Card| c@) =~= preview_of(
                                bucket + entry_view.1.words.take(x + 1 as int),
                            ));
                        }
                    } else {
                        proof {
                            assert(preview@.map_values(|c: Card| c@).len() == preview@.len());
                            assert(preview_of(sofar).len() == 3);
                            assert(sofar.len() >= 3);
                            assert(bucket + entry_view.1.words.take(x + 1 as int) =~= sofar.push(
                                entry_view.1.words[x as int],
                            ));
                            assert(preview_of(sofar.push(entry_view.1.words[x as int])) =~= preview_of(
                                sofar,
                            ));
                            assert(preview@.map_values(|c: Card| c@) =~= preview_of(
                                bucket + entry_view.1.words.take(x + 1 as int),
                            ));
                        }
                    }
                    x += 1;
                }
                proof {
                    assert(entry_view.1.words.take(cn as int) =~= entry_view.1.words);
                }
            } else {
                proof {
                    assert(bucket_words(self.set_entries().take(i + 1 as int), b) =~= bucket);
                }
            }
            i += 1;
        }
        proof {
            assert(self.set_entries().take(n as int) =~= self.set_entries());
        }
        SetPreview { total_words: total, preview_words: preview }
    }

    /// A glance at the whole state: word counts and previews for the
    /// still-filling sets, the sets under review, and the archive.
    pub fn get_overview(&self) -> (r: WordOverview)
        requires
            self.wf(),
        ensures
            r.tobe.total_words == capped(
                bucket_words(self.set_entries(), SetState::Tobe).len() as int,
            ),
            r.tobe.preview_words@.map_values(|c: Card| c@) == preview_of(
                bucket_words(self.set_entries(), SetState::Tobe),
            ),
            r.current.total_words == capped(
                bucket_words(self.set_entries(), SetState::Current).len() as int,
            ),
            r.current.preview_words@.map_values(|c: Card| c@) == preview_of(
                bucket_words(self.set_entries(), SetState::Current),
            ),
            r.finished.total_words == self.archive_entries().len(),
            r.finished.preview_words@.map_values(|c: Card| c@) == preview_of(
                self.archive_entries().map_values(|e: (u64, CardView)| e.1),
            ),
    {
        let tobe = self.bucket_preview(SetState::Tobe);
        let current = self.bucket_preview(SetState::Current);
        let ghost all = self.archive_entries().map_values(|e: (u64, CardView)| e.1);
        let an = self.release_repository.words_len();
        let mut finished_preview: Vec<Card> = Vec::new();
        let take = if an < 3 {
            an
        } else {
            3
        };
        let mut i: usize = 0;
        while i < take
            invariant
                self.wf(),
                an == self.release_repository.word_entries().len(),
                all == self.archive_entries().map_values(|e: (u64, CardView)| e.1),
                all.len() == an,
                take == if an < 3 {
                    an as int
                } else {
                    3int
                },
                i <= take,
                finished_preview@.len() == i,
                finished_preview@.map_values(|c: Card| c@) == all.take(i as int),
            decreases take - i,
        {
            let entry = self.release_repository.word_at(i);
            let ghost pre = finished_preview@;
            finished_preview.push(entry.1.clone());
            proof {
                assert(all[i as int] == entry.1@);
                let lhs = finished_preview@.map_values(|c: Card| c@);
                assert forall|y: int| 0 <= y < i + 1 implies lhs[y] == all.take(i + 1 as int)[y] by {
                    if y < i {
                        assert(lhs[y] == pre.map_values(|c: Card| c@)[y]);
                        assert(all.take(i as int)[y] == all[y]);
                    } else {
                        assert(finished_preview@[y] == entry.1);
                    }
                }
                assert(lhs =~= all.take(i + 1 as int));
            }
            i += 1;
        }
        proof {
            assert(finished_preview@.map_values(|c: Card| c@) =~= preview_of(all));
        }
        WordOverview {
            tobe,
            current,
            finished: SetPreview { total_words: an, preview_words: finished_preview },
        }
    }
}

/// The active-set map a list of stored sets rebuilds: each set keyed by
/// its own identifier, later entries taking precedence.
pub open spec fn insert_sets(m: Map<u64, CardSet>, sets: Seq<CardSet>) -> Map<u64, CardSet>
    decreases sets.len(),
{
    if sets.len() == 0 {
        m
    } else {
        insert_sets(m, sets.drop_last()).insert(sets.last()@.id, sets.last())
    }
}

/// The story map a list of stored stories rebuilds.
pub open spec fn insert_stories(m: Map<u64, Story>, stories: Seq<Story>) -> Map<u64, Story>
    decreases stories.len(),
{
    if stories.len() == 0 {
        m
    } else {
        insert_stories(m, stories.drop_last()).insert(stories.last()@.id, stories.last())
    }
}

/// Taking views commutes with inserting a story into the archive.
proof fn lemma_deep_stories_insert(m: Map<u64, Story>, id: u64, s: Story)
    ensures
        deep_stories(m.insert(id, s)) =~= deep_stories(m).insert(id, s@),
{
}

/// Taking views commutes with inserting a card into the archive.
proof fn lemma_deep_cards_insert(m: Map<u64, Card>, id: u64, c: Card)
    ensures
        deep_cards(m.insert(id, c)) =~= deep_cards(m).insert(id, c@),
{
}

/// Stored records rebuild a valid state: every active set is well-formed,
/// below the terminal stage and below the counter together with all its
/// identifiers; every archived card is released and below the counter;
/// every archived story is below the counter.
pub open spec fn valid_parts(
    sets: Seq<CardSet>,
    released_words: Seq<Card>,
    released_stories: Seq<Story>,
    next_id: u64,
) -> bool {
    &&& forall|i: int|
        0 <= i < sets.len() ==> {
            &&& (#[trigger] sets[i])@.wf()
            &&& !(sets[i]@.state is TenDay)
            &&& sets[i]@.id < next_id
            &&& set_ids_below(sets[i]@, next_id as int)
        }
    &&& forall|i: int|
        0 <= i < released_words.len() ==> (#[trigger] released_words[i])@.release_timestamp
            is Some && released_words[i]@.id < next_id
    &&& forall|i: int|
        0 <= i < released_stories.len() ==> (#[trigger] released_stories[i])@.id < next_id
}

impl SetService {
    /// Whether a stored set may re-enter the active store under a counter.
    fn set_part_ok(set: &CardSet, next_id: u64) -> (r: bool)
        ensures
            r == (set@.wf() && !(set@.state is TenDay) && set@.id < next_id && set_ids_below(
                set@,
                next_id as int,
            )),
    {
        if set.id() >= next_id {
            return false;
        }
        if set.state().is_terminal() {
            return false;
        }
        let cards = set.words();
        let cn = cards.len();
        proof {
            assert(set@.words.len() == cn);
        }
        if cn > crate::MAX_SET_LEN {
            return false;
        }
        let mut i: usize = 0;
        while i < cn
            invariant
                cn == cards@.len(),
                i <= cn,
                cards@.map_values(|c: Card| c@) == set@.words,
                forall|j: int|
                    0 <= j < i ==> (#[trigger] set@.words[j]).release_timestamp is None
                        && set@.words[j].id < next_id,
            decreases cn - i,
        {
            proof {
                assert(cards@[i as int]@ == set@.words[i as int]);
            }
            if cards[i].release_timestamp().is_some() {
                return false;
            }
            if cards[i].id() >= next_id {
                return false;
            }
            i += 1;
        }
        match set.story() {
            Some(st) => {
                if st.id() >= next_id {
                    return false;
                }
            },
            None => {},
        }
        true
    }

    /// Rebuild a service from persisted records: the active sets, the
    /// archived cards and the archived stories, each keyed by its own
    /// identifier, under the given identifier counter. Records that would
    /// break the state's invariants are rejected as a whole with
    /// `StorageFailure`.
    pub fn from_parts(
        sets: &Vec<CardSet>,
        released_words: &Vec<Card>,
        released_stories: &Vec<Story>,
        next_id: u64,
    ) -> (r: Result<SetService, LifecycleError>)
        ensures
            match r {
                Ok(s) => {
                    &&& valid_parts(sets@, released_words@, released_stories@, next_id)
                    &&& s.wf()
                    &&& s@.sets == deep_sets(insert_sets(Map::<u64, CardSet>::empty(), sets@))
                    &&& s@.archive == deep_cards(
                        insert_cards(Map::<u64, Card>::empty(), released_words@),
                    )
                    &&& s@.stories == deep_stories(
                        insert_stories(Map::<u64, Story>::empty(), released_stories@),
                    )
                    &&& s@.next_id == next_id
                },
                Err(e) => {
                    &&& e == LifecycleError::StorageFailure
                    &&& !valid_parts(sets@, released_words@, released_stories@, next_id)
                },
            },
    {
        let mut repo = CardSetRepository::new();
        let sn = sets.len();
        let mut i: usize = 0;
        while i < sn
            invariant
                sn == sets@.len(),
                i <= sn,
                repo.wf(),
                deep_sets(repo@) == deep_sets(
                    insert_sets(Map::<u64, CardSet>::empty(), sets@.take(i as int)),
                ),
                forall|j: int|
                    0 <= j < i ==> {
                        &&& (#[trigger] sets@[j])@.wf()
                        &&& !(sets@[j]@.state is TenDay)
                        &&& sets@[j]@.id < next_id
                        &&& set_ids_below(sets@[j]@, next_id as int)
                    },
            decreases sn - i,
        {
            let good = Self::set_part_ok(&sets[i], next_id);
            if !good {
                proof {
                    assert(!valid_parts(sets@, released_words@, released_stories@, next_id));
                }
                return Err(LifecycleError::StorageFailure);
            }
            let ghost repo_pre = repo@;
            let set = sets[i].clone();
            let ghost set_snap = set;
            repo.save(set);
            proof {
                assert(sets@.take(i + 1 as int).drop_last() =~= sets@.take(i as int));
                assert(sets@.take(i + 1 as int).last() == sets@[i as int]);
                lemma_deep_sets_insert(repo_pre, set_snap@.id, set_snap);
                lemma_deep_sets_insert(
                    insert_sets(Map::<u64, CardSet>::empty(), sets@.take(i as int)),
                    sets@[i as int]@.id,
                    sets@[i as int],
                );
                assert(set_snap@ == sets@[i as int]@);
                assert(deep_sets(repo@) =~= deep_sets(
                    insert_sets(Map::<u64, CardSet>::empty(), sets@.take(i + 1 as int)),
                ));
            }
            i += 1;
        }
        proof {
            assert(sets@.take(sn as int) =~= sets@);
        }
        let mut archive = ReleaseRepository::new();
        let wn = released_words.len();
        let mut w: usize = 0;
        while w < wn
            invariant
                wn == released_words@.len(),
                w <= wn,
                archive.wf(),
                archive.stories_map() == Map::<u64, Story>::empty(),
                archive.words_map() == insert_cards(
                    Map::<u64, Card>::empty(),
                    released_words@.take(w as int),
                ),
                forall|j: int|
                    0 <= j < w ==> (#[trigger] released_words@[j])@.release_timestamp is Some
                        && released_words@[j]@.id < next_id,
            decreases wn - w,
        {
            let card = &released_words[w];
            if card.release_timestamp().is_none() {
                proof {
                    assert(!valid_parts(sets@, released_words@, released_stories@, next_id));
                }
                return Err(LifecycleError::StorageFailure);
            }
            if card.id() >= next_id {
                proof {
                    assert(!valid_parts(sets@, released_words@, released_stories@, next_id));
                }
                return Err(LifecycleError::StorageFailure);
            }
            archive.update_word(card.clone());
            proof {
                assert(released_words@.take(w + 1 as int).drop_last() =~= released_words@.take(
                    w as int,
                ));
                assert(released_words@.take(w + 1 as int).last() == released_words@[w as int]);
                assert(archive.words_map() =~= insert_cards(
                    Map::<u64, Card>::empty(),
                    released_words@.take(w + 1 as int),
                ));
            }
            w += 1;
        }
        proof {
            assert(released_words@.take(wn as int) =~= released_words@);
        }
        let ghost words_final = archive.words_map();
        let tn = released_stories.len();
        let mut t: usize = 0;
        while t < tn
            invariant
                tn == released_stories@.len(),
                t <= tn,
                archive.wf(),
                archive.words_map() == words_final,
                deep_stories(archive.stories_map()) == deep_stories(
                    insert_stories(Map::<u64, Story>::empty(), released_stories@.take(t as int)),
                ),
                forall|j: int|
                    0 <= j < t ==> (#[trigger] released_stories@[j])@.id < next_id,
            decreases tn - t,
        {
            let story = &released_stories[t];
            if story.id() >= next_id {
                proof {
                    assert(!valid_parts(sets@, released_words@, released_stories@, next_id));
                }
                return Err(LifecycleError::StorageFailure);
            }
            let ghost stories_pre = archive.stories_map();
            let copy = story.clone();
            let ghost copy_snap = copy;
            archive.save(Vec::new(), Some(copy));
            proof {
                assert(insert_cards(words_final, Seq::<Card>::empty()) == words_final);
                assert(released_stories@.take(t + 1 as int).drop_last() =~= released_stories@.take(
                    t as int,
                ));
                assert(released_stories@.take(t + 1 as int).last() == released_stories@[t as int]);
                lemma_deep_stories_insert(stories_pre, copy_snap@.id, copy_snap);
                lemma_deep_stories_insert(
                    insert_stories(
                        Map::<u64, Story>::empty(),
                        released_stories@.take(t as int),
                    ),
                    released_stories@[t as int]@.id,
                    released_stories@[t as int],
                );
                assert(copy_snap@ == released_stories@[t as int]@);
                assert(deep_stories(archive.stories_map()) =~= deep_stories(
                    insert_stories(
                        Map::<u64, Story>::empty(),
                        released_stories@.take(t + 1 as int),
                    ),
                ));
            }
            t += 1;
        }
        proof {
            assert(released_stories@.take(tn as int) =~= released_stories@);
        }
        let service = SetService { set_repository: repo, release_repository: archive, next_id };
        proof {
            assert(service@.sets == deep_sets(insert_sets(Map::<u64, CardSet>::empty(), sets@)));
            service.lemma_from_parts_wf(sets@, released_words@, released_stories@, next_id);
        }
        Ok(service)
    }

    /// A state rebuilt from valid records is well-formed.
    proof fn lemma_from_parts_wf(
        self,
        sets: Seq<CardSet>,
        released_words: Seq<Card>,
        released_stories: Seq<Story>,
        next_id: u64,
    )
        requires
            valid_parts(sets, released_words, released_stories, next_id),
            self.set_repository.wf(),
            self.release_repository.wf(),
            self@.next_id == next_id,
            self@.sets == deep_sets(insert_sets(Map::<u64, CardSet>::empty(), sets)),
            self@.archive == deep_cards(insert_cards(Map::<u64, Card>::empty(), released_words)),
            self@.stories == deep_stories(
                insert_stories(Map::<u64, Story>::empty(), released_stories),
            ),
        ensures
            self.wf(),
    {
        lemma_insert_sets_conditions(sets, next_id);
        lemma_insert_cards_conditions(released_words, next_id);
        lemma_insert_stories_conditions(released_stories, next_id);
        assert forall|k: u64| #[trigger] self@.sets.contains_key(k) implies k < self@.next_id
            && set_ids_below(self@.sets[k], self@.next_id) && self@.sets[k].wf() && !(
        self@.sets[k].state is TenDay) by {
            assert(insert_sets(Map::<u64, CardSet>::empty(), sets).contains_key(k));
        }
        assert forall|k: u64| #[trigger] self@.archive.contains_key(k) implies k
            < self@.next_id by {
            assert(insert_cards(Map::<u64, Card>::empty(), released_words).contains_key(k));
        }
        assert forall|k: u64| #[trigger] self@.stories.contains_key(k) implies k
            < self@.next_id by {
            assert(insert_stories(Map::<u64, Story>::empty(), released_stories).contains_key(k));
        }
    }
}

/// Every binding of a rebuilt active-set map satisfies what every stored
/// set satisfied.
proof fn lemma_insert_sets_conditions(sets: Seq<CardSet>, next_id: u64)
    requires
        forall|i: int|
            0 <= i < sets.len() ==> {
                &&& (#[trigger] sets[i])@.wf()
                &&& !(sets[i]@.state is TenDay)
                &&& sets[i]@.id < next_id
                &&& set_ids_below(sets[i]@, next_id as int)
            },
    ensures
        forall|k: u64|
            #[trigger] insert_sets(Map::<u64, CardSet>::empty(), sets).contains_key(k) ==> {
                &&& k < next_id
                &&& insert_sets(Map::<u64, CardSet>::empty(), sets)[k]@.wf()
                &&& !(insert_sets(Map::<u64, CardSet>::empty(), sets)[k]@.state is TenDay)
                &&& insert_sets(Map::<u64, CardSet>::empty(), sets)[k]@.id == k
                &&& set_ids_below(insert_sets(Map::<u64, CardSet>::empty(), sets)[k]@, next_id as int)
            },
    decreases sets.len(),
{
    if sets.len() > 0 {
        assert(forall|i: int|
            0 <= i < sets.drop_last().len() ==> (#[trigger] sets.drop_last()[i]) == sets[i]);
        lemma_insert_sets_conditions(sets.drop_last(), next_id);
        assert(sets[sets.len() - 1]@.wf());
    }
}

/// Every binding of a rebuilt archive satisfies what every stored card
/// satisfied.
proof fn lemma_insert_cards_conditions(cards: Seq<Card>, next_id: u64)
    requires
        forall|i: int|
            0 <= i < cards.len() ==> (#[trigger] cards[i])@.release_timestamp is Some
                && cards[i]@.id < next_id,
    ensures
        forall|k: u64|
            #[trigger] insert_cards(Map::<u64, Card>::empty(), cards).contains_key(k) ==> k
                < next_id,
    decreases cards.len(),
{
    if cards.len() > 0 {
        assert(forall|i: int|
            0 <= i < cards.drop_last().len() ==> (#[trigger] cards.drop_last()[i]) == cards[i]);
        lemma_insert_cards_conditions(cards.drop_last(), next_id);
        assert(cards[cards.len() - 1]@.id < next_id);
        assert forall|k: u64|
            #[trigger] insert_cards(Map::<u64, Card>::empty(), cards).contains_key(k) implies k
            < next_id by {
            if k != cards.last()@.id {
                assert(insert_cards(Map::<u64, Card>::empty(), cards.drop_last()).contains_key(k));
            }
        }
    }
}

/// Every binding of a rebuilt story archive satisfies what every stored
/// story satisfied.
proof fn lemma_insert_stories_conditions(stories: Seq<Story>, next_id: u64)
    requires
        forall|i: int| 0 <= i < stories.len() ==> (#[trigger] stories[i])@.id < next_id,
    ensures
        forall|k: u64|
            #[trigger] insert_stories(Map::<u64, Story>::empty(), stories).contains_key(k) ==> k
                < next_id,
    decreases stories.len(),
{
    if stories.len() > 0 {
        assert(forall|i: int|
            0 <= i < stories.drop_last().len() ==> (#[trigger] stories.drop_last()[i])
                == stories[i]);
        lemma_insert_stories_conditions(stories.drop_last(), next_id);
        assert(stories[stories.len() - 1]@.id < next_id);
        assert forall|k: u64|
            #[trigger] insert_stories(Map::<u64, Story>::empty(), stories).contains_key(
                k,
            ) implies k < next_id by {
            if k != stories.last()@.id {
                assert(insert_stories(Map::<u64, Story>::empty(), stories.drop_last()).contains_key(
                    k,
                ));
            }
        }
    }
}

} // verus!
