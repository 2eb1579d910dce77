//! Grammar rules: a titled description with examples and self-check
//! tests, released into long-term study once learned.

use vstd::prelude::*;

verus! {

/// The grammatical category a rule describes.
#[derive(PartialEq, Eq, Structural, Debug, Clone, Copy)]
pub enum JapanesePartOfSpeech {
    Meishi,
    Daimeishi,
    Doushi,
    Keiyoushi,
    Keiyoudoushi,
    Fukushi,
    Rentaishi,
    Setsuzokushi,
    Joshi,
    Jodoushi,
    Kandoushi,
}

/// An example sentence attached to a grammar rule.
pub struct RuleExample {
    id: u64,
    title: String,
    content: String,
    description: String,
    content_translation: String,
}

/// The abstract value of a [`RuleExample`].
pub struct RuleExampleView {
    pub id: u64,
    pub title: Seq<char>,
    pub content: Seq<char>,
    pub description: Seq<char>,
    pub content_translation: Seq<char>,
}

impl View for RuleExample {
    type V = RuleExampleView;

    closed spec fn view(&self) -> RuleExampleView {
        RuleExampleView {
            id: self.id,
            title: self.title@,
            content: self.content@,
            description: self.description@,
            content_translation: self.content_translation@,
        }
    }
}

impl RuleExample {
    /// An example under a caller-chosen fresh identifier.
    pub fn new(
        id: u64,
        title: String,
        content: String,
        description: String,
        content_translation: String,
    ) -> (r: RuleExample)
        ensures
            r@ == (RuleExampleView {
                id,
                title: title@,
                content: content@,
                description: description@,
                content_translation: content_translation@,
            }),
    {
        RuleExample { id, title, content, description, content_translation }
    }

    /// The example's identifier.
    pub fn id(&self) -> (r: u64)
        ensures
            r == self@.id,
    {
        self.id
    }

    /// The example's title.
    pub fn title(&self) -> (r: &str)
        ensures
            r@ == self@.title,
    {
        self.title.as_str()
    }

    /// The example sentence.
    pub fn content(&self) -> (r: &str)
        ensures
            r@ == self@.content,
    {
        self.content.as_str()
    }

    /// What the example demonstrates.
    pub fn description(&self) -> (r: &str)
        ensures
            r@ == self@.description,
    {
        self.description.as_str()
    }

    /// The translation of the example sentence.
    pub fn content_translation(&self) -> (r: &str)
        ensures
            r@ == self@.content_translation,
    {
        self.content_translation.as_str()
    }
}

impl Clone for RuleExample {
    /// An exact copy of the example.
    fn clone(&self) -> (r: RuleExample)
        ensures
            r == *self,
    {
        RuleExample {
            id: self.id,
            title: self.title.clone(),
            content: self.content.clone(),
            description: self.description.clone(),
            content_translation: self.content_translation.clone(),
        }
    }
}

/// A self-check question attached to a grammar rule.
pub struct RuleTest {
    test_id: u64,
    rus_description: String,
    question_content: String,
    answer: String,
}

/// The abstract value of a [`RuleTest`].
pub struct RuleTestView {
    pub test_id: u64,
    pub rus_description: Seq<char>,
    pub question_content: Seq<char>,
    pub answer: Seq<char>,
}

impl View for RuleTest {
    type V = RuleTestView;

    closed spec fn view(&self) -> RuleTestView {
        RuleTestView {
            test_id: self.test_id,
            rus_description: self.rus_description@,
            question_content: self.question_content@,
            answer: self.answer@,
        }
    }
}

impl RuleTest {
    /// A test under a caller-chosen fresh identifier.
    pub fn new(
        test_id: u64,
        rus_description: String,
        question_content: String,
        answer: String,
    ) -> (r: RuleTest)
        ensures
            r@ == (RuleTestView {
                test_id,
                rus_description: rus_description@,
                question_content: question_content@,
                answer: answer@,
            }),
    {
        RuleTest { test_id, rus_description, question_content, answer }
    }

    /// The test's identifier.
    pub fn test_id(&self) -> (r: u64)
        ensures
            r == self@.test_id,
    {
        self.test_id
    }

    /// The prompt shown to the learner.
    pub fn rus_description(&self) -> (r: &str)
        ensures
            r@ == self@.rus_description,
    {
        self.rus_description.as_str()
    }

    /// The sentence to complete.
    pub fn question_content(&self) -> (r: &str)
        ensures
            r@ == self@.question_content,
    {
        self.question_content.as_str()
    }

    /// The expected answer.
    pub fn answer(&self) -> (r: &str)
        ensures
            r@ == self@.answer,
    {
        self.answer.as_str()
    }
}

/// A grammar rule: description, examples and tests, with a release stamp
/// once the rule is learned.
pub struct GrammarRule {
    id: u64,
    release_timestamp: Option<i64>,
    title: String,
    description: String,
    part_of_speech: JapanesePartOfSpeech,
    examples: Vec<RuleExample>,
    tests: Vec<RuleTest>,
}

/// The abstract value of a [`GrammarRule`].
pub struct GrammarRuleView {
    pub id: u64,
    pub release_timestamp: Option<i64>,
    pub title: Seq<char>,
    pub description: Seq<char>,
    pub part_of_speech: JapanesePartOfSpeech,
    pub examples: Seq<RuleExampleView>,
    pub tests: Seq<RuleTestView>,
}

impl View for GrammarRule {
    type V = GrammarRuleView;

    closed spec fn view(&self) -> GrammarRuleView {
        GrammarRuleView {
            id: self.id,
            release_timestamp: self.release_timestamp,
            title: self.title@,
            description: self.description@,
            part_of_speech: self.part_of_speech,
            examples: self.examples@.map_values(|e: RuleExample| e@),
            tests: self.tests@.map_values(|t: RuleTest| t@),
        }
    }
}

/// The answer passes the rule's check: some test carries the asked
/// identifier, the first such test expects exactly this answer.
pub open spec fn spec_check_test(tests: Seq<RuleTestView>, test_id: u64, answer: Seq<char>) -> bool {
    exists|i: int|
        #![auto]
        0 <= i < tests.len() && tests[i].test_id == test_id && (forall|j: int|
            0 <= j < i ==> (#[trigger] tests[j]).test_id != test_id) && tests[i].answer == answer
}

impl GrammarRule {
    /// A rule under a caller-chosen fresh identifier, not yet released.
    pub fn new(
        id: u64,
        title: String,
        description: String,
        part_of_speech: JapanesePartOfSpeech,
        examples: Vec<RuleExample>,
        tests: Vec<RuleTest>,
    ) -> (r: GrammarRule)
        ensures
            r@ == (GrammarRuleView {
                id,
                release_timestamp: None,
                title: title@,
                description: description@,
                part_of_speech,
                examples: examples@.map_values(|e: RuleExample| e@),
                tests: tests@.map_values(|t: RuleTest| t@),
            }),
    {
        GrammarRule {
            id,
            release_timestamp: None,
            title,
            description,
            part_of_speech,
            examples,
            tests,
        }
    }

    /// Check an answer against the first test that carries the asked
    /// identifier; an unknown identifier fails the check.
    pub fn check_test(&self, test_id: u64, answer: &String) -> (r: bool)
        ensures
            r == spec_check_test(self@.tests, test_id, answer@),
    {
        let n = self.tests.len();
        let mut i: usize = 0;
        while i < n
            invariant
                n == self.tests@.len(),
                self@.tests.len() == n,
                i <= n,
                self@.tests == self.tests@.map_values(|t: RuleTest| t@),
                forall|j: int| 0 <= j < i ==> (#[trigger] self@.tests[j]).test_id != test_id,
            decreases n - i,
        {
            proof {
                assert(self@.tests[i as int] == self.tests@[i as int]@);
            }
            if self.tests[i].test_id == test_id {
                let hit = self.tests[i].answer.eq(answer);
                proof {
                    if hit {
                        assert(spec_check_test(self@.tests, test_id, answer@));
                    } else {
                        if spec_check_test(self@.tests, test_id, answer@) {
                            let x = choose|x: int|
                                #![auto]
                                0 <= x < self@.tests.len() && self@.tests[x].test_id == test_id
                                    && (forall|j: int|
                                    0 <= j < x ==> (#[trigger] self@.tests[j]).test_id != test_id)
                                    && self@.tests[x].answer == answer@;
                            assert(x == i);
                            assert(false);
                        }
                    }
                }
                return hit;
            }
            i += 1;
        }
        proof {
            if spec_check_test(self@.tests, test_id, answer@) {
                let x = choose|x: int|
                    #![auto]
                    0 <= x < self@.tests.len() && self@.tests[x].test_id == test_id && (forall|
                        j: int,
                    |
                        0 <= j < x ==> (#[trigger] self@.tests[j]).test_id != test_id)
                        && self@.tests[x].answer == answer@;
                assert(false);
            }
        }
        false
    }

    /// Stamp the rule as released at instant `now`.
    pub fn release(&mut self, now: i64)
        ensures
            final(self)@ == (GrammarRuleView { release_timestamp: Some(now), ..old(self)@ }),
    {
        self.release_timestamp = Some(now);
    }

    /// Whether the rule has been released.
    pub fn is_released(&self) -> (r: bool)
        ensures
            r == (self@.release_timestamp is Some),
    {
        self.release_timestamp.is_some()
    }

    /// The rule's identifier.
    pub fn id(&self) -> (r: u64)
        ensures
            r == self@.id,
    {
        self.id
    }

    /// The rule's title.
    pub fn title(&self) -> (r: &str)
        ensures
            r@ == self@.title,
    {
        self.title.as_str()
    }

    /// The rule's description.
    pub fn description(&self) -> (r: &str)
        ensures
            r@ == self@.description,
    {
        self.description.as_str()
    }

    /// The grammatical category the rule describes.
    pub fn part_of_speech(&self) -> (r: JapanesePartOfSpeech)
        ensures
            r == self@.part_of_speech,
    {
        self.part_of_speech
    }

    /// The instant the rule was released, if it was.
    pub fn release_timestamp(&self) -> (r: Option<i64>)
        ensures
            r == self@.release_timestamp,
    {
        self.release_timestamp
    }

    /// The example sentences.
    pub fn examples(&self) -> (r: &Vec<RuleExample>)
        ensures
            r@.map_values(|e: RuleExample| e@) == self@.examples,
    {
        &self.examples
    }

    /// The self-check tests.
    pub fn tests(&self) -> (r: &Vec<RuleTest>)
        ensures
            r@.map_values(|t: RuleTest| t@) == self@.tests,
    {
        &self.tests
    }
}

} // verus!
