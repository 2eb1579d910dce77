use kanji_card::llm::{create_image_content, create_text_content, create_user_message, Content};
use kanji_card::rule::{GrammarRule, JapanesePartOfSpeech, RuleExample, RuleTest};

fn sample_rule() -> GrammarRule {
    let example = RuleExample::new(
        10,
        "title".to_string(),
        "猫がいます".to_string(),
        "existence".to_string(),
        "there is a cat".to_string(),
    );
    let tests = vec![
        RuleTest::new(20, "prompt one".to_string(), "q1".to_string(), "a1".to_string()),
        RuleTest::new(21, "prompt two".to_string(), "q2".to_string(), "a2".to_string()),
    ];
    GrammarRule::new(
        1,
        "が".to_string(),
        "subject particle".to_string(),
        JapanesePartOfSpeech::Joshi,
        vec![example],
        tests,
    )
}

#[test]
fn rule_getters_return_what_was_given() {
    let rule = sample_rule();
    assert_eq!(rule.id(), 1);
    assert_eq!(rule.title(), "が");
    assert_eq!(rule.description(), "subject particle");
    assert_eq!(rule.part_of_speech(), JapanesePartOfSpeech::Joshi);
    assert!(rule.release_timestamp().is_none());
    assert_eq!(rule.examples().len(), 1);
    assert_eq!(rule.examples()[0].title(), "title");
    assert_eq!(rule.examples()[0].content(), "猫がいます");
    assert_eq!(rule.examples()[0].description(), "existence");
    assert_eq!(rule.examples()[0].content_translation(), "there is a cat");
    assert_eq!(rule.tests().len(), 2);
    assert_eq!(rule.tests()[0].test_id(), 20);
    assert_eq!(rule.tests()[0].rus_description(), "prompt one");
    assert_eq!(rule.tests()[0].question_content(), "q1");
    assert_eq!(rule.tests()[0].answer(), "a1");
}

#[test]
fn check_test_compares_the_right_answer() {
    let rule = sample_rule();
    assert!(rule.check_test(20, &"a1".to_string()));
    assert!(!rule.check_test(20, &"a2".to_string()));
    assert!(rule.check_test(21, &"a2".to_string()));
    assert!(!rule.check_test(99, &"a1".to_string()));
}

#[test]
fn release_stamps_the_rule() {
    let mut rule = sample_rule();
    assert!(!rule.is_released());
    rule.release(123);
    assert!(rule.is_released());
    assert_eq!(rule.release_timestamp(), Some(123));
}

#[test]
fn message_builders_shape_the_request() {
    let text = create_text_content("hello");
    match &text {
        Content::Text { content_type, text } => {
            assert_eq!(content_type, "text");
            assert_eq!(text, "hello");
        },
        Content::Image { .. } => panic!("expected a text part"),
    }
    let image = create_image_content("QUJD");
    match &image {
        Content::Image { content_type, image_url } => {
            assert_eq!(content_type, "image_url");
            assert_eq!(image_url.url, "data:image/jpeg;base64,QUJD");
        },
        Content::Text { .. } => panic!("expected an image part"),
    }
    let message = create_user_message(vec![text, image]);
    assert_eq!(message.role, "user");
    assert_eq!(message.content.len(), 2);
}
