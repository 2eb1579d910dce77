//! The data shapes exchanged with the outside content service.
//!
//! The core never talks to that service itself: a caller environment sends
//! these messages and hands the extracted words back to the intake
//! pipeline. Building the messages is pure and verified here.

use vstd::prelude::*;
use vstd::string::StringExecFns;

verus! {

/// One candidate word handed to the intake pipeline: the word text and
/// its translation.
pub struct ExtractedWord {
    pub word: String,
    pub translation: String,
}

impl Clone for ExtractedWord {
    /// An exact copy of the candidate.
    fn clone(&self) -> (r: ExtractedWord)
        ensures
            r == *self,
    {
        ExtractedWord { word: self.word.clone(), translation: self.translation.clone() }
    }
}

/// The candidate list as the content service returns it.
pub struct WordsResponse {
    pub words: Vec<ExtractedWord>,
}

/// One part of a message to the content service: a piece of text or an
/// embedded image.
pub enum Content {
    Text { content_type: String, text: String },
    Image { content_type: String, image_url: ImageUrl },
}

/// An image reference embedded in a message, as a data URL.
pub struct ImageUrl {
    pub url: String,
}

/// One message to the content service.
pub struct Message {
    pub role: String,
    pub content: Vec<Content>,
}

/// A text part for a message.
pub fn create_text_content(text: &str) -> (r: Content)
    ensures
        r matches Content::Text { content_type, text: t } && content_type@ == "text"@ && t@
            == text@,
{
    Content::Text { content_type: String::from_str("text"), text: text.to_owned() }
}

/// An image part for a message: the base64-encoded image is wrapped in a
/// JPEG data URL.
pub fn create_image_content(image_base64: &str) -> (r: Content)
    ensures
        r matches Content::Image { content_type, image_url } && content_type@ == "image_url"@
            && image_url.url@ == "data:image/jpeg;base64,"@ + image_base64@,
{
    let mut url = String::from_str("data:image/jpeg;base64,");
    url.append(image_base64);
    Content::Image { content_type: String::from_str("image_url"), image_url: ImageUrl { url } }
}

/// A user message holding the given parts.
pub fn create_user_message(content: Vec<Content>) -> (r: Message)
    ensures
        r.role@ == "user"@,
        r.content == content,
{
    Message { role: String::from_str("user"), content }
}

} // verus!
