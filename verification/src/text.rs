//! Text primitives of the core: transliteration, trimming, case folding
//! and substring search.
//!
//! Transliteration, Unicode case folding and Unicode trimming are taken
//! from outside code; each result is named by an uninterpreted spec
//! function so that every contract built on it is exact. Substring search
//! is the library's own and fully verified.

use vstd::prelude::*;
use vstd::string::StrSliceExecFns;

verus! {

/// The hiragana rendering of a text, as the transliterator produces it.
pub uninterp spec fn hiragana_of(s: Seq<char>) -> Seq<char>;

/// The lower-case form of a text, as Unicode case mapping produces it.
pub uninterp spec fn lower_of(s: Seq<char>) -> Seq<char>;

/// A text without its leading and trailing whitespace.
pub uninterp spec fn trim_of(s: Seq<char>) -> Seq<char>;

/// Relies on kakasi::convert: its `hiragana` field is the hiragana
/// rendering of the input and depends on the input text alone.
#[verifier::external_body]
fn convert_hiragana(s: &str) -> (r: String)
    ensures
        r@ == hiragana_of(s@),
{
    kakasi::convert(s).hiragana
}

/// Relies on str::to_lowercase: the result is the lower-case form of the
/// input and depends on the input text alone.
#[verifier::external_body]
fn lowercase(s: &str) -> (r: String)
    ensures
        r@ == lower_of(s@),
{
    s.to_lowercase()
}

/// Relies on str::trim: the result is the input without leading and
/// trailing whitespace and depends on the input text alone.
#[verifier::external_body]
fn trim(s: &str) -> (r: &str)
    ensures
        r@ == trim_of(s@),
{
    s.trim()
}

/// Trim a text and own the result.
pub fn trimmed(s: &str) -> (r: String)
    ensures
        r@ == trim_of(s@),
{
    trim(s).to_owned()
}

/// The derived reading of a word: the hiragana rendering when it differs
/// from the word itself, nothing when the word is already phonetic.
pub open spec fn spec_reading(word: Seq<char>) -> Option<Seq<char>> {
    if hiragana_of(word) == word {
        None
    } else {
        Some(hiragana_of(word))
    }
}

/// Derive the reading of a word: transliterate it and keep the result
/// only when it differs from the word itself.
pub fn to_reading(word: &str) -> (r: Option<String>)
    ensures
        r matches Some(s) ==> spec_reading(word@) == Some(s@),
        r is None ==> spec_reading(word@) is None,
{
    let hiragana = convert_hiragana(word);
    if hiragana == word.to_owned() {
        None
    } else {
        Some(hiragana)
    }
}

/// The characters of a text, one by one.
pub fn chars_of(s: &str) -> (r: Vec<char>)
    ensures
        r@ == s@,
{
    let n = s.unicode_len();
    let mut cs: Vec<char> = Vec::new();
    let mut i: usize = 0;
    while i < n
        invariant
            n == s@.len(),
            i <= n,
            cs@ =~= s@.subrange(0, i as int),
        decreases n - i,
    {
        cs.push(s.get_char(i));
        proof {
            assert(cs@ =~= s@.subrange(0, i + 1 as int));
        }
        i += 1;
    }
    proof {
        assert(s@.subrange(0, n as int) =~= s@);
    }
    cs
}

/// The needle occurs in the haystack starting at position `i`.
pub open spec fn is_match_at(hay: Seq<char>, needle: Seq<char>, i: int) -> bool {
    0 <= i && i + needle.len() <= hay.len() && hay.subrange(i, i + needle.len()) == needle
}

/// The needle occurs somewhere in the haystack. The empty needle occurs
/// in every text.
pub open spec fn contains_seq(hay: Seq<char>, needle: Seq<char>) -> bool {
    exists|i: int| is_match_at(hay, needle, i)
}

/// Substring search: whether the needle occurs in the haystack.
pub fn contains_chars(hay: &Vec<char>, needle: &Vec<char>) -> (r: bool)
    ensures
        r == contains_seq(hay@, needle@),
{
    let hn = hay.len();
    let nn = needle.len();
    if nn > hn {
        proof {
            assert(forall|i: int| !is_match_at(hay@, needle@, i));
        }
        return false;
    }
    if nn == 0 {
        proof {
            assert(hay@.subrange(0, 0) =~= needle@);
            assert(is_match_at(hay@, needle@, 0));
        }
        return true;
    }
    let mut i: usize = 0;
    while i <= hn - nn
        invariant
            hn == hay@.len(),
            nn == needle@.len(),
            1 <= nn <= hn,
            i <= hn - nn + 1,
            forall|k: int| 0 <= k < i ==> !is_match_at(hay@, needle@, k),
        decreases hn - i,
    {
        let mut j: usize = 0;
        let mut hit = true;
        while j < nn
            invariant
                hn == hay@.len(),
                nn == needle@.len(),
                i + nn <= hn,
                j <= nn,
                hit ==> forall|l: int| 0 <= l < j ==> hay@[i + l] == needle@[l],
                !hit ==> !is_match_at(hay@, needle@, i as int),
            decreases nn - j,
        {
            if hay[i + j] != needle[j] {
                proof {
                    if is_match_at(hay@, needle@, i as int) {
                        assert(hay@.subrange(i as int, i + nn as int)[j as int] == needle@[j as int]);
                    }
                }
                hit = false;
                j = nn;
            } else {
                j += 1;
            }
        }
        if hit {
            proof {
                assert(hay@.subrange(i as int, i + nn as int) =~= needle@);
                assert(is_match_at(hay@, needle@, i as int));
            }
            return true;
        }
        i += 1;
    }
    proof {
        assert forall|k: int| !is_match_at(hay@, needle@, k) by {
            if k >= i as int {
            }
        }
    }
    false
}

/// A card's texts match a search needle when the needle, already
/// lower-case, occurs in the lower-case form of the word, of the reading
/// (when there is one) or of the translation.
pub open spec fn card_text_matches(
    word: Seq<char>,
    reading: Option<Seq<char>>,
    translation: Seq<char>,
    needle_lower: Seq<char>,
) -> bool {
    ||| contains_seq(lower_of(word), needle_lower)
    ||| (reading matches Some(r) && contains_seq(lower_of(r), needle_lower))
    ||| contains_seq(lower_of(translation), needle_lower)
}

/// The characters of the lower-case form of a text: the shape a search
/// needle takes before matching.
pub fn lower_chars(s: &str) -> (r: Vec<char>)
    ensures
        r@ == lower_of(s@),
{
    let low = lowercase(s);
    chars_of(low.as_str())
}

/// Case-insensitive substring match: whether the lower-case form of the
/// haystack contains the needle, the needle being already lower-case.
pub fn contains_folded(hay: &str, needle_lower: &Vec<char>) -> (r: bool)
    ensures
        r == contains_seq(lower_of(hay@), needle_lower@),
{
    let low = lowercase(hay);
    let low_chars = chars_of(low.as_str());
    contains_chars(&low_chars, needle_lower)
}

} // verus!
