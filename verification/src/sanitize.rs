//! From the bytes of a key to the text that its identifier is built on.
//!
//! A key is decoded as UTF-8, with U+FFFD in place of what is no UTF-8, and
//! every character outside the regex class `\w` is then taken out. Both steps
//! are the work of code outside this library; what they return is named here,
//! and the contracts of the library speak of those names.

use regex::Regex;
use vstd::prelude::*;
use vstd::string::*;

verus! {

/// `regex::Regex`, a compiled regex. Nothing inside it is seen here.
#[verifier::external_type_specification]
#[verifier::external_body]
pub struct ExRegex(Regex);

/// `regex::Error`, the reason why a pattern did not compile. Nothing inside
/// it is seen here.
#[verifier::external_type_specification]
#[verifier::external_body]
pub struct ExRegexError(regex::Error);

/// The text that `String::from_utf8_lossy` decodes the bytes to.
pub uninterp spec fn utf8_lossy(bytes: Seq<u8>) -> Seq<char>;

/// The pattern of a compiled regex: for a regex that `Regex::new` made, the
/// pattern it was made from, which `Regex::as_str` gives back.
pub uninterp spec fn pattern_of(re: Regex) -> Seq<char>;

/// The text that `Regex::replace_all` returns for the regex that
/// `Regex::new` makes from `pattern`, on the haystack `text`, with the
/// replacement `rep`.
pub uninterp spec fn replaced_all(pattern: Seq<char>, text: Seq<char>, rep: Seq<char>) -> Seq<char>;

/// The pattern of one character that is no word character.
pub open spec fn non_word_pattern() -> Seq<char> {
    seq!['\\', 'W']
}

/// What stands for a key of which no character is left.
pub open spec fn fallback() -> Seq<char> {
    seq!['e', 'm', 'p', 't', 'y']
}

/// The decoded key without the characters that are no word characters.
pub open spec fn stripped(key: Seq<u8>) -> Seq<char> {
    replaced_all(non_word_pattern(), utf8_lossy(key), Seq::<char>::empty())
}

/// The base of a key's identifier: the stripped key, or the fallback where
/// stripping leaves nothing.
pub open spec fn base_of(key: Seq<u8>) -> Seq<char> {
    if stripped(key).len() == 0 {
        fallback()
    } else {
        stripped(key)
    }
}

/// `String::from_utf8_lossy`, as an owned string: the text that the bytes
/// decode to, with U+FFFD where they are no UTF-8.
#[verifier::external_body]
pub(crate) fn decode_lossy(bytes: &[u8]) -> (text: String)
    ensures
        text@ == utf8_lossy(bytes@),
{
    String::from_utf8_lossy(bytes).into_owned()
}

/// `Regex::new`: the compiled regex remembers the pattern it was made from.
/// Whether a pattern compiles is left to the regex engine.
#[verifier::external_body]
pub(crate) fn compile(pattern: &str) -> (compiled: Result<Regex, regex::Error>)
    ensures
        compiled matches Ok(re) ==> pattern_of(re) == pattern@,
{
    Regex::new(pattern)
}

/// `Regex::replace_all` with a text as the replacement, as an owned string:
/// every match of the regex in `text`, from left to right and none
/// overlapping another, gives way to `rep`. The result depends on the
/// pattern of the regex, the text and the replacement alone.
#[verifier::external_body]
pub(crate) fn replace_all(re: &Regex, text: &str, rep: &str) -> (out: String)
    ensures
        out@ == replaced_all(pattern_of(*re), text@, rep@),
{
    re.replace_all(text, rep).into_owned()
}

/// The base that a stripped key gives: the text itself, or the fallback for
/// an empty one.
pub fn base_from(safe: String) -> (base: String)
    ensures
        base@ == if safe@.len() == 0 {
            fallback()
        } else {
            safe@
        },
{
    if safe.as_str().unicode_len() == 0 {
        proof {
            reveal_strlit("empty");
            assert("empty"@ =~= fallback());
        }
        String::from_str("empty")
    } else {
        safe
    }
}

/// Sanitizes a key with the regex of the characters to strip.
pub(crate) fn sanitize(non_word_char: &Regex, key: &[u8]) -> (base: String)
    requires
        pattern_of(*non_word_char) == non_word_pattern(),
    ensures
        base@ == base_of(key@),
{
    let utf8 = decode_lossy(key);
    proof {
        reveal_strlit("");
        assert(""@ =~= Seq::<char>::empty());
    }
    let safe = replace_all(non_word_char, utf8.as_str(), "");
    base_from(safe)
}

} // verus!
