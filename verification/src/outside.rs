//! Calls into code that Verus does not read: what each of them is relied on for.

use crate::arxiv::UrlParts;
use crate::{arxiv, patterns, text, utf};
use std::io::Read;
use vstd::prelude::*;
use vstd::utf8::*;

verus! {

/// `String::from_utf8`: gives the text that the bytes hold, if and only if
/// they are valid UTF-8. That text has just these bytes.
#[verifier::external_body]
pub(crate) fn string_from_utf8(bytes: Vec<u8>) -> (r: Option<String>)
    ensures
        r is Some <==> valid_utf8(bytes@),
        r matches Some(s) ==> encode_utf8(s@) == bytes@,
{
    String::from_utf8(bytes).ok()
}

/// The spans, as byte offsets, that `regex::Regex::find_iter` walks over: the
/// matches from left to right, none overlapping another. Both patterns compile.
///
/// Of [`patterns::SECTION`] these are the sectioning commands at the starts of
/// lines. Of [`patterns::PDFOUTPUT`] they are the output directives, where `\s`
/// is any white space of Unicode and `[0-9]` an ASCII digit.
#[verifier::external_body]
pub(crate) fn regex_find_iter(pattern: &str, haystack: &str) -> (r: Vec<(usize, usize)>)
    requires
        pattern@ == patterns::SECTION@ || pattern@ == patterns::PDFOUTPUT@,
    ensures
        pattern@ == patterns::SECTION@ ==> patterns::pairs(r@) == patterns::in_bytes(
            haystack@,
            patterns::headings(haystack@),
        ),
        pattern@ == patterns::PDFOUTPUT@ ==> patterns::pairs(r@) == patterns::in_bytes(
            haystack@,
            patterns::directives(haystack@),
        ),
{
    let regex = regex::Regex::new(pattern).expect("valid pattern");
    regex.find_iter(haystack).map(|m| (m.start(), m.end())).collect()
}

/// What `regex::Regex::is_match` answers for a pattern and a text.
pub uninterp spec fn regex_matches(pattern: Seq<char>, haystack: Seq<char>) -> bool;

/// `regex::Regex::is_match`: does the pattern match anywhere in the text? All
/// three patterns compile.
///
/// In the two patterns of identifiers `\d` stands for any decimal digit of
/// Unicode, so the match is spelled out for ASCII texts only; of any other text
/// that matches, too, it is said that it holds no white space and ends with no
/// slash, for it is made of letters, hyphens, dots, slashes and digits, and ends
/// with a digit. The pattern of openers is anchored at the start and goes without regard to case; apart from
/// the other case of each letter, `s` meets U+017F and `k` meets U+212A.
#[verifier::external_body]
pub(crate) fn regex_is_match(pattern: &str, haystack: &str) -> (r: bool)
    requires
        pattern@ == patterns::NEW_ID@ || pattern@ == patterns::OLD_ID@ || pattern@
            == patterns::OPENER@,
    ensures
        r == regex_matches(pattern@, haystack@),
        pattern@ == patterns::NEW_ID@ && is_ascii_chars(haystack@) ==> r == patterns::new_style(
            haystack@,
        ),
        pattern@ == patterns::OLD_ID@ && is_ascii_chars(haystack@) ==> r == patterns::old_style(
            haystack@,
        ),
        pattern@ == patterns::NEW_ID@ || pattern@ == patterns::OLD_ID@ ==> (r ==> patterns::tight(
            haystack@,
        )),
        pattern@ == patterns::OPENER@ ==> r == patterns::opener(haystack@),
{
    regex::Regex::new(pattern).expect("valid pattern").is_match(haystack)
}

/// What `url::Url::parse` makes of a text: the scheme, the host if there is one,
/// and the segments of the path if it is made of segments.
pub uninterp spec fn url_parsed(input: Seq<char>) -> Option<
    (Seq<char>, Option<Seq<char>>, Option<Seq<Seq<char>>>),
>;

/// `url::Url::parse`, and the `scheme`, `host_str` and `path_segments` of what it
/// gives.
///
/// Spelled out is what becomes of an address such as
/// `https://arxiv.org/abs/2301.00001?x#y` that is not very long: the scheme and
/// the host come in lower case, the path is cut at its slashes, and what starts
/// at a question mark or a number sign belongs to no segment.
#[verifier::external_body]
pub(crate) fn url_parse(input: &str) -> (r: Option<UrlParts>)
    ensures
        arxiv::parts_view(r) == url_parsed(input@),
        forall|scheme: Seq<char>, host: Seq<char>, path: Seq<char>, tail: Seq<char>|
            input@ == #[trigger] arxiv::address(scheme, host, path, tail) && arxiv::plain_address(
                scheme,
                host,
                path,
                tail,
            ) && utf::bytes_of(input@).len() < 0x4000_0000 ==> arxiv::parts_view(r) == Some(
                (
                    text::ascii_lowercase(scheme),
                    Some(text::ascii_lowercase(host)),
                    Some(text::split_on(path, '/')),
                ),
            ),
{
    let url = url::Url::parse(input).ok()?;
    Some(
        UrlParts {
            scheme: url.scheme().to_string(),
            host: url.host_str().map(|host| host.to_string()),
            segments: url.path_segments().map(|list| list.map(|s| s.to_string()).collect()),
        },
    )
}

/// What `flate2::read::GzDecoder` reads from some bytes to its end: the content
/// of the gzip member that they hold, if they hold a whole one.
pub uninterp spec fn gunzipped(bytes: Seq<u8>) -> Option<Seq<u8>>;

/// `flate2::read::GzDecoder`, read to its end. It fails where the bytes are not
/// gzip, are cut short, or do not match their checksum.
#[verifier::external_body]
pub(crate) fn gunzip(bytes: &[u8]) -> (r: Option<Vec<u8>>)
    ensures
        match r {
            Some(v) => gunzipped(bytes@) == Some(v@),
            None => gunzipped(bytes@) is None,
        },
{
    let mut out: Vec<u8> = Vec::new();
    flate2::read::GzDecoder::new(bytes).read_to_end(&mut out).ok()?;
    Some(out)
}

/// A text as a value of a TOML document, quoted as the `toml` crate does it.
pub uninterp spec fn toml_quoted(s: Seq<char>) -> Seq<char>;

/// Characters of ASCII that can be printed, and neither quotes nor backslashes.
pub open spec fn toml_plain(s: Seq<char>) -> bool {
    forall|i: int|
        0 <= i < s.len() ==> ' ' <= #[trigger] s[i] <= '~' && s[i] != '"' && s[i] != '\\'
}

/// `c` stands 256 times in a row, from `i` on.
pub open spec fn long_row(s: Seq<char>, c: char, i: int) -> bool {
    &&& 0 <= i
    &&& i + 256 <= s.len()
    &&& forall|k: int| i <= k < i + 256 ==> #[trigger] s[k] == c
}

/// No quote stands 256 times in a row. The `toml` crate counts rows of quotes in
/// eight bits.
pub open spec fn toml_writable(s: Seq<char>) -> bool {
    &&& forall|i: int| !#[trigger] long_row(s, '\'', i)
    &&& forall|i: int| !#[trigger] long_row(s, '"', i)
}

/// `toml::Value::String`, written out by its `Display`. A plain text comes
/// between double quotes as it is. Longer rows of quotes overflow a counter in
/// it, which is why they are left out.
#[verifier::external_body]
pub(crate) fn toml_quote(s: &str) -> (r: String)
    requires
        toml_writable(s@),
    ensures
        r@ == toml_quoted(s@),
        toml_plain(s@) ==> r@ == "\""@ + s@ + "\""@,
{
    toml::Value::String(s.to_string()).to_string()
}

} // verus!
