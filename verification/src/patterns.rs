//! The regular expressions in use, and what their matches are.

use crate::{text, utf};
use vstd::prelude::*;

verus! {

/// A sectioning command at the start of a line.
pub const SECTION: &'static str = r"(?m)^(\\(?:section|subsection|subsubsection|chapter|part)\*?\{)";

/// The pdfTeX assignment that chooses the output format.
pub const PDFOUTPUT: &'static str = r"\\pdfoutput\s*=?\s*[0-9]+";

/// An identifier such as `2301.00001v2`.
pub const NEW_ID: &'static str = r"^\d{4}\.\d{4,5}(?:v\d+)?$";

/// An identifier such as `math.GT/0309136v1`.
pub const OLD_ID: &'static str = r"^[a-z-]+(?:\.[A-Za-z-]+)?/\d{7}(?:v\d+)?$";

/// The ways in which a model starts to talk about its work.
pub const OPENER: &'static str =
    r"(?i)^(sure|certainly|of course|okay|ok|here'?s|here\s+(is|are)|i['’](ll|ve|m)|i\s+(will|have|am|translated|translate)|below\s+is|the\s+following|this\s+(is|content|file)|note:|以下是|翻译如下|译文如下|下面是)";

/// The first position at or behind `i` that holds no white space.
pub open spec fn behind_white(s: Seq<char>, i: int) -> int
    decreases s.len() - i,
{
    if 0 <= i < s.len() && text::white_space(s[i]) {
        behind_white(s, i + 1)
    } else {
        i
    }
}

/// The first position at or behind `i` that holds no decimal digit.
pub open spec fn behind_digits(s: Seq<char>, i: int) -> int
    decreases s.len() - i,
{
    if 0 <= i < s.len() && '0' <= s[i] <= '9' {
        behind_digits(s, i + 1)
    } else {
        i
    }
}

/// `c` stands at `i`.
pub open spec fn stands_at(s: Seq<char>, i: int, c: char) -> bool {
    0 <= i < s.len() && s[i] == c
}

// ---------------------------------------------------------------- headings

/// The end of the command `name`, with or without a star, and its opening brace.
pub open spec fn named_heading(s: Seq<char>, i: int, name: Seq<char>) -> Option<int> {
    let star = i + name.len();
    let brace = if stands_at(s, star, '*') {
        star + 1
    } else {
        star
    };
    if text::occurs_at(s, name, i) && stands_at(s, brace, '{') {
        Some(brace + 1)
    } else {
        None
    }
}

/// The end of the sectioning command at `i`, behind its opening brace.
pub open spec fn heading_end(s: Seq<char>, i: int) -> Option<int> {
    if named_heading(s, i, "\\section"@) is Some {
        named_heading(s, i, "\\section"@)
    } else if named_heading(s, i, "\\subsection"@) is Some {
        named_heading(s, i, "\\subsection"@)
    } else if named_heading(s, i, "\\subsubsection"@) is Some {
        named_heading(s, i, "\\subsubsection"@)
    } else if named_heading(s, i, "\\chapter"@) is Some {
        named_heading(s, i, "\\chapter"@)
    } else {
        named_heading(s, i, "\\part"@)
    }
}

/// A line starts at `i`, with a sectioning command.
pub open spec fn heading_at(s: Seq<char>, i: int) -> bool {
    &&& 0 <= i < s.len()
    &&& i == 0 || s[i - 1] == '\n'
    &&& heading_end(s, i) is Some
}

/// The sectioning commands at line starts from `i` on, each with its end.
pub open spec fn headings_from(s: Seq<char>, i: int) -> Seq<(int, int)>
    decreases s.len() - i,
{
    if i >= s.len() {
        Seq::empty()
    } else if heading_at(s, i) {
        seq![(i, heading_end(s, i)->0)] + headings_from(s, i + 1)
    } else {
        headings_from(s, i + 1)
    }
}

/// The sectioning commands at line starts.
pub open spec fn headings(s: Seq<char>) -> Seq<(int, int)> {
    headings_from(s, 0)
}

// ---------------------------------------------------------------- directives

/// The end of the output directive at `i`: the command, an equals sign or none,
/// and digits, with white space around the sign.
pub open spec fn directive_end(s: Seq<char>, i: int) -> Option<int> {
    let sign = behind_white(s, i + "\\pdfoutput"@.len());
    let number = behind_white(
        s,
        if stands_at(s, sign, '=') {
            sign + 1
        } else {
            sign
        },
    );
    let end = behind_digits(s, number);
    if text::occurs_at(s, "\\pdfoutput"@, i) && number < end {
        Some(end)
    } else {
        None
    }
}

/// The output directives from `i` on, each with its end.
pub open spec fn directives_from(s: Seq<char>, i: int) -> Seq<(int, int)>
    decreases s.len() - i,
{
    if i >= s.len() {
        Seq::empty()
    } else if directive_end(s, i) is Some {
        seq![(i, directive_end(s, i)->0)] + directives_from(s, i + 1)
    } else {
        directives_from(s, i + 1)
    }
}

/// The output directives, each with its end.
pub open spec fn directives(s: Seq<char>) -> Seq<(int, int)> {
    directives_from(s, 0)
}

/// Positions in a text as byte offsets.
pub open spec fn in_bytes(s: Seq<char>, spans: Seq<(int, int)>) -> Seq<(int, int)> {
    spans.map_values(|p: (int, int)| (utf::offset_of(s, p.0), utf::offset_of(s, p.1)))
}

/// Pairs of offsets as pairs of numbers.
pub open spec fn pairs(v: Seq<(usize, usize)>) -> Seq<(int, int)> {
    v.map_values(|p: (usize, usize)| (p.0 as int, p.1 as int))
}

// ---------------------------------------------------------------- identifiers

/// The characters from `i` up to `j` are decimal digits.
pub open spec fn digits(s: Seq<char>, i: int, j: int) -> bool {
    &&& 0 <= i <= j <= s.len()
    &&& forall|k: int| i <= k < j ==> '0' <= #[trigger] s[k] <= '9'
}

/// What is left from `i` on is nothing, or `v` and a number.
pub open spec fn version(s: Seq<char>, i: int) -> bool {
    ||| i == s.len()
    ||| stands_at(s, i, 'v') && i + 1 < s.len() && digits(s, i + 1, s.len() as int)
}

/// Four digits, a dot, four or five digits, and a version or none.
pub open spec fn new_style(s: Seq<char>) -> bool {
    &&& digits(s, 0, 4)
    &&& stands_at(s, 4, '.')
    &&& (digits(s, 5, 9) && version(s, 9)) || (digits(s, 5, 10) && version(s, 10))
}

/// The characters from `i` up to `j` are at least one, and each is a hyphen or a
/// letter: a small one, or any where `any_case` holds.
pub open spec fn word(s: Seq<char>, i: int, j: int, any_case: bool) -> bool {
    &&& 0 <= i < j <= s.len()
    &&& forall|k: int|
        i <= k < j ==> 'a' <= #[trigger] s[k] <= 'z' || s[k] == '-' || (any_case && 'A' <= s[k]
            <= 'Z')
}

/// An archive up to `dot`, a subject class behind a dot or none, a slash at
/// `slash`, seven digits, and a version or none.
pub open spec fn old_style_at(s: Seq<char>, dot: int, slash: int) -> bool {
    &&& word(s, 0, dot, false)
    &&& dot == slash || (stands_at(s, dot, '.') && word(s, dot + 1, slash, true))
    &&& stands_at(s, slash, '/')
    &&& digits(s, slash + 1, slash + 8)
    &&& version(s, slash + 8)
}

/// An archive, a subject class or none, a slash, seven digits, and a version or none.
pub open spec fn old_style(s: Seq<char>) -> bool {
    exists|dot: int, slash: int| old_style_at(s, dot, slash)
}

/// There is no white space, and no slash at the end.
pub open spec fn tight(s: Seq<char>) -> bool {
    &&& s.len() > 0
    &&& forall|i: int| 0 <= i < s.len() ==> !text::white_space(#[trigger] s[i])
    &&& s.last() != '/'
}

// ---------------------------------------------------------------- openers

/// A character with its case taken away, as far as that meets an ASCII letter.
pub open spec fn fold(c: char) -> char {
    if c == '\u{17f}' {
        's'
    } else if c == '\u{212a}' {
        'k'
    } else {
        text::ascii_lower(c)
    }
}

/// `s` starts with `p`.
pub open spec fn begins(s: Seq<char>, p: Seq<char>) -> bool {
    text::occurs_at(s, p, 0)
}

/// `s` starts with `first`, white space, and `second`.
pub open spec fn begins_two(s: Seq<char>, first: Seq<char>, second: Seq<char>) -> bool {
    let next = behind_white(s, first.len() as int);
    begins(s, first) && first.len() < next && text::occurs_at(s, second, next)
}

/// `s`, without regard to case, starts like talk about the work.
pub open spec fn opener(s: Seq<char>) -> bool {
    let f = s.map_values(|c: char| fold(c));
    ||| begins(f, "sure"@)
    ||| begins(f, "certainly"@)
    ||| begins(f, "of course"@)
    ||| begins(f, "okay"@)
    ||| begins(f, "ok"@)
    ||| begins(f, "heres"@)
    ||| begins(f, "here's"@)
    ||| begins_two(f, "here"@, "is"@)
    ||| begins_two(f, "here"@, "are"@)
    ||| begins(f, "i'll"@)
    ||| begins(f, "i've"@)
    ||| begins(f, "i'm"@)
    ||| begins(f, "i’ll"@)
    ||| begins(f, "i’ve"@)
    ||| begins(f, "i’m"@)
    ||| begins_two(f, "i"@, "will"@)
    ||| begins_two(f, "i"@, "have"@)
    ||| begins_two(f, "i"@, "am"@)
    ||| begins_two(f, "i"@, "translated"@)
    ||| begins_two(f, "i"@, "translate"@)
    ||| begins_two(f, "below"@, "is"@)
    ||| begins_two(f, "the"@, "following"@)
    ||| begins_two(f, "this"@, "is"@)
    ||| begins_two(f, "this"@, "content"@)
    ||| begins_two(f, "this"@, "file"@)
    ||| begins(f, "note:"@)
    ||| begins(f, "以下是"@)
    ||| begins(f, "翻译如下"@)
    ||| begins(f, "译文如下"@)
    ||| begins(f, "下面是"@)
}

} // verus!
