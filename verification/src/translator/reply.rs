//! Cleaning the reply of a model: the talk around a translation goes, and the
//! white space around the source comes back.

use crate::{outside, patterns, text};
use vstd::prelude::*;

verus! {

// ---------------------------------------------------------------- paragraphs

/// The end of the line that goes on at `i`, behind its line end.
pub open spec fn line_end(s: Seq<char>, i: int) -> int
    decreases s.len() - i,
{
    if i >= s.len() {
        s.len() as int
    } else if s[i] == '\n' {
        i + 1
    } else {
        line_end(s, i + 1)
    }
}

pub proof fn lemma_line_end(s: Seq<char>, i: int)
    requires
        0 <= i < s.len(),
    ensures
        i < line_end(s, i) <= s.len(),
    decreases s.len() - i,
{
    if s[i] != '\n' {
        if i + 1 < s.len() {
            lemma_line_end(s, i + 1);
        } else {
            assert(line_end(s, i + 1) == s.len());
        }
    }
}

/// The line that goes on at `i` holds nothing but white space from there.
pub open spec fn blank_line(s: Seq<char>, i: int) -> bool {
    text::blank(s.subrange(i, line_end(s, i)))
}

/// The start of the first line, at or behind the line at `i`, that is not blank.
pub open spec fn next_filled(s: Seq<char>, i: int) -> int
    decreases s.len() - i,
{
    if i < 0 || i >= s.len() {
        s.len() as int
    } else if blank_line(s, i) {
        proof {
            lemma_line_end(s, i);
        }
        next_filled(s, line_end(s, i))
    } else {
        i
    }
}

/// The start of the first blank line at or behind the line at `i`.
pub open spec fn next_blank(s: Seq<char>, i: int) -> int
    decreases s.len() - i,
{
    if i < 0 || i >= s.len() {
        s.len() as int
    } else if blank_line(s, i) {
        i
    } else {
        proof {
            lemma_line_end(s, i);
        }
        next_blank(s, line_end(s, i))
    }
}

pub proof fn lemma_next_filled(s: Seq<char>, i: int)
    requires
        0 <= i <= s.len(),
    ensures
        i <= next_filled(s, i) <= s.len(),
        next_filled(s, i) < s.len() ==> !blank_line(s, next_filled(s, i)),
    decreases s.len() - i,
{
    if i < s.len() && blank_line(s, i) {
        lemma_line_end(s, i);
        lemma_next_filled(s, line_end(s, i));
    }
}

pub proof fn lemma_next_blank(s: Seq<char>, i: int)
    requires
        0 <= i <= s.len(),
    ensures
        i <= next_blank(s, i) <= s.len(),
        i < s.len() && !blank_line(s, i) ==> line_end(s, i) <= next_blank(s, i),
    decreases s.len() - i,
{
    if i < s.len() && !blank_line(s, i) {
        lemma_line_end(s, i);
        lemma_next_blank(s, line_end(s, i));
    }
}

/// The paragraphs from the line at `i` on: runs of lines that are not blank,
/// each with its start and its end.
pub open spec fn spans(s: Seq<char>, i: int) -> Seq<(int, int)>
    decreases s.len() - i,
{
    if i < 0 || next_filled(s, i) >= s.len() {
        Seq::empty()
    } else {
        let a = next_filled(s, i);
        proof {
            lemma_next_filled(s, i);
            lemma_line_end(s, a);
            lemma_next_blank(s, a);
        }
        seq![(a, next_blank(s, a))] + spans(s, next_blank(s, a))
    }
}

/// The characters of one paragraph.
pub open spec fn paragraph(s: Seq<char>, p: (int, int)) -> Seq<char> {
    s.subrange(p.0, p.1)
}

/// Where the line at `i` ends.
fn end_of_line(cs: &Vec<char>, i: usize) -> (r: usize)
    requires
        i < cs.len(),
    ensures
        r == line_end(cs@, i as int),
        i < r <= cs.len(),
{
    proof {
        lemma_line_end(cs@, i as int);
    }
    let mut k: usize = i;
    while k < cs.len() && cs[k] != '\n'
        invariant
            i <= k <= cs.len(),
            line_end(cs@, i as int) == line_end(cs@, k as int),
        decreases cs.len() - k,
    {
        k += 1;
    }
    if k < cs.len() {
        k + 1
    } else {
        k
    }
}

/// Is there nothing but white space between two positions?
fn is_blank_between(cs: &Vec<char>, from: usize, to: usize) -> (r: bool)
    requires
        from <= to <= cs.len(),
    ensures
        r == text::blank(cs@.subrange(from as int, to as int)),
{
    let mut k: usize = from;
    while k < to
        invariant
            from <= k <= to <= cs.len(),
            forall|j: int| from <= j < k ==> text::white_space(#[trigger] cs@[j]),
        decreases to - k,
    {
        if !text::is_white_space(cs[k]) {
            assert(cs@.subrange(from as int, to as int)[k - from] == cs@[k as int]);
            return false;
        }
        k += 1;
    }
    true
}

/// The paragraphs of a text, each with its start and its end, counted in characters.
fn char_spans(s: &str) -> (r: Vec<(usize, usize)>)
    ensures
        patterns::pairs(r@) == spans(s@, 0),
{
    let cs = text::chars_of(s);
    let ghost t = s@;
    let mut r: Vec<(usize, usize)> = Vec::new();
    let mut i: usize = 0;
    assert(patterns::pairs(r@) + spans(t, 0) =~= spans(t, 0));
    loop
        invariant
            cs@ == t,
            i <= cs.len(),
            patterns::pairs(r@) + spans(t, i as int) == spans(t, 0),
        ensures
            patterns::pairs(r@) == spans(t, 0),
        decreases cs.len() - i,
    {
        proof {
            lemma_next_filled(t, i as int);
        }
        let mut a: usize = i;
        while a < cs.len()
            invariant_except_break
                next_filled(t, i as int) == next_filled(t, a as int),
            invariant
                cs@ == t,
                i <= a <= cs.len(),
            ensures
                a == next_filled(t, i as int),
            decreases cs.len() - a,
        {
            let e = end_of_line(&cs, a);
            if !is_blank_between(&cs, a, e) {
                break;
            }
            a = e;
        }
        if a >= cs.len() {
            assert(patterns::pairs(r@) + spans(t, i as int) =~= patterns::pairs(r@));
            break;
        }
        let mut b: usize = a;
        proof {
            lemma_next_blank(t, a as int);
            lemma_line_end(t, a as int);
        }
        while b < cs.len()
            invariant_except_break
                next_blank(t, a as int) == next_blank(t, b as int),
            invariant
                cs@ == t,
                a <= b <= cs.len(),
            ensures
                b == next_blank(t, a as int),
            decreases cs.len() - b,
        {
            let e = end_of_line(&cs, b);
            if is_blank_between(&cs, b, e) {
                break;
            }
            b = e;
        }
        let ghost before = patterns::pairs(r@);
        r.push((a, b));
        assert(patterns::pairs(r@) =~= before.push((a as int, b as int)));
        assert(patterns::pairs(r@) + spans(t, b as int) =~= before + (seq![(a as int, b as int)]
            + spans(t, b as int)));
        i = b;
    }
    r
}

/// The paragraphs of a text: runs of lines that are not blank, each with its
/// start and its end, as byte offsets.
pub fn paragraph_spans(s: &str) -> (r: Vec<(usize, usize)>)
    ensures
        patterns::pairs(r@) == patterns::in_bytes(s@, spans(s@, 0)),
{
    let found = char_spans(s);
    let ghost ps = spans(s@, 0);
    let ghost wanted = patterns::in_bytes(s@, ps);
    proof {
        lemma_spans(s@, 0);
    }
    assert(patterns::pairs(found@).len() == found@.len());
    let mut r: Vec<(usize, usize)> = Vec::new();
    let mut k: usize = 0;
    while k < found.len()
        invariant
            k <= found.len(),
            ps == patterns::pairs(found@),
            ps.len() == found@.len(),
            wanted == patterns::in_bytes(s@, ps),
            forall|j: int|
                0 <= j < ps.len() ==> 0 <= (#[trigger] ps[j]).0 < ps[j].1 <= s@.len(),
            patterns::pairs(r@) == wanted.take(k as int),
        decreases found.len() - k,
    {
        let ghost before = patterns::pairs(r@);
        let (a, b) = found[k];
        assert(ps[k as int] == (a as int, b as int));
        assert(s@.take(a as int) =~= s@.subrange(0, a as int));
        assert(s@.take(b as int) =~= s@.subrange(0, b as int));
        let start: usize = text::byte_len(s.substring_char(0, a));
        let end: usize = text::byte_len(s.substring_char(0, b));
        r.push((start, end));
        assert(patterns::pairs(r@) =~= before.push((start as int, end as int)));
        assert(wanted.take(k + 1) =~= wanted.take(k as int).push(wanted[k as int]));
        k += 1;
    }
    assert(wanted.take(k as int) =~= wanted);
    r
}

// ---------------------------------------------------------------- chatter

/// The first line, without its line end.
pub open spec fn first_line(s: Seq<char>) -> Seq<char> {
    let e = line_end(s, 0);
    if e > 0 && s[e - 1] == '\n' {
        s.take(e - 1)
    } else {
        s
    }
}

/// The text has LaTeX syntax.
pub open spec fn has_syntax(s: Seq<char>) -> bool {
    s.contains('\\') || s.contains('{') || s.contains('}') || s.contains('$')
}

/// The text, without regard to the case of its letters, speaks of translating.
pub open spec fn speaks_of_work(s: Seq<char>) -> bool {
    let lower = text::ascii_lowercase(s);
    ||| text::occurs(lower, "translat"@)
    ||| text::occurs(lower, "latex"@)
    ||| text::occurs(lower, "preserv"@)
    ||| text::occurs(lower, "unchanged"@)
    ||| text::occurs(lower, "comment"@)
}

/// The text ends with a colon.
pub open spec fn hands_over(s: Seq<char>) -> bool {
    s.len() > 0 && (s.last() == ':' || s.last() == '：')
}

/// The paragraph is the model talking about its work: it has no LaTeX syntax and
/// is no comment, it opens like talk, and it hands over to something or speaks
/// of translating.
pub open spec fn chatter(para: Seq<char>) -> bool {
    let t = text::trim(para);
    let first = text::trim(first_line(t));
    &&& t.len() > 0
    &&& !has_syntax(t)
    &&& !(first.len() > 0 && first[0] == '%')
    &&& patterns::opener(first)
    &&& hands_over(t) || speaks_of_work(t)
}

/// The first line of a text, without its line end.
fn line_one(s: &str) -> (r: &str)
    ensures
        r@ == first_line(s@),
{
    let cs = text::chars_of(s);
    if cs.len() == 0 {
        return s;
    }
    let e = end_of_line(&cs, 0);
    if cs[e - 1] == '\n' {
        assert(s@.take(e - 1) =~= s@.subrange(0, e - 1));
        s.substring_char(0, e - 1)
    } else {
        s
    }
}

/// Is the paragraph the model talking about its work, and not LaTeX content?
pub fn looks_like_chatter(para: &str) -> (r: bool)
    ensures
        r == chatter(para@),
{
    let trimmed = text::trimmed(para);
    if trimmed.is_empty() || text::contains_char(trimmed, '\\') || text::contains_char(
        trimmed,
        '{',
    ) || text::contains_char(trimmed, '}') || text::contains_char(trimmed, '$') {
        return false;
    }
    let first = text::trimmed(line_one(trimmed));
    let first_chars = text::chars_of(first);
    if first_chars.len() > 0 && first_chars[0] == '%' {
        return false;
    }
    if !outside::regex_is_match(patterns::OPENER, first) {
        return false;
    }
    let cs = text::chars_of(trimmed);
    let last: char = cs[cs.len() - 1];
    let lower = text::lowercase(trimmed);
    last == ':' || last == '：' || text::chars_contain(&lower, "translat") || text::chars_contain(
        &lower,
        "latex",
    ) || text::chars_contain(&lower, "preserv") || text::chars_contain(&lower, "unchanged")
        || text::chars_contain(&lower, "comment")
}

/// The first paragraph, from number `k` on, that is no chatter.
pub open spec fn first_content(s: Seq<char>, ps: Seq<(int, int)>, k: int) -> int
    decreases ps.len() - k,
{
    if k < ps.len() && chatter(paragraph(s, ps[k])) {
        first_content(s, ps, k + 1)
    } else {
        k
    }
}

/// How many paragraphs are left when chatter is taken from the end, down to `lo`.
pub open spec fn last_content(s: Seq<char>, ps: Seq<(int, int)>, lo: int, k: int) -> int
    decreases k - lo,
{
    if k > lo && chatter(paragraph(s, ps[k - 1])) {
        last_content(s, ps, lo, k - 1)
    } else {
        k
    }
}

/// The text without the chatter at either end, trimmed. Where all of it is
/// chatter it stays.
pub open spec fn without_chatter(s: Seq<char>) -> Seq<char> {
    let ps = spans(s, 0);
    let lo = first_content(s, ps, 0);
    let hi = last_content(s, ps, lo, ps.len() as int);
    if lo >= hi {
        text::trim(s)
    } else {
        text::trim(s.subrange(ps[lo].0, ps[hi - 1].1))
    }
}

/// The paragraphs lie in the text, one behind the other, and none is blank.
pub proof fn lemma_spans(s: Seq<char>, i: int)
    requires
        0 <= i <= s.len(),
    ensures
        forall|k: int|
            0 <= k < spans(s, i).len() ==> {
                let p = #[trigger] spans(s, i)[k];
                &&& i <= p.0 < p.1 <= s.len()
                &&& !text::blank(paragraph(s, p))
            },
        forall|k: int, l: int|
            0 <= k < l < spans(s, i).len() ==> (#[trigger] spans(s, i)[k]).1 <= (
            #[trigger] spans(s, i)[l]).0,
    decreases s.len() - i,
{
    lemma_next_filled(s, i);
    let a = next_filled(s, i);
    let all = spans(s, i);
    if a < s.len() {
        lemma_line_end(s, a);
        lemma_next_blank(s, a);
        let b = next_blank(s, a);
        lemma_spans(s, b);
        let rest = spans(s, b);
        assert(all == seq![(a, b)] + rest);
        assert(!text::blank(paragraph(s, (a, b)))) by {
            let line = s.subrange(a, line_end(s, a));
            let j = choose|j: int| 0 <= j < line.len() && !text::white_space(#[trigger] line[j]);
            assert(paragraph(s, (a, b))[j] == line[j]);
        }
        assert forall|k: int| 0 <= k < all.len() implies {
            let p = #[trigger] all[k];
            &&& i <= p.0 < p.1 <= s.len()
            &&& !text::blank(paragraph(s, p))
        } by {
            if k > 0 {
                assert(all[k] == rest[k - 1]);
            }
        }
        assert forall|k: int, l: int| 0 <= k < l < all.len() implies (#[trigger] all[k]).1 <= (
        #[trigger] all[l]).0 by {
            assert(all[l] == rest[l - 1]);
            if k > 0 {
                assert(all[k] == rest[k - 1]);
            }
        }
    }
}

/// Takes the model's talk away from both ends of a text, paragraph by paragraph.
/// Where nothing else would be left, the text stays.
pub fn strip_llm_chatter(s: &str) -> (r: String)
    ensures
        r@ == without_chatter(s@),
{
    let found = paragraph_spans(s);
    let ghost ps = spans(s@, 0);
    proof {
        lemma_spans(s@, 0);
    }
    let ghost offsets = patterns::in_bytes(s@, ps);
    assert(patterns::pairs(found@).len() == found@.len());
    let mut lo: usize = 0;
    while lo < found.len()
        invariant_except_break
            first_content(s@, ps, 0) == first_content(s@, ps, lo as int),
        invariant
            lo <= found.len(),
            offsets == patterns::pairs(found@),
            offsets == patterns::in_bytes(s@, ps),
            ps.len() == found@.len(),
            forall|k: int|
                0 <= k < ps.len() ==> 0 <= (#[trigger] ps[k]).0 < ps[k].1 <= s@.len(),
        ensures
            lo == first_content(s@, ps, 0),
        decreases found.len() - lo,
    {
        let (a, b) = found[lo];
        let ghost p = ps[lo as int];
        assert(offsets[lo as int] == (a as int, b as int));
        if !looks_like_chatter(text::piece(s, a, b, Ghost(p.0), Ghost(p.1))) {
            break;
        }
        lo += 1;
    }
    let mut hi: usize = found.len();
    while hi > lo
        invariant_except_break
            last_content(s@, ps, lo as int, ps.len() as int) == last_content(
                s@,
                ps,
                lo as int,
                hi as int,
            ),
        invariant
            lo <= hi <= found.len(),
            offsets == patterns::pairs(found@),
            offsets == patterns::in_bytes(s@, ps),
            ps.len() == found@.len(),
            forall|k: int|
                0 <= k < ps.len() ==> 0 <= (#[trigger] ps[k]).0 < ps[k].1 <= s@.len(),
        ensures
            hi == last_content(s@, ps, lo as int, ps.len() as int),
        decreases hi,
    {
        let (a, b) = found[hi - 1];
        let ghost p = ps[hi - 1];
        assert(offsets[hi - 1] == (a as int, b as int));
        if !looks_like_chatter(text::piece(s, a, b, Ghost(p.0), Ghost(p.1))) {
            break;
        }
        hi -= 1;
    }
    if lo >= hi {
        return text::trimmed(s).to_owned();
    }
    let from: usize = found[lo].0;
    let to: usize = found[hi - 1].1;
    let ghost first = ps[lo as int].0;
    let ghost last = ps[hi - 1].1;
    assert(offsets[lo as int].0 == from);
    assert(offsets[hi - 1].1 == to);
    assert(first < last) by {
        if lo < hi - 1 {
            assert(ps[lo as int].1 <= ps[hi - 1].0);
        }
    }
    text::trimmed(text::piece(s, from, to, Ghost(first), Ghost(last))).to_owned()
}

// ---------------------------------------------------------------- fences

/// The last position, up to `i`, at which `p` stands in `s`.
pub open spec fn last_at(s: Seq<char>, p: Seq<char>, i: int) -> Option<int>
    decreases i + 1,
{
    if i < 0 {
        None
    } else if text::occurs_at(s, p, i) {
        Some(i)
    } else {
        last_at(s, p, i - 1)
    }
}

/// The text without a code fence around it: the line of an opening fence goes,
/// and so does everything from the last closing fence on.
pub open spec fn without_fences(s: Seq<char>) -> Seq<char> {
    let t = text::trim(s);
    let e = line_end(t, 0);
    if !text::occurs_at(t, "```"@, 0) || t[e - 1] != '\n' {
        t
    } else {
        let inner = t.skip(e);
        match last_at(inner, "```"@, inner.len() as int) {
            Some(close) => text::trim_end(inner.take(close)),
            None => inner,
        }
    }
}

/// Takes away a code fence around a text.
pub fn strip_code_fences(s: &str) -> (r: String)
    ensures
        r@ == without_fences(s@),
{
    let trimmed = text::trimmed(s);
    let ghost t = trimmed@;
    proof {
        reveal_strlit("```");
    }
    if !text::starts_with(trimmed, "```") {
        return trimmed.to_owned();
    }
    let cs = text::chars_of(trimmed);
    let e = end_of_line(&cs, 0);
    if cs[e - 1] != '\n' {
        return trimmed.to_owned();
    }
    let inner = trimmed.substring_char(e, cs.len());
    assert(inner@ =~= t.skip(e as int));
    let inner_chars = text::chars_of(inner);
    let fence = text::chars_of("```");
    let mut i: usize = inner_chars.len();
    loop
        invariant
            i <= inner_chars.len(),
            inner_chars@ == inner@,
            fence@ == "```"@,
            t == text::trim(s@),
            e == line_end(t, 0),
            text::occurs_at(t, "```"@, 0),
            t[e - 1] == '\n',
            inner@ == t.skip(e as int),
            last_at(inner@, "```"@, inner@.len() as int) == last_at(inner@, "```"@, i as int),
        decreases i,
    {
        if text::chars_occur_at(&inner_chars, &fence, i) {
            assert(inner@.take(i as int) =~= inner@.subrange(0, i as int));
            return text::trimmed_end(inner.substring_char(0, i)).to_owned();
        }
        if i == 0 {
            assert(last_at(inner@, "```"@, -1) is None);
            return inner.to_owned();
        }
        i -= 1;
    }
}

/// The reply without fences and talk around the translation.
pub open spec fn cleaned(s: Seq<char>) -> Seq<char> {
    without_chatter(without_fences(without_chatter(s)))
}

/// Cleans the reply of a model: talk above a fence goes, then the fence, then
/// talk inside of it.
pub fn clean_response(s: &str) -> (r: String)
    ensures
        r@ == cleaned(s@),
{
    let outer = strip_llm_chatter(s);
    let inner = strip_code_fences(outer.as_str());
    strip_llm_chatter(inner.as_str())
}

// ---------------------------------------------------------------- finishing

/// The white space at the start of a text.
pub open spec fn leading_space(s: Seq<char>) -> Seq<char> {
    s.take(s.len() - text::trim_start(s).len())
}

/// The white space at the end of a text.
pub open spec fn trailing_space(s: Seq<char>) -> Seq<char> {
    s.skip(text::trim_end(s).len() as int)
}

/// The reply, cleaned, with the white space of the source around it.
pub open spec fn finished(content: Seq<char>, reply: Seq<char>) -> Seq<char> {
    leading_space(content) + text::trim(cleaned(reply)) + trailing_space(content)
}

/// The reply held no translation.
#[derive(Clone, Copy, Debug, PartialEq, Eq, Structural)]
pub struct EmptyReply;

impl EmptyReply {
    /// The error in words.
    pub fn message(self) -> (r: &'static str)
        ensures
            r@
                == "Translation returned empty content; the original source was not replaced"@,
    {
        "Translation returned empty content; the original source was not replaced"
    }
}

/// The translation of a source that a reply gives: none where nothing is left of it.
pub open spec fn finish(content: Seq<char>, reply: Seq<char>) -> Option<Seq<char>> {
    if text::blank(cleaned(reply)) {
        None
    } else {
        Some(finished(content, reply))
    }
}

/// Cleans a reply and puts the white space of the source around it: losing a
/// line end could extend a comment. A reply with nothing in it is an error.
pub fn finish_translation(content: &str, reply: &str) -> (r: Result<String, EmptyReply>)
    ensures
        match r {
            Ok(s) => !text::blank(cleaned(reply@)) && s@ == finished(content@, reply@),
            Err(_) => text::blank(cleaned(reply@)),
        },
        match r {
            Ok(s) => finish(content@, reply@) == Some(s@),
            Err(_) => finish(content@, reply@) is None,
        },
{
    let clean = clean_response(reply);
    if text::is_blank(clean.as_str()) {
        return Err(EmptyReply);
    }
    proof {
        text::lemma_trim_start(content@);
        text::lemma_trim_end(content@);
    }
    let len = content.unicode_len();
    let start: usize = len - text::trimmed_start(content).unicode_len();
    let end: usize = text::trimmed_end(content).unicode_len();
    let head = content.substring_char(0, start);
    let tail = content.substring_char(end, len);
    assert(head@ =~= leading_space(content@));
    assert(tail@ =~= trailing_space(content@));
    let mut r = head.to_owned();
    r.append(text::trimmed(clean.as_str()));
    r.append(tail);
    Ok(r)
}

} // verus!
