//! What counts as talk about the work, and what as content.

use crate::translator::{reply, reply_laws};
use crate::{patterns, text};
use vstd::prelude::*;

verus! {

/// A paragraph with a backslash, a brace or a dollar sign is content.
pub proof fn code_is_content(para: Seq<char>)
    requires
        para.contains('\\') || para.contains('{') || para.contains('}') || para.contains('$'),
    ensures
        !reply::chatter(para),
{
    reply_laws::syntax_is_content(para);
}

/// `first` is the first line of `t`.
pub open spec fn opens_with(t: Seq<char>, first: Seq<char>) -> bool {
    &&& !first.contains('\n')
    &&& first.len() <= t.len()
    &&& t.take(first.len() as int) == first
    &&& first.len() == t.len() || t[first.len() as int] == '\n'
}

proof fn lemma_line_end(s: Seq<char>, i: int, j: int)
    requires
        0 <= i <= j <= s.len(),
        j == s.len() || s[j] == '\n',
        forall|k: int| i <= k < j ==> #[trigger] s[k] != '\n',
    ensures
        reply::line_end(s, i) == if j < s.len() {
            j + 1
        } else {
            j
        },
    decreases j - i,
{
    if i < j {
        lemma_line_end(s, i + 1, j);
    }
}

proof fn lemma_first_line(t: Seq<char>, first: Seq<char>)
    requires
        opens_with(t, first),
    ensures
        reply::first_line(t) == first,
{
    let j = first.len() as int;
    assert forall|k: int| 0 <= k < j implies #[trigger] t[k] != '\n' by {
        assert(t.take(j)[k] == t[k]);
        assert(first.contains(first[k]));
    }
    lemma_line_end(t, 0, j);
    if j == t.len() {
        assert(t =~= first);
    }
}

/// A paragraph that starts with a percent sign is content.
pub proof fn comments_are_content(para: Seq<char>)
    requires
        text::trim(para).len() > 0,
        text::trim(para)[0] == '%',
    ensures
        !reply::chatter(para),
{
    let t = text::trim(para);
    let line = reply::first_line(t);
    let e = reply::line_end(t, 0);
    reply::lemma_line_end(t, 0);
    assert(line.len() > 0 && line[0] == '%') by {
        if e == 1 && t[0] == '\n' {
            assert(false);
        }
        assert(reply::line_end(t, 0) == reply::line_end(t, 1));
        if 1 < t.len() {
            reply::lemma_line_end(t, 1);
        }
    }
    text::lemma_trim(line);
    assert(text::trim_start(line) == line);
}

/// The text speaks of the work, whatever the case of its letters.
pub open spec fn speaks_of(t: Seq<char>, word: Seq<char>) -> bool {
    text::occurs(text::ascii_lowercase(t), word)
}

/// The paragraph hands over to something with a colon, or speaks of translating.
pub open spec fn leads_on(t: Seq<char>) -> bool {
    ||| t.last() == ':'
    ||| t.last() == '：'
    ||| speaks_of(t, "translat"@)
    ||| speaks_of(t, "latex"@)
    ||| speaks_of(t, "preserv"@)
    ||| speaks_of(t, "unchanged"@)
    ||| speaks_of(t, "comment"@)
}

/// A paragraph without LaTeX syntax, whose first line opens like talk, and that ends
/// with a colon or speaks of translating, is talk.
pub proof fn openers_that_lead_on_are_talk(para: Seq<char>, first: Seq<char>)
    requires
        ({
            let t = text::trim(para);
            &&& t.len() > 0
            &&& t[0] != '%'
            &&& !t.contains('\\') && !t.contains('{') && !t.contains('}') && !t.contains('$')
            &&& opens_with(t, first)
            &&& patterns::opener(text::trim(first))
            &&& leads_on(t)
        }),
    ensures
        reply::chatter(para),
{
    let t = text::trim(para);
    lemma_first_line(t, first);
    text::lemma_trim(para);
    assert(first.len() > 0) by {
        if first.len() == 0 {
            assert(t[0] == '\n');
        }
    }
    assert(first[0] == t[0]) by {
        assert(t.take(first.len() as int)[0] == t[0]);
    }
    assert(text::trim_start(first) == first);
    text::lemma_trim(first);
    text::lemma_trim_end(first);
    let f = text::trim(first);
    assert(f.len() > 0 ==> f[0] == first[0]);
}

/// A paragraph whose first line does not open like talk, or that neither ends with a
/// colon nor speaks of translating, is content.
pub proof fn other_paragraphs_are_content(para: Seq<char>, first: Seq<char>)
    requires
        opens_with(text::trim(para), first),
        !patterns::opener(text::trim(first)) || text::trim(para).len() == 0 || !leads_on(
            text::trim(para),
        ),
    ensures
        !reply::chatter(para),
{
    lemma_first_line(text::trim(para), first);
}

/// A line starts at `x`.
pub open spec fn line_start(s: Seq<char>, x: int) -> bool {
    x == 0 || (0 < x <= s.len() && s[x - 1] == '\n')
}

/// The line at `x` goes on at `y` with something else than white space.
pub open spec fn filled_at(s: Seq<char>, x: int, y: int) -> bool {
    &&& 0 <= x <= y < s.len()
    &&& !text::white_space(s[y])
    &&& forall|z: int| x <= z < y ==> #[trigger] s[z] != '\n'
}

/// The line at `x` holds more than white space.
pub open spec fn filled_line(s: Seq<char>, x: int) -> bool {
    exists|y: int| filled_at(s, x, y)
}

proof fn lemma_line(s: Seq<char>, x: int)
    requires
        0 <= x < s.len(),
    ensures
        x < reply::line_end(s, x) <= s.len(),
        reply::line_end(s, x) == s.len() || s[reply::line_end(s, x) - 1] == '\n',
        forall|z: int| x <= z < reply::line_end(s, x) - 1 ==> #[trigger] s[z] != '\n',
    decreases s.len() - x,
{
    if s[x] != '\n' {
        if x + 1 < s.len() {
            lemma_line(s, x + 1);
        } else {
            assert(reply::line_end(s, x + 1) == s.len());
        }
    }
}

proof fn lemma_blank_line(s: Seq<char>, x: int)
    requires
        0 <= x < s.len(),
    ensures
        reply::blank_line(s, x) <==> !filled_line(s, x),
{
    lemma_line(s, x);
    let e = reply::line_end(s, x);
    let line = s.subrange(x, e);
    if !reply::blank_line(s, x) {
        let j = choose|j: int| 0 <= j < line.len() && !text::white_space(#[trigger] line[j]);
        assert(line[j] == s[x + j]);
        assert(filled_at(s, x, x + j));
    }
    if filled_line(s, x) {
        let y = choose|y: int| filled_at(s, x, y);
        if y >= e {
            assert(s[e - 1] == '\n');
        }
        assert(line[y - x] == s[y]);
    }
}

/// The lines that are passed over hold white space alone.
proof fn lemma_passed(s: Seq<char>, i: int, j: int)
    requires
        0 <= i <= j < reply::next_filled(s, i),
        i < s.len(),
    ensures
        text::white_space(s[j]),
    decreases s.len() - i,
{
    if reply::blank_line(s, i) {
        lemma_line(s, i);
        let e = reply::line_end(s, i);
        if j < e {
            assert(s.subrange(i, e)[j - i] == s[j]);
        } else {
            lemma_passed(s, e, j);
        }
    }
}

proof fn lemma_filled_start(s: Seq<char>, i: int)
    requires
        0 <= i <= s.len(),
        i == s.len() || line_start(s, i),
        reply::next_filled(s, i) < s.len(),
    ensures
        line_start(s, reply::next_filled(s, i)),
        i <= reply::next_filled(s, i),
        filled_line(s, reply::next_filled(s, i)),
    decreases s.len() - i,
{
    lemma_blank_line(s, i);
    if reply::blank_line(s, i) {
        lemma_line(s, i);
        lemma_filled_start(s, reply::line_end(s, i));
    }
}

/// A run of filled lines ends with the text, or where a blank line starts.
proof fn lemma_run(s: Seq<char>, a: int)
    requires
        0 <= a <= s.len(),
        a == s.len() || line_start(s, a),
    ensures
        ({
            let b = reply::next_blank(s, a);
            &&& a <= b <= s.len()
            &&& b < s.len() ==> line_start(s, b) && !filled_line(s, b)
            &&& forall|x: int| a <= x < b && line_start(s, x) ==> #[trigger] filled_line(s, x)
        }),
    decreases s.len() - a,
{
    if a < s.len() {
        lemma_blank_line(s, a);
        if !reply::blank_line(s, a) {
            lemma_line(s, a);
            let e = reply::line_end(s, a);
            lemma_run(s, e);
            let b = reply::next_blank(s, a);
            assert forall|x: int| a <= x < b && line_start(s, x) implies #[trigger] filled_line(
                s,
                x,
            ) by {
                if a < x < e {
                    assert(s[x - 1] == '\n');
                }
            }
        }
    }
}

/// What a paragraph is: it starts with a line, all of its lines are filled, and it
/// ends with the text or before a blank line.
pub open spec fn whole_paragraph(s: Seq<char>, p: (int, int)) -> bool {
    &&& 0 <= p.0 < p.1 <= s.len()
    &&& line_start(s, p.0)
    &&& forall|x: int| p.0 <= x < p.1 && line_start(s, x) ==> #[trigger] filled_line(s, x)
    &&& p.1 < s.len() ==> line_start(s, p.1) && !filled_line(s, p.1)
}

proof fn lemma_paragraphs(s: Seq<char>, i: int)
    requires
        0 <= i <= s.len(),
        i == s.len() || line_start(s, i),
    ensures
        forall|k: int|
            0 <= k < reply::spans(s, i).len() ==> whole_paragraph(
                s,
                #[trigger] reply::spans(s, i)[k],
            ),
        forall|j: int|
            i <= j < s.len() && !text::white_space(#[trigger] s[j]) ==> exists|k: int|
                0 <= k < reply::spans(s, i).len() && (#[trigger] reply::spans(s, i)[k]).0 <= j
                    < reply::spans(s, i)[k].1,
    decreases s.len() - i,
{
    let all = reply::spans(s, i);
    reply::lemma_next_filled(s, i);
    let a = reply::next_filled(s, i);
    if a < s.len() {
        lemma_filled_start(s, i);
        lemma_run(s, a);
        let b = reply::next_blank(s, a);
        reply::lemma_next_blank(s, a);
        lemma_blank_line(s, a);
        reply::lemma_line_end(s, a);
        let rest = reply::spans(s, b);
        assert(all == seq![(a, b)] + rest);
        lemma_paragraphs(s, b);
        assert forall|k: int| 0 <= k < all.len() implies whole_paragraph(s, #[trigger] all[k]) by {
            if k > 0 {
                assert(all[k] == rest[k - 1]);
            }
        }
        assert forall|j: int| i <= j < s.len() && !text::white_space(#[trigger] s[j]) implies exists|
            k: int,
        |
            0 <= k < all.len() && (#[trigger] all[k]).0 <= j < all[k].1 by {
            if j < a {
                lemma_passed(s, i, j);
            } else if j < b {
                assert(all[0].0 <= j < all[0].1);
            } else {
                let k = choose|k: int|
                    0 <= k < rest.len() && (#[trigger] rest[k]).0 <= j < rest[k].1;
                assert(all[k + 1].0 <= j < all[k + 1].1);
            }
        }
    } else {
        assert forall|j: int| i <= j < s.len() implies text::white_space(#[trigger] s[j]) by {
            lemma_passed(s, i, j);
        }
    }
}

/// The paragraphs of a text are its runs of lines that are not blank: each is whole,
/// they stand one behind the other, and nothing but white space is left out.
pub proof fn paragraphs_are_runs_of_filled_lines(s: Seq<char>)
    ensures
        forall|k: int|
            0 <= k < reply::spans(s, 0).len() ==> whole_paragraph(
                s,
                #[trigger] reply::spans(s, 0)[k],
            ),
        forall|k: int, l: int|
            0 <= k < l < reply::spans(s, 0).len() ==> (#[trigger] reply::spans(s, 0)[k]).1 < (
            #[trigger] reply::spans(s, 0)[l]).0,
        forall|j: int|
            0 <= j < s.len() && !text::white_space(#[trigger] s[j]) ==> exists|k: int|
                0 <= k < reply::spans(s, 0).len() && (#[trigger] reply::spans(s, 0)[k]).0 <= j
                    < reply::spans(s, 0)[k].1,
{
    lemma_paragraphs(s, 0);
    reply::lemma_spans(s, 0);
    let all = reply::spans(s, 0);
    assert forall|k: int, l: int| 0 <= k < l < all.len() implies (#[trigger] all[k]).1 < (
    #[trigger] all[l]).0 by {
        if all[k].1 == all[l].0 {
            assert(whole_paragraph(s, all[k]));
            assert(whole_paragraph(s, all[l]));
            assert(filled_line(s, all[l].0));
        }
    }
}

} // verus!
