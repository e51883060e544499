//! What taking off a code fence keeps.

use crate::translator::{paragraph_laws, reply, reply_laws};
use crate::{text, text_laws};
use vstd::prelude::*;

verus! {

/// A text in a code fence: the fence with a tag behind it, the text on lines of its
/// own, the fence again, and something behind it.
pub open spec fn fenced(tag: Seq<char>, inner: Seq<char>, tail: Seq<char>) -> Seq<char> {
    "```"@ + tag + "\n"@ + inner + "```"@ + tail
}

/// The line that goes on at `i` ends with the line end at `j`.
proof fn lemma_line_end_at(s: Seq<char>, i: int, j: int)
    requires
        0 <= i <= j < s.len(),
        s[j] == '\n',
        forall|k: int| i <= k < j ==> #[trigger] s[k] != '\n',
    ensures
        reply::line_end(s, i) == j + 1,
    decreases j - i,
{
    if i < j {
        lemma_line_end_at(s, i + 1, j);
    }
}

/// A line without a line end runs to the end.
proof fn lemma_no_line_end(s: Seq<char>, i: int)
    requires
        0 <= i <= s.len(),
        forall|k: int| i <= k < s.len() ==> #[trigger] s[k] != '\n',
    ensures
        reply::line_end(s, i) == s.len(),
    decreases s.len() - i,
{
    if i < s.len() {
        lemma_no_line_end(s, i + 1);
    }
}

proof fn lemma_last_at(s: Seq<char>, p: Seq<char>, i: int, m: int)
    requires
        0 <= m <= i,
        text::occurs_at(s, p, m),
        forall|k: int| m < k <= i ==> !#[trigger] text::occurs_at(s, p, k),
    ensures
        reply::last_at(s, p, i) == Some(m),
    decreases i - m,
{
    if i > m {
        assert(!text::occurs_at(s, p, i));
        lemma_last_at(s, p, i - 1, m);
    }
}

proof fn lemma_not_at(s: Seq<char>, p: Seq<char>, i: int)
    requires
        forall|k: int| 0 <= k <= i ==> !#[trigger] text::occurs_at(s, p, k),
    ensures
        reply::last_at(s, p, i) is None,
    decreases i + 1,
{
    if i >= 0 {
        assert(!text::occurs_at(s, p, i));
        lemma_not_at(s, p, i - 1);
    }
}

/// A text that starts and ends with something else than white space has none to trim.
pub proof fn lemma_trimmed(s: Seq<char>)
    requires
        s.len() > 0,
        !text::white_space(s[0]),
        !text::white_space(s.last()),
    ensures
        text::trim(s) == s,
        text::trim_end(s) == s,
{
}

/// What stands in a fence comes out whole, apart from white space at its end. What
/// stands behind the fence goes.
pub proof fn fences_are_taken_off(tag: Seq<char>, inner: Seq<char>, tail: Seq<char>)
    requires
        !tag.contains('\n'),
        !tail.contains('`'),
        tail.len() > 0 ==> !text::white_space(tail.last()),
    ensures
        reply::without_fences(fenced(tag, inner, tail)) == text::trim_end(inner),
{
    reveal_strlit("```");
    reveal_strlit("\n");
    let s = fenced(tag, inner, tail);
    let n: int = 3 + tag.len() as int;
    assert(s[0] == '`');
    assert(s.last() == '`' || s.last() == tail.last());
    lemma_trimmed(s);
    assert forall|k: int| 0 <= k < n implies #[trigger] s[k] != '\n' by {
        if k >= 3 {
            assert(s[k] == tag[k - 3]);
            assert(tag.contains(tag[k - 3]));
        }
    }
    assert(s[n] == '\n');
    lemma_line_end_at(s, 0, n);
    assert(text::occurs_at(s, "```"@, 0)) by {
        assert(s.subrange(0, 3) =~= "```"@);
    }
    let rest = s.skip(n + 1);
    assert(rest =~= inner + "```"@ + tail);
    let m = inner.len() as int;
    assert(text::occurs_at(rest, "```"@, m)) by {
        assert(rest.subrange(m, m + 3) =~= "```"@);
    }
    assert forall|k: int| m < k <= rest.len() implies !#[trigger] text::occurs_at(
        rest,
        "```"@,
        k,
    ) by {
        if text::occurs_at(rest, "```"@, k) {
            assert(rest.subrange(k, k + 3)[2] == rest[k + 2]);
            assert(rest[k + 2] == tail[k + 2 - m - 3]);
            assert(tail.contains(tail[k + 2 - m - 3]));
        }
    }
    lemma_last_at(rest, "```"@, rest.len() as int, m);
    assert(rest.take(m) =~= inner);
}

/// A text without white space at its end, put in a fence on lines of its own, comes
/// out of it as it was.
pub proof fn fenced_texts_come_back(tag: Seq<char>, inner: Seq<char>)
    requires
        !tag.contains('\n'),
        text::trim_end(inner) == inner,
    ensures
        reply::without_fences("```"@ + tag + "\n"@ + inner + "\n```"@) == inner,
{
    reveal_strlit("```");
    reveal_strlit("\n");
    reveal_strlit("\n```");
    fences_are_taken_off(tag, inner + "\n"@, Seq::empty());
    assert(fenced(tag, inner + "\n"@, Seq::empty()) =~= "```"@ + tag + "\n"@ + inner + "\n```"@);
    assert((inner + "\n"@).drop_last() =~= inner);
    assert((inner + "\n"@).last() == '\n');
}

/// White space around a reply does not matter.
pub proof fn space_around_fences_goes(a: Seq<char>, s: Seq<char>, c: Seq<char>)
    requires
        text::blank(a),
        text::blank(c),
        !text::blank(s),
    ensures
        reply::without_fences(a + s + c) == reply::without_fences(s),
{
    reply_laws::lemma_trim_around(a, s, c);
}

/// A fence that is never closed loses its first line, and nothing else.
pub proof fn open_fences_lose_their_first_line(tag: Seq<char>, inner: Seq<char>)
    requires
        !tag.contains('\n'),
        inner.len() > 0,
        !text::white_space(inner.last()),
        !text::occurs(inner, "```"@),
    ensures
        reply::without_fences("```"@ + tag + "\n"@ + inner) == inner,
{
    reveal_strlit("```");
    reveal_strlit("\n");
    let s = "```"@ + tag + "\n"@ + inner;
    let n: int = 3 + tag.len() as int;
    assert(s[0] == '`');
    assert(s.last() == inner.last());
    lemma_trimmed(s);
    assert forall|k: int| 0 <= k < n implies #[trigger] s[k] != '\n' by {
        if k >= 3 {
            assert(s[k] == tag[k - 3]);
            assert(tag.contains(tag[k - 3]));
        }
    }
    assert(s[n] == '\n');
    lemma_line_end_at(s, 0, n);
    assert(text::occurs_at(s, "```"@, 0)) by {
        assert(s.subrange(0, 3) =~= "```"@);
    }
    assert(s.skip(n + 1) =~= inner);
    lemma_not_at(inner, "```"@, inner.len() as int);
}

/// A text that starts with no fence, or has but one line, is only trimmed.
pub proof fn other_texts_have_no_fence(s: Seq<char>)
    requires
        !text::occurs_at(text::trim(s), "```"@, 0) || !text::trim(s).contains('\n'),
    ensures
        reply::without_fences(s) == text::trim(s),
{
    let t = text::trim(s);
    reveal_strlit("```");
    if text::occurs_at(t, "```"@, 0) {
        assert forall|k: int| 0 <= k < t.len() implies #[trigger] t[k] != '\n' by {
            assert(t.contains(t[k]));
        }
        lemma_no_line_end(t, 0);
        assert(t[t.len() - 1] != '\n');
    }
}

/// A reply in a fence, with no talk around it or in it, is cleaned to what stands in
/// the fence: all lines of it.
pub proof fn fenced_replies_are_unwrapped(tag: Seq<char>, inner: Seq<char>)
    requires
        !tag.contains('\n'),
        inner.len() > 0,
        text::trim(inner) == inner,
        reply_laws::no_talk_around(inner),
        reply_laws::no_talk_around("```"@ + tag + "\n"@ + inner + "\n```"@),
    ensures
        reply::cleaned("```"@ + tag + "\n"@ + inner + "\n```"@) == inner,
{
    reveal_strlit("```");
    reveal_strlit("\n```");
    let s = "```"@ + tag + "\n"@ + inner + "\n```"@;
    text::lemma_trim(inner);
    assert(s[0] == '`' && s.last() == '`');
    lemma_trimmed(s);
    reply_laws::other_texts_are_only_trimmed(s);
    lemma_trimmed(inner);
    fenced_texts_come_back(tag, inner);
    reply_laws::other_texts_are_only_trimmed(inner);
}

/// No talk is left around the content of a cleaned reply, whether it stood around a
/// fence or in it.
pub proof fn cleaned_replies_have_no_talk_around(s: Seq<char>)
    requires
        !reply_laws::all_chatter(reply::cleaned(s)),
    ensures
        reply_laws::no_talk_around(reply::cleaned(s)),
{
    let y = reply::without_fences(reply::without_chatter(s));
    if reply_laws::all_chatter(y) {
        reply_laws::other_texts_are_only_trimmed(y);
        if text::blank(y) {
            text::lemma_trim(y);
            reply::lemma_spans(text::trim(y), 0);
            let none = reply::spans(text::trim(y), 0);
            assert(reply_laws::all_chatter(text::trim(y))) by {
                if none.len() > 0 {
                    assert(none[0].1 <= text::trim(y).len());
                }
            }
        } else {
            paragraph_laws::trimming_keeps_paragraphs(y);
            let ys = reply::spans(y, 0);
            let ts = reply::spans(text::trim(y), 0);
            assert forall|k: int| 0 <= k < ts.len() implies reply::chatter(
                reply::paragraph(text::trim(y), #[trigger] ts[k]),
            ) by {
                assert(reply::chatter(reply::paragraph(y, ys[k])));
            }
        }
    } else {
        reply_laws::talk_around_goes(y);
    }
}

/// Talk around a reply does not matter: without it, the reply is cleaned to the same.
/// So a fence is found behind talk as well.
pub proof fn talk_around_a_reply_does_not_matter(s: Seq<char>)
    ensures
        reply::cleaned(reply::without_chatter(s)) == reply::cleaned(s),
{
    reply_laws::stripping_twice_is_stripping_once(s);
}

/// A reply with no talk around it and no fence takes the place of the source, with
/// the white space of the source around it.
pub proof fn replies_take_the_place_of_the_source(
    a: Seq<char>,
    m: Seq<char>,
    c: Seq<char>,
    answer: Seq<char>,
)
    requires
        text::blank(a),
        text::blank(c),
        m.len() > 0,
        !text::white_space(m[0]),
        !text::white_space(m.last()),
        answer.len() > 0,
        text::trim(answer) == answer,
        !text::occurs_at(answer, "```"@, 0),
        reply_laws::no_talk_around(answer),
    ensures
        reply::finish(a + m + c, answer) == Some(a + answer + c),
{
    let s = a + m + c;
    reply_laws::clean_replies_stay(answer);
    text::lemma_trim(answer);
    text_laws::trimming_takes_white_space_alone(a, m, c);
    assert(reply::leading_space(s) =~= a);
    assert(reply::trailing_space(s) =~= c);
}

/// A reply of which nothing is left is refused, and an empty one is such a reply; one
/// that is taken leaves more than white space.
pub proof fn empty_replies_are_refused(content: Seq<char>, answer: Seq<char>)
    ensures
        text::blank(answer) ==> reply::finish(content, answer) is None,
        reply::finish(content, answer) matches Some(x) ==> !text::blank(x) && text::trim(x)
            == text::trim(reply::cleaned(answer)),
        reply::finish(content, answer) is None <==> text::trim(reply::cleaned(answer)).len() == 0,
{
    let x = reply::cleaned(answer);
    text::lemma_trim(x);
    if !text::blank(x) {
        reply_laws::source_boundaries_are_kept(content, answer);
        text::lemma_trim(reply::finished(content, answer));
    }
    if text::blank(answer) {
        lemma_blank_stripped(answer);
        let a = reply::without_chatter(answer);
        text::lemma_trim(a);
        reveal_strlit("```");
        assert(!text::occurs_at(text::trim(a), "```"@, 0));
        other_texts_have_no_fence(a);
        lemma_blank_stripped(reply::without_fences(a));
    }
}

/// Nothing comes of white space alone.
proof fn lemma_blank_stripped(s: Seq<char>)
    requires
        text::blank(s),
    ensures
        text::blank(reply::without_chatter(s)),
{
    reply_laws::only_chatter_goes(s);
    let (a, b) = choose|a: int, b: int| #[trigger] reply_laws::leaves_piece(s, a, b);
    let r = reply::without_chatter(s);
    assert forall|i: int| 0 <= i < r.len() implies text::white_space(#[trigger] r[i]) by {
        assert(r[i] == s[a + i]);
    }
}

} // verus!
