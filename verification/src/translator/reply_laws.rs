//! What cleaning a reply keeps.

use crate::text;
use crate::translator::{paragraph_laws, reply};
use vstd::prelude::*;

verus! {

proof fn lemma_first_content(s: Seq<char>, ps: Seq<(int, int)>, k: int)
    requires
        0 <= k <= ps.len(),
    ensures
        k <= reply::first_content(s, ps, k) <= ps.len(),
        forall|j: int|
            k <= j < reply::first_content(s, ps, k) ==> reply::chatter(
                reply::paragraph(s, #[trigger] ps[j]),
            ),
    decreases ps.len() - k,
{
    if k < ps.len() && reply::chatter(reply::paragraph(s, ps[k])) {
        lemma_first_content(s, ps, k + 1);
    }
}

proof fn lemma_last_content(s: Seq<char>, ps: Seq<(int, int)>, lo: int, k: int)
    requires
        0 <= lo <= k <= ps.len(),
    ensures
        lo <= reply::last_content(s, ps, lo, k) <= k,
        forall|j: int|
            reply::last_content(s, ps, lo, k) <= j < k ==> reply::chatter(
                reply::paragraph(s, #[trigger] ps[j]),
            ),
    decreases k - lo,
{
    if k > lo && reply::chatter(reply::paragraph(s, ps[k - 1])) {
        lemma_last_content(s, ps, lo, k - 1);
    }
}

/// Trimming leaves something of a text that is not blank.
proof fn lemma_trim_not_blank(s: Seq<char>)
    requires
        !text::blank(s),
    ensures
        text::trim(s).len() > 0,
        !text::blank(text::trim(s)),
{
    text::lemma_trim(s);
    assert(!text::white_space(text::trim(s)[0]));
}

/// Taking chatter away never empties a reply that holds something.
pub proof fn chatter_never_empties(s: Seq<char>)
    requires
        !text::blank(s),
    ensures
        !text::blank(reply::without_chatter(s)),
{
    let ps = reply::spans(s, 0);
    let lo = reply::first_content(s, ps, 0);
    let hi = reply::last_content(s, ps, lo, ps.len() as int);
    reply::lemma_spans(s, 0);
    lemma_first_content(s, ps, 0);
    lemma_last_content(s, ps, lo, ps.len() as int);
    if lo >= hi {
        lemma_trim_not_blank(s);
    } else {
        let p = ps[lo];
        let part = reply::paragraph(s, p);
        if lo < hi - 1 {
            assert(ps[lo].1 <= ps[hi - 1].0);
        }
        assert(ps[hi - 1].0 < ps[hi - 1].1);
        let kept = s.subrange(p.0, ps[hi - 1].1);
        let j = choose|j: int| 0 <= j < part.len() && !text::white_space(#[trigger] part[j]);
        assert(kept[j] == part[j]);
        lemma_trim_not_blank(kept);
    }
}

/// A paragraph that is no chatter stays, with all that stands between it and
/// the other paragraphs that are none.
pub proof fn content_survives(s: Seq<char>, k: int)
    requires
        0 <= k < reply::spans(s, 0).len(),
        !reply::chatter(reply::paragraph(s, reply::spans(s, 0)[k])),
    ensures
        exists|a: int, b: int|
            0 <= a <= reply::spans(s, 0)[k].0 && reply::spans(s, 0)[k].1 <= b <= s.len()
                && reply::without_chatter(s) == text::trim(#[trigger] s.subrange(a, b)),
{
    let ps = reply::spans(s, 0);
    let lo = reply::first_content(s, ps, 0);
    let hi = reply::last_content(s, ps, lo, ps.len() as int);
    reply::lemma_spans(s, 0);
    lemma_first_content(s, ps, 0);
    lemma_last_content(s, ps, lo, ps.len() as int);
    assert(lo <= k) by {
        if k < lo {
            assert(reply::chatter(reply::paragraph(s, ps[k])));
        }
    }
    assert(k < hi) by {
        if hi <= k {
            assert(reply::chatter(reply::paragraph(s, ps[k])));
        }
    }
    if lo < k {
        assert(ps[lo].1 <= ps[k].0);
    }
    if k < hi - 1 {
        assert(ps[k].1 <= ps[hi - 1].0);
    }
    assert(ps[lo].0 < ps[lo].1);
    assert(ps[hi - 1].0 < ps[hi - 1].1);
    assert(reply::without_chatter(s) == text::trim(s.subrange(ps[lo].0, ps[hi - 1].1)));
}

/// A paragraph with LaTeX syntax is never taken for chatter.
pub proof fn syntax_is_content(para: Seq<char>)
    requires
        reply::has_syntax(para),
    ensures
        !reply::chatter(para),
{
    let c = if para.contains('\\') {
        '\\'
    } else if para.contains('{') {
        '{'
    } else if para.contains('}') {
        '}'
    } else {
        '$'
    };
    lemma_trim_keeps(para, c);
}

/// Trimming drops no character other than white space.
proof fn lemma_trim_keeps(s: Seq<char>, c: char)
    requires
        s.contains(c),
        !text::white_space(c),
    ensures
        text::trim(s).contains(c),
{
    text::lemma_trim_start(s);
    let a = text::trim_start(s);
    text::lemma_trim_end(a);
    let t = text::trim(s);
    let i = choose|i: int| 0 <= i < s.len() && s[i] == c;
    let k = s.len() - a.len();
    if i < k {
        assert(s.take(k)[i] == c);
    }
    assert(a[i - k] == c);
    if i - k >= t.len() {
        assert(a.skip(t.len() as int)[i - k - t.len()] == c);
    }
    assert(t[i - k] == c);
}

// ---------------------------------------------------------------- stripping

/// Every paragraph is chatter.
pub open spec fn all_chatter(s: Seq<char>) -> bool {
    forall|k: int|
        0 <= k < reply::spans(s, 0).len() ==> reply::chatter(
            reply::paragraph(s, #[trigger] reply::spans(s, 0)[k]),
        )
}

/// The first paragraph that is no chatter, and the last one, if there is any.
proof fn lemma_limits(s: Seq<char>) -> (r: (int, int))
    ensures
        ({
            let ps = reply::spans(s, 0);
            let (lo, hi) = r;
            &&& lo == reply::first_content(s, ps, 0)
            &&& hi == reply::last_content(s, ps, lo, ps.len() as int)
            &&& 0 <= lo <= hi <= ps.len()
            &&& lo == hi <==> all_chatter(s)
            &&& lo < hi ==> !reply::chatter(reply::paragraph(s, ps[lo])) && !reply::chatter(
                reply::paragraph(s, ps[hi - 1]),
            )
            &&& forall|k: int|
                (0 <= k < lo || hi <= k < ps.len()) ==> reply::chatter(
                    reply::paragraph(s, #[trigger] ps[k]),
                )
        }),
{
    let ps = reply::spans(s, 0);
    let lo = reply::first_content(s, ps, 0);
    lemma_first_content(s, ps, 0);
    let hi = reply::last_content(s, ps, lo, ps.len() as int);
    lemma_last_content(s, ps, lo, ps.len() as int);
    lemma_first_stops(s, ps, 0);
    lemma_last_stops(s, ps, lo, ps.len() as int);
    if lo < ps.len() {
        assert(!reply::chatter(reply::paragraph(s, ps[lo])));
        if hi == lo {
            assert(reply::chatter(reply::paragraph(s, ps[lo])));
        }
    }
    (lo, hi)
}

proof fn lemma_first_stops(s: Seq<char>, ps: Seq<(int, int)>, k: int)
    requires
        0 <= k <= ps.len(),
    ensures
        reply::first_content(s, ps, k) < ps.len() ==> !reply::chatter(
            reply::paragraph(s, ps[reply::first_content(s, ps, k)]),
        ),
    decreases ps.len() - k,
{
    if k < ps.len() && reply::chatter(reply::paragraph(s, ps[k])) {
        lemma_first_stops(s, ps, k + 1);
    }
}

proof fn lemma_last_stops(s: Seq<char>, ps: Seq<(int, int)>, lo: int, k: int)
    requires
        0 <= lo <= k <= ps.len(),
    ensures
        reply::last_content(s, ps, lo, k) > lo ==> !reply::chatter(
            reply::paragraph(s, ps[reply::last_content(s, ps, lo, k) - 1]),
        ),
    decreases k - lo,
{
    if k > lo && reply::chatter(reply::paragraph(s, ps[k - 1])) {
        lemma_last_stops(s, ps, lo, k - 1);
    }
}

/// Where all paragraphs are chatter, or neither the first nor the last is, the text
/// is only trimmed.
pub proof fn other_texts_are_only_trimmed(s: Seq<char>)
    requires
        all_chatter(s) || no_talk_around(s),
    ensures
        reply::without_chatter(s) == text::trim(s),
{
    let limits = lemma_limits(s);
    if !all_chatter(s) {
        assert(reply::spans(s, 0).len() > 0);
        lemma_only_trimmed(s);
    }
}

/// The piece between `a` and `b` is all that trimming leaves of the piece between
/// `from` and `to`: what is no white space there lies in it.
spec fn trimmed_piece(s: Seq<char>, from: int, to: int, a: int, b: int) -> bool {
    &&& from <= a <= b <= to
    &&& text::trim(s.subrange(from, to)) == s.subrange(a, b)
    &&& forall|j: int| from <= j < to && !text::white_space(#[trigger] s[j]) ==> a <= j < b
}

proof fn lemma_trimmed_piece(s: Seq<char>, from: int, to: int) -> (r: (int, int))
    requires
        0 <= from <= to <= s.len(),
    ensures
        trimmed_piece(s, from, to, r.0, r.1),
{
    let x = s.subrange(from, to);
    let y = text::trim_start(x);
    let t = text::trim(x);
    text::lemma_trim(x);
    text::lemma_trim_start(x);
    text::lemma_trim_end(y);
    let n = x.len() - y.len();
    let a = from + n;
    let b = a + t.len();
    assert(t =~= s.subrange(a, b));
    assert forall|j: int| from <= j < to && !text::white_space(#[trigger] s[j]) implies a <= j
        < b by {
        if j < a {
            assert(x.take(n)[j - from] == s[j]);
        }
        if j >= b {
            assert(y.skip(t.len() as int)[j - b] == s[j]);
        }
    }
    (a, b)
}

/// What lies between the first paragraph that stays and the last one; all of the
/// text where none does.
spec fn kept_piece(s: Seq<char>, lo: int, hi: int) -> (int, int) {
    let ps = reply::spans(s, 0);
    if lo < hi {
        (ps[lo].0, ps[hi - 1].1)
    } else {
        (0, s.len() as int)
    }
}

/// A paragraph that stays does not lie outside of what is left.
proof fn lemma_kept_inside(s: Seq<char>, lo: int, hi: int, a: int, b: int, k: int)
    requires
        0 <= lo <= k < hi <= reply::spans(s, 0).len(),
        trimmed_piece(s, kept_piece(s, lo, hi).0, kept_piece(s, lo, hi).1, a, b),
    ensures
        a < reply::spans(s, 0)[k].1,
        reply::spans(s, 0)[k].0 < b,
{
    let ps = reply::spans(s, 0);
    reply::lemma_spans(s, 0);
    let part = reply::paragraph(s, ps[k]);
    let j = choose|j: int| 0 <= j < part.len() && !text::white_space(#[trigger] part[j]);
    if lo < k {
        assert(ps[lo].1 <= ps[k].0);
    }
    if k < hi - 1 {
        assert(ps[k].1 <= ps[hi - 1].0);
    }
    assert(s[ps[k].0 + j] == part[j]);
}

/// Stripping leaves the piece between `a` and `b`, and every paragraph that lies
/// outside of that piece is chatter.
pub open spec fn leaves_piece(s: Seq<char>, a: int, b: int) -> bool {
    &&& 0 <= a <= b <= s.len()
    &&& reply::without_chatter(s) == s.subrange(a, b)
    &&& forall|k: int|
        0 <= k < reply::spans(s, 0).len() && ((#[trigger] reply::spans(s, 0)[k]).1 <= a || b
            <= reply::spans(s, 0)[k].0) ==> reply::chatter(
            reply::paragraph(s, reply::spans(s, 0)[k]),
        )
}

proof fn lemma_kept_piece(s: Seq<char>, lo: int, hi: int)
    requires
        0 <= lo <= hi <= reply::spans(s, 0).len(),
    ensures
        0 <= kept_piece(s, lo, hi).0 <= kept_piece(s, lo, hi).1 <= s.len(),
{
    let ps = reply::spans(s, 0);
    reply::lemma_spans(s, 0);
    if lo < hi {
        assert(0 <= ps[lo].0 < ps[lo].1 <= s.len());
        assert(0 <= ps[hi - 1].0 < ps[hi - 1].1 <= s.len());
        if lo < hi - 1 {
            assert(ps[lo].1 <= ps[hi - 1].0);
        }
    }
}

proof fn lemma_trim_again(x: Seq<char>)
    ensures
        text::trim(text::trim(x)) == text::trim(x),
{
    text::lemma_trim(x);
}

proof fn lemma_stripped_piece(s: Seq<char>) -> (r: (int, int))
    ensures
        0 <= r.0 <= r.1 <= reply::spans(s, 0).len(),
        reply::without_chatter(s) == text::trim(
            s.subrange(kept_piece(s, r.0, r.1).0, kept_piece(s, r.0, r.1).1),
        ),
        forall|k: int|
            (0 <= k < r.0 || r.1 <= k < reply::spans(s, 0).len()) ==> reply::chatter(
                reply::paragraph(s, #[trigger] reply::spans(s, 0)[k]),
            ),
{
    let r = lemma_limits(s);
    assert(s.subrange(0, s.len() as int) =~= s);
    r
}

/// What stripping leaves is a piece of the text, with no white space at its ends,
/// and every paragraph that lies outside of the piece is chatter.
pub proof fn only_chatter_goes(s: Seq<char>)
    ensures
        text::trim(reply::without_chatter(s)) == reply::without_chatter(s),
        exists|a: int, b: int| #[trigger] leaves_piece(s, a, b),
{
    let ps = reply::spans(s, 0);
    let (lo, hi) = lemma_stripped_piece(s);
    let (from, to) = kept_piece(s, lo, hi);
    lemma_kept_piece(s, lo, hi);
    let (a, b) = lemma_trimmed_piece(s, from, to);
    lemma_trim_again(s.subrange(from, to));
    assert forall|k: int|
        0 <= k < ps.len() && ((#[trigger] ps[k]).1 <= a || b <= ps[k].0) implies reply::chatter(
        reply::paragraph(s, ps[k]),
    ) by {
        if lo <= k < hi {
            lemma_kept_inside(s, lo, hi, a, b, k);
        }
    }
    assert(leaves_piece(s, a, b));
}

/// Stripping twice is stripping once.
pub proof fn stripping_twice_is_stripping_once(s: Seq<char>)
    ensures
        reply::without_chatter(reply::without_chatter(s)) == reply::without_chatter(s),
{
    let ps = reply::spans(s, 0);
    let r = reply::without_chatter(s);
    only_chatter_goes(s);
    if text::blank(s) {
        text::lemma_trim(s);
        let limits = lemma_limits(s);
        reply::lemma_spans(s, 0);
        if ps.len() > 0 {
            let part = reply::paragraph(s, ps[0]);
            let j = choose|j: int| 0 <= j < part.len() && !text::white_space(#[trigger] part[j]);
            assert(s[ps[0].0 + j] == part[j]);
        }
        assert(r.len() == 0);
        reply::lemma_spans(r, 0);
        if reply::spans(r, 0).len() > 0 {
            assert(reply::spans(r, 0)[0].1 <= r.len());
        }
        assert(all_chatter(r));
        other_texts_are_only_trimmed(r);
    } else {
        let (lo, hi) = lemma_limits(s);
        reply::lemma_spans(s, 0);
        if lo == hi {
            paragraph_laws::trimming_keeps_paragraphs(s);
            let ts = reply::spans(r, 0);
            assert forall|k: int| 0 <= k < ts.len() implies reply::chatter(
                reply::paragraph(r, #[trigger] ts[k]),
            ) by {
                assert(reply::chatter(reply::paragraph(s, ps[k])));
            }
            assert(all_chatter(r));
            other_texts_are_only_trimmed(r);
        } else {
            let x = s.subrange(ps[lo].0, ps[hi - 1].1);
            if lo < hi - 1 {
                assert(ps[lo].1 <= ps[hi - 1].0);
            }
            paragraph_laws::lemma_between(s, lo, hi);
            let part = reply::paragraph(s, ps[lo]);
            let j = choose|j: int| 0 <= j < part.len() && !text::white_space(#[trigger] part[j]);
            assert(x[j] == part[j]);
            assert(no_talk_around(x));
            lemma_still_no_talk(x);
            other_texts_are_only_trimmed(r);
        }
    }
}

/// Where a reply holds more than talk, no talk is left before the content or behind
/// it: the first paragraph that is left is content, and so is the last.
pub proof fn talk_around_goes(s: Seq<char>)
    requires
        !all_chatter(s),
    ensures
        reply::spans(reply::without_chatter(s), 0).len() > 0,
        no_talk_around(reply::without_chatter(s)),
{
    let ps = reply::spans(s, 0);
    let (lo, hi) = lemma_limits(s);
    reply::lemma_spans(s, 0);
    let x = s.subrange(ps[lo].0, ps[hi - 1].1);
    if lo < hi - 1 {
        assert(ps[lo].1 <= ps[hi - 1].0);
    }
    paragraph_laws::lemma_between(s, lo, hi);
    let part = reply::paragraph(s, ps[lo]);
    let j = choose|j: int| 0 <= j < part.len() && !text::white_space(#[trigger] part[j]);
    assert(x[j] == part[j]);
    assert(no_talk_around(x));
    lemma_still_no_talk(x);
    lemma_trim_not_blank(x);
    lemma_has_paragraph(text::trim(x));
}

// ---------------------------------------------------------------- clean replies

/// Neither the first nor the last paragraph is chatter.
pub open spec fn no_talk_around(s: Seq<char>) -> bool {
    &&& !reply::chatter(reply::paragraph(s, reply::spans(s, 0)[0]))
    &&& !reply::chatter(reply::paragraph(s, reply::spans(s, 0).last()))
}

/// A trimmed reply that starts with no fence, and neither starts nor ends with
/// chatter, stays as it is.
pub proof fn clean_replies_stay(s: Seq<char>)
    requires
        s.len() > 0,
        text::trim(s) == s,
        !text::occurs_at(s, "```"@, 0),
        no_talk_around(s),
    ensures
        reply::cleaned(s) == s,
{
    text::lemma_trim(s);
    lemma_has_paragraph(s);
    lemma_only_trimmed(s);
}

// ---------------------------------------------------------------- boundaries

/// White space put in front of a text that starts with none is trimmed away again.
proof fn lemma_trim_start_behind(a: Seq<char>, m: Seq<char>)
    requires
        text::blank(a),
        m.len() > 0,
        !text::white_space(m[0]),
    ensures
        text::trim_start(a + m) == m,
    decreases a.len(),
{
    if a.len() == 0 {
        assert(a + m =~= m);
    } else {
        assert((a + m)[0] == a[0]);
        assert((a + m).skip(1) =~= a.skip(1) + m);
        assert(text::blank(a.skip(1))) by {
            assert forall|i: int| 0 <= i < a.len() - 1 implies text::white_space(
                #[trigger] a.skip(1)[i],
            ) by {
                assert(a.skip(1)[i] == a[i + 1]);
            }
        }
        lemma_trim_start_behind(a.skip(1), m);
    }
}

/// White space put behind a text that ends with none is trimmed away again.
proof fn lemma_trim_end_before(m: Seq<char>, c: Seq<char>)
    requires
        text::blank(c),
        m.len() > 0,
        !text::white_space(m.last()),
    ensures
        text::trim_end(m + c) == m,
    decreases c.len(),
{
    if c.len() == 0 {
        assert(m + c =~= m);
    } else {
        assert((m + c).last() == c.last());
        assert((m + c).drop_last() =~= m + c.drop_last());
        assert(c[c.len() - 1] == c.last());
        assert(text::blank(c.drop_last())) by {
            assert forall|i: int| 0 <= i < c.len() - 1 implies text::white_space(
                #[trigger] c.drop_last()[i],
            ) by {
                assert(c.drop_last()[i] == c[i]);
            }
        }
        lemma_trim_end_before(m, c.drop_last());
    }
}

/// A translation starts and ends with the white space of its source, and holds
/// the cleaned reply in between.
pub proof fn source_boundaries_are_kept(content: Seq<char>, answer: Seq<char>)
    requires
        !text::blank(reply::cleaned(answer)),
    ensures
        ({
            let r = reply::finished(content, answer);
            &&& reply::leading_space(r) == reply::leading_space(content)
            &&& reply::trailing_space(r) == reply::trailing_space(content)
            &&& text::trim(r) == text::trim(reply::cleaned(answer))
        }),
{
    let m = text::trim(reply::cleaned(answer));
    let a = reply::leading_space(content);
    let c = reply::trailing_space(content);
    let r = reply::finished(content, answer);
    text::lemma_trim_start(content);
    text::lemma_trim_end(content);
    text::lemma_trim(reply::cleaned(answer));
    assert(r =~= a + (m + c));
    lemma_trim_start_behind(a, m + c);
    assert((a + m).last() == m.last());
    lemma_trim_end_before(a + m, c);
    lemma_trim_end_before(m, c);
    assert(r.take(r.len() - (m + c).len()) =~= a);
    assert(r.skip((a + m).len() as int) =~= c);
}

/// Blank lines before the first line that is not blank are white space only.
proof fn lemma_blank_before(s: Seq<char>, i: int)
    requires
        0 <= i <= s.len(),
    ensures
        i <= reply::next_filled(s, i) <= s.len(),
        text::blank(s.subrange(i, reply::next_filled(s, i))),
    decreases s.len() - i,
{
    reply::lemma_next_filled(s, i);
    if i < s.len() && reply::blank_line(s, i) {
        reply::lemma_line_end(s, i);
        let e = reply::line_end(s, i);
        lemma_blank_before(s, e);
        let a = reply::next_filled(s, i);
        let line = s.subrange(i, e);
        let rest = s.subrange(e, a);
        assert forall|k: int| 0 <= k < a - i implies text::white_space(
            #[trigger] s.subrange(i, a)[k],
        ) by {
            if k < e - i {
                assert(line[k] == s[i + k]);
            } else {
                assert(rest[k - (e - i)] == s[i + k]);
            }
        }
    }
}

/// What follows the last paragraph is white space only.
proof fn lemma_blank_behind(s: Seq<char>, i: int)
    requires
        0 <= i <= s.len(),
        reply::spans(s, i).len() > 0,
    ensures
        0 <= reply::spans(s, i).last().1 <= s.len(),
        text::blank(s.skip(reply::spans(s, i).last().1)),
    decreases s.len() - i,
{
    reply::lemma_next_filled(s, i);
    let a = reply::next_filled(s, i);
    reply::lemma_line_end(s, a);
    reply::lemma_next_blank(s, a);
    let b = reply::next_blank(s, a);
    let rest = reply::spans(s, b);
    assert(reply::spans(s, i) == seq![(a, b)] + rest);
    if rest.len() > 0 {
        lemma_blank_behind(s, b);
        assert((seq![(a, b)] + rest).last() == rest.last());
    } else {
        lemma_blank_before(s, b);
        assert((seq![(a, b)] + rest).last() == (a, b));
        assert(s.skip(b) =~= s.subrange(b, s.len() as int));
    }
}

/// White space around a text that is not blank is trimmed away with its own.
pub proof fn lemma_trim_around(a: Seq<char>, m: Seq<char>, c: Seq<char>)
    requires
        text::blank(a),
        text::blank(c),
        !text::blank(m),
    ensures
        text::trim(a + m + c) == text::trim(m),
{
    text::lemma_trim(m);
    text::lemma_trim_start(m);
    text::lemma_trim_end(text::trim_start(m));
    let t = text::trim(m);
    let n = m.len() - text::trim_start(m).len();
    let before = a + m.take(n);
    let behind = m.skip(n + t.len()) + c;
    assert(a + m + c =~= before + (t + behind));
    assert(text::blank(before)) by {
        assert forall|i: int| 0 <= i < before.len() implies text::white_space(
            #[trigger] before[i],
        ) by {
            if i < a.len() {
                assert(before[i] == a[i]);
            } else {
                assert(before[i] == m.take(n)[i - a.len()]);
            }
        }
    }
    let own = text::trim_start(m).skip(t.len() as int);
    assert(own =~= m.skip(n + t.len()));
    assert(text::blank(behind)) by {
        assert forall|i: int| 0 <= i < behind.len() implies text::white_space(
            #[trigger] behind[i],
        ) by {
            if i < own.len() {
                assert(behind[i] == own[i]);
            } else {
                assert(behind[i] == c[i - own.len()]);
            }
        }
    }
    lemma_trim_start_behind(before, t + behind);
    lemma_trim_end_before(t, behind);
}

/// A text that neither starts nor ends with chatter is only trimmed.
proof fn lemma_only_trimmed(s: Seq<char>)
    requires
        reply::spans(s, 0).len() > 0,
        no_talk_around(s),
    ensures
        reply::without_chatter(s) == text::trim(s),
{
    let ps = reply::spans(s, 0);
    reply::lemma_spans(s, 0);
    assert(reply::first_content(s, ps, 0) == 0);
    assert(ps[ps.len() - 1] == ps.last());
    assert(reply::last_content(s, ps, 0, ps.len() as int) == ps.len());
    lemma_blank_before(s, 0);
    lemma_blank_behind(s, 0);
    assert(ps[0].0 == reply::next_filled(s, 0));
    let from = ps[0].0;
    let to = ps.last().1;
    if ps.len() > 1 {
        assert(ps[0].1 <= ps[ps.len() - 1].0);
    }
    let kept = s.subrange(from, to);
    let part = reply::paragraph(s, ps[0]);
    let j = choose|j: int| 0 <= j < part.len() && !text::white_space(#[trigger] part[j]);
    assert(kept[j] == part[j]);
    assert(s =~= s.subrange(0, from) + kept + s.skip(to));
    lemma_trim_around(s.subrange(0, from), kept, s.skip(to));
}

/// A text that is not blank has a paragraph.
proof fn lemma_has_paragraph(s: Seq<char>)
    requires
        !text::blank(s),
    ensures
        reply::spans(s, 0).len() > 0,
{
    lemma_blank_before(s, 0);
    if reply::next_filled(s, 0) >= s.len() {
        assert(s.subrange(0, s.len() as int) =~= s);
    }
}

/// Trimming a text leaves no talk around it where there was none.
proof fn lemma_still_no_talk(s: Seq<char>)
    requires
        !text::blank(s),
        no_talk_around(s),
    ensures
        no_talk_around(text::trim(s)),
{
    let ps = reply::spans(s, 0);
    let ts = reply::spans(text::trim(s), 0);
    lemma_has_paragraph(s);
    paragraph_laws::trimming_keeps_paragraphs(s);
    assert(ps[0] == ps[0] && ts[0] == ts[0]);
    assert(ps[ps.len() - 1] == ps.last() && ts[ts.len() - 1] == ts.last());
}

/// A reply that repeats its source gives the source back, where the source starts
/// with no fence and neither starts nor ends with chatter.
pub proof fn echoed_source_comes_back(content: Seq<char>)
    requires
        !text::blank(content),
        no_talk_around(content),
        !text::occurs_at(text::trim(content), "```"@, 0),
    ensures
        reply::finished(content, content) == content,
{
    let t = text::trim(content);
    text::lemma_trim(content);
    lemma_trim_not_blank(content);
    lemma_still_no_talk(content);
    lemma_has_paragraph(content);
    lemma_has_paragraph(t);
    lemma_only_trimmed(content);
    lemma_only_trimmed(t);
    assert(text::trim(t) == t);
    assert(reply::cleaned(content) == t);
    text::lemma_trim_start(content);
    text::lemma_trim_end(content);
    lemma_same_end(content);
    assert(reply::finished(content, content) =~= content);
}

/// Trimming the front first, or the end only, leaves the text up to the same place.
proof fn lemma_same_end(s: Seq<char>)
    requires
        !text::blank(s),
    ensures
        s.len() - text::trim_start(s).len() + text::trim(s).len() == text::trim_end(s).len(),
{
    text::lemma_trim(s);
    text::lemma_trim_end(s);
    text::lemma_trim_end(text::trim_start(s));
    let k = s.len() - text::trim_start(s).len();
    let m = text::trim(s);
    let b = text::trim_end(s).len() as int;
    text::lemma_trim_start(s);
    if b > k + m.len() {
        assert(text::trim_end(s).last() == s[b - 1]);
        assert(text::trim_start(s).skip(m.len() as int)[b - 1 - k - m.len()] == s[b - 1]);
    }
    if b < k + m.len() {
        assert(s.skip(b)[k + m.len() - 1 - b] == m.last());
    }
}

} // verus!
