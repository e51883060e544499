//! Paragraphs, and what cutting and trimming a text does to them.

use crate::text;
use crate::translator::{reply, reply_laws};
use vstd::prelude::*;

verus! {

/// The two texts have the same paragraphs, apart from white space around each.
pub open spec fn same_paragraphs(x: Seq<char>, y: Seq<char>) -> bool {
    &&& reply::spans(x, 0).len() == reply::spans(y, 0).len()
    &&& forall|k: int|
        #![trigger reply::spans(x, 0)[k]]
        #![trigger reply::spans(y, 0)[k]]
        0 <= k < reply::spans(x, 0).len() ==> text::trim(
            reply::paragraph(x, reply::spans(x, 0)[k]),
        ) == text::trim(reply::paragraph(y, reply::spans(y, 0)[k]))
}

// ---------------------------------------------------------------- suffixes

/// Spans further on in a text.
spec fn shifted(ps: Seq<(int, int)>, d: int) -> Seq<(int, int)> {
    ps.map_values(|p: (int, int)| (p.0 + d, p.1 + d))
}

proof fn lemma_line_end_suffix(s: Seq<char>, d: int, i: int)
    requires
        0 <= d <= s.len(),
        0 <= i,
    ensures
        reply::line_end(s, d + i) == d + reply::line_end(s.skip(d), i),
    decreases s.len() - d - i,
{
    if d + i < s.len() {
        assert(s.skip(d)[i] == s[d + i]);
        if s[d + i] != '\n' {
            lemma_line_end_suffix(s, d, i + 1);
        }
    }
}

proof fn lemma_blank_suffix(s: Seq<char>, d: int, i: int)
    requires
        0 <= d <= s.len(),
        0 <= i < s.len() - d,
    ensures
        reply::blank_line(s, d + i) == reply::blank_line(s.skip(d), i),
{
    lemma_line_end_suffix(s, d, i);
    reply::lemma_line_end(s, d + i);
    assert(s.subrange(d + i, reply::line_end(s, d + i)) =~= s.skip(d).subrange(
        i,
        reply::line_end(s.skip(d), i),
    ));
}

proof fn lemma_next_suffix(s: Seq<char>, d: int, i: int)
    requires
        0 <= d <= s.len(),
        0 <= i <= s.len() - d,
    ensures
        reply::next_filled(s, d + i) == d + reply::next_filled(s.skip(d), i),
        reply::next_blank(s, d + i) == d + reply::next_blank(s.skip(d), i),
    decreases s.len() - d - i,
{
    if i < s.len() - d {
        lemma_blank_suffix(s, d, i);
        lemma_line_end_suffix(s, d, i);
        reply::lemma_line_end(s, d + i);
        lemma_next_suffix(s, d, reply::line_end(s.skip(d), i));
    }
}

/// The paragraphs from a place on are those of what follows.
proof fn lemma_spans_suffix(s: Seq<char>, d: int, i: int)
    requires
        0 <= d <= s.len(),
        0 <= i <= s.len() - d,
    ensures
        reply::spans(s, d + i) == shifted(reply::spans(s.skip(d), i), d),
    decreases s.len() - d - i,
{
    let x = s.skip(d);
    lemma_next_suffix(s, d, i);
    reply::lemma_next_filled(x, i);
    let a = reply::next_filled(x, i);
    if a < x.len() {
        reply::lemma_line_end(x, a);
        reply::lemma_next_blank(x, a);
        lemma_next_suffix(s, d, a);
        let b = reply::next_blank(x, a);
        lemma_spans_suffix(s, d, b);
        let rest = reply::spans(x, b);
        assert(reply::spans(x, i) == seq![(a, b)] + rest);
        assert(reply::spans(s, d + i) == seq![(d + a, d + b)] + shifted(rest, d));
        assert(shifted(seq![(a, b)] + rest, d) =~= seq![(d + a, d + b)] + shifted(rest, d));
    } else {
        assert(shifted(reply::spans(x, i), d) =~= reply::spans(s, d + i));
    }
}

/// The paragraphs from one of them on are those from its start on.
proof fn lemma_spans_tail(s: Seq<char>, i: int, k: int)
    requires
        0 <= i <= s.len(),
        0 <= k < reply::spans(s, i).len(),
    ensures
        reply::spans(s, reply::spans(s, i)[k].0) == reply::spans(s, i).skip(k),
    decreases k,
{
    reply::lemma_next_filled(s, i);
    let a = reply::next_filled(s, i);
    reply::lemma_line_end(s, a);
    reply::lemma_next_blank(s, a);
    let b = reply::next_blank(s, a);
    let rest = reply::spans(s, b);
    let all = reply::spans(s, i);
    assert(all == seq![(a, b)] + rest);
    if k == 0 {
        assert(reply::next_filled(s, a) == a);
        assert(all.skip(0) =~= all);
    } else {
        assert(all[k] == rest[k - 1]);
        lemma_spans_tail(s, b, k - 1);
        assert(all.skip(k) =~= rest.skip(k - 1));
    }
}

// ---------------------------------------------------------------- white space in front

/// The first line that is not blank starts before the first character that is no
/// white space, and no line ends between the two.
proof fn lemma_first_line(x: Seq<char>, n: int, i: int) -> (p: int)
    requires
        0 <= i <= n < x.len(),
        forall|k: int| 0 <= k < n ==> text::white_space(#[trigger] x[k]),
        !text::white_space(x[n]),
    ensures
        reply::next_filled(x, i) == p,
        i <= p <= n,
        forall|k: int| p <= k < n ==> #[trigger] x[k] != '\n',
        !reply::blank_line(x, p),
    decreases n - i,
{
    reply::lemma_line_end(x, i);
    let e = reply::line_end(x, i);
    let line = x.subrange(i, e);
    if e <= n {
        assert forall|k: int| 0 <= k < line.len() implies text::white_space(#[trigger] line[k]) by {
            assert(line[k] == x[i + k]);
        }
        lemma_first_line(x, n, e)
    } else {
        assert(line[n - i] == x[n]);
        lemma_no_line_end(x, i, n);
        i
    }
}

proof fn lemma_no_line_end(x: Seq<char>, i: int, n: int)
    requires
        0 <= i <= n < x.len(),
        n < reply::line_end(x, i),
    ensures
        forall|k: int| i <= k < n ==> #[trigger] x[k] != '\n',
        reply::line_end(x, i) == reply::line_end(x, n),
    decreases n - i,
{
    if i < n {
        lemma_no_line_end(x, i + 1, n);
    }
}

proof fn lemma_same_line(x: Seq<char>, p: int, n: int)
    requires
        0 <= p <= n < x.len(),
        forall|k: int| p <= k < n ==> #[trigger] x[k] != '\n',
    ensures
        reply::line_end(x, p) == reply::line_end(x, n),
    decreases n - p,
{
    if p < n {
        lemma_same_line(x, p + 1, n);
    }
}

/// White space in front of a text changes none of its paragraphs.
proof fn lemma_leading(w: Seq<char>, y: Seq<char>)
    requires
        text::blank(w),
        y.len() > 0,
        !text::white_space(y[0]),
    ensures
        same_paragraphs(w + y, y),
{
    let x = w + y;
    let n = w.len() as int;
    assert(x.skip(n) =~= y);
    assert forall|k: int| 0 <= k < n implies text::white_space(#[trigger] x[k]) by {
        assert(x[k] == w[k]);
    }
    assert(x[n] == y[0]);
    let p = lemma_first_line(x, n, 0);
    lemma_same_line(x, p, n);
    lemma_line_end_suffix(x, n, 0);
    reply::lemma_line_end(y, 0);
    reply::lemma_line_end(x, p);
    let e = reply::line_end(y, 0);
    let line = y.subrange(0, e);
    assert(line[0] == y[0]);
    assert(!reply::blank_line(y, 0));
    assert(reply::next_filled(y, 0) == 0);
    lemma_next_suffix(x, n, e);
    reply::lemma_next_blank(y, 0);
    let q = reply::next_blank(y, 0);
    assert(q == reply::next_blank(y, e));
    assert(reply::next_blank(x, p) == n + q);
    lemma_spans_suffix(x, n, q);
    let ys = reply::spans(y, 0);
    let xs = reply::spans(x, 0);
    let rest = reply::spans(y, q);
    assert(ys == seq![(0int, q)] + rest);
    assert(xs == seq![(p, n + q)] + shifted(rest, n));
    reply::lemma_spans(y, 0);
    assert forall|k: int| 0 <= k < xs.len() implies text::trim(reply::paragraph(x, xs[k]))
        == text::trim(reply::paragraph(y, ys[k])) by {
        if k == 0 {
            let before = x.subrange(p, n);
            let part = y.subrange(0, q);
            let none = Seq::<char>::empty();
            assert forall|j: int| 0 <= j < before.len() implies text::white_space(
                #[trigger] before[j],
            ) by {
                assert(before[j] == x[p + j]);
            }
            assert(part == reply::paragraph(y, ys[0]));
            assert(x.subrange(p, n + q) =~= before + part + none);
            reply_laws::lemma_trim_around(before, part, none);
        } else {
            assert(ys[k] == rest[k - 1]);
            assert(xs[k] == shifted(rest, n)[k - 1]);
            assert(reply::paragraph(x, xs[k]) =~= reply::paragraph(y, ys[k]));
        }
    }
}

// ---------------------------------------------------------------- white space behind

proof fn lemma_line_end_before(y: Seq<char>, w: Seq<char>, i: int)
    requires
        0 <= i < y.len(),
        !text::white_space(y.last()),
    ensures
        reply::line_end(y, i) < y.len() ==> reply::line_end(y + w, i) == reply::line_end(y, i),
        reply::line_end(y, i) >= y.len() ==> reply::line_end(y, i) == y.len()
            && reply::line_end(y + w, i) == reply::line_end(y + w, y.len() as int),
    decreases y.len() - i,
{
    let x = y + w;
    assert(x[i] == y[i]);
    if y[i] == '\n' {
        if i == y.len() - 1 {
            assert(y.last() == '\n');
        }
    } else if i + 1 < y.len() {
        lemma_line_end_before(y, w, i + 1);
    } else {
        assert(reply::line_end(y, i + 1) == y.len());
    }
}

proof fn lemma_blank_line_before(y: Seq<char>, w: Seq<char>, i: int)
    requires
        0 <= i < y.len(),
        !text::white_space(y.last()),
    ensures
        reply::blank_line(y + w, i) == reply::blank_line(y, i),
        reply::line_end(y, i) >= y.len() ==> !reply::blank_line(y, i),
{
    let x = y + w;
    lemma_line_end_before(y, w, i);
    reply::lemma_line_end(y, i);
    reply::lemma_line_end(x, i);
    let e = reply::line_end(y, i);
    if e < y.len() {
        assert(x.subrange(i, e) =~= y.subrange(i, e));
    } else {
        let f = reply::line_end(x, i);
        lemma_line_end_at_least(x, y.len() as int);
        let n = y.len() - 1 - i;
        assert(y.subrange(i, e)[n] == y.last());
        assert(x.subrange(i, f)[n] == y.last());
    }
}

proof fn lemma_line_end_at_least(s: Seq<char>, i: int)
    requires
        0 <= i <= s.len(),
    ensures
        i <= reply::line_end(s, i) <= s.len(),
{
    if i < s.len() {
        reply::lemma_line_end(s, i);
    }
}

/// From a place behind which all is white space, no line is filled.
proof fn lemma_all_blank(s: Seq<char>, i: int)
    requires
        0 <= i <= s.len(),
        forall|k: int| i <= k < s.len() ==> text::white_space(#[trigger] s[k]),
    ensures
        reply::next_filled(s, i) == s.len(),
        reply::next_blank(s, i) == i,
    decreases s.len() - i,
{
    if i < s.len() {
        reply::lemma_line_end(s, i);
        let line = s.subrange(i, reply::line_end(s, i));
        assert forall|k: int| 0 <= k < line.len() implies text::white_space(#[trigger] line[k]) by {
            assert(line[k] == s[i + k]);
        }
        lemma_all_blank(s, reply::line_end(s, i));
    }
}

proof fn lemma_next_before(y: Seq<char>, w: Seq<char>, i: int)
    requires
        0 <= i < y.len(),
        !text::white_space(y.last()),
        text::blank(w),
    ensures
        reply::next_filled(y + w, i) == reply::next_filled(y, i),
        i <= reply::next_filled(y, i) < y.len(),
        i <= reply::next_blank(y, i) <= y.len(),
        reply::next_blank(y, i) < y.len() ==> reply::next_blank(y + w, i) == reply::next_blank(
            y,
            i,
        ),
        reply::next_blank(y, i) == y.len() ==> reply::next_blank(y + w, i) == reply::line_end(
            y + w,
            y.len() as int,
        ),
    decreases y.len() - i,
{
    let x = y + w;
    lemma_line_end_before(y, w, i);
    lemma_blank_line_before(y, w, i);
    reply::lemma_line_end(y, i);
    reply::lemma_next_blank(y, i);
    let e = reply::line_end(y, i);
    if e < y.len() {
        lemma_next_before(y, w, e);
    } else {
        let f = reply::line_end(x, y.len() as int);
        lemma_line_end_at_least(x, y.len() as int);
        assert forall|k: int| f <= k < x.len() implies text::white_space(#[trigger] x[k]) by {
            assert(x[k] == w[k - y.len()]);
        }
        lemma_all_blank(x, f);
        assert(reply::next_blank(y, e) == y.len());
    }
}

/// The spans are the same, but for the end of the last one.
spec fn same_but_end(ys: Seq<(int, int)>, xs: Seq<(int, int)>, n: int, f: int) -> bool {
    &&& ys.len() == xs.len()
    &&& ys.len() > 0
    &&& forall|k: int| 0 <= k < ys.len() - 1 ==> (#[trigger] ys[k]) == xs[k]
    &&& ys.last().0 == xs.last().0
    &&& ys.last().1 == n
    &&& xs.last().1 == f
}

proof fn lemma_spans_before(y: Seq<char>, w: Seq<char>, i: int)
    requires
        0 <= i < y.len(),
        !text::white_space(y.last()),
        text::blank(w),
    ensures
        same_but_end(
            reply::spans(y, i),
            reply::spans(y + w, i),
            y.len() as int,
            reply::line_end(y + w, y.len() as int),
        ),
    decreases y.len() - i,
{
    let x = y + w;
    let n = y.len() as int;
    let f = reply::line_end(x, n);
    lemma_line_end_at_least(x, n);
    lemma_next_before(y, w, i);
    reply::lemma_next_filled(y, i);
    let a = reply::next_filled(y, i);
    lemma_next_before(y, w, a);
    reply::lemma_line_end(y, a);
    reply::lemma_next_blank(y, a);
    let b = reply::next_blank(y, a);
    let ys = reply::spans(y, i);
    let xs = reply::spans(x, i);
    if b < n {
        lemma_spans_before(y, w, b);
        let yr = reply::spans(y, b);
        let xr = reply::spans(x, b);
        assert(ys == seq![(a, b)] + yr);
        assert(xs == seq![(a, b)] + xr);
        assert(ys.last() == yr.last());
        assert(xs.last() == xr.last());
        assert forall|k: int| 0 <= k < ys.len() - 1 implies (#[trigger] ys[k]) == xs[k] by {
            if k > 0 {
                assert(ys[k] == yr[k - 1]);
                assert(xs[k] == xr[k - 1]);
            }
        }
    } else {
        assert forall|k: int| f <= k < x.len() implies text::white_space(#[trigger] x[k]) by {
            assert(x[k] == w[k - n]);
        }
        lemma_all_blank(x, f);
        assert(reply::spans(y, n).len() == 0);
        assert(reply::spans(x, f).len() == 0);
        assert(ys =~= seq![(a, n)]);
        assert(xs =~= seq![(a, f)]);
    }
}

/// White space behind a text changes none of its paragraphs.
proof fn lemma_trailing(y: Seq<char>, w: Seq<char>)
    requires
        text::blank(w),
        y.len() > 0,
        !text::white_space(y.last()),
    ensures
        same_paragraphs(y + w, y),
{
    let x = y + w;
    let n = y.len() as int;
    let f = reply::line_end(x, n);
    lemma_line_end_at_least(x, n);
    lemma_spans_before(y, w, 0);
    reply::lemma_spans(y, 0);
    let ys = reply::spans(y, 0);
    let xs = reply::spans(x, 0);
    assert forall|k: int| 0 <= k < xs.len() implies text::trim(reply::paragraph(x, xs[k]))
        == text::trim(reply::paragraph(y, ys[k])) by {
        let part = reply::paragraph(y, ys[k]);
        if k < xs.len() - 1 {
            assert(ys[k] == xs[k]);
            assert(reply::paragraph(x, xs[k]) =~= part);
        } else {
            assert(ys[k] == ys.last() && xs[k] == xs.last());
            let none = Seq::<char>::empty();
            let behind = x.subrange(n, f);
            assert forall|j: int| 0 <= j < behind.len() implies text::white_space(
                #[trigger] behind[j],
            ) by {
                assert(behind[j] == w[j]);
            }
            assert(reply::paragraph(x, xs[k]) =~= none + part + behind);
            reply_laws::lemma_trim_around(none, part, behind);
        }
    }
}

/// Trimming a text changes none of its paragraphs.
pub proof fn trimming_keeps_paragraphs(x: Seq<char>)
    requires
        !text::blank(x),
    ensures
        same_paragraphs(x, text::trim(x)),
{
    let t = text::trim(x);
    let y = text::trim_start(x);
    text::lemma_trim(x);
    text::lemma_trim_start(x);
    text::lemma_trim_end(y);
    let w = x.take(x.len() - y.len());
    let v = y.skip(t.len() as int);
    assert(x =~= w + y);
    assert(y =~= t + v);
    lemma_leading(w, y);
    lemma_trailing(t, v);
    let xs = reply::spans(x, 0);
    assert forall|k: int| 0 <= k < xs.len() implies text::trim(reply::paragraph(x, xs[k]))
        == text::trim(reply::paragraph(t, reply::spans(t, 0)[k])) by {
        assert(text::trim(reply::paragraph(x, xs[k])) == text::trim(
            reply::paragraph(y, reply::spans(y, 0)[k]),
        ));
    }
}

// ---------------------------------------------------------------- cutting

/// A paragraph ends with a line.
proof fn lemma_span_end(s: Seq<char>, i: int)
    requires
        0 <= i < s.len(),
        !reply::blank_line(s, i),
    ensures
        ({
            let b = reply::next_blank(s, i);
            b == s.len() || s[b - 1] == '\n'
        }),
    decreases s.len() - i,
{
    reply::lemma_line_end(s, i);
    lemma_line_ends(s, i);
    let e = reply::line_end(s, i);
    if e < s.len() && !reply::blank_line(s, e) {
        lemma_span_end(s, e);
    }
}

proof fn lemma_line_ends(s: Seq<char>, i: int)
    requires
        0 <= i < s.len(),
    ensures
        ({
            let e = reply::line_end(s, i);
            e == s.len() || s[e - 1] == '\n'
        }),
    decreases s.len() - i,
{
    if s[i] != '\n' {
        if i + 1 < s.len() {
            lemma_line_ends(s, i + 1);
        } else {
            assert(reply::line_end(s, i + 1) == s.len());
        }
    }
}

proof fn lemma_spans_end_lines(s: Seq<char>, i: int, m: int)
    requires
        0 <= i <= s.len(),
        0 <= m < reply::spans(s, i).len(),
    ensures
        ({
            let b = reply::spans(s, i)[m].1;
            b == s.len() || s[b - 1] == '\n'
        }),
    decreases m,
{
    reply::lemma_next_filled(s, i);
    let a = reply::next_filled(s, i);
    reply::lemma_line_end(s, a);
    reply::lemma_next_blank(s, a);
    let b = reply::next_blank(s, a);
    assert(reply::spans(s, i) == seq![(a, b)] + reply::spans(s, b));
    if m == 0 {
        lemma_span_end(s, a);
    } else {
        lemma_spans_end_lines(s, b, m - 1);
    }
}

proof fn lemma_line_end_cut(z: Seq<char>, c: int, i: int)
    requires
        0 <= i < c < z.len(),
        z[c - 1] == '\n',
    ensures
        reply::line_end(z.take(c), i) == reply::line_end(z, i),
        i < reply::line_end(z, i) <= c,
        reply::blank_line(z.take(c), i) == reply::blank_line(z, i),
    decreases c - i,
{
    let y = z.take(c);
    assert(y[i] == z[i]);
    if z[i] != '\n' {
        lemma_line_end_cut(z, c, i + 1);
    }
    let e = reply::line_end(z, i);
    assert(y.subrange(i, e) =~= z.subrange(i, e));
}

proof fn lemma_next_cut(z: Seq<char>, c: int, i: int)
    requires
        0 <= i <= c < z.len(),
        0 < c,
        z[c - 1] == '\n',
    ensures
        reply::next_filled(z, i) < c ==> reply::next_filled(z.take(c), i) == reply::next_filled(
            z,
            i,
        ),
        reply::next_blank(z, i) <= c ==> reply::next_blank(z.take(c), i) == reply::next_blank(z, i),
    decreases c - i,
{
    reply::lemma_next_filled(z, i);
    reply::lemma_next_blank(z, i);
    if i < c {
        lemma_line_end_cut(z, c, i);
        lemma_next_cut(z, c, reply::line_end(z, i));
    }
}

/// Cutting a text off behind a paragraph leaves the paragraphs up to that one.
proof fn lemma_cut(z: Seq<char>, c: int, i: int, m: int)
    requires
        0 <= i <= z.len(),
        0 <= m < reply::spans(z, i).len(),
        reply::spans(z, i)[m].1 == c,
    ensures
        reply::spans(z.take(c), i) == reply::spans(z, i).take(m + 1),
    decreases m,
{
    let y = z.take(c);
    let zs = reply::spans(z, i);
    reply::lemma_spans(z, i);
    lemma_spans_end_lines(z, i, m);
    assert(i <= zs[m].0 < zs[m].1 <= z.len());
    if c == z.len() {
        assert(y =~= z);
        if m + 1 < zs.len() {
            assert(zs[m].1 <= zs[m + 1].0);
        }
        assert(zs.take(m + 1) =~= zs);
    } else {
        reply::lemma_next_filled(z, i);
        let a = reply::next_filled(z, i);
        reply::lemma_line_end(z, a);
        reply::lemma_next_blank(z, a);
        let b = reply::next_blank(z, a);
        let rest = reply::spans(z, b);
        assert(zs == seq![(a, b)] + rest);
        if m > 0 {
            assert(zs[0].1 <= zs[m].0);
        }
        lemma_next_cut(z, c, i);
        lemma_next_cut(z, c, a);
        assert(reply::spans(y, i) == seq![(a, b)] + reply::spans(y, b));
        if m == 0 {
            assert(reply::spans(y, c).len() == 0);
            assert(zs.take(1) =~= seq![(a, b)]);
            assert(reply::spans(y, i) =~= seq![(a, b)]);
        } else {
            assert(zs[m] == rest[m - 1]);
            lemma_cut(z, c, b, m - 1);
            assert(zs.take(m + 1) =~= seq![(a, b)] + rest.take(m));
        }
    }
}

/// From one paragraph up to another, a text has just these and those between them.
pub proof fn lemma_between(s: Seq<char>, lo: int, hi: int)
    requires
        0 <= lo < hi <= reply::spans(s, 0).len(),
    ensures
        ({
            let ps = reply::spans(s, 0);
            let x = s.subrange(ps[lo].0, ps[hi - 1].1);
            let xs = reply::spans(x, 0);
            &&& xs.len() == hi - lo
            &&& reply::paragraph(x, xs[0]) == reply::paragraph(s, ps[lo])
            &&& reply::paragraph(x, xs.last()) == reply::paragraph(s, ps[hi - 1])
        }),
{
    let ps = reply::spans(s, 0);
    reply::lemma_spans(s, 0);
    let a = ps[lo].0;
    let b = ps[hi - 1].1;
    if lo < hi - 1 {
        assert(ps[lo].1 <= ps[hi - 1].0);
    }
    assert(0 <= a < b <= s.len());
    let z = s.skip(a);
    lemma_spans_tail(s, 0, lo);
    lemma_spans_suffix(s, a, 0);
    let zs = reply::spans(z, 0);
    assert(shifted(zs, a) == ps.skip(lo));
    assert forall|k: int| 0 <= k < zs.len() implies (#[trigger] zs[k]).0 + a == ps[lo + k].0
        && zs[k].1 + a == ps[lo + k].1 by {
        assert(shifted(zs, a)[k] == ps.skip(lo)[k]);
    }
    assert(zs.len() == ps.skip(lo).len()) by {
        assert(shifted(zs, a).len() == zs.len());
    }
    let m = hi - 1 - lo;
    assert(zs[m].1 + a == ps[lo + m].1);
    lemma_cut(z, b - a, 0, m);
    let x = s.subrange(a, b);
    assert(z.take(b - a) =~= x);
    let xs = reply::spans(x, 0);
    assert(xs == zs.take(m + 1));
    assert(xs[0] == zs[0]);
    assert(xs.last() == zs[m]);
    assert(zs[0].0 + a == ps[lo + 0].0);
    if 0 < m {
        assert(ps[lo].1 <= ps[hi - 1].0);
    }
    assert(reply::paragraph(x, xs[0]) =~= reply::paragraph(s, ps[lo]));
    assert(reply::paragraph(x, xs.last()) =~= reply::paragraph(s, ps[hi - 1]));
}

} // verus!
