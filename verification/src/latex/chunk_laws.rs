//! What cutting a body into chunks keeps.

use crate::latex::chunks;
use crate::{patterns, text, utf};
use vstd::prelude::*;

verus! {

/// Joining two lists is joining the one, then the other.
pub proof fn lemma_concat_add(a: Seq<Seq<char>>, b: Seq<Seq<char>>)
    ensures
        text::concat(a + b) == text::concat(a) + text::concat(b),
    decreases b.len(),
{
    if b.len() == 0 {
        assert(a + b =~= a);
        assert(text::concat(a) + text::concat(b) =~= text::concat(a));
    } else {
        lemma_concat_add(a, b.drop_last());
        assert((a + b).drop_last() =~= a + b.drop_last());
        assert((a + b).last() == b.last());
        assert(text::concat(a + b) =~= text::concat(a) + text::concat(b));
    }
}

/// A list of one text joins to that text.
pub proof fn lemma_concat_one(s: Seq<char>)
    ensures
        text::concat(seq![s]) == s,
{
    text::lemma_concat_push(Seq::empty(), s);
    assert(Seq::<Seq<char>>::empty().push(s) =~= seq![s]);
    assert(Seq::<char>::empty() + s =~= s);
}

proof fn lemma_cut(s: Seq<char>, cuts: Seq<(int, int)>, k: int, from: int)
    requires
        0 <= k <= cuts.len(),
        0 <= from <= s.len(),
        forall|i: int| k <= i < cuts.len() ==> from <= (#[trigger] cuts[i]).0 < s.len(),
        forall|i: int, l: int|
            0 <= i < l < cuts.len() ==> (#[trigger] cuts[i]).0 < (#[trigger] cuts[l]).0,
    ensures
        text::concat(chunks::cut(s, cuts, k, from)) == s.subrange(from, s.len() as int),
        forall|j: int|
            0 <= j < chunks::cut(s, cuts, k, from).len() ==> (#[trigger] chunks::cut(
                s,
                cuts,
                k,
                from,
            )[j]).len() > 0,
    decreases cuts.len() - k,
{
    let r = chunks::cut(s, cuts, k, from);
    if k >= cuts.len() {
        if from < s.len() {
            lemma_concat_one(s.subrange(from, s.len() as int));
        } else {
            assert(s.subrange(from, s.len() as int) =~= Seq::<char>::empty());
        }
    } else {
        let p = cuts[k].0;
        lemma_cut(s, cuts, k + 1, p);
        let rest = chunks::cut(s, cuts, k + 1, p);
        if p > from {
            let first = s.subrange(from, p);
            lemma_concat_one(first);
            lemma_concat_add(seq![first], rest);
            assert(r == seq![first] + rest);
            assert(first + s.subrange(p, s.len() as int) =~= s.subrange(from, s.len() as int));
            assert forall|j: int| 0 <= j < r.len() implies (#[trigger] r[j]).len() > 0 by {
                if j > 0 {
                    assert(r[j] == rest[j - 1]);
                }
            }
        } else {
            assert(r == rest);
        }
    }
}

/// The sections of a text are not empty and join to it.
pub proof fn lemma_sections(s: Seq<char>)
    ensures
        text::concat(chunks::sections(s)) == s,
        forall|j: int|
            0 <= j < chunks::sections(s).len() ==> (#[trigger] chunks::sections(s)[j]).len() > 0,
{
    chunks::lemma_headings(s, 0);
    lemma_cut(s, patterns::headings(s), 0, 0);
    assert(s.subrange(0, s.len() as int) =~= s);
}

/// No paragraph break before the end.
pub open spec fn unbroken(s: Seq<char>) -> bool {
    forall|i: int| i + 2 < s.len() ==> !#[trigger] chunks::break_at(s, i)
}

proof fn lemma_paragraphs(s: Seq<char>, from: int)
    requires
        0 <= from <= s.len(),
    ensures
        text::concat(chunks::paragraphs(s, from)) == s.subrange(from, s.len() as int),
        forall|j: int|
            0 <= j < chunks::paragraphs(s, from).len() ==> (#[trigger] chunks::paragraphs(
                s,
                from,
            )[j]).len() > 0 && unbroken(chunks::paragraphs(s, from)[j]),
    decreases s.len() - from,
{
    if from >= s.len() {
        assert(s.subrange(from, s.len() as int) =~= Seq::<char>::empty());
    } else {
        chunks::lemma_paragraph_end(s, from);
        let e = chunks::paragraph_end(s, from);
        let first = s.subrange(from, e);
        let rest = chunks::paragraphs(s, e);
        let all = chunks::paragraphs(s, from);
        lemma_paragraphs(s, e);
        lemma_concat_one(first);
        lemma_concat_add(seq![first], rest);
        assert(all == seq![first] + rest);
        assert(first + s.subrange(e, s.len() as int) =~= s.subrange(from, s.len() as int));
        assert forall|j: int| 0 <= j < all.len() implies (#[trigger] all[j]).len() > 0 && unbroken(
            all[j],
        ) by {
            if j > 0 {
                assert(all[j] == rest[j - 1]);
            } else {
                assert forall|i: int| i + 2 < first.len() implies !#[trigger] chunks::break_at(
                    first,
                    i,
                ) by {
                    if chunks::break_at(first, i) {
                        assert(chunks::break_at(s, from + i));
                    }
                }
            }
        }
    }
}

/// A chunk is small enough, or it is one paragraph that is not.
pub open spec fn small_or_single(s: Seq<char>, max: nat) -> bool {
    chunks::size(s) <= max || unbroken(s)
}

proof fn lemma_gathered(parts: Seq<Seq<char>>, k: int, current: Seq<char>, max: nat)
    requires
        0 <= k <= parts.len(),
        forall|j: int|
            0 <= j < parts.len() ==> (#[trigger] parts[j]).len() > 0 && unbroken(parts[j]),
        small_or_single(current, max),
    ensures
        text::concat(chunks::gathered(parts, k, current, max)) == current + text::concat(
            parts.skip(k),
        ),
        forall|j: int|
            0 <= j < chunks::gathered(parts, k, current, max).len() ==> {
                let c = #[trigger] chunks::gathered(parts, k, current, max)[j];
                c.len() > 0 && small_or_single(c, max)
            },
    decreases parts.len() - k,
{
    let r = chunks::gathered(parts, k, current, max);
    if k >= parts.len() {
        assert(parts.skip(k) =~= Seq::<Seq<char>>::empty());
        assert(current + Seq::<char>::empty() =~= current);
        if current.len() == 0 {
            assert(current =~= Seq::<char>::empty());
        } else {
            lemma_concat_one(current);
        }
    } else {
        let next = parts[k];
        assert(parts.skip(k) =~= seq![next] + parts.skip(k + 1));
        lemma_concat_one(next);
        lemma_concat_add(seq![next], parts.skip(k + 1));
        if chunks::size(current) + chunks::size(next) > max && current.len() > 0 {
            lemma_gathered(parts, k + 1, next, max);
            let rest = chunks::gathered(parts, k + 1, next, max);
            assert(r == seq![current] + rest);
            lemma_concat_one(current);
            lemma_concat_add(seq![current], rest);
            assert forall|j: int| 0 <= j < r.len() implies {
                let c = #[trigger] r[j];
                c.len() > 0 && small_or_single(c, max)
            } by {
                if j > 0 {
                    assert(r[j] == rest[j - 1]);
                }
            }
        } else {
            utf::lemma_encode_concat(current, next);
            if current.len() == 0 {
                assert(current + next =~= next);
            }
            lemma_gathered(parts, k + 1, current + next, max);
            assert(current + next + text::concat(parts.skip(k + 1)) =~= current + (next
                + text::concat(parts.skip(k + 1))));
        }
    }
}

/// The chunks of a section join to it; none is empty.
proof fn lemma_section_chunks(s: Seq<char>, max: nat)
    requires
        s.len() > 0,
    ensures
        text::concat(chunks::section_chunks(s, max)) == s,
        chunks::section_chunks(s, max).len() > 0,
        forall|j: int|
            0 <= j < chunks::section_chunks(s, max).len() ==> {
                let c = #[trigger] chunks::section_chunks(s, max)[j];
                c.len() > 0 && small_or_single(c, max)
            },
{
    if chunks::size(s) <= max {
        lemma_concat_one(s);
    } else {
        let parts = chunks::paragraphs(s, 0);
        lemma_paragraphs(s, 0);
        assert(utf::bytes_of(Seq::<char>::empty()).len() == 0);
        lemma_gathered(parts, 0, Seq::empty(), max);
        assert(parts.skip(0) =~= parts);
        assert(s.subrange(0, s.len() as int) =~= s);
        assert(Seq::<char>::empty() + s =~= s);
        if chunks::section_chunks(s, max).len() == 0 {
            assert(text::concat(chunks::section_chunks(s, max)).len() == 0);
        }
    }
}

/// The chunks of a section that is cut join to it.
pub proof fn lemma_section_joins(s: Seq<char>, max: nat)
    requires
        chunks::size(s) > max,
    ensures
        text::concat(chunks::section_chunks(s, max)) == s,
{
    if s.len() == 0 {
        assert(utf::bytes_of(s).len() == 0);
    }
    lemma_section_chunks(s, max);
}

/// The paragraphs of a text join to it.
pub proof fn lemma_paragraphs_join(s: Seq<char>)
    ensures
        text::concat(chunks::paragraphs(s, 0)) == s,
{
    lemma_paragraphs(s, 0);
    assert(s.subrange(0, s.len() as int) =~= s);
}

/// No chunk of a section is empty, unless the section is.
pub proof fn lemma_section_filled(s: Seq<char>, max: nat)
    requires
        s.len() > 0,
    ensures
        forall|j: int|
            0 <= j < chunks::section_chunks(s, max).len() ==> (#[trigger] chunks::section_chunks(
                s,
                max,
            )[j]).len() > 0,
{
    lemma_section_chunks(s, max);
    let r = chunks::section_chunks(s, max);
    assert forall|j: int| 0 <= j < r.len() implies (#[trigger] r[j]).len() > 0 by {
        assert(r[j].len() > 0 && small_or_single(r[j], max));
    }
}

/// The chunks of the first sections join to those sections.
pub proof fn lemma_chunks_of_join(parts: Seq<Seq<char>>, n: int, max: nat)
    requires
        0 <= n <= parts.len(),
        forall|j: int| 0 <= j < parts.len() ==> (#[trigger] parts[j]).len() > 0,
    ensures
        text::concat(chunks::chunks_of(parts, n, max)) == text::concat(parts.take(n)),
{
    lemma_chunks_of(parts, n, max);
}

proof fn lemma_chunks_of(parts: Seq<Seq<char>>, n: int, max: nat)
    requires
        0 <= n <= parts.len(),
        forall|j: int| 0 <= j < parts.len() ==> (#[trigger] parts[j]).len() > 0,
    ensures
        text::concat(chunks::chunks_of(parts, n, max)) == text::concat(parts.take(n)),
        chunks::chunks_of(parts, n, max).len() >= n,
        forall|j: int|
            0 <= j < chunks::chunks_of(parts, n, max).len() ==> {
                let c = #[trigger] chunks::chunks_of(parts, n, max)[j];
                c.len() > 0 && small_or_single(c, max)
            },
    decreases n,
{
    if n <= 0 {
        assert(parts.take(n) =~= Seq::<Seq<char>>::empty());
    } else {
        let before = chunks::chunks_of(parts, n - 1, max);
        let more = chunks::section_chunks(parts[n - 1], max);
        let all = chunks::chunks_of(parts, n, max);
        lemma_chunks_of(parts, n - 1, max);
        lemma_section_chunks(parts[n - 1], max);
        lemma_concat_add(before, more);
        assert(parts.take(n) =~= parts.take(n - 1).push(parts[n - 1]));
        text::lemma_concat_push(parts.take(n - 1), parts[n - 1]);
        assert(all == before + more);
        assert forall|j: int| 0 <= j < all.len() implies {
            let c = #[trigger] all[j];
            c.len() > 0 && small_or_single(c, max)
        } by {
            if j < before.len() {
                assert(all[j] == before[j]);
            } else {
                assert(all[j] == more[j - before.len()]);
            }
        }
    }
}

/// The chunks of a body, one behind the other, are the body.
pub proof fn chunks_join_to_the_body(body: Seq<char>, max: nat)
    ensures
        text::concat(chunks::chunks(body, max)) == body,
{
    if chunks::size(body) <= max {
        lemma_concat_one(body);
    } else {
        let parts = chunks::sections(body);
        lemma_sections(body);
        lemma_chunks_of(parts, parts.len() as int, max);
        assert(parts.take(parts.len() as int) =~= parts);
    }
}

/// There is at least one chunk, and only an empty body has an empty one.
pub proof fn chunks_are_not_empty(body: Seq<char>, max: nat)
    ensures
        chunks::chunks(body, max).len() > 0,
        body.len() > 0 ==> forall|j: int|
            0 <= j < chunks::chunks(body, max).len() ==> (#[trigger] chunks::chunks(
                body,
                max,
            )[j]).len() > 0,
{
    if chunks::size(body) > max {
        let parts = chunks::sections(body);
        lemma_sections(body);
        lemma_chunks_of(parts, parts.len() as int, max);
        if body.len() == 0 {
            assert(utf::bytes_of(body).len() == 0);
        }
        if parts.len() == 0 {
            assert(text::concat(parts).len() == 0);
        }
    }
}

/// A chunk has at most `max` bytes, or there is no paragraph break before its end.
pub proof fn chunks_are_small_or_single(body: Seq<char>, max: nat)
    ensures
        forall|j: int|
            0 <= j < chunks::chunks(body, max).len() ==> small_or_single(
                #[trigger] chunks::chunks(body, max)[j],
                max,
            ),
{
    if chunks::size(body) > max {
        let parts = chunks::sections(body);
        lemma_sections(body);
        lemma_chunks_of(parts, parts.len() as int, max);
    }
}

/// One of the pieces starts at position `p` of the text that they join to.
pub open spec fn starts(parts: Seq<Seq<char>>, p: int) -> bool {
    exists|j: int|
        0 <= j < parts.len() && (#[trigger] text::concat(parts.take(j))).len() == p
}

proof fn lemma_cut_starts(s: Seq<char>, cuts: Seq<(int, int)>, k: int, from: int, c: int)
    requires
        0 <= k <= c < cuts.len(),
        0 <= from <= s.len(),
        forall|i: int| k <= i < cuts.len() ==> from <= (#[trigger] cuts[i]).0 < s.len(),
        forall|i: int, l: int|
            0 <= i < l < cuts.len() ==> (#[trigger] cuts[i]).0 < (#[trigger] cuts[l]).0,
    ensures
        starts(chunks::cut(s, cuts, k, from), cuts[c].0 - from),
    decreases cuts.len() - k,
{
    let r = chunks::cut(s, cuts, k, from);
    let p = cuts[k].0;
    let rest = chunks::cut(s, cuts, k + 1, p);
    lemma_cut(s, cuts, k + 1, p);
    if c == k {
        if rest.len() == 0 {
            assert(text::concat(rest).len() == 0);
        }
        if p > from {
            assert(r == seq![s.subrange(from, p)] + rest);
            assert(r.take(1) =~= seq![s.subrange(from, p)]);
            lemma_concat_one(s.subrange(from, p));
            assert(text::concat(r.take(1)).len() == p - from);
        } else {
            assert(r.take(0) =~= Seq::<Seq<char>>::empty());
            assert(text::concat(r.take(0)).len() == 0);
        }
    } else {
        lemma_cut_starts(s, cuts, k + 1, p, c);
        let j = choose|j: int|
            0 <= j < rest.len() && (#[trigger] text::concat(rest.take(j))).len() == cuts[c].0 - p;
        if p > from {
            let first = s.subrange(from, p);
            assert(r == seq![first] + rest);
            assert(r.take(j + 1) =~= seq![first] + rest.take(j));
            lemma_concat_one(first);
            lemma_concat_add(seq![first], rest.take(j));
            assert(text::concat(r.take(j + 1)).len() == cuts[c].0 - from);
        } else {
            assert(r == rest);
            assert(text::concat(r.take(j)).len() == cuts[c].0 - from);
        }
    }
}

/// The chunks of the first sections come first.
proof fn lemma_chunks_of_prefix(parts: Seq<Seq<char>>, j: int, n: int, max: nat)
    requires
        0 <= j <= n <= parts.len(),
    ensures
        chunks::chunks_of(parts, j, max).len() <= chunks::chunks_of(parts, n, max).len(),
        chunks::chunks_of(parts, n, max).take(chunks::chunks_of(parts, j, max).len() as int)
            == chunks::chunks_of(parts, j, max),
    decreases n,
{
    let head = chunks::chunks_of(parts, j, max);
    let all = chunks::chunks_of(parts, n, max);
    if j < n {
        lemma_chunks_of_prefix(parts, j, n - 1, max);
        let before = chunks::chunks_of(parts, n - 1, max);
        assert(all == before + chunks::section_chunks(parts[n - 1], max));
        assert(all.take(head.len() as int) =~= before.take(head.len() as int));
    } else {
        assert(all.take(head.len() as int) =~= head);
    }
}

/// Where a body is cut at all, a chunk starts with every heading.
pub proof fn headings_start_chunks(body: Seq<char>, max: nat, p: int)
    requires
        chunks::size(body) > max,
        patterns::heading_at(body, p),
    ensures
        starts(chunks::chunks(body, max), p),
{
    let cuts = patterns::headings(body);
    let parts = chunks::sections(body);
    chunks::lemma_headings(body, 0);
    lemma_sections(body);
    let c = choose|k: int|
        0 <= k < patterns::headings_from(body, 0).len() && (#[trigger] patterns::headings_from(
            body,
            0,
        )[k]).0 == p;
    assert(cuts[c].0 == p);
    lemma_cut_starts(body, cuts, 0, 0, c);
    let j = choose|j: int|
        0 <= j < parts.len() && (#[trigger] text::concat(parts.take(j))).len() == p;
    let n = parts.len() as int;
    let head = chunks::chunks_of(parts, j, max);
    let all = chunks::chunks_of(parts, n, max);
    lemma_chunks_of(parts, j, max);
    lemma_chunks_of(parts, n, max);
    lemma_chunks_of_prefix(parts, j, n, max);
    assert(text::concat(all.take(head.len() as int)).len() == p);
    lemma_chunks_of_prefix(parts, j + 1, n, max);
    lemma_section_chunks(parts[j], max);
    assert(chunks::chunks_of(parts, j + 1, max).len() > head.len());
}

} // verus!
