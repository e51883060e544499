//! Where a body is cut into chunks, and where it is not.

use crate::latex::{chunk_laws, chunks};
use crate::{patterns, text, utf};
use vstd::prelude::*;

verus! {

/// A paragraph break ends at `p`.
pub open spec fn behind_break(s: Seq<char>, p: int) -> bool {
    2 <= p <= s.len() && s[p - 2] == '\n' && s[p - 1] == '\n'
}

/// Where piece number `j` starts in the text that the pieces join to.
pub open spec fn start_of(parts: Seq<Seq<char>>, j: int) -> int {
    text::concat(parts.take(j)).len() as int
}

/// Each piece but the first starts behind a paragraph break of the text that, from
/// `from` on, the pieces join to.
spec fn breaks_between(s: Seq<char>, from: int, parts: Seq<Seq<char>>) -> bool {
    forall|j: int|
        0 < j < parts.len() ==> behind_break(s, from + #[trigger] start_of(parts, j))
}

proof fn lemma_start_behind(first: Seq<char>, rest: Seq<Seq<char>>, j: int)
    requires
        0 < j <= rest.len() + 1,
    ensures
        start_of(seq![first] + rest, j) == first.len() + start_of(rest, j - 1),
{
    let all = seq![first] + rest;
    assert(all.take(j) =~= seq![first] + rest.take(j - 1));
    chunk_laws::lemma_concat_one(first);
    chunk_laws::lemma_concat_add(seq![first], rest.take(j - 1));
}

proof fn lemma_start_zero(parts: Seq<Seq<char>>)
    ensures
        start_of(parts, 0) == 0,
{
    assert(parts.take(0) =~= Seq::<Seq<char>>::empty());
}

proof fn lemma_end_breaks(s: Seq<char>, i: int)
    requires
        0 <= i < s.len(),
    ensures
        chunks::paragraph_end(s, i) < s.len() ==> behind_break(s, chunks::paragraph_end(s, i)),
    decreases s.len() - i,
{
    if !chunks::break_at(s, i) {
        if i + 1 < s.len() {
            lemma_end_breaks(s, i + 1);
        } else {
            assert(chunks::paragraph_end(s, i + 1) == s.len());
        }
    }
}

proof fn lemma_paragraph_starts(s: Seq<char>, from: int)
    requires
        0 <= from <= s.len(),
    ensures
        breaks_between(s, from, chunks::paragraphs(s, from)),
    decreases s.len() - from,
{
    if from < s.len() {
        chunks::lemma_paragraph_end(s, from);
        lemma_end_breaks(s, from);
        let e = chunks::paragraph_end(s, from);
        let first = s.subrange(from, e);
        let rest = chunks::paragraphs(s, e);
        let all = chunks::paragraphs(s, from);
        assert(all == seq![first] + rest);
        lemma_paragraph_starts(s, e);
        assert forall|j: int| 0 < j < all.len() implies behind_break(
            s,
            from + #[trigger] start_of(all, j),
        ) by {
            lemma_start_behind(first, rest, j);
            if j == 1 {
                lemma_start_zero(rest);
                if e >= s.len() {
                    assert(rest.len() == 0);
                }
            }
        }
    }
}

/// Gathering closes a chunk only where a paragraph starts.
proof fn lemma_gathered_starts(parts: Seq<Seq<char>>, k: int, current: Seq<char>, max: nat, j: int)
    requires
        0 <= k <= parts.len(),
        0 < j < chunks::gathered(parts, k, current, max).len(),
    ensures
        exists|m: int|
            k <= m < parts.len() && start_of(chunks::gathered(parts, k, current, max), j)
                == current.len() + start_of(parts, m) - start_of(parts, k) && current.len()
                + start_of(parts, m) - start_of(parts, k) > 0 && #[trigger] parts[m].len()
                <= chunks::gathered(parts, k, current, max)[j].len()
                && chunks::gathered(parts, k, current, max)[j].take(parts[m].len() as int)
                == parts[m] && utf::bytes_of(
                chunks::gathered(parts, k, current, max)[j - 1],
            ).len() + utf::bytes_of(parts[m]).len() > max,
    decreases parts.len() - k,
{
    let r = chunks::gathered(parts, k, current, max);
    if k < parts.len() {
        let next = parts[k];
        assert(parts.take(k + 1) =~= parts.take(k).push(next));
        text::lemma_concat_push(parts.take(k), next);
        if chunks::size(current) + chunks::size(next) > max && current.len() > 0 {
            let rest = chunks::gathered(parts, k + 1, next, max);
            assert(r == seq![current] + rest);
            lemma_start_behind(current, rest, j);
            if j == 1 {
                lemma_start_zero(rest);
                lemma_gathered_first(parts, k + 1, next, max);
                assert(r[1] == rest[0]);
                assert(parts[k].len() <= r[j].len());
            } else {
                lemma_gathered_starts(parts, k + 1, next, max, j - 1);
                let m = choose|m: int|
                    k + 1 <= m < parts.len() && start_of(rest, j - 1) == next.len() + start_of(
                        parts,
                        m,
                    ) - start_of(parts, k + 1) && next.len() + start_of(parts, m) - start_of(
                        parts,
                        k + 1,
                    ) > 0 && #[trigger] parts[m].len() <= rest[j - 1].len() && rest[j - 1].take(
                        parts[m].len() as int,
                    ) == parts[m] && utf::bytes_of(rest[j - 2]).len() + utf::bytes_of(
                        parts[m],
                    ).len() > max;
                assert(r[j] == rest[j - 1]);
                assert(r[j - 1] == rest[j - 2]);
                assert(parts[m].len() <= r[j].len());
            }
        } else {
            lemma_gathered_starts(parts, k + 1, current + next, max, j);
            let m = choose|m: int|
                k + 1 <= m < parts.len() && start_of(r, j) == (current + next).len() + start_of(
                    parts,
                    m,
                ) - start_of(parts, k + 1) && (current + next).len() + start_of(parts, m)
                    - start_of(parts, k + 1) > 0 && #[trigger] parts[m].len() <= r[j].len()
                    && r[j].take(parts[m].len() as int) == parts[m] && utf::bytes_of(
                    r[j - 1],
                ).len() + utf::bytes_of(parts[m]).len() > max;
            assert(parts[m].len() <= r[j].len());
        }
    }
}

/// The first chunk starts with what was gathered before.
proof fn lemma_gathered_first(parts: Seq<Seq<char>>, k: int, current: Seq<char>, max: nat)
    requires
        0 <= k <= parts.len(),
        chunks::gathered(parts, k, current, max).len() > 0,
    ensures
        current.len() <= chunks::gathered(parts, k, current, max)[0].len(),
        chunks::gathered(parts, k, current, max)[0].take(current.len() as int) == current,
    decreases parts.len() - k,
{
    let r = chunks::gathered(parts, k, current, max);
    assert(current.take(current.len() as int) =~= current);
    if k < parts.len() {
        let next = parts[k];
        if chunks::size(current) + chunks::size(next) > max && current.len() > 0 {
            let rest = chunks::gathered(parts, k + 1, next, max);
            assert(r == seq![current] + rest);
        } else {
            lemma_gathered_first(parts, k + 1, current + next, max);
            assert(r[0].take(current.len() as int) =~= r[0].take(
                (current + next).len() as int,
            ).take(current.len() as int));
            assert((current + next).take(current.len() as int) =~= current);
        }
    }
}

/// A paragraph: no break before its end.
pub open spec fn one_paragraph(s: Seq<char>) -> bool {
    forall|i: int| 0 <= i && i + 2 < s.len() ==> !(#[trigger] s[i] == '\n' && s[i + 1] == '\n')
}

/// The chunk starts with a whole paragraph that would have taken the one before
/// over the limit.
pub open spec fn had_no_room(before: Seq<char>, chunk: Seq<char>, max: nat) -> bool {
    exists|n: int|
        {
            &&& 0 < n <= chunk.len()
            &&& one_paragraph(#[trigger] chunk.take(n))
            &&& n == chunk.len() || behind_break(chunk, n)
            &&& utf::bytes_of(before).len() + utf::bytes_of(chunk.take(n)).len() > max
        }
}

/// Paragraphs hold no break before their ends, and all but the last end with one.
proof fn lemma_paragraph_shape(s: Seq<char>, from: int, m: int)
    requires
        0 <= from <= s.len(),
        0 <= m < chunks::paragraphs(s, from).len(),
    ensures
        ({
            let p = chunks::paragraphs(s, from)[m];
            &&& p.len() > 0
            &&& one_paragraph(p)
            &&& m + 1 < chunks::paragraphs(s, from).len() ==> behind_break(p, p.len() as int)
        }),
    decreases s.len() - from,
{
    chunks::lemma_paragraph_end(s, from);
    let e = chunks::paragraph_end(s, from);
    let first = s.subrange(from, e);
    let rest = chunks::paragraphs(s, e);
    let all = chunks::paragraphs(s, from);
    assert(all == seq![first] + rest);
    if m > 0 {
        assert(all[m] == rest[m - 1]);
        lemma_paragraph_shape(s, e, m - 1);
    } else {
        assert forall|i: int| 0 <= i && i + 2 < first.len() implies !(#[trigger] first[i] == '\n'
            && first[i + 1] == '\n') by {
            assert(!chunks::break_at(s, from + i));
        }
        if rest.len() > 0 {
            lemma_end_shape(s, from);
        }
    }
}

/// A paragraph that is not the last has its break inside of it.
proof fn lemma_end_shape(s: Seq<char>, i: int)
    requires
        0 <= i < s.len(),
        chunks::paragraph_end(s, i) < s.len(),
    ensures
        i + 2 <= chunks::paragraph_end(s, i),
        behind_break(s, chunks::paragraph_end(s, i)),
        behind_break(
            s.subrange(i, chunks::paragraph_end(s, i)),
            chunks::paragraph_end(s, i) - i,
        ),
    decreases s.len() - i,
{
    if !chunks::break_at(s, i) {
        if i + 1 < s.len() {
            lemma_end_shape(s, i + 1);
        } else {
            assert(chunks::paragraph_end(s, i + 1) == s.len());
        }
    }
}

/// The chunks of a section start behind breaks, and had no room before.
proof fn lemma_section_starts(s: Seq<char>, max: nat, j: int)
    requires
        0 < j < chunks::section_chunks(s, max).len(),
    ensures
        behind_break(s, start_of(chunks::section_chunks(s, max), j)),
        had_no_room(
            chunks::section_chunks(s, max)[j - 1],
            chunks::section_chunks(s, max)[j],
            max,
        ),
{
    let r = chunks::section_chunks(s, max);
    if chunks::size(s) <= max {
        assert(r.len() == 1);
    } else {
        let parts = chunks::paragraphs(s, 0);
        let none = Seq::<char>::empty();
        lemma_paragraph_starts(s, 0);
        lemma_gathered_starts(parts, 0, none, max, j);
        lemma_start_zero(parts);
        let m = choose|m: int|
            0 <= m < parts.len() && start_of(r, j) == none.len() + start_of(parts, m) - start_of(
                parts,
                0,
            ) && none.len() + start_of(parts, m) - start_of(parts, 0) > 0
                && #[trigger] parts[m].len() <= r[j].len() && r[j].take(parts[m].len() as int)
                == parts[m] && utf::bytes_of(r[j - 1]).len() + utf::bytes_of(parts[m]).len() > max;
        assert(m > 0);
        assert(behind_break(s, 0 + start_of(parts, m)));
        lemma_paragraph_shape(s, 0, m);
        let n = parts[m].len() as int;
        assert(one_paragraph(r[j].take(n)));
        if n < r[j].len() {
            lemma_longer_chunk(parts, s, max, j, m);
        }
    }
}

/// A chunk that goes on behind its first paragraph has that paragraph's break.
proof fn lemma_longer_chunk(parts: Seq<Seq<char>>, s: Seq<char>, max: nat, j: int, m: int)
    requires
        parts == chunks::paragraphs(s, 0),
        chunks::size(s) > max,
        0 < j < chunks::section_chunks(s, max).len(),
        0 < m < parts.len(),
        start_of(chunks::section_chunks(s, max), j) == start_of(parts, m),
        parts[m].len() < chunks::section_chunks(s, max)[j].len(),
        chunks::section_chunks(s, max)[j].take(parts[m].len() as int) == parts[m],
    ensures
        behind_break(chunks::section_chunks(s, max)[j], parts[m].len() as int),
{
    let r = chunks::section_chunks(s, max);
    let n = parts[m].len() as int;
    lemma_paragraph_shape(s, 0, m);
    if m + 1 == parts.len() {
        // The last paragraph has nothing behind it, so neither has the chunk.
        lemma_joins(s, max);
        lemma_total(r, j);
        assert(parts.take(m + 1) =~= parts);
        assert(parts.take(m + 1) =~= parts.take(m).push(parts[m]));
        text::lemma_concat_push(parts.take(m), parts[m]);
        assert(false);
    } else {
        assert(behind_break(parts[m], n));
        assert(r[j][n - 2] == r[j].take(n)[n - 2]);
        assert(r[j][n - 1] == r[j].take(n)[n - 1]);
    }
}

/// A piece ends at or before the end of the whole.
proof fn lemma_total(parts: Seq<Seq<char>>, j: int)
    requires
        0 <= j < parts.len(),
    ensures
        start_of(parts, j) + parts[j].len() <= text::concat(parts).len(),
        text::concat(parts).subrange(start_of(parts, j), start_of(parts, j) + parts[j].len())
            == parts[j],
{
    assert(parts =~= parts.take(j).push(parts[j]) + parts.skip(j + 1));
    chunk_laws::lemma_concat_add(parts.take(j).push(parts[j]), parts.skip(j + 1));
    text::lemma_concat_push(parts.take(j), parts[j]);
    assert(text::concat(parts).subrange(start_of(parts, j), start_of(parts, j) + parts[j].len())
        =~= parts[j]);
}

/// The paragraphs and the chunks of a section that is cut join to the same text.
proof fn lemma_joins(s: Seq<char>, max: nat)
    requires
        chunks::size(s) > max,
    ensures
        text::concat(chunks::section_chunks(s, max)) == text::concat(chunks::paragraphs(s, 0)),
{
    chunk_laws::lemma_section_joins(s, max);
    chunk_laws::lemma_paragraphs_join(s);
}

/// Sections start with headings.
proof fn lemma_cut_at(s: Seq<char>, cuts: Seq<(int, int)>, k: int, from: int, j: int)
    requires
        0 <= k <= cuts.len(),
        0 <= from <= s.len(),
        forall|i: int| k <= i < cuts.len() ==> from <= (#[trigger] cuts[i]).0 < s.len(),
        forall|i: int, l: int|
            0 <= i < l < cuts.len() ==> (#[trigger] cuts[i]).0 < (#[trigger] cuts[l]).0,
        0 < j < chunks::cut(s, cuts, k, from).len(),
    ensures
        exists|i: int|
            k <= i < cuts.len() && (#[trigger] cuts[i]).0 == from + start_of(
                chunks::cut(s, cuts, k, from),
                j,
            ),
    decreases cuts.len() - k,
{
    let r = chunks::cut(s, cuts, k, from);
    if k < cuts.len() {
        let p = cuts[k].0;
        let rest = chunks::cut(s, cuts, k + 1, p);
        if p > from {
            let first = s.subrange(from, p);
            assert(r == seq![first] + rest);
            lemma_start_behind(first, rest, j);
            if j == 1 {
                lemma_start_zero(rest);
                assert(cuts[k].0 == from + start_of(r, j));
            } else {
                lemma_cut_at(s, cuts, k + 1, p, j - 1);
                let i = choose|i: int|
                    k + 1 <= i < cuts.len() && (#[trigger] cuts[i]).0 == p + start_of(rest, j - 1);
                assert(cuts[i].0 == from + start_of(r, j));
            }
        } else {
            lemma_cut_at(s, cuts, k + 1, p, j);
            let i = choose|i: int|
                k + 1 <= i < cuts.len() && (#[trigger] cuts[i]).0 == p + start_of(rest, j);
            assert(cuts[i].0 == from + start_of(r, j));
        }
    }
}

/// A chunk number of all sections is a chunk number of one of them.
proof fn lemma_chunk_of_section(parts: Seq<Seq<char>>, n: int, max: nat, j: int)
    requires
        0 <= n <= parts.len(),
        0 <= j < chunks::chunks_of(parts, n, max).len(),
    ensures
        exists|q: int, i: int|
            0 <= q < n && 0 <= i < #[trigger] chunks::section_chunks(parts[q], max).len()
                && #[trigger] start_of(chunks::section_chunks(parts[q], max), i) + text::concat(
                chunks::chunks_of(parts, q, max),
            ).len() == start_of(chunks::chunks_of(parts, n, max), j) && chunks::chunks_of(
                parts,
                n,
                max,
            )[j] == chunks::section_chunks(parts[q], max)[i] && (i > 0 ==> chunks::chunks_of(
                parts,
                n,
                max,
            )[j - 1] == chunks::section_chunks(parts[q], max)[i - 1]),
    decreases n,
{
    let before = chunks::chunks_of(parts, n - 1, max);
    let more = chunks::section_chunks(parts[n - 1], max);
    let all = chunks::chunks_of(parts, n, max);
    assert(all == before + more);
    if j < before.len() {
        lemma_chunk_of_section(parts, n - 1, max, j);
        assert(all.take(j) =~= before.take(j));
        let (q, i) = choose|q: int, i: int|
            0 <= q < n - 1 && 0 <= i < #[trigger] chunks::section_chunks(parts[q], max).len()
                && #[trigger] start_of(chunks::section_chunks(parts[q], max), i) + text::concat(
                chunks::chunks_of(parts, q, max),
            ).len() == start_of(before, j) && before[j] == chunks::section_chunks(
                parts[q],
                max,
            )[i] && (i > 0 ==> before[j - 1] == chunks::section_chunks(parts[q], max)[i - 1]);
        let section = chunks::section_chunks(parts[q], max);
        assert(start_of(section, i) + text::concat(chunks::chunks_of(parts, q, max)).len()
            == start_of(all, j));
        assert(all[j] == before[j]);
        if i > 0 {
            if j == 0 {
                // Chunk 0 starts at 0, and nothing stands before it.
                lemma_start_zero(before);
                lemma_total(section, i - 1);
                chunk_laws::lemma_section_filled(parts[q], max);
                assert(section.take(i) =~= section.take(i - 1).push(section[i - 1]));
                text::lemma_concat_push(section.take(i - 1), section[i - 1]);
            } else {
                assert(all[j - 1] == before[j - 1]);
            }
        }
    } else {
        let i = j - before.len();
        assert(all.take(j) =~= before + more.take(i));
        chunk_laws::lemma_concat_add(before, more.take(i));
        assert(start_of(more, i) + text::concat(before).len() == start_of(all, j));
        if i > 0 {
            assert(all[j - 1] == more[i - 1]);
        }
    }
}

/// Where a chunk starts in the body: with a section, or inside of one, behind a
/// break and for want of room.
proof fn lemma_chunk_start(body: Seq<char>, max: nat, j: int)
    requires
        0 < j < chunks::chunks(body, max).len(),
    ensures
        ({
            let all = chunks::chunks(body, max);
            let p = start_of(all, j);
            patterns::heading_at(body, p) || (behind_break(body, p) && had_no_room(
                all[j - 1],
                all[j],
                max,
            ))
        }),
{
    let all = chunks::chunks(body, max);
    if chunks::size(body) > max {
        let parts = chunks::sections(body);
        let n = parts.len() as int;
        chunk_laws::lemma_sections(body);
        lemma_chunk_of_section(parts, n, max, j);
        let (q, i) = choose|q: int, i: int|
            0 <= q < n && 0 <= i < #[trigger] chunks::section_chunks(parts[q], max).len()
                && #[trigger] start_of(chunks::section_chunks(parts[q], max), i) + text::concat(
                chunks::chunks_of(parts, q, max),
            ).len() == start_of(all, j) && all[j] == chunks::section_chunks(parts[q], max)[i] && (i
                > 0 ==> all[j - 1] == chunks::section_chunks(parts[q], max)[i - 1]);
        let section = chunks::section_chunks(parts[q], max);
        chunk_laws::lemma_chunks_of_join(parts, q, max);
        assert(text::concat(chunks::chunks_of(parts, q, max)).len() == start_of(parts, q));
        lemma_total(parts, q);
        if i > 0 {
            lemma_section_starts(parts[q], max, i);
            let o = start_of(parts, q);
            let p = start_of(section, i);
            assert(parts[q][p - 2] == body[o + p - 2]);
            assert(parts[q][p - 1] == body[o + p - 1]);
        } else {
            lemma_start_zero(section);
            if q == 0 {
                lemma_start_zero(parts);
                // Only the first chunk starts with the body.
                lemma_first_chunk(body, max, j);
            } else {
                chunks::lemma_headings(body, 0);
                lemma_cut_at(body, patterns::headings(body), 0, 0, q);
                let cuts = patterns::headings(body);
                let c = choose|c: int|
                    0 <= c < cuts.len() && (#[trigger] cuts[c]).0 == 0 + start_of(
                        chunks::cut(body, cuts, 0, 0),
                        q,
                    );
                assert(patterns::heading_at(body, cuts[c].0));
            }
        }
    }
}

/// A chunk behind the first starts behind the start of the body.
proof fn lemma_first_chunk(body: Seq<char>, max: nat, j: int)
    requires
        0 < j < chunks::chunks(body, max).len(),
        chunks::size(body) > max,
    ensures
        start_of(chunks::chunks(body, max), j) > 0,
{
    let all = chunks::chunks(body, max);
    if body.len() == 0 {
        assert(utf::bytes_of(body).len() == 0);
    }
    chunk_laws::chunks_are_not_empty(body, max);
    lemma_total(all.take(j), 0);
    assert(all.take(j)[0] == all[0]);
}

/// A paragraph is never cut: each chunk but the first starts with a heading, or
/// directly behind a paragraph break.
pub proof fn chunks_start_at_boundaries(body: Seq<char>, max: nat, j: int)
    requires
        0 < j < chunks::chunks(body, max).len(),
    ensures
        ({
            let p = text::concat(chunks::chunks(body, max).take(j)).len() as int;
            patterns::heading_at(body, p) || (p >= 2 && body[p - 2] == '\n' && body[p - 1] == '\n')
        }),
{
    lemma_chunk_start(body, max, j);
}

/// Paragraphs stay together as far as they can: where a chunk starts without a
/// heading, its first paragraph had no room in the chunk before.
pub proof fn chunks_are_filled_up(body: Seq<char>, max: nat, j: int)
    requires
        0 < j < chunks::chunks(body, max).len(),
        !patterns::heading_at(
            body,
            text::concat(chunks::chunks(body, max).take(j)).len() as int,
        ),
    ensures
        had_no_room(chunks::chunks(body, max)[j - 1], chunks::chunks(body, max)[j], max),
{
    lemma_chunk_start(body, max, j);
}

/// A body that is small enough is one chunk.
pub proof fn small_bodies_are_one_chunk(body: Seq<char>, max: nat)
    requires
        utf::bytes_of(body).len() <= max,
    ensures
        chunks::chunks(body, max) == seq![body],
{
}

/// A chunk has at most `max` bytes, or it is one paragraph.
pub proof fn large_chunks_are_one_paragraph(body: Seq<char>, max: nat, j: int)
    requires
        0 <= j < chunks::chunks(body, max).len(),
        utf::bytes_of(chunks::chunks(body, max)[j]).len() > max,
    ensures
        one_paragraph(chunks::chunks(body, max)[j]),
{
    chunk_laws::chunks_are_small_or_single(body, max);
    let c = chunks::chunks(body, max)[j];
    assert(chunk_laws::small_or_single(c, max));
    assert forall|i: int| 0 <= i && i + 2 < c.len() implies !(#[trigger] c[i] == '\n' && c[i + 1]
        == '\n') by {
        assert(!chunks::break_at(c, i));
    }
}

/// A body that is too large is cut before every heading, and the pieces of any
/// body join to it.
pub proof fn large_bodies_are_cut_at_headings(body: Seq<char>, max: nat, p: int)
    requires
        utf::bytes_of(body).len() > max,
        patterns::heading_at(body, p),
    ensures
        exists|j: int|
            0 <= j < chunks::chunks(body, max).len() && #[trigger] start_of(
                chunks::chunks(body, max),
                j,
            ) == p,
        text::concat(chunks::chunks(body, max)) == body,
{
    chunk_laws::chunks_join_to_the_body(body, max);
    chunk_laws::headings_start_chunks(body, max, p);
    let all = chunks::chunks(body, max);
    let j = choose|j: int|
        0 <= j < all.len() && (#[trigger] text::concat(all.take(j))).len() == p;
    assert(start_of(all, j) == p);
}

/// A sectioning command.
pub open spec fn sectioning(name: Seq<char>) -> bool {
    ||| name == "\\section"@
    ||| name == "\\subsection"@
    ||| name == "\\subsubsection"@
    ||| name == "\\chapter"@
    ||| name == "\\part"@
}

/// The command stands at `i` and opens its argument, with a star before that or none.
pub open spec fn opens(s: Seq<char>, name: Seq<char>, i: int) -> bool {
    text::occurs_at(s, name + seq!['{'], i) || text::occurs_at(s, name + seq!['*', '{'], i)
}

proof fn lemma_opens(s: Seq<char>, name: Seq<char>, i: int)
    ensures
        opens(s, name, i) <==> patterns::named_heading(s, i, name) is Some,
{
    let n = name.len() as int;
    let plain = name + seq!['{'];
    let starred = name + seq!['*', '{'];
    if text::occurs_at(s, plain, i) {
        let p = s.subrange(i, i + n + 1);
        assert(p[n] == plain[n]);
        assert(p[n] == s[i + n]);
        assert(s.subrange(i, i + n) =~= p.take(n));
        assert(plain.take(n) =~= name);
    }
    if text::occurs_at(s, starred, i) {
        let p = s.subrange(i, i + n + 2);
        assert(p[n] == starred[n] && p[n + 1] == starred[n + 1]);
        assert(p[n] == s[i + n] && p[n + 1] == s[i + n + 1]);
        assert(s.subrange(i, i + n) =~= p.take(n));
        assert(starred.take(n) =~= name);
    }
    if patterns::named_heading(s, i, name) is Some {
        if patterns::stands_at(s, i + n, '*') {
            assert(s.subrange(i, i + n + 2) =~= starred);
        } else {
            assert(s.subrange(i, i + n + 1) =~= plain);
        }
    }
}

/// A heading is a sectioning command at the start of a line.
pub proof fn headings_are_sectioning_commands(s: Seq<char>, i: int)
    requires
        0 <= i < s.len(),
    ensures
        patterns::heading_at(s, i) <==> (i == 0 || s[i - 1] == '\n') && (exists|name: Seq<char>|
            sectioning(name) && #[trigger] opens(s, name, i)),
{
    lemma_opens(s, "\\section"@, i);
    lemma_opens(s, "\\subsection"@, i);
    lemma_opens(s, "\\subsubsection"@, i);
    lemma_opens(s, "\\chapter"@, i);
    lemma_opens(s, "\\part"@, i);
    if exists|name: Seq<char>| sectioning(name) && #[trigger] opens(s, name, i) {
        let name = choose|name: Seq<char>| sectioning(name) && #[trigger] opens(s, name, i);
        lemma_opens(s, name, i);
    }
}

} // verus!
