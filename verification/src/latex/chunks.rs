//! Cutting a document body into pieces for translation.

use crate::{outside, patterns, text, utf};
use vstd::prelude::*;

verus! {

/// The length of a text in bytes.
pub open spec fn size(s: Seq<char>) -> nat {
    utf::bytes_of(s).len()
}

/// The text from `from` on, cut before each of the cuts from number `k` on. No
/// piece is empty.
pub open spec fn cut(s: Seq<char>, cuts: Seq<(int, int)>, k: int, from: int) -> Seq<Seq<char>>
    decreases cuts.len() - k,
{
    if k >= cuts.len() {
        if from < s.len() {
            seq![s.subrange(from, s.len() as int)]
        } else {
            Seq::empty()
        }
    } else if cuts[k].0 > from {
        seq![s.subrange(from, cuts[k].0)] + cut(s, cuts, k + 1, cuts[k].0)
    } else {
        cut(s, cuts, k + 1, cuts[k].0)
    }
}

/// The sections of a text: a new one starts with each heading.
pub open spec fn sections(s: Seq<char>) -> Seq<Seq<char>> {
    cut(s, patterns::headings(s), 0, 0)
}

/// A paragraph break: two line ends in a row.
pub open spec fn break_at(s: Seq<char>, i: int) -> bool {
    0 <= i && i + 1 < s.len() && s[i] == '\n' && s[i + 1] == '\n'
}

/// The end of the paragraph that goes on at `i`, behind its break.
pub open spec fn paragraph_end(s: Seq<char>, i: int) -> int
    decreases s.len() - i,
{
    if i >= s.len() {
        s.len() as int
    } else if break_at(s, i) {
        i + 2
    } else {
        paragraph_end(s, i + 1)
    }
}

pub proof fn lemma_paragraph_end(s: Seq<char>, i: int)
    requires
        0 <= i < s.len(),
    ensures
        i < paragraph_end(s, i) <= s.len(),
        forall|j: int| i <= j && j + 2 < paragraph_end(s, i) ==> !break_at(s, j),
    decreases s.len() - i,
{
    if !break_at(s, i) {
        if i + 1 < s.len() {
            lemma_paragraph_end(s, i + 1);
        } else {
            assert(paragraph_end(s, i + 1) == s.len());
        }
    }
}

/// The paragraphs of a text from `from` on, each with its break.
pub open spec fn paragraphs(s: Seq<char>, from: int) -> Seq<Seq<char>>
    decreases s.len() - from,
{
    if from < 0 || from >= s.len() {
        Seq::empty()
    } else {
        proof {
            lemma_paragraph_end(s, from);
        }
        seq![s.subrange(from, paragraph_end(s, from))] + paragraphs(s, paragraph_end(s, from))
    }
}

/// The paragraphs from number `k` on behind `current`, gathered into chunks: a
/// chunk is closed when the next paragraph would take it over `max` bytes.
pub open spec fn gathered(
    parts: Seq<Seq<char>>,
    k: int,
    current: Seq<char>,
    max: nat,
) -> Seq<Seq<char>>
    decreases parts.len() - k,
{
    if k >= parts.len() {
        if current.len() == 0 {
            Seq::empty()
        } else {
            seq![current]
        }
    } else if size(current) + size(parts[k]) > max && current.len() > 0 {
        seq![current] + gathered(parts, k + 1, parts[k], max)
    } else {
        gathered(parts, k + 1, current + parts[k], max)
    }
}

/// The chunks of one section.
pub open spec fn section_chunks(s: Seq<char>, max: nat) -> Seq<Seq<char>> {
    if size(s) <= max {
        seq![s]
    } else {
        gathered(paragraphs(s, 0), 0, Seq::empty(), max)
    }
}

/// The chunks of the first `n` sections.
pub open spec fn chunks_of(parts: Seq<Seq<char>>, n: int, max: nat) -> Seq<Seq<char>>
    decreases n,
{
    if n <= 0 {
        Seq::empty()
    } else {
        chunks_of(parts, n - 1, max) + section_chunks(parts[n - 1], max)
    }
}

/// The chunks of a body: all of it where it is small enough, else the chunks of
/// its sections.
pub open spec fn chunks(body: Seq<char>, max: nat) -> Seq<Seq<char>> {
    if size(body) <= max {
        seq![body]
    } else {
        chunks_of(sections(body), sections(body).len() as int, max)
    }
}

// ---------------------------------------------------------------- code

/// The headings stand one behind the other.
pub proof fn lemma_headings(s: Seq<char>, i: int)
    requires
        0 <= i,
    ensures
        forall|k: int|
            0 <= k < patterns::headings_from(s, i).len() ==> i <= (
            #[trigger] patterns::headings_from(s, i)[k]).0 < s.len() && patterns::heading_at(
                s,
                patterns::headings_from(s, i)[k].0,
            ),
        forall|k: int, l: int|
            0 <= k < l < patterns::headings_from(s, i).len() ==> (
            #[trigger] patterns::headings_from(s, i)[k]).0 < (
            #[trigger] patterns::headings_from(s, i)[l]).0,
        forall|p: int|
            i <= p && #[trigger] patterns::heading_at(s, p) ==> exists|k: int|
                0 <= k < patterns::headings_from(s, i).len() && (
                #[trigger] patterns::headings_from(s, i)[k]).0 == p,
    decreases s.len() - i,
{
    if i < s.len() {
        lemma_headings(s, i + 1);
        let rest = patterns::headings_from(s, i + 1);
        let all = patterns::headings_from(s, i);
        if patterns::heading_at(s, i) {
            let p = (i, patterns::heading_end(s, i)->0);
            assert(all == seq![p] + rest);
            assert forall|k: int| 0 <= k < all.len() implies i <= (#[trigger] all[k]).0 < s.len()
                && patterns::heading_at(s, all[k].0) by {
                if k > 0 {
                    assert(all[k] == rest[k - 1]);
                }
            }
            assert forall|k: int, l: int| 0 <= k < l < all.len() implies (#[trigger] all[k]).0 < (
            #[trigger] all[l]).0 by {
                assert(all[l] == rest[l - 1]);
                if k > 0 {
                    assert(all[k] == rest[k - 1]);
                }
            }
            assert forall|q: int| i <= q && #[trigger] patterns::heading_at(s, q) implies exists|
                k: int,
            |
                0 <= k < all.len() && (#[trigger] all[k]).0 == q by {
                if q == i {
                    assert(all[0].0 == q);
                } else {
                    let k = choose|k: int| 0 <= k < rest.len() && (#[trigger] rest[k]).0 == q;
                    assert(all[k + 1] == rest[k]);
                }
            }
        } else {
            assert(all == rest);
        }
    }
}

/// The sections of a body.
fn split_sections(body: &str) -> (r: Vec<String>)
    ensures
        text::texts(r@) == sections(body@),
{
    let ghost s = body@;
    let ghost cuts = patterns::headings(s);
    let found = outside::regex_find_iter(patterns::SECTION, body);
    let ghost spans = patterns::pairs(found@);
    let len: usize = text::byte_len(body);
    proof {
        lemma_headings(s, 0);
        utf::lemma_offsets(s, 0, s.len() as int);
    }
    let mut r: Vec<String> = Vec::new();
    let mut last: usize = 0;
    let ghost mut from: int = 0;
    let mut k: usize = 0;
    assert(text::texts(r@) + sections(s) =~= sections(s));
    while k < found.len()
        invariant
            k <= found.len(),
            s == body@,
            cuts == patterns::headings(s),
            spans == patterns::pairs(found@),
            spans == patterns::in_bytes(s, cuts),
            0 <= from <= s.len(),
            last == utf::offset_of(s, from),
            forall|i: int| 0 <= i < cuts.len() ==> 0 <= (#[trigger] cuts[i]).0 < s.len(),
            forall|i: int, l: int|
                0 <= i < l < cuts.len() ==> (#[trigger] cuts[i]).0 < (#[trigger] cuts[l]).0,
            forall|i: int| k <= i < cuts.len() ==> from <= (#[trigger] cuts[i]).0,
            text::texts(r@) + cut(s, cuts, k as int, from) == sections(s),
        decreases found.len() - k,
    {
        let start: usize = found[k].0;
        let ghost p = cuts[k as int].0;
        proof {
            assert(spans.len() == cuts.len());
            assert(spans[k as int].0 == start);
            assert(patterns::in_bytes(s, cuts)[k as int].0 == utf::offset_of(s, p));
            assert(start == utf::offset_of(s, p));
            utf::lemma_offsets(s, from, p);
        }
        if start > last {
            let ghost before = text::texts(r@);
            let part = text::piece(body, last, start, Ghost(from), Ghost(p));
            r.push(part.to_owned());
            assert(text::texts(r@) =~= before.push(part@));
            assert(text::texts(r@) + cut(s, cuts, k + 1, p) =~= before + (seq![part@] + cut(
                s,
                cuts,
                k + 1,
                p,
            )));
        }
        last = start;
        proof {
            from = p;
        }
        k += 1;
    }
    proof {
        assert(spans.len() == cuts.len());
        utf::lemma_offsets(s, from, s.len() as int);
    }
    if last < len {
        let ghost before = text::texts(r@);
        let part = text::piece(body, last, len, Ghost(from), Ghost(s.len() as int));
        r.push(part.to_owned());
        assert(text::texts(r@) =~= before.push(part@));
        assert(text::texts(r@) =~= before + seq![part@]);
    } else {
        assert(text::texts(r@) + Seq::<Seq<char>>::empty() =~= text::texts(r@));
    }
    r
}

/// The paragraphs of a text, each with its break.
fn split_paragraphs(section: &str) -> (r: Vec<String>)
    ensures
        text::texts(r@) == paragraphs(section@, 0),
{
    let ghost s = section@;
    let cs = text::chars_of(section);
    let mut r: Vec<String> = Vec::new();
    let mut from: usize = 0;
    assert(text::texts(r@) + paragraphs(s, 0) =~= paragraphs(s, 0));
    while from < cs.len()
        invariant
            from <= cs.len(),
            cs@ == s,
            s == section@,
            text::texts(r@) + paragraphs(s, from as int) == paragraphs(s, 0),
        decreases cs.len() - from,
    {
        proof {
            lemma_paragraph_end(s, from as int);
        }
        let mut i: usize = from;
        while i < cs.len() && !(i + 1 < cs.len() && cs[i] == '\n' && cs[i + 1] == '\n')
            invariant
                from <= i <= cs.len(),
                cs@ == s,
                paragraph_end(s, from as int) == paragraph_end(s, i as int),
            decreases cs.len() - i,
        {
            i += 1;
        }
        let end: usize = if i < cs.len() {
            i + 2
        } else {
            i
        };
        let ghost before = text::texts(r@);
        let part = section.substring_char(from, end);
        r.push(part.to_owned());
        assert(text::texts(r@) =~= before.push(part@));
        assert(text::texts(r@) + paragraphs(s, end as int) =~= before + (seq![part@] + paragraphs(
            s,
            end as int,
        )));
        from = end;
    }
    assert(text::texts(r@) + Seq::<Seq<char>>::empty() =~= text::texts(r@));
    r
}

/// Appends the paragraphs, gathered into chunks, to `out`.
fn gather(parts: &Vec<String>, max: usize, out: &mut Vec<String>)
    ensures
        text::texts(final(out)@) == text::texts(old(out)@) + gathered(
            text::texts(parts@),
            0,
            Seq::empty(),
            max as nat,
        ),
{
    let ghost ps = text::texts(parts@);
    let ghost target = text::texts(out@) + gathered(ps, 0, Seq::empty(), max as nat);
    let mut current = String::new();
    let mut k: usize = 0;
    assert(current@ =~= Seq::<char>::empty());
    while k < parts.len()
        invariant
            k <= parts.len(),
            ps == text::texts(parts@),
            text::texts(out@) + gathered(ps, k as int, current@, max as nat) == target,
        decreases parts.len() - k,
    {
        let part = parts[k].as_str();
        assert(ps[k as int] == part@);
        let have: usize = text::byte_len(current.as_str());
        let more: usize = text::byte_len(part);
        let over = have > max || more > max - have;
        if over && !current.as_str().is_empty() {
            let ghost before = text::texts(out@);
            let ghost closed = current@;
            out.push(current);
            assert(text::texts(out@) =~= before.push(closed));
            assert(text::texts(out@) + gathered(ps, k + 1, part@, max as nat) =~= before + (seq![
                closed,
            ] + gathered(ps, k + 1, part@, max as nat)));
            current = part.to_owned();
        } else {
            current.append(part);
        }
        k += 1;
    }
    if !current.as_str().is_empty() {
        let ghost before = text::texts(out@);
        let ghost closed = current@;
        out.push(current);
        assert(text::texts(out@) =~= before.push(closed));
        assert(text::texts(out@) =~= before + seq![closed]);
    } else {
        assert(text::texts(out@) + Seq::<Seq<char>>::empty() =~= text::texts(out@));
    }
}

/// Cuts a body into chunks of at most `max_bytes`, at headings and between
/// paragraphs. A paragraph is never cut.
pub fn split_into_chunks(body: &str, max_bytes: usize) -> (r: Vec<String>)
    ensures
        text::texts(r@) == chunks(body@, max_bytes as nat),
{
    let mut r: Vec<String> = Vec::new();
    if text::byte_len(body) <= max_bytes {
        r.push(body.to_owned());
        assert(text::texts(r@) =~= seq![body@]);
        return r;
    }
    let parts = split_sections(body);
    let ghost ps = text::texts(parts@);
    assert(text::texts(r@) =~= chunks_of(ps, 0, max_bytes as nat));
    let mut k: usize = 0;
    while k < parts.len()
        invariant
            k <= parts.len(),
            ps == text::texts(parts@),
            text::texts(r@) == chunks_of(ps, k as int, max_bytes as nat),
        decreases parts.len() - k,
    {
        let section = parts[k].as_str();
        assert(ps[k as int] == section@);
        if text::byte_len(section) <= max_bytes {
            let ghost before = text::texts(r@);
            r.push(section.to_owned());
            assert(text::texts(r@) =~= before.push(section@));
            assert(text::texts(r@) =~= before + seq![section@]);
        } else {
            let paras = split_paragraphs(section);
            gather(&paras, max_bytes, &mut r);
        }
        k += 1;
    }
    r
}

} // verus!
