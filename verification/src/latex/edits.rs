//! Replacing pieces of a text, by byte offsets.

use crate::{text, utf};
use vstd::prelude::*;
use vstd::utf8::*;

verus! {

/// A replacement of the bytes from `start` up to `end`.
pub struct EditAt {
    pub start: int,
    pub end: int,
    pub text: Seq<u8>,
}

/// A replacement of what stands between two byte offsets.
pub struct Edit {
    pub start: usize,
    pub end: usize,
    pub text: String,
}

impl View for Edit {
    type V = EditAt;

    open spec fn view(&self) -> EditAt {
        EditAt {
            start: self.start as int,
            end: self.end as int,
            text: utf::bytes_of(self.text@),
        }
    }
}

/// What a list of edits stands for.
pub open spec fn edit_views(v: Seq<Edit>) -> Seq<EditAt> {
    v.map_values(|e: Edit| e@)
}

/// The edit lies in the text and cuts no character.
pub open spec fn edit_fits(b: Seq<u8>, e: EditAt) -> bool {
    &&& 0 <= e.start <= e.end <= b.len()
    &&& is_char_boundary(b, e.start)
    &&& is_char_boundary(b, e.end)
}

/// The text with one replacement made.
pub open spec fn replaced(b: Seq<u8>, e: EditAt) -> Seq<u8> {
    b.take(e.start) + e.text + b.skip(e.end)
}

/// The text with the replacements made, the last one first.
pub open spec fn applied(b: Seq<u8>, edits: Seq<EditAt>) -> Seq<u8>
    decreases edits.len(),
{
    if edits.len() == 0 {
        b
    } else {
        applied(replaced(b, edits.last()), edits.drop_last())
    }
}

/// Each replacement, the last one first, lies in the text that the ones before
/// it left, and cuts no character of it.
pub open spec fn edits_fit(b: Seq<u8>, edits: Seq<EditAt>) -> bool
    decreases edits.len(),
{
    edits.len() == 0 || {
        &&& edit_fits(b, edits.last())
        &&& edits_fit(replaced(b, edits.last()), edits.drop_last())
    }
}

/// Each edit ends before the next one starts.
pub open spec fn apart(edits: Seq<EditAt>) -> bool {
    &&& forall|k: int| 0 <= k < edits.len() ==> (#[trigger] edits[k]).start <= edits[k].end
    &&& forall|k: int, l: int|
        0 <= k < l < edits.len() ==> (#[trigger] edits[k]).end <= (#[trigger] edits[l]).start
}

/// `e` put among edits that are in order of their starts, behind the ones that
/// start where it does.
pub open spec fn inserted(sorted: Seq<EditAt>, e: EditAt) -> Seq<EditAt>
    decreases sorted.len(),
{
    if sorted.len() == 0 || sorted.last().start <= e.start {
        sorted.push(e)
    } else {
        inserted(sorted.drop_last(), e).push(sorted.last())
    }
}

/// The edits in the order of their starts; those with one start stay in the
/// order in which they came.
pub open spec fn in_order(edits: Seq<EditAt>) -> Seq<EditAt>
    decreases edits.len(),
{
    if edits.len() == 0 {
        edits
    } else {
        inserted(in_order(edits.drop_last()), edits.last())
    }
}

/// The starts do not decrease.
pub open spec fn ordered(edits: Seq<EditAt>) -> bool {
    forall|k: int, l: int|
        0 <= k < l < edits.len() ==> (#[trigger] edits[k]).start <= (#[trigger] edits[l]).start
}

/// The edits that start at `p`, in their order.
pub open spec fn starting_at(edits: Seq<EditAt>, p: int) -> Seq<EditAt>
    decreases edits.len(),
{
    if edits.len() == 0 {
        edits
    } else if edits.last().start == p {
        starting_at(edits.drop_last(), p).push(edits.last())
    } else {
        starting_at(edits.drop_last(), p)
    }
}

proof fn lemma_inserted(sorted: Seq<EditAt>, e: EditAt, p: int)
    requires
        ordered(sorted),
    ensures
        ordered(inserted(sorted, e)),
        inserted(sorted, e).len() == sorted.len() + 1,
        inserted(sorted, e).to_multiset() == sorted.to_multiset().insert(e),
        starting_at(inserted(sorted, e), p) == starting_at(sorted.push(e), p),
        forall|k: int|
            0 <= k < inserted(sorted, e).len() ==> (#[trigger] inserted(sorted, e)[k]) == e
                || sorted.contains(inserted(sorted, e)[k]),
    decreases sorted.len(),
{
    broadcast use vstd::seq_lib::group_to_multiset_ensures;

    let r = inserted(sorted, e);
    if sorted.len() == 0 || sorted.last().start <= e.start {
        assert(r == sorted.push(e));
        assert forall|k: int| 0 <= k < r.len() implies (#[trigger] r[k]) == e || sorted.contains(
            r[k],
        ) by {
            if k < sorted.len() {
                assert(sorted[k] == r[k]);
            }
        }
        assert forall|k: int, l: int| 0 <= k < l < r.len() implies (#[trigger] r[k]).start
            <= (#[trigger] r[l]).start by {
            if l == sorted.len() && k < sorted.len() - 1 {
                assert(sorted[k].start <= sorted[sorted.len() - 1].start);
            }
        }
    } else {
        let head = sorted.drop_last();
        let last = sorted.last();
        assert(ordered(head)) by {
            assert forall|k: int, l: int| 0 <= k < l < head.len() implies (#[trigger] head[k]).start
                <= (#[trigger] head[l]).start by {
                assert(head[k] == sorted[k] && head[l] == sorted[l]);
            }
        }
        lemma_inserted(head, e, p);
        let q = inserted(head, e);
        assert(r == q.push(last));
        assert(sorted =~= head.push(last));
        assert(r.to_multiset() =~= sorted.to_multiset().insert(e));
        assert forall|k: int| 0 <= k < r.len() implies (#[trigger] r[k]) == e || sorted.contains(
            r[k],
        ) by {
            if k < q.len() {
                assert(q[k] == r[k]);
                if q[k] != e {
                    let m = choose|m: int| 0 <= m < head.len() && head[m] == q[k];
                    assert(sorted[m] == q[k]);
                }
            } else {
                assert(sorted[sorted.len() - 1] == r[k]);
            }
        }
        assert forall|k: int, l: int| 0 <= k < l < r.len() implies (#[trigger] r[k]).start
            <= (#[trigger] r[l]).start by {
            if l < q.len() {
                assert(q[k] == r[k] && q[l] == r[l]);
            } else {
                assert(q[k] == r[k]);
                if q[k] != e {
                    let m = choose|m: int| 0 <= m < head.len() && head[m] == q[k];
                    assert(sorted[m].start <= sorted[sorted.len() - 1].start);
                }
            }
        }
        assert(r.drop_last() =~= q);
        assert(head.push(e).drop_last() =~= head);
        assert(sorted.push(e).drop_last() =~= sorted);
        assert(starting_at(sorted.push(e), p) == starting_at(r, p)) by {
            reveal_with_fuel(starting_at, 3);
        }
    }
}

/// Sorting keeps the edits, puts them in the order of their starts, and leaves
/// those with one start in the order in which they came.
pub proof fn sorting_is_stable(edits: Seq<EditAt>, p: int)
    ensures
        ordered(in_order(edits)),
        in_order(edits).to_multiset() == edits.to_multiset(),
        starting_at(in_order(edits), p) == starting_at(edits, p),
    decreases edits.len(),
{
    broadcast use vstd::seq_lib::group_to_multiset_ensures;

    if edits.len() > 0 {
        let head = edits.drop_last();
        sorting_is_stable(head, p);
        lemma_inserted(in_order(head), edits.last(), p);
        assert(edits =~= head.push(edits.last()));
        assert(in_order(head).push(edits.last()).drop_last() =~= in_order(head));
    }
}

/// Making one replacement that fits leaves valid UTF-8.
pub proof fn lemma_replaced_valid(b: Seq<u8>, e: EditAt)
    requires
        valid_utf8(b),
        valid_utf8(e.text),
        edit_fits(b, e),
    ensures
        valid_utf8(replaced(b, e)),
{
    utf::lemma_ends_are_boundaries(b);
    utf::lemma_piece_valid(b, 0, e.start);
    utf::lemma_piece_valid(b, e.end, b.len() as int);
    assert(b.take(e.start) =~= b.subrange(0, e.start));
    assert(b.skip(e.end) =~= b.subrange(e.end, b.len() as int));
    valid_utf8_concat(b.take(e.start), e.text);
    valid_utf8_concat(b.take(e.start) + e.text, b.skip(e.end));
}

/// A boundary at or before an edit is one after it too.
proof fn lemma_boundary_kept(b: Seq<u8>, e: EditAt, i: int)
    requires
        valid_utf8(b),
        valid_utf8(e.text),
        edit_fits(b, e),
        0 <= i <= e.start,
        is_char_boundary(b, i),
    ensures
        is_char_boundary(replaced(b, e), i),
{
    let r = replaced(b, e);
    lemma_replaced_valid(b, e);
    utf::lemma_ends_are_boundaries(b);
    utf::lemma_ends_are_boundaries(r);
    if i < e.start {
        is_char_boundary_iff_not_is_continuation_byte(b, i);
        is_char_boundary_iff_not_is_continuation_byte(r, i);
        assert(r[i] == b[i]);
    } else {
        // What follows the cut is valid on its own, so the cut is a boundary.
        utf::lemma_piece_valid(b, 0, e.start);
        utf::lemma_piece_valid(b, e.end, b.len() as int);
        let head = b.take(e.start);
        let tail = e.text + b.skip(e.end);
        assert(head =~= b.subrange(0, e.start));
        assert(b.skip(e.end) =~= b.subrange(e.end, b.len() as int));
        valid_utf8_concat(e.text, b.skip(e.end));
        assert(r =~= head + tail);
        utf::lemma_join_boundary(head, tail);
    }
}

/// A piece of edits that lie apart lies apart.
proof fn lemma_piece_apart(edits: Seq<EditAt>, i: int, j: int)
    requires
        apart(edits),
        0 <= i <= j <= edits.len(),
    ensures
        apart(edits.subrange(i, j)),
{
    let piece = edits.subrange(i, j);
    assert forall|k: int| 0 <= k < piece.len() implies (#[trigger] piece[k]).start
        <= piece[k].end by {
        assert(piece[k] == edits[i + k]);
    }
    assert forall|k: int, l: int| 0 <= k < l < piece.len() implies (#[trigger] piece[k]).end <= (
    #[trigger] piece[l]).start by {
        assert(piece[k] == edits[i + k] && piece[l] == edits[i + l]);
    }
}

/// Edits that fit the text one by one, and lie apart from each other, can all be made.
pub proof fn edits_apart_fit(b: Seq<u8>, edits: Seq<EditAt>)
    requires
        valid_utf8(b),
        apart(edits),
        forall|k: int| 0 <= k < edits.len() ==> valid_utf8((#[trigger] edits[k]).text),
        forall|k: int| 0 <= k < edits.len() ==> edit_fits(b, #[trigger] edits[k]),
    ensures
        edits_fit(b, edits),
    decreases edits.len(),
{
    if edits.len() > 0 {
        let last = edits.last();
        let head = edits.drop_last();
        let r = replaced(b, last);
        assert(edits[edits.len() - 1] == last);
        lemma_replaced_valid(b, last);
        assert forall|k: int| 0 <= k < head.len() implies edit_fits(r, #[trigger] head[k]) by {
            assert(head[k] == edits[k]);
            assert(edits[k].end <= edits[edits.len() - 1].start);
            lemma_boundary_kept(b, last, head[k].start);
            lemma_boundary_kept(b, last, head[k].end);
        }
        assert forall|k: int| 0 <= k < head.len() implies valid_utf8((#[trigger] head[k]).text) by {
            assert(head[k] == edits[k]);
        }
        lemma_piece_apart(edits, 0, edits.len() - 1);
        assert(head =~= edits.subrange(0, edits.len() - 1));
        edits_apart_fit(r, head);
    }
}

/// Sorting brings in no edit that was not there.
pub proof fn lemma_sorted_from(edits: Seq<EditAt>)
    ensures
        forall|k: int|
            0 <= k < in_order(edits).len() ==> edits.contains(#[trigger] in_order(edits)[k]),
    decreases edits.len(),
{
    if edits.len() > 0 {
        let head = edits.drop_last();
        lemma_sorted_from(head);
        sorting_is_stable(head, 0);
        lemma_inserted(in_order(head), edits.last(), 0);
        let r = in_order(edits);
        assert forall|k: int| 0 <= k < r.len() implies edits.contains(#[trigger] r[k]) by {
            if r[k] == edits.last() {
                assert(edits[edits.len() - 1] == r[k]);
            } else {
                let m = choose|m: int| 0 <= m < in_order(head).len() && in_order(head)[m] == r[k];
                let n = choose|n: int| 0 <= n < head.len() && head[n] == in_order(head)[m];
                assert(edits[n] == r[k]);
            }
        }
    }
}

/// The text read from `from` on, with each edit made where it stands.
pub open spec fn spliced(b: Seq<u8>, edits: Seq<EditAt>, from: int) -> Seq<u8>
    decreases edits.len(),
{
    if edits.len() == 0 {
        b.skip(from)
    } else {
        b.subrange(from, edits[0].start) + edits[0].text + spliced(b, edits.skip(1), edits[0].end)
    }
}

/// The splice, one more edit at its end.
proof fn lemma_spliced_last(b: Seq<u8>, edits: Seq<EditAt>, from: int)
    requires
        edits.len() > 0,
        apart(edits),
        0 <= from <= edits[0].start,
        edits.last().end <= b.len(),
    ensures
        spliced(b, edits, from) == spliced(
            replaced(b, edits.last()),
            edits.drop_last(),
            from,
        ),
    decreases edits.len(),
{
    let last = edits.last();
    let r = replaced(b, last);
    let first = edits[0];
    assert(edits[edits.len() - 1] == last);
    if edits.len() == 1 {
        assert(spliced(b, edits.skip(1), first.end) == b.skip(first.end));
        assert(r.skip(from) =~= b.subrange(from, first.start) + first.text + b.skip(first.end));
    } else {
        let rest = edits.skip(1);
        lemma_piece_apart(edits, 1, edits.len() as int);
        assert(rest =~= edits.subrange(1, edits.len() as int));
        assert(first.end <= rest[0].start) by {
            assert(rest[0] == edits[1]);
        }
        assert(rest.last() == last);
        lemma_spliced_last(b, rest, first.end);
        assert(rest.drop_last() =~= edits.drop_last().skip(1));
        assert(first.end <= last.start);
        assert(r.subrange(from, first.start) =~= b.subrange(from, first.start));
    }
}

/// Edits that lie apart are made where they stand in the text: no edit moves
/// another one, and what lies between them stays.
pub proof fn edits_apart_are_spliced(b: Seq<u8>, edits: Seq<EditAt>)
    requires
        apart(edits),
        edits.len() > 0 ==> 0 <= edits[0].start && edits.last().end <= b.len(),
    ensures
        applied(b, edits) == spliced(b, edits, 0),
    decreases edits.len(),
{
    if edits.len() == 0 {
        assert(b.skip(0) =~= b);
    } else {
        let last = edits.last();
        let head = edits.drop_last();
        lemma_spliced_last(b, edits, 0);
        assert(edits[edits.len() - 1] == last);
        lemma_piece_apart(edits, 0, edits.len() - 1);
        assert(head =~= edits.subrange(0, edits.len() - 1));
        if head.len() > 0 {
            assert(head[0] == edits[0]);
            assert(head.last() == edits[edits.len() - 2]);
            assert(edits[edits.len() - 2].end <= last.start);
        }
        edits_apart_are_spliced(replaced(b, last), head);
    }
}

/// The edits in the order of their starts.
pub fn sort_edits(edits: Vec<Edit>) -> (r: Vec<Edit>)
    ensures
        edit_views(r@) == in_order(edit_views(edits@)),
{
    let ghost all = edit_views(edits@);
    let mut rest = edits;
    let mut waiting: Vec<Edit> = Vec::new();
    // Turned around, so that popping hands the edits out from the front.
    while rest.len() > 0
        invariant
            all == edit_views(rest@) + edit_views(waiting@).reverse(),
        decreases rest.len(),
    {
        let ghost before = edit_views(rest@);
        let ghost queue = edit_views(waiting@);
        let e = rest.pop().unwrap();
        assert(before =~= edit_views(rest@).push(e@));
        waiting.push(e);
        assert(edit_views(waiting@) =~= queue.push(e@));
        assert(all =~= edit_views(rest@) + edit_views(waiting@).reverse());
    }
    assert(all =~= edit_views(waiting@).reverse());
    let mut sorted: Vec<Edit> = Vec::new();
    assert(all.take(0) =~= Seq::<EditAt>::empty());
    while waiting.len() > 0
        invariant
            waiting.len() <= all.len(),
            edit_views(waiting@) == all.reverse().take(waiting.len() as int),
            edit_views(sorted@) == in_order(all.take(all.len() - waiting.len())),
        decreases waiting.len(),
    {
        let ghost n = all.len() - waiting.len();
        let ghost queue = edit_views(waiting@);
        let e = waiting.pop().unwrap();
        assert(queue.last() == e@);
        assert(e@ == all[n]);
        assert(edit_views(waiting@) =~= all.reverse().take(waiting.len() as int));
        let ghost before = sorted@;
        let mut place: usize = sorted.len();
        proof {
            let v = edit_views(before);
            assert(v.take(place as int) =~= v);
            assert(inserted(v, e@) + v.skip(place as int) =~= inserted(v, e@));
        }
        while place > 0 && sorted[place - 1].start > e.start
            invariant
                place <= sorted.len(),
                sorted@ == before,
                inserted(edit_views(before), e@) == inserted(
                    edit_views(before).take(place as int),
                    e@,
                ) + edit_views(before).skip(place as int),
            decreases place,
        {
            let ghost v = edit_views(before);
            assert(v.take(place as int).drop_last() =~= v.take(place - 1));
            assert(v.take(place as int).last() == v[place - 1]);
            assert(inserted(v.take(place - 1), e@).push(v[place - 1]) + v.skip(place as int)
                =~= inserted(v.take(place - 1), e@) + v.skip(place - 1));
            place -= 1;
        }
        let ghost v = edit_views(before);
        let ghost item = e@;
        proof {
            if place > 0 {
                assert(v.take(place as int).last() == v[place - 1]);
                assert(v[place - 1].start == before[place - 1].start);
            }
            assert(inserted(v.take(place as int), item) == v.take(place as int).push(item));
        }
        sorted.insert(place, e);
        assert(edit_views(sorted@) =~= v.take(place as int).push(item) + v.skip(place as int));
        assert(all.take(n + 1).drop_last() =~= all.take(n));
        assert(all.take(n + 1).last() == item);
    }
    assert(all.take(all.len() as int) =~= all);
    sorted
}

/// Makes the replacements, the last one first, where all of them fit.
pub fn try_apply(content: &str, edits: &Vec<Edit>) -> (r: Option<String>)
    ensures
        r is Some <==> edits_fit(utf::bytes_of(content@), edit_views(edits@)),
        r matches Some(s) ==> utf::bytes_of(s@) == applied(
            utf::bytes_of(content@),
            edit_views(edits@),
        ),
{
    let mut r: String = content.to_owned();
    let mut n: usize = edits.len();
    assert(edit_views(edits@).take(n as int) =~= edit_views(edits@));
    while n > 0
        invariant
            n <= edits.len(),
            edits_fit(utf::bytes_of(content@), edit_views(edits@)) <==> edits_fit(
                utf::bytes_of(r@),
                edit_views(edits@).take(n as int),
            ),
            applied(utf::bytes_of(content@), edit_views(edits@)) == applied(
                utf::bytes_of(r@),
                edit_views(edits@).take(n as int),
            ),
        decreases n,
    {
        let e = &edits[n - 1];
        let ghost b = utf::bytes_of(r@);
        let ghost v = edit_views(edits@).take(n as int);
        assert(v.last() == e@);
        assert(v.drop_last() =~= edit_views(edits@).take(n - 1));
        let old = r.as_str();
        let len: usize = text::byte_len(old);
        if e.start > e.end || e.end > len || !old.is_char_boundary(e.start)
            || !old.is_char_boundary(e.end) {
            return None;
        }
        proof {
            encode_utf8_valid_utf8(r@);
            encode_utf8_valid_utf8(e.text@);
            utf::lemma_ends_are_boundaries(b);
        }
        let head = text::slice(old, 0, e.start);
        let tail = text::slice(old, e.end, len);
        let mut next: String = head.to_owned();
        next.append(e.text.as_str());
        next.append(tail);
        proof {
            utf::lemma_encode_concat(head@, e.text@);
            utf::lemma_encode_concat(head@ + e.text@, tail@);
            assert(utf::bytes_of(next@) =~= replaced(b, e@));
        }
        r = next;
        n -= 1;
    }
    Some(r)
}

} // verus!
