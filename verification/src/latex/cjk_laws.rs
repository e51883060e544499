//! What adding Chinese support keeps.

use crate::latex::edits::EditAt;
use crate::latex::{cjk, edits, scan};
use crate::{patterns, text, utf};
use vstd::prelude::*;
use vstd::utf8::*;

verus! {

/// A byte of the masked text that is no space stands in the text itself.
pub proof fn lemma_unmasked(b: Seq<u8>, i: int)
    requires
        valid_utf8(b),
        0 <= i < b.len(),
        scan::masked(b)[i] != scan::SPACE,
        scan::masked(b)[i] <= 0x7f,
    ensures
        b[i] == scan::masked(b)[i],
        is_char_boundary(b, i),
        is_char_boundary(b, i + 1),
{
    utf::lemma_ascii_boundary(b, i);
}

proof fn lemma_behind_white(s: Seq<char>, i: int)
    requires
        0 <= i,
    ensures
        i <= patterns::behind_white(s, i),
        i <= s.len() ==> patterns::behind_white(s, i) <= s.len(),
    decreases s.len() - i,
{
    if i < s.len() && text::white_space(s[i]) {
        lemma_behind_white(s, i + 1);
    }
}

proof fn lemma_behind_digits(s: Seq<char>, i: int)
    requires
        0 <= i,
    ensures
        i <= patterns::behind_digits(s, i),
        i < patterns::behind_digits(s, i) ==> patterns::behind_digits(s, i) <= s.len() && '0'
            <= s[patterns::behind_digits(s, i) - 1] <= '9',
    decreases s.len() - i,
{
    if i < s.len() && '0' <= s[i] <= '9' {
        lemma_behind_digits(s, i + 1);
    }
}

/// A directive starts with a backslash and ends with a digit.
proof fn lemma_directives(s: Seq<char>, i: int)
    requires
        0 <= i,
    ensures
        forall|k: int|
            0 <= k < patterns::directives_from(s, i).len() ==> {
                let p = #[trigger] patterns::directives_from(s, i)[k];
                &&& 0 <= p.0 < p.1 <= s.len()
                &&& s[p.0] == '\\'
                &&& '0' <= s[p.1 - 1] <= '9'
                &&& text::occurs_at(s, "\\pdfoutput"@, p.0)
            },
    decreases s.len() - i,
{
    if i < s.len() {
        lemma_directives(s, i + 1);
        let rest = patterns::directives_from(s, i + 1);
        if patterns::directive_end(s, i) is Some {
            let name = "\\pdfoutput"@;
            reveal_strlit("\\pdfoutput");
            assert(s.subrange(i, i + name.len())[0] == s[i]);
            let sign = patterns::behind_white(s, i + name.len());
            lemma_behind_white(s, i + name.len());
            let after = if patterns::stands_at(s, sign, '=') {
                sign + 1
            } else {
                sign
            };
            lemma_behind_white(s, after);
            lemma_behind_digits(s, patterns::behind_white(s, after));
            let p = (i, patterns::directive_end(s, i)->0);
            let all = seq![p] + rest;
            assert(patterns::directives_from(s, i) == all);
            assert forall|k: int| 0 <= k < all.len() implies {
                let p = #[trigger] all[k];
                &&& 0 <= p.0 < p.1 <= s.len()
                &&& s[p.0] == '\\'
                &&& '0' <= s[p.1 - 1] <= '9'
                &&& text::occurs_at(s, "\\pdfoutput"@, p.0)
            } by {
                if k > 0 {
                    assert(all[k] == rest[k - 1]);
                }
            }
        } else {
            assert(patterns::directives_from(s, i) == rest);
        }
    }
}

/// A directive is not empty.
pub proof fn lemma_directive_spans(s: Seq<char>, k: int)
    requires
        0 <= k < patterns::directives(s).len(),
    ensures
        0 <= patterns::directives(s)[k].0 < patterns::directives(s)[k].1 <= s.len(),
{
    lemma_directives(s, 0);
}

/// The edit lies in the preamble, its ends cut no character, and it puts in text.
pub open spec fn sound(b: Seq<u8>, pe: int, e: EditAt) -> bool {
    &&& edits::edit_fits(b, e)
    &&& e.end <= pe
    &&& valid_utf8(e.text)
}

proof fn lemma_package_edits(
    b: Seq<u8>,
    pe: int,
    pre: Seq<u8>,
    calls: Seq<scan::CallAt>,
    n: int,
)
    requires
        valid_utf8(b),
        0 <= pe <= b.len(),
        pre == scan::masked(b).take(pe),
        0 <= n <= calls.len(),
        forall|k: int|
            0 <= k < calls.len() ==> scan::call_fits(
                pre,
                utf::bytes_of("\\usepackage"@),
                #[trigger] calls[k],
            ),
    ensures
        forall|k: int|
            0 <= k < cjk::package_edits(pre, calls, n).len() ==> sound(
                b,
                pe,
                #[trigger] cjk::package_edits(pre, calls, n)[k],
            ),
    decreases n,
{
    if n > 0 {
        lemma_package_edits(b, pe, pre, calls, n - 1);
        let c = calls[n - 1];
        lemma_backslash(pre, "\\usepackage"@, c);
        lemma_unmasked(b, c.start);
        lemma_unmasked(b, c.end - 1);
        lemma_unmasked(b, c.arg_start - 1);
        encode_utf8_valid_utf8(""@);
        encode_utf8_valid_utf8(
            text::join(cjk::without_encodings(cjk::packages(cjk::argument(pre, c))), ","@),
        );
        let before = cjk::package_edits(pre, calls, n - 1);
        match cjk::package_edit(pre, c) {
            Some(e) => {
                assert(sound(b, pe, e));
                let all = before.push(e);
                assert(cjk::package_edits(pre, calls, n) == all);
                assert forall|k: int| 0 <= k < all.len() implies sound(
                    b,
                    pe,
                    #[trigger] all[k],
                ) by {
                    if k < before.len() {
                        assert(all[k] == before[k]);
                    }
                }
            },
            None => {
                assert(cjk::package_edits(pre, calls, n) == before);
            },
        }
    }
}

/// A call of a command that starts with a backslash has one at its start.
pub proof fn lemma_backslash(pre: Seq<u8>, command: Seq<char>, c: scan::CallAt)
    requires
        scan::call_fits(pre, utf::bytes_of(command), c),
        command == "\\usepackage"@ || command == "\\begin"@,
    ensures
        pre[c.start] == scan::BACKSLASH,
{
    reveal_strlit("\\usepackage");
    reveal_strlit("\\begin");
    let p = utf::bytes_of(command);
    utf::lemma_ascii_char(command, 0);
    assert(command.take(0) =~= Seq::<char>::empty());
    assert(pre.subrange(c.start, c.start + p.len())[0] == pre[c.start]);
}

/// The preamble ends within the text.
pub proof fn lemma_preamble_end(b: Seq<u8>)
    ensures
        0 <= cjk::preamble_end(b) <= b.len(),
        cjk::document_begin(b) matches Some(c) ==> scan::call_fits(
            b,
            utf::bytes_of("\\begin"@),
            c,
        ) && cjk::of_document(b, c),
{
    scan::lemma_calls_from(b, utf::bytes_of("\\begin"@), 0);
    lemma_first_of_document(b, scan::calls(b, utf::bytes_of("\\begin"@)), 0);
}

proof fn lemma_first_of_document(b: Seq<u8>, calls: Seq<scan::CallAt>, k: int)
    requires
        0 <= k,
    ensures
        cjk::first_of_document(b, calls, k) matches Some(c) ==> calls.contains(c)
            && cjk::of_document(b, c),
    decreases calls.len() - k,
{
    if k < calls.len() {
        if cjk::of_document(b, calls[k]) {
            assert(calls.contains(calls[k]));
        } else {
            lemma_first_of_document(b, calls, k + 1);
        }
    }
}

/// The masked preamble is text.
proof fn lemma_preamble_valid(b: Seq<u8>)
    requires
        valid_utf8(b),
    ensures
        valid_utf8(scan::masked(b).take(cjk::preamble_end(scan::masked(b)))),
{
    let active = scan::masked(b);
    let pe = cjk::preamble_end(active);
    scan::lemma_masked_valid(b);
    lemma_preamble_end(active);
    utf::lemma_ends_are_boundaries(active);
    if let Some(c) = cjk::document_begin(active) {
        lemma_backslash(active, "\\begin"@, c);
        utf::lemma_ascii_boundary(active, c.start);
    }
    utf::lemma_piece_valid(active, 0, pe);
    assert(active.take(pe) =~= active.subrange(0, pe));
}

/// Each edit on its own fits the text, and lies in the preamble.
pub proof fn lemma_edits_sound(b: Seq<u8>)
    requires
        valid_utf8(b),
    ensures
        forall|k: int|
            0 <= k < cjk::preamble_edits(scan::masked(b)).len() ==> sound(
                b,
                cjk::preamble_end(scan::masked(b)),
                #[trigger] cjk::preamble_edits(scan::masked(b))[k],
            ),
{
    let active = scan::masked(b);
    let pe = cjk::preamble_end(active);
    let pre = active.take(pe);
    lemma_preamble_end(active);
    lemma_preamble_valid(b);
    // The document class.
    let classes = scan::calls(pre, utf::bytes_of("\\documentclass"@));
    scan::lemma_calls_from(pre, utf::bytes_of("\\documentclass"@), 0);
    encode_utf8_valid_utf8(cjk::CJK_LINES@);
    if classes.len() > 0 {
        lemma_unmasked(b, classes[0].end - 1);
    }
    let first = cjk::class_edits(pre);
    assert forall|k: int| 0 <= k < first.len() implies sound(b, pe, #[trigger] first[k]) by {
        assert(scan::call_fits(pre, utf::bytes_of("\\documentclass"@), classes[0]));
    }
    // The packages.
    let uses = scan::calls(pre, utf::bytes_of("\\usepackage"@));
    scan::lemma_calls_from(pre, utf::bytes_of("\\usepackage"@), 0);
    lemma_package_edits(b, pe, pre, uses, uses.len() as int);
    let second = cjk::package_edits(pre, uses, uses.len() as int);
    // The directives.
    let s = utf::text_of(pre);
    decode_utf8_encode_utf8(pre);
    let found = patterns::directives(s);
    lemma_directives(s, 0);
    encode_utf8_valid_utf8(""@);
    let third = cjk::directive_edits(s);
    assert forall|k: int| 0 <= k < third.len() implies sound(b, pe, #[trigger] third[k]) by {
        let p = found[k];
        utf::lemma_ascii_char(s, p.0);
        utf::lemma_ascii_char(s, p.1 - 1);
        utf::lemma_offsets(s, p.0, p.1);
        lemma_unmasked(b, utf::offset_of(s, p.0));
        lemma_unmasked(b, utf::offset_of(s, p.1) - 1);
    }
    let all = cjk::preamble_edits(active);
    assert(all == first + second + third);
    assert forall|k: int| 0 <= k < all.len() implies sound(b, pe, #[trigger] all[k]) by {
        if k < first.len() {
            assert(all[k] == first[k]);
        } else if k < first.len() + second.len() {
            assert(all[k] == second[k - first.len()]);
        } else {
            assert(all[k] == third[k - first.len() - second.len()]);
        }
    }
}

/// Where no edit runs into another, all of them can be made.
pub proof fn separate_edits_fit(content: Seq<char>)
    requires
        edits::apart(cjk::cjk_edits(utf::bytes_of(content))),
    ensures
        cjk::cjk_fits(content),
{
    let b = utf::bytes_of(content);
    encode_utf8_valid_utf8(content);
    lemma_edits_sound(b);
    let all = cjk::preamble_edits(scan::masked(b));
    edits::lemma_sorted_from(all);
    let sorted = cjk::cjk_edits(b);
    let pe = cjk::preamble_end(scan::masked(b));
    assert forall|k: int| 0 <= k < sorted.len() implies sound(b, pe, #[trigger] sorted[k]) by {
        assert(all.contains(sorted[k]));
    }
    edits::edits_apart_fit(b, sorted);
}

/// A command that stands in the masked text stands in the text.
proof fn lemma_command_in_source(content: Seq<char>, command: Seq<char>, n: int, i: int)
    requires
        command == "\\usepackage"@ || command == "\\pdfoutput"@,
        0 <= n <= utf::bytes_of(content).len(),
        text::occurs_at(
            scan::masked(utf::bytes_of(content)).take(n),
            utf::bytes_of(command),
            i,
        ),
    ensures
        text::occurs(content, command),
{
    let b = utf::bytes_of(content);
    let m = scan::masked(b);
    let p = utf::bytes_of(command);
    encode_utf8_valid_utf8(content);
    reveal_strlit("\\usepackage");
    reveal_strlit("\\pdfoutput");
    is_ascii_chars_encode_utf8(command);
    assert forall|k: int| 0 <= k < p.len() implies b[i + k] == p[k] && is_char_boundary(b, i + k)
        && is_char_boundary(b, i + k + 1) by {
        assert(m.take(n).subrange(i, i + p.len())[k] == m[i + k]);
        assert(p[k] == command[k] as u8);
        lemma_unmasked(b, i + k);
    }
    assert(b.subrange(i, i + p.len()) =~= p);
    assert(b[i + 0] == p[0]);
    assert(b[i + (p.len() - 1)] == p[p.len() - 1]);
    utf::lemma_text_at(content, command, i);
    let k = choose|k: int|
        0 <= k && k + command.len() <= content.len() && #[trigger] content.subrange(
            k,
            k + command.len(),
        ) == command;
    assert(text::occurs_at(content, command, k));
}

/// A document that names neither a package nor an output directive can be edited.
pub proof fn documents_without_packages_fit(content: Seq<char>)
    requires
        !text::occurs(content, "\\usepackage"@),
        !text::occurs(content, "\\pdfoutput"@),
    ensures
        cjk::cjk_fits(content),
{
    let b = utf::bytes_of(content);
    let active = scan::masked(b);
    let pe = cjk::preamble_end(active);
    let pre = active.take(pe);
    encode_utf8_valid_utf8(content);
    lemma_preamble_end(active);
    lemma_preamble_valid(b);
    let uses = scan::calls(pre, utf::bytes_of("\\usepackage"@));
    scan::lemma_calls_from(pre, utf::bytes_of("\\usepackage"@), 0);
    if uses.len() > 0 {
        assert(scan::call_fits(pre, utf::bytes_of("\\usepackage"@), uses[0]));
        lemma_command_in_source(content, "\\usepackage"@, pe, uses[0].start);
    }
    let s = utf::text_of(pre);
    decode_utf8_encode_utf8(pre);
    lemma_directives(s, 0);
    let found = patterns::directives(s);
    if found.len() > 0 {
        let q = found[0].0;
        let name = "\\pdfoutput"@;
        assert(text::occurs_at(s, name, q));
        utf::lemma_offsets(s, q, q + name.len());
        assert(text::occurs_at(pre, utf::bytes_of(name), utf::offset_of(s, q)));
        lemma_command_in_source(content, name, pe, utf::offset_of(s, q));
    }
    let all = cjk::preamble_edits(active);
    assert(all =~= cjk::class_edits(pre));
    reveal_with_fuel(edits::in_order, 2);
    reveal_with_fuel(edits::inserted, 2);
    if all.len() > 0 {
        assert(all.drop_last() =~= Seq::<EditAt>::empty());
        assert(cjk::cjk_edits(b) =~= all);
    }
    assert(edits::apart(cjk::cjk_edits(b)));
    separate_edits_fit(content);
}

/// The splice of edits that end before `pe` keeps what comes behind `pe`.
proof fn lemma_splice_keeps_tail(b: Seq<u8>, list: Seq<EditAt>, from: int, pe: int)
    requires
        edits::apart(list),
        0 <= from <= pe <= b.len(),
        list.len() > 0 ==> from <= list[0].start,
        forall|k: int| 0 <= k < list.len() ==> (#[trigger] list[k]).end <= pe,
    ensures
        edits::spliced(b, list, from).len() >= b.len() - pe,
        edits::spliced(b, list, from).skip(
            edits::spliced(b, list, from).len() - (b.len() - pe),
        ) == b.skip(pe),
    decreases list.len(),
{
    let r = edits::spliced(b, list, from);
    if list.len() == 0 {
        assert(r.skip(r.len() - (b.len() - pe)) =~= b.skip(pe));
    } else {
        let rest = list.skip(1);
        let first = list[0];
        assert forall|k: int| 0 <= k < rest.len() implies (#[trigger] rest[k]).end <= pe by {
            assert(rest[k] == list[k + 1]);
        }
        assert(edits::apart(rest)) by {
            assert forall|k: int| 0 <= k < rest.len() implies (#[trigger] rest[k]).start
                <= rest[k].end by {
                assert(rest[k] == list[k + 1]);
            }
            assert forall|k: int, l: int| 0 <= k < l < rest.len() implies (#[trigger] rest[k]).end
                <= (#[trigger] rest[l]).start by {
                assert(rest[k] == list[k + 1] && rest[l] == list[l + 1]);
            }
        }
        if rest.len() > 0 {
            assert(rest[0] == list[1]);
        }
        lemma_splice_keeps_tail(b, rest, first.end, pe);
        let q = edits::spliced(b, rest, first.end);
        let n = b.len() - pe;
        assert(r.skip(r.len() - n) =~= q.skip(q.len() - n));
    }
}

/// Where no edit runs into another, each is made where it stands: what lies
/// between the edits stays, and so does everything from `\begin{document}` on.
pub proof fn rest_is_untouched(content: Seq<char>)
    requires
        edits::apart(cjk::cjk_edits(utf::bytes_of(content))),
    ensures
        cjk::with_cjk(content) == edits::spliced(
            utf::bytes_of(content),
            cjk::cjk_edits(utf::bytes_of(content)),
            0,
        ),
        ({
            let b = utf::bytes_of(content);
            let r = cjk::with_cjk(content);
            let n = b.len() - cjk::preamble_end(scan::masked(b));
            0 <= n <= r.len() && r.skip(r.len() - n) == b.skip(b.len() - n)
        }),
{
    let b = utf::bytes_of(content);
    let active = scan::masked(b);
    let pe = cjk::preamble_end(active);
    encode_utf8_valid_utf8(content);
    lemma_preamble_end(active);
    lemma_edits_sound(b);
    let all = cjk::preamble_edits(active);
    edits::lemma_sorted_from(all);
    let sorted = cjk::cjk_edits(b);
    assert forall|k: int| 0 <= k < sorted.len() implies sound(b, pe, #[trigger] sorted[k]) by {
        assert(all.contains(sorted[k]));
    }
    if sorted.len() > 0 {
        assert(sound(b, pe, sorted[0]));
        assert(sound(b, pe, sorted[sorted.len() - 1]));
    }
    assert forall|k: int| 0 <= k < sorted.len() implies (#[trigger] sorted[k]).end <= pe by {
        assert(sound(b, pe, sorted[k]));
    }
    edits::edits_apart_are_spliced(b, sorted);
    lemma_splice_keeps_tail(b, sorted, 0, pe);
}

/// What an edit puts in stands in the splice.
proof fn lemma_splice_holds(b: Seq<u8>, list: Seq<EditAt>, from: int, k: int)
    requires
        0 <= k < list.len(),
    ensures
        text::occurs(edits::spliced(b, list, from), list[k].text),
    decreases list.len(),
{
    let r = edits::spliced(b, list, from);
    let first = list[0];
    let q = edits::spliced(b, list.skip(1), first.end);
    let head = b.subrange(from, first.start);
    if k == 0 {
        assert(r.subrange(head.len() as int, head.len() as int + first.text.len()) =~= first.text);
        assert(text::occurs_at(r, first.text, head.len() as int));
    } else {
        lemma_splice_holds(b, list.skip(1), first.end, k - 1);
        let p = list[k].text;
        let i = choose|i: int| text::occurs_at(q, p, i);
        let n = head.len() as int + first.text.len();
        assert(r.subrange(n + i, n + i + p.len()) =~= q.subrange(i, i + p.len()));
        assert(text::occurs_at(r, p, n + i));
    }
}

/// A document whose preamble chooses a class gets the lines for Chinese support,
/// where no edit runs into another.
pub proof fn documents_with_a_class_get_support(content: Seq<char>)
    requires
        edits::apart(cjk::cjk_edits(utf::bytes_of(content))),
        ({
            let active = scan::masked(utf::bytes_of(content));
            scan::calls(
                active.take(cjk::preamble_end(active)),
                utf::bytes_of("\\documentclass"@),
            ).len() > 0
        }),
    ensures
        text::occurs(cjk::with_cjk(content), utf::bytes_of(cjk::CJK_LINES@)),
{
    broadcast use vstd::seq_lib::group_to_multiset_ensures;

    let b = utf::bytes_of(content);
    let all = cjk::preamble_edits(scan::masked(b));
    let sorted = cjk::cjk_edits(b);
    let e = all[0];
    assert(e.text == utf::bytes_of(cjk::CJK_LINES@));
    edits::sorting_is_stable(all, 0);
    assert(all.contains(e));
    assert(all.to_multiset().count(e) > 0);
    assert(sorted.to_multiset().count(e) > 0);
    assert(sorted.contains(e));
    let k = choose|k: int| 0 <= k < sorted.len() && sorted[k] == e;
    rest_is_untouched(content);
    lemma_splice_holds(b, sorted, 0, k);
}

/// A text in which nothing is to be edited comes back as it is.
pub proof fn nothing_to_edit(content: Seq<char>)
    requires
        cjk::cjk_edits(utf::bytes_of(content)).len() == 0,
    ensures
        cjk::cjk_fits(content),
        cjk::with_cjk(content) == utf::bytes_of(content),
{
}

} // verus!
