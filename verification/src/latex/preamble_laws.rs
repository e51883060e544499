//! The preamble of a document is all that adding Chinese support looks at.

use crate::latex::edits::EditAt;
use crate::latex::scan::CallAt;
use crate::latex::{cjk, cjk_laws, edits, scan};
use crate::{patterns, text, utf};
use vstd::prelude::*;
use vstd::utf8::*;

verus! {

/// Where the preamble of a document ends, in bytes: at the first `\begin{document}`
/// outside of comments, or with the text.
pub open spec fn preamble_size(content: Seq<char>) -> int {
    cjk::preamble_end(scan::masked(utf::bytes_of(content)))
}

/// The preamble of a document.
pub open spec fn preamble_of(content: Seq<char>) -> Seq<char> {
    utf::text_of(utf::bytes_of(content).take(preamble_size(content)))
}

/// The preamble without its comments.
pub open spec fn active_preamble(content: Seq<char>) -> Seq<u8> {
    scan::masked(utf::bytes_of(content)).take(preamble_size(content))
}

// ---------------------------------------------------------------- prefixes

proof fn lemma_backslashes_prefix(b: Seq<u8>, n: int, lo: int, i: int)
    requires
        0 <= lo,
        i <= n <= b.len(),
    ensures
        scan::backslashes(b.take(n), lo, i) == scan::backslashes(b, lo, i),
    decreases i - lo,
{
    if lo < i {
        assert(b.take(n)[i - 1] == b[i - 1]);
        lemma_backslashes_prefix(b, n, lo, i - 1);
    }
}

/// Masking looks at nothing behind a byte.
proof fn lemma_masked_prefix(b: Seq<u8>, n: int)
    requires
        0 <= n <= b.len(),
    ensures
        scan::masked(b.take(n)) == scan::masked(b).take(n),
{
    let p = b.take(n);
    assert forall|i: int| 0 <= i < n implies scan::in_comment(p, i) == scan::in_comment(b, i) by {
        if scan::in_comment(p, i) {
            let j = choose|j: int|
                0 <= j <= i && #[trigger] scan::comment_sign(p, j) && (forall|k: int|
                    j <= k <= i ==> p[k] != scan::NEWLINE);
            lemma_backslashes_prefix(b, n, 0, j);
            assert(scan::comment_sign(b, j));
            assert forall|k: int| j <= k <= i implies b[k] != scan::NEWLINE by {
                assert(p[k] == b[k]);
            }
        }
        if scan::in_comment(b, i) {
            let j = choose|j: int|
                0 <= j <= i && #[trigger] scan::comment_sign(b, j) && (forall|k: int|
                    j <= k <= i ==> b[k] != scan::NEWLINE);
            lemma_backslashes_prefix(b, n, 0, j);
            assert(scan::comment_sign(p, j));
            assert forall|k: int| j <= k <= i implies p[k] != scan::NEWLINE by {
                assert(p[k] == b[k]);
            }
        }
    }
    assert(scan::masked(p) =~= scan::masked(b).take(n));
}

proof fn lemma_skip_space_prefix(b: Seq<u8>, n: int, i: int)
    requires
        0 <= i,
        0 <= n <= b.len(),
        scan::skip_space(b.take(n), i) < n,
    ensures
        scan::skip_space(b, i) == scan::skip_space(b.take(n), i),
    decreases n - i,
{
    if i < n {
        assert(b.take(n)[i] == b[i]);
        if scan::ascii_space(b[i]) {
            lemma_skip_space_prefix(b, n, i + 1);
        }
    }
}

proof fn lemma_close_prefix(b: Seq<u8>, n: int, start: int, i: int, depth: nat)
    requires
        0 <= start < n <= b.len(),
        0 <= i,
        scan::close_from(b.take(n), start, i, depth) is Some,
    ensures
        scan::close_from(b, start, i, depth) == scan::close_from(b.take(n), start, i, depth),
    decreases n - i,
{
    let p = b.take(n);
    if i < n {
        assert(p[i] == b[i]);
        assert(p[start] == b[start]);
        lemma_backslashes_prefix(b, n, start + 1, i);
        if scan::escaped(p, start + 1, i) {
            lemma_close_prefix(b, n, start, i + 1, depth);
        } else if p[i] == scan::OPEN_BRACE {
            lemma_close_prefix(b, n, start, i + 1, depth + 1);
        } else if depth > 0 && p[i] == scan::CLOSE_BRACE {
            lemma_close_prefix(b, n, start, i + 1, (depth - 1) as nat);
        } else if depth == 0 && p[i] == scan::closer(p, start) {
        } else {
            lemma_close_prefix(b, n, start, i + 1, depth);
        }
    }
}

/// A call that a prefix holds is one of the whole.
proof fn lemma_call_prefix(b: Seq<u8>, n: int, m: nat, i: int)
    requires
        0 <= i,
        i + m <= n <= b.len(),
        scan::call_at(b.take(n), m, i) is Some,
    ensures
        scan::call_at(b, m, i) == scan::call_at(b.take(n), m, i),
{
    let p = b.take(n);
    lemma_backslashes_prefix(b, n, 0, i);
    let option = scan::skip_space(p, i + m);
    scan::lemma_skip_space(p, i + m);
    assert(option < n);
    lemma_skip_space_prefix(b, n, i + m);
    assert(p[option] == b[option]);
    if p[option] == scan::OPEN_BRACKET {
        lemma_close_prefix(b, n, option, option + 1, 0);
        scan::lemma_close_from(p, option, option + 1, 0);
        let e = scan::group_close(p, option)->0;
        scan::lemma_skip_space(p, e);
        lemma_skip_space_prefix(b, n, e);
        let q = scan::skip_space(p, e);
        assert(p[q] == b[q]);
        lemma_close_prefix(b, n, q, q + 1, 0);
    } else {
        lemma_close_prefix(b, n, option, option + 1, 0);
    }
}

/// The calls that a prefix holds are among those of the whole.
proof fn lemma_calls_prefix(b: Seq<u8>, n: int, command: Seq<u8>, i: int, c: CallAt)
    requires
        0 <= i,
        0 <= n <= b.len(),
        scan::calls_from(b.take(n), command, i).contains(c),
    ensures
        scan::calls_from(b, command, i).contains(c),
    decreases n - i,
{
    let p = b.take(n);
    let m = command.len();
    let inner = scan::calls_from(p, command, i);
    let outer = scan::calls_from(b, command, i);
    if m == 0 || i + m > n {
        assert(inner.len() == 0);
    } else {
        assert(p.subrange(i, i + m) =~= b.subrange(i, i + m));
        if text::occurs_at(p, command, i) {
            let rest = scan::calls_from(p, command, i + m);
            let more = scan::calls_from(b, command, i + m);
            match scan::call_at(p, m, i) {
                Some(x) => {
                    lemma_call_prefix(b, n, m, i);
                    assert(inner == seq![x] + rest);
                    assert(outer == seq![x] + more);
                    let k = choose|k: int| 0 <= k < inner.len() && inner[k] == c;
                    if k == 0 {
                        assert(outer[0] == c);
                    } else {
                        assert(rest[k - 1] == c);
                        lemma_calls_prefix(b, n, command, i + m, c);
                        let j = choose|j: int| 0 <= j < more.len() && more[j] == c;
                        assert(outer[j + 1] == c);
                    }
                },
                None => {
                    lemma_calls_prefix(b, n, command, i + m, c);
                    let j = choose|j: int| 0 <= j < more.len() && more[j] == c;
                    match scan::call_at(b, m, i) {
                        Some(x) => {
                            assert(outer == seq![x] + more);
                            assert(outer[j + 1] == c);
                        },
                        None => {},
                    }
                },
            }
        } else {
            lemma_calls_prefix(b, n, command, i + 1, c);
        }
    }
}

/// The call that is found first is one of the calls, and none before it would do.
proof fn lemma_first(b: Seq<u8>, calls: Seq<CallAt>, k: int) -> (m: int)
    requires
        0 <= k,
        cjk::first_of_document(b, calls, k) is Some,
    ensures
        k <= m < calls.len(),
        cjk::first_of_document(b, calls, k) == Some(calls[m]),
        cjk::of_document(b, calls[m]),
        forall|j: int| k <= j < m ==> !cjk::of_document(b, #[trigger] calls[j]),
    decreases calls.len() - k,
{
    if cjk::of_document(b, calls[k]) {
        k
    } else {
        lemma_first(b, calls, k + 1)
    }
}

/// The preamble holds no `\begin{document}` of its own.
proof fn lemma_no_second_begin(active: Seq<u8>)
    ensures
        ({
            let pe = cjk::preamble_end(active);
            cjk::preamble_end(active.take(pe)) == pe
        }),
{
    let pe = cjk::preamble_end(active);
    let pre = active.take(pe);
    let command = utf::bytes_of("\\begin"@);
    cjk_laws::lemma_preamble_end(active);
    if cjk::document_begin(active) is None {
        assert(pre =~= active);
    } else if cjk::document_begin(pre) is Some {
        let inner = scan::calls(pre, command);
        let outer = scan::calls(active, command);
        let k = lemma_first(pre, inner, 0);
        let m = lemma_first(active, outer, 0);
        let c = inner[k];
        scan::lemma_calls_from(pre, command, 0);
        scan::lemma_calls_from(active, command, 0);
        assert(scan::call_fits(pre, command, c));
        assert(inner.contains(c));
        lemma_calls_prefix(active, pe, command, 0, c);
        let j = choose|j: int| 0 <= j < outer.len() && outer[j] == c;
        assert(pre.subrange(c.arg_start, c.arg_end) =~= active.subrange(c.arg_start, c.arg_end));
        assert(cjk::of_document(active, c));
        if j < m {
            assert(!cjk::of_document(active, outer[j]));
        } else if j > m {
            assert(outer[m].start + command.len() <= outer[j].start);
        }
        assert(false);
    }
}

// ---------------------------------------------------------------- edits

/// A boundary stays one when something is put behind the text.
proof fn lemma_boundary_before(x: Seq<u8>, t: Seq<u8>, i: int)
    requires
        valid_utf8(x),
        valid_utf8(t),
        0 <= i <= x.len(),
        is_char_boundary(x, i),
    ensures
        is_char_boundary(x + t, i),
{
    utf::lemma_join_boundary(x, t);
    utf::lemma_ends_are_boundaries(x + t);
    if i < x.len() {
        is_char_boundary_iff_not_is_continuation_byte(x, i);
        is_char_boundary_iff_not_is_continuation_byte(x + t, i);
        assert((x + t)[i] == x[i]);
    }
}

/// Edits that fit a text can be made with more behind it, which they leave alone.
proof fn lemma_applied_before(x: Seq<u8>, t: Seq<u8>, list: Seq<EditAt>)
    requires
        valid_utf8(x),
        valid_utf8(t),
        edits::edits_fit(x, list),
        forall|k: int| 0 <= k < list.len() ==> valid_utf8((#[trigger] list[k]).text),
    ensures
        edits::edits_fit(x + t, list),
        edits::applied(x + t, list) == edits::applied(x, list) + t,
    decreases list.len(),
{
    if list.len() > 0 {
        let e = list.last();
        let head = list.drop_last();
        assert(list[list.len() - 1] == e);
        lemma_boundary_before(x, t, e.start);
        lemma_boundary_before(x, t, e.end);
        edits::lemma_replaced_valid(x, e);
        assert(edits::replaced(x + t, e) =~= edits::replaced(x, e) + t);
        assert forall|k: int| 0 <= k < head.len() implies valid_utf8((#[trigger] head[k]).text) by {
            assert(head[k] == list[k]);
        }
        lemma_applied_before(edits::replaced(x, e), t, head);
    }
}

/// The preamble ends between two characters.
proof fn lemma_preamble_bytes(content: Seq<char>)
    ensures
        ({
            let b = utf::bytes_of(content);
            let pe = preamble_size(content);
            &&& 0 <= pe <= b.len()
            &&& valid_utf8(b)
            &&& valid_utf8(b.take(pe))
            &&& valid_utf8(b.skip(pe))
            &&& utf::bytes_of(preamble_of(content)) == b.take(pe)
        }),
{
    let b = utf::bytes_of(content);
    let active = scan::masked(b);
    let pe = preamble_size(content);
    encode_utf8_valid_utf8(content);
    cjk_laws::lemma_preamble_end(active);
    utf::lemma_ends_are_boundaries(b);
    if let Some(c) = cjk::document_begin(active) {
        cjk_laws::lemma_backslash(active, "\\begin"@, c);
        cjk_laws::lemma_unmasked(b, c.start);
    }
    utf::lemma_piece_valid(b, 0, pe);
    utf::lemma_piece_valid(b, pe, b.len() as int);
    assert(b.take(pe) =~= b.subrange(0, pe));
    assert(b.skip(pe) =~= b.subrange(pe, b.len() as int));
    decode_utf8_encode_utf8(b.take(pe));
}

/// The edits to a document are those to its preamble.
pub proof fn preambles_have_the_same_edits(content: Seq<char>)
    ensures
        cjk::cjk_edits(utf::bytes_of(preamble_of(content))) == cjk::cjk_edits(
            utf::bytes_of(content),
        ),
{
    let b = utf::bytes_of(content);
    let active = scan::masked(b);
    let pe = preamble_size(content);
    lemma_preamble_bytes(content);
    lemma_masked_prefix(b, pe);
    lemma_no_second_begin(active);
    let pre = active.take(pe);
    assert(scan::masked(b.take(pe)) == pre);
    assert(pre.take(pe) =~= pre);
}

/// Adding Chinese support to a document is adding it to the preamble: the result is
/// the edited preamble, with the rest of the document behind it as it was.
pub proof fn preamble_is_edited_alone(content: Seq<char>)
    requires
        cjk::cjk_fits(preamble_of(content)),
    ensures
        cjk::cjk_fits(content),
        cjk::with_cjk(content) == cjk::with_cjk(preamble_of(content)) + utf::bytes_of(content).skip(
            preamble_size(content),
        ),
{
    let b = utf::bytes_of(content);
    let pe = preamble_size(content);
    let x = b.take(pe);
    let list = cjk::cjk_edits(b);
    let all = cjk::preamble_edits(scan::masked(b));
    lemma_preamble_bytes(content);
    preambles_have_the_same_edits(content);
    cjk_laws::lemma_edits_sound(b);
    edits::lemma_sorted_from(all);
    assert forall|k: int| 0 <= k < list.len() implies valid_utf8((#[trigger] list[k]).text) by {
        assert(all.contains(list[k]));
        let j = choose|j: int| 0 <= j < all.len() && all[j] == list[k];
        assert(cjk_laws::sound(b, pe, all[j]));
    }
    lemma_applied_before(x, b.skip(pe), list);
    assert(x + b.skip(pe) =~= b);
}

/// Where no edit runs into another, the preamble can be edited.
pub proof fn separate_edits_fit_the_preamble(content: Seq<char>)
    requires
        edits::apart(cjk::cjk_edits(utf::bytes_of(content))),
    ensures
        cjk::cjk_fits(preamble_of(content)),
{
    preambles_have_the_same_edits(content);
    cjk_laws::separate_edits_fit(preamble_of(content));
}

proof fn lemma_nothing_left_out(names: Seq<Seq<char>>)
    requires
        forall|j: int| 0 <= j < names.len() ==> !cjk::chooses_encoding(#[trigger] names[j]),
    ensures
        cjk::without_encodings(names) == names,
    decreases names.len(),
{
    if names.len() > 0 {
        let head = names.drop_last();
        assert(names[names.len() - 1] == names.last());
        assert forall|j: int| 0 <= j < head.len() implies !cjk::chooses_encoding(
            #[trigger] head[j],
        ) by {
            assert(head[j] == names[j]);
        }
        lemma_nothing_left_out(head);
        assert(head.push(names.last()) =~= names);
    }
}

proof fn lemma_no_package_edits(pre: Seq<u8>, calls: Seq<CallAt>, n: int)
    requires
        0 <= n <= calls.len(),
        forall|k: int| 0 <= k < calls.len() ==> names_no_encoding(pre, #[trigger] calls[k]),
    ensures
        cjk::package_edits(pre, calls, n).len() == 0,
    decreases n,
{
    if n > 0 {
        lemma_no_package_edits(pre, calls, n - 1);
        assert(names_no_encoding(pre, calls[n - 1]));
        lemma_nothing_left_out(cjk::packages(cjk::argument(pre, calls[n - 1])));
    }
}

/// None of the packages that a call names chooses an encoding.
pub open spec fn names_no_encoding(pre: Seq<u8>, c: CallAt) -> bool {
    let names = cjk::packages(cjk::argument(pre, c));
    forall|j: int| 0 <= j < names.len() ==> !cjk::chooses_encoding(#[trigger] names[j])
}

/// A document stays as it is where its preamble, outside of comments, chooses no
/// class, names no package that chooses an encoding, and has no output directive.
pub proof fn other_preambles_stay(content: Seq<char>)
    requires
        ({
            let pre = active_preamble(content);
            let uses = scan::calls(pre, utf::bytes_of("\\usepackage"@));
            &&& scan::calls(pre, utf::bytes_of("\\documentclass"@)).len() == 0
            &&& forall|k: int| 0 <= k < uses.len() ==> names_no_encoding(pre, #[trigger] uses[k])
            &&& patterns::directives(utf::text_of(pre)).len() == 0
        }),
    ensures
        cjk::cjk_fits(content),
        cjk::with_cjk(content) == utf::bytes_of(content),
{
    let pre = active_preamble(content);
    let uses = scan::calls(pre, utf::bytes_of("\\usepackage"@));
    lemma_no_package_edits(pre, uses, uses.len() as int);
    let all = cjk::preamble_edits(scan::masked(utf::bytes_of(content)));
    assert(all.len() == 0);
    cjk_laws::nothing_to_edit(content);
}

} // verus!
