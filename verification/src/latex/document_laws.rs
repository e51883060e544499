//! Where a document begins and ends, and what becomes of its parts.

use crate::latex::scan::CallAt;
use crate::latex::{cjk, document, scan, scan_laws};
use crate::{text, utf};
use vstd::prelude::*;
use vstd::utf8::*;

verus! {

/// The argument of a call, without the white space around it.
pub open spec fn word(b: Seq<u8>, c: CallAt) -> Seq<char> {
    text::trim(utf::text_of(b.subrange(c.arg_start, c.arg_end)))
}

/// One of the calls of the command, with the argument `document`.
pub open spec fn marks(b: Seq<u8>, command: Seq<char>, c: CallAt) -> bool {
    scan::calls(b, utf::bytes_of(command)).contains(c) && word(b, c) == "document"@
}

proof fn lemma_first(b: Seq<u8>, calls: Seq<CallAt>, k: int)
    requires
        0 <= k <= calls.len(),
    ensures
        match cjk::first_of_document(b, calls, k) {
            None => forall|j: int|
                k <= j < calls.len() ==> word(b, #[trigger] calls[j]) != "document"@,
            Some(c) => exists|m: int|
                k <= m < calls.len() && #[trigger] calls[m] == c && word(b, c) == "document"@ && (
                forall|j: int| k <= j < m ==> word(b, #[trigger] calls[j]) != "document"@),
        },
    decreases calls.len() - k,
{
    if k < calls.len() {
        if word(b, calls[k]) == "document"@ {
            assert(cjk::of_document(b, calls[k]));
        } else {
            assert(!cjk::of_document(b, calls[k]));
            lemma_first(b, calls, k + 1);
        }
    }
}

/// The document begins with the first `\begin{document}`, wherever that stands:
/// calls with other arguments before it do not matter.
pub proof fn documents_begin_with_the_first_mark(active: Seq<u8>)
    ensures
        match cjk::document_begin(active) {
            Some(c) => {
                &&& marks(active, "\\begin"@, c)
                &&& forall|d: CallAt| #[trigger]
                    marks(active, "\\begin"@, d) ==> c.start <= d.start
            },
            None => forall|d: CallAt| !#[trigger] marks(active, "\\begin"@, d),
        },
{
    let calls = scan::calls(active, utf::bytes_of("\\begin"@));
    lemma_first(active, calls, 0);
    match cjk::document_begin(active) {
        Some(c) => {
            let m = choose|m: int|
                0 <= m < calls.len() && #[trigger] calls[m] == c && word(active, c) == "document"@
                    && (forall|j: int|
                    0 <= j < m ==> word(active, #[trigger] calls[j]) != "document"@);
            assert forall|d: CallAt| #[trigger] marks(active, "\\begin"@, d) implies c.start
                <= d.start by {
                let k = choose|k: int| 0 <= k < calls.len() && calls[k] == d;
                if k < m {
                    assert(word(active, calls[k]) != "document"@);
                } else if m < k {
                    scan_laws::calls_stand_in_order(active, utf::bytes_of("\\begin"@), m, k);
                }
            }
        },
        None => {
            assert forall|d: CallAt| !#[trigger] marks(active, "\\begin"@, d) by {
                if calls.contains(d) {
                    let k = choose|k: int| 0 <= k < calls.len() && calls[k] == d;
                    assert(word(active, calls[k]) != "document"@);
                }
            }
        },
    }
}

/// A call that marks the document is what begins it, where none comes before it.
proof fn lemma_begin(active: Seq<u8>, begin: CallAt)
    requires
        marks(active, "\\begin"@, begin),
        forall|d: CallAt| #[trigger] marks(active, "\\begin"@, d) ==> begin.start <= d.start,
    ensures
        cjk::document_begin(active) == Some(begin),
{
    documents_begin_with_the_first_mark(active);
    let command = utf::bytes_of("\\begin"@);
    let calls = scan::calls(active, command);
    let c = cjk::document_begin(active)->0;
    assert(c.start == begin.start);
    lemma_same_call(active, "\\begin"@, c, begin);
}

/// There is one call at a place.
proof fn lemma_same_call(active: Seq<u8>, command: Seq<char>, c: CallAt, d: CallAt)
    requires
        command.len() > 0,
        scan::calls(active, utf::bytes_of(command)).contains(c),
        scan::calls(active, utf::bytes_of(command)).contains(d),
        c.start == d.start,
    ensures
        c == d,
{
    let p = utf::bytes_of(command);
    let calls = scan::calls(active, p);
    let k = choose|k: int| 0 <= k < calls.len() && calls[k] == c;
    let l = choose|l: int| 0 <= l < calls.len() && calls[l] == d;
    utf::lemma_nonempty(command);
    if k < l {
        scan_laws::calls_stand_in_order(active, p, k, l);
    } else if l < k {
        scan_laws::calls_stand_in_order(active, p, l, k);
    }
}

proof fn lemma_last(b: Seq<u8>, calls: Seq<CallAt>, n: int, from: int)
    requires
        0 <= n <= calls.len(),
    ensures
        match document::last_of_document(b, calls, n, from) {
            None => forall|j: int|
                0 <= j < n && from <= (#[trigger] calls[j]).start ==> word(b, calls[j])
                    != "document"@,
            Some(c) => exists|m: int|
                0 <= m < n && #[trigger] calls[m] == c && from <= c.start && word(b, c)
                    == "document"@ && (forall|j: int|
                    m < j < n && from <= (#[trigger] calls[j]).start ==> word(b, calls[j])
                        != "document"@),
        },
    decreases n,
{
    if n > 0 {
        if from <= calls[n - 1].start && word(b, calls[n - 1]) == "document"@ {
            assert(cjk::of_document(b, calls[n - 1]));
        } else {
            lemma_last(b, calls, n - 1, from);
        }
    }
}

/// The document ends with the last `\end{document}` behind its beginning.
pub proof fn documents_end_with_the_last_mark(active: Seq<u8>, begin: CallAt)
    ensures
        match document::document_end(active, begin) {
            Some(c) => {
                &&& marks(active, "\\end"@, c)
                &&& begin.end <= c.start
                &&& forall|d: CallAt| #[trigger] marks(active, "\\end"@, d) ==> d.start <= c.start
            },
            None => forall|d: CallAt| #[trigger]
                marks(active, "\\end"@, d) ==> d.start < begin.end,
        },
{
    let calls = scan::calls(active, utf::bytes_of("\\end"@));
    lemma_last(active, calls, calls.len() as int, begin.end);
    match document::document_end(active, begin) {
        Some(c) => {
            let m = choose|m: int|
                0 <= m < calls.len() && #[trigger] calls[m] == c && begin.end <= c.start && word(
                    active,
                    c,
                ) == "document"@ && (forall|j: int|
                    m < j < calls.len() && begin.end <= (#[trigger] calls[j]).start ==> word(
                        active,
                        calls[j],
                    ) != "document"@);
            assert forall|d: CallAt| #[trigger] marks(active, "\\end"@, d) implies d.start
                <= c.start by {
                let k = choose|k: int| 0 <= k < calls.len() && calls[k] == d;
                if k < m {
                    scan_laws::calls_stand_in_order(active, utf::bytes_of("\\end"@), k, m);
                } else if m < k {
                    scan_laws::calls_stand_in_order(active, utf::bytes_of("\\end"@), m, k);
                    assert(word(active, calls[k]) != "document"@);
                }
            }
        },
        None => {
            assert forall|d: CallAt| #[trigger] marks(active, "\\end"@, d) implies d.start
                < begin.end by {
                let k = choose|k: int| 0 <= k < calls.len() && calls[k] == d;
                assert(calls[k].start < begin.end);
            }
        },
    }
}

/// `h` is `x`, with a line end behind it if it has none there.
pub open spec fn closes_line(x: Seq<u8>, h: Seq<u8>) -> bool {
    if x.len() > 0 && x.last() == 0x0a {
        h == x
    } else {
        h == x.push(0x0a)
    }
}

/// The begin that marks the document of a file, outside of comments.
pub open spec fn begins(content: Seq<char>, begin: CallAt) -> bool {
    let active = scan::masked(utf::bytes_of(content));
    &&& marks(active, "\\begin"@, begin)
    &&& forall|d: CallAt| #[trigger] marks(active, "\\begin"@, d) ==> begin.start <= d.start
}

/// The end that marks the document of a file, outside of comments.
pub open spec fn ends(content: Seq<char>, begin: CallAt, end: CallAt) -> bool {
    let active = scan::masked(utf::bytes_of(content));
    &&& marks(active, "\\end"@, end)
    &&& begin.end <= end.start
    &&& forall|d: CallAt| #[trigger] marks(active, "\\end"@, d) ==> d.start <= end.start
}

/// The body of a main file lies between the first `\begin{document}` and the last
/// `\end{document}`. The translation takes its place: the preamble gets Chinese
/// support, and both marks, with all that stands behind the second, stay.
pub proof fn bodies_lie_between_the_marks(
    content: Seq<char>,
    begin: CallAt,
    end: CallAt,
    translated: Seq<char>,
)
    requires
        begins(content, begin),
        ends(content, begin, end),
    ensures
        ({
            let b = utf::bytes_of(content);
            let pre = utf::text_of(b.take(begin.start));
            &&& utf::bytes_of(document::body(content, true)) == b.subrange(begin.end, end.start)
            &&& utf::bytes_of(pre) == b.take(begin.start)
            &&& document::file_fits(content, true) == cjk::cjk_fits(pre)
            &&& exists|h: Seq<u8>, m: Seq<u8>|
                #![trigger closes_line(cjk::with_cjk(pre), h), m + b.skip(end.start)]
                {
                    &&& closes_line(cjk::with_cjk(pre), h)
                    &&& closes_line(
                        h + b.subrange(begin.start, begin.end) + utf::bytes_of(translated),
                        m,
                    )
                    &&& document::translated_file(content, true, translated) == m + b.skip(
                        end.start,
                    )
                }
        }),
{
    let b = utf::bytes_of(content);
    let active = scan::masked(b);
    lemma_begin(active, begin);
    document::lemma_parts(content, begin);
    documents_end_with_the_last_mark(active, begin);
    let e = document::document_end(active, begin)->0;
    reveal_strlit("\\end");
    lemma_same_call(active, "\\end"@, e, end);
    utf::lemma_piece_valid(b, 0, begin.start);
    utf::lemma_piece_valid(b, begin.end, end.start);
    decode_utf8_encode_utf8(b.subrange(0, begin.start));
    decode_utf8_encode_utf8(b.subrange(begin.end, end.start));
    assert(b.take(begin.start) =~= b.subrange(0, begin.start));
    let pre = utf::text_of(b.take(begin.start));
    let h = document::with_newline(cjk::with_cjk(pre));
    let m = document::with_newline(
        h + b.subrange(begin.start, begin.end) + utf::bytes_of(translated),
    );
    assert(b.skip(end.start) =~= b.subrange(end.start, b.len() as int));
    assert(closes_line(cjk::with_cjk(pre), h));
    assert(document::translated_file(content, true, translated) == m + b.skip(end.start));
}

/// Without an `\end{document}`, everything behind the begin is the body.
pub proof fn open_bodies_run_to_the_end(content: Seq<char>, begin: CallAt, translated: Seq<char>)
    requires
        begins(content, begin),
        forall|d: CallAt| #[trigger]
            marks(scan::masked(utf::bytes_of(content)), "\\end"@, d) ==> d.start < begin.end,
    ensures
        ({
            let b = utf::bytes_of(content);
            let pre = utf::text_of(b.take(begin.start));
            &&& utf::bytes_of(document::body(content, true)) == b.skip(begin.end)
            &&& utf::bytes_of(pre) == b.take(begin.start)
            &&& document::file_fits(content, true) == cjk::cjk_fits(pre)
            &&& exists|h: Seq<u8>| #[trigger]
                closes_line(cjk::with_cjk(pre), h) && document::translated_file(
                    content,
                    true,
                    translated,
                ) == h + b.subrange(begin.start, begin.end) + utf::bytes_of(translated)
        }),
{
    let b = utf::bytes_of(content);
    let active = scan::masked(b);
    lemma_begin(active, begin);
    document::lemma_parts(content, begin);
    documents_end_with_the_last_mark(active, begin);
    let n = b.len() as int;
    utf::lemma_piece_valid(b, 0, begin.start);
    utf::lemma_piece_valid(b, begin.end, n);
    decode_utf8_encode_utf8(b.subrange(0, begin.start));
    decode_utf8_encode_utf8(b.subrange(begin.end, n));
    assert(b.take(begin.start) =~= b.subrange(0, begin.start));
    assert(b.skip(begin.end) =~= b.subrange(begin.end, n));
    let pre = utf::text_of(b.take(begin.start));
    let h = document::with_newline(cjk::with_cjk(pre));
    assert(closes_line(cjk::with_cjk(pre), h));
}

/// A file that is not the main one, or has no `\begin{document}`, is translated as
/// a whole, and becomes the translation.
pub proof fn other_files_are_translated_whole(
    content: Seq<char>,
    is_main: bool,
    translated: Seq<char>,
)
    requires
        !is_main || forall|d: CallAt|
            !#[trigger] marks(scan::masked(utf::bytes_of(content)), "\\begin"@, d),
    ensures
        document::body(content, is_main) == content,
        document::file_fits(content, is_main),
        document::translated_file(content, is_main, translated) == utf::bytes_of(translated),
{
    documents_begin_with_the_first_mark(scan::masked(utf::bytes_of(content)));
}

/// Chinese support ends where the document begins: the preamble is all that stands
/// before the first `\begin{document}`, or everything.
pub proof fn preambles_end_with_the_first_mark(active: Seq<u8>, begin: CallAt)
    ensures
        marks(active, "\\begin"@, begin) && (forall|d: CallAt| #[trigger]
            marks(active, "\\begin"@, d) ==> begin.start <= d.start) ==> cjk::preamble_end(active)
            == begin.start,
        (forall|d: CallAt| !#[trigger] marks(active, "\\begin"@, d)) ==> cjk::preamble_end(active)
            == active.len(),
{
    documents_begin_with_the_first_mark(active);
    if marks(active, "\\begin"@, begin) && (forall|d: CallAt| #[trigger]
        marks(active, "\\begin"@, d) ==> begin.start <= d.start) {
        lemma_begin(active, begin);
    }
}

} // verus!
