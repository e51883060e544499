//! A document taken apart into preamble, body and rest, and put together again
//! around a translated body.

use crate::latex::scan::{Call, CallAt};
use crate::latex::{cjk, cjk_laws, scan};
use crate::{text, utf};
use vstd::prelude::*;
use vstd::utf8::*;

verus! {

/// The last of the first `n` calls that starts at or behind `from` and has the
/// argument `document`.
pub open spec fn last_of_document(b: Seq<u8>, calls: Seq<CallAt>, n: int, from: int) -> Option<
    CallAt,
>
    decreases n,
{
    if n <= 0 {
        None
    } else if from <= calls[n - 1].start && cjk::of_document(b, calls[n - 1]) {
        Some(calls[n - 1])
    } else {
        last_of_document(b, calls, n - 1, from)
    }
}

/// The last `\end{document}` behind `begin`.
pub open spec fn document_end(active: Seq<u8>, begin: CallAt) -> Option<CallAt> {
    let ends = scan::calls(active, utf::bytes_of("\\end"@));
    last_of_document(active, ends, ends.len() as int, begin.end)
}

/// Where the body ends: at the last `\end{document}`, or with the text.
pub open spec fn body_end(active: Seq<u8>, begin: CallAt) -> int {
    match document_end(active, begin) {
        Some(c) => c.start,
        None => active.len() as int,
    }
}

/// The `\begin{document}` of a main file.
pub open spec fn main_begin(content: Seq<char>, is_main: bool) -> Option<CallAt> {
    if is_main {
        cjk::document_begin(scan::masked(utf::bytes_of(content)))
    } else {
        None
    }
}

/// What stands before `\begin{document}`.
pub open spec fn preamble(content: Seq<char>, begin: CallAt) -> Seq<char> {
    utf::text_of(utf::bytes_of(content).subrange(0, begin.start))
}

/// What is to be translated: the body of a main file, any other file as a whole.
pub open spec fn body(content: Seq<char>, is_main: bool) -> Seq<char> {
    let b = utf::bytes_of(content);
    match main_begin(content, is_main) {
        Some(begin) => utf::text_of(b.subrange(begin.end, body_end(scan::masked(b), begin))),
        None => content,
    }
}

/// The bytes, with a line end at their end.
pub open spec fn with_newline(b: Seq<u8>) -> Seq<u8> {
    if b.len() > 0 && b.last() == scan::NEWLINE {
        b
    } else {
        b.push(scan::NEWLINE)
    }
}

/// A main file around a translated body: the preamble with Chinese support, the
/// `\begin{document}` on a new line, the body, and whatever comes from
/// `\end{document}` on, on a new line.
pub open spec fn around(content: Seq<char>, begin: CallAt, translated: Seq<char>) -> Seq<u8> {
    let b = utf::bytes_of(content);
    let head = with_newline(cjk::with_cjk(preamble(content, begin)));
    let opened = head + b.subrange(begin.start, begin.end) + utf::bytes_of(translated);
    match document_end(scan::masked(b), begin) {
        Some(end) => with_newline(opened) + b.subrange(end.start, b.len() as int),
        None => opened,
    }
}

/// The bytes of a file whose body was translated.
pub open spec fn translated_file(
    content: Seq<char>,
    is_main: bool,
    translated: Seq<char>,
) -> Seq<u8> {
    match main_begin(content, is_main) {
        Some(begin) => around(content, begin, translated),
        None => utf::bytes_of(translated),
    }
}

/// Chinese support can be added to the preamble, where there is one.
pub open spec fn file_fits(content: Seq<char>, is_main: bool) -> bool {
    match main_begin(content, is_main) {
        Some(begin) => cjk::cjk_fits(preamble(content, begin)),
        None => true,
    }
}

/// The call found last, if any, is one of the calls and comes behind `from`.
proof fn lemma_last_of_document(b: Seq<u8>, calls: Seq<CallAt>, n: int, from: int)
    requires
        0 <= n <= calls.len(),
    ensures
        last_of_document(b, calls, n, from) matches Some(c) ==> calls.contains(c) && from
            <= c.start && cjk::of_document(b, c),
    decreases n,
{
    if n > 0 {
        if from <= calls[n - 1].start && cjk::of_document(b, calls[n - 1]) {
            assert(calls.contains(calls[n - 1]));
        } else {
            lemma_last_of_document(b, calls, n - 1, from);
        }
    }
}

/// The ends of a call found in the masked text cut no character of the text.
pub proof fn lemma_call_in_source(b: Seq<u8>, command: Seq<char>, c: CallAt)
    requires
        valid_utf8(b),
        command.len() > 0,
        command[0] == '\\',
        scan::call_fits(scan::masked(b), utf::bytes_of(command), c),
    ensures
        is_char_boundary(b, c.start),
        is_char_boundary(b, c.end),
        0 <= c.start < c.end <= b.len(),
{
    scan::lemma_masked_valid(b);
    cjk::lemma_call_boundaries(scan::masked(b), command, c);
    utf::lemma_ascii_boundary(b, c.start);
    utf::lemma_ascii_boundary(b, c.end - 1);
}

/// Where the parts of a main file lie.
pub proof fn lemma_parts(content: Seq<char>, begin: CallAt)
    requires
        main_begin(content, true) == Some(begin),
    ensures
        ({
            let b = utf::bytes_of(content);
            let end = body_end(scan::masked(b), begin);
            &&& valid_utf8(b)
            &&& 0 <= begin.start < begin.end <= end <= b.len()
            &&& is_char_boundary(b, 0)
            &&& is_char_boundary(b, begin.start)
            &&& is_char_boundary(b, begin.end)
            &&& is_char_boundary(b, end)
            &&& is_char_boundary(b, b.len() as int)
        }),
{
    let b = utf::bytes_of(content);
    let active = scan::masked(b);
    encode_utf8_valid_utf8(content);
    utf::lemma_ends_are_boundaries(b);
    cjk_laws::lemma_preamble_end(active);
    reveal_strlit("\\begin");
    reveal_strlit("\\end");
    lemma_call_in_source(b, "\\begin"@, begin);
    let ends = scan::calls(active, utf::bytes_of("\\end"@));
    scan::lemma_calls_from(active, utf::bytes_of("\\end"@), 0);
    lemma_last_of_document(active, ends, ends.len() as int, begin.end);
    if let Some(end) = document_end(active, begin) {
        lemma_call_in_source(b, "\\end"@, end);
    }
}

/// The last of the calls that starts at or behind `from` and has the argument
/// `document`.
fn find_last_of_document(active: &str, found: &Vec<Call>, from: usize) -> (r: Option<Call>)
    requires
        scan::views(found@) == scan::calls(utf::bytes_of(active@), utf::bytes_of("\\end"@)),
    ensures
        match r {
            Some(c) => last_of_document(
                utf::bytes_of(active@),
                scan::views(found@),
                found@.len() as int,
                from as int,
            ) == Some(c@),
            None => last_of_document(
                utf::bytes_of(active@),
                scan::views(found@),
                found@.len() as int,
                from as int,
            ) is None,
        },
{
    let ghost b = utf::bytes_of(active@);
    let ghost calls = scan::views(found@);
    proof {
        encode_utf8_valid_utf8(active@);
        reveal_strlit("\\end");
        scan::lemma_calls_from(b, utf::bytes_of("\\end"@), 0);
    }
    let mut n: usize = found.len();
    while n > 0
        invariant
            n <= found.len(),
            b == utf::bytes_of(active@),
            valid_utf8(b),
            "\\end"@.len() > 0,
            "\\end"@[0] == '\\',
            calls == scan::views(found@),
            forall|i: int|
                0 <= i < calls.len() ==> scan::call_fits(
                    b,
                    utf::bytes_of("\\end"@),
                    #[trigger] calls[i],
                ),
            last_of_document(b, calls, found@.len() as int, from as int) == last_of_document(
                b,
                calls,
                n as int,
                from as int,
            ),
        decreases n,
    {
        let c = found[n - 1];
        assert(calls[n - 1] == c@);
        proof {
            cjk::lemma_call_boundaries(b, "\\end"@, c@);
        }
        let arg = text::slice(active, c.arg_start, c.arg_end);
        if from <= c.start && text::same(text::trimmed(arg), "document") {
            return Some(c);
        }
        n -= 1;
    }
    None
}

/// Where `\begin{document}` starts and ends, and where the `\end{document}` that
/// belongs to it starts.
struct Outline {
    begin: usize,
    begin_end: usize,
    end: Option<usize>,
}

/// The outline of a main file.
fn outline(content: &str, is_main: bool) -> (r: Option<Outline>)
    ensures
        match r {
            Some(o) => {
                let active = scan::masked(utf::bytes_of(content@));
                &&& main_begin(content@, is_main) matches Some(begin)
                &&& begin.start == o.begin
                &&& begin.end == o.begin_end
                &&& match o.end {
                    Some(e) => document_end(active, begin) matches Some(end) && end.start == e,
                    None => document_end(active, begin) is None,
                }
            },
            None => main_begin(content@, is_main) is None,
        },
{
    if !is_main {
        return None;
    }
    let active = scan::uncommented(content);
    proof {
        reveal_strlit("\\begin");
        reveal_strlit("\\end");
    }
    let begins = scan::commands(active.as_str(), "\\begin");
    match cjk::find_of_document(active.as_str(), "\\begin", &begins) {
        Some(begin) => {
            let ends = scan::commands(active.as_str(), "\\end");
            assert(scan::views(ends@).len() == ends@.len());
            let end = match find_last_of_document(active.as_str(), &ends, begin.end) {
                Some(c) => Some(c.start),
                None => None,
            };
            Some(Outline { begin: begin.start, begin_end: begin.end, end })
        },
        None => None,
    }
}

/// What of a file is to be translated: the body of a main file, any other file
/// as a whole.
pub fn document_body(content: &str, is_main: bool) -> (r: String)
    ensures
        r@ == body(content@, is_main),
{
    match outline(content, is_main) {
        Some(o) => {
            proof {
                lemma_parts(content@, main_begin(content@, is_main)->0);
            }
            let end: usize = match o.end {
                Some(e) => e,
                None => text::byte_len(content),
            };
            text::slice(content, o.begin_end, end).to_owned()
        },
        None => content.to_owned(),
    }
}

/// Appends a line end where there is none.
fn end_line(s: &mut String)
    ensures
        utf::bytes_of(final(s)@) == with_newline(utf::bytes_of(old(s)@)),
{
    proof {
        reveal_strlit("\n");
        utf::lemma_encode_concat(s@, "\n"@);
        is_ascii_chars_encode_utf8("\n"@);
    }
    let ghost b = utf::bytes_of(s@);
    let ended = {
        let bytes = s.as_str().as_bytes();
        bytes.len() > 0 && bytes[bytes.len() - 1] == scan::NEWLINE
    };
    if !ended {
        s.append("\n");
        assert(utf::bytes_of(s@) =~= b.push(scan::NEWLINE));
    }
}

/// The file around a translated body. In a main file the preamble gets Chinese
/// support and everything but the body stays; any other file becomes the
/// translation. None where the edits to the preamble run into each other.
pub fn try_translate_tex_file(content: &str, is_main: bool, translated: &str) -> (r: Option<String>)
    ensures
        r is Some <==> file_fits(content@, is_main),
        r matches Some(s) ==> utf::bytes_of(s@) == translated_file(
            content@,
            is_main,
            translated@,
        ),
{
    match outline(content, is_main) {
        Some(o) => {
            let ghost b = utf::bytes_of(content@);
            let ghost begin = main_begin(content@, is_main)->0;
            proof {
                lemma_parts(content@, begin);
            }
            let pre = text::slice(content, 0, o.begin);
            match cjk::try_add_cjk_support(pre) {
                Some(support) => {
                    let mut r = support;
                    end_line(&mut r);
                    let ghost head = r@;
                    let opening = text::slice(content, o.begin, o.begin_end);
                    r.append(opening);
                    r.append(translated);
                    proof {
                        utf::lemma_encode_concat(head, opening@);
                        utf::lemma_encode_concat(head + opening@, translated@);
                    }
                    match o.end {
                        Some(e) => {
                            end_line(&mut r);
                            let ghost opened = r@;
                            let tail = text::slice(content, e, text::byte_len(content));
                            r.append(tail);
                            proof {
                                utf::lemma_encode_concat(opened, tail@);
                            }
                        },
                        None => {},
                    }
                    Some(r)
                },
                None => None,
            }
        },
        None => Some(translated.to_owned()),
    }
}

/// The file around a translated body. In a main file the preamble gets Chinese
/// support and everything but the body stays; any other file becomes the
/// translation.
pub fn translate_tex_file(content: &str, is_main: bool, translated: &str) -> (r: String)
    requires
        file_fits(content@, is_main),
    ensures
        utf::bytes_of(r@) == translated_file(content@, is_main, translated@),
{
    try_translate_tex_file(content, is_main, translated).unwrap()
}

/// A main file is its preamble, its `\begin{document}`, its body and the rest:
/// nothing is lost and nothing is counted twice.
pub proof fn parts_make_the_file(content: Seq<char>, begin: CallAt)
    requires
        main_begin(content, true) == Some(begin),
    ensures
        ({
            let b = utf::bytes_of(content);
            let end = body_end(scan::masked(b), begin);
            b == utf::bytes_of(preamble(content, begin)) + b.subrange(begin.start, begin.end)
                + utf::bytes_of(body(content, true)) + b.subrange(end, b.len() as int)
        }),
{
    let b = utf::bytes_of(content);
    let end = body_end(scan::masked(b), begin);
    lemma_parts(content, begin);
    utf::lemma_piece_valid(b, 0, begin.start);
    utf::lemma_piece_valid(b, begin.end, end);
    decode_utf8_encode_utf8(b.subrange(0, begin.start));
    decode_utf8_encode_utf8(b.subrange(begin.end, end));
    assert(b =~= b.subrange(0, begin.start) + b.subrange(begin.start, begin.end) + b.subrange(
        begin.end,
        end,
    ) + b.subrange(end, b.len() as int));
}

/// The `\begin{document}` of a translated main file, and its `\end{document}`,
/// start a line: a comment before them does not hide them.
pub proof fn boundaries_start_lines(content: Seq<char>, begin: CallAt, translated: Seq<char>)
    requires
        main_begin(content, true) == Some(begin),
    ensures
        ({
            let b = utf::bytes_of(content);
            let active = scan::masked(b);
            let r = translated_file(content, true, translated);
            let p = with_newline(cjk::with_cjk(preamble(content, begin))).len() as int;
            &&& 0 < p && r[p - 1] == scan::NEWLINE
            &&& p + (begin.end - begin.start) <= r.len()
            &&& r.subrange(p, p + (begin.end - begin.start)) == b.subrange(begin.start, begin.end)
            &&& document_end(active, begin) matches Some(end) ==> {
                let q = r.len() - (b.len() - end.start);
                &&& 0 < q && r[q - 1] == scan::NEWLINE
                &&& r.subrange(q, r.len() as int) == b.subrange(end.start, b.len() as int)
            }
        }),
{
    let b = utf::bytes_of(content);
    let active = scan::masked(b);
    let r = translated_file(content, true, translated);
    lemma_parts(content, begin);
    let head = with_newline(cjk::with_cjk(preamble(content, begin)));
    let p = head.len() as int;
    let opening = b.subrange(begin.start, begin.end);
    let opened = head + opening + utf::bytes_of(translated);
    assert(r[p - 1] == head[p - 1]);
    assert(r.subrange(p, p + opening.len()) =~= opening);
    if let Some(end) = document_end(active, begin) {
        let q = r.len() - (b.len() - end.start);
        assert(q == with_newline(opened).len());
        assert(r[q - 1] == with_newline(opened)[q - 1]);
        assert(r.subrange(q, r.len() as int) =~= b.subrange(end.start, b.len() as int));
    }
}

} // verus!
