//! Chinese support in the preamble of a document.

use crate::latex::edits::{Edit, EditAt};
use crate::latex::scan::{Call, CallAt};
use crate::latex::{edits, scan};
use crate::{outside, patterns, text, utf};
use vstd::prelude::*;
use vstd::utf8::*;

verus! {

/// What goes behind the document class.
pub const CJK_LINES: &'static str =
    "\n% [ratex] CJK support for Chinese translation\n\\usepackage{xeCJK}\n\\setCJKmainfont{FandolSong-Regular.otf}\n\\setCJKsansfont{FandolHei-Regular.otf}\n\\setCJKmonofont{FandolFang-Regular.otf}\n";

/// What stands between the braces of a call.
pub open spec fn argument(b: Seq<u8>, c: CallAt) -> Seq<char> {
    utf::text_of(b.subrange(c.arg_start, c.arg_end))
}

/// The argument, apart from white space around it, is `document`.
pub open spec fn of_document(b: Seq<u8>, c: CallAt) -> bool {
    text::trim(argument(b, c)) == "document"@
}

/// The first of the calls, from number `k` on, that has the argument `document`.
pub open spec fn first_of_document(b: Seq<u8>, calls: Seq<CallAt>, k: int) -> Option<CallAt>
    decreases calls.len() - k,
{
    if k >= calls.len() {
        None
    } else if of_document(b, calls[k]) {
        Some(calls[k])
    } else {
        first_of_document(b, calls, k + 1)
    }
}

/// The first `\begin{document}`.
pub open spec fn document_begin(active: Seq<u8>) -> Option<CallAt> {
    first_of_document(active, scan::calls(active, utf::bytes_of("\\begin"@)), 0)
}

/// The length of the preamble: up to `\begin{document}`, or everything.
pub open spec fn preamble_end(active: Seq<u8>) -> int {
    match document_begin(active) {
        Some(c) => c.start,
        None => active.len() as int,
    }
}

/// The packages that an argument names.
pub open spec fn packages(arg: Seq<char>) -> Seq<Seq<char>> {
    text::split_on(arg, ',').map_values(|p: Seq<char>| text::trim(p))
}

/// A package that chooses an encoding.
pub open spec fn chooses_encoding(name: Seq<char>) -> bool {
    name == "fontenc"@ || name == "inputenc"@
}

/// The names without those of packages that choose an encoding.
pub open spec fn without_encodings(names: Seq<Seq<char>>) -> Seq<Seq<char>>
    decreases names.len(),
{
    if names.len() == 0 {
        names
    } else if chooses_encoding(names.last()) {
        without_encodings(names.drop_last())
    } else {
        without_encodings(names.drop_last()).push(names.last())
    }
}

/// The edit that takes the encoding packages out of a `\usepackage`: the whole
/// call goes where it names nothing else.
pub open spec fn package_edit(pre: Seq<u8>, c: CallAt) -> Option<EditAt> {
    let names = packages(argument(pre, c));
    let kept = without_encodings(names);
    if kept.len() == names.len() {
        None
    } else if kept.len() == 0 {
        Some(EditAt { start: c.start, end: c.end, text: utf::bytes_of(""@) })
    } else {
        Some(
            EditAt {
                start: c.arg_start,
                end: c.arg_end,
                text: utf::bytes_of(text::join(kept, ","@)),
            },
        )
    }
}

/// The edits of the first `n` calls of `\usepackage`.
pub open spec fn package_edits(pre: Seq<u8>, calls: Seq<CallAt>, n: int) -> Seq<EditAt>
    decreases n,
{
    if n <= 0 {
        Seq::empty()
    } else {
        let before = package_edits(pre, calls, n - 1);
        match package_edit(pre, calls[n - 1]) {
            Some(e) => before.push(e),
            None => before,
        }
    }
}

/// The edit that puts Chinese support behind the document class, if there is one.
pub open spec fn class_edits(pre: Seq<u8>) -> Seq<EditAt> {
    let classes = scan::calls(pre, utf::bytes_of("\\documentclass"@));
    if classes.len() == 0 {
        Seq::empty()
    } else {
        seq![
            EditAt {
                start: classes[0].end,
                end: classes[0].end,
                text: utf::bytes_of(CJK_LINES@),
            },
        ]
    }
}

/// The edit that takes out what lies between two offsets.
pub open spec fn removal(p: (int, int)) -> EditAt {
    EditAt { start: p.0, end: p.1, text: utf::bytes_of(""@) }
}

/// The edits that take out the output directives.
pub open spec fn directive_edits(pre: Seq<char>) -> Seq<EditAt> {
    patterns::in_bytes(pre, patterns::directives(pre)).map_values(|p: (int, int)| removal(p))
}

/// All edits to the preamble, given the text without its comments.
pub open spec fn preamble_edits(active: Seq<u8>) -> Seq<EditAt> {
    let pre = active.take(preamble_end(active));
    let uses = scan::calls(pre, utf::bytes_of("\\usepackage"@));
    class_edits(pre) + package_edits(pre, uses, uses.len() as int) + directive_edits(
        utf::text_of(pre),
    )
}

/// All edits to a document, in the order of their starts.
pub open spec fn cjk_edits(b: Seq<u8>) -> Seq<EditAt> {
    edits::in_order(preamble_edits(scan::masked(b)))
}

/// No edit runs into another one.
pub open spec fn cjk_fits(content: Seq<char>) -> bool {
    edits::edits_fit(utf::bytes_of(content), cjk_edits(utf::bytes_of(content)))
}

/// The bytes of a document with Chinese support.
pub open spec fn with_cjk(content: Seq<char>) -> Seq<u8> {
    edits::applied(utf::bytes_of(content), cjk_edits(utf::bytes_of(content)))
}

/// The ends of a call and of its argument cut no character.
pub proof fn lemma_call_boundaries(b: Seq<u8>, command: Seq<char>, c: CallAt)
    requires
        valid_utf8(b),
        command.len() > 0,
        command[0] == '\\',
        scan::call_fits(b, utf::bytes_of(command), c),
    ensures
        is_char_boundary(b, c.start),
        is_char_boundary(b, c.end),
        is_char_boundary(b, c.arg_start),
        is_char_boundary(b, c.arg_end),
        b[c.start] == scan::BACKSLASH,
{
    let p = utf::bytes_of(command);
    let first = seq![command[0]];
    assert(command =~= first + command.skip(1));
    utf::lemma_encode_concat(first, command.skip(1));
    is_ascii_chars_encode_utf8(first);
    assert(p[0] == first[0] as u8);
    assert(b.subrange(c.start, c.start + p.len())[0] == b[c.start]);
    utf::lemma_ascii_boundary(b, c.start);
    utf::lemma_ascii_boundary(b, c.arg_start - 1);
    utf::lemma_ascii_boundary(b, c.end - 1);
}

/// The first of the calls that has the argument `document`.
pub fn find_of_document(active: &str, command: &str, found: &Vec<Call>) -> (r: Option<Call>)
    requires
        command@.len() > 0,
        command@[0] == '\\',
        scan::views(found@) == scan::calls(utf::bytes_of(active@), utf::bytes_of(command@)),
    ensures
        match r {
            Some(c) => first_of_document(utf::bytes_of(active@), scan::views(found@), 0) == Some(
                c@,
            ),
            None => first_of_document(utf::bytes_of(active@), scan::views(found@), 0) is None,
        },
        r matches Some(c) ==> scan::call_fits(
            utf::bytes_of(active@),
            utf::bytes_of(command@),
            c@,
        ),
{
    let ghost b = utf::bytes_of(active@);
    let ghost calls = scan::views(found@);
    proof {
        encode_utf8_valid_utf8(active@);
        scan::lemma_calls_from(b, utf::bytes_of(command@), 0);
    }
    let mut k: usize = 0;
    while k < found.len()
        invariant
            k <= found.len(),
            b == utf::bytes_of(active@),
            valid_utf8(b),
            command@.len() > 0,
            command@[0] == '\\',
            calls == scan::views(found@),
            forall|i: int|
                0 <= i < calls.len() ==> scan::call_fits(
                    b,
                    utf::bytes_of(command@),
                    #[trigger] calls[i],
                ),
            first_of_document(b, calls, 0) == first_of_document(b, calls, k as int),
        decreases found.len() - k,
    {
        let c = found[k];
        assert(calls[k as int] == c@);
        proof {
            lemma_call_boundaries(b, command@, c@);
        }
        let arg = text::slice(active, c.arg_start, c.arg_end);
        if text::same(text::trimmed(arg), "document") {
            return Some(c);
        }
        k += 1;
    }
    None
}

/// The packages that an argument names.
fn package_names(arg: &str) -> (r: Vec<String>)
    ensures
        text::texts(r@) == packages(arg@),
{
    let pieces = text::split(arg, ',');
    let mut r: Vec<String> = Vec::new();
    let mut i: usize = 0;
    while i < pieces.len()
        invariant
            i <= pieces.len(),
            text::texts(pieces@) == text::split_on(arg@, ','),
            text::texts(r@) == packages(arg@).take(i as int),
        decreases pieces.len() - i,
    {
        let ghost before = text::texts(r@);
        let name = text::trimmed(pieces[i].as_str());
        assert(text::texts(pieces@)[i as int] == pieces@[i as int]@);
        r.push(name.to_owned());
        assert(text::texts(r@) =~= before.push(name@));
        assert(packages(arg@).take(i + 1) =~= packages(arg@).take(i as int).push(
            packages(arg@)[i as int],
        ));
        i += 1;
    }
    assert(packages(arg@).take(i as int) =~= packages(arg@));
    r
}

/// The names without those of packages that choose an encoding.
fn keep(names: &Vec<String>) -> (r: Vec<String>)
    ensures
        text::texts(r@) == without_encodings(text::texts(names@)),
{
    let mut r: Vec<String> = Vec::new();
    let mut i: usize = 0;
    assert(text::texts(names@).take(0) =~= Seq::<Seq<char>>::empty());
    assert(text::texts(r@) =~= Seq::<Seq<char>>::empty());
    while i < names.len()
        invariant
            i <= names.len(),
            text::texts(r@) == without_encodings(text::texts(names@).take(i as int)),
        decreases names.len() - i,
    {
        let ghost all = text::texts(names@);
        let ghost before = text::texts(r@);
        let name = names[i].as_str();
        assert(all.take(i + 1).drop_last() =~= all.take(i as int));
        assert(all.take(i + 1).last() == name@);
        if !text::same(name, "fontenc") && !text::same(name, "inputenc") {
            r.push(name.to_owned());
            assert(text::texts(r@) =~= before.push(name@));
        }
        i += 1;
    }
    assert(text::texts(names@).take(i as int) =~= text::texts(names@));
    r
}

/// The edit that takes the encoding packages out of a `\usepackage`.
fn edit_of_package(preamble: &str, c: Call) -> (r: Option<Edit>)
    requires
        scan::call_fits(utf::bytes_of(preamble@), utf::bytes_of("\\usepackage"@), c@),
    ensures
        match r {
            Some(e) => package_edit(utf::bytes_of(preamble@), c@) == Some(e@),
            None => package_edit(utf::bytes_of(preamble@), c@) is None,
        },
{
    proof {
        encode_utf8_valid_utf8(preamble@);
        reveal_strlit("\\usepackage");
        lemma_call_boundaries(utf::bytes_of(preamble@), "\\usepackage"@, c@);
    }
    let arg = text::slice(preamble, c.arg_start, c.arg_end);
    let names = package_names(arg);
    let kept = keep(&names);
    assert(text::texts(names@).len() == names@.len());
    assert(text::texts(kept@).len() == kept@.len());
    if kept.len() == names.len() {
        None
    } else if kept.len() == 0 {
        Some(Edit { start: c.start, end: c.end, text: "".to_owned() })
    } else {
        Some(Edit { start: c.arg_start, end: c.arg_end, text: text::joined(&kept, ",") })
    }
}

/// All edits to the preamble, given the text without its comments.
fn edits_of_preamble(active: &str) -> (r: Vec<Edit>)
    ensures
        edits::edit_views(r@) == preamble_edits(utf::bytes_of(active@)),
{
    let ghost b = utf::bytes_of(active@);
    proof {
        encode_utf8_valid_utf8(active@);
        utf::lemma_ends_are_boundaries(b);
        reveal_strlit("\\begin");
        reveal_strlit("\\documentclass");
        reveal_strlit("\\usepackage");
    }
    let begins = scan::commands(active, "\\begin");
    let end: usize = match find_of_document(active, "\\begin", &begins) {
        Some(c) => {
            proof {
                lemma_call_boundaries(b, "\\begin"@, c@);
            }
            c.start
        },
        None => text::byte_len(active),
    };
    let preamble = text::slice(active, 0, end);
    let ghost pre = b.take(end as int);
    assert(pre =~= b.subrange(0, end as int));
    let mut r: Vec<Edit> = Vec::new();

    let classes = scan::commands(preamble, "\\documentclass");
    let ghost class_calls = scan::views(classes@);
    if classes.len() > 0 {
        let class = classes[0];
        assert(class_calls[0] == class@);
        r.push(Edit { start: class.end, end: class.end, text: CJK_LINES.to_owned() });
    }
    assert(edits::edit_views(r@) =~= class_edits(pre));

    let uses = scan::commands(preamble, "\\usepackage");
    let ghost use_calls = scan::views(uses@);
    proof {
        scan::lemma_calls_from(pre, utf::bytes_of("\\usepackage"@), 0);
        assert(class_edits(pre) + package_edits(pre, use_calls, 0) =~= class_edits(pre));
    }
    let mut k: usize = 0;
    while k < uses.len()
        invariant
            k <= uses.len(),
            pre == utf::bytes_of(preamble@),
            use_calls == scan::views(uses@),
            forall|i: int|
                0 <= i < use_calls.len() ==> scan::call_fits(
                    pre,
                    utf::bytes_of("\\usepackage"@),
                    #[trigger] use_calls[i],
                ),
            edits::edit_views(r@) == class_edits(pre) + package_edits(pre, use_calls, k as int),
        decreases uses.len() - k,
    {
        let ghost before = edits::edit_views(r@);
        let c = uses[k];
        assert(use_calls[k as int] == c@);
        match edit_of_package(preamble, c) {
            Some(e) => {
                r.push(e);
                assert(edits::edit_views(r@) =~= before.push(e@));
                assert(before.push(e@) =~= class_edits(pre) + package_edits(
                    pre,
                    use_calls,
                    k as int,
                ).push(e@));
            },
            None => {},
        }
        k += 1;
    }

    let ghost done = edits::edit_views(r@);
    let found = outside::regex_find_iter(patterns::PDFOUTPUT, preamble);
    let ghost spans = patterns::pairs(found@);
    assert(done + directive_edits(preamble@).take(0) =~= done);
    let mut m: usize = 0;
    while m < found.len()
        invariant
            m <= found.len(),
            spans == patterns::pairs(found@),
            spans == patterns::in_bytes(preamble@, patterns::directives(preamble@)),
            edits::edit_views(r@) == done + directive_edits(preamble@).take(m as int),
        decreases found.len() - m,
    {
        let ghost before = edits::edit_views(r@);
        let ghost all = directive_edits(preamble@);
        let (start, end) = found[m];
        let e = Edit { start, end, text: "".to_owned() };
        assert(spans[m as int] == (start as int, end as int));
        assert(e@ == all[m as int]);
        r.push(e);
        assert(edits::edit_views(r@) =~= before.push(e@));
        assert(all.take(m + 1) =~= all.take(m as int).push(all[m as int]));
        assert(before.push(e@) =~= done + all.take(m + 1));
        m += 1;
    }
    assert(directive_edits(preamble@).take(m as int) =~= directive_edits(preamble@));
    r
}

/// Puts Chinese support behind the document class, takes out the packages that
/// choose an encoding and the pdfTeX output directives, and leaves the rest of
/// the text as it is. None where these edits run into each other.
pub fn try_add_cjk_support(content: &str) -> (r: Option<String>)
    ensures
        r is Some <==> cjk_fits(content@),
        r matches Some(s) ==> utf::bytes_of(s@) == with_cjk(content@),
{
    let active = scan::uncommented(content);
    let changes = edits::sort_edits(edits_of_preamble(active.as_str()));
    edits::try_apply(content, &changes)
}

/// Puts Chinese support behind the document class, takes out the packages that
/// choose an encoding and the pdfTeX output directives, and leaves the rest of
/// the text as it is.
pub fn add_cjk_support(content: &str) -> (r: String)
    requires
        cjk_fits(content@),
    ensures
        utf::bytes_of(r@) == with_cjk(content@),
{
    try_add_cjk_support(content).unwrap()
}

} // verus!
