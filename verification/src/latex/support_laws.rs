//! Which edits a preamble gets, and which it does not.

use crate::latex::edits::EditAt;
use crate::latex::scan::CallAt;
use crate::latex::{cjk, cjk_laws, edits, scan};
use crate::{patterns, text, utf};
use vstd::prelude::*;
use vstd::utf8::*;

verus! {

/// The packages that a call lists, without the white space around their names.
pub open spec fn package_list(pre: Seq<u8>, c: CallAt) -> Seq<Seq<char>> {
    text::split_on(utf::text_of(pre.subrange(c.arg_start, c.arg_end)), ',').map_values(
        |p: Seq<char>| text::trim(p),
    )
}

/// The packages that choose no encoding, in their order.
pub open spec fn other_packages(names: Seq<Seq<char>>) -> Seq<Seq<char>> {
    names.filter(|n: Seq<char>| n != "fontenc"@ && n != "inputenc"@)
}

/// Of a list of packages, all stay but those that choose an encoding.
pub proof fn other_packages_stay(names: Seq<Seq<char>>)
    ensures
        cjk::without_encodings(names) == other_packages(names),
    decreases names.len(),
{
    reveal(Seq::filter);
    if names.len() > 0 {
        other_packages_stay(names.drop_last());
    }
}

/// The edit that takes the packages that choose an encoding out of a call: the call
/// goes as a whole where it lists no other, else its list becomes that of the others.
pub open spec fn takes_out(pre: Seq<u8>, c: CallAt, e: EditAt) -> bool {
    let names = package_list(pre, c);
    let others = other_packages(names);
    &&& others.len() < names.len()
    &&& if others.len() == 0 {
        e == (EditAt { start: c.start, end: c.end, text: Seq::empty() })
    } else {
        e == (EditAt {
            start: c.arg_start,
            end: c.arg_end,
            text: utf::bytes_of(text::join(others, ","@)),
        })
    }
}

proof fn lemma_nothing()
    ensures
        utf::bytes_of(""@) == Seq::<u8>::empty(),
{
    reveal_strlit("");
    assert(""@ =~= Seq::<char>::empty());
    assert(utf::bytes_of(""@) =~= Seq::<u8>::empty());
}

proof fn lemma_others_len(names: Seq<Seq<char>>)
    ensures
        cjk::without_encodings(names).len() <= names.len(),
    decreases names.len(),
{
    if names.len() > 0 {
        lemma_others_len(names.drop_last());
    }
}

proof fn lemma_package(pre: Seq<u8>, c: CallAt)
    ensures
        match cjk::package_edit(pre, c) {
            Some(e) => takes_out(pre, c, e),
            None => other_packages(package_list(pre, c)).len() == package_list(pre, c).len(),
        },
{
    lemma_nothing();
    other_packages_stay(package_list(pre, c));
    lemma_others_len(package_list(pre, c));
    assert(cjk::packages(cjk::argument(pre, c)) =~= package_list(pre, c));
}

proof fn lemma_package_made(pre: Seq<u8>, calls: Seq<CallAt>, n: int, k: int)
    requires
        0 <= k < n <= calls.len(),
        cjk::package_edit(pre, calls[k]) is Some,
    ensures
        cjk::package_edits(pre, calls, n).contains(cjk::package_edit(pre, calls[k])->0),
    decreases n,
{
    let before = cjk::package_edits(pre, calls, n - 1);
    let all = cjk::package_edits(pre, calls, n);
    let e = cjk::package_edit(pre, calls[k])->0;
    if k == n - 1 {
        assert(all[before.len() as int] == e);
    } else {
        lemma_package_made(pre, calls, n - 1, k);
        let m = choose|m: int| 0 <= m < before.len() && before[m] == e;
        assert(all[m] == e);
    }
}

proof fn lemma_package_owed(pre: Seq<u8>, calls: Seq<CallAt>, n: int, m: int)
    requires
        0 <= n <= calls.len(),
        0 <= m < cjk::package_edits(pre, calls, n).len(),
    ensures
        exists|k: int|
            0 <= k < n && takes_out(
                pre,
                #[trigger] calls[k],
                cjk::package_edits(pre, calls, n)[m],
            ),
    decreases n,
{
    let before = cjk::package_edits(pre, calls, n - 1);
    let all = cjk::package_edits(pre, calls, n);
    lemma_package(pre, calls[n - 1]);
    if m < before.len() {
        lemma_package_owed(pre, calls, n - 1, m);
        let k = choose|k: int| 0 <= k < n - 1 && takes_out(pre, #[trigger] calls[k], before[m]);
        assert(all[m] == before[m]);
        assert(takes_out(pre, calls[k], all[m]));
    } else {
        assert(takes_out(pre, calls[n - 1], all[m]));
    }
}

/// The bytes of the preamble, given the text without its comments.
pub open spec fn preamble_bytes(active: Seq<u8>) -> Seq<u8> {
    active.take(cjk::preamble_end(active))
}

/// The calls of a command in the preamble.
pub open spec fn preamble_calls(active: Seq<u8>, command: Seq<char>) -> Seq<CallAt> {
    scan::calls(preamble_bytes(active), utf::bytes_of(command))
}

/// The edit that puts in Chinese support behind the first document class.
pub open spec fn support(active: Seq<u8>) -> EditAt {
    let p = preamble_calls(active, "\\documentclass"@)[0].end;
    EditAt { start: p, end: p, text: utf::bytes_of(cjk::CJK_LINES@) }
}

/// The edit that takes out output directive number `k`.
pub open spec fn takes_out_directive(active: Seq<u8>, k: int) -> EditAt {
    let t = utf::text_of(preamble_bytes(active));
    let p = patterns::directives(t)[k];
    EditAt { start: utf::offset_of(t, p.0), end: utf::offset_of(t, p.1), text: Seq::empty() }
}

/// A preamble with a document class gets Chinese support directly behind the first.
pub proof fn support_goes_behind_the_first_class(active: Seq<u8>)
    requires
        preamble_calls(active, "\\documentclass"@).len() > 0,
    ensures
        cjk::preamble_edits(active).len() > 0,
        cjk::preamble_edits(active)[0] == support(active),
{
}

/// Every call of `\usepackage` that lists a package which chooses an encoding has it
/// taken out.
pub proof fn encodings_are_taken_out(active: Seq<u8>, k: int)
    requires
        0 <= k < preamble_calls(active, "\\usepackage"@).len(),
        ({
            let names = package_list(
                preamble_bytes(active),
                preamble_calls(active, "\\usepackage"@)[k],
            );
            names.contains("fontenc"@) || names.contains("inputenc"@)
        }),
    ensures
        exists|e: EditAt|
            cjk::preamble_edits(active).contains(e) && #[trigger] takes_out(
                preamble_bytes(active),
                preamble_calls(active, "\\usepackage"@)[k],
                e,
            ),
{
    let pre = preamble_bytes(active);
    let uses = preamble_calls(active, "\\usepackage"@);
    let n = uses.len() as int;
    let names = package_list(pre, uses[k]);
    lemma_package(pre, uses[k]);
    lemma_fewer(names);
    let e = cjk::package_edit(pre, uses[k])->0;
    lemma_package_made(pre, uses, n, k);
    let made = cjk::package_edits(pre, uses, n);
    let m = choose|m: int| 0 <= m < made.len() && made[m] == e;
    assert(cjk::preamble_edits(active)[cjk::class_edits(pre).len() + m] == e);
}

proof fn lemma_fewer(names: Seq<Seq<char>>)
    requires
        names.contains("fontenc"@) || names.contains("inputenc"@),
    ensures
        other_packages(names).len() < names.len(),
    decreases names.len(),
{
    reveal(Seq::filter);
    let head = names.drop_last();
    other_packages_stay(head);
    lemma_others_len(head);
    let i = choose|i: int| 0 <= i < names.len() && (names[i] == "fontenc"@ || names[i] == "inputenc"@);
    assert(names[i] == "fontenc"@ || names[i] == "inputenc"@) by {
        if names.contains("fontenc"@) {
            let a = choose|a: int| 0 <= a < names.len() && names[a] == "fontenc"@;
            assert(names[a] == "fontenc"@);
        } else {
            let a = choose|a: int| 0 <= a < names.len() && names[a] == "inputenc"@;
            assert(names[a] == "inputenc"@);
        }
    }
    if i < names.len() - 1 {
        assert(head[i] == names[i]);
        lemma_fewer(head);
    }
}

/// Every output directive of the preamble is taken out.
pub proof fn directives_are_taken_out(active: Seq<u8>, k: int)
    requires
        0 <= k < patterns::directives(utf::text_of(preamble_bytes(active))).len(),
    ensures
        cjk::preamble_edits(active).contains(takes_out_directive(active, k)),
{
    lemma_nothing();
    let pre = preamble_bytes(active);
    let all = cjk::preamble_edits(active);
    let last = cjk::directive_edits(utf::text_of(pre));
    let m = all.len() - last.len() + k;
    assert(all[m] == last[k]);
}

/// Nothing else is edited: each edit puts in the support, takes a package that
/// chooses an encoding out of a call, or takes out a directive.
pub proof fn edits_have_their_reasons(active: Seq<u8>, m: int)
    requires
        0 <= m < cjk::preamble_edits(active).len(),
    ensures
        ({
            let pre = preamble_bytes(active);
            let e = cjk::preamble_edits(active)[m];
            let uses = preamble_calls(active, "\\usepackage"@);
            let count = patterns::directives(utf::text_of(pre)).len();
            ||| m == 0 && preamble_calls(active, "\\documentclass"@).len() > 0 && e == support(
                active,
            )
            ||| exists|k: int| 0 <= k < uses.len() && takes_out(pre, #[trigger] uses[k], e)
            ||| exists|k: int| 0 <= k < count && e == #[trigger] takes_out_directive(active, k)
        }),
{
    lemma_nothing();
    let pre = preamble_bytes(active);
    let all = cjk::preamble_edits(active);
    let first = cjk::class_edits(pre);
    let uses = preamble_calls(active, "\\usepackage"@);
    let middle = cjk::package_edits(pre, uses, uses.len() as int);
    let last = cjk::directive_edits(utf::text_of(pre));
    if m < first.len() {
        assert(all[m] == first[m]);
    } else if m < first.len() + middle.len() {
        assert(all[m] == middle[m - first.len()]);
        lemma_package_owed(pre, uses, uses.len() as int, m - first.len());
    } else {
        let k = m - first.len() - middle.len();
        assert(all[m] == last[k]);
        assert(all[m] == takes_out_directive(active, k));
    }
}

/// An empty list names nothing that chooses an encoding.
proof fn lemma_empty_list(pre: Seq<u8>, c: CallAt, e: EditAt)
    requires
        takes_out(pre, c, e),
        0 <= c.arg_start <= c.arg_end <= pre.len(),
    ensures
        c.arg_start < c.arg_end,
{
    if c.arg_start == c.arg_end {
        let none = pre.subrange(c.arg_start, c.arg_end);
        assert(none =~= Seq::<u8>::empty());
        let t = utf::text_of(none);
        assert(t.len() == 0);
        let names = package_list(pre, c);
        assert(text::split_on(t, ',') == seq![Seq::<char>::empty()]);
        assert(names.len() == 1);
        assert(names[0].len() == 0);
        reveal(Seq::filter);
        reveal_strlit("fontenc");
        reveal_strlit("inputenc");
        assert(names.drop_last() =~= Seq::<Seq<char>>::empty());
        assert(names.drop_last().filter(
            |n: Seq<char>| n != "fontenc"@ && n != "inputenc"@,
        ).len() == 0);
        assert(other_packages(names).len() == 1);
    }
}

/// Support is put in once: every edit but the first takes something out.
pub proof fn support_is_put_in_once(active: Seq<u8>, m: int)
    requires
        0 <= m < cjk::preamble_edits(active).len(),
        m > 0 || preamble_calls(active, "\\documentclass"@).len() == 0,
    ensures
        cjk::preamble_edits(active)[m].start < cjk::preamble_edits(active)[m].end,
{
    let pre = preamble_bytes(active);
    let e = cjk::preamble_edits(active)[m];
    let uses = preamble_calls(active, "\\usepackage"@);
    let t = utf::text_of(pre);
    let spans = patterns::directives(t);
    edits_have_their_reasons(active, m);
    scan::lemma_calls_from(pre, utf::bytes_of("\\usepackage"@), 0);
    if exists|k: int| 0 <= k < uses.len() && takes_out(pre, #[trigger] uses[k], e) {
        let k = choose|k: int| 0 <= k < uses.len() && takes_out(pre, #[trigger] uses[k], e);
        assert(scan::call_fits(pre, utf::bytes_of("\\usepackage"@), uses[k]));
        lemma_empty_list(pre, uses[k], e);
    } else {
        let k = choose|k: int| 0 <= k < spans.len() && e == #[trigger] takes_out_directive(
            active,
            k,
        );
        cjk_laws::lemma_directive_spans(t, k);
        utf::lemma_offsets(t, spans[k].0, spans[k].1);
    }
}

/// Comments do not matter: the edits to a document are those to the text without its
/// comments, in the order of the text.
pub proof fn comments_are_not_edited(b: Seq<u8>)
    ensures
        cjk::cjk_edits(b).to_multiset() == cjk::preamble_edits(scan::masked(b)).to_multiset(),
        edits::ordered(cjk::cjk_edits(b)),
{
    edits::sorting_is_stable(cjk::preamble_edits(scan::masked(b)), 0);
}

/// The support loads a package for Chinese, and names a font for each family.
pub proof fn support_loads_chinese_fonts()
    ensures
        text::occurs(cjk::CJK_LINES@, "\n\\usepackage{xeCJK}\n"@),
        text::occurs(cjk::CJK_LINES@, "\n\\setCJKmainfont{FandolSong-Regular.otf}\n"@),
        text::occurs(cjk::CJK_LINES@, "\n\\setCJKsansfont{FandolHei-Regular.otf}\n"@),
        text::occurs(cjk::CJK_LINES@, "\n\\setCJKmonofont{FandolFang-Regular.otf}\n"@),
{
    reveal_strlit(
        "\n% [ratex] CJK support for Chinese translation\n\\usepackage{xeCJK}\n\\setCJKmainfont{FandolSong-Regular.otf}\n\\setCJKsansfont{FandolHei-Regular.otf}\n\\setCJKmonofont{FandolFang-Regular.otf}\n",
    );
    reveal_strlit("\n\\usepackage{xeCJK}\n");
    reveal_strlit("\n\\setCJKmainfont{FandolSong-Regular.otf}\n");
    reveal_strlit("\n\\setCJKsansfont{FandolHei-Regular.otf}\n");
    reveal_strlit("\n\\setCJKmonofont{FandolFang-Regular.otf}\n");
    let s = cjk::CJK_LINES@;
    assert(s.subrange(46, 66) =~= "\n\\usepackage{xeCJK}\n"@);
    assert(text::occurs_at(s, "\n\\usepackage{xeCJK}\n"@, 46));
    assert(s.subrange(65, 106) =~= "\n\\setCJKmainfont{FandolSong-Regular.otf}\n"@);
    assert(text::occurs_at(s, "\n\\setCJKmainfont{FandolSong-Regular.otf}\n"@, 65));
    assert(s.subrange(105, 145) =~= "\n\\setCJKsansfont{FandolHei-Regular.otf}\n"@);
    assert(text::occurs_at(s, "\n\\setCJKsansfont{FandolHei-Regular.otf}\n"@, 105));
    assert(s.subrange(144, 185) =~= "\n\\setCJKmonofont{FandolFang-Regular.otf}\n"@);
    assert(text::occurs_at(s, "\n\\setCJKmonofont{FandolFang-Regular.otf}\n"@, 144));
}

proof fn lemma_white(s: Seq<char>, i: int, j: int)
    requires
        0 <= i <= j <= s.len(),
        forall|k: int| i <= k < j ==> text::white_space(#[trigger] s[k]),
        j == s.len() || !text::white_space(s[j]),
    ensures
        patterns::behind_white(s, i) == j,
    decreases j - i,
{
    if i < j {
        lemma_white(s, i + 1, j);
    }
}

proof fn lemma_digits(s: Seq<char>, i: int, j: int)
    requires
        0 <= i <= j <= s.len(),
        forall|k: int| i <= k < j ==> '0' <= #[trigger] s[k] <= '9',
        j == s.len() || !('0' <= s[j] <= '9'),
    ensures
        patterns::behind_digits(s, i) == j,
    decreases j - i,
{
    if i < j {
        lemma_digits(s, i + 1, j);
    }
}

proof fn lemma_directive_found(s: Seq<char>, i: int, p: int)
    requires
        0 <= i <= p < s.len(),
        patterns::directive_end(s, p) is Some,
    ensures
        patterns::directives_from(s, i).contains((p, patterns::directive_end(s, p)->0)),
    decreases p - i,
{
    let wanted = (p, patterns::directive_end(s, p)->0);
    let rest = patterns::directives_from(s, i + 1);
    let all = patterns::directives_from(s, i);
    if i == p {
        assert(all == seq![wanted] + rest);
        assert(all[0] == wanted);
    } else {
        lemma_directive_found(s, i + 1, p);
        let k = choose|k: int| 0 <= k < rest.len() && rest[k] == wanted;
        if patterns::directive_end(s, i) is Some {
            assert(all == seq![(i, patterns::directive_end(s, i)->0)] + rest);
            assert(all[k + 1] == wanted);
        } else {
            assert(all[k] == wanted);
        }
    }
}

/// An output directive is the command `\pdfoutput`, an equals sign or none, and a
/// number, with white space around the sign or none; all of its digits belong to it.
pub proof fn output_directives_are_found(s: Seq<char>, p: int, sign: int, number: int, end: int)
    requires
        0 <= p,
        text::occurs_at(s, "\\pdfoutput"@, p),
        p + "\\pdfoutput"@.len() <= sign <= number < end <= s.len(),
        forall|k: int|
            p + "\\pdfoutput"@.len() <= k < sign ==> text::white_space(#[trigger] s[k]),
        sign == number || s[sign] == '=',
        forall|k: int| sign < k < number ==> text::white_space(#[trigger] s[k]),
        forall|k: int| number <= k < end ==> '0' <= #[trigger] s[k] <= '9',
        end == s.len() || !('0' <= s[end] <= '9'),
    ensures
        patterns::directives(s).contains((p, end)),
{
    assert('0' <= s[number] <= '9');
    lemma_white(s, p + "\\pdfoutput"@.len(), sign);
    if sign == number {
        lemma_white(s, sign, sign);
    } else {
        lemma_white(s, sign + 1, number);
    }
    lemma_digits(s, number, end);
    lemma_directive_found(s, 0, p);
}

} // verus!
