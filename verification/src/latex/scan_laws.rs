//! What reading LaTeX finds: escapes, comments, groups and commands.

use crate::latex::scan;
use crate::latex::scan::CallAt;
use crate::text;
use vstd::prelude::*;

verus! {

/// A backslash escapes what stands behind it, unless it is escaped itself.
pub proof fn escapes_alternate(b: Seq<u8>, lo: int, i: int)
    requires
        lo <= i,
    ensures
        !scan::escaped(b, lo, lo),
        scan::escaped(b, lo, i + 1) <==> b[i] == 0x5c && !scan::escaped(b, lo, i),
{
}

/// A percent sign that is not escaped hides the rest of its line.
pub proof fn comments_run_to_the_line_end(b: Seq<u8>, i: int, j: int)
    requires
        0 <= i <= j < b.len(),
        b[i] == 0x25,
        !scan::escaped(b, 0, i),
        forall|k: int| i <= k <= j ==> b[k] != 0x0a,
    ensures
        scan::masked(b)[j] == 0x20,
{
    assert(scan::comment_sign(b, i));
    assert(scan::in_comment(b, j));
}

/// What has no unescaped percent sign before it on its line stays.
pub proof fn text_before_comments_stays(b: Seq<u8>, i: int, j: int)
    requires
        0 <= i <= j < b.len(),
        i == 0 || b[i - 1] == 0x0a,
        forall|k: int| i <= k <= j && b[k] == 0x25 ==> scan::escaped(b, 0, k),
    ensures
        scan::masked(b)[j] == b[j],
{
    if scan::in_comment(b, j) {
        let k = choose|k: int|
            0 <= k <= j && #[trigger] scan::comment_sign(b, k) && (forall|m: int|
                k <= m <= j ==> b[m] != scan::NEWLINE);
        if k < i {
            assert(b[i - 1] != scan::NEWLINE);
        }
        assert(scan::escaped(b, 0, k));
    }
}

/// How many more groups are opened than closed from `from` up to `i`, by braces
/// that are not escaped.
pub open spec fn level(b: Seq<u8>, from: int, i: int) -> int
    decreases i - from,
{
    if i <= from {
        0
    } else {
        level(b, from, i - 1) + if scan::escaped(b, from, i - 1) {
            0int
        } else if b[i - 1] == 0x7b {
            1
        } else if b[i - 1] == 0x7d {
            -1
        } else {
            0
        }
    }
}

proof fn lemma_braces(b: Seq<u8>, start: int, i: int, depth: nat)
    requires
        0 <= start < i <= b.len(),
        b[start] == 0x7b,
        depth == level(b, start + 1, i),
        forall|j: int| start < j <= i ==> #[trigger] level(b, start + 1, j) >= 0,
    ensures
        match scan::close_from(b, start, i, depth) {
            Some(e) => {
                &&& i < e <= b.len()
                &&& level(b, start + 1, e) == -1
                &&& forall|j: int| start < j < e ==> #[trigger] level(b, start + 1, j) >= 0
            },
            None => forall|j: int|
                start < j <= b.len() ==> #[trigger] level(b, start + 1, j) >= 0,
        },
    decreases b.len() - i,
{
    if i < b.len() {
        let next = level(b, start + 1, i + 1);
        if next >= 0 {
            lemma_braces(b, start, i + 1, next as nat);
        }
    }
}

/// A group in braces ends where as many braces are closed as were opened, and not
/// before; it has no end where that comes nowhere. Escaped braces do not count.
pub proof fn braces_are_balanced(b: Seq<u8>, start: int)
    requires
        0 <= start < b.len(),
        b[start] == 0x7b,
    ensures
        match scan::group_close(b, start) {
            Some(e) => {
                &&& start + 1 < e <= b.len()
                &&& level(b, start + 1, e) == -1
                &&& forall|j: int| start < j < e ==> #[trigger] level(b, start + 1, j) >= 0
            },
            None => forall|j: int|
                start < j <= b.len() ==> #[trigger] level(b, start + 1, j) >= 0,
        },
{
    lemma_braces(b, start, start + 1, 0);
}

proof fn lemma_option(b: Seq<u8>, start: int, i: int, depth: nat, e: int)
    requires
        0 <= start < i < e <= b.len(),
        b[start] == 0x5b,
        depth == level(b, start + 1, i),
        b[e - 1] == 0x5d,
        !scan::escaped(b, start + 1, e - 1),
        level(b, start + 1, e - 1) == 0,
        forall|j: int| start < j < e ==> #[trigger] level(b, start + 1, j) >= 0,
        forall|j: int|
            start < j < e - 1 && #[trigger] b[j] == 0x5d ==> scan::escaped(b, start + 1, j)
                || level(b, start + 1, j) > 0,
    ensures
        scan::close_from(b, start, i, depth) == Some(e),
    decreases b.len() - i,
{
    if i < e - 1 {
        let next = level(b, start + 1, i + 1);
        lemma_option(b, start, i + 1, next as nat, e);
    }
}

proof fn lemma_option_closer(b: Seq<u8>, start: int, i: int, depth: nat)
    requires
        0 <= start < i,
    ensures
        scan::close_from(b, start, i, depth) matches Some(e) ==> i < e && !scan::escaped(
            b,
            start + 1,
            e - 1,
        ),
    decreases b.len() - i,
{
    if i < b.len() {
        lemma_option_closer(b, start, i + 1, depth);
        lemma_option_closer(b, start, i + 1, depth + 1);
        if depth > 0 {
            lemma_option_closer(b, start, i + 1, (depth - 1) as nat);
        }
    }
}

/// A group in brackets ends with the first closing bracket that is neither escaped
/// nor inside of braces.
pub proof fn options_end_outside_of_braces(b: Seq<u8>, start: int, e: int)
    requires
        0 <= start,
        start + 1 < e <= b.len(),
        b[start] == 0x5b,
        b[e - 1] == 0x5d,
        !scan::escaped(b, start + 1, e - 1),
        level(b, start + 1, e - 1) == 0,
        forall|j: int| start < j < e ==> #[trigger] level(b, start + 1, j) >= 0,
        forall|j: int|
            start < j < e - 1 && #[trigger] b[j] == 0x5d ==> scan::escaped(b, start + 1, j)
                || level(b, start + 1, j) > 0,
    ensures
        scan::group_close(b, start) == Some(e),
{
    lemma_option(b, start, start + 1, 0, e);
}

/// A group in brackets ends with a closing bracket that is not escaped.
pub proof fn options_end_with_a_bracket(b: Seq<u8>, start: int)
    requires
        0 <= start < b.len(),
        b[start] == 0x5b,
    ensures
        scan::group_close(b, start) matches Some(e) ==> start + 1 < e <= b.len() && b[e - 1] == 0x5d
            && !scan::escaped(b, start + 1, e - 1),
{
    scan::lemma_close_from(b, start, start + 1, 0);
    lemma_option_closer(b, start, start + 1, 0);
}

/// There is nothing but spaces, tabs and line ends between `i` and `j`.
pub open spec fn spaces(b: Seq<u8>, i: int, j: int) -> bool {
    &&& 0 <= i <= j <= b.len()
    &&& forall|k: int|
        i <= k < j ==> #[trigger] b[k] == 0x20 || b[k] == 0x09 || b[k] == 0x0a || b[k] == 0x0c
            || b[k] == 0x0d
}

/// An option in brackets stands at `o` and ends at `m`.
pub open spec fn option_at(b: Seq<u8>, o: int, m: int) -> bool {
    0 <= o < b.len() && b[o] == 0x5b && scan::group_close(b, o) == Some(m)
}

/// There is nothing but spaces, or one option in brackets among spaces, between
/// `i` and `q`.
pub open spec fn leads_to(b: Seq<u8>, i: int, q: int) -> bool {
    ||| spaces(b, i, q)
    ||| exists|o: int, m: int| #[trigger]
        option_at(b, o, m) && spaces(b, i, o) && spaces(b, m, q)
}

proof fn lemma_skipped(b: Seq<u8>, i: int)
    requires
        0 <= i <= b.len(),
    ensures
        spaces(b, i, scan::skip_space(b, i)),
    decreases b.len() - i,
{
    if i < b.len() && scan::ascii_space(b[i]) {
        lemma_skipped(b, i + 1);
    }
}

proof fn lemma_skips(b: Seq<u8>, i: int, q: int)
    requires
        spaces(b, i, q),
        q < b.len(),
        !spaces(b, q, q + 1),
    ensures
        scan::skip_space(b, i) == q,
    decreases q - i,
{
    if i < q {
        lemma_skips(b, i + 1, q);
    } else {
        if scan::ascii_space(b[q]) {
            assert(spaces(b, q, q + 1));
        }
    }
}

proof fn lemma_call(b: Seq<u8>, command: Seq<u8>, i: int, k: int)
    requires
        0 <= i,
        0 <= k < scan::calls_from(b, command, i).len(),
    ensures
        ({
            let c = scan::calls_from(b, command, i)[k];
            scan::call_at(b, command.len(), c.start) == Some(c) && text::occurs_at(
                b,
                command,
                c.start,
            )
        }),
    decreases b.len() - i,
{
    if text::occurs_at(b, command, i) {
        let rest = scan::calls_from(b, command, i + command.len());
        match scan::call_at(b, command.len(), i) {
            Some(c) => {
                assert(scan::calls_from(b, command, i) == seq![c] + rest);
                if k > 0 {
                    lemma_call(b, command, i + command.len(), k - 1);
                }
            },
            None => {
                lemma_call(b, command, i + command.len(), k);
            },
        }
    } else {
        lemma_call(b, command, i + 1, k);
    }
}

/// A call is a command that is not escaped, with an argument in braces that is
/// closed. Between the two there are spaces, and at most one option in brackets.
pub proof fn calls_have_complete_arguments(b: Seq<u8>, command: Seq<u8>, k: int)
    requires
        0 <= k < scan::calls(b, command).len(),
    ensures
        ({
            let c = scan::calls(b, command)[k];
            &&& text::occurs_at(b, command, c.start)
            &&& !scan::escaped(b, 0, c.start)
            &&& leads_to(b, c.start + command.len(), c.arg_start - 1)
            &&& b[c.arg_start - 1] == 0x7b
            &&& scan::group_close(b, c.arg_start - 1) == Some(c.end)
            &&& c.arg_end == c.end - 1
        }),
{
    lemma_call(b, command, 0, k);
    let c = scan::calls(b, command)[k];
    let i = c.start + command.len();
    lemma_skipped(b, i);
    let o = scan::skip_space(b, i);
    if o < b.len() && b[o] == scan::OPEN_BRACKET {
        let m = scan::group_close(b, o)->0;
        scan::lemma_close_from(b, o, o + 1, 0);
        lemma_skipped(b, m);
        assert(option_at(b, o, m));
    }
}

/// The calls stand in the order of the text, and none overlaps the command of
/// another.
pub proof fn calls_stand_in_order(b: Seq<u8>, command: Seq<u8>, k: int, l: int)
    requires
        0 <= k < l < scan::calls(b, command).len(),
    ensures
        scan::calls(b, command)[k].start + command.len() <= scan::calls(b, command)[l].start,
{
    scan::lemma_calls_from(b, command, 0);
}

proof fn lemma_found(b: Seq<u8>, command: Seq<u8>, i: int, p: int)
    requires
        0 <= i <= p,
        command.len() > 0,
        command[0] == 0x5c,
        forall|k: int| 0 < k < command.len() ==> #[trigger] command[k] != 0x5c,
        text::occurs_at(b, command, p),
        scan::call_at(b, command.len(), p) is Some,
    ensures
        scan::calls_from(b, command, i).contains(scan::call_at(b, command.len(), p)->0),
    decreases b.len() - i,
{
    let wanted = scan::call_at(b, command.len(), p)->0;
    if text::occurs_at(b, command, i) {
        let rest = scan::calls_from(b, command, i + command.len());
        let all = scan::calls_from(b, command, i);
        if i == p {
            assert(all == seq![wanted] + rest);
            assert(all[0] == wanted);
        } else {
            if p < i + command.len() {
                assert(b.subrange(i, i + command.len())[p - i] == b[p]);
                assert(b.subrange(p, p + command.len())[0] == b[p]);
            }
            lemma_found(b, command, i + command.len(), p);
            let k = choose|k: int| 0 <= k < rest.len() && rest[k] == wanted;
            match scan::call_at(b, command.len(), i) {
                Some(c) => {
                    assert(all == seq![c] + rest);
                    assert(all[k + 1] == wanted);
                },
                None => {
                    assert(all[k] == wanted);
                },
            }
        }
    } else {
        lemma_found(b, command, i + 1, p);
    }
}

/// Every command that is not escaped, and has an argument in braces that is closed
/// behind it, is found.
pub proof fn complete_commands_are_found(b: Seq<u8>, command: Seq<u8>, p: int, q: int, e: int)
    requires
        command.len() > 0,
        command[0] == 0x5c,
        forall|k: int| 0 < k < command.len() ==> #[trigger] command[k] != 0x5c,
        text::occurs_at(b, command, p),
        !scan::escaped(b, 0, p),
        leads_to(b, p + command.len(), q),
        q < b.len(),
        b[q] == 0x7b,
        scan::group_close(b, q) == Some(e),
    ensures
        scan::calls(b, command).contains(
            CallAt { start: p, end: e, arg_start: q + 1, arg_end: e - 1 },
        ),
{
    let i = p + command.len();
    assert(!spaces(b, q, q + 1)) by {
        assert(b[q] == 0x7b);
    }
    if spaces(b, i, q) {
        lemma_skips(b, i, q);
    } else {
        let (o, m) = choose|o: int, m: int| #[trigger]
            option_at(b, o, m) && spaces(b, i, o) && spaces(b, m, q);
        assert(!spaces(b, o, o + 1)) by {
            assert(b[o] == 0x5b);
        }
        lemma_skips(b, i, o);
        lemma_skips(b, m, q);
    }
    lemma_found(b, command, 0, p);
}

proof fn lemma_plain_option(b: Seq<u8>, start: int, i: int, e: int)
    requires
        0 <= start < i < e <= b.len(),
        b[start] == 0x5b,
        b[e - 1] == 0x5d,
        !scan::escaped(b, start + 1, e - 1),
        forall|j: int|
            start < j < e - 1 && (#[trigger] b[j] == 0x5d || b[j] == 0x7b) ==> scan::escaped(
                b,
                start + 1,
                j,
            ),
    ensures
        scan::close_from(b, start, i, 0) == Some(e),
    decreases e - i,
{
    if i < e - 1 {
        lemma_plain_option(b, start, i + 1, e);
    }
}

/// An option in which no brace is opened ends with its first closing bracket that is
/// not escaped; a brace that closes nothing does not matter.
pub proof fn plain_options_end_with_the_first_bracket(b: Seq<u8>, start: int, e: int)
    requires
        0 <= start,
        start + 1 < e <= b.len(),
        b[start] == 0x5b,
        b[e - 1] == 0x5d,
        !scan::escaped(b, start + 1, e - 1),
        forall|j: int|
            start < j < e - 1 && (#[trigger] b[j] == 0x5d || b[j] == 0x7b) ==> scan::escaped(
                b,
                start + 1,
                j,
            ),
    ensures
        scan::group_close(b, start) == Some(e),
{
    lemma_plain_option(b, start, start + 1, e);
}

} // verus!
