//! Reading LaTeX: comments, groups and commands with their arguments.
//!
//! Positions are byte offsets.

use crate::{outside, text, utf};
use vstd::prelude::*;
use vstd::utf8::*;

verus! {

pub const NEWLINE: u8 = 0x0a;

pub const SPACE: u8 = 0x20;

pub const PERCENT: u8 = 0x25;

pub const OPEN_BRACKET: u8 = 0x5b;

pub const BACKSLASH: u8 = 0x5c;

pub const CLOSE_BRACKET: u8 = 0x5d;

pub const OPEN_BRACE: u8 = 0x7b;

pub const CLOSE_BRACE: u8 = 0x7d;

/// How many backslashes stand directly before `i`, counted down to `lo`.
pub open spec fn backslashes(b: Seq<u8>, lo: int, i: int) -> nat
    decreases i - lo,
{
    if lo < i && b[i - 1] == BACKSLASH {
        1 + backslashes(b, lo, i - 1)
    } else {
        0
    }
}

/// The byte at `i` is escaped: an odd number of backslashes stands before it.
pub open spec fn escaped(b: Seq<u8>, lo: int, i: int) -> bool {
    backslashes(b, lo, i) % 2 == 1
}

/// An unescaped percent sign.
pub open spec fn comment_sign(b: Seq<u8>, i: int) -> bool {
    b[i] == PERCENT && !escaped(b, 0, i)
}

/// A comment sign stands at or before `i` on the same line.
pub open spec fn in_comment(b: Seq<u8>, i: int) -> bool {
    exists|j: int|
        0 <= j <= i && #[trigger] comment_sign(b, j) && (forall|k: int|
            j <= k <= i ==> b[k] != NEWLINE)
}

/// The bytes with a space in place of every byte of a comment.
pub open spec fn masked(b: Seq<u8>) -> Seq<u8> {
    Seq::new(
        b.len(),
        |i: int|
            if in_comment(b, i) {
                SPACE
            } else {
                b[i]
            },
    )
}

/// A comment goes on to the end of its line.
proof fn lemma_in_comment_step(b: Seq<u8>, i: int)
    requires
        0 <= i < b.len(),
    ensures
        in_comment(b, i) <==> b[i] != NEWLINE && (comment_sign(b, i) || (i > 0 && in_comment(
            b,
            i - 1,
        ))),
{
    if in_comment(b, i) {
        let j = choose|j: int|
            0 <= j <= i && #[trigger] comment_sign(b, j) && (forall|k: int|
                j <= k <= i ==> b[k] != NEWLINE);
        if j < i {
            assert(in_comment(b, i - 1));
        }
    }
    if b[i] != NEWLINE && comment_sign(b, i) {
        assert(in_comment(b, i));
    }
    if b[i] != NEWLINE && i > 0 && in_comment(b, i - 1) {
        let j = choose|j: int|
            0 <= j <= i - 1 && #[trigger] comment_sign(b, j) && (forall|k: int|
                j <= k <= i - 1 ==> b[k] != NEWLINE);
        assert forall|k: int| j <= k <= i implies b[k] != NEWLINE by {
            if k == i {
            } else {
                assert(j <= k <= i - 1);
            }
        }
        assert(in_comment(b, i));
    }
}

/// A row of spaces is valid UTF-8.
proof fn lemma_spaces_valid(s: Seq<u8>)
    requires
        forall|i: int| 0 <= i < s.len() ==> s[i] == SPACE,
    ensures
        valid_utf8(s),
{
    let spaces = Seq::new(s.len(), |i: int| ' ');
    is_ascii_chars_encode_utf8(spaces);
    encode_utf8_valid_utf8(spaces);
    assert(encode_utf8(spaces) =~= s);
}

/// Masking the rest of a text, from a place between two characters, leaves it valid.
proof fn lemma_masked_tail_valid(b: Seq<u8>, i: int)
    requires
        valid_utf8(b),
        is_char_boundary(b, i),
        0 <= i <= b.len(),
    ensures
        valid_utf8(masked(b).subrange(i, b.len() as int)),
    decreases b.len() - i,
{
    let n = b.len() as int;
    if i < n {
        utf::lemma_ends_are_boundaries(b);
        utf::lemma_piece_valid(b, i, n);
        let tail = b.subrange(i, n);
        let k = length_of_first_scalar(tail);
        assert(valid_first_scalar(tail));
        assert(1 <= k <= tail.len());
        assert(is_char_boundary(pop_first_scalar(tail), 0));
        assert(is_char_boundary(tail, k));
        utf::lemma_boundary_from_tail(b, i, i + k);
        lemma_masked_tail_valid(b, i + k);
        let piece = masked(b).subrange(i, i + k);
        // The bytes behind the first one neither start nor end a comment.
        assert forall|m: int| 0 < m < k implies in_comment(b, #[trigger] (i + m)) == in_comment(
            b,
            i,
        ) by {
            lemma_within_scalar(b, i, k, m);
        }
        if in_comment(b, i) {
            assert forall|m: int| 0 <= m < piece.len() implies piece[m] == SPACE by {
                assert(in_comment(b, i + m));
            }
            lemma_spaces_valid(piece);
        } else {
            assert forall|m: int| 0 <= m < k implies piece[m] == tail[m] by {
                assert(!in_comment(b, i + m));
            }
            assert(piece =~= take_first_scalar(tail));
            utf::lemma_piece_valid(tail, 0, k);
        }
        let rest = masked(b).subrange(i + k, n);
        valid_utf8_concat(piece, rest);
        assert(masked(b).subrange(i, n) =~= piece + rest);
    } else {
        assert(masked(b).subrange(i, n) =~= Seq::<u8>::empty());
    }
}

/// All bytes of one character are in a comment, or none is.
proof fn lemma_within_scalar(b: Seq<u8>, i: int, k: int, m: int)
    requires
        0 <= i,
        0 < m < k,
        i + k <= b.len(),
        valid_first_scalar(b.subrange(i, b.len() as int)),
        k == length_of_first_scalar(b.subrange(i, b.len() as int)),
    ensures
        in_comment(b, i + m) == in_comment(b, i),
    decreases m,
{
    let tail = b.subrange(i, b.len() as int);
    assert(is_continuation_byte(tail[m]));
    assert(b[i + m] == tail[m]);
    lemma_in_comment_step(b, i + m);
    if m > 1 {
        lemma_within_scalar(b, i, k, m - 1);
    }
}

/// Masking comments leaves valid UTF-8.
pub proof fn lemma_masked_valid(b: Seq<u8>)
    requires
        valid_utf8(b),
    ensures
        valid_utf8(masked(b)),
{
    utf::lemma_ends_are_boundaries(b);
    lemma_masked_tail_valid(b, 0);
    assert(masked(b).subrange(0, b.len() as int) =~= masked(b));
}

/// Hides comments: a space stands in place of each of their bytes, so that
/// offsets into the result are offsets into the text.
pub fn uncommented(content: &str) -> (r: String)
    ensures
        utf::bytes_of(r@) == masked(utf::bytes_of(content@)),
{
    let source = content.as_bytes();
    let ghost b = source@;
    let mut bytes: Vec<u8> = Vec::new();
    let mut comment = false;
    let mut odd = false;
    let mut i: usize = 0;
    while i < source.len()
        invariant
            b == source@,
            i <= source.len(),
            bytes@ == masked(b).take(i as int),
            comment == (i > 0 && in_comment(b, i - 1)),
            !comment ==> odd == escaped(b, 0, i as int),
        decreases source.len() - i,
    {
        proof {
            lemma_in_comment_step(b, i as int);
        }
        let mut byte: u8 = source[i];
        if byte == NEWLINE {
            comment = false;
        } else if comment || (byte == PERCENT && !odd) {
            comment = true;
            byte = SPACE;
        }
        odd = byte == BACKSLASH && !odd;
        bytes.push(byte);
        assert(masked(b).take(i + 1) =~= masked(b).take(i as int).push(masked(b)[i as int]));
        i += 1;
    }
    proof {
        encode_utf8_valid_utf8(content@);
        lemma_masked_valid(b);
        assert(masked(b).take(i as int) =~= masked(b));
    }
    outside::string_from_utf8(bytes).unwrap()
}

/// Masking changes no offset: the length stays, every byte outside of comments
/// stays, and the line ends stay.
pub proof fn masking_keeps_offsets(b: Seq<u8>)
    ensures
        masked(b).len() == b.len(),
        forall|i: int| 0 <= i < b.len() && !in_comment(b, i) ==> masked(b)[i] == b[i],
        forall|i: int| 0 <= i < b.len() && in_comment(b, i) ==> masked(b)[i] == SPACE,
        forall|i: int| 0 <= i < b.len() ==> (masked(b)[i] == NEWLINE <==> b[i] == NEWLINE),
{
    assert forall|i: int| 0 <= i < b.len() implies (masked(b)[i] == NEWLINE <==> b[i]
        == NEWLINE) by {
        lemma_in_comment_step(b, i);
    }
}

/// The byte that closes the group opened at `start`.
pub open spec fn closer(b: Seq<u8>, start: int) -> u8 {
    if b[start] == OPEN_BRACKET {
        CLOSE_BRACKET
    } else {
        CLOSE_BRACE
    }
}

/// The end of the group opened at `start`, looked for from `i` on, where
/// `depth` braces opened inside the group are still open.
pub open spec fn close_from(b: Seq<u8>, start: int, i: int, depth: nat) -> Option<int>
    decreases b.len() - i,
{
    if i >= b.len() {
        None
    } else if escaped(b, start + 1, i) {
        close_from(b, start, i + 1, depth)
    } else if b[i] == OPEN_BRACE {
        close_from(b, start, i + 1, depth + 1)
    } else if depth > 0 && b[i] == CLOSE_BRACE {
        close_from(b, start, i + 1, (depth - 1) as nat)
    } else if depth == 0 && b[i] == closer(b, start) {
        Some(i + 1)
    } else {
        close_from(b, start, i + 1, depth)
    }
}

/// The end of the group opened at `start`: behind the first unescaped closer
/// at which all braces opened since are closed.
pub open spec fn group_close(b: Seq<u8>, start: int) -> Option<int> {
    close_from(b, start, start + 1, 0)
}

/// A group ends behind its closer.
pub proof fn lemma_close_from(b: Seq<u8>, start: int, i: int, depth: nat)
    requires
        0 <= i,
    ensures
        close_from(b, start, i, depth) matches Some(e) ==> i < e <= b.len() && b[e - 1] == closer(
            b,
            start,
        ),
    decreases b.len() - i,
{
    if i < b.len() {
        lemma_close_from(b, start, i + 1, depth);
        lemma_close_from(b, start, i + 1, depth + 1);
        if depth > 0 {
            lemma_close_from(b, start, i + 1, (depth - 1) as nat);
        }
    }
}

/// The offset behind the group opened at `start`, if it is closed.
pub fn group_end(bytes: &[u8], start: usize) -> (r: Option<usize>)
    requires
        start < bytes.len(),
    ensures
        r is Some <==> group_close(bytes@, start as int) is Some,
        r matches Some(e) ==> group_close(bytes@, start as int) == Some(e as int),
{
    let ghost b = bytes@;
    let close: u8 = if bytes[start] == OPEN_BRACKET {
        CLOSE_BRACKET
    } else {
        CLOSE_BRACE
    };
    let mut depth: usize = 0;
    let mut odd = false;
    let mut i: usize = start + 1;
    while i < bytes.len()
        invariant
            b == bytes@,
            start < i <= bytes.len(),
            depth < i,
            close == closer(b, start as int),
            odd == escaped(b, start + 1, i as int),
            group_close(b, start as int) == close_from(b, start as int, i as int, depth as nat),
        decreases bytes.len() - i,
    {
        let byte: u8 = bytes[i];
        if !odd {
            if byte == OPEN_BRACE {
                depth += 1;
            } else if depth > 0 {
                if byte == CLOSE_BRACE {
                    depth -= 1;
                }
            } else if byte == close {
                return Some(i + 1);
            }
        }
        odd = byte == BACKSLASH && !odd;
        i += 1;
    }
    None
}

/// White space as ASCII has it.
pub open spec fn ascii_space(c: u8) -> bool {
    c == SPACE || c == 0x09 || c == NEWLINE || c == 0x0c || c == 0x0d
}

/// The first offset at or behind `i` that holds no ASCII white space.
pub open spec fn skip_space(b: Seq<u8>, i: int) -> int
    decreases b.len() - i,
{
    if i < b.len() && ascii_space(b[i]) {
        skip_space(b, i + 1)
    } else {
        i
    }
}

/// A command with its arguments: where it starts and ends, and where what
/// stands between the braces starts and ends.
pub struct CallAt {
    pub start: int,
    pub end: int,
    pub arg_start: int,
    pub arg_end: int,
}

/// The command of `n` bytes at `p` with its arguments: an optional `[..]`, then
/// a `{..}`, white space before either. None where the command is escaped or an
/// argument is missing or not closed.
pub open spec fn call_at(b: Seq<u8>, n: nat, p: int) -> Option<CallAt> {
    let option = skip_space(b, p + n);
    let brace = if option < b.len() && b[option] == OPEN_BRACKET {
        match group_close(b, option) {
            Some(e) => Some(skip_space(b, e)),
            None => None,
        }
    } else {
        Some(option)
    };
    if escaped(b, 0, p) {
        None
    } else {
        match brace {
            Some(q) => if q < b.len() && b[q] == OPEN_BRACE {
                match group_close(b, q) {
                    Some(e) => Some(CallAt { start: p, end: e, arg_start: q + 1, arg_end: e - 1 }),
                    None => None,
                }
            } else {
                None
            },
            None => None,
        }
    }
}

/// The calls of `command` from `i` on, in order: one occurrence after another is
/// looked at, none of which overlaps the one before.
pub open spec fn calls_from(b: Seq<u8>, command: Seq<u8>, i: int) -> Seq<CallAt>
    decreases b.len() - i,
{
    if command.len() == 0 || i + command.len() > b.len() {
        Seq::empty()
    } else if text::occurs_at(b, command, i) {
        let rest = calls_from(b, command, i + command.len());
        match call_at(b, command.len(), i) {
            Some(c) => seq![c] + rest,
            None => rest,
        }
    } else {
        calls_from(b, command, i + 1)
    }
}

/// The calls of `command`.
pub open spec fn calls(b: Seq<u8>, command: Seq<u8>) -> Seq<CallAt> {
    calls_from(b, command, 0)
}

/// A command with its arguments, as [`CallAt`].
#[derive(Clone, Copy, Debug, PartialEq, Eq)]
pub struct Call {
    pub start: usize,
    pub end: usize,
    pub arg_start: usize,
    pub arg_end: usize,
}

impl View for Call {
    type V = CallAt;

    open spec fn view(&self) -> CallAt {
        CallAt {
            start: self.start as int,
            end: self.end as int,
            arg_start: self.arg_start as int,
            arg_end: self.arg_end as int,
        }
    }
}

/// What a list of calls stands for.
pub open spec fn views(v: Seq<Call>) -> Seq<CallAt> {
    v.map_values(|c: Call| c@)
}

/// What holds of every call that is found.
pub open spec fn call_fits(b: Seq<u8>, command: Seq<u8>, c: CallAt) -> bool {
    &&& 0 <= c.start
    &&& c.start + command.len() < c.arg_start
    &&& c.arg_start <= c.arg_end
    &&& c.arg_end + 1 == c.end
    &&& c.end <= b.len()
    &&& text::occurs_at(b, command, c.start)
    &&& b[c.arg_start - 1] == OPEN_BRACE
    &&& b[c.end - 1] == CLOSE_BRACE
}

pub proof fn lemma_skip_space(b: Seq<u8>, i: int)
    requires
        0 <= i <= b.len(),
    ensures
        i <= skip_space(b, i) <= b.len(),
    decreases b.len() - i,
{
    if i < b.len() && ascii_space(b[i]) {
        lemma_skip_space(b, i + 1);
    }
}

proof fn lemma_call_at(b: Seq<u8>, command: Seq<u8>, p: int)
    requires
        text::occurs_at(b, command, p),
    ensures
        call_at(b, command.len(), p) matches Some(c) ==> call_fits(b, command, c) && c.start == p,
{
    let n = command.len();
    let option = skip_space(b, p + n);
    lemma_skip_space(b, p + n);
    if option < b.len() {
        lemma_close_from(b, option, option + 1, 0);
        if let Some(e) = group_close(b, option) {
            lemma_skip_space(b, e);
            lemma_close_from(b, skip_space(b, e), skip_space(b, e) + 1, 0);
        }
    }
}

/// Every call that is found lies in the text and starts with the command; the
/// calls come in the order of their starts.
pub proof fn lemma_calls_from(b: Seq<u8>, command: Seq<u8>, i: int)
    requires
        0 <= i,
    ensures
        forall|k: int|
            0 <= k < calls_from(b, command, i).len() ==> {
                &&& call_fits(b, command, #[trigger] calls_from(b, command, i)[k])
                &&& i <= calls_from(b, command, i)[k].start
            },
        forall|k: int, l: int|
            0 <= k < l < calls_from(b, command, i).len() ==> calls_from(b, command, i)[k].start
                + command.len() <= calls_from(b, command, i)[l].start,
    decreases b.len() - i,
{
    if command.len() == 0 || i + command.len() > b.len() {
        assert(calls_from(b, command, i).len() == 0);
    } else if text::occurs_at(b, command, i) {
        let rest = calls_from(b, command, i + command.len());
        lemma_calls_from(b, command, i + command.len());
        lemma_call_at(b, command, i);
        match call_at(b, command.len(), i) {
            Some(c) => {
                let all = seq![c] + rest;
                assert(calls_from(b, command, i) == all);
                assert forall|k: int| 0 <= k < all.len() implies call_fits(
                    b,
                    command,
                    #[trigger] all[k],
                ) && i <= all[k].start by {
                    if k > 0 {
                        assert(all[k] == rest[k - 1]);
                    }
                }
                assert forall|k: int, l: int| 0 <= k < l < all.len() implies all[k].start
                    + command.len() <= all[l].start by {
                    assert(all[l] == rest[l - 1]);
                    if k > 0 {
                        assert(all[k] == rest[k - 1]);
                    }
                }
            },
            None => {
                assert(calls_from(b, command, i) == rest);
            },
        }
    } else {
        lemma_calls_from(b, command, i + 1);
        assert(calls_from(b, command, i) == calls_from(b, command, i + 1));
    }
}

/// Does `p` stand in `s` at offset `i`?
pub fn bytes_occur_at(s: &[u8], p: &[u8], i: usize) -> (r: bool)
    ensures
        r == text::occurs_at(s@, p@, i as int),
{
    if i > s.len() || p.len() > s.len() - i {
        return false;
    }
    let mut k: usize = 0;
    while k < p.len()
        invariant
            k <= p.len(),
            i + p.len() <= s.len(),
            s@.subrange(i as int, i + k) == p@.take(k as int),
        decreases p.len() - k,
    {
        if s[i + k] != p[k] {
            assert(s@.subrange(i as int, i + p.len())[k as int] != p@[k as int]);
            return false;
        }
        assert(s@.subrange(i as int, i + k + 1) =~= s@.subrange(i as int, i + k).push(s@[i + k]));
        assert(p@.take(k + 1) =~= p@.take(k as int).push(p@[k as int]));
        k += 1;
    }
    assert(p@.take(p@.len() as int) =~= p@);
    true
}

/// The first offset at or behind `i` that holds no ASCII white space.
fn behind_space(bytes: &[u8], i: usize) -> (r: usize)
    requires
        i <= bytes.len(),
    ensures
        r == skip_space(bytes@, i as int),
        i <= r <= bytes.len(),
{
    let mut r: usize = i;
    while r < bytes.len() && (bytes[r] == SPACE || bytes[r] == 0x09 || bytes[r] == NEWLINE
        || bytes[r] == 0x0c || bytes[r] == 0x0d)
        invariant
            i <= r <= bytes.len(),
            skip_space(bytes@, i as int) == skip_space(bytes@, r as int),
        decreases bytes.len() - r,
    {
        r += 1;
    }
    r
}

/// Is the byte at `i` escaped?
fn is_escaped(bytes: &[u8], i: usize) -> (r: bool)
    requires
        i <= bytes.len(),
    ensures
        r == escaped(bytes@, 0, i as int),
{
    let mut odd = false;
    let mut k: usize = 0;
    while k < i
        invariant
            k <= i <= bytes.len(),
            odd == escaped(bytes@, 0, k as int),
        decreases i - k,
    {
        odd = bytes[k] == BACKSLASH && !odd;
        k += 1;
    }
    odd
}

/// The command of `n` bytes at `start` with its arguments.
fn read_call(bytes: &[u8], n: usize, start: usize) -> (r: Option<Call>)
    requires
        start + n <= bytes.len(),
    ensures
        r is Some <==> call_at(bytes@, n as nat, start as int) is Some,
        r matches Some(c) ==> call_at(bytes@, n as nat, start as int) == Some(c@),
{
    if is_escaped(bytes, start) {
        return None;
    }
    let mut pos: usize = behind_space(bytes, start + n);
    if pos < bytes.len() && bytes[pos] == OPEN_BRACKET {
        proof {
            lemma_close_from(bytes@, pos as int, pos + 1, 0);
        }
        match group_end(bytes, pos) {
            Some(end) => {
                pos = behind_space(bytes, end);
            },
            None => {
                return None;
            },
        }
    }
    if pos < bytes.len() && bytes[pos] == OPEN_BRACE {
        proof {
            lemma_close_from(bytes@, pos as int, pos + 1, 0);
        }
        match group_end(bytes, pos) {
            Some(end) => Some(Call { start, end, arg_start: pos + 1, arg_end: end - 1 }),
            None => None,
        }
    } else {
        None
    }
}

/// Finds literal commands with an optional `[..]` and a complete `{..}` argument.
pub fn commands(content: &str, command: &str) -> (r: Vec<Call>)
    requires
        command@.len() > 0,
    ensures
        views(r@) == calls(utf::bytes_of(content@), utf::bytes_of(command@)),
{
    let bytes = content.as_bytes();
    let pattern = command.as_bytes();
    let ghost b = bytes@;
    let ghost p = pattern@;
    let mut found: Vec<Call> = Vec::new();
    let mut i: usize = 0;
    proof {
        utf::lemma_nonempty(command@);
        assert(views(found@) + calls(b, p) =~= calls(b, p));
    }
    while pattern.len() <= bytes.len() - i
        invariant
            b == bytes@,
            p == pattern@,
            p.len() > 0,
            i <= bytes.len(),
            views(found@) + calls_from(b, p, i as int) == calls(b, p),
        decreases bytes.len() - i,
    {
        if bytes_occur_at(bytes, pattern, i) {
            let ghost before = views(found@);
            match read_call(bytes, pattern.len(), i) {
                Some(c) => {
                    found.push(c);
                    let ghost rest = calls_from(b, p, i + p.len());
                    assert(views(found@) =~= before.push(c@));
                    assert(views(found@) + rest =~= before + (seq![c@] + rest));
                },
                None => {},
            }
            i += pattern.len();
        } else {
            i += 1;
        }
    }
    assert(views(found@) + calls_from(b, p, i as int) =~= views(found@));
    found
}

} // verus!
