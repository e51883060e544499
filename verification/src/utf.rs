//! UTF-8 facts: where a text may be cut, and what its pieces decode to.

use vstd::prelude::*;
use vstd::utf8::*;

verus! {

/// The bytes that hold a text.
pub open spec fn bytes_of(s: Seq<char>) -> Seq<u8> {
    encode_utf8(s)
}

/// A single scalar is valid UTF-8 on its own.
proof fn lemma_first_scalar_valid(b: Seq<u8>)
    requires
        valid_utf8(b),
        b.len() > 0,
    ensures
        valid_utf8(take_first_scalar(b)),
        length_of_first_scalar(b) <= b.len(),
{
    reveal_with_fuel(valid_utf8, 2);
}

/// A boundary past the start lies behind the first scalar.
proof fn lemma_boundary_past_first(b: Seq<u8>, i: int)
    requires
        valid_utf8(b),
        is_char_boundary(b, i),
        i != 0,
    ensures
        b.len() > 0,
        length_of_first_scalar(b) <= i <= b.len(),
        is_char_boundary(pop_first_scalar(b), i - length_of_first_scalar(b)),
{
    if b.len() == 0 {
        assert(false);
    }
    let k = length_of_first_scalar(b);
    assert(is_char_boundary(pop_first_scalar(b), i - k));
    if i < k {
        assert(i - k < 0);
    }
}

/// The position behind an ASCII byte, and that byte's own position, are boundaries.
pub proof fn lemma_ascii_boundary(b: Seq<u8>, i: int)
    requires
        valid_utf8(b),
        0 <= i < b.len(),
        b[i] <= 0x7f,
    ensures
        is_char_boundary(b, i),
        is_char_boundary(b, i + 1),
    decreases b.len(),
{
    lemma_first_scalar_valid(b);
    let k = length_of_first_scalar(b);
    let rest = pop_first_scalar(b);
    if i == 0 {
        assert(is_char_boundary(rest, 0));
    } else {
        if i < k {
            assert(is_continuation_byte(b[i]));
            assert(false);
        }
        assert(rest[i - k] == b[i]);
        lemma_ascii_boundary(rest, i - k);
    }
}

/// A boundary at or behind another one is a boundary of what follows that one.
pub proof fn lemma_boundary_of_tail(b: Seq<u8>, i: int, j: int)
    requires
        valid_utf8(b),
        is_char_boundary(b, i),
        is_char_boundary(b, j),
        i <= j,
    ensures
        0 <= i <= j <= b.len(),
        valid_utf8(b.subrange(i, b.len() as int)),
        is_char_boundary(b.subrange(i, b.len() as int), j - i),
    decreases b.len(),
{
    if i == 0 {
        assert(b.subrange(0, b.len() as int) =~= b);
        if j != 0 {
            lemma_boundary_past_first(b, j);
        }
    } else {
        lemma_boundary_past_first(b, i);
        lemma_boundary_past_first(b, j);
        let k = length_of_first_scalar(b);
        let rest = pop_first_scalar(b);
        lemma_boundary_of_tail(rest, i - k, j - k);
        assert(rest.subrange(i - k, rest.len() as int) =~= b.subrange(i, b.len() as int));
    }
}

/// A boundary of what follows a boundary is a boundary of the whole.
pub proof fn lemma_boundary_from_tail(b: Seq<u8>, i: int, j: int)
    requires
        valid_utf8(b),
        is_char_boundary(b, i),
        is_char_boundary(b.subrange(i, b.len() as int), j - i),
        i <= j,
    ensures
        is_char_boundary(b, j),
    decreases b.len(),
{
    if i == 0 {
        assert(b.subrange(0, b.len() as int) =~= b);
    } else {
        lemma_boundary_past_first(b, i);
        let k = length_of_first_scalar(b);
        let rest = pop_first_scalar(b);
        assert(rest.subrange(i - k, rest.len() as int) =~= b.subrange(i, b.len() as int));
        lemma_boundary_from_tail(rest, i - k, j - k);
        lemma_boundary_of_tail(b, i, i);
        if j > i {
            lemma_boundary_past_first(b.subrange(i, b.len() as int), j - i);
        }
    }
}

/// What lies between two boundaries is valid UTF-8.
pub proof fn lemma_piece_valid(b: Seq<u8>, i: int, j: int)
    requires
        valid_utf8(b),
        is_char_boundary(b, i),
        is_char_boundary(b, j),
        i <= j,
    ensures
        0 <= i <= j <= b.len(),
        valid_utf8(b.subrange(i, j)),
{
    lemma_boundary_of_tail(b, i, j);
    let tail = b.subrange(i, b.len() as int);
    valid_utf8_split(tail, j - i);
    assert(tail.subrange(0, j - i) =~= b.subrange(i, j));
}

/// Both ends of a text are boundaries.
pub proof fn lemma_ends_are_boundaries(b: Seq<u8>)
    requires
        valid_utf8(b),
    ensures
        is_char_boundary(b, 0),
        is_char_boundary(b, b.len() as int),
{
    is_char_boundary_start_end_of_seq(b);
}

/// Encoding distributes over concatenation.
pub proof fn lemma_encode_concat(s: Seq<char>, t: Seq<char>)
    ensures
        encode_utf8(s + t) == encode_utf8(s) + encode_utf8(t),
    decreases s.len(),
{
    if s.len() == 0 {
        assert(s + t =~= t);
        assert(encode_utf8(s) + encode_utf8(t) =~= encode_utf8(t));
    } else {
        lemma_encode_concat(s.drop_first(), t);
        assert((s + t).drop_first() =~= s.drop_first() + t);
        assert((s + t)[0] == s[0]);
        assert(encode_utf8(s + t) =~= encode_utf8(s) + encode_utf8(t));
    }
}

/// A text of at least one character has at least one byte.
pub proof fn lemma_nonempty(s: Seq<char>)
    requires
        s.len() > 0,
    ensures
        encode_utf8(s).len() > 0,
{
    encode_utf8_decode_utf8(s);
    if encode_utf8(s).len() == 0 {
        assert(decode_utf8(encode_utf8(s)).len() == 0);
    }
}

/// The text that valid bytes hold.
pub open spec fn text_of(b: Seq<u8>) -> Seq<char> {
    decode_utf8(b)
}

/// The byte offset of the character at `i`.
pub open spec fn offset_of(s: Seq<char>, i: int) -> int {
    bytes_of(s.take(i)).len() as int
}

/// Characters start at boundaries, one behind the other, and a piece of a text has
/// the bytes between the offsets of its ends.
pub proof fn lemma_offsets(s: Seq<char>, i: int, j: int)
    requires
        0 <= i <= j <= s.len(),
    ensures
        0 <= offset_of(s, i) <= offset_of(s, j) <= bytes_of(s).len(),
        i < j ==> offset_of(s, i) < offset_of(s, j),
        offset_of(s, 0) == 0,
        offset_of(s, s.len() as int) == bytes_of(s).len(),
        valid_utf8(bytes_of(s)),
        is_char_boundary(bytes_of(s), offset_of(s, i)),
        is_char_boundary(bytes_of(s), offset_of(s, j)),
        bytes_of(s).subrange(offset_of(s, i), offset_of(s, j)) == bytes_of(s.subrange(i, j)),
{
    encode_utf8_valid_utf8(s);
    assert(s.take(0) =~= Seq::<char>::empty());
    assert(s.take(s.len() as int) =~= s);
    lemma_cut_is_boundary(s, i);
    lemma_cut_is_boundary(s, j);
    let mid = s.subrange(i, j);
    assert(s.take(j) =~= s.take(i) + mid);
    lemma_encode_concat(s.take(i), mid);
    lemma_encode_concat(s.take(j), s.skip(j));
    assert(s.take(j) + s.skip(j) =~= s);
    if i < j {
        lemma_nonempty(mid);
    }
    assert(bytes_of(s).subrange(offset_of(s, i), offset_of(s, j)) =~= bytes_of(mid));
}

/// The place behind some of the characters is a boundary.
proof fn lemma_cut_is_boundary(s: Seq<char>, i: int)
    requires
        0 <= i <= s.len(),
    ensures
        is_char_boundary(bytes_of(s), offset_of(s, i)),
    decreases i,
{
    encode_utf8_valid_utf8(s);
    if i == 0 {
        assert(s.take(0) =~= Seq::<char>::empty());
    } else {
        let t = s.drop_first();
        encode_utf8_first_scalar(s);
        lemma_cut_is_boundary(t, i - 1);
        assert(s.take(i).drop_first() =~= t.take(i - 1));
        assert(s.take(i)[0] == s[0]);
        encode_utf8_first_scalar(s.take(i));
        let b = bytes_of(s);
        let k = length_of_first_scalar(b);
        assert(s =~= seq![s[0]] + t);
        assert(s.take(i) =~= seq![s[0]] + t.take(i - 1));
        lemma_encode_concat(seq![s[0]], t);
        lemma_encode_concat(seq![s[0]], t.take(i - 1));
        assert(bytes_of(s).len() >= offset_of(s, i)) by {
            lemma_encode_concat(s.take(i), s.skip(i));
            assert(s.take(i) + s.skip(i) =~= s);
        }
        assert(offset_of(s, i) == offset_of(t, i - 1) + bytes_of(seq![s[0]]).len());
        lemma_nonempty(seq![s[0]]);
        assert(pop_first_scalar(b) =~= bytes_of(t));
        assert(k == bytes_of(seq![s[0]]).len());
    }
}

/// A boundary is the place of a character, or the end.
pub proof fn lemma_boundary_index(s: Seq<char>, i: int) -> (k: int)
    requires
        is_char_boundary(bytes_of(s), i),
    ensures
        0 <= k <= s.len(),
        offset_of(s, k) == i,
    decreases s.len(),
{
    encode_utf8_valid_utf8(s);
    if i == 0 {
        assert(s.take(0) =~= Seq::<char>::empty());
        0
    } else {
        let b = bytes_of(s);
        lemma_boundary_past_first(b, i);
        if s.len() == 0 {
            assert(b.len() == 0);
        }
        let t = s.drop_first();
        encode_utf8_first_scalar(s);
        assert(s =~= seq![s[0]] + t);
        lemma_encode_concat(seq![s[0]], t);
        let n = length_of_first_scalar(b);
        assert(pop_first_scalar(b) =~= bytes_of(t));
        let k = lemma_boundary_index(t, i - n);
        assert(s.take(k + 1) =~= seq![s[0]] + t.take(k));
        lemma_encode_concat(seq![s[0]], t.take(k));
        k + 1
    }
}

/// Where the bytes of a text stand between two boundaries, the text itself stands.
pub proof fn lemma_text_at(s: Seq<char>, p: Seq<char>, i: int)
    requires
        0 <= i,
        i + bytes_of(p).len() <= bytes_of(s).len(),
        bytes_of(s).subrange(i, i + bytes_of(p).len()) == bytes_of(p),
        is_char_boundary(bytes_of(s), i),
        is_char_boundary(bytes_of(s), i + bytes_of(p).len()),
    ensures
        exists|k: int| 0 <= k && k + p.len() <= s.len() && #[trigger] s.subrange(k, k + p.len()) == p,
{
    let k = lemma_boundary_index(s, i);
    let l = lemma_boundary_index(s, i + bytes_of(p).len() as int);
    if l < k {
        lemma_offsets(s, l, k);
    }
    lemma_offsets(s, k, l);
    let piece = s.subrange(k, l);
    encode_utf8_decode_utf8(piece);
    encode_utf8_decode_utf8(p);
    assert(piece == p);
    assert(s.subrange(k, k + p.len()) == p);
}

/// The place between two texts is a boundary of both together.
pub proof fn lemma_join_boundary(a: Seq<u8>, b: Seq<u8>)
    requires
        valid_utf8(a),
        valid_utf8(b),
    ensures
        valid_utf8(a + b),
        is_char_boundary(a + b, a.len() as int),
{
    let s = decode_utf8(a);
    let t = decode_utf8(b);
    decode_utf8_encode_utf8(a);
    decode_utf8_encode_utf8(b);
    lemma_encode_concat(s, t);
    encode_utf8_valid_utf8(s + t);
    lemma_cut_is_boundary(s + t, s.len() as int);
    assert((s + t).take(s.len() as int) =~= s);
}

/// An ASCII character takes one byte, its code.
pub proof fn lemma_ascii_char(s: Seq<char>, i: int)
    requires
        0 <= i < s.len(),
        '\0' <= s[i] <= '\u{7f}',
    ensures
        offset_of(s, i + 1) == offset_of(s, i) + 1,
        0 <= offset_of(s, i) < bytes_of(s).len(),
        bytes_of(s)[offset_of(s, i)] == s[i] as u8,
{
    lemma_offsets(s, i, i + 1);
    lemma_offsets(s, i + 1, s.len() as int);
    let one = s.subrange(i, i + 1);
    assert(one =~= seq![s[i]]);
    is_ascii_chars_encode_utf8(one);
    let piece = bytes_of(s).subrange(offset_of(s, i), offset_of(s, i + 1));
    assert(piece[0] == one[0] as u8);
}

} // verus!
