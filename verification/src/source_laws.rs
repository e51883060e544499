//! How an archive is told from a single file.

use crate::source;
use crate::text;
use vstd::prelude::*;
use vstd::utf8::*;

verus! {

proof fn lemma_sum_concat(a: Seq<u8>, b: Seq<u8>)
    ensures
        source::sum(a + b) == source::sum(a) + source::sum(b),
    decreases b.len(),
{
    if b.len() == 0 {
        assert(a + b =~= a);
    } else {
        lemma_sum_concat(a, b.drop_last());
        assert((a + b).drop_last() =~= a + b.drop_last());
    }
}

proof fn lemma_sum_spaces(n: nat)
    ensures
        source::sum(Seq::new(n, |i: int| 32u8)) == 32 * n,
    decreases n,
{
    let s = Seq::new(n, |i: int| 32u8);
    if n > 0 {
        lemma_sum_spaces((n - 1) as nat);
        assert(s.drop_last() =~= Seq::new((n - 1) as nat, |i: int| 32u8));
    }
}

/// The sum of bytes adds each of them once.
pub proof fn sums_add_all_bytes(a: Seq<u8>, x: u8, b: Seq<u8>)
    ensures
        source::sum(a + seq![x] + b) == source::sum(a) + x + source::sum(b),
        source::sum(Seq::<u8>::empty()) == 0,
{
    lemma_sum_concat(a + seq![x], b);
    lemma_sum_concat(a, seq![x]);
    assert(seq![x].drop_last() =~= Seq::<u8>::empty());
    assert(source::sum(seq![x]) == source::sum(Seq::<u8>::empty()) + x);
}

/// A header is summed over its 512 bytes, with the eight of the checksum field read
/// as spaces.
pub proof fn checksum_field_counts_as_spaces(b: Seq<u8>)
    requires
        b.len() >= 512,
    ensures
        source::header_sum(b) == source::sum(
            b.take(148) + Seq::new(8, |i: int| 32u8) + b.subrange(156, 512),
        ),
{
    lemma_sum_spaces(8);
    lemma_sum_concat(b.take(148), Seq::new(8, |i: int| 32u8));
    lemma_sum_concat(b.take(148) + Seq::new(8, |i: int| 32u8), b.subrange(156, 512));
    assert(b.take(148) =~= b.subrange(0, 148));
}

/// A number in octal digits.
pub open spec fn octal(n: nat) -> Seq<char>
    decreases n,
{
    if n < 8 {
        seq![text::digit(n)]
    } else {
        octal(n / 8).push(text::digit(n % 8))
    }
}

proof fn lemma_octal(n: nat)
    ensures
        source::octal_value(octal(n)) == n,
        source::octal_digits(octal(n)),
    decreases n,
{
    let s = octal(n);
    if n < 8 {
        assert(s.drop_last() =~= Seq::<char>::empty());
        assert(source::octal_value(s.drop_last()) == 0);
        assert('0' <= s[0] <= '7');
    } else {
        lemma_octal(n / 8);
        assert(s.drop_last() =~= octal(n / 8));
        assert forall|i: int| 0 <= i < s.len() implies '0' <= #[trigger] s[i] <= '7' by {
            if i < s.len() - 1 {
                assert(s[i] == octal(n / 8)[i]);
            }
        }
    }
}

/// There is nothing but white space and zeros.
pub open spec fn filler(s: Seq<char>) -> bool {
    forall|i: int| 0 <= i < s.len() ==> text::white_space(#[trigger] s[i]) || s[i] == '\0'
}

proof fn lemma_unpadded_end(m: Seq<char>, c: Seq<char>)
    requires
        filler(c),
        m.len() > 0,
        '0' <= m.last() <= '7',
    ensures
        source::unpadded_end(m + c) == m,
    decreases c.len(),
{
    if c.len() > 0 {
        assert(source::padding(c[c.len() - 1]));
        assert((m + c).drop_last() =~= m + c.drop_last());
        lemma_unpadded_end(m, c.drop_last());
    } else {
        assert(m + c =~= m);
        assert(!source::padding(m.last()));
    }
}

proof fn lemma_unpadded_start(a: Seq<char>, m: Seq<char>)
    requires
        filler(a),
        m.len() > 0,
        '0' <= m[0] <= '7' || m[0] == '+',
    ensures
        source::unpadded_start(a + m) == m,
    decreases a.len(),
{
    if a.len() > 0 {
        assert(source::padding(a[0]));
        assert((a + m).skip(1) =~= a.skip(1) + m);
        assert(filler(a.skip(1)));
        lemma_unpadded_start(a.skip(1), m);
    } else {
        assert(a + m =~= m);
        assert(!source::padding(m[0]));
    }
}

/// A checksum is read from its octal digits, whatever white space or zeros stand
/// around them.
pub proof fn checksums_are_read_in_octal(a: Seq<char>, n: nat, c: Seq<char>)
    requires
        filler(a),
        filler(c),
        n <= u32::MAX,
    ensures
        source::checksum_in(encode_utf8(a + octal(n) + c)) == Some(n),
{
    let d = octal(n);
    let s = a + d + c;
    lemma_octal(n);
    encode_utf8_valid_utf8(s);
    encode_utf8_decode_utf8(s);
    assert('0' <= d[0] <= '7' && '0' <= d[d.len() - 1] <= '7');
    assert(s =~= a + (d + c));
    lemma_unpadded_start(a, d + c);
    lemma_unpadded_end(d, c);
}

/// A field that does not hold octal digits, apart from what stands around them, has
/// no checksum.
pub proof fn other_fields_have_no_checksum(a: Seq<char>, m: Seq<char>, i: int)
    requires
        filler(a),
        0 <= i < m.len(),
        '0' <= m[0] <= '7',
        '0' <= m.last() <= '7',
        !('0' <= m[i] <= '7'),
    ensures
        source::checksum_in(encode_utf8(a + m)) is None,
{
    let s = a + m;
    encode_utf8_valid_utf8(s);
    encode_utf8_decode_utf8(s);
    lemma_unpadded_start(a, m);
    lemma_unpadded_end(m, Seq::empty());
    assert(m + Seq::<char>::empty() =~= m);
}

/// An archive starts with a block of 512 bytes that are all zero, or whose sum is the
/// checksum that it holds; anything else is a single file.
pub proof fn archives_start_with_a_header(b: Seq<u8>)
    ensures
        b.len() < 512 ==> !source::tar_like(b),
        b.len() >= 512 && (forall|i: int| 0 <= i < 512 ==> #[trigger] b[i] == 0)
            ==> source::tar_like(b),
        b.len() >= 512 && source::checksum_in(b.subrange(148, 156)) == Some(
            source::sum(b.take(148) + Seq::new(8, |i: int| 32u8) + b.subrange(156, 512)),
        ) ==> source::tar_like(b),
        source::tar_like(b) && (exists|i: int| 0 <= i < 512 && #[trigger] b[i] != 0)
            ==> source::checksum_in(b.subrange(148, 156)) == Some(
            source::sum(b.take(148) + Seq::new(8, |i: int| 32u8) + b.subrange(156, 512)),
        ),
{
    if b.len() >= 512 {
        checksum_field_counts_as_spaces(b);
    }
}

/// A sign before the digits does not matter.
pub proof fn checksums_may_have_a_sign(a: Seq<char>, n: nat, c: Seq<char>)
    requires
        filler(a),
        filler(c),
        n <= u32::MAX,
    ensures
        source::checksum_in(encode_utf8(a + (seq!['+'] + octal(n)) + c)) == Some(n),
{
    let d = seq!['+'] + octal(n);
    let s = a + d + c;
    lemma_octal(n);
    encode_utf8_valid_utf8(s);
    encode_utf8_decode_utf8(s);
    assert('0' <= octal(n)[octal(n).len() - 1] <= '7');
    assert(d.last() == octal(n)[octal(n).len() - 1]);
    assert(s =~= a + (d + c));
    lemma_unpadded_start(a, d + c);
    lemma_unpadded_end(d, c);
    assert(d.skip(1) =~= octal(n));
}

/// What is no error of the client or the server is taken.
pub proof fn errors_are_refused(status: int)
    ensures
        status < 400 ==> !source::refuses(status),
        status >= 600 ==> !source::refuses(status),
        400 <= status < 600 ==> source::refuses(status),
{
}

} // verus!
