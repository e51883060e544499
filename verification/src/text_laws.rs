//! What trimming, splitting, ordering and writing numbers means.

use crate::text;
use vstd::prelude::*;

verus! {

/// Of the ASCII characters, the space and the controls from tab to carriage return
/// are white space, and no others.
pub proof fn ascii_white_space(c: char)
    requires
        c <= '\u{7f}',
    ensures
        text::white_space(c) <==> c == ' ' || '\u{9}' <= c <= '\u{d}',
{
}

/// Trimming takes white space off both ends, and nothing else.
pub proof fn trimming_takes_white_space_alone(a: Seq<char>, m: Seq<char>, c: Seq<char>)
    requires
        text::blank(a),
        text::blank(c),
        m.len() > 0,
        !text::white_space(m[0]),
        !text::white_space(m.last()),
    ensures
        text::trim(a + m + c) == m,
        text::trim_start(a + m + c) == m + c,
        text::trim_end(a + m + c) == a + m,
    decreases a.len() + c.len(),
{
    let s = a + m + c;
    if a.len() > 0 {
        assert(text::white_space(a[0]));
        assert(s.skip(1) =~= a.skip(1) + m + c);
        assert(text::blank(a.skip(1)));
        trimming_takes_white_space_alone(a.skip(1), m, c);
        lemma_end(a + m, c);
    } else {
        assert(s =~= m + c);
        assert(s[0] == m[0]);
        lemma_end(m, c);
        assert(a + m =~= m);
    }
}

proof fn lemma_end(m: Seq<char>, c: Seq<char>)
    requires
        text::blank(c),
        m.len() > 0,
        !text::white_space(m.last()),
    ensures
        text::trim_end(m + c) == m,
    decreases c.len(),
{
    if c.len() > 0 {
        assert(text::white_space(c[c.len() - 1]));
        assert((m + c).drop_last() =~= m + c.drop_last());
        lemma_end(m, c.drop_last());
    } else {
        assert(m + c =~= m);
    }
}

/// White space alone is trimmed to nothing.
pub proof fn blank_texts_are_trimmed_to_nothing(s: Seq<char>)
    ensures
        text::blank(s) <==> text::trim(s).len() == 0,
{
    text::lemma_trim(s);
}

/// What a text is split into holds no separator, and joins to the text again.
pub proof fn pieces_lie_between_separators(s: Seq<char>, sep: char)
    ensures
        text::join(text::split_on(s, sep), seq![sep]) == s,
        text::split_on(s, sep).len() > 0,
        forall|k: int|
            0 <= k < text::split_on(s, sep).len() ==> !(#[trigger] text::split_on(
                s,
                sep,
            )[k]).contains(sep),
    decreases s.len(),
{
    text::lemma_join_of_split(s, sep);
    text::lemma_split_nonempty(s, sep);
    if s.len() > 0 {
        pieces_lie_between_separators(s.drop_last(), sep);
        let before = text::split_on(s.drop_last(), sep);
        let all = text::split_on(s, sep);
        assert forall|k: int| 0 <= k < all.len() implies !(#[trigger] all[k]).contains(sep) by {
            if s.last() == sep {
                if k < before.len() {
                    assert(all[k] == before[k]);
                }
            } else if k == before.len() - 1 {
                let x = before.last();
                assert(!before[before.len() - 1].contains(sep));
                if all[k].contains(sep) {
                    let i = choose|i: int| 0 <= i < all[k].len() && all[k][i] == sep;
                    assert(x[i] == sep);
                }
            } else {
                assert(all[k] == before[k]);
            }
        }
    }
}

/// Joining puts the separator between two lists of texts, and nowhere else.
pub proof fn joining_puts_separators_between(
    a: Seq<Seq<char>>,
    b: Seq<Seq<char>>,
    sep: Seq<char>,
    s: Seq<char>,
)
    ensures
        text::join(Seq::<Seq<char>>::empty(), sep).len() == 0,
        text::join(seq![s], sep) == s,
        a.len() > 0 && b.len() > 0 ==> text::join(a + b, sep) == text::join(a, sep) + sep
            + text::join(b, sep),
    decreases b.len(),
{
    if a.len() > 0 && b.len() > 0 {
        let all = a + b;
        assert(all.drop_last() =~= a + b.drop_last());
        assert(all.last() == b.last());
        if b.len() == 1 {
            assert(a + b.drop_last() =~= a);
            assert(b[0] == b.last());
        } else {
            joining_puts_separators_between(a, b.drop_last(), sep, s);
            assert(text::join(a, sep) + sep + text::join(b, sep) =~= text::join(a, sep) + sep
                + text::join(b.drop_last(), sep) + sep + b.last());
        }
    }
}

/// The number that decimal digits stand for.
pub open spec fn value(s: Seq<char>) -> nat
    decreases s.len(),
{
    if s.len() == 0 {
        0
    } else {
        (value(s.drop_last()) * 10 + (s.last() as int - '0' as int)) as nat
    }
}

/// A number is written in decimal digits that stand for it, without a zero in front.
pub proof fn numbers_are_written_in_decimal(n: nat)
    ensures
        value(text::decimal(n)) == n,
        text::decimal(n).len() > 0,
        forall|i: int| 0 <= i < text::decimal(n).len() ==> '0' <= #[trigger] text::decimal(n)[i]
            <= '9',
        n > 0 ==> text::decimal(n)[0] != '0',
    decreases n,
{
    let s = text::decimal(n);
    if n < 10 {
        assert(s.drop_last() =~= Seq::<char>::empty());
        assert(value(s.drop_last()) == 0);
    } else {
        numbers_are_written_in_decimal(n / 10);
        assert(s.drop_last() =~= text::decimal(n / 10));
    }
}

/// Texts are in the order of the first characters in which they differ, and a text
/// comes before what it starts.
pub proof fn first_difference_decides(p: Seq<char>, a: Seq<char>, b: Seq<char>)
    ensures
        text::in_order(p, p + a),
        a.len() > 0 ==> !text::in_order(p + a, p),
        a.len() > 0 && b.len() > 0 && a[0] != b[0] ==> (text::in_order(p + a, p + b) <==> a[0]
            < b[0]),
    decreases p.len(),
{
    if p.len() == 0 {
        assert(p + a =~= a);
        assert(p + b =~= b);
    } else {
        first_difference_decides(p.skip(1), a, b);
        assert((p + a).skip(1) =~= p.skip(1) + a);
        assert((p + b).skip(1) =~= p.skip(1) + b);
    }
}

/// ASCII letters become small ones, and nothing else changes.
pub proof fn ascii_letters_become_small(s: Seq<char>, i: int)
    requires
        0 <= i < s.len(),
    ensures
        text::ascii_lowercase(s).len() == s.len(),
        'A' <= s[i] <= 'Z' ==> text::ascii_lowercase(s)[i] as int == s[i] as int + 32,
        !('A' <= s[i] <= 'Z') ==> text::ascii_lowercase(s)[i] == s[i],
{
}

/// The spaces of Chinese and of typesetting are white space too; what comes behind
/// them is not.
pub proof fn wide_spaces_are_white_space(c: char)
    ensures
        c == '\u{3000}' || c == '\u{a0}' || '\u{2000}' <= c <= '\u{200a}' ==> text::white_space(c),
        c > '\u{3000}' ==> !text::white_space(c),
{
}

} // verus!
