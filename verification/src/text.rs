//! Operations on texts: what they mean on sequences of characters, and code
//! that computes them.

use crate::utf;
use vstd::prelude::*;
use vstd::utf8::*;

verus! {

/// The characters with the Unicode property `White_Space`.
pub open spec fn white_space(c: char) -> bool {
    ||| '\u{9}' <= c <= '\u{d}'
    ||| c == ' '
    ||| c == '\u{85}'
    ||| c == '\u{a0}'
    ||| c == '\u{1680}'
    ||| '\u{2000}' <= c <= '\u{200a}'
    ||| c == '\u{2028}'
    ||| c == '\u{2029}'
    ||| c == '\u{202f}'
    ||| c == '\u{205f}'
    ||| c == '\u{3000}'
}

/// Is `c` white space?
pub fn is_white_space(c: char) -> (r: bool)
    ensures
        r == white_space(c),
{
    ('\u{9}' <= c && c <= '\u{d}') || c == ' ' || c == '\u{85}' || c == '\u{a0}' || c == '\u{1680}'
        || ('\u{2000}' <= c && c <= '\u{200a}') || c == '\u{2028}' || c == '\u{2029}'
        || c == '\u{202f}' || c == '\u{205f}' || c == '\u{3000}'
}

/// `s` without its leading white space.
pub open spec fn trim_start(s: Seq<char>) -> Seq<char>
    decreases s.len(),
{
    if s.len() > 0 && white_space(s[0]) {
        trim_start(s.skip(1))
    } else {
        s
    }
}

/// `s` without its trailing white space.
pub open spec fn trim_end(s: Seq<char>) -> Seq<char>
    decreases s.len(),
{
    if s.len() > 0 && white_space(s.last()) {
        trim_end(s.drop_last())
    } else {
        s
    }
}

/// `s` without the white space at either end.
pub open spec fn trim(s: Seq<char>) -> Seq<char> {
    trim_end(trim_start(s))
}

/// Only white space, or nothing at all.
pub open spec fn blank(s: Seq<char>) -> bool {
    forall|i: int| 0 <= i < s.len() ==> white_space(#[trigger] s[i])
}

/// `p` stands in `s` at position `i`.
pub open spec fn occurs_at<A>(s: Seq<A>, p: Seq<A>, i: int) -> bool {
    &&& 0 <= i
    &&& i + p.len() <= s.len()
    &&& s.subrange(i, i + p.len()) == p
}

/// `p` stands somewhere in `s`.
pub open spec fn occurs<A>(s: Seq<A>, p: Seq<A>) -> bool {
    exists|i: int| occurs_at(s, p, i)
}

/// The pieces of `s` between the characters equal to `sep`.
pub open spec fn split_on(s: Seq<char>, sep: char) -> Seq<Seq<char>>
    decreases s.len(),
{
    if s.len() == 0 {
        seq![Seq::<char>::empty()]
    } else {
        let before = split_on(s.drop_last(), sep);
        if s.last() == sep {
            before.push(Seq::<char>::empty())
        } else {
            before.update(before.len() - 1, before.last().push(s.last()))
        }
    }
}

/// The pieces, in order, with `sep` between each two of them.
pub open spec fn join(parts: Seq<Seq<char>>, sep: Seq<char>) -> Seq<char>
    decreases parts.len(),
{
    if parts.len() == 0 {
        Seq::empty()
    } else if parts.len() == 1 {
        parts[0]
    } else {
        join(parts.drop_last(), sep) + sep + parts.last()
    }
}

/// The pieces one behind the other.
pub open spec fn concat(parts: Seq<Seq<char>>) -> Seq<char>
    decreases parts.len(),
{
    if parts.len() == 0 {
        Seq::empty()
    } else {
        concat(parts.drop_last()) + parts.last()
    }
}

/// What the strings hold.
pub open spec fn texts(v: Seq<String>) -> Seq<Seq<char>> {
    v.map_values(|s: String| s@)
}

/// What an optional string holds.
pub open spec fn optional(s: Option<String>) -> Option<Seq<char>> {
    match s {
        Some(s) => Some(s@),
        None => None,
    }
}

/// `a` comes before `b` in the order of their characters, or is the same.
pub open spec fn in_order(a: Seq<char>, b: Seq<char>) -> bool
    decreases a.len(),
{
    if a.len() == 0 {
        true
    } else if b.len() == 0 {
        false
    } else if a[0] == b[0] {
        in_order(a.skip(1), b.skip(1))
    } else {
        a[0] < b[0]
    }
}

/// The texts stand in the order of their characters.
pub open spec fn sorted(v: Seq<Seq<char>>) -> bool {
    forall|i: int, j: int|
        0 <= i < j < v.len() ==> in_order(#[trigger] v[i], #[trigger] v[j])
}

/// `n` in decimal digits, without leading zeros.
pub open spec fn decimal(n: nat) -> Seq<char>
    decreases n,
{
    if n < 10 {
        seq![digit(n)]
    } else {
        decimal(n / 10).push(digit(n % 10))
    }
}

/// The digit that stands for a number below ten.
pub open spec fn digit(n: nat) -> char {
    ((48 + n) as u32) as char
}

/// The lower-case form of an ASCII letter; any other character as it is.
pub open spec fn ascii_lower(c: char) -> char {
    if 'A' <= c <= 'Z' {
        ((c as u32) + 32) as char
    } else {
        c
    }
}

/// `s` with its ASCII letters in lower case.
pub open spec fn ascii_lowercase(s: Seq<char>) -> Seq<char> {
    s.map_values(|c: char| ascii_lower(c))
}

// ---------------------------------------------------------------- trimming

/// What trimming the front leaves is a suffix that starts with no white space.
pub proof fn lemma_trim_start(s: Seq<char>)
    ensures
        trim_start(s).len() <= s.len(),
        trim_start(s) == s.skip(s.len() - trim_start(s).len()),
        blank(s.take(s.len() - trim_start(s).len())),
        trim_start(s).len() > 0 ==> !white_space(trim_start(s)[0]),
    decreases s.len(),
{
    if s.len() > 0 && white_space(s[0]) {
        let t = s.skip(1);
        lemma_trim_start(t);
        let k = t.len() - trim_start(t).len();
        assert(t.skip(k) =~= s.skip(k + 1));
        assert forall|i: int| 0 <= i < k + 1 implies white_space(#[trigger] s.take(k + 1)[i]) by {
            if i > 0 {
                assert(t.take(k)[i - 1] == s[i]);
            }
        }
    } else {
        assert(s.skip(0) =~= s);
    }
}

/// What trimming the end leaves is a prefix that ends with no white space.
pub proof fn lemma_trim_end(s: Seq<char>)
    ensures
        trim_end(s).len() <= s.len(),
        trim_end(s) == s.take(trim_end(s).len() as int),
        blank(s.skip(trim_end(s).len() as int)),
        trim_end(s).len() > 0 ==> !white_space(trim_end(s).last()),
    decreases s.len(),
{
    if s.len() > 0 && white_space(s.last()) {
        let t = s.drop_last();
        lemma_trim_end(t);
        let k = trim_end(t).len() as int;
        assert(t.take(k) =~= s.take(k));
        assert forall|i: int| 0 <= i < s.len() - k implies white_space(#[trigger] s.skip(k)[i]) by {
            if i < t.len() - k {
                assert(t.skip(k)[i] == s[k + i]);
            }
        }
    } else {
        assert(s.take(s.len() as int) =~= s);
    }
}

/// Trimming leaves a piece of the text, white space around it, and none at its ends.
pub proof fn lemma_trim(s: Seq<char>)
    ensures
        trim(s).len() <= trim_start(s).len() <= s.len(),
        trim(s) == s.subrange(
            s.len() - trim_start(s).len(),
            s.len() - trim_start(s).len() + trim(s).len(),
        ),
        trim(s).len() > 0 ==> !white_space(trim(s)[0]) && !white_space(trim(s).last()),
        blank(s) <==> trim(s).len() == 0,
{
    lemma_trim_start(s);
    lemma_trim_end(trim_start(s));
    let a = trim_start(s);
    let k = s.len() - a.len();
    assert(trim(s) =~= s.subrange(k, k + trim(s).len()));
    if blank(s) {
        if trim(s).len() > 0 {
            assert(trim(s)[0] == s[k]);
        }
    }
    if trim(s).len() == 0 {
        assert forall|i: int| 0 <= i < s.len() implies white_space(#[trigger] s[i]) by {
            if i < k {
                assert(s.take(k)[i] == s[i]);
            } else {
                assert(a.skip(0)[i - k] == s[i]);
            }
        }
    }
}

// ---------------------------------------------------------------- code

/// The characters of a text.
pub fn chars_of(s: &str) -> (r: Vec<char>)
    ensures
        r@ == s@,
{
    let mut r: Vec<char> = Vec::new();
    for c in it: s.chars()
        invariant
            it.seq() == s@,
            r@ == s@.take(it.index()),
    {
        r.push(c);
    }
    r
}

/// How many characters of white space a text starts with.
fn leading(cs: &Vec<char>) -> (n: usize)
    ensures
        n == cs.len() - trim_start(cs@).len(),
        trim_start(cs@) == cs@.skip(n as int),
{
    let mut n: usize = 0;
    assert(cs@.skip(0) =~= cs@);
    while n < cs.len() && is_white_space(cs[n])
        invariant
            n <= cs.len(),
            trim_start(cs@) == trim_start(cs@.skip(n as int)),
        decreases cs.len() - n,
    {
        assert(cs@.skip(n as int).skip(1) =~= cs@.skip(n + 1));
        n += 1;
    }
    n
}

/// Where the white space at the end of a text starts, looked for down to `from`.
fn trailing(cs: &Vec<char>, from: usize) -> (n: usize)
    requires
        from <= cs.len(),
    ensures
        from <= n <= cs.len(),
        trim_end(cs@.skip(from as int)) == cs@.subrange(from as int, n as int),
{
    let mut n: usize = cs.len();
    assert(cs@.subrange(from as int, n as int) =~= cs@.skip(from as int));
    while n > from && is_white_space(cs[n - 1])
        invariant
            from <= n <= cs.len(),
            trim_end(cs@.skip(from as int)) == trim_end(cs@.subrange(from as int, n as int)),
        decreases n,
    {
        assert(cs@.subrange(from as int, n as int).drop_last() =~= cs@.subrange(
            from as int,
            n - 1,
        ));
        n -= 1;
    }
    n
}

/// The text without its leading white space.
pub fn trimmed_start(s: &str) -> (r: &str)
    ensures
        r@ == trim_start(s@),
{
    let cs = chars_of(s);
    let a = leading(&cs);
    assert(s@.subrange(a as int, s@.len() as int) =~= s@.skip(a as int));
    s.substring_char(a, cs.len())
}

/// The text without its trailing white space.
pub fn trimmed_end(s: &str) -> (r: &str)
    ensures
        r@ == trim_end(s@),
{
    let cs = chars_of(s);
    let b = trailing(&cs, 0);
    assert(s@.skip(0) =~= s@);
    s.substring_char(0, b)
}

/// The text without the white space at either end.
pub fn trimmed(s: &str) -> (r: &str)
    ensures
        r@ == trim(s@),
{
    let cs = chars_of(s);
    let a = leading(&cs);
    let b = trailing(&cs, a);
    s.substring_char(a, b)
}

/// Is there nothing but white space?
pub fn is_blank(s: &str) -> (r: bool)
    ensures
        r == blank(s@),
{
    let cs = chars_of(s);
    let mut i: usize = 0;
    while i < cs.len()
        invariant
            i <= cs.len(),
            cs@ == s@,
            blank(s@.take(i as int)),
        decreases cs.len() - i,
    {
        if !is_white_space(cs[i]) {
            return false;
        }
        assert forall|k: int| 0 <= k < i + 1 implies white_space(#[trigger] s@.take(i + 1)[k]) by {
            if k < i {
                assert(s@.take(i as int)[k] == s@[k]);
            }
        }
        i += 1;
    }
    assert(s@.take(i as int) =~= s@);
    true
}

/// Do two texts hold the same characters?
pub fn same(a: &str, b: &str) -> (r: bool)
    ensures
        r == (a@ == b@),
{
    let x = a.to_owned();
    let y = b.to_owned();
    x == y
}

/// Does `p` stand in `s` at position `i`?
pub fn chars_occur_at(s: &Vec<char>, p: &Vec<char>, i: usize) -> (r: bool)
    ensures
        r == occurs_at(s@, p@, i as int),
{
    if i > s.len() || p.len() > s.len() - i {
        return false;
    }
    let mut k: usize = 0;
    while k < p.len()
        invariant
            k <= p.len(),
            i + p.len() <= s.len(),
            s@.subrange(i as int, i + k) == p@.take(k as int),
        decreases p.len() - k,
    {
        if s[i + k] != p[k] {
            assert(s@.subrange(i as int, i + p.len())[k as int] != p@[k as int]);
            return false;
        }
        assert(s@.subrange(i as int, i + k + 1) =~= s@.subrange(i as int, i + k).push(s@[i + k]));
        assert(p@.take(k + 1) =~= p@.take(k as int).push(p@[k as int]));
        k += 1;
    }
    assert(p@.take(p@.len() as int) =~= p@);
    true
}

/// Does the text begin with `p`?
pub fn starts_with(s: &str, p: &str) -> (r: bool)
    ensures
        r == occurs_at(s@, p@, 0),
{
    chars_occur_at(&chars_of(s), &chars_of(p), 0)
}

/// Does the text end with `p`?
pub fn ends_with(s: &str, p: &str) -> (r: bool)
    ensures
        r == occurs_at(s@, p@, s@.len() - p@.len()),
{
    let cs = chars_of(s);
    let cp = chars_of(p);
    if cp.len() > cs.len() {
        return false;
    }
    chars_occur_at(&cs, &cp, cs.len() - cp.len())
}

/// Does `p` stand anywhere among the characters?
pub fn chars_contain(cs: &Vec<char>, p: &str) -> (r: bool)
    ensures
        r == occurs(cs@, p@),
{
    let cp = chars_of(p);
    let mut i: usize = 0;
    loop
        invariant
            i <= cs.len(),
            cp@ == p@,
            forall|k: int| 0 <= k < i ==> !occurs_at(cs@, p@, k),
        decreases cs.len() - i,
    {
        if chars_occur_at(cs, &cp, i) {
            return true;
        }
        if i == cs.len() {
            return false;
        }
        i += 1;
    }
}

/// Does `p` stand anywhere in the text?
pub fn contains(s: &str, p: &str) -> (r: bool)
    ensures
        r == occurs(s@, p@),
{
    chars_contain(&chars_of(s), p)
}

/// The lower-case form of an ASCII letter; any other character as it is.
pub fn to_ascii_lower(c: char) -> (r: char)
    ensures
        r == ascii_lower(c),
{
    if 'A' <= c && c <= 'Z' {
        ((c as u8) + 32) as char
    } else {
        c
    }
}

/// The text with its ASCII letters in lower case.
pub fn lowercase(s: &str) -> (r: Vec<char>)
    ensures
        r@ == ascii_lowercase(s@),
{
    let cs = chars_of(s);
    let mut r: Vec<char> = Vec::new();
    let mut i: usize = 0;
    while i < cs.len()
        invariant
            i <= cs.len(),
            cs@ == s@,
            r@ == ascii_lowercase(s@).take(i as int),
        decreases cs.len() - i,
    {
        r.push(to_ascii_lower(cs[i]));
        assert(ascii_lowercase(s@).take(i + 1) =~= ascii_lowercase(s@).take(
            i as int,
        ).push(ascii_lowercase(s@)[i as int]));
        i += 1;
    }
    assert(ascii_lowercase(s@).take(i as int) =~= ascii_lowercase(s@));
    r
}

/// Does the text hold the character `c`?
pub fn contains_char(s: &str, c: char) -> (r: bool)
    ensures
        r == s@.contains(c),
{
    let cs = chars_of(s);
    let mut i: usize = 0;
    while i < cs.len()
        invariant
            i <= cs.len(),
            cs@ == s@,
            forall|k: int| 0 <= k < i ==> s@[k] != c,
        decreases cs.len() - i,
    {
        if cs[i] == c {
            return true;
        }
        i += 1;
    }
    false
}

/// The pieces with a separator between them, one more piece at the end.
pub proof fn lemma_join_push(parts: Seq<Seq<char>>, sep: Seq<char>, last: Seq<char>)
    ensures
        join(parts.push(last), sep) == (if parts.len() == 0 {
            last
        } else {
            join(parts, sep) + sep + last
        }),
{
    assert(parts.push(last).drop_last() =~= parts);
}

/// The pieces one behind the other, one more piece at the end.
pub proof fn lemma_concat_push(parts: Seq<Seq<char>>, last: Seq<char>)
    ensures
        concat(parts.push(last)) == concat(parts) + last,
{
    assert(parts.push(last).drop_last() =~= parts);
}

/// There is always at least one piece.
pub proof fn lemma_split_nonempty(s: Seq<char>, sep: char)
    ensures
        split_on(s, sep).len() > 0,
    decreases s.len(),
{
    if s.len() > 0 {
        lemma_split_nonempty(s.drop_last(), sep);
    }
}

/// Splitting a text and joining the pieces gives the text back.
pub proof fn lemma_join_of_split(s: Seq<char>, sep: char)
    ensures
        join(split_on(s, sep), seq![sep]) == s,
    decreases s.len(),
{
    if s.len() > 0 {
        let t = s.drop_last();
        lemma_split_nonempty(t, sep);
        lemma_join_of_split(t, sep);
        let before = split_on(t, sep);
        assert(s =~= t.push(s.last()));
        if s.last() == sep {
            lemma_join_push(before, seq![sep], Seq::empty());
            assert(join(before, seq![sep]) + seq![sep] + Seq::<char>::empty() =~= s);
        } else {
            let head = before.drop_last();
            let piece = before.last().push(s.last());
            assert(split_on(s, sep) =~= head.push(piece));
            assert(before =~= head.push(before.last()));
            lemma_join_push(head, seq![sep], piece);
            lemma_join_push(head, seq![sep], before.last());
            assert(join(split_on(s, sep), seq![sep]) =~= s);
        }
    }
}

/// The pieces of a text between the characters equal to `sep`.
pub fn split(s: &str, sep: char) -> (r: Vec<String>)
    ensures
        texts(r@) == split_on(s@, sep),
{
    let cs = chars_of(s);
    let mut r: Vec<String> = Vec::new();
    let mut start: usize = 0;
    let mut i: usize = 0;
    assert(s@.take(0) =~= Seq::<char>::empty());
    assert(s@.subrange(0, 0) =~= Seq::<char>::empty());
    assert(texts(r@).push(s@.subrange(0, 0)) =~= seq![Seq::<char>::empty()]);
    while i < cs.len()
        invariant
            cs@ == s@,
            start <= i <= cs.len(),
            split_on(s@.take(i as int), sep) == texts(r@).push(
                s@.subrange(start as int, i as int),
            ),
        decreases cs.len() - i,
    {
        let ghost t = s@.take(i + 1);
        let ghost before = texts(r@).push(s@.subrange(start as int, i as int));
        assert(t.drop_last() =~= s@.take(i as int));
        assert(t.last() == s@[i as int]);
        if cs[i] == sep {
            let piece = s.substring_char(start, i);
            r.push(piece.to_owned());
            start = i + 1;
            assert(texts(r@) =~= before);
            assert(s@.subrange(start as int, i + 1) =~= Seq::<char>::empty());
        } else {
            assert(s@.subrange(start as int, i + 1) =~= s@.subrange(start as int, i as int).push(
                s@[i as int],
            ));
            assert(before.update(before.len() - 1, s@.subrange(start as int, i + 1)) =~= texts(
                r@,
            ).push(s@.subrange(start as int, i + 1)));
        }
        i += 1;
    }
    assert(s@.take(i as int) =~= s@);
    let piece = s.substring_char(start, i);
    let ghost done = texts(r@);
    r.push(piece.to_owned());
    assert(texts(r@) =~= done.push(piece@));
    r
}

/// The texts in order, with `sep` between each two of them.
pub fn joined(parts: &Vec<String>, sep: &str) -> (r: String)
    ensures
        r@ == join(texts(parts@), sep@),
{
    let mut r = String::new();
    let mut i: usize = 0;
    assert(texts(parts@).take(0) =~= Seq::<Seq<char>>::empty());
    while i < parts.len()
        invariant
            i <= parts.len(),
            r@ == join(texts(parts@).take(i as int), sep@),
        decreases parts.len() - i,
    {
        let ghost t = texts(parts@);
        assert(t.take(i + 1) =~= t.take(i as int).push(parts@[i as int]@));
        proof {
            lemma_join_push(t.take(i as int), sep@, parts@[i as int]@);
        }
        if i > 0 {
            r.append(sep);
        }
        r.append(parts[i].as_str());
        i += 1;
    }
    assert(texts(parts@).take(i as int) =~= texts(parts@));
    r
}

/// One decimal digit.
fn digit_text(n: u64) -> (r: &'static str)
    requires
        n < 10,
    ensures
        r@ == seq![digit(n as nat)],
{
    proof {
        reveal_strlit("0");
        reveal_strlit("1");
        reveal_strlit("2");
        reveal_strlit("3");
        reveal_strlit("4");
        reveal_strlit("5");
        reveal_strlit("6");
        reveal_strlit("7");
        reveal_strlit("8");
        reveal_strlit("9");
    }
    let r = match n {
        0 => "0",
        1 => "1",
        2 => "2",
        3 => "3",
        4 => "4",
        5 => "5",
        6 => "6",
        7 => "7",
        8 => "8",
        _ => "9",
    };
    assert(r@ =~= seq![digit(n as nat)]);
    r
}

/// The number in decimal digits, without leading zeros.
pub fn decimal_text(n: u64) -> (r: String)
    ensures
        r@ == decimal(n as nat),
    decreases n,
{
    if n < 10 {
        digit_text(n).to_owned()
    } else {
        let mut r = decimal_text(n / 10);
        let d = digit_text(n % 10);
        r.append(d);
        assert(r@ =~= decimal((n / 10) as nat).push(digit((n % 10) as nat)));
        r
    }
}

/// The length of a text in bytes.
pub fn byte_len(s: &str) -> (r: usize)
    ensures
        r == utf::bytes_of(s@).len(),
{
    s.as_bytes().len()
}

/// What stands between two byte offsets.
pub fn slice(s: &str, from: usize, to: usize) -> (r: &str)
    requires
        is_char_boundary(utf::bytes_of(s@), from as int),
        is_char_boundary(utf::bytes_of(s@), to as int),
        from <= to,
    ensures
        utf::bytes_of(r@) == utf::bytes_of(s@).subrange(from as int, to as int),
        r@ == utf::text_of(utf::bytes_of(s@).subrange(from as int, to as int)),
{
    let ghost b = utf::bytes_of(s@);
    proof {
        encode_utf8_valid_utf8(s@);
        utf::lemma_boundary_of_tail(b, from as int, to as int);
    }
    let (_, tail) = s.split_at(from);
    let (r, _) = tail.split_at(to - from);
    assert(b.subrange(from as int, b.len() as int).subrange(0, to - from) =~= b.subrange(
        from as int,
        to as int,
    ));
    proof {
        encode_utf8_decode_utf8(r@);
    }
    r
}

/// What stands between the offsets of two characters.
pub(crate) fn piece<'a>(s: &'a str, from: usize, to: usize, Ghost(i): Ghost<int>, Ghost(j): Ghost<int>) -> (r:
    &'a str)
    requires
        0 <= i <= j <= s@.len(),
        from == utf::offset_of(s@, i),
        to == utf::offset_of(s@, j),
    ensures
        r@ == s@.subrange(i, j),
{
    proof {
        utf::lemma_offsets(s@, i, j);
        encode_utf8_decode_utf8(s@.subrange(i, j));
    }
    slice(s, from, to)
}

/// Of two texts one comes first.
pub proof fn lemma_order_total(a: Seq<char>, b: Seq<char>)
    ensures
        in_order(a, b) || in_order(b, a),
    decreases a.len(),
{
    if a.len() > 0 && b.len() > 0 && a[0] == b[0] {
        lemma_order_total(a.skip(1), b.skip(1));
    }
}

/// What comes before a text comes before all that follow it.
pub proof fn lemma_order_transitive(a: Seq<char>, b: Seq<char>, c: Seq<char>)
    requires
        in_order(a, b),
        in_order(b, c),
    ensures
        in_order(a, c),
    decreases a.len(),
{
    if a.len() > 0 && b.len() > 0 && c.len() > 0 && a[0] == b[0] && b[0] == c[0] {
        lemma_order_transitive(a.skip(1), b.skip(1), c.skip(1));
    }
}

/// Does `a` come before `b`, or is it the same?
pub fn is_in_order(a: &str, b: &str) -> (r: bool)
    ensures
        r == in_order(a@, b@),
{
    let ca = chars_of(a);
    let cb = chars_of(b);
    let mut i: usize = 0;
    assert(a@.skip(0) =~= a@);
    assert(b@.skip(0) =~= b@);
    while i < ca.len() && i < cb.len() && ca[i] == cb[i]
        invariant
            ca@ == a@,
            cb@ == b@,
            i <= ca.len(),
            i <= cb.len(),
            in_order(a@, b@) == in_order(a@.skip(i as int), b@.skip(i as int)),
        decreases ca.len() - i,
    {
        assert(a@.skip(i as int).skip(1) =~= a@.skip(i + 1));
        assert(b@.skip(i as int).skip(1) =~= b@.skip(i + 1));
        i += 1;
    }
    if i == ca.len() {
        true
    } else if i == cb.len() {
        false
    } else {
        ca[i] < cb[i]
    }
}

/// Puts a text in its place among sorted ones.
fn insert_sorted(list: &mut Vec<String>, s: String)
    requires
        sorted(texts(old(list)@)),
    ensures
        sorted(texts(final(list)@)),
        texts(final(list)@).to_multiset() == texts(old(list)@).to_multiset().insert(s@),
{
    broadcast use vstd::seq_lib::group_to_multiset_ensures;

    let ghost before = texts(list@);
    let mut k: usize = 0;
    while k < list.len() && is_in_order(list[k].as_str(), s.as_str())
        invariant
            k <= list.len(),
            before == texts(list@),
            forall|i: int| 0 <= i < k ==> in_order(#[trigger] before[i], s@),
        decreases list.len() - k,
    {
        assert(before[k as int] == list@[k as int]@);
        k += 1;
    }
    let ghost item = s@;
    proof {
        if k < list.len() {
            assert(before[k as int] == list@[k as int]@);
            lemma_order_total(before[k as int], item);
        }
    }
    list.insert(k, s);
    let ghost after = texts(list@);
    assert(after =~= before.insert(k as int, item));
    assert forall|i: int, j: int| 0 <= i < j < after.len() implies in_order(
        #[trigger] after[i],
        #[trigger] after[j],
    ) by {
        let k = k as int;
        if j < k {
            assert(after[i] == before[i] && after[j] == before[j]);
        } else if j == k {
            assert(after[i] == before[i]);
        } else if i == k {
            assert(after[j] == before[j - 1]);
            if j - 1 > k {
                assert(in_order(before[k], before[j - 1]));
                lemma_order_transitive(item, before[k], before[j - 1]);
            }
        } else if i < k {
            assert(after[i] == before[i] && after[j] == before[j - 1]);
        } else {
            assert(after[i] == before[i - 1] && after[j] == before[j - 1]);
        }
    }
}

/// The texts in the order of their characters.
pub fn sort_texts(list: Vec<String>) -> (r: Vec<String>)
    ensures
        sorted(texts(r@)),
        texts(r@).to_multiset() == texts(list@).to_multiset(),
{
    broadcast use vstd::seq_lib::group_to_multiset_ensures;

    let ghost all = texts(list@);
    let mut r: Vec<String> = Vec::new();
    let mut i: usize = 0;
    assert(all.take(0) =~= texts(r@));
    while i < list.len()
        invariant
            i <= list.len(),
            all == texts(list@),
            sorted(texts(r@)),
            texts(r@).to_multiset() == all.take(i as int).to_multiset(),
        decreases list.len() - i,
    {
        let s = list[i].clone();
        proof {
            broadcast use vstd::seq_lib::group_to_multiset_ensures;

            assert(all.take(i + 1) =~= all.take(i as int).push(s@));
            assert(all.take(i as int).push(s@).to_multiset() == all.take(
                i as int,
            ).to_multiset().insert(s@));
        }
        insert_sorted(&mut r, s);
        i += 1;
    }
    assert(all.take(i as int) =~= all);
    r
}

/// A text with an ending.
pub(crate) fn with_ending(name: &str, ending: &str) -> (r: String)
    ensures
        r@ == name@ + ending@,
{
    let mut r = name.to_owned();
    r.append(ending);
    r
}

} // verus!
