//! Which addresses name a paper, and why others are refused.

use crate::arxiv::Refusal;
use crate::{arxiv, patterns, text, text_laws};
use vstd::prelude::*;
use vstd::utf8::*;

verus! {

/// The parts of an address are the scheme, the host and the path.
pub open spec fn parts(
    scheme: Seq<char>,
    host: Option<Seq<char>>,
    segments: Option<Seq<Seq<char>>>,
) -> Option<(Seq<char>, Option<Seq<char>>, Option<Seq<Seq<char>>>)> {
    Some((scheme, host, segments))
}

/// The scheme is one that the web uses.
pub open spec fn web(scheme: Seq<char>) -> bool {
    scheme == "http"@ || scheme == "https"@
}

/// The host is arXiv, with or without the prefix of its web site.
pub open spec fn at_arxiv(host: Seq<char>) -> bool {
    host == "arxiv.org"@ || host == "www.arxiv.org"@
}

/// The first part of a path that leads to a paper.
pub open spec fn leads_to_paper(kind: Seq<char>) -> bool {
    kind == "abs"@ || kind == "pdf"@ || kind == "e-print"@ || kind == "html"@ || kind == "format"@
}

/// An address that is not one of the web, or not at arXiv, or has no path, is
/// refused, each with its reason; a refusal names what was wrong.
pub proof fn foreign_addresses_are_refused(
    input: Seq<char>,
    scheme: Seq<char>,
    host: Option<Seq<char>>,
    segments: Option<Seq<Seq<char>>>,
)
    ensures
        arxiv::id_in_parts(input, None) == Err::<Seq<char>, Refusal>(
            Refusal::InvalidUrl { input },
        ),
        !web(scheme) ==> arxiv::id_in_parts(input, parts(scheme, host, segments)) == Err::<
            Seq<char>,
            Refusal,
        >(Refusal::UnsupportedScheme { scheme }),
        web(scheme) && host is None ==> arxiv::id_in_parts(input, parts(scheme, host, segments))
            == Err::<Seq<char>, Refusal>(Refusal::NoHost { input }),
        web(scheme) && host is Some && !at_arxiv(host->0) ==> arxiv::id_in_parts(
            input,
            parts(scheme, host, segments),
        ) == Err::<Seq<char>, Refusal>(Refusal::ForeignHost { host: host->0 }),
        web(scheme) && host is Some && at_arxiv(host->0) && segments is None
            ==> arxiv::id_in_parts(input, parts(scheme, host, segments)) == Err::<
            Seq<char>,
            Refusal,
        >(Refusal::NoPath { input }),
{
}

/// The segments of a path that hold something, in their order.
pub open spec fn named_segments(list: Seq<Seq<char>>) -> Seq<Seq<char>> {
    list.filter(|s: Seq<char>| s.len() > 0)
}

proof fn lemma_filled(list: Seq<Seq<char>>)
    ensures
        arxiv::filled(list) == named_segments(list),
    decreases list.len(),
{
    reveal(Seq::filter);
    if list.len() > 0 {
        lemma_filled(list.drop_last());
    }
}

/// A path at arXiv names a paper by what stands behind its first part, without the
/// ending of a PDF; empty parts do not count. It is refused where it has no such
/// part, where that does not lead to papers, and where what stands behind it is
/// missing or no identifier.
pub proof fn paths_name_papers(
    input: Seq<char>,
    scheme: Seq<char>,
    host: Seq<char>,
    list: Seq<Seq<char>>,
    id: Seq<char>,
)
    requires
        web(scheme),
        at_arxiv(host),
    ensures
        ({
            let named = named_segments(list);
            let r = arxiv::id_in_parts(input, parts(scheme, Some(host), Some(list)));
            let rest = text::join(named.skip(1), "/"@);
            &&& named.len() == 0 ==> r == Err::<Seq<char>, Refusal>(Refusal::EmptyPath)
            &&& named.len() > 0 && !leads_to_paper(named[0]) ==> r == Err::<Seq<char>, Refusal>(
                Refusal::UnsupportedPath { kind: named[0] },
            )
            &&& named.len() == 1 && leads_to_paper(named[0]) ==> r == Err::<Seq<char>, Refusal>(
                Refusal::NoId,
            )
            &&& named.len() > 1 && leads_to_paper(named[0]) && (rest == id + ".pdf"@ || (rest == id
                && !text::occurs_at(id, ".pdf"@, id.len() - ".pdf"@.len()))) ==> r == (
            if arxiv::valid_id(id) {
                Ok::<Seq<char>, Refusal>(id)
            } else {
                Err(Refusal::InvalidId { candidate: id })
            })
        }),
{
    lemma_filled(list);
    let named = named_segments(list);
    let rest = text::join(named.skip(1), "/"@);
    if rest == id + ".pdf"@ {
        assert(rest.subrange(id.len() as int, rest.len() as int) =~= ".pdf"@);
        assert(rest.take(id.len() as int) =~= id);
    }
}

/// An identifier in ASCII has one of the two forms of arXiv.
pub proof fn identifiers_have_two_forms(id: Seq<char>)
    requires
        is_ascii_chars(id),
    ensures
        arxiv::valid_id(id) <==> patterns::new_style(id) || patterns::old_style(id),
{
}

/// White space around an input, and slashes at its end, do not matter.
pub proof fn space_and_slashes_around_do_not_matter(a: Seq<char>, m: Seq<char>, n: nat, c: Seq<char>)
    requires
        text::blank(a),
        text::blank(c),
        m.len() > 0,
        !text::white_space(m[0]),
        !text::white_space(m.last()),
        m.last() != '/',
    ensures
        arxiv::stripped(a + (m + Seq::new(n, |i: int| '/')) + c) == m,
        arxiv::id_in(a + (m + Seq::new(n, |i: int| '/')) + c) == arxiv::id_in(m),
{
    let s = m + Seq::new(n, |i: int| '/');
    text_laws::trimming_takes_white_space_alone(a, s, c);
    lemma_slashes(m, n);
    text_laws::trimming_takes_white_space_alone(Seq::empty(), m, Seq::empty());
    assert(Seq::<char>::empty() + m + Seq::<char>::empty() =~= m);
    lemma_slashes(m, 0);
    assert(m + Seq::new(0, |i: int| '/') =~= m);
}

proof fn lemma_slashes(m: Seq<char>, n: nat)
    requires
        m.len() > 0,
        m.last() != '/',
    ensures
        arxiv::without_slashes(m + Seq::new(n, |i: int| '/')) == m,
    decreases n,
{
    let s = m + Seq::new(n, |i: int| '/');
    if n == 0 {
        assert(s =~= m);
    } else {
        assert(s.drop_last() =~= m + Seq::new((n - 1) as nat, |i: int| '/'));
        lemma_slashes(m, (n - 1) as nat);
    }
}

/// An input is taken for an address where it holds `://`, or starts with the host of
/// arXiv and a slash, whatever the case of its letters. Without a scheme it is taken
/// for one of the secure web.
pub proof fn addresses_are_told_from_identifiers(s: Seq<char>, x: Seq<char>, y: Seq<char>)
    ensures
        s == x + "://"@ + y ==> arxiv::url_like(s) && arxiv::full_address(s) == s,
        text::ascii_lowercase(s) == "arxiv.org/"@ + x ==> arxiv::url_like(s),
        text::ascii_lowercase(s) == "www.arxiv.org/"@ + x ==> arxiv::url_like(s),
        !text::occurs(s, "://"@) ==> arxiv::full_address(s) == "https://"@ + s,
        !text::occurs(s, "://"@) && !text::occurs_at(text::ascii_lowercase(s), "arxiv.org/"@, 0)
            && !text::occurs_at(text::ascii_lowercase(s), "www.arxiv.org/"@, 0)
            ==> !arxiv::url_like(s),
{
    let lower = text::ascii_lowercase(s);
    if s == x + "://"@ + y {
        let n = x.len() as int;
        assert(s.subrange(n, n + "://"@.len()) =~= "://"@);
        assert(text::occurs_at(s, "://"@, n));
    }
    if lower == "arxiv.org/"@ + x {
        assert(lower.subrange(0, "arxiv.org/"@.len() as int) =~= "arxiv.org/"@);
    }
    if lower == "www.arxiv.org/"@ + x {
        assert(lower.subrange(0, "www.arxiv.org/"@.len() as int) =~= "www.arxiv.org/"@);
    }
}

/// What is no address is an identifier or refused.
pub proof fn other_inputs_are_identifiers_or_refused(s: Seq<char>)
    requires
        s.len() > 0,
        text::trim(s) == s,
        s.last() != '/',
        !arxiv::url_like(s),
    ensures
        arxiv::id_in(s) == (if arxiv::valid_id(s) {
            Ok::<Seq<char>, Refusal>(s)
        } else {
            Err(Refusal::NotAnId { input: s })
        }),
{
}

/// A refusal names what it refuses.
pub proof fn refusals_name_what_they_refuse(x: Seq<char>)
    ensures
        exists|a: Seq<char>, b: Seq<char>|
            arxiv::refusal_text(Refusal::NotAnId { input: x }) == #[trigger] (a + x + b),
        exists|a: Seq<char>, b: Seq<char>|
            arxiv::refusal_text(Refusal::UnsupportedScheme { scheme: x }) == #[trigger] (a + x + b),
        exists|a: Seq<char>, b: Seq<char>|
            arxiv::refusal_text(Refusal::ForeignHost { host: x }) == #[trigger] (a + x + b),
        exists|a: Seq<char>, b: Seq<char>|
            arxiv::refusal_text(Refusal::UnsupportedPath { kind: x }) == #[trigger] (a + x + b),
        exists|a: Seq<char>, b: Seq<char>|
            arxiv::refusal_text(Refusal::InvalidId { candidate: x }) == #[trigger] (a + x + b),
{
    assert(arxiv::refusal_text(Refusal::NotAnId { input: x }) == "Cannot parse arXiv ID from '"@ + x
        + "'. Expected a URL like https://arxiv.org/abs/2301.00001 or a bare ID like 2301.00001"@);
    assert(arxiv::refusal_text(Refusal::UnsupportedScheme { scheme: x })
        == "Unsupported URL scheme '"@ + x + "': expected http or https"@);
    assert(arxiv::refusal_text(Refusal::ForeignHost { host: x })
        == "Not an arXiv URL: host is '"@ + x + "'"@);
    assert(arxiv::refusal_text(Refusal::UnsupportedPath { kind: x })
        == "Unsupported arXiv path '/"@ + x
        + "/': expected one of abs, pdf, e-print, html, format"@);
    assert(arxiv::refusal_text(Refusal::InvalidId { candidate: x }) == "'"@ + x
        + "' doesn't look like an arXiv ID"@);
}

/// So many decimal digits, and nothing else.
pub open spec fn digits(x: Seq<char>, n: nat) -> bool {
    x.len() == n && forall|i: int| 0 <= i < x.len() ==> '0' <= #[trigger] x[i] <= '9'
}

/// Nothing, or `v` and at least one digit.
pub open spec fn versioned(v: Seq<char>) -> bool {
    v.len() == 0 || (v.len() > 1 && v[0] == 'v' && digits(v.skip(1), (v.len() - 1) as nat))
}

/// Letters and hyphens, at least one, all of them small unless any case will do.
pub open spec fn letters(x: Seq<char>, any_case: bool) -> bool {
    x.len() > 0 && forall|i: int|
        0 <= i < x.len() ==> 'a' <= #[trigger] x[i] <= 'z' || x[i] == '-' || (any_case && 'A'
            <= x[i] <= 'Z')
}

proof fn lemma_version(s: Seq<char>, i: int)
    requires
        0 <= i <= s.len(),
    ensures
        patterns::version(s, i) <==> versioned(s.skip(i)),
{
    let v = s.skip(i);
    if patterns::version(s, i) && i < s.len() {
        assert(v[0] == s[i]);
        assert forall|k: int| 0 <= k < v.skip(1).len() implies '0' <= #[trigger] v.skip(1)[k]
            <= '9' by {
            assert(v.skip(1)[k] == s[i + 1 + k]);
        }
    }
    if versioned(v) && v.len() > 0 {
        assert(v[0] == s[i]);
        assert forall|k: int| i + 1 <= k < s.len() implies '0' <= #[trigger] s[k] <= '9' by {
            assert(v.skip(1)[k - i - 1] == s[k]);
        }
    }
}

proof fn lemma_digits(s: Seq<char>, i: int, j: int)
    requires
        0 <= i <= j <= s.len(),
    ensures
        patterns::digits(s, i, j) <==> digits(s.subrange(i, j), (j - i) as nat),
{
    let x = s.subrange(i, j);
    if digits(x, (j - i) as nat) {
        assert forall|k: int| i <= k < j implies '0' <= #[trigger] s[k] <= '9' by {
            assert(x[k - i] == s[k]);
        }
    }
}

/// An identifier of the new form: four digits, a dot, four or five digits, and a
/// version or none.
pub open spec fn new_form(s: Seq<char>, a: Seq<char>, b: Seq<char>, v: Seq<char>) -> bool {
    s == a + seq!['.'] + b + v && digits(a, 4) && (digits(b, 4) || digits(b, 5)) && versioned(v)
}

/// The identifiers of the new form are those of four digits, a dot, four or five
/// digits, and a version or none.
pub proof fn new_identifiers_have_their_form(s: Seq<char>)
    ensures
        patterns::new_style(s) <==> exists|a: Seq<char>, b: Seq<char>, v: Seq<char>|
            new_form(s, a, b, v),
{
    if patterns::new_style(s) {
        let e: int = if patterns::digits(s, 5, 9) && patterns::version(s, 9) {
            9
        } else {
            10
        };
        lemma_digits(s, 0, 4);
        lemma_digits(s, 5, e);
        lemma_version(s, e);
        assert(s =~= s.subrange(0, 4) + seq!['.'] + s.subrange(5, e) + s.skip(e));
        assert(new_form(s, s.subrange(0, 4), s.subrange(5, e), s.skip(e)));
    }
    if exists|a: Seq<char>, b: Seq<char>, v: Seq<char>| new_form(s, a, b, v) {
        let (a, b, v) = choose|a: Seq<char>, b: Seq<char>, v: Seq<char>| new_form(s, a, b, v);
        let e = 5 + b.len() as int;
        assert(s.subrange(0, 4) =~= a);
        assert(s.subrange(5, e) =~= b);
        assert(s.skip(e) =~= v);
        lemma_digits(s, 0, 4);
        lemma_digits(s, 5, e);
        lemma_version(s, e);
        assert(s[4] == '.');
    }
}

/// An identifier of the old form: an archive, a subject class behind a dot or none, a
/// slash, seven digits, and a version or none.
pub open spec fn old_form(
    s: Seq<char>,
    archive: Seq<char>,
    class: Seq<char>,
    d: Seq<char>,
    v: Seq<char>,
) -> bool {
    &&& s == archive + class + seq!['/'] + d + v
    &&& letters(archive, false)
    &&& class.len() == 0 || (class[0] == '.' && letters(class.skip(1), true))
    &&& digits(d, 7)
    &&& versioned(v)
}

proof fn lemma_letters(s: Seq<char>, i: int, j: int, any_case: bool)
    requires
        0 <= i <= j <= s.len(),
    ensures
        patterns::word(s, i, j, any_case) <==> letters(s.subrange(i, j), any_case),
{
    let x = s.subrange(i, j);
    if letters(x, any_case) {
        assert forall|k: int| i <= k < j implies 'a' <= #[trigger] s[k] <= 'z' || s[k] == '-' || (
        any_case && 'A' <= s[k] <= 'Z') by {
            assert(x[k - i] == s[k]);
        }
    }
}

/// The identifiers of the old form are those of an archive, a subject class or none, a
/// slash, seven digits, and a version or none.
pub proof fn old_identifiers_have_their_form(s: Seq<char>)
    ensures
        patterns::old_style(s) <==> exists|a: Seq<char>, c: Seq<char>, d: Seq<char>, v: Seq<char>|
            old_form(s, a, c, d, v),
{
    if patterns::old_style(s) {
        let (dot, slash) = choose|dot: int, slash: int| patterns::old_style_at(s, dot, slash);
        let a = s.subrange(0, dot);
        let c = s.subrange(dot, slash);
        let d = s.subrange(slash + 1, slash + 8);
        let v = s.skip(slash + 8);
        lemma_letters(s, 0, dot, false);
        lemma_digits(s, slash + 1, slash + 8);
        lemma_version(s, slash + 8);
        if dot != slash {
            lemma_letters(s, dot + 1, slash, true);
            assert(c.skip(1) =~= s.subrange(dot + 1, slash));
        }
        assert(s =~= a + c + seq!['/'] + d + v);
        assert(old_form(s, a, c, d, v));
    }
    if exists|a: Seq<char>, c: Seq<char>, d: Seq<char>, v: Seq<char>| old_form(s, a, c, d, v) {
        let (a, c, d, v) = choose|a: Seq<char>, c: Seq<char>, d: Seq<char>, v: Seq<char>|
            old_form(s, a, c, d, v);
        let dot = a.len() as int;
        let slash = dot + c.len() as int;
        assert(s.subrange(0, dot) =~= a);
        assert(s.subrange(slash + 1, slash + 8) =~= d);
        assert(s.skip(slash + 8) =~= v);
        lemma_letters(s, 0, dot, false);
        lemma_digits(s, slash + 1, slash + 8);
        lemma_version(s, slash + 8);
        assert(s[slash] == '/');
        if c.len() > 0 {
            assert(s[dot] == c[0]);
            assert(s.subrange(dot + 1, slash) =~= c.skip(1));
            lemma_letters(s, dot + 1, slash, true);
        }
        assert(patterns::old_style_at(s, dot, slash));
    }
}

} // verus!
