//! arXiv papers: what names one.

use crate::{arxiv_laws, outside, patterns, text, utf};
use vstd::prelude::*;
use vstd::utf8::*;

verus! {

/// The parts of an address that matter here.
#[derive(Debug)]
pub struct UrlParts {
    pub scheme: String,
    pub host: Option<String>,
    pub segments: Option<Vec<String>>,
}

/// What the parts of an address hold.
pub open spec fn parts_view(p: Option<UrlParts>) -> Option<
    (Seq<char>, Option<Seq<char>>, Option<Seq<Seq<char>>>),
> {
    match p {
        Some(p) => Some(p@),
        None => None,
    }
}

impl View for UrlParts {
    type V = (Seq<char>, Option<Seq<char>>, Option<Seq<Seq<char>>>);

    open spec fn view(&self) -> Self::V {
        (
            self.scheme@,
            text::optional(self.host),
            match self.segments {
                Some(list) => Some(text::texts(list@)),
                None => None,
            },
        )
    }
}

/// An address, put together from its parts.
pub open spec fn address(
    scheme: Seq<char>,
    host: Seq<char>,
    path: Seq<char>,
    tail: Seq<char>,
) -> Seq<char> {
    scheme + "://"@ + host + "/"@ + path + tail
}

/// A letter, a digit, a dot, a hyphen or a slash.
pub open spec fn path_char(c: char) -> bool {
    'a' <= c <= 'z' || 'A' <= c <= 'Z' || '0' <= c <= '9' || c == '.' || c == '-' || c == '/'
}

/// The host of arXiv, in either of its forms.
pub open spec fn arxiv_host(host: Seq<char>) -> bool {
    host == "arxiv.org"@ || host == "www.arxiv.org"@
}

/// Nothing, or what starts at a question mark or a number sign.
pub open spec fn query_or_fragment(tail: Seq<char>) -> bool {
    tail.len() == 0 || tail[0] == '?' || tail[0] == '#'
}

/// An address at arXiv whose path needs no rewriting: it is made of plain
/// characters, and no part of it is a dot or two.
pub open spec fn plain_address(
    scheme: Seq<char>,
    host: Seq<char>,
    path: Seq<char>,
    tail: Seq<char>,
) -> bool {
    &&& text::ascii_lowercase(scheme) == "http"@ || text::ascii_lowercase(scheme) == "https"@
    &&& arxiv_host(text::ascii_lowercase(host))
    &&& forall|i: int| 0 <= i < path.len() ==> path_char(#[trigger] path[i])
    &&& forall|i: int|
        0 <= i < text::split_on(path, '/').len() ==> (#[trigger] text::split_on(path, '/')[i])
            != "."@ && text::split_on(path, '/')[i] != ".."@
    &&& query_or_fragment(tail)
}

// ---------------------------------------------------------------- identifiers

/// An identifier, in the new or in the old style, with a version or none.
pub open spec fn valid_id(s: Seq<char>) -> bool {
    if is_ascii_chars(s) {
        patterns::new_style(s) || patterns::old_style(s)
    } else {
        outside::regex_matches(patterns::NEW_ID@, s) || outside::regex_matches(
            patterns::OLD_ID@,
            s,
        )
    }
}

/// Is this an identifier?
pub fn id_is_valid(s: &str) -> (r: bool)
    ensures
        r == valid_id(s@),
        r ==> patterns::tight(s@),
{
    outside::regex_is_match(patterns::NEW_ID, s) || outside::regex_is_match(patterns::OLD_ID, s)
}

/// Why no identifier was found.
#[derive(Debug)]
pub enum ArxivError {
    NotAnId { input: String },
    InvalidUrl { input: String },
    UnsupportedScheme { scheme: String },
    NoHost { input: String },
    ForeignHost { host: String },
    NoPath { input: String },
    EmptyPath,
    UnsupportedPath { kind: String },
    NoId,
    InvalidId { candidate: String },
}

/// Why no identifier was found, as [`ArxivError`].
pub enum Refusal {
    NotAnId { input: Seq<char> },
    InvalidUrl { input: Seq<char> },
    UnsupportedScheme { scheme: Seq<char> },
    NoHost { input: Seq<char> },
    ForeignHost { host: Seq<char> },
    NoPath { input: Seq<char> },
    EmptyPath,
    UnsupportedPath { kind: Seq<char> },
    NoId,
    InvalidId { candidate: Seq<char> },
}

impl View for ArxivError {
    type V = Refusal;

    open spec fn view(&self) -> Refusal {
        match self {
            ArxivError::NotAnId { input } => Refusal::NotAnId { input: input@ },
            ArxivError::InvalidUrl { input } => Refusal::InvalidUrl { input: input@ },
            ArxivError::UnsupportedScheme { scheme } => Refusal::UnsupportedScheme {
                scheme: scheme@,
            },
            ArxivError::NoHost { input } => Refusal::NoHost { input: input@ },
            ArxivError::ForeignHost { host } => Refusal::ForeignHost { host: host@ },
            ArxivError::NoPath { input } => Refusal::NoPath { input: input@ },
            ArxivError::EmptyPath => Refusal::EmptyPath,
            ArxivError::UnsupportedPath { kind } => Refusal::UnsupportedPath { kind: kind@ },
            ArxivError::NoId => Refusal::NoId,
            ArxivError::InvalidId { candidate } => Refusal::InvalidId { candidate: candidate@ },
        }
    }
}

/// A refusal in words.
pub open spec fn refusal_text(e: Refusal) -> Seq<char> {
    match e {
        Refusal::NotAnId { input } => "Cannot parse arXiv ID from '"@ + input
            + "'. Expected a URL like https://arxiv.org/abs/2301.00001 or a bare ID like 2301.00001"@,
        Refusal::InvalidUrl { input } => "Invalid URL: "@ + input,
        Refusal::UnsupportedScheme { scheme } => "Unsupported URL scheme '"@ + scheme
            + "': expected http or https"@,
        Refusal::NoHost { input } => "URL has no host: "@ + input,
        Refusal::ForeignHost { host } => "Not an arXiv URL: host is '"@ + host + "'"@,
        Refusal::NoPath { input } => "URL has no path: "@ + input,
        Refusal::EmptyPath =>
            "URL path is empty (expected /abs/, /pdf/, /e-print/, /html/, or /format/)"@,
        Refusal::UnsupportedPath { kind } => "Unsupported arXiv path '/"@ + kind
            + "/': expected one of abs, pdf, e-print, html, format"@,
        Refusal::NoId => "URL has no paper ID"@,
        Refusal::InvalidId { candidate } => "'"@ + candidate + "' doesn't look like an arXiv ID"@,
    }
}

/// One text between two others.
fn between(before: &str, middle: &str, after: &str) -> (r: String)
    ensures
        r@ == before@ + middle@ + after@,
{
    let mut r = before.to_owned();
    r.append(middle);
    r.append(after);
    r
}

impl ArxivError {
    /// The error in words.
    pub fn message(&self) -> (r: String)
        ensures
            r@ == refusal_text(self@),
    {
        match self {
            ArxivError::NotAnId { input } => between(
                "Cannot parse arXiv ID from '",
                input.as_str(),
                "'. Expected a URL like https://arxiv.org/abs/2301.00001 or a bare ID like 2301.00001",
            ),
            ArxivError::InvalidUrl { input } => {
                let mut r = "Invalid URL: ".to_owned();
                r.append(input.as_str());
                r
            },
            ArxivError::UnsupportedScheme { scheme } => between(
                "Unsupported URL scheme '",
                scheme.as_str(),
                "': expected http or https",
            ),
            ArxivError::NoHost { input } => {
                let mut r = "URL has no host: ".to_owned();
                r.append(input.as_str());
                r
            },
            ArxivError::ForeignHost { host } => between(
                "Not an arXiv URL: host is '",
                host.as_str(),
                "'",
            ),
            ArxivError::NoPath { input } => {
                let mut r = "URL has no path: ".to_owned();
                r.append(input.as_str());
                r
            },
            ArxivError::EmptyPath => {
                "URL path is empty (expected /abs/, /pdf/, /e-print/, /html/, or /format/)".to_owned()
            },
            ArxivError::UnsupportedPath { kind } => between(
                "Unsupported arXiv path '/",
                kind.as_str(),
                "/': expected one of abs, pdf, e-print, html, format",
            ),
            ArxivError::NoId => "URL has no paper ID".to_owned(),
            ArxivError::InvalidId { candidate } => between(
                "'",
                candidate.as_str(),
                "' doesn't look like an arXiv ID",
            ),
        }
    }
}

/// What a result stands for.
pub open spec fn result_view(r: Result<String, ArxivError>) -> Result<Seq<char>, Refusal> {
    match r {
        Ok(s) => Ok(s@),
        Err(e) => Err(e@),
    }
}

/// The first part of a path that leads to a paper.
pub open spec fn paper_kind(kind: Seq<char>) -> bool {
    kind == "abs"@ || kind == "pdf"@ || kind == "e-print"@ || kind == "html"@ || kind == "format"@
}

/// The segments that are not empty.
pub open spec fn filled(list: Seq<Seq<char>>) -> Seq<Seq<char>>
    decreases list.len(),
{
    if list.len() == 0 {
        list
    } else if list.last().len() == 0 {
        filled(list.drop_last())
    } else {
        filled(list.drop_last()).push(list.last())
    }
}

/// The text without `.pdf` at its end.
pub open spec fn without_pdf(s: Seq<char>) -> Seq<char> {
    if text::occurs_at(s, ".pdf"@, s.len() - ".pdf"@.len()) {
        s.take(s.len() - ".pdf"@.len())
    } else {
        s
    }
}

/// The identifier in the segments of a path.
pub open spec fn id_in_path(list: Seq<Seq<char>>) -> Result<Seq<char>, Refusal> {
    if list.len() == 0 {
        Err(Refusal::EmptyPath)
    } else if !paper_kind(list[0]) {
        Err(Refusal::UnsupportedPath { kind: list[0] })
    } else if list.len() == 1 {
        Err(Refusal::NoId)
    } else {
        let candidate = without_pdf(text::join(list.skip(1), "/"@));
        if valid_id(candidate) {
            Ok(candidate)
        } else {
            Err(Refusal::InvalidId { candidate })
        }
    }
}

/// The identifier in an address that was taken apart.
pub open spec fn id_in_parts(
    input: Seq<char>,
    parts: Option<(Seq<char>, Option<Seq<char>>, Option<Seq<Seq<char>>>)>,
) -> Result<Seq<char>, Refusal> {
    match parts {
        None => Err(Refusal::InvalidUrl { input }),
        Some((scheme, host, segments)) => if scheme != "http"@ && scheme != "https"@ {
            Err(Refusal::UnsupportedScheme { scheme })
        } else {
            match host {
                None => Err(Refusal::NoHost { input }),
                Some(host) => if !arxiv_host(host) {
                    Err(Refusal::ForeignHost { host })
                } else {
                    match segments {
                        None => Err(Refusal::NoPath { input }),
                        Some(list) => id_in_path(filled(list)),
                    }
                },
            }
        },
    }
}

/// The text without slashes at its end.
pub open spec fn without_slashes(s: Seq<char>) -> Seq<char>
    decreases s.len(),
{
    if s.len() > 0 && s.last() == '/' {
        without_slashes(s.drop_last())
    } else {
        s
    }
}

/// The text has a scheme, or starts with the host of arXiv.
pub open spec fn url_like(s: Seq<char>) -> bool {
    ||| text::occurs(s, "://"@)
    ||| text::occurs_at(text::ascii_lowercase(s), "arxiv.org/"@, 0)
    ||| text::occurs_at(text::ascii_lowercase(s), "www.arxiv.org/"@, 0)
}

/// The address that a text stands for: one without a scheme gets one.
pub open spec fn full_address(s: Seq<char>) -> Seq<char> {
    if text::occurs(s, "://"@) {
        s
    } else {
        "https://"@ + s
    }
}

/// The text without white space around it, and without slashes at its end.
pub open spec fn stripped(input: Seq<char>) -> Seq<char> {
    without_slashes(text::trim(input))
}

/// The identifier that a text names: by an address, or on its own.
pub open spec fn id_in(input: Seq<char>) -> Result<Seq<char>, Refusal> {
    let s = stripped(input);
    if url_like(s) {
        id_in_parts(s, outside::url_parsed(full_address(s)))
    } else if valid_id(s) {
        Ok(s)
    } else {
        Err(Refusal::NotAnId { input: s })
    }
}

// ---------------------------------------------------------------- code

/// The segments that are not empty.
fn keep_filled(list: &Vec<String>) -> (r: Vec<String>)
    ensures
        text::texts(r@) == filled(text::texts(list@)),
{
    let mut r: Vec<String> = Vec::new();
    let mut i: usize = 0;
    assert(text::texts(list@).take(0) =~= Seq::<Seq<char>>::empty());
    assert(text::texts(r@) =~= Seq::<Seq<char>>::empty());
    while i < list.len()
        invariant
            i <= list.len(),
            text::texts(r@) == filled(text::texts(list@).take(i as int)),
        decreases list.len() - i,
    {
        let ghost all = text::texts(list@);
        let ghost before = text::texts(r@);
        let s = list[i].as_str();
        assert(all.take(i + 1).drop_last() =~= all.take(i as int));
        assert(all.take(i + 1).last() == s@);
        if !s.is_empty() {
            r.push(s.to_owned());
            assert(text::texts(r@) =~= before.push(s@));
        }
        i += 1;
    }
    assert(text::texts(list@).take(i as int) =~= text::texts(list@));
    r
}

/// Does this part of a path lead to a paper?
fn is_paper_kind(kind: &str) -> (r: bool)
    ensures
        r == paper_kind(kind@),
{
    text::same(kind, "abs") || text::same(kind, "pdf") || text::same(kind, "e-print") || text::same(
        kind,
        "html",
    ) || text::same(kind, "format")
}

/// The text without `.pdf` at its end.
fn strip_pdf(s: &str) -> (r: &str)
    ensures
        r@ == without_pdf(s@),
{
    proof {
        reveal_strlit(".pdf");
    }
    if text::ends_with(s, ".pdf") {
        let n: usize = s.unicode_len() - 4;
        assert(s@.take(n as int) =~= s@.subrange(0, n as int));
        s.substring_char(0, n)
    } else {
        s
    }
}

/// The identifier in the segments of a path.
fn id_from_path(list: &Vec<String>) -> (r: Result<String, ArxivError>)
    ensures
        result_view(r) == id_in_path(text::texts(list@)),
        r matches Ok(id) ==> patterns::tight(id@),
{
    let ghost all = text::texts(list@);
    if list.len() == 0 {
        return Err(ArxivError::EmptyPath);
    }
    assert(all[0] == list@[0]@);
    if !is_paper_kind(list[0].as_str()) {
        return Err(ArxivError::UnsupportedPath { kind: list[0].clone() });
    }
    if list.len() == 1 {
        return Err(ArxivError::NoId);
    }
    let mut rest: Vec<String> = Vec::new();
    let mut i: usize = 1;
    while i < list.len()
        invariant
            1 <= i <= list.len(),
            all == text::texts(list@),
            text::texts(rest@) == all.subrange(1, i as int),
        decreases list.len() - i,
    {
        let ghost before = text::texts(rest@);
        let s = list[i].clone();
        let ghost x = s@;
        rest.push(s);
        assert(text::texts(rest@) =~= before.push(x));
        assert(all.subrange(1, i + 1) =~= all.subrange(1, i as int).push(all[i as int]));
        i += 1;
    }
    assert(all.subrange(1, i as int) =~= all.skip(1));
    let joined = text::joined(&rest, "/");
    let candidate = strip_pdf(joined.as_str());
    if id_is_valid(candidate) {
        Ok(candidate.to_owned())
    } else {
        Err(ArxivError::InvalidId { candidate: candidate.to_owned() })
    }
}

/// The identifier in an address that was taken apart; `input` is the address.
pub fn id_from_url(input: &str, parts: Option<UrlParts>) -> (r: Result<String, ArxivError>)
    ensures
        result_view(r) == id_in_parts(input@, parts_view(parts)),
        r matches Ok(id) ==> patterns::tight(id@),
{
    let url = match parts {
        Some(p) => p,
        None => {
            return Err(ArxivError::InvalidUrl { input: input.to_owned() });
        },
    };
    if !text::same(url.scheme.as_str(), "http") && !text::same(url.scheme.as_str(), "https") {
        return Err(ArxivError::UnsupportedScheme { scheme: url.scheme });
    }
    let host = match url.host {
        Some(host) => host,
        None => {
            return Err(ArxivError::NoHost { input: input.to_owned() });
        },
    };
    if !text::same(host.as_str(), "arxiv.org") && !text::same(host.as_str(), "www.arxiv.org") {
        return Err(ArxivError::ForeignHost { host });
    }
    match url.segments {
        Some(list) => id_from_path(&keep_filled(&list)),
        None => Err(ArxivError::NoPath { input: input.to_owned() }),
    }
}

/// Is this an address, and not a bare identifier?
pub fn looks_like_url(input: &str) -> (r: bool)
    ensures
        r == url_like(input@),
{
    if text::contains(input, "://") {
        return true;
    }
    let lower = text::lowercase(input);
    text::chars_occur_at(&lower, &text::chars_of("arxiv.org/"), 0) || text::chars_occur_at(
        &lower,
        &text::chars_of("www.arxiv.org/"),
        0,
    )
}

/// The address that a text stands for: one without a scheme gets one.
fn normalized(input: &str) -> (r: String)
    ensures
        r@ == full_address(input@),
{
    if text::contains(input, "://") {
        input.to_owned()
    } else {
        let mut r = "https://".to_owned();
        r.append(input);
        r
    }
}

/// The text without slashes at its end.
fn strip_slashes(s: &str) -> (r: &str)
    ensures
        r@ == without_slashes(s@),
{
    let cs = text::chars_of(s);
    let mut n: usize = cs.len();
    assert(s@.take(n as int) =~= s@);
    while n > 0 && cs[n - 1] == '/'
        invariant
            n <= cs.len(),
            cs@ == s@,
            without_slashes(s@) == without_slashes(s@.take(n as int)),
        decreases n,
    {
        assert(s@.take(n as int).drop_last() =~= s@.take(n - 1));
        n -= 1;
    }
    assert(s@.take(n as int) =~= s@.subrange(0, n as int));
    s.substring_char(0, n)
}

/// Parses the identifier out of an address.
fn parse_url(input: &str) -> (r: Result<String, ArxivError>)
    ensures
        result_view(r) == id_in_parts(input@, outside::url_parsed(full_address(input@))),
        r matches Ok(id) ==> patterns::tight(id@),
        forall|scheme: Seq<char>, host: Seq<char>, path: Seq<char>, tail: Seq<char>|
            full_address(input@) == #[trigger] address(scheme, host, path, tail) && plain_address(
                scheme,
                host,
                path,
                tail,
            ) && utf::bytes_of(full_address(input@)).len() < 0x4000_0000 ==> result_view(r)
                == id_in_parts(
                input@,
                Some(
                    (
                        text::ascii_lowercase(scheme),
                        Some(text::ascii_lowercase(host)),
                        Some(text::split_on(path, '/')),
                    ),
                ),
            ),
{
    let full = normalized(input);
    id_from_url(input, outside::url_parse(full.as_str()))
}

/// Parses the identifier of a paper out of an address or takes it as it is.
///
/// Accepted are addresses below `/abs/`, `/pdf/`, `/e-print/`, `/html/` and
/// `/format/`, with or without `.pdf` at the end, new identifiers such as
/// `2301.00001v2`, and old ones such as `math.GT/0309136v1`.
pub fn parse_id(input: &str) -> (r: Result<String, ArxivError>)
    ensures
        result_view(r) == id_in(input@),
        // A plain address at arXiv is judged by its parts.
        forall|scheme: Seq<char>, host: Seq<char>, path: Seq<char>, tail: Seq<char>|
            full_address(stripped(input@)) == #[trigger] address(scheme, host, path, tail)
                && plain_address(scheme, host, path, tail) && utf::bytes_of(
                full_address(stripped(input@)),
            ).len() < 0x4000_0000 ==> result_view(r) == id_in_parts(
                stripped(input@),
                Some(
                    (
                        text::ascii_lowercase(scheme),
                        Some(text::ascii_lowercase(host)),
                        Some(text::split_on(path, '/')),
                    ),
                ),
            ),
        // What was parsed once parses to itself, unless it reads like an address.
        r matches Ok(id) ==> (!url_like(id@) ==> id_in(id@) == Ok::<Seq<char>, Refusal>(id@)),
        // An address of a paper gives its identifier.
        forall|id: Seq<char>| #[trigger]
            arxiv_laws::names_paper(input@, id) && utf::bytes_of(input@).len() < 0x3000_0000
                ==> result_view(r) == Ok::<Seq<char>, Refusal>(id),
{
    let s = strip_slashes(text::trimmed(input));
    if looks_like_url(s) {
        let r = parse_url(s);
        proof {
            assert forall|id: Seq<char>| #[trigger]
                arxiv_laws::names_paper(input@, id) && utf::bytes_of(input@).len()
                    < 0x3000_0000 implies result_view(r) == Ok::<Seq<char>, Refusal>(id) by {
                let (scheme, host, path, tail) = arxiv_laws::lemma_paper(input@, id);
                assert(full_address(s@) == address(scheme, host, path, tail));
            }
            if r is Ok {
                arxiv_laws::lemma_parsed_again(input@, r->Ok_0@);
            }
        }
        return r;
    }
    proof {
        assert forall|id: Seq<char>| !(#[trigger] arxiv_laws::names_paper(input@, id)) by {
            if arxiv_laws::names_paper(input@, id) {
                let parts = arxiv_laws::lemma_paper(input@, id);
            }
        }
        assert forall|scheme: Seq<char>, host: Seq<char>, path: Seq<char>, tail: Seq<char>|
            full_address(s@) == #[trigger] address(scheme, host, path, tail) implies !plain_address(
            scheme,
            host,
            path,
            tail,
        ) by {
            if plain_address(scheme, host, path, tail) {
                arxiv_laws::lemma_address_is_url(s@, scheme, host, path, tail);
            }
        }
    }
    if id_is_valid(s) {
        proof {
            arxiv_laws::lemma_parsed_again(input@, s@);
        }
        Ok(s.to_owned())
    } else {
        Err(ArxivError::NotAnId { input: s.to_owned() })
    }
}

} // verus!
