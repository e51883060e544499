//! The addresses of papers, and the identifiers in them.

use crate::{arxiv, outside, patterns, text, utf};
use vstd::prelude::*;
use vstd::utf8::*;

verus! {

/// An address of a paper, put together from its parts.
pub open spec fn paper_address(
    front: Seq<char>,
    host: Seq<char>,
    path: Seq<char>,
    tail: Seq<char>,
) -> Seq<char> {
    front + host + "/"@ + path + tail
}

/// The path to a paper.
pub open spec fn paper_path(kind: Seq<char>, id: Seq<char>, ending: Seq<char>) -> Seq<char> {
    kind + "/"@ + id + ending
}

/// Nothing but slashes.
pub open spec fn slashes(s: Seq<char>) -> bool {
    forall|i: int| 0 <= i < s.len() ==> #[trigger] s[i] == '/'
}

/// The forms in which addresses of papers come: with either scheme or none, at
/// either host, in any case; to the abstract, the document and so on; with
/// `.pdf` or without it; with slashes, a query or a fragment behind it.
///
/// Without a scheme, nothing behind the path may look like one.
pub open spec fn paper_form(
    front: Seq<char>,
    host: Seq<char>,
    kind: Seq<char>,
    id: Seq<char>,
    ending: Seq<char>,
    tail: Seq<char>,
) -> bool {
    &&& text::ascii_lowercase(front) == "http://"@ || text::ascii_lowercase(front) == "https://"@
        || (front.len() == 0 && !text::occurs(tail, "://"@))
    &&& arxiv::arxiv_host(text::ascii_lowercase(host))
    &&& arxiv::paper_kind(kind)
    &&& patterns::new_style(id) || patterns::old_style(id)
    &&& ending == ""@ || ending == ".pdf"@
    &&& slashes(tail) || (tail.len() > 0 && (tail[0] == '?' || tail[0] == '#'))
}

/// The text is an address of the paper with that identifier.
pub open spec fn names_paper(input: Seq<char>, id: Seq<char>) -> bool {
    exists|front: Seq<char>, host: Seq<char>, kind: Seq<char>, ending: Seq<char>, tail: Seq<char>|
        input == #[trigger] paper_address(front, host, paper_path(kind, id, ending), tail)
            && paper_form(front, host, kind, id, ending, tail)
}

// ---------------------------------------------------------------- splitting

/// A text without the separator is one piece.
pub proof fn lemma_split_none(s: Seq<char>, sep: char)
    requires
        !s.contains(sep),
    ensures
        text::split_on(s, sep) == seq![s],
    decreases s.len(),
{
    if s.len() == 0 {
        assert(s =~= Seq::<char>::empty());
    } else {
        let t = s.drop_last();
        assert(s[s.len() - 1] == s.last());
        assert(!t.contains(sep)) by {
            if t.contains(sep) {
                let i = choose|i: int| 0 <= i < t.len() && t[i] == sep;
                assert(s[i] == sep);
            }
        }
        lemma_split_none(t, sep);
        assert(t.push(s.last()) =~= s);
        assert(text::split_on(s, sep) =~= seq![s]);
    }
}

/// A separator parts the pieces before it from the pieces behind it.
pub proof fn lemma_split_concat(a: Seq<char>, b: Seq<char>, sep: char)
    ensures
        text::split_on(a + seq![sep] + b, sep) == text::split_on(a, sep) + text::split_on(b, sep),
    decreases b.len(),
{
    let s = a + seq![sep] + b;
    text::lemma_split_nonempty(b, sep);
    if b.len() == 0 {
        assert(s.drop_last() =~= a);
        assert(s.last() == sep);
        assert(b =~= Seq::<char>::empty());
        assert(text::split_on(s, sep) =~= text::split_on(a, sep) + text::split_on(b, sep));
    } else {
        let c = b.drop_last();
        lemma_split_concat(a, c, sep);
        text::lemma_split_nonempty(c, sep);
        assert(s.drop_last() =~= a + seq![sep] + c);
        assert(s.last() == b.last());
        assert(text::split_on(s, sep) =~= text::split_on(a, sep) + text::split_on(b, sep));
    }
}

// ---------------------------------------------------------------- identifiers

/// An identifier starts with no dot, ends with a digit, and is made of plain
/// characters.
proof fn lemma_id(id: Seq<char>)
    requires
        patterns::new_style(id) || patterns::old_style(id),
    ensures
        id.len() > 8,
        id[0] != '.' && id[0] != '/',
        '0' <= id.last() <= '9',
        forall|i: int| 0 <= i < id.len() ==> arxiv::path_char(#[trigger] id[i]),
        is_ascii_chars(id),
{
    if patterns::new_style(id) {
        assert('0' <= id[0] <= '9');
        let n = if patterns::digits(id, 5, 9) && patterns::version(id, 9) {
            9int
        } else {
            10int
        };
        assert forall|i: int| 0 <= i < id.len() implies arxiv::path_char(#[trigger] id[i]) by {
            if i > n {
                assert('0' <= id[i] <= '9');
            }
        }
        lemma_version_end(id, n);
    } else {
        let (dot, slash) = choose|dot: int, slash: int| patterns::old_style_at(id, dot, slash);
        assert('a' <= id[0] <= 'z' || id[0] == '-');
        let n = slash + 8;
        assert forall|i: int| 0 <= i < id.len() implies arxiv::path_char(#[trigger] id[i]) by {
            if i > n {
                assert('0' <= id[i] <= '9');
            }
        }
        lemma_version_end(id, n);
    }
    assert forall|i: int| 0 <= i < id.len() implies '\0' <= #[trigger] id[i] <= '\u{7f}' by {
        assert(arxiv::path_char(id[i]));
    }
}

proof fn lemma_version_end(id: Seq<char>, n: int)
    requires
        0 < n <= id.len(),
        patterns::version(id, n),
        patterns::digits(id, n - 4, n),
        n >= 4,
    ensures
        '0' <= id.last() <= '9',
{
    if n == id.len() {
        assert('0' <= id[n - 1] <= '9');
    } else {
        assert('0' <= id[id.len() - 1] <= '9');
    }
}

/// No piece is empty or starts with a dot.
spec fn plain_pieces(pieces: Seq<Seq<char>>) -> bool {
    forall|i: int|
        0 <= i < pieces.len() ==> (#[trigger] pieces[i]).len() > 0 && pieces[i][0] != '.'
}

/// A new identifier holds no slash.
proof fn lemma_new_style_plain(id: Seq<char>)
    requires
        patterns::new_style(id),
    ensures
        !id.contains('/'),
{
    if id.contains('/') {
        let i = choose|i: int| 0 <= i < id.len() && id[i] == '/';
        let n = if patterns::digits(id, 5, 9) && patterns::version(id, 9) {
            9int
        } else {
            10int
        };
        if i > n {
            assert('0' <= id[i] <= '9');
        }
    }
}

/// An old identifier holds one slash, with a word before it and a digit behind it.
proof fn lemma_old_style_plain(id: Seq<char>, dot: int, slash: int)
    requires
        patterns::old_style_at(id, dot, slash),
    ensures
        0 < slash < slash + 1 < id.len(),
        id[slash] == '/',
        '0' <= id[slash + 1] <= '9',
        !id.take(slash).contains('/'),
        !id.skip(slash + 1).contains('/'),
{
    let a = id.take(slash);
    let b = id.skip(slash + 1);
    assert('0' <= id[slash + 1] <= '9');
    if a.contains('/') {
        let i = choose|i: int| 0 <= i < a.len() && a[i] == '/';
        assert(id[i] == '/');
    }
    if b.contains('/') {
        let i = choose|i: int| 0 <= i < b.len() && b[i] == '/';
        let k = i + slash + 1;
        assert(id[k] == '/');
        if k > slash + 8 {
            assert('0' <= id[k] <= '9');
        }
    }
}

/// An ending brings in no slash.
proof fn lemma_with_ending(s: Seq<char>, ending: Seq<char>)
    requires
        !s.contains('/'),
        ending == ""@ || ending == ".pdf"@,
    ensures
        !(s + ending).contains('/'),
{
    reveal_strlit("");
    reveal_strlit(".pdf");
    let x = s + ending;
    if x.contains('/') {
        let i = choose|i: int| 0 <= i < x.len() && x[i] == '/';
        if i < s.len() {
            assert(s[i] == '/');
        } else {
            assert(ending[i - s.len()] == '/');
        }
    }
}

/// The pieces of an identifier with its ending are plain and join to it.
proof fn lemma_id_pieces(id: Seq<char>, ending: Seq<char>)
    requires
        patterns::new_style(id) || patterns::old_style(id),
        ending == ""@ || ending == ".pdf"@,
    ensures
        text::split_on(id + ending, '/').len() > 0,
        plain_pieces(text::split_on(id + ending, '/')),
        text::join(text::split_on(id + ending, '/'), "/"@) == id + ending,
{
    reveal_strlit("/");
    assert("/"@ =~= seq!['/']);
    let x = id + ending;
    text::lemma_join_of_split(x, '/');
    lemma_id(id);
    if patterns::new_style(id) {
        lemma_new_style_plain(id);
        lemma_with_ending(id, ending);
        lemma_split_none(x, '/');
        assert(x[0] == id[0]);
    } else {
        let (dot, slash) = choose|dot: int, slash: int| patterns::old_style_at(id, dot, slash);
        lemma_old_style_plain(id, dot, slash);
        let a = id.take(slash);
        let b = id.skip(slash + 1) + ending;
        lemma_with_ending(id.skip(slash + 1), ending);
        assert(x =~= a + seq!['/'] + b);
        lemma_split_none(a, '/');
        lemma_split_none(b, '/');
        lemma_split_concat(a, b, '/');
        let pieces = text::split_on(x, '/');
        assert(pieces =~= seq![a, b]);
        assert(a[0] == id[0]);
        assert(b[0] == id[slash + 1]);
    }
}

proof fn lemma_filled_all(list: Seq<Seq<char>>)
    requires
        forall|i: int| 0 <= i < list.len() ==> (#[trigger] list[i]).len() > 0,
    ensures
        arxiv::filled(list) == list,
    decreases list.len(),
{
    if list.len() > 0 {
        let head = list.drop_last();
        assert forall|i: int| 0 <= i < head.len() implies (#[trigger] head[i]).len() > 0 by {
            assert(head[i] == list[i]);
        }
        lemma_filled_all(head);
        assert(list[list.len() - 1] == list.last());
        assert(head.push(list.last()) =~= list);
    }
}

/// The kinds of paths to papers are plain words.
proof fn lemma_kind(kind: Seq<char>)
    requires
        arxiv::paper_kind(kind),
    ensures
        kind.len() > 0,
        kind[0] != '.',
        !kind.contains('/'),
        forall|i: int| 0 <= i < kind.len() ==> arxiv::path_char(#[trigger] kind[i]),
{
    reveal_strlit("abs");
    reveal_strlit("pdf");
    reveal_strlit("e-print");
    reveal_strlit("html");
    reveal_strlit("format");
}

/// The path to a paper holds its identifier.
proof fn lemma_path(kind: Seq<char>, id: Seq<char>, ending: Seq<char>)
    requires
        arxiv::paper_kind(kind),
        patterns::new_style(id) || patterns::old_style(id),
        ending == ""@ || ending == ".pdf"@,
    ensures
        ({
            let path = paper_path(kind, id, ending);
            let pieces = text::split_on(path, '/');
            &&& forall|i: int| 0 <= i < path.len() ==> arxiv::path_char(#[trigger] path[i])
            &&& forall|i: int|
                0 <= i < pieces.len() ==> (#[trigger] pieces[i]) != "."@ && pieces[i] != ".."@
            &&& arxiv::id_in_path(arxiv::filled(pieces)) == Ok::<Seq<char>, arxiv::Refusal>(id)
            &&& path.len() > 0
            &&& path.last() != '/' && !text::white_space(path.last())
        }),
{
    reveal_strlit("");
    reveal_strlit(".");
    reveal_strlit("..");
    reveal_strlit(".pdf");
    reveal_strlit("/");
    assert("/"@ =~= seq!['/']);
    let path = paper_path(kind, id, ending);
    let x = id + ending;
    lemma_kind(kind);
    lemma_id(id);
    lemma_id_pieces(id, ending);
    assert(path =~= kind + seq!['/'] + x);
    lemma_split_none(kind, '/');
    lemma_split_concat(kind, x, '/');
    let rest = text::split_on(x, '/');
    let pieces = text::split_on(path, '/');
    assert(pieces == seq![kind] + rest);
    assert forall|i: int| 0 <= i < pieces.len() implies (#[trigger] pieces[i]).len() > 0
        && pieces[i][0] != '.' by {
        if i > 0 {
            assert(pieces[i] == rest[i - 1]);
        }
    }
    assert forall|i: int| 0 <= i < pieces.len() implies (#[trigger] pieces[i]) != "."@ && pieces[i]
        != ".."@ by {
        assert(pieces[i][0] != '.');
    }
    lemma_filled_all(pieces);
    assert(pieces.skip(1) =~= rest);
    // The ending goes, and nothing else does.
    if ending == ""@ {
        assert(x =~= id);
        if text::occurs_at(x, ".pdf"@, x.len() - 4) {
            assert(x.subrange(x.len() - 4, x.len() as int)[3] == ".pdf"@[3]);
        }
    } else {
        assert(x.subrange(x.len() - 4, x.len() as int) =~= ".pdf"@);
        assert(x.take(x.len() - 4) =~= id);
    }
    assert(arxiv::without_pdf(x) == id);
    assert forall|i: int| 0 <= i < path.len() implies arxiv::path_char(#[trigger] path[i]) by {
        if i < kind.len() {
            assert(path[i] == kind[i]);
        } else if i > kind.len() && i < kind.len() + 1 + id.len() {
            assert(path[i] == id[i - kind.len() - 1]);
        } else if i >= kind.len() + 1 + id.len() {
            assert(path[i] == ending[i - kind.len() - 1 - id.len()]);
        }
    }
    if ending == ""@ {
        assert(path.last() == id.last());
    } else {
        assert(path.last() == ending[3]);
    }
}

// ---------------------------------------------------------------- addresses

proof fn lemma_trim_end_keeps(q: Seq<char>, rest: Seq<char>)
    requires
        q.len() > 0,
        !text::white_space(q.last()),
    ensures
        text::trim_end(q + rest) == q + text::trim_end(rest),
    decreases rest.len(),
{
    if rest.len() == 0 {
        assert(q + rest =~= q);
        assert(q + text::trim_end(rest) =~= q);
    } else {
        assert((q + rest).last() == rest.last());
        assert((q + rest).drop_last() =~= q + rest.drop_last());
        lemma_trim_end_keeps(q, rest.drop_last());
    }
}

proof fn lemma_slashes_keep(q: Seq<char>, rest: Seq<char>)
    requires
        q.len() > 0,
        q.last() != '/',
    ensures
        arxiv::without_slashes(q + rest) == q + arxiv::without_slashes(rest),
        arxiv::without_slashes(rest).len() <= rest.len(),
        arxiv::without_slashes(rest) == rest.take(arxiv::without_slashes(rest).len() as int),
        slashes(rest) ==> arxiv::without_slashes(rest).len() == 0,
    decreases rest.len(),
{
    if rest.len() == 0 {
        assert(q + rest =~= q);
        assert(q + arxiv::without_slashes(rest) =~= q);
        assert(rest.take(0) =~= rest);
    } else {
        assert((q + rest).last() == rest.last());
        assert((q + rest).drop_last() =~= q + rest.drop_last());
        let head = rest.drop_last();
        lemma_slashes_keep(q, head);
        assert(rest[rest.len() - 1] == rest.last());
        if slashes(rest) {
            assert(slashes(head)) by {
                assert forall|i: int| 0 <= i < head.len() implies #[trigger] head[i] == '/' by {
                    assert(rest[i] == '/');
                }
            }
        }
        if rest.last() == '/' {
            let n = arxiv::without_slashes(head).len() as int;
            assert(rest.take(n) =~= head.take(n));
        } else {
            assert(rest.take(rest.len() as int) =~= rest);
        }
    }
}

/// What stripping leaves of an address: its parts, and the start of what follows
/// the path.
proof fn lemma_stripped(core: Seq<char>, tail: Seq<char>) -> (left: Seq<char>)
    requires
        core.len() > 0,
        !text::white_space(core[0]),
        !text::white_space(core.last()),
        core.last() != '/',
        slashes(tail) || (tail.len() > 0 && (tail[0] == '?' || tail[0] == '#')),
    ensures
        arxiv::without_slashes(text::trim(core + tail)) == core + left,
        arxiv::query_or_fragment(left),
        left.len() <= tail.len(),
        left == tail.take(left.len() as int),
{
    let input = core + tail;
    assert(input[0] == core[0]);
    assert(text::trim_start(input) == input);
    if slashes(tail) {
        if tail.len() > 0 {
            assert(input.last() == tail[tail.len() - 1]);
        } else {
            assert(input =~= core);
        }
        assert(text::trim(input) == input);
        lemma_slashes_keep(core, tail);
        let left = tail.take(0);
        assert(core + arxiv::without_slashes(tail) =~= core + left);
        left
    } else {
        let q = core.push(tail[0]);
        let rest = tail.skip(1);
        assert(input =~= q + rest);
        lemma_trim_end_keeps(q, rest);
        text::lemma_trim_end(rest);
        let kept = text::trim_end(rest);
        lemma_slashes_keep(q, kept);
        let last = arxiv::without_slashes(kept);
        let left = seq![tail[0]] + last;
        assert(q + last =~= core + left);
        assert(left =~= tail.take(left.len() as int));
        left
    }
}

/// A letter's lower case tells which letter it was, and nothing else turns into
/// another character.
proof fn lemma_lower_at(s: Seq<char>, t: Seq<char>, i: int)
    requires
        text::ascii_lowercase(s) == t,
        0 <= i < t.len(),
    ensures
        s.len() == t.len(),
        !('a' <= t[i] <= 'z') ==> s[i] == t[i],
        text::white_space(s[i]) ==> text::white_space(t[i]),
        s[i] == ':' ==> t[i] == ':',
{
    assert(text::ascii_lowercase(s)[i] == text::ascii_lower(s[i]));
}

/// The start of an address is a scheme, a colon and two slashes.
proof fn lemma_front(front: Seq<char>, t: Seq<char>) -> (scheme: Seq<char>)
    requires
        text::ascii_lowercase(front) == t,
        t == "http://"@ || t == "https://"@,
    ensures
        front == scheme + "://"@,
        text::ascii_lowercase(scheme) == "http"@ || text::ascii_lowercase(scheme) == "https"@,
        front.len() > 0,
        !text::white_space(front[0]),
{
    reveal_strlit("http://");
    reveal_strlit("https://");
    reveal_strlit("http");
    reveal_strlit("https");
    reveal_strlit("://");
    let n = t.len() - 3;
    let scheme = front.take(n);
    lemma_lower_at(front, t, 0);
    lemma_lower_at(front, t, n);
    lemma_lower_at(front, t, n + 1);
    lemma_lower_at(front, t, n + 2);
    assert(front =~= scheme + "://"@);
    if t == "http://"@ {
        assert(t.take(4) =~= "http"@);
    } else {
        assert(t.take(5) =~= "https"@);
    }
    assert(text::ascii_lowercase(scheme) =~= t.take(n));
    scheme
}

/// The host of arXiv holds no white space and no colon.
proof fn lemma_host(host: Seq<char>)
    requires
        arxiv::arxiv_host(text::ascii_lowercase(host)),
    ensures
        host.len() > 0,
        !text::white_space(host[0]),
        forall|i: int| 0 <= i < host.len() ==> #[trigger] host[i] != ':',
{
    reveal_strlit("arxiv.org");
    reveal_strlit("www.arxiv.org");
    let t = text::ascii_lowercase(host);
    lemma_lower_at(host, t, 0);
    assert forall|i: int| 0 <= i < host.len() implies #[trigger] host[i] != ':' by {
        lemma_lower_at(host, t, i);
    }
}

/// What is handed to the parser of addresses for an address of a paper, and what
/// is made of the outcome.
pub proof fn lemma_paper(input: Seq<char>, id: Seq<char>) -> (r: (
    Seq<char>,
    Seq<char>,
    Seq<char>,
    Seq<char>,
))
    requires
        names_paper(input, id),
    ensures
        ({
            let s = arxiv::stripped(input);
            let (scheme, host, path, tail) = r;
            &&& arxiv::url_like(s)
            &&& arxiv::full_address(s) == arxiv::address(scheme, host, path, tail)
            &&& arxiv::plain_address(scheme, host, path, tail)
            &&& utf::bytes_of(arxiv::full_address(s)).len() <= utf::bytes_of(input).len() + 8
            &&& arxiv::id_in_parts(
                s,
                Some(
                    (
                        text::ascii_lowercase(scheme),
                        Some(text::ascii_lowercase(host)),
                        Some(text::split_on(path, '/')),
                    ),
                ),
            ) == Ok::<Seq<char>, arxiv::Refusal>(id)
        }),
{
    reveal_strlit("/");
    reveal_strlit("://");
    reveal_strlit("http");
    reveal_strlit("https");
    reveal_strlit("http://");
    reveal_strlit("https://");
    let (front, host, kind, ending, tail) = choose|
        front: Seq<char>,
        host: Seq<char>,
        kind: Seq<char>,
        ending: Seq<char>,
        tail: Seq<char>,
    |
        input == #[trigger] paper_address(front, host, paper_path(kind, id, ending), tail)
            && paper_form(front, host, kind, id, ending, tail);
    let path = paper_path(kind, id, ending);
    lemma_path(kind, id, ending);
    lemma_host(host);
    let core = front + host + "/"@ + path;
    assert(core.last() == path.last());
    if front.len() > 0 {
        let scheme = lemma_front(front, text::ascii_lowercase(front));
        assert(core[0] == front[0]);
        let left = lemma_stripped(core, tail);
        let s = arxiv::stripped(input);
        assert(s =~= arxiv::address(scheme, host, path, left));
        assert(s.subrange(scheme.len() as int, scheme.len() as int + 3) =~= "://"@);
        assert(text::occurs_at(s, "://"@, scheme.len() as int));
        lemma_shorter(core, tail, left);
        (scheme, host, path, left)
    } else {
        assert(front + host =~= host);
        assert(text::ascii_lowercase(front).len() == 0);
        assert(!text::occurs(tail, "://"@));
        assert(core[0] == host[0]);
        let left = lemma_stripped(core, tail);
        let s = arxiv::stripped(input);
        assert(s == core + left);
        assert(!text::occurs(s, "://"@)) by {
            if text::occurs(s, "://"@) {
                let i = choose|i: int| text::occurs_at(s, "://"@, i);
                assert(s.subrange(i, i + 3)[0] == s[i]);
                assert(s[i] == ':');
                if i < host.len() {
                    assert(s[i] == host[i]);
                } else if i == host.len() {
                    assert(s[i] == '/');
                } else if i < core.len() {
                    assert(s[i] == path[i - host.len() - 1]);
                    assert(arxiv::path_char(path[i - host.len() - 1]));
                }
                assert(i >= core.len());
                let j = i - core.len();
                assert(tail.subrange(j, j + 3) =~= s.subrange(i, i + 3));
                assert(text::occurs_at(tail, "://"@, j));
                assert(text::occurs(tail, "://"@));
            }
        }
        let scheme = "https"@;
        assert("https://"@ =~= "https"@ + "://"@);
        assert(arxiv::full_address(s) =~= arxiv::address(scheme, host, path, left));
        assert(text::ascii_lowercase(scheme) =~= "https"@);
        // The host, in lower case, starts the text.
        let lower = text::ascii_lowercase(s);
        reveal_strlit("arxiv.org/");
        reveal_strlit("www.arxiv.org/");
        reveal_strlit("arxiv.org");
        reveal_strlit("www.arxiv.org");
        let t = text::ascii_lowercase(host);
        assert(lower.subrange(0, host.len() as int + 1) =~= t + "/"@);
        if t == "arxiv.org"@ {
            assert(t + "/"@ =~= "arxiv.org/"@);
            assert(text::occurs_at(lower, "arxiv.org/"@, 0));
        } else {
            assert(t + "/"@ =~= "www.arxiv.org/"@);
            assert(text::occurs_at(lower, "www.arxiv.org/"@, 0));
        }
        lemma_shorter(core, tail, left);
        utf::lemma_encode_concat("https://"@, s);
        is_ascii_chars_encode_utf8("https://"@);
        (scheme, host, path, left)
    }
}

/// Less of a text has fewer bytes.
proof fn lemma_shorter(core: Seq<char>, tail: Seq<char>, left: Seq<char>)
    requires
        left.len() <= tail.len(),
        left == tail.take(left.len() as int),
    ensures
        utf::bytes_of(core + left).len() <= utf::bytes_of(core + tail).len(),
{
    utf::lemma_encode_concat(core, left);
    utf::lemma_encode_concat(core, tail);
    utf::lemma_encode_concat(left, tail.skip(left.len() as int));
    assert(left + tail.skip(left.len() as int) =~= tail);
}

/// A bare identifier names itself, unless it reads like a path at arXiv's host.
pub proof fn bare_ids_name_themselves(id: Seq<char>)
    requires
        patterns::new_style(id) || patterns::old_style(id),
        !text::occurs_at(text::ascii_lowercase(id), "arxiv.org/"@, 0),
        !text::occurs_at(text::ascii_lowercase(id), "www.arxiv.org/"@, 0),
    ensures
        arxiv::id_in(id) == Ok::<Seq<char>, arxiv::Refusal>(id),
{
    lemma_id(id);
    assert(arxiv::path_char(id[0]));
    assert(!text::white_space(id[0]));
    assert(text::trim(id) == id);
    assert(arxiv::without_slashes(id) == id);
    if text::occurs(id, "://"@) {
        reveal_strlit("://");
        let i = choose|i: int| text::occurs_at(id, "://"@, i);
        assert(id.subrange(i, i + 3)[0] == id[i]);
        assert(arxiv::path_char(id[i]));
    }
}

/// An identifier that was accepted, and does not read like an address, names itself.
pub proof fn lemma_parsed_again(input: Seq<char>, id: Seq<char>)
    requires
        arxiv::id_in(input) == Ok::<Seq<char>, arxiv::Refusal>(id),
        patterns::tight(id),
    ensures
        !arxiv::url_like(id) ==> arxiv::id_in(id) == Ok::<Seq<char>, arxiv::Refusal>(id),
{
    assert(!text::white_space(id[0]));
    assert(!text::white_space(id[id.len() - 1]));
    assert(text::trim(id) == id);
}

/// A plain address, with its scheme or without it, reads like an address.
pub proof fn lemma_address_is_url(
    s: Seq<char>,
    scheme: Seq<char>,
    host: Seq<char>,
    path: Seq<char>,
    tail: Seq<char>,
)
    requires
        arxiv::full_address(s) == arxiv::address(scheme, host, path, tail),
        arxiv::plain_address(scheme, host, path, tail),
    ensures
        arxiv::url_like(s),
{
    if !text::occurs(s, "://"@) {
        reveal_strlit("/");
        reveal_strlit("://");
        reveal_strlit("http");
        reveal_strlit("https");
        reveal_strlit("https://");
        reveal_strlit("arxiv.org/");
        reveal_strlit("www.arxiv.org/");
        reveal_strlit("arxiv.org");
        reveal_strlit("www.arxiv.org");
        let full = arxiv::full_address(s);
        let t = text::ascii_lowercase(host);
        assert(full[4] == 's');
        assert(text::ascii_lowercase(scheme).len() == scheme.len());
        if scheme.len() == 4 {
            assert(full[4] == ':');
        }
        assert(s =~= full.skip(8));
        assert(s =~= host + "/"@ + path + tail);
        let lower = text::ascii_lowercase(s);
        assert(lower.subrange(0, host.len() as int + 1) =~= t + "/"@);
        if t == "arxiv.org"@ {
            assert(t + "/"@ =~= "arxiv.org/"@);
            assert(text::occurs_at(lower, "arxiv.org/"@, 0));
        } else {
            assert(t + "/"@ =~= "www.arxiv.org/"@);
            assert(text::occurs_at(lower, "www.arxiv.org/"@, 0));
        }
    }
}

/// Whatever is accepted is an identifier.
pub proof fn accepted_ids_are_valid(input: Seq<char>)
    ensures
        arxiv::id_in(input) matches Ok(id) ==> arxiv::valid_id(id),
{
}

/// An address is accepted only where it is one of arXiv's, spoken to over HTTP: a
/// host that merely looks alike is refused.
pub proof fn accepted_addresses_are_at_arxiv(input: Seq<char>)
    requires
        arxiv::id_in(input) is Ok,
        arxiv::url_like(arxiv::stripped(input)),
    ensures
        ({
            let s = arxiv::stripped(input);
            outside::url_parsed(arxiv::full_address(s)) matches Some((scheme, host, segments)) && {
                &&& scheme == "http"@ || scheme == "https"@
                &&& host matches Some(h) && arxiv::arxiv_host(h)
                &&& segments matches Some(list) && arxiv::filled(list).len() > 1
                    && arxiv::paper_kind(arxiv::filled(list)[0])
            }
        }),
{
}

} // verus!
