//! What replacing bibliographies rests on, and what it keeps.

use crate::latex::bibliography::FileAt;
use crate::latex::edits::EditAt;
use crate::latex::scan::CallAt;
use crate::latex::{bibliography, document, edits, scan};
use crate::utf;
use vstd::prelude::*;
use vstd::utf8::*;

verus! {

/// The two lists say the same of each of the names.
pub open spec fn agree(f: Seq<FileAt>, g: Seq<FileAt>, list: Seq<Seq<char>>) -> bool {
    forall|i: int|
        0 <= i < list.len() ==> bibliography::lookup(f, #[trigger] list[i])
            == bibliography::lookup(g, list[i])
}

proof fn lemma_wanted_by(list: Seq<Seq<char>>, n: int, k: int)
    requires
        0 <= k < n <= list.len(),
    ensures
        bibliography::wanted_by(list, n).len() == 2 * n,
        bibliography::wanted_by(list, n)[2 * k] == list[k] + ".bib"@,
        bibliography::wanted_by(list, n)[2 * k + 1] == list[k] + ".bbl"@,
    decreases n,
{
    lemma_wanted_by_len(list, n - 1);
    if k < n - 1 {
        lemma_wanted_by(list, n - 1, k);
    }
}

proof fn lemma_wanted_by_len(list: Seq<Seq<char>>, n: int)
    requires
        0 <= n <= list.len(),
    ensures
        bibliography::wanted_by(list, n).len() == 2 * n,
    decreases n,
{
    if n > 0 {
        lemma_wanted_by_len(list, n - 1);
    }
}

proof fn lemma_wanted_covers(active: Seq<u8>, calls: Seq<CallAt>, n: int, k: int, j: int)
    requires
        0 <= k < n <= calls.len(),
        0 <= j < bibliography::names(active, calls[k]).len(),
    ensures
        bibliography::wanted(active, calls, n).contains(
            bibliography::names(active, calls[k])[j] + ".bib"@,
        ),
        bibliography::wanted(active, calls, n).contains(
            bibliography::names(active, calls[k])[j] + ".bbl"@,
        ),
    decreases n,
{
    let before = bibliography::wanted(active, calls, n - 1);
    let list = bibliography::names(active, calls[n - 1]);
    let more = bibliography::wanted_by(list, list.len() as int);
    let all = bibliography::wanted(active, calls, n);
    assert(all == before + more);
    if k < n - 1 {
        lemma_wanted_covers(active, calls, n - 1, k, j);
        let x = bibliography::names(active, calls[k])[j];
        let a = choose|a: int| 0 <= a < before.len() && before[a] == x + ".bib"@;
        let c = choose|c: int| 0 <= c < before.len() && before[c] == x + ".bbl"@;
        assert(all[a] == x + ".bib"@);
        assert(all[c] == x + ".bbl"@);
    } else {
        lemma_wanted_by(list, list.len() as int, j);
        assert(all[before.len() + 2 * j] == list[j] + ".bib"@);
        assert(all[before.len() + 2 * j + 1] == list[j] + ".bbl"@);
    }
}

proof fn lemma_first_built(f: Seq<FileAt>, g: Seq<FileAt>, list: Seq<Seq<char>>, k: int)
    requires
        0 <= k,
        forall|j: int|
            0 <= j < list.len() ==> bibliography::lookup(f, #[trigger] list[j] + ".bbl"@)
                == bibliography::lookup(g, list[j] + ".bbl"@),
    ensures
        bibliography::first_built(f, list, k) == bibliography::first_built(g, list, k),
    decreases list.len() - k,
{
    if k < list.len() {
        lemma_first_built(f, g, list, k + 1);
        assert(bibliography::lookup(f, list[k] + ".bbl"@) == bibliography::lookup(
            g,
            list[k] + ".bbl"@,
        ));
    }
}

proof fn lemma_substitutions(
    active: Seq<u8>,
    calls: Seq<CallAt>,
    n: int,
    f: Seq<FileAt>,
    g: Seq<FileAt>,
    stem: Option<Seq<char>>,
    sibling: Option<FileAt>,
)
    requires
        0 <= n <= calls.len(),
        forall|k: int|
            0 <= k < calls.len() ==> bibliography::substitute(
                active,
                #[trigger] calls[k],
                f,
                stem,
                sibling,
            ) == bibliography::substitute(active, calls[k], g, stem, sibling),
    ensures
        bibliography::substitutions(active, calls, n, f, stem, sibling)
            == bibliography::substitutions(active, calls, n, g, stem, sibling),
    decreases n,
{
    if n > 0 {
        lemma_substitutions(active, calls, n - 1, f, g, stem, sibling);
        assert(bibliography::substitute(active, calls[n - 1], f, stem, sibling)
            == bibliography::substitute(active, calls[n - 1], g, stem, sibling));
    }
}

/// Only the presence of the wanted files matters: lists of existing files that
/// agree on those lead to the same outcome.
pub proof fn only_wanted_files_matter(
    content: Seq<char>,
    stem: Option<Seq<char>>,
    f: Seq<FileAt>,
    g: Seq<FileAt>,
    sibling: Option<FileAt>,
)
    requires
        agree(f, g, bibliography::wanted_files(content, stem)),
    ensures
        bibliography::bibliography_edits(content, stem, f, sibling)
            == bibliography::bibliography_edits(content, stem, g, sibling),
        bibliography::needs_outside(content, stem, f, sibling) == bibliography::needs_outside(
            content,
            stem,
            g,
            sibling,
        ),
{
    let active = scan::masked(utf::bytes_of(content));
    let calls = bibliography::bibliographies(content);
    let named = bibliography::wanted(active, calls, calls.len() as int);
    let all = bibliography::wanted_files(content, stem);
    if let Some(s) = stem {
        assert(all[all.len() - 1] == s + ".bbl"@);
    }
    assert forall|k: int| 0 <= k < calls.len() implies bibliography::substitute(
        active,
        #[trigger] calls[k],
        f,
        stem,
        sibling,
    ) == bibliography::substitute(active, calls[k], g, stem, sibling) by {
        let list = bibliography::names(active, calls[k]);
        assert forall|j: int| 0 <= j < list.len() implies bibliography::lookup(
            f,
            #[trigger] list[j] + ".bib"@,
        ) == bibliography::lookup(g, list[j] + ".bib"@) && bibliography::lookup(
            f,
            list[j] + ".bbl"@,
        ) == bibliography::lookup(g, list[j] + ".bbl"@) by {
            lemma_wanted_covers(active, calls, calls.len() as int, k, j);
            let a = choose|a: int| 0 <= a < named.len() && named[a] == list[j] + ".bib"@;
            let c = choose|c: int| 0 <= c < named.len() && named[c] == list[j] + ".bbl"@;
            assert(all[a] == named[a]);
            assert(all[c] == named[c]);
        }
        lemma_first_built(f, g, list, 0);
        if bibliography::source_missing(f, list) {
            let i = choose|i: int|
                0 <= i < list.len() && bibliography::lookup(f, #[trigger] list[i] + ".bib"@)
                    is None;
            assert(bibliography::lookup(g, list[i] + ".bib"@) is None);
        }
        if bibliography::source_missing(g, list) {
            let i = choose|i: int|
                0 <= i < list.len() && bibliography::lookup(g, #[trigger] list[i] + ".bib"@)
                    is None;
            assert(bibliography::lookup(f, list[i] + ".bib"@) is None);
        }
    }
    lemma_substitutions(active, calls, calls.len() as int, f, g, stem, sibling);
    if bibliography::needs_outside(content, stem, f, sibling) {
        let i = choose|i: int|
            0 <= i < calls.len() && (bibliography::substitute(
                active,
                #[trigger] calls[i],
                f,
                stem,
                sibling,
            ) matches Some(x) && x.input is None);
        assert(bibliography::substitute(active, calls[i], g, stem, sibling) matches Some(x)
            && x.input is None);
    }
    if bibliography::needs_outside(content, stem, g, sibling) {
        let i = choose|i: int|
            0 <= i < calls.len() && (bibliography::substitute(
                active,
                #[trigger] calls[i],
                g,
                stem,
                sibling,
            ) matches Some(x) && x.input is None);
        assert(bibliography::substitute(active, calls[i], f, stem, sibling) matches Some(x)
            && x.input is None);
    }
}

/// Each edit replaces a whole call.
proof fn lemma_edits_replace_calls(
    active: Seq<u8>,
    calls: Seq<CallAt>,
    n: int,
    f: Seq<FileAt>,
    stem: Option<Seq<char>>,
    sibling: Option<FileAt>,
)
    requires
        0 <= n <= calls.len(),
    ensures
        forall|k: int|
            0 <= k < bibliography::substitutions(active, calls, n, f, stem, sibling).len() ==> {
                let e = #[trigger] bibliography::substitutions(
                    active,
                    calls,
                    n,
                    f,
                    stem,
                    sibling,
                )[k];
                &&& valid_utf8(e.text)
                &&& exists|i: int|
                    0 <= i < n && (#[trigger] calls[i]).start == e.start && calls[i].end == e.end
                        && bibliography::source_missing(f, bibliography::names(active, calls[i]))
            },
    decreases n,
{
    if n > 0 {
        lemma_edits_replace_calls(active, calls, n - 1, f, stem, sibling);
        let before = bibliography::substitutions(active, calls, n - 1, f, stem, sibling);
        let all = bibliography::substitutions(active, calls, n, f, stem, sibling);
        let c = calls[n - 1];
        match bibliography::substitute(active, c, f, stem, sibling) {
            Some(file) => match file.input {
                Some(path) => {
                    encode_utf8_valid_utf8(bibliography::input_command(path));
                    let e = EditAt {
                        start: c.start,
                        end: c.end,
                        text: utf::bytes_of(bibliography::input_command(path)),
                    };
                    assert(all == before.push(e));
                    assert forall|k: int| 0 <= k < all.len() implies {
                        let e = #[trigger] all[k];
                        &&& valid_utf8(e.text)
                        &&& exists|i: int|
                            0 <= i < n && (#[trigger] calls[i]).start == e.start && calls[i].end
                                == e.end && bibliography::source_missing(
                                f,
                                bibliography::names(active, calls[i]),
                            )
                    } by {
                        if k < before.len() {
                            assert(all[k] == before[k]);
                        } else {
                            assert(calls[n - 1].start == all[k].start);
                        }
                    }
                },
                None => {
                    assert(all == before);
                },
            },
            None => {
                assert(all == before);
            },
        }
    }
}

/// A document all of whose bibliography sources are there is left alone.
pub proof fn present_sources_are_left_alone(
    content: Seq<char>,
    stem: Option<Seq<char>>,
    f: Seq<FileAt>,
    sibling: Option<FileAt>,
)
    requires
        forall|k: int|
            0 <= k < bibliography::bibliographies(content).len()
                ==> !bibliography::source_missing(
                f,
                bibliography::names(
                    scan::masked(utf::bytes_of(content)),
                    #[trigger] bibliography::bibliographies(content)[k],
                ),
            ),
    ensures
        bibliography::bibliography_edits(content, stem, f, sibling).len() == 0,
        !bibliography::needs_outside(content, stem, f, sibling),
{
    let active = scan::masked(utf::bytes_of(content));
    let calls = bibliography::bibliographies(content);
    lemma_edits_replace_calls(active, calls, calls.len() as int, f, stem, sibling);
    let list = bibliography::bibliography_edits(content, stem, f, sibling);
    if list.len() > 0 {
        let e = list[0];
        let i = choose|i: int|
            0 <= i < calls.len() && (#[trigger] calls[i]).start == e.start && calls[i].end == e.end
                && bibliography::source_missing(f, bibliography::names(active, calls[i]));
        assert(!bibliography::source_missing(f, bibliography::names(active, calls[i])));
    }
}

/// Where no call that is replaced runs into another, all can be replaced, and
/// each is replaced where it stands.
pub proof fn separate_bibliographies_fit(
    content: Seq<char>,
    stem: Option<Seq<char>>,
    f: Seq<FileAt>,
    sibling: Option<FileAt>,
)
    requires
        edits::apart(bibliography::bibliography_edits(content, stem, f, sibling)),
    ensures
        ({
            let b = utf::bytes_of(content);
            let list = bibliography::bibliography_edits(content, stem, f, sibling);
            edits::edits_fit(b, list) && edits::applied(b, list) == edits::spliced(b, list, 0)
        }),
{
    let b = utf::bytes_of(content);
    let active = scan::masked(b);
    let calls = bibliography::bibliographies(content);
    let list = bibliography::bibliography_edits(content, stem, f, sibling);
    encode_utf8_valid_utf8(content);
    reveal_strlit("\\bibliography");
    scan::lemma_calls_from(active, utf::bytes_of("\\bibliography"@), 0);
    lemma_edits_replace_calls(active, calls, calls.len() as int, f, stem, sibling);
    assert forall|k: int| 0 <= k < list.len() implies edits::edit_fits(b, #[trigger] list[k]) by {
        let e = list[k];
        let i = choose|i: int|
            0 <= i < calls.len() && (#[trigger] calls[i]).start == e.start && calls[i].end == e.end
                && bibliography::source_missing(f, bibliography::names(active, calls[i]));
        document::lemma_call_in_source(b, "\\bibliography"@, calls[i]);
    }
    edits::edits_apart_fit(b, list);
    if list.len() > 0 {
        assert(edits::edit_fits(b, list[0]));
        assert(edits::edit_fits(b, list[list.len() - 1]));
    }
    edits::edits_apart_are_spliced(b, list);
}

} // verus!
