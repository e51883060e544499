//! Which bibliographies are replaced, and by what.

use crate::latex::bibliography::FileAt;
use crate::latex::edits::EditAt;
use crate::latex::scan::CallAt;
use crate::latex::{bibliography, scan};
use crate::{text, utf};
use vstd::prelude::*;

verus! {

/// A file of that name exists.
pub open spec fn exists_as(found: Seq<FileAt>, name: Seq<char>) -> bool {
    exists|i: int| 0 <= i < found.len() && (#[trigger] found[i]).name == name
}

/// `f` is the first file of that name.
pub open spec fn first_as(found: Seq<FileAt>, name: Seq<char>, f: FileAt) -> bool {
    exists|m: int|
        {
            &&& 0 <= m < found.len()
            &&& #[trigger] found[m] == f
            &&& f.name == name
            &&& forall|j: int| 0 <= j < m ==> (#[trigger] found[j]).name != name
        }
}

proof fn lemma_lookup(found: Seq<FileAt>, name: Seq<char>, k: int)
    requires
        0 <= k <= found.len(),
    ensures
        match bibliography::lookup_from(found, name, k) {
            None => forall|i: int| k <= i < found.len() ==> (#[trigger] found[i]).name != name,
            Some(f) => exists|m: int|
                {
                    &&& k <= m < found.len()
                    &&& #[trigger] found[m] == f
                    &&& f.name == name
                    &&& forall|j: int| k <= j < m ==> (#[trigger] found[j]).name != name
                },
        },
    decreases found.len() - k,
{
    if k < found.len() {
        if found[k].name == name {
            assert(found[k].name == name);
        } else {
            lemma_lookup(found, name, k + 1);
        }
    }
}

/// Looking a file up finds the first of its name, and finds none where there is
/// none of that name.
pub proof fn files_are_found_by_name(found: Seq<FileAt>, name: Seq<char>, f: FileAt)
    ensures
        bibliography::lookup(found, name) is None <==> !exists_as(found, name),
        bibliography::lookup(found, name) == Some(f) <==> first_as(found, name, f),
{
    lemma_lookup(found, name, 0);
    if first_as(found, name, f) {
        let m = choose|m: int|
            {
                &&& 0 <= m < found.len()
                &&& #[trigger] found[m] == f
                &&& f.name == name
                &&& forall|j: int| 0 <= j < m ==> (#[trigger] found[j]).name != name
            };
        assert(found[m].name == name);
        let g = bibliography::lookup(found, name)->0;
        let n = choose|n: int|
            {
                &&& 0 <= n < found.len()
                &&& #[trigger] found[n] == g
                &&& g.name == name
                &&& forall|j: int| 0 <= j < n ==> (#[trigger] found[j]).name != name
            };
        assert(m == n) by {
            if m < n {
                assert(found[m].name != name);
            }
            if n < m {
                assert(found[n].name != name);
            }
        }
    }
}

/// The names in an argument: what stands between its commas, without the white
/// space around it, where there is more than that.
pub open spec fn listed(arg: Seq<char>) -> Seq<Seq<char>> {
    text::split_on(arg, ',').map_values(|p: Seq<char>| text::trim(p)).filter(
        |n: Seq<char>| n.len() > 0,
    )
}

proof fn lemma_filled(pieces: Seq<Seq<char>>)
    ensures
        bibliography::filled(pieces) == pieces.map_values(|p: Seq<char>| text::trim(p)).filter(
            |n: Seq<char>| n.len() > 0,
        ),
    decreases pieces.len(),
{
    reveal(Seq::filter);
    let mapped = pieces.map_values(|p: Seq<char>| text::trim(p));
    if pieces.len() > 0 {
        lemma_filled(pieces.drop_last());
        assert(mapped.drop_last() =~= pieces.drop_last().map_values(
            |p: Seq<char>| text::trim(p),
        ));
        assert(mapped.last() == text::trim(pieces.last()));
    } else {
        assert(mapped =~= pieces);
    }
}

/// A call names what is listed in its argument.
pub proof fn calls_name_what_they_list(active: Seq<u8>, c: CallAt)
    ensures
        bibliography::names(active, c) == listed(
            utf::text_of(active.subrange(c.arg_start, c.arg_end)),
        ),
{
    lemma_filled(text::split_on(utf::text_of(active.subrange(c.arg_start, c.arg_end)), ','));
}

/// The source of at least one of the names does not exist.
pub open spec fn lacks_source(found: Seq<FileAt>, list: Seq<Seq<char>>) -> bool {
    exists|i: int|
        0 <= i < list.len() && !exists_as(found, (#[trigger] list[i]) + ".bib"@)
}

/// `f` is the prebuilt form of name number `i`, and the names before it have none.
pub open spec fn form_of_name(
    found: Seq<FileAt>,
    list: Seq<Seq<char>>,
    i: int,
    f: FileAt,
) -> bool {
    &&& 0 <= i < list.len()
    &&& first_as(found, list[i] + ".bbl"@, f)
    &&& forall|j: int| 0 <= j < i ==> !exists_as(found, (#[trigger] list[j]) + ".bbl"@)
}

/// None of the names has a prebuilt form.
pub open spec fn no_name_has_a_form(found: Seq<FileAt>, list: Seq<Seq<char>>) -> bool {
    forall|j: int| 0 <= j < list.len() ==> !exists_as(found, (#[trigger] list[j]) + ".bbl"@)
}

/// `f` is the prebuilt form to use: that of the first name that has one; else that
/// of the main file, below the source root; else the one beside the main file.
pub open spec fn form_to_use(
    found: Seq<FileAt>,
    list: Seq<Seq<char>>,
    stem: Option<Seq<char>>,
    sibling: Option<FileAt>,
    f: FileAt,
) -> bool {
    ||| exists|i: int| form_of_name(found, list, i, f)
    ||| no_name_has_a_form(found, list) && (stem matches Some(s) && first_as(
        found,
        s + ".bbl"@,
        f,
    ))
    ||| no_name_has_a_form(found, list) && (stem matches Some(s) ==> !exists_as(
        found,
        s + ".bbl"@,
    )) && sibling == Some(f)
}

proof fn lemma_missing(found: Seq<FileAt>, list: Seq<Seq<char>>)
    ensures
        bibliography::source_missing(found, list) == lacks_source(found, list),
{
    assert forall|n: Seq<char>| #[trigger] bibliography::lookup(found, n) is None
        <==> !exists_as(found, n) by {
        lemma_lookup(found, n, 0);
    }
    if bibliography::source_missing(found, list) {
        let i = choose|i: int|
            0 <= i < list.len() && bibliography::lookup(found, #[trigger] list[i] + ".bib"@)
                is None;
        assert(!exists_as(found, list[i] + ".bib"@));
    }
    if lacks_source(found, list) {
        let i = choose|i: int|
            0 <= i < list.len() && !exists_as(found, (#[trigger] list[i]) + ".bib"@);
        assert(bibliography::lookup(found, list[i] + ".bib"@) is None);
    }
}

proof fn lemma_first_built(found: Seq<FileAt>, list: Seq<Seq<char>>, k: int)
    requires
        0 <= k <= list.len(),
        forall|j: int| 0 <= j < k ==> !exists_as(found, (#[trigger] list[j]) + ".bbl"@),
    ensures
        match bibliography::first_built(found, list, k) {
            Some(f) => exists|i: int| form_of_name(found, list, i, f),
            None => no_name_has_a_form(found, list),
        },
    decreases list.len() - k,
{
    if k < list.len() {
        let name = list[k] + ".bbl"@;
        match bibliography::lookup(found, name) {
            Some(f) => {
                files_are_found_by_name(found, name, f);
                assert(form_of_name(found, list, k, f));
            },
            None => {
                lemma_lookup(found, name, 0);
                assert(!exists_as(found, name));
                lemma_first_built(found, list, k + 1);
            },
        }
    }
}

proof fn lemma_same_form(
    found: Seq<FileAt>,
    list: Seq<Seq<char>>,
    stem: Option<Seq<char>>,
    sibling: Option<FileAt>,
    f: FileAt,
    g: FileAt,
)
    requires
        form_to_use(found, list, stem, sibling, f),
        form_to_use(found, list, stem, sibling, g),
    ensures
        f == g,
{
    assert forall|n: Seq<char>, x: FileAt| #[trigger] first_as(found, n, x) implies exists_as(
        found,
        n,
    ) && bibliography::lookup(found, n) == Some(x) by {
        files_are_found_by_name(found, n, x);
    }
    if exists|i: int| form_of_name(found, list, i, f) {
        let i = choose|i: int| form_of_name(found, list, i, f);
        assert(exists_as(found, list[i] + ".bbl"@));
        assert(!no_name_has_a_form(found, list));
        let j = choose|j: int| form_of_name(found, list, j, g);
        assert(exists_as(found, list[j] + ".bbl"@));
        assert(i == j);
    } else if exists|i: int| form_of_name(found, list, i, g) {
        let i = choose|i: int| form_of_name(found, list, i, g);
        assert(exists_as(found, list[i] + ".bbl"@));
        assert(!no_name_has_a_form(found, list));
    }
}

/// A call is replaced as soon as one of its sources is missing and there is a
/// prebuilt form, and then by the form to use; otherwise it is not replaced.
pub proof fn calls_without_a_source_are_replaced(
    active: Seq<u8>,
    c: CallAt,
    found: Seq<FileAt>,
    stem: Option<Seq<char>>,
    sibling: Option<FileAt>,
    f: FileAt,
)
    ensures
        ({
            let list = listed(utf::text_of(active.subrange(c.arg_start, c.arg_end)));
            bibliography::substitute(active, c, found, stem, sibling) == Some(f) <==> lacks_source(
                found,
                list,
            ) && form_to_use(found, list, stem, sibling, f)
        }),
{
    let list = listed(utf::text_of(active.subrange(c.arg_start, c.arg_end)));
    calls_name_what_they_list(active, c);
    lemma_missing(found, list);
    lemma_first_built(found, list, 0);
    if let Some(s) = stem {
        lemma_lookup(found, s + ".bbl"@, 0);
        if let Some(x) = bibliography::lookup(found, s + ".bbl"@) {
            files_are_found_by_name(found, s + ".bbl"@, x);
            lemma_exists(found, s + ".bbl"@, x);
        }
    }
    if let Some(x) = bibliography::built(found, list, stem, sibling) {
        assert(form_to_use(found, list, stem, sibling, x));
        if form_to_use(found, list, stem, sibling, f) {
            lemma_same_form(found, list, stem, sibling, f, x);
        }
    } else {
        if exists|i: int| form_of_name(found, list, i, f) {
            let i = choose|i: int| form_of_name(found, list, i, f);
            lemma_exists(found, list[i] + ".bbl"@, f);
            assert(!no_name_has_a_form(found, list));
        } else if form_to_use(found, list, stem, sibling, f) && stem is Some {
            if first_as(found, stem->0 + ".bbl"@, f) {
                lemma_exists(found, stem->0 + ".bbl"@, f);
            }
        }
    }
}

proof fn lemma_exists(found: Seq<FileAt>, name: Seq<char>, f: FileAt)
    requires
        first_as(found, name, f),
    ensures
        exists_as(found, name),
{
    let m = choose|m: int|
        {
            &&& 0 <= m < found.len()
            &&& #[trigger] found[m] == f
            &&& f.name == name
            &&& forall|j: int| 0 <= j < m ==> (#[trigger] found[j]).name != name
        };
    assert(found[m].name == name);
}

/// The edit that puts the command to read a file in the place of a call.
pub open spec fn reads_instead(c: CallAt, path: Seq<char>) -> EditAt {
    EditAt { start: c.start, end: c.end, text: utf::bytes_of("\\input{"@ + path + "}"@) }
}

proof fn lemma_edit_made(
    active: Seq<u8>,
    calls: Seq<CallAt>,
    n: int,
    k: int,
    found: Seq<FileAt>,
    stem: Option<Seq<char>>,
    sibling: Option<FileAt>,
    f: FileAt,
)
    requires
        0 <= k < n <= calls.len(),
        bibliography::substitute(active, calls[k], found, stem, sibling) == Some(f),
        f.input is Some,
    ensures
        bibliography::substitutions(active, calls, n, found, stem, sibling).contains(
            reads_instead(calls[k], f.input->0),
        ),
    decreases n,
{
    let before = bibliography::substitutions(active, calls, n - 1, found, stem, sibling);
    let all = bibliography::substitutions(active, calls, n, found, stem, sibling);
    let e = reads_instead(calls[k], f.input->0);
    if k == n - 1 {
        assert(all == before.push(e));
        assert(all[before.len() as int] == e);
    } else {
        lemma_edit_made(active, calls, n - 1, k, found, stem, sibling, f);
        let m = choose|m: int| 0 <= m < before.len() && before[m] == e;
        assert(all[m] == e);
    }
}

proof fn lemma_edit_owed(
    active: Seq<u8>,
    calls: Seq<CallAt>,
    n: int,
    m: int,
    found: Seq<FileAt>,
    stem: Option<Seq<char>>,
    sibling: Option<FileAt>,
)
    requires
        0 <= n <= calls.len(),
        0 <= m < bibliography::substitutions(active, calls, n, found, stem, sibling).len(),
    ensures
        exists|k: int, f: FileAt|
            0 <= k < n && #[trigger] bibliography::substitute(
                active,
                calls[k],
                found,
                stem,
                sibling,
            ) == Some(f) && f.input is Some && bibliography::substitutions(
                active,
                calls,
                n,
                found,
                stem,
                sibling,
            )[m] == #[trigger] reads_instead(calls[k], f.input->0),
    decreases n,
{
    let before = bibliography::substitutions(active, calls, n - 1, found, stem, sibling);
    let all = bibliography::substitutions(active, calls, n, found, stem, sibling);
    if m < before.len() {
        lemma_edit_owed(active, calls, n - 1, m, found, stem, sibling);
        let (k, f) = choose|k: int, f: FileAt|
            0 <= k < n - 1 && #[trigger] bibliography::substitute(
                active,
                calls[k],
                found,
                stem,
                sibling,
            ) == Some(f) && f.input is Some && before[m] == #[trigger] reads_instead(
                calls[k],
                f.input->0,
            );
        assert(all[m] == before[m]);
        assert(bibliography::substitute(active, calls[k], found, stem, sibling) == Some(f));
        assert(all[m] == reads_instead(calls[k], f.input->0));
    } else {
        let f = bibliography::substitute(active, calls[n - 1], found, stem, sibling)->0;
        assert(all == before.push(reads_instead(calls[n - 1], f.input->0)));
        assert(bibliography::substitute(active, calls[n - 1], found, stem, sibling) == Some(f));
        assert(all[m] == reads_instead(calls[n - 1], f.input->0));
    }
}

/// The names that call number `k` of `\bibliography`, outside of comments, lists.
pub open spec fn listed_by(content: Seq<char>, k: int) -> Seq<Seq<char>> {
    let active = scan::masked(utf::bytes_of(content));
    let c = scan::calls(active, utf::bytes_of("\\bibliography"@))[k];
    listed(utf::text_of(active.subrange(c.arg_start, c.arg_end)))
}

/// Each call of `\bibliography` that lacks a source is replaced, where a prebuilt
/// form is there, by the command that reads it.
pub proof fn missing_sources_are_replaced(
    content: Seq<char>,
    k: int,
    found: Seq<FileAt>,
    stem: Option<Seq<char>>,
    sibling: Option<FileAt>,
    f: FileAt,
)
    requires
        0 <= k < scan::calls(
            scan::masked(utf::bytes_of(content)),
            utf::bytes_of("\\bibliography"@),
        ).len(),
        lacks_source(found, listed_by(content, k)),
        form_to_use(found, listed_by(content, k), stem, sibling, f),
    ensures
        match f.input {
            Some(path) => bibliography::bibliography_edits(
                content,
                stem,
                found,
                sibling,
            ).contains(
                reads_instead(
                    scan::calls(
                        scan::masked(utf::bytes_of(content)),
                        utf::bytes_of("\\bibliography"@),
                    )[k],
                    path,
                ),
            ),
            None => bibliography::needs_outside(content, stem, found, sibling),
        },
{
    let active = scan::masked(utf::bytes_of(content));
    let calls = scan::calls(active, utf::bytes_of("\\bibliography"@));
    calls_without_a_source_are_replaced(active, calls[k], found, stem, sibling, f);
    if f.input is Some {
        lemma_edit_made(active, calls, calls.len() as int, k, found, stem, sibling, f);
    }
}

/// Nothing else is replaced: each edit puts the form to use in the place of a call
/// that lacks a source.
pub proof fn only_missing_sources_are_replaced(
    content: Seq<char>,
    m: int,
    found: Seq<FileAt>,
    stem: Option<Seq<char>>,
    sibling: Option<FileAt>,
)
    requires
        0 <= m < bibliography::bibliography_edits(content, stem, found, sibling).len(),
    ensures
        exists|k: int, f: FileAt|
            {
                let calls = scan::calls(
                    scan::masked(utf::bytes_of(content)),
                    utf::bytes_of("\\bibliography"@),
                );
                &&& 0 <= k < calls.len()
                &&& lacks_source(found, listed_by(content, k))
                &&& #[trigger] form_to_use(found, listed_by(content, k), stem, sibling, f)
                &&& f.input is Some
                &&& bibliography::bibliography_edits(content, stem, found, sibling)[m]
                    == reads_instead(calls[k], f.input->0)
            },
{
    let active = scan::masked(utf::bytes_of(content));
    let calls = scan::calls(active, utf::bytes_of("\\bibliography"@));
    let all = bibliography::bibliography_edits(content, stem, found, sibling);
    lemma_edit_owed(active, calls, calls.len() as int, m, found, stem, sibling);
    let (k, f) = choose|k: int, f: FileAt|
        0 <= k < calls.len() && #[trigger] bibliography::substitute(
            active,
            calls[k],
            found,
            stem,
            sibling,
        ) == Some(f) && f.input is Some && all[m] == #[trigger] reads_instead(
            calls[k],
            f.input->0,
        );
    calls_without_a_source_are_replaced(active, calls[k], found, stem, sibling, f);
    assert(form_to_use(found, listed_by(content, k), stem, sibling, f));
}

/// A prebuilt form outside of the source root is needed only by a call that lacks a
/// source and has that form to use.
pub proof fn only_used_forms_are_needed(
    content: Seq<char>,
    found: Seq<FileAt>,
    stem: Option<Seq<char>>,
    sibling: Option<FileAt>,
)
    requires
        bibliography::needs_outside(content, stem, found, sibling),
    ensures
        exists|k: int, f: FileAt|
            {
                &&& 0 <= k < scan::calls(
                    scan::masked(utf::bytes_of(content)),
                    utf::bytes_of("\\bibliography"@),
                ).len()
                &&& lacks_source(found, listed_by(content, k))
                &&& #[trigger] form_to_use(found, listed_by(content, k), stem, sibling, f)
                &&& f.input is None
            },
{
    let active = scan::masked(utf::bytes_of(content));
    let calls = scan::calls(active, utf::bytes_of("\\bibliography"@));
    let k = choose|k: int|
        0 <= k < calls.len() && (bibliography::substitute(
            active,
            #[trigger] calls[k],
            found,
            stem,
            sibling,
        ) matches Some(f) && f.input is None);
    let f = bibliography::substitute(active, calls[k], found, stem, sibling)->0;
    calls_without_a_source_are_replaced(active, calls[k], found, stem, sibling, f);
    assert(form_to_use(found, listed_by(content, k), stem, sibling, f));
}

proof fn lemma_starts(
    active: Seq<u8>,
    calls: Seq<CallAt>,
    n: int,
    found: Seq<FileAt>,
    stem: Option<Seq<char>>,
    sibling: Option<FileAt>,
)
    requires
        0 <= n <= calls.len(),
        forall|k: int, l: int|
            0 <= k < l < calls.len() ==> (#[trigger] calls[k]).start < (#[trigger] calls[l]).start,
    ensures
        ({
            let all = bibliography::substitutions(active, calls, n, found, stem, sibling);
            &&& forall|k: int, l: int|
                0 <= k < l < all.len() ==> (#[trigger] all[k]).start < (#[trigger] all[l]).start
            &&& forall|k: int|
                0 <= k < all.len() ==> n > 0 && (#[trigger] all[k]).start <= calls[n - 1].start
        }),
    decreases n,
{
    if n > 0 {
        lemma_starts(active, calls, n - 1, found, stem, sibling);
        let before = bibliography::substitutions(active, calls, n - 1, found, stem, sibling);
        let all = bibliography::substitutions(active, calls, n, found, stem, sibling);
        assert forall|k: int| 0 <= k < before.len() implies (#[trigger] before[k]).start
            < calls[n - 1].start by {
            assert(before[k].start <= calls[n - 2].start);
        }
        assert forall|k: int| 0 <= k < all.len() implies (#[trigger] all[k]).start
            <= calls[n - 1].start by {
            if k < before.len() {
                assert(all[k] == before[k]);
            }
        }
        assert forall|k: int, l: int| 0 <= k < l < all.len() implies (#[trigger] all[k]).start < (
        #[trigger] all[l]).start by {
            assert(all[k] == before[k]);
            if l < before.len() {
                assert(all[l] == before[l]);
            }
        }
    }
}

/// Each call is replaced once, in the order of the text.
pub proof fn calls_are_replaced_once(
    content: Seq<char>,
    found: Seq<FileAt>,
    stem: Option<Seq<char>>,
    sibling: Option<FileAt>,
    k: int,
    l: int,
)
    requires
        0 <= k < l < bibliography::bibliography_edits(content, stem, found, sibling).len(),
    ensures
        bibliography::bibliography_edits(content, stem, found, sibling)[k].start
            < bibliography::bibliography_edits(content, stem, found, sibling)[l].start,
{
    let active = scan::masked(utf::bytes_of(content));
    let command = utf::bytes_of("\\bibliography"@);
    let calls = scan::calls(active, command);
    scan::lemma_calls_from(active, command, 0);
    reveal_strlit("\\bibliography");
    utf::lemma_nonempty("\\bibliography"@);
    lemma_starts(active, calls, calls.len() as int, found, stem, sibling);
}

} // verus!
