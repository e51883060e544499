//! Bibliographies that come as a prebuilt `.bbl` only.

use crate::latex::edits::{Edit, EditAt};
use crate::latex::scan::{Call, CallAt};
use crate::latex::{cjk, edits, scan};
use crate::{text, utf};
use vstd::prelude::*;
use vstd::utf8::*;

verus! {

/// A file that exists: its name as a document or the library gives it, and its
/// path below the source root. There is no such path where it lies elsewhere.
pub struct Found {
    pub name: String,
    pub input: Option<String>,
}

/// A file that exists, as [`Found`].
pub struct FileAt {
    pub name: Seq<char>,
    pub input: Option<Seq<char>>,
}

impl View for Found {
    type V = FileAt;

    open spec fn view(&self) -> FileAt {
        FileAt { name: self.name@, input: text::optional(self.input) }
    }
}

/// What a list of files stands for.
pub open spec fn file_views(v: Seq<Found>) -> Seq<FileAt> {
    v.map_values(|f: Found| f@)
}

/// Why a bibliography was not put in.
#[derive(Clone, Copy, Debug, PartialEq, Eq, Structural)]
pub enum BibliographyError {
    OutsideSource,
    Overlapping,
}

impl BibliographyError {
    /// The error in words.
    pub fn message(self) -> (r: &'static str)
        ensures
            r@ == self.text(),
    {
        match self {
            BibliographyError::OutsideSource => "bibliography is outside the source directory",
            BibliographyError::Overlapping => "bibliography commands overlap",
        }
    }

    pub open spec fn text(self) -> Seq<char> {
        match self {
            BibliographyError::OutsideSource => "bibliography is outside the source directory"@,
            BibliographyError::Overlapping => "bibliography commands overlap"@,
        }
    }
}

/// The pieces that hold more than white space, without the white space around them.
pub open spec fn filled(pieces: Seq<Seq<char>>) -> Seq<Seq<char>>
    decreases pieces.len(),
{
    if pieces.len() == 0 {
        pieces
    } else {
        let before = filled(pieces.drop_last());
        let last = text::trim(pieces.last());
        if last.len() == 0 {
            before
        } else {
            before.push(last)
        }
    }
}

/// The bibliographies that a call names.
pub open spec fn names(active: Seq<u8>, c: CallAt) -> Seq<Seq<char>> {
    filled(text::split_on(cjk::argument(active, c), ','))
}

/// The first file of that name, from number `k` on.
pub open spec fn lookup_from(found: Seq<FileAt>, name: Seq<char>, k: int) -> Option<FileAt>
    decreases found.len() - k,
{
    if k >= found.len() {
        None
    } else if found[k].name == name {
        Some(found[k])
    } else {
        lookup_from(found, name, k + 1)
    }
}

/// The first file of that name.
pub open spec fn lookup(found: Seq<FileAt>, name: Seq<char>) -> Option<FileAt> {
    lookup_from(found, name, 0)
}

/// The source of one of the bibliographies is missing.
pub open spec fn source_missing(found: Seq<FileAt>, list: Seq<Seq<char>>) -> bool {
    exists|i: int| 0 <= i < list.len() && lookup(found, #[trigger] list[i] + ".bib"@) is None
}

/// The prebuilt form of the first name, from number `k` on, that has one.
pub open spec fn first_built(found: Seq<FileAt>, list: Seq<Seq<char>>, k: int) -> Option<FileAt>
    decreases list.len() - k,
{
    if k >= list.len() {
        None
    } else if lookup(found, list[k] + ".bbl"@) is Some {
        lookup(found, list[k] + ".bbl"@)
    } else {
        first_built(found, list, k + 1)
    }
}

/// The prebuilt form that the main file's own name gives, in the source root.
pub open spec fn stem_built(found: Seq<FileAt>, stem: Option<Seq<char>>) -> Option<FileAt> {
    match stem {
        Some(s) => lookup(found, s + ".bbl"@),
        None => None,
    }
}

/// The prebuilt form to use: that of a name, else the main file's in the source
/// root, else the one beside the main file.
pub open spec fn built(
    found: Seq<FileAt>,
    list: Seq<Seq<char>>,
    stem: Option<Seq<char>>,
    sibling: Option<FileAt>,
) -> Option<FileAt> {
    if first_built(found, list, 0) is Some {
        first_built(found, list, 0)
    } else if stem_built(found, stem) is Some {
        stem_built(found, stem)
    } else {
        sibling
    }
}

/// The prebuilt form that takes the place of a call: none where all sources are
/// there, or no prebuilt form is.
pub open spec fn substitute(
    active: Seq<u8>,
    c: CallAt,
    found: Seq<FileAt>,
    stem: Option<Seq<char>>,
    sibling: Option<FileAt>,
) -> Option<FileAt> {
    let list = names(active, c);
    if source_missing(found, list) {
        built(found, list, stem, sibling)
    } else {
        None
    }
}

/// A command that reads a file.
pub open spec fn input_command(path: Seq<char>) -> Seq<char> {
    "\\input{"@ + path + "}"@
}

/// The edits that put prebuilt forms in place of the first `n` calls.
pub open spec fn substitutions(
    active: Seq<u8>,
    calls: Seq<CallAt>,
    n: int,
    found: Seq<FileAt>,
    stem: Option<Seq<char>>,
    sibling: Option<FileAt>,
) -> Seq<EditAt>
    decreases n,
{
    if n <= 0 {
        Seq::empty()
    } else {
        let before = substitutions(active, calls, n - 1, found, stem, sibling);
        let c = calls[n - 1];
        match substitute(active, c, found, stem, sibling) {
            Some(f) => match f.input {
                Some(path) => before.push(
                    EditAt {
                        start: c.start,
                        end: c.end,
                        text: utf::bytes_of(input_command(path)),
                    },
                ),
                None => before,
            },
            None => before,
        }
    }
}

/// A prebuilt form for one of the calls lies outside of the source root.
pub open spec fn outside_source(
    active: Seq<u8>,
    calls: Seq<CallAt>,
    found: Seq<FileAt>,
    stem: Option<Seq<char>>,
    sibling: Option<FileAt>,
) -> bool {
    exists|i: int|
        0 <= i < calls.len() && (substitute(
            active,
            #[trigger] calls[i],
            found,
            stem,
            sibling,
        ) matches Some(f) && f.input is None)
}

/// The calls of `\bibliography` outside of comments.
pub open spec fn bibliographies(content: Seq<char>) -> Seq<CallAt> {
    scan::calls(scan::masked(utf::bytes_of(content)), utf::bytes_of("\\bibliography"@))
}

/// All edits to a document.
pub open spec fn bibliography_edits(
    content: Seq<char>,
    stem: Option<Seq<char>>,
    found: Seq<FileAt>,
    sibling: Option<FileAt>,
) -> Seq<EditAt> {
    let calls = bibliographies(content);
    substitutions(
        scan::masked(utf::bytes_of(content)),
        calls,
        calls.len() as int,
        found,
        stem,
        sibling,
    )
}

/// A prebuilt form that a document needs lies outside of the source root.
pub open spec fn needs_outside(
    content: Seq<char>,
    stem: Option<Seq<char>>,
    found: Seq<FileAt>,
    sibling: Option<FileAt>,
) -> bool {
    outside_source(
        scan::masked(utf::bytes_of(content)),
        bibliographies(content),
        found,
        stem,
        sibling,
    )
}

/// The files whose presence matters for one call.
pub open spec fn wanted_by(list: Seq<Seq<char>>, n: int) -> Seq<Seq<char>>
    decreases n,
{
    if n <= 0 {
        Seq::empty()
    } else {
        wanted_by(list, n - 1).push(list[n - 1] + ".bib"@).push(list[n - 1] + ".bbl"@)
    }
}

/// The files whose presence matters for the first `n` calls.
pub open spec fn wanted(active: Seq<u8>, calls: Seq<CallAt>, n: int) -> Seq<Seq<char>>
    decreases n,
{
    if n <= 0 {
        Seq::empty()
    } else {
        let list = names(active, calls[n - 1]);
        wanted(active, calls, n - 1) + wanted_by(list, list.len() as int)
    }
}

/// The files in the source root whose presence matters for a document.
pub open spec fn wanted_files(content: Seq<char>, stem: Option<Seq<char>>) -> Seq<Seq<char>> {
    let calls = bibliographies(content);
    let named = wanted(scan::masked(utf::bytes_of(content)), calls, calls.len() as int);
    match stem {
        Some(s) => named.push(s + ".bbl"@),
        None => named,
    }
}

// ---------------------------------------------------------------- code

/// The pieces that hold more than white space, without the white space around them.
fn keep_filled(pieces: &Vec<String>) -> (r: Vec<String>)
    ensures
        text::texts(r@) == filled(text::texts(pieces@)),
{
    let mut r: Vec<String> = Vec::new();
    let mut i: usize = 0;
    assert(text::texts(pieces@).take(0) =~= Seq::<Seq<char>>::empty());
    assert(text::texts(r@) =~= Seq::<Seq<char>>::empty());
    while i < pieces.len()
        invariant
            i <= pieces.len(),
            text::texts(r@) == filled(text::texts(pieces@).take(i as int)),
        decreases pieces.len() - i,
    {
        let ghost all = text::texts(pieces@);
        let ghost before = text::texts(r@);
        let piece = pieces[i].as_str();
        assert(all.take(i + 1).drop_last() =~= all.take(i as int));
        assert(all.take(i + 1).last() == piece@);
        let name = text::trimmed(piece);
        if !name.is_empty() {
            r.push(name.to_owned());
            assert(text::texts(r@) =~= before.push(name@));
        }
        i += 1;
    }
    assert(text::texts(pieces@).take(i as int) =~= text::texts(pieces@));
    r
}

/// The bibliographies that a call names.
fn named_by(active: &str, c: Call) -> (r: Vec<String>)
    requires
        scan::call_fits(utf::bytes_of(active@), utf::bytes_of("\\bibliography"@), c@),
    ensures
        text::texts(r@) == names(utf::bytes_of(active@), c@),
{
    proof {
        encode_utf8_valid_utf8(active@);
        reveal_strlit("\\bibliography");
        cjk::lemma_call_boundaries(utf::bytes_of(active@), "\\bibliography"@, c@);
    }
    let arg = text::slice(active, c.arg_start, c.arg_end);
    keep_filled(&text::split(arg, ','))
}

/// The number of the first file of that name.
fn find(found: &Vec<Found>, name: &str) -> (r: Option<usize>)
    ensures
        match r {
            Some(k) => k < found@.len() && lookup(file_views(found@), name@) == Some(
                found@[k as int]@,
            ),
            None => lookup(file_views(found@), name@) is None,
        },
{
    let mut k: usize = 0;
    while k < found.len()
        invariant
            k <= found.len(),
            lookup(file_views(found@), name@) == lookup_from(
                file_views(found@),
                name@,
                k as int,
            ),
        decreases found.len() - k,
    {
        assert(file_views(found@)[k as int] == found@[k as int]@);
        if text::same(found[k].name.as_str(), name) {
            return Some(k);
        }
        k += 1;
    }
    None
}

/// Is the source of one of the bibliographies missing?
fn is_source_missing(found: &Vec<Found>, list: &Vec<String>) -> (r: bool)
    ensures
        r == source_missing(file_views(found@), text::texts(list@)),
{
    let ghost all = text::texts(list@);
    let mut i: usize = 0;
    while i < list.len()
        invariant
            i <= list.len(),
            all == text::texts(list@),
            forall|j: int|
                0 <= j < i ==> lookup(file_views(found@), #[trigger] all[j] + ".bib"@) is Some,
        decreases list.len() - i,
    {
        assert(all[i as int] == list@[i as int]@);
        let source = text::with_ending(list[i].as_str(), ".bib");
        if find(found, source.as_str()).is_none() {
            return true;
        }
        i += 1;
    }
    false
}

/// The file in the list, or the one beside the main file.
enum Choice {
    Listed(usize),
    Sibling,
}

/// The prebuilt form to use.
fn choose_built(
    found: &Vec<Found>,
    list: &Vec<String>,
    stem: &Option<String>,
    sibling: &Option<Found>,
) -> (r: Option<Choice>)
    ensures
        match r {
            Some(Choice::Listed(k)) => k < found@.len() && built(
                file_views(found@),
                text::texts(list@),
                text::optional(*stem),
                file_view(*sibling),
            ) == Some(found@[k as int]@),
            Some(Choice::Sibling) => sibling is Some && built(
                file_views(found@),
                text::texts(list@),
                text::optional(*stem),
                file_view(*sibling),
            ) == file_view(*sibling),
            None => built(
                file_views(found@),
                text::texts(list@),
                text::optional(*stem),
                file_view(*sibling),
            ) is None,
        },
{
    let ghost all = text::texts(list@);
    let mut i: usize = 0;
    while i < list.len()
        invariant
            i <= list.len(),
            all == text::texts(list@),
            first_built(file_views(found@), all, 0) == first_built(
                file_views(found@),
                all,
                i as int,
            ),
        decreases list.len() - i,
    {
        assert(all[i as int] == list@[i as int]@);
        let file = text::with_ending(list[i].as_str(), ".bbl");
        match find(found, file.as_str()) {
            Some(k) => {
                return Some(Choice::Listed(k));
            },
            None => {},
        }
        i += 1;
    }
    match stem {
        Some(s) => {
            let file = text::with_ending(s.as_str(), ".bbl");
            match find(found, file.as_str()) {
                Some(k) => {
                    return Some(Choice::Listed(k));
                },
                None => {},
            }
        },
        None => {},
    }
    match sibling {
        Some(_) => Some(Choice::Sibling),
        None => None,
    }
}

/// What an optional file stands for.
pub open spec fn file_view(f: Option<Found>) -> Option<FileAt> {
    match f {
        Some(f) => Some(f@),
        None => None,
    }
}

/// The edit that puts a file in place of a call.
fn edit_for(c: Call, file: &Found) -> (r: Option<Edit>)
    ensures
        match r {
            Some(e) => file@.input matches Some(path) && e@ == (EditAt {
                start: c@.start,
                end: c@.end,
                text: utf::bytes_of(input_command(path)),
            }),
            None => file@.input is None,
        },
{
    match &file.input {
        Some(path) => {
            let mut command = "\\input{".to_owned();
            command.append(path.as_str());
            command.append("}");
            Some(Edit { start: c.start, end: c.end, text: command })
        },
        None => None,
    }
}

/// Works out which calls of `\bibliography` are to be replaced by a prebuilt
/// form: those of which a source is missing and a prebuilt form exists.
///
/// `stem` is the main file's name without its ending, `found` holds the files of
/// [`bibliography_files`] that exist, and `sibling` the `.bbl` beside the main
/// file, if it exists.
pub fn plan_bibliography(
    content: &str,
    stem: &Option<String>,
    found: &Vec<Found>,
    sibling: &Option<Found>,
) -> (r: Result<Vec<Edit>, BibliographyError>)
    ensures
        match r {
            Ok(list) => {
                &&& !needs_outside(
                    content@,
                    text::optional(*stem),
                    file_views(found@),
                    file_view(*sibling),
                )
                &&& edits::edit_views(list@) == bibliography_edits(
                    content@,
                    text::optional(*stem),
                    file_views(found@),
                    file_view(*sibling),
                )
            },
            Err(e) => {
                &&& e == BibliographyError::OutsideSource
                &&& needs_outside(
                    content@,
                    text::optional(*stem),
                    file_views(found@),
                    file_view(*sibling),
                )
            },
        },
{
    let active = scan::uncommented(content);
    let ghost b = utf::bytes_of(active@);
    let ghost fs = file_views(found@);
    let ghost st = text::optional(*stem);
    let ghost si = file_view(*sibling);
    proof {
        reveal_strlit("\\bibliography");
        scan::lemma_calls_from(b, utf::bytes_of("\\bibliography"@), 0);
    }
    let list = scan::commands(active.as_str(), "\\bibliography");
    let ghost calls = scan::views(list@);
    let mut r: Vec<Edit> = Vec::new();
    let mut n: usize = 0;
    assert(edits::edit_views(r@) =~= Seq::<EditAt>::empty());
    while n < list.len()
        invariant
            n <= list.len(),
            b == utf::bytes_of(active@),
            fs == file_views(found@),
            st == text::optional(*stem),
            si == file_view(*sibling),
            calls == scan::views(list@),
            forall|i: int|
                0 <= i < calls.len() ==> scan::call_fits(
                    b,
                    utf::bytes_of("\\bibliography"@),
                    #[trigger] calls[i],
                ),
            forall|i: int|
                0 <= i < n ==> (substitute(b, #[trigger] calls[i], fs, st, si) matches Some(f)
                    ==> f.input is Some),
            edits::edit_views(r@) == substitutions(b, calls, n as int, fs, st, si),
            b == scan::masked(utf::bytes_of(content@)),
            calls == bibliographies(content@),
        decreases list.len() - n,
    {
        let c = list[n];
        assert(calls[n as int] == c@);
        let wanted_names = named_by(active.as_str(), c);
        if is_source_missing(found, &wanted_names) {
            let ghost before = edits::edit_views(r@);
            let edit = match choose_built(found, &wanted_names, stem, sibling) {
                Some(Choice::Listed(k)) => edit_for(c, &found[k]),
                Some(Choice::Sibling) => match sibling {
                    Some(f) => edit_for(c, f),
                    None => None,
                },
                None => {
                    n += 1;
                    continue;
                },
            };
            match edit {
                Some(e) => {
                    r.push(e);
                    assert(edits::edit_views(r@) =~= before.push(e@));
                },
                None => {
                    assert(substitute(b, calls[n as int], fs, st, si) matches Some(f)
                        && f.input is None);
                    return Err(BibliographyError::OutsideSource);
                },
            }
        }
        n += 1;
    }
    Ok(r)
}

/// Replaces each `\bibliography` of which a source is missing and a prebuilt
/// form exists by a command that reads that form. None where nothing changes.
///
/// The arguments are those of [`plan_bibliography`].
pub fn try_inline_missing_bibliography(
    content: &str,
    stem: &Option<String>,
    found: &Vec<Found>,
    sibling: &Option<Found>,
) -> (r: Result<Option<String>, BibliographyError>)
    ensures
        ({
            let changes = bibliography_edits(
                content@,
                text::optional(*stem),
                file_views(found@),
                file_view(*sibling),
            );
            let outside = needs_outside(
                content@,
                text::optional(*stem),
                file_views(found@),
                file_view(*sibling),
            );
            let fits = edits::edits_fit(utf::bytes_of(content@), changes);
            match r {
                Ok(None) => !outside && changes.len() == 0,
                Ok(Some(s)) => !outside && fits && changes.len() > 0 && utf::bytes_of(s@)
                    == edits::applied(utf::bytes_of(content@), changes),
                Err(BibliographyError::OutsideSource) => outside,
                Err(BibliographyError::Overlapping) => !outside && !fits,
            }
        }),
{
    match plan_bibliography(content, stem, found, sibling) {
        Ok(list) => {
            assert(edits::edit_views(list@).len() == list@.len());
            if list.len() == 0 {
                Ok(None)
            } else {
                match edits::try_apply(content, &list) {
                    Some(s) => Ok(Some(s)),
                    None => Err(BibliographyError::Overlapping),
                }
            }
        },
        Err(_) => Err(BibliographyError::OutsideSource),
    }
}

/// Replaces each `\bibliography` of which a source is missing and a prebuilt
/// form exists by a command that reads that form. None where nothing changes.
///
/// The arguments are those of [`plan_bibliography`].
pub fn inline_missing_bibliography(
    content: &str,
    stem: &Option<String>,
    found: &Vec<Found>,
    sibling: &Option<Found>,
) -> (r: Result<Option<String>, BibliographyError>)
    requires
        edits::edits_fit(
            utf::bytes_of(content@),
            bibliography_edits(
                content@,
                text::optional(*stem),
                file_views(found@),
                file_view(*sibling),
            ),
        ),
    ensures
        ({
            let changes = bibliography_edits(
                content@,
                text::optional(*stem),
                file_views(found@),
                file_view(*sibling),
            );
            let outside = needs_outside(
                content@,
                text::optional(*stem),
                file_views(found@),
                file_view(*sibling),
            );
            match r {
                Ok(None) => !outside && changes.len() == 0,
                Ok(Some(s)) => !outside && changes.len() > 0 && utf::bytes_of(s@)
                    == edits::applied(utf::bytes_of(content@), changes),
                Err(e) => e == BibliographyError::OutsideSource && outside,
            }
        }),
{
    try_inline_missing_bibliography(content, stem, found, sibling)
}

/// The files in the source root whose presence matters for
/// [`inline_missing_bibliography`].
pub fn bibliography_files(content: &str, stem: &Option<String>) -> (r: Vec<String>)
    ensures
        text::texts(r@) == wanted_files(content@, text::optional(*stem)),
{
    let active = scan::uncommented(content);
    let ghost b = utf::bytes_of(active@);
    proof {
        reveal_strlit("\\bibliography");
        scan::lemma_calls_from(b, utf::bytes_of("\\bibliography"@), 0);
    }
    let list = scan::commands(active.as_str(), "\\bibliography");
    let ghost calls = scan::views(list@);
    let mut r: Vec<String> = Vec::new();
    let mut n: usize = 0;
    assert(text::texts(r@) =~= Seq::<Seq<char>>::empty());
    while n < list.len()
        invariant
            n <= list.len(),
            b == utf::bytes_of(active@),
            calls == scan::views(list@),
            forall|i: int|
                0 <= i < calls.len() ==> scan::call_fits(
                    b,
                    utf::bytes_of("\\bibliography"@),
                    #[trigger] calls[i],
                ),
            text::texts(r@) == wanted(b, calls, n as int),
        decreases list.len() - n,
    {
        let c = list[n];
        assert(calls[n as int] == c@);
        let found_names = named_by(active.as_str(), c);
        let ghost all = text::texts(found_names@);
        let ghost start = text::texts(r@);
        let mut i: usize = 0;
        assert(start + wanted_by(all, 0) =~= start);
        while i < found_names.len()
            invariant
                i <= found_names.len(),
                all == text::texts(found_names@),
                text::texts(r@) == start + wanted_by(all, i as int),
            decreases found_names.len() - i,
        {
            let ghost before = text::texts(r@);
            assert(all[i as int] == found_names@[i as int]@);
            let source = text::with_ending(found_names[i].as_str(), ".bib");
            let prebuilt = text::with_ending(found_names[i].as_str(), ".bbl");
            let ghost x = source@;
            let ghost y = prebuilt@;
            r.push(source);
            r.push(prebuilt);
            assert(text::texts(r@) =~= before.push(x).push(y));
            assert(text::texts(r@) =~= start + wanted_by(all, i as int).push(x).push(y));
            i += 1;
        }
        n += 1;
    }
    match stem {
        Some(s) => {
            let ghost before = text::texts(r@);
            let file = text::with_ending(s.as_str(), ".bbl");
            let ghost x = file@;
            r.push(file);
            assert(text::texts(r@) =~= before.push(x));
        },
        None => {},
    }
    r
}

} // verus!
