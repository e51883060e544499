//! Which files are translated, and how their pieces are kept and joined.

use crate::latex::course::{FileEvent, FileStep};
use crate::latex::edits::EditAt;
use crate::latex::files::Entry;
use crate::latex::progress::FilePlan;
use crate::latex::{chunk_laws, course, edits, files, progress, scan, scan_laws};
use crate::{text, text_laws, utf};
use vstd::prelude::*;
use vstd::utf8::*;

verus! {

// ---------------------------------------------------------------- finding files

proof fn lemma_front(a: Seq<Entry>, b: Seq<Entry>, n: nat)
    requires
        n <= a.len(),
    ensures
        files::tex_files(a + b, n) == files::tex_files(a, n),
    decreases n,
{
    if n > 0 {
        lemma_front(a, b, (n - 1) as nat);
        assert((a + b)[n - 1] == a[n - 1]);
    }
}

proof fn lemma_back(a: Seq<Entry>, b: Seq<Entry>, n: nat)
    requires
        n <= b.len(),
    ensures
        files::tex_files(a + b, a.len() + n) == files::tex_files(a, a.len()) + files::tex_files(
            b,
            n,
        ),
    decreases n,
{
    if n > 0 {
        lemma_back(a, b, (n - 1) as nat);
        assert((a + b)[a.len() + n - 1] == b[n - 1]);
        assert(files::tex_files(a + b, a.len() + n) =~= files::tex_files(a, a.len())
            + files::tex_files(b, n));
    } else {
        lemma_front(a, b, a.len());
        assert(files::tex_files(a, a.len()) + files::tex_files(b, 0) =~= files::tex_files(
            a,
            a.len(),
        ));
    }
}

/// The files of a directory are those of its entries, in their order.
pub proof fn directories_are_read_entry_by_entry(a: Seq<Entry>, b: Seq<Entry>)
    ensures
        files::tex_files(Seq::<Entry>::empty(), 0).len() == 0,
        files::tex_files(a + b, (a + b).len()) == files::tex_files(a, a.len()) + files::tex_files(
            b,
            b.len(),
        ),
{
    lemma_back(a, b, b.len());
}

proof fn lemma_ends(name: Seq<char>, front: Seq<char>, ending: Seq<char>)
    requires
        name == front + ending,
    ensures
        text::occurs_at(name, ending, name.len() - ending.len()),
{
    assert(name.subrange(front.len() as int, name.len() as int) =~= ending);
}

proof fn lemma_ends_back(name: Seq<char>, ending: Seq<char>)
    requires
        text::occurs_at(name, ending, name.len() - ending.len()),
    ensures
        name == name.take(name.len() - ending.len()) + ending,
{
    assert(name =~= name.take(name.len() - ending.len()) + ending);
}

/// A file is found where its name ends with `.tex` and has something before that.
pub proof fn tex_files_are_found_by_their_endings(e: Entry, stem: Seq<char>)
    requires
        e.children is None,
    ensures
        e.name@ == stem + ".tex"@ && stem.len() > 0 ==> files::tex_files(seq![e], 1) == seq![e.id],
        (forall|s: Seq<char>| e.name@ == #[trigger] (s + ".tex"@) ==> s.len() == 0)
            ==> files::tex_files(seq![e], 1).len() == 0,
{
    let all = seq![e];
    assert(files::tex_files(all, 0).len() == 0);
    assert(all[0] == e);
    if e.name@ == stem + ".tex"@ && stem.len() > 0 {
        lemma_ends(e.name@, stem, ".tex"@);
        assert(files::tex_files(all, 1) =~= seq![e.id]);
    }
    if files::tex_name(e.name@) {
        lemma_ends_back(e.name@, ".tex"@);
        let s = e.name@.take(e.name@.len() - ".tex"@.len());
        assert(e.name@ == s + ".tex"@);
    }
}

/// The name is that of a directory in which the program keeps its own files.
pub open spec fn own_directory(name: Seq<char>, x: Seq<char>) -> bool {
    name == ".ratex-build-"@ + x || name == x + ".ratex-chunks"@
}

/// Directories are entered, except those in which the program keeps its own files.
pub proof fn own_directories_are_not_entered(e: Entry, x: Seq<char>)
    requires
        e.children is Some,
    ensures
        own_directory(e.name@, x) ==> files::tex_files(seq![e], 1).len() == 0,
        (forall|y: Seq<char>| !#[trigger] own_directory(e.name@, y)) ==> files::tex_files(
            seq![e],
            1,
        ) == files::tex_files(e.children->0@, e.children->0@.len()),
{
    let all = seq![e];
    assert(files::tex_files(all, 0).len() == 0);
    assert(all[0] == e);
    let name = e.name@;
    if own_directory(name, x) {
        if name == ".ratex-build-"@ + x {
            assert(name.subrange(0, ".ratex-build-"@.len() as int) =~= ".ratex-build-"@);
            assert(text::occurs_at(name, ".ratex-build-"@, 0));
        } else {
            lemma_ends(name, x, ".ratex-chunks"@);
        }
    }
    if files::work_dir(name) {
        if text::occurs_at(name, ".ratex-build-"@, 0) {
            let y = name.skip(".ratex-build-"@.len() as int);
            assert(name =~= ".ratex-build-"@ + y);
            assert(own_directory(name, y));
        } else {
            lemma_ends_back(name, ".ratex-chunks"@);
            let y = name.take(name.len() - ".ratex-chunks"@.len());
            assert(own_directory(name, y));
        }
    } else {
        assert(files::tex_files(all, 1) =~= files::tex_files(
            e.children->0@,
            e.children->0@.len(),
        ));
    }
}

/// A file that calls a document class outside of comments is one that can be the main
/// file; one in which the command does not occur outside of comments is not.
pub proof fn main_files_call_a_class(content: Seq<char>, p: int, q: int, e: int)
    ensures
        ({
            let b = scan::masked(utf::bytes_of(content));
            let command = utf::bytes_of("\\documentclass"@);
            &&& {
                &&& text::occurs_at(b, command, p)
                &&& !scan::escaped(b, 0, p)
                &&& scan_laws::leads_to(b, p + command.len(), q)
                &&& q < b.len()
                &&& b[q] == 0x7b
                &&& scan::group_close(b, q) == Some(e)
            } ==> files::has_class(content)
            &&& files::has_class(content) ==> text::occurs(b, command)
        }),
{
    let b = scan::masked(utf::bytes_of(content));
    let command = utf::bytes_of("\\documentclass"@);
    reveal_strlit("\\documentclass");
    is_ascii_chars_encode_utf8("\\documentclass"@);
    assert(command.len() == 14);
    assert(command[0] == 0x5c);
    assert forall|k: int| 0 < k < command.len() implies #[trigger] command[k] != 0x5c by {
        assert(command[k] == "\\documentclass"@[k] as u8);
    }
    if {
        &&& text::occurs_at(b, command, p)
        &&& !scan::escaped(b, 0, p)
        &&& scan_laws::leads_to(b, p + command.len(), q)
        &&& q < b.len()
        &&& b[q] == 0x7b
        &&& scan::group_close(b, q) == Some(e)
    } {
        scan_laws::complete_commands_are_found(b, command, p, q, e);
    }
    if files::has_class(content) {
        scan_laws::calls_have_complete_arguments(b, command, 0);
    }
}

// ---------------------------------------------------------------- pieces of files

proof fn lemma_zero_in_front(s: Seq<char>)
    ensures
        text_laws::value(seq!['0'] + s) == text_laws::value(s),
    decreases s.len(),
{
    let t = seq!['0'] + s;
    if s.len() == 0 {
        assert(t.drop_last() =~= Seq::<char>::empty());
        assert(text_laws::value(t.drop_last()) == 0);
    } else {
        lemma_zero_in_front(s.drop_last());
        assert(t.drop_last() =~= seq!['0'] + s.drop_last());
        assert(t.last() == s.last());
    }
}

proof fn lemma_padded(s: Seq<char>, n: nat)
    ensures
        text_laws::value(progress::padded(s, n)) == text_laws::value(s),
        progress::padded(s, n).len() >= n,
        progress::padded(s, n).len() >= s.len(),
        s.len() >= n ==> progress::padded(s, n) == s,
        s.len() <= n ==> progress::padded(s, n).len() == n,
    decreases n - s.len(),
{
    if s.len() < n {
        lemma_zero_in_front(s);
        lemma_padded(seq!['0'] + s, n);
    }
}

/// The file of a saved chunk is named after the number of the chunk, counted from
/// one, with five digits or more.
pub proof fn chunk_files_are_numbered(i: nat)
    ensures
        progress::chunk_name(i).len() >= 9,
        ({
            let name = progress::chunk_name(i);
            let number = name.take(name.len() - 4);
            &&& name == number + ".tex"@
            &&& text_laws::value(number) == i + 1
            &&& number.len() > 5 ==> number[0] != '0'
        }),
{
    let number = progress::padded(text::decimal(i + 1), 5);
    lemma_padded(text::decimal(i + 1), 5);
    text_laws::numbers_are_written_in_decimal(i + 1);
    reveal_strlit(".tex");
    let name = progress::chunk_name(i);
    assert(name.take(name.len() - 4) =~= number);
}

/// Two chunks are saved in two files.
pub proof fn chunk_files_differ(i: nat, j: nat)
    requires
        progress::chunk_name(i) == progress::chunk_name(j),
    ensures
        i == j,
{
    chunk_files_are_numbered(i);
    chunk_files_are_numbered(j);
}

/// The results are joined in the order of the chunks, with nothing between them.
pub proof fn results_are_joined_in_order(results: Seq<Option<String>>, i: int)
    requires
        0 <= i < results.len(),
    ensures
        progress::joined(results) == progress::joined(results.take(i)) + results[i]->0@
            + progress::joined(results.skip(i + 1)),
        progress::joined(Seq::<Option<String>>::empty()).len() == 0,
{
    let all = results.map_values(|r: Option<String>| r->0@);
    let front = results.take(i).map_values(|r: Option<String>| r->0@);
    let back = results.skip(i + 1).map_values(|r: Option<String>| r->0@);
    assert(all =~= front + seq![results[i]->0@] + back);
    chunk_laws::lemma_concat_add(front + seq![results[i]->0@], back);
    chunk_laws::lemma_concat_add(front, seq![results[i]->0@]);
    chunk_laws::lemma_concat_one(results[i]->0@);
    let none = Seq::<Option<String>>::empty().map_values(|r: Option<String>| r->0@);
    assert(none =~= Seq::<Seq<char>>::empty());
}

/// As many results as chunks means that no chunk is without one.
pub proof fn complete_runs_have_all_results(results: Seq<Option<String>>)
    ensures
        progress::count(results) <= results.len(),
        progress::count(results) == results.len() <==> (forall|i: int|
            0 <= i < results.len() ==> (#[trigger] results[i]) is Some),
    decreases results.len(),
{
    if results.len() > 0 {
        let head = results.drop_last();
        complete_runs_have_all_results(head);
        if forall|i: int| 0 <= i < results.len() ==> (#[trigger] results[i]) is Some {
            assert forall|i: int| 0 <= i < head.len() implies (#[trigger] head[i]) is Some by {
                assert(head[i] == results[i]);
            }
            assert(results[results.len() - 1] is Some);
        }
        if progress::count(results) == results.len() {
            assert forall|i: int| 0 <= i < results.len() implies (#[trigger] results[i]) is Some by {
                if i < head.len() {
                    assert(head[i] == results[i]);
                }
            }
        }
    }
}

/// A translation that meets no error ends with the source replaced and the saved
/// chunks removed; an error before that ends it as a failure. A file that is skipped
/// is done at once.
pub proof fn translations_without_errors_finish(plan: FilePlan)
    ensures
        plan is Skip ==> course::first_step(plan) == FileStep::Skipped,
        plan is Translate ==> {
            let a = course::first_step(plan);
            let b = course::next(a, FileEvent::Done);
            let c = course::next(b, FileEvent::Done);
            let d = course::next(c, FileEvent::Done);
            &&& a == FileStep::MakeSaveDir
            &&& b == FileStep::TranslateChunks
            &&& c == FileStep::Replace
            &&& d == FileStep::RemoveSaveDir
            &&& course::next(d, FileEvent::Done) == FileStep::Finished
            &&& course::next(a, FileEvent::Error) == FileStep::Failed
            &&& course::next(b, FileEvent::Error) == FileStep::Failed
            &&& course::next(c, FileEvent::Error) == FileStep::Failed
        },
{
}

// ---------------------------------------------------------------- edits

/// An edit puts its text in the place of its range, and no edits change nothing.
pub proof fn one_edit_replaces_its_range(b: Seq<u8>, e: EditAt)
    ensures
        edits::applied(b, Seq::<EditAt>::empty()) == b,
        edits::edits_fit(b, Seq::<EditAt>::empty()),
        edits::applied(b, seq![e]) == b.take(e.start) + e.text + b.skip(e.end),
        edits::edits_fit(b, seq![e]) <==> 0 <= e.start <= e.end <= b.len() && is_char_boundary(
            b,
            e.start,
        ) && is_char_boundary(b, e.end),
{
    let r = edits::replaced(b, e);
    assert(seq![e].drop_last() =~= Seq::<EditAt>::empty());
    assert(edits::applied(r, Seq::<EditAt>::empty()) == r);
    assert(edits::edits_fit(r, Seq::<EditAt>::empty()));
}

} // verus!
