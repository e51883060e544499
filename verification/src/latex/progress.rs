//! The course of a translation: the chunks of a file, and the files of a paper.

use crate::latex::{chunk_laws, chunks};
use crate::text;
use vstd::prelude::*;

verus! {

/// The size of a chunk, in bytes, that is sent for translation at once.
pub const CHUNK_BYTES: usize = 8000;

/// A text with zeros in front, up to `n` characters.
pub open spec fn padded(s: Seq<char>, n: nat) -> Seq<char>
    decreases n - s.len(),
{
    if s.len() >= n {
        s
    } else {
        padded(seq!['0'] + s, n)
    }
}

/// The name of the file that keeps the chunk with number `i`, counted from one
/// with five digits.
pub open spec fn chunk_name(i: nat) -> Seq<char> {
    padded(text::decimal(i + 1), 5) + ".tex"@
}

/// A fraction such as `2/7`.
pub open spec fn fraction(a: nat, b: nat) -> Seq<char> {
    text::decimal(a) + "/"@ + text::decimal(b)
}

/// How many of the results are there.
pub open spec fn count(results: Seq<Option<String>>) -> nat
    decreases results.len(),
{
    if results.len() == 0 {
        0
    } else if results.last() is Some {
        count(results.drop_last()) + 1
    } else {
        count(results.drop_last())
    }
}

/// The results, one behind the other.
pub open spec fn joined(results: Seq<Option<String>>) -> Seq<char> {
    text::concat(results.map_values(|r: Option<String>| r->0@))
}

/// A file on its way through translation: its chunks, and the results so far.
pub struct ChunkRun {
    pub chunks: Vec<String>,
    pub results: Vec<Option<String>>,
    pub completed: usize,
}

proof fn lemma_count_update(results: Seq<Option<String>>, i: int, s: String)
    requires
        0 <= i < results.len(),
        results[i] is None,
    ensures
        count(results.update(i, Some(s))) == count(results) + 1,
        count(results) < results.len(),
    decreases results.len(),
{
    let after = results.update(i, Some(s));
    lemma_count_bound(results.drop_last());
    if i == results.len() - 1 {
        assert(after.drop_last() =~= results.drop_last());
    } else {
        lemma_count_update(results.drop_last(), i, s);
        assert(after.drop_last() =~= results.drop_last().update(i, Some(s)));
        assert(after.last() == results.last());
    }
}

proof fn lemma_count_bound(results: Seq<Option<String>>)
    ensures
        count(results) <= results.len(),
        count(results) == results.len() <==> forall|i: int|
            0 <= i < results.len() ==> (#[trigger] results[i]) is Some,
    decreases results.len(),
{
    if results.len() > 0 {
        let head = results.drop_last();
        lemma_count_bound(head);
        assert(results[results.len() - 1] == results.last());
        if count(results) == results.len() {
            assert forall|i: int| 0 <= i < results.len() implies (#[trigger] results[i]) is Some by {
                if i < head.len() {
                    assert(head[i] == results[i]);
                }
            }
        } else if forall|i: int| 0 <= i < results.len() ==> (#[trigger] results[i]) is Some {
            assert forall|i: int| 0 <= i < head.len() implies (#[trigger] head[i]) is Some by {
                assert(head[i] == results[i]);
            }
        }
    }
}

impl ChunkRun {
    /// There is a place for each result, and the ones that are there are counted.
    pub open spec fn wf(self) -> bool {
        &&& self.results@.len() == self.chunks@.len()
        &&& self.completed == count(self.results@)
    }

    /// Every chunk has its result.
    pub open spec fn complete(self) -> bool {
        self.completed == self.chunks@.len()
    }

    /// Cuts a text into chunks; no result is there yet.
    pub fn new(content: &str) -> (r: Self)
        ensures
            r.wf(),
            text::texts(r.chunks@) == chunks::chunks(content@, CHUNK_BYTES as nat),
            r.completed == 0,
            forall|i: int| 0 <= i < r.results@.len() ==> (#[trigger] r.results@[i]) is None,
    {
        let list = chunks::split_into_chunks(content, CHUNK_BYTES);
        let mut results: Vec<Option<String>> = Vec::new();
        let mut i: usize = 0;
        while i < list.len()
            invariant
                i <= list.len(),
                results@.len() == i,
                count(results@) == 0,
                forall|k: int| 0 <= k < results@.len() ==> (#[trigger] results@[k]) is None,
            decreases list.len() - i,
        {
            let ghost before = results@;
            results.push(None);
            assert(results@.drop_last() =~= before);
            i += 1;
        }
        ChunkRun { chunks: list, results, completed: 0 }
    }

    /// Puts the result of the chunk with number `i` in its place. Gives the line
    /// that tells of it, where there is more than one chunk.
    pub fn record(&mut self, i: usize, result: String, label: &str) -> (line: Option<String>)
        requires
            old(self).wf(),
            i < old(self).chunks@.len(),
            old(self).results@[i as int] is None,
        ensures
            final(self).wf(),
            final(self).chunks == old(self).chunks,
            final(self).completed == old(self).completed + 1,
            final(self).results@ == old(self).results@.update(i as int, Some(result)),
            match line {
                Some(s) => final(self).chunks@.len() > 1 && s@ == "  "@ + label@ + ": chunk "@
                    + fraction(final(self).completed as nat, final(self).chunks@.len()) + " done"@,
                None => final(self).chunks@.len() <= 1,
            },
    {
        proof {
            lemma_count_update(self.results@, i as int, result);
            assert(self.completed < self.results.len());
        }
        self.completed = self.completed + 1;
        self.results.set(i, Some(result));
        if self.chunks.len() > 1 {
            let mut s = "  ".to_owned();
            s.append(label);
            s.append(": chunk ");
            s.append(fraction_text(self.completed, self.chunks.len()).as_str());
            s.append(" done");
            Some(s)
        } else {
            None
        }
    }

    /// The results, one behind the other.
    pub fn into_text(self) -> (r: String)
        requires
            self.wf(),
            self.complete(),
        ensures
            r@ == joined(self.results@),
    {
        let ghost all = self.results@;
        proof {
            lemma_count_bound(all);
        }
        let mut r = String::new();
        let mut i: usize = 0;
        assert(all.take(0) =~= Seq::<Option<String>>::empty());
        assert(joined(all.take(0)) =~= Seq::<char>::empty());
        while i < self.results.len()
            invariant
                i <= self.results.len(),
                all == self.results@,
                forall|k: int| 0 <= k < all.len() ==> (#[trigger] all[k]) is Some,
                r@ == joined(all.take(i as int)),
            decreases self.results.len() - i,
        {
            let ghost before = all.take(i as int).map_values(|r: Option<String>| r->0@);
            match &self.results[i] {
                Some(s) => {
                    r.append(s.as_str());
                    proof {
                        text::lemma_concat_push(before, s@);
                        assert(all.take(i + 1).map_values(|r: Option<String>| r->0@) =~= before.push(
                            s@,
                        ));
                    }
                },
                None => {},
            }
            i += 1;
        }
        assert(all.take(i as int) =~= all);
        r
    }
}

/// A fraction such as `2/7`.
fn fraction_text(a: usize, b: usize) -> (r: String)
    ensures
        r@ == fraction(a as nat, b as nat),
{
    let mut r = text::decimal_text(a as u64);
    r.append("/");
    r.append(text::decimal_text(b as u64).as_str());
    r
}

/// The name of the file that keeps the chunk with number `i`.
pub fn chunk_file_name(i: usize) -> (r: String)
    requires
        i < usize::MAX,
    ensures
        r@ == chunk_name(i as nat),
{
    let mut r = text::decimal_text((i + 1) as u64);
    let ghost digits = r@;
    proof {
        reveal_strlit("0");
        assert("0"@ =~= seq!['0']);
    }
    while r.as_str().unicode_len() < 5
        invariant
            "0"@ == seq!['0'],
            padded(digits, 5) == padded(r@, 5),
        decreases 5 - r@.len(),
    {
        let mut next = "0".to_owned();
        next.append(r.as_str());
        r = next;
    }
    r.append(".tex");
    r
}

/// What a failed chunk is reported as.
pub fn chunk_failure(i: usize, total: usize) -> (r: String)
    requires
        i < total,
    ensures
        r@ == "Failed to translate chunk "@ + fraction((i + 1) as nat, total as nat),
{
    let mut r = "Failed to translate chunk ".to_owned();
    r.append(fraction_text(i + 1, total).as_str());
    r
}

/// A result of a chunk stays where it belongs, whichever chunk is finished first.
pub proof fn order_of_results_is_free(
    results: Seq<Option<String>>,
    i: int,
    a: String,
    j: int,
    b: String,
)
    requires
        0 <= i < results.len(),
        0 <= j < results.len(),
        i != j,
    ensures
        results.update(i, Some(a)).update(j, Some(b)) == results.update(j, Some(b)).update(
            i,
            Some(a),
        ),
{
}

/// A translation that changes no chunk gives the text back.
pub proof fn unchanged_chunks_give_the_text(content: Seq<char>, results: Seq<Option<String>>)
    requires
        results.len() == chunks::chunks(content, CHUNK_BYTES as nat).len(),
        forall|i: int|
            0 <= i < results.len() ==> (#[trigger] results[i]) is Some && results[i]->0@
                == chunks::chunks(content, CHUNK_BYTES as nat)[i],
    ensures
        joined(results) == content,
{
    let parts = chunks::chunks(content, CHUNK_BYTES as nat);
    assert(results.map_values(|r: Option<String>| r->0@) =~= parts);
    chunk_laws::chunks_join_to_the_body(content, CHUNK_BYTES as nat);
}

// ---------------------------------------------------------------- files

/// What is to be done with a file.
pub enum FilePlan {
    /// It holds nothing: leave it as it is.
    Skip,
    /// Translate it, under this label.
    Translate { label: String },
}

/// The label of a file.
pub open spec fn label(filename: Seq<char>, is_main: bool) -> Seq<char> {
    if is_main {
        filename + " (main)"@
    } else {
        filename
    }
}

/// Decides what is to be done with a file: one with nothing but white space is
/// left alone.
pub fn plan_file(filename: &str, content: &str, is_main: bool) -> (r: FilePlan)
    ensures
        match r {
            FilePlan::Skip => text::blank(content@),
            FilePlan::Translate { label: l } => !text::blank(content@) && l@ == label(
                filename@,
                is_main,
            ),
        },
{
    if text::is_blank(content) {
        return FilePlan::Skip;
    }
    let mut l = filename.to_owned();
    if is_main {
        l.append(" (main)");
    }
    FilePlan::Translate { label: l }
}

/// The files of a paper on their way through translation.
pub struct FileRun {
    pub total: usize,
    pub completed: usize,
}

impl FileRun {
    /// No file is finished yet.
    pub fn new(total: usize) -> (r: Self)
        ensures
            r.total == total,
            r.completed == 0,
    {
        FileRun { total, completed: 0 }
    }

    /// The line that tells that translation starts.
    pub fn opening(&self) -> (r: String)
        ensures
            r@ == "  Translating ("@ + text::decimal(self.total as nat)
                + " files in parallel)..."@,
    {
        let mut r = "  Translating (".to_owned();
        r.append(text::decimal_text(self.total as u64).as_str());
        r.append(" files in parallel)...");
        r
    }

    /// Counts a file as finished. Gives the line that tells of it, unless the file
    /// was skipped.
    pub fn record(&mut self, filename: &Option<String>) -> (line: Option<String>)
        requires
            old(self).completed < old(self).total,
        ensures
            final(self).total == old(self).total,
            final(self).completed == old(self).completed + 1,
            match line {
                Some(s) => filename matches Some(name) && s@ == "  ["@ + fraction(
                    final(self).completed as nat,
                    final(self).total as nat,
                ) + "] "@ + name@,
                None => filename is None,
            },
    {
        self.completed = self.completed + 1;
        match filename {
            Some(name) => {
                let mut s = "  [".to_owned();
                s.append(fraction_text(self.completed, self.total).as_str());
                s.append("] ");
                s.append(name.as_str());
                Some(s)
            },
            None => None,
        }
    }
}

} // verus!
