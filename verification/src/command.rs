//! The command line, and the course of a run.

use crate::compiler::Compiler;
use crate::text;
use vstd::prelude::*;

verus! {

/// The file that marks a source directory whose translation is not complete.
pub const INCOMPLETE_MARKER: &'static str = ".ratex-incomplete";

/// What stands in that file.
pub const INCOMPLETE_NOTE: &'static str =
    "Translation has not completed. Completed chunks are in *.ratex-chunks directories.\n";

/// What the command line says.
#[derive(Debug)]
pub struct Cli {
    pub url: Option<String>,
    pub compile_only: Option<String>,
    pub source_dir: Option<String>,
    pub compiler: Compiler,
    pub config: Option<String>,
    pub profile: Option<String>,
    pub api_key: Option<String>,
    pub model: Option<String>,
    pub base_url: Option<String>,
    pub output: Option<String>,
    pub no_compile: bool,
    pub concurrency: Option<usize>,
}

/// What is wrong with a command line.
#[derive(Clone, Copy, Debug, PartialEq, Eq, Structural)]
pub enum UsageError {
    /// Neither a paper nor a directory to compile is named.
    NothingToDo,
    /// Both a paper and a directory to compile are named.
    PaperAndCompileOnly,
    /// A directory is to be compiled and not to be compiled.
    CompileOnlyAndNoCompile,
    /// A new source directory is named, and one to compile.
    SourceDirAndCompileOnly,
    /// Two source directories are named.
    TwoSourceDirs,
}

impl UsageError {
    pub open spec fn text(self) -> Seq<char> {
        match self {
            UsageError::NothingToDo =>
                "the following required arguments were not provided:\n  <URL>"@,
            UsageError::PaperAndCompileOnly =>
                "the argument '[URL]' cannot be used with '--compile-only <COMPILE_ONLY>'"@,
            UsageError::CompileOnlyAndNoCompile =>
                "the argument '--compile-only <COMPILE_ONLY>' cannot be used with '--no-compile'"@,
            UsageError::SourceDirAndCompileOnly =>
                "the argument '--source-dir <SOURCE_DIR>' cannot be used with '--compile-only <COMPILE_ONLY>'"@,
            UsageError::TwoSourceDirs =>
                "With --no-compile, choose either --output or --source-dir for the source directory."@,
        }
    }

    /// The error in words.
    pub fn message(self) -> (r: &'static str)
        ensures
            r@ == self.text(),
    {
        match self {
            UsageError::NothingToDo => "the following required arguments were not provided:\n  <URL>",
            UsageError::PaperAndCompileOnly =>
                "the argument '[URL]' cannot be used with '--compile-only <COMPILE_ONLY>'",
            UsageError::CompileOnlyAndNoCompile =>
                "the argument '--compile-only <COMPILE_ONLY>' cannot be used with '--no-compile'",
            UsageError::SourceDirAndCompileOnly =>
                "the argument '--source-dir <SOURCE_DIR>' cannot be used with '--compile-only <COMPILE_ONLY>'",
            UsageError::TwoSourceDirs =>
                "With --no-compile, choose either --output or --source-dir for the source directory.",
        }
    }
}

/// What is wrong with a command line, if anything is.
pub open spec fn usage_error(c: Cli) -> Option<UsageError> {
    if c.url is None && c.compile_only is None {
        Some(UsageError::NothingToDo)
    } else if c.url is Some && c.compile_only is Some {
        Some(UsageError::PaperAndCompileOnly)
    } else if c.compile_only is Some && c.no_compile {
        Some(UsageError::CompileOnlyAndNoCompile)
    } else if c.compile_only is Some && c.source_dir is Some {
        Some(UsageError::SourceDirAndCompileOnly)
    } else {
        None
    }
}

/// Where the source and its translation are kept.
#[derive(Clone, Copy, Debug, PartialEq, Eq, Structural)]
pub enum SourceChoice {
    /// In the directory that was named for it.
    Given,
    /// In the directory that was named as output.
    Output,
    /// In a directory named after the paper.
    Default,
}

/// Where the source and its translation are kept: without compilation the output
/// is the source directory, and only one of the two may be named.
pub open spec fn source_choice_of(c: Cli) -> Result<SourceChoice, UsageError> {
    if c.no_compile && c.output is Some && c.source_dir is Some {
        Err(UsageError::TwoSourceDirs)
    } else if c.source_dir is Some {
        Ok(SourceChoice::Given)
    } else if c.no_compile && c.output is Some {
        Ok(SourceChoice::Output)
    } else {
        Ok(SourceChoice::Default)
    }
}

impl Cli {
    /// Holds the command line against the rules on which options go together.
    pub fn check(&self) -> (r: Result<(), UsageError>)
        ensures
            match r {
                Ok(_) => usage_error(*self) is None,
                Err(e) => usage_error(*self) == Some(e),
            },
    {
        if self.url.is_none() && self.compile_only.is_none() {
            Err(UsageError::NothingToDo)
        } else if self.url.is_some() && self.compile_only.is_some() {
            Err(UsageError::PaperAndCompileOnly)
        } else if self.compile_only.is_some() && self.no_compile {
            Err(UsageError::CompileOnlyAndNoCompile)
        } else if self.compile_only.is_some() && self.source_dir.is_some() {
            Err(UsageError::SourceDirAndCompileOnly)
        } else {
            Ok(())
        }
    }

    /// Decides where the source and its translation are kept.
    pub fn source_choice(&self) -> (r: Result<SourceChoice, UsageError>)
        ensures
            r == source_choice_of(*self),
    {
        if self.no_compile && self.output.is_some() && self.source_dir.is_some() {
            Err(UsageError::TwoSourceDirs)
        } else if self.source_dir.is_some() {
            Ok(SourceChoice::Given)
        } else if self.no_compile && self.output.is_some() {
            Ok(SourceChoice::Output)
        } else {
            Ok(SourceChoice::Default)
        }
    }
}

// ---------------------------------------------------------------- names

/// An identifier that can stand in a file name.
pub open spec fn sanitized(id: Seq<char>) -> Seq<char> {
    id.map_values(
        |c: char|
            if c == '/' {
                '_'
            } else {
                c
            },
    )
}

/// The directory that keeps a paper's source.
pub open spec fn source_dir_name(id: Seq<char>) -> Seq<char> {
    sanitized(id) + "_zh_tex"@
}

/// The file that a translated paper is compiled to.
pub open spec fn pdf_name(id: Seq<char>) -> Seq<char> {
    sanitized(id) + "_zh.pdf"@
}

/// The file that an existing source directory is compiled to.
pub open spec fn recompiled_name(dir: Seq<char>) -> Seq<char> {
    if text::occurs_at(dir, "_tex"@, dir.len() - "_tex"@.len()) {
        dir.take(dir.len() - "_tex"@.len()) + ".pdf"@
    } else {
        dir + ".pdf"@
    }
}

/// An identifier that can stand in a file name.
fn sanitize(id: &str) -> (r: String)
    ensures
        r@ == sanitized(id@),
{
    let pieces = text::split(id, '/');
    proof {
        lemma_sanitized(id@);
        reveal_strlit("_");
        assert("_"@ =~= seq!['_']);
    }
    text::joined(&pieces, "_")
}

/// Replacing the slashes is joining what lies between them with something else.
proof fn lemma_sanitized(s: Seq<char>)
    ensures
        text::join(text::split_on(s, '/'), seq!['_']) == sanitized(s),
    decreases s.len(),
{
    if s.len() == 0 {
        assert(sanitized(s) =~= Seq::<char>::empty());
    } else {
        let t = s.drop_last();
        text::lemma_split_nonempty(t, '/');
        lemma_sanitized(t);
        let before = text::split_on(t, '/');
        if s.last() == '/' {
            text::lemma_join_push(before, seq!['_'], Seq::empty());
            assert(sanitized(s) =~= sanitized(t) + seq!['_'] + Seq::<char>::empty());
        } else {
            let head = before.drop_last();
            let piece = before.last().push(s.last());
            assert(text::split_on(s, '/') =~= head.push(piece));
            assert(before =~= head.push(before.last()));
            text::lemma_join_push(head, seq!['_'], piece);
            text::lemma_join_push(head, seq!['_'], before.last());
            assert(sanitized(s) =~= sanitized(t).push(s.last()));
            assert(text::join(text::split_on(s, '/'), seq!['_']) =~= sanitized(s));
        }
    }
}

/// The directory that keeps a paper's source, where none is named.
pub fn default_source_dir(id: &str) -> (r: String)
    ensures
        r@ == source_dir_name(id@),
{
    let mut r = sanitize(id);
    r.append("_zh_tex");
    r
}

/// The file that a translated paper is compiled to, where none is named.
pub fn default_pdf(id: &str) -> (r: String)
    ensures
        r@ == pdf_name(id@),
{
    let mut r = sanitize(id);
    r.append("_zh.pdf");
    r
}

/// The file that an existing source directory of this name is compiled to, where
/// none is named.
pub fn compile_only_pdf(dir: &str) -> (r: String)
    ensures
        r@ == recompiled_name(dir@),
{
    proof {
        reveal_strlit("_tex");
    }
    let mut r = if text::ends_with(dir, "_tex") {
        let n: usize = dir.unicode_len() - 4;
        assert(dir@.take(n as int) =~= dir@.subrange(0, n as int));
        dir.substring_char(0, n).to_owned()
    } else {
        dir.to_owned()
    };
    r.append(".pdf");
    r
}

/// Compiling a paper's source directory again writes the file of the first run.
pub proof fn recompiling_writes_the_same_file(id: Seq<char>)
    ensures
        recompiled_name(source_dir_name(id)) == pdf_name(id),
{
    reveal_strlit("_tex");
    reveal_strlit("_zh_tex");
    reveal_strlit(".pdf");
    reveal_strlit("_zh.pdf");
    let dir = source_dir_name(id);
    let n = dir.len() - 4;
    assert(dir.subrange(n, n + 4) =~= "_tex"@);
    assert(dir.take(n) + ".pdf"@ =~= pdf_name(id));
}

// ---------------------------------------------------------------- the course

/// A source directory whose translation is not complete is not compiled.
#[derive(Debug)]
pub struct Incomplete {
    pub dir: String,
}

/// Refuses a source directory with a marker in it.
pub fn check_complete(dir: &str, marked: bool) -> (r: Result<(), Incomplete>)
    ensures
        match r {
            Ok(_) => !marked,
            Err(e) => marked && e.dir@ == dir@,
        },
{
    if marked {
        Err(Incomplete { dir: dir.to_owned() })
    } else {
        Ok(())
    }
}

impl Incomplete {
    /// The error in words.
    pub fn message(&self) -> (r: String)
        ensures
            r@ == "Translation is incomplete in "@ + self.dir@
                + ". Recover the saved .ratex-chunks files and remove .ratex-incomplete after finishing the source."@,
    {
        let mut r = "Translation is incomplete in ".to_owned();
        r.append(self.dir.as_str());
        r.append(
            ". Recover the saved .ratex-chunks files and remove .ratex-incomplete after finishing the source.",
        );
        r
    }
}

/// The steps of a run, from a paper to its translation.
#[derive(Clone, Copy, Debug, PartialEq, Eq, Structural)]
pub enum Step {
    ResolveProfile,
    CheckCompiler,
    CreateSourceDir,
    MarkIncomplete,
    Download,
    FindFiles,
    Translate,
    Unmark,
    Compile,
    Finished,
    Failed,
}

/// What came of a step.
#[derive(Clone, Copy, Debug, PartialEq, Eq, Structural)]
pub enum Event {
    /// The step was done.
    Done,
    /// The check found this compiler.
    CompilerReady(Compiler),
    /// The check found no compiler.
    CompilerMissing,
    /// The step could not be done.
    Error,
}

/// A run: the step it has come to, whether a document is wanted, and the
/// compiler for it once one is found.
#[derive(Clone, Copy, Debug, PartialEq, Eq, Structural)]
pub struct Run {
    pub step: Step,
    pub compile: bool,
    pub compiler: Option<Compiler>,
}

/// The event can come of the step.
pub open spec fn can_come(step: Step, event: Event) -> bool {
    match step {
        Step::Finished => false,
        Step::Failed => false,
        Step::CheckCompiler => event is CompilerReady || event is CompilerMissing,
        _ => event is Done || event is Error,
    }
}

/// The step that follows one that was done.
pub open spec fn following(run: Run) -> Step {
    match run.step {
        Step::ResolveProfile => if run.compile {
            Step::CheckCompiler
        } else {
            Step::CreateSourceDir
        },
        Step::CheckCompiler => Step::CreateSourceDir,
        Step::CreateSourceDir => Step::MarkIncomplete,
        Step::MarkIncomplete => Step::Download,
        Step::Download => Step::FindFiles,
        Step::FindFiles => Step::Translate,
        Step::Translate => Step::Unmark,
        Step::Unmark => if run.compiler is Some {
            Step::Compile
        } else {
            Step::Finished
        },
        Step::Compile => Step::Finished,
        s => s,
    }
}

/// The run after an event.
pub open spec fn next(run: Run, event: Event) -> Run {
    match event {
        Event::Done => Run { step: following(run), ..run },
        Event::CompilerReady(c) => Run { step: following(run), compiler: Some(c), ..run },
        Event::CompilerMissing => Run { step: following(run), compiler: None, ..run },
        Event::Error => Run { step: Step::Failed, ..run },
    }
}

/// The marker of an incomplete translation is in the source directory.
pub open spec fn marked(step: Step) -> bool {
    match step {
        Step::Download => true,
        Step::FindFiles => true,
        Step::Translate => true,
        Step::Unmark => true,
        _ => false,
    }
}

/// How far a run has come.
pub open spec fn rank(step: Step) -> int {
    match step {
        Step::ResolveProfile => 0,
        Step::CheckCompiler => 1,
        Step::CreateSourceDir => 2,
        Step::MarkIncomplete => 3,
        Step::Download => 4,
        Step::FindFiles => 5,
        Step::Translate => 6,
        Step::Unmark => 7,
        Step::Compile => 8,
        Step::Finished => 9,
        Step::Failed => 9,
    }
}

impl Run {
    /// A run at its start.
    pub fn new(no_compile: bool) -> (r: Self)
        ensures
            r == (Run { step: Step::ResolveProfile, compile: !no_compile, compiler: None }),
    {
        Run { step: Step::ResolveProfile, compile: !no_compile, compiler: None }
    }

    /// Takes what came of the present step, and goes to the next one. A missing
    /// compiler does not end the run: the source is translated all the same.
    pub fn advance(&mut self, event: Event)
        requires
            can_come(old(self).step, event),
        ensures
            *final(self) == next(*old(self), event),
    {
        let following = match self.step {
            Step::ResolveProfile => if self.compile {
                Step::CheckCompiler
            } else {
                Step::CreateSourceDir
            },
            Step::CheckCompiler => Step::CreateSourceDir,
            Step::CreateSourceDir => Step::MarkIncomplete,
            Step::MarkIncomplete => Step::Download,
            Step::Download => Step::FindFiles,
            Step::FindFiles => Step::Translate,
            Step::Translate => Step::Unmark,
            Step::Unmark => if self.compiler.is_some() {
                Step::Compile
            } else {
                Step::Finished
            },
            Step::Compile => Step::Finished,
            s => s,
        };
        match event {
            Event::Done => {
                self.step = following;
            },
            Event::CompilerReady(c) => {
                self.step = following;
                self.compiler = Some(c);
            },
            Event::CompilerMissing => {
                self.step = following;
                self.compiler = None;
            },
            Event::Error => {
                self.step = Step::Failed;
            },
        }
    }
}

/// A run only goes forward, so it ends.
pub proof fn runs_end(run: Run, event: Event)
    requires
        can_come(run.step, event),
    ensures
        rank(run.step) < rank(next(run, event).step) <= 9,
{
}

/// The marker is set before anything is downloaded, and is taken away only when
/// the whole translation is done; an error before that leaves it where it is.
pub proof fn marker_covers_the_translation(run: Run, event: Event)
    requires
        can_come(run.step, event),
    ensures
        next(run, event).step == Step::Download ==> run.step == Step::MarkIncomplete && event
            == Event::Done,
        next(run, event).step == Step::Unmark ==> run.step == Step::Translate && event
            == Event::Done,
        marked(run.step) && run.step != Step::Unmark ==> marked(next(run, event).step) || next(
            run,
            event,
        ).step == Step::Failed,
{
}

/// Nothing is marked, downloaded or translated unless the source directory could
/// be created: these steps follow one another from its creation on, and a run that
/// cannot create it fails.
pub proof fn existing_sources_are_left_alone(run: Run, event: Event)
    requires
        can_come(run.step, event),
    ensures
        next(run, event).step == Step::MarkIncomplete ==> run.step == Step::CreateSourceDir
            && event == Event::Done,
        next(run, event).step == Step::Download ==> run.step == Step::MarkIncomplete,
        next(run, event).step == Step::FindFiles ==> run.step == Step::Download,
        next(run, event).step == Step::Translate ==> run.step == Step::FindFiles,
        run.step == Step::CreateSourceDir && event == Event::Error ==> next(run, event).step
            == Step::Failed,
{
}

/// A run without a working compiler goes on, and ends with the source; nothing is
/// compiled without a compiler.
pub proof fn compiler_is_optional(run: Run, event: Event)
    requires
        can_come(run.step, event),
    ensures
        run.step == Step::CheckCompiler ==> next(run, event).step == Step::CreateSourceDir,
        next(run, event).step == Step::Compile ==> run.compiler is Some,
{
}

} // verus!
