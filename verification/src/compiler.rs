//! Compiling a document: which program, with which arguments, and what to make
//! of its end.

use crate::latex::files::Entry;
use crate::latex::{cjk, cjk_laws};
use crate::{outside, text, utf};
use vstd::prelude::*;

verus! {

/// The bundle of packages that Tectonic works with.
pub const TECTONIC_BUNDLE: &'static str =
    "https://data1b.fullyjustified.net/tlextras-2022.0r0.tar";

/// How many milliseconds a compilation may take.
pub const COMPILE_TIMEOUT_MILLIS: u64 = 300_000;

/// How many milliseconds to wait before looking after a compilation again.
pub const POLL_MILLIS: u64 = 25;

/// How many lines of a log an error shows.
pub const LOG_LINES: usize = 20;

/// A document that needs what translated documents need.
pub const PREFLIGHT_SOURCE: &'static str =
    "\\documentclass{article}\n\\begin{document}\n中文 {\\sffamily 中文} {\\ttfamily 中文}\n\\end{document}\n";

/// The program that compiles.
#[derive(Clone, Copy, Debug, PartialEq, Eq, Structural)]
pub enum Compiler {
    Auto,
    Tectonic,
    Latexmk,
}

impl Default for Compiler {
    fn default() -> (r: Self)
        ensures
            r == Compiler::Auto,
    {
        Compiler::Auto
    }
}

impl Compiler {
    pub open spec fn name(self) -> Seq<char> {
        match self {
            Compiler::Auto => "Auto"@,
            Compiler::Tectonic => "Tectonic"@,
            Compiler::Latexmk => "Latexmk"@,
        }
    }

    /// The name of the compiler, for messages.
    pub fn as_str(self) -> (r: &'static str)
        ensures
            r@ == self.name(),
    {
        match self {
            Compiler::Auto => "Auto",
            Compiler::Tectonic => "Tectonic",
            Compiler::Latexmk => "Latexmk",
        }
    }
}

// ---------------------------------------------------------------- preflight

/// The compilers to try, in order.
pub open spec fn candidates(requested: Compiler) -> Seq<Compiler> {
    match requested {
        Compiler::Auto => seq![Compiler::Tectonic, Compiler::Latexmk],
        c => seq![c],
    }
}

/// The search for a compiler that works: those left to try, and what went wrong
/// with the ones before.
#[derive(Debug)]
pub struct Preflight {
    pub requested: Compiler,
    pub tried: usize,
    pub errors: Vec<String>,
}

/// What to do next in the search.
#[derive(Debug)]
pub enum PreflightStep {
    /// Compile the test document with this compiler.
    Try(Compiler),
    /// None is left: fail with this message.
    GiveUp(String),
}

/// What is said of a compiler that failed.
pub open spec fn failure_line(c: Compiler, error: Seq<char>, logs: Seq<char>) -> Seq<char> {
    c.name() + ": "@ + error + " (preflight: "@ + logs + ")"@
}

/// What is said when no compiler works.
pub open spec fn no_compiler(errors: Seq<Seq<char>>) -> Seq<char> {
    "No working Chinese TeX compiler. Install Tectonic on PATH, or TeX Live/MacTeX with latexmk, XeLaTeX, xeCJK and Fandol.\n"@
        + text::join(errors, "\n"@)
}

impl Preflight {
    /// For each compiler that was tried there is one error.
    pub open spec fn wf(self) -> bool {
        &&& self.tried <= candidates(self.requested).len()
        &&& self.errors@.len() == self.tried
    }

    /// No compiler was tried yet.
    pub fn new(requested: Compiler) -> (r: Self)
        ensures
            r.wf(),
            r.requested == requested,
            r.tried == 0,
    {
        Preflight { requested, tried: 0, errors: Vec::new() }
    }

    /// The next compiler to try; the first that works is the one to take.
    pub fn next(&self) -> (r: PreflightStep)
        requires
            self.wf(),
        ensures
            match r {
                PreflightStep::Try(c) => self.tried < candidates(self.requested).len() && c
                    == candidates(self.requested)[self.tried as int],
                PreflightStep::GiveUp(s) => self.tried == candidates(self.requested).len() && s@
                    == no_compiler(text::texts(self.errors@)),
            },
    {
        let mut list: Vec<Compiler> = Vec::new();
        match self.requested {
            Compiler::Auto => {
                list.push(Compiler::Tectonic);
                list.push(Compiler::Latexmk);
            },
            c => {
                list.push(c);
            },
        }
        assert(list@ =~= candidates(self.requested));
        if self.tried < list.len() {
            PreflightStep::Try(list[self.tried])
        } else {
            let mut s =
                "No working Chinese TeX compiler. Install Tectonic on PATH, or TeX Live/MacTeX with latexmk, XeLaTeX, xeCJK and Fandol.\n".to_owned();
            s.append(text::joined(&self.errors, "\n").as_str());
            PreflightStep::GiveUp(s)
        }
    }

    /// Notes that the compiler that was tried last failed.
    pub fn failed(&mut self, error: &str, logs: &str)
        requires
            old(self).wf(),
            old(self).tried < candidates(old(self).requested).len(),
        ensures
            final(self).wf(),
            final(self).requested == old(self).requested,
            final(self).tried == old(self).tried + 1,
            text::texts(final(self).errors@) == text::texts(old(self).errors@).push(
                failure_line(
                    candidates(old(self).requested)[old(self).tried as int],
                    error@,
                    logs@,
                ),
            ),
    {
        let ghost before = text::texts(self.errors@);
        let c = match self.requested {
            Compiler::Auto => if self.tried == 0 {
                Compiler::Tectonic
            } else {
                Compiler::Latexmk
            },
            c => c,
        };
        let mut line = c.as_str().to_owned();
        line.append(": ");
        line.append(error);
        line.append(" (preflight: ");
        line.append(logs);
        line.append(")");
        let ghost x = line@;
        self.errors.push(line);
        self.tried = self.tried + 1;
        assert(text::texts(self.errors@) =~= before.push(x));
    }
}

/// The test document names no packages, so Chinese support can be added to it.
proof fn lemma_preflight_fits()
    ensures
        cjk::cjk_fits(PREFLIGHT_SOURCE@),
{
    let s = PREFLIGHT_SOURCE@;
    reveal_strlit(
        "\\documentclass{article}\n\\begin{document}\n中文 {\\sffamily 中文} {\\ttfamily 中文}\n\\end{document}\n",
    );
    reveal_strlit("\\usepackage");
    reveal_strlit("\\pdfoutput");
    assert forall|i: int| 0 <= i < s.len() - 1 && #[trigger] s[i] == '\\' implies s[i + 1] != 'u'
        && s[i + 1] != 'p' by {}
    assert forall|p: Seq<char>|
        p == "\\usepackage"@ || p == "\\pdfoutput"@ implies !#[trigger] text::occurs(s, p) by {
        if text::occurs(s, p) {
            let i = choose|i: int| text::occurs_at(s, p, i);
            let found = s.subrange(i, i + p.len());
            assert(found[0] == s[i] && found[1] == s[i + 1]);
        }
    }
    cjk_laws::documents_without_packages_fit(s);
}

/// The document that a compiler has to get through before it is relied on.
pub fn preflight_document() -> (r: String)
    ensures
        utf::bytes_of(r@) == cjk::with_cjk(PREFLIGHT_SOURCE@),
{
    proof {
        lemma_preflight_fits();
    }
    cjk::add_cjk_support(PREFLIGHT_SOURCE)
}

// ---------------------------------------------------------------- the call

/// How a document is compiled.
#[derive(Debug)]
pub struct CompilePlan {
    pub program: String,
    pub args: Vec<String>,
    /// The path of the main file is the last argument.
    pub names_main: bool,
    /// The program runs in a workspace of its own, not in the source root.
    pub in_workspace: bool,
    /// Where the result is, part by part, below the output directory.
    pub pdf: Vec<String>,
}

/// The compiler was not chosen yet.
#[derive(Clone, Copy, Debug, PartialEq, Eq, Structural)]
pub struct Unresolved;

impl Unresolved {
    /// The error in words.
    pub fn message(self) -> (r: &'static str)
        ensures
            r@ == "Resolve the compiler with check_available before compilation"@,
    {
        "Resolve the compiler with check_available before compilation"
    }
}

/// How a document is compiled: in which way depends on the compiler.
pub open spec fn plan_is(
    compiler: Compiler,
    stem: Seq<char>,
    output_dir: Seq<char>,
    p: CompilePlan,
) -> bool {
    match compiler {
        Compiler::Auto => false,
        Compiler::Tectonic => {
            &&& p.program@ == "tectonic"@
            &&& text::texts(p.args@) == seq![
                "-X"@,
                "build"@,
                "--untrusted"@,
                "--keep-logs"@,
                "--print"@,
            ]
            &&& !p.names_main
            &&& p.in_workspace
            &&& text::texts(p.pdf@) == seq![stem + ".tex"@, stem + ".pdf"@]
        },
        Compiler::Latexmk => {
            &&& p.program@ == "latexmk"@
            &&& text::texts(p.args@) == seq![
                "-norc"@,
                "-xelatex"@,
                "-cd-"@,
                "-bibtex-cond"@,
                "-interaction=nonstopmode"@,
                "-halt-on-error"@,
                "-no-shell-escape"@,
                "-outdir="@ + output_dir,
            ]
            &&& p.names_main
            &&& !p.in_workspace
            &&& text::texts(p.pdf@) == seq![stem + ".pdf"@]
        },
    }
}

/// The argument by which a compiler is told the main file, whose path is relative to
/// the directory that it runs in. It starts with a dot, so that a name with a hyphen
/// in front is no option.
pub fn main_argument(relative: &str) -> (r: String)
    ensures
        r@ == "./"@ + relative@,
{
    text::with_ending("./", relative)
}

/// Plans a compilation. `stem` is the main file's name without its ending.
pub fn compile_plan(compiler: Compiler, stem: &str, output_dir: &str) -> (r: Result<
    CompilePlan,
    Unresolved,
>)
    ensures
        match r {
            Ok(p) => compiler != Compiler::Auto && plan_is(compiler, stem@, output_dir@, p),
            Err(_) => compiler == Compiler::Auto,
        },
{
    let mut args: Vec<String> = Vec::new();
    let mut pdf: Vec<String> = Vec::new();
    match compiler {
        Compiler::Auto => Err(Unresolved),
        Compiler::Tectonic => {
            args.push("-X".to_owned());
            args.push("build".to_owned());
            args.push("--untrusted".to_owned());
            args.push("--keep-logs".to_owned());
            args.push("--print".to_owned());
            pdf.push(text::with_ending(stem, ".tex"));
            pdf.push(text::with_ending(stem, ".pdf"));
            assert(text::texts(args@) =~= seq![
                "-X"@,
                "build"@,
                "--untrusted"@,
                "--keep-logs"@,
                "--print"@,
            ]);
            assert(text::texts(pdf@) =~= seq![stem@ + ".tex"@, stem@ + ".pdf"@]);
            Ok(
                CompilePlan {
                    program: "tectonic".to_owned(),
                    args,
                    names_main: false,
                    in_workspace: true,
                    pdf,
                },
            )
        },
        Compiler::Latexmk => {
            args.push("-norc".to_owned());
            args.push("-xelatex".to_owned());
            args.push("-cd-".to_owned());
            args.push("-bibtex-cond".to_owned());
            args.push("-interaction=nonstopmode".to_owned());
            args.push("-halt-on-error".to_owned());
            args.push("-no-shell-escape".to_owned());
            args.push(text::with_ending("-outdir=", output_dir));
            pdf.push(text::with_ending(stem, ".pdf"));
            assert(text::texts(args@) =~= seq![
                "-norc"@,
                "-xelatex"@,
                "-cd-"@,
                "-bibtex-cond"@,
                "-interaction=nonstopmode"@,
                "-halt-on-error"@,
                "-no-shell-escape"@,
                "-outdir="@ + output_dir@,
            ]);
            assert(text::texts(pdf@) =~= seq![stem@ + ".pdf"@]);
            Ok(
                CompilePlan {
                    program: "latexmk".to_owned(),
                    args,
                    names_main: true,
                    in_workspace: false,
                    pdf,
                },
            )
        },
    }
}

/// A manifest for Tectonic, of quoted values: the document, the bundle, the
/// output, and the main file below the source directory.
pub open spec fn manifest(
    name: Seq<char>,
    bundle: Seq<char>,
    output: Seq<char>,
    inputs: Seq<char>,
) -> Seq<char> {
    "[doc]\nname = "@ + name + "\nbundle = "@ + bundle + "\n[[output]]\nname = "@ + output
        + "\ntype = \"pdf\"\ninputs = "@ + inputs + "\n"@
}

/// A text between double quotes.
pub open spec fn quoted(s: Seq<char>) -> Seq<char> {
    "\""@ + s + "\""@
}

/// Puts a manifest for Tectonic together from quoted values.
pub fn manifest_of(name: &str, bundle: &str, output: &str, inputs: &str) -> (r: String)
    ensures
        r@ == manifest(name@, bundle@, output@, inputs@),
{
    let mut r = "[doc]\nname = ".to_owned();
    r.append(name);
    r.append("\nbundle = ");
    r.append(bundle);
    r.append("\n[[output]]\nname = ");
    r.append(output);
    r.append("\ntype = \"pdf\"\ninputs = ");
    r.append(inputs);
    r.append("\n");
    r
}

/// Does `c` stand 256 times in a row anywhere?
fn has_long_row(cs: &Vec<char>, c: char) -> (r: bool)
    ensures
        r == exists|i: int| outside::long_row(cs@, c, i),
{
    let ghost s = cs@;
    let mut row: usize = 0;
    let mut i: usize = 0;
    while i < cs.len()
        invariant
            s == cs@,
            row <= i <= cs.len(),
            row < 256,
            forall|k: int| i - row <= k < i ==> #[trigger] s[k] == c,
            row == i || s[i - row - 1] != c,
            forall|j: int| #[trigger] outside::long_row(s, c, j) ==> i < j + 256,
        decreases cs.len() - i,
    {
        if cs[i] == c {
            row += 1;
        } else {
            row = 0;
        }
        i += 1;
        if row == 256 {
            assert(outside::long_row(s, c, i - 256));
            return true;
        }
        assert forall|j: int| #[trigger] outside::long_row(s, c, j) implies i < j + 256 by {
            if j + 256 == i {
                assert(s[i - row - 1] == c);
            }
        }
    }
    false
}

/// Can the text be quoted for a manifest?
pub fn can_be_quoted(s: &str) -> (r: bool)
    ensures
        r == outside::toml_writable(s@),
{
    let cs = text::chars_of(s);
    !has_long_row(&cs, '\'') && !has_long_row(&cs, '"')
}

/// An ending without quotes makes no row of quotes longer.
proof fn lemma_writable_with_ending(s: Seq<char>, c: char)
    requires
        forall|i: int| !#[trigger] outside::long_row(s, c, i),
        c == '\'' || c == '"',
    ensures
        forall|i: int| !#[trigger] outside::long_row(s + ".tex"@, c, i),
{
    reveal_strlit(".tex");
    let t = s + ".tex"@;
    assert forall|i: int| !#[trigger] outside::long_row(t, c, i) by {
        if outside::long_row(t, c, i) {
            if i + 256 <= s.len() {
                assert forall|k: int| i <= k < i + 256 implies #[trigger] s[k] == c by {
                    assert(t[k] == c);
                }
                assert(outside::long_row(s, c, i));
            } else {
                assert(t[s.len() as int] == c);
            }
        }
    }
}

/// The manifest for Tectonic: it keeps the source root, the main file and the
/// name of the job apart. `main` is the main file's path below the source root.
/// Both have to be such that [`can_be_quoted`] holds of them.
pub fn tectonic_manifest(stem: &str, main: &str) -> (r: String)
    requires
        outside::toml_writable(stem@),
        outside::toml_writable(main@),
    ensures
        r@ == manifest(
            outside::toml_quoted(stem@),
            outside::toml_quoted(TECTONIC_BUNDLE@),
            outside::toml_quoted(stem@ + ".tex"@),
            outside::toml_quoted(main@),
        ),
        outside::toml_plain(stem@) && outside::toml_plain(main@) ==> r@ == manifest(
            quoted(stem@),
            quoted(TECTONIC_BUNDLE@),
            quoted(stem@ + ".tex"@),
            quoted(main@),
        ),
{
    proof {
        reveal_strlit("https://data1b.fullyjustified.net/tlextras-2022.0r0.tar");
        reveal_strlit(".tex");
        assert(outside::toml_plain(TECTONIC_BUNDLE@));
        assert(outside::toml_plain(stem@) ==> outside::toml_plain(stem@ + ".tex"@));
        assert(outside::toml_writable(TECTONIC_BUNDLE@));
        lemma_writable_with_ending(stem@, '\'');
        lemma_writable_with_ending(stem@, '"');
    }
    let output = text::with_ending(stem, ".tex");
    manifest_of(
        outside::toml_quote(stem).as_str(),
        outside::toml_quote(TECTONIC_BUNDLE).as_str(),
        outside::toml_quote(output.as_str()).as_str(),
        outside::toml_quote(main).as_str(),
    )
}

// ---------------------------------------------------------------- the end

/// What to do with a compilation that was looked after.
#[derive(Clone, Copy, Debug, PartialEq, Eq, Structural)]
pub enum PollStep {
    /// It ended well.
    Done,
    /// It ended badly.
    Failed,
    /// It took too long: stop it.
    Kill,
    /// The user wants no more of it: stop it, and everything else.
    Interrupt,
    /// It is running: look again after so many milliseconds.
    Sleep { millis: u64 },
}

/// What to do with a compilation.
pub open spec fn polled(
    ended: Option<bool>,
    interrupted: bool,
    elapsed_millis: int,
    timeout_millis: int,
) -> PollStep {
    match (interrupted, ended) {
        (true, _) => PollStep::Interrupt,
        (false, Some(success)) => if success {
            PollStep::Done
        } else {
            PollStep::Failed
        },
        (false, None) => if elapsed_millis < timeout_millis {
            PollStep::Sleep { millis: POLL_MILLIS }
        } else {
            PollStep::Kill
        },
    }
}

/// Decides what to do with a compilation. `ended` says whether it ended well,
/// once it has ended; `interrupted` that the user asked to stop.
pub fn poll_step(
    ended: Option<bool>,
    interrupted: bool,
    elapsed_millis: u64,
    timeout_millis: u64,
) -> (r: PollStep)
    ensures
        r == (if interrupted {
            PollStep::Interrupt
        } else {
            match ended {
                Some(true) => PollStep::Done,
                Some(false) => PollStep::Failed,
                None => if elapsed_millis >= timeout_millis {
                    PollStep::Kill
                } else {
                    PollStep::Sleep { millis: POLL_MILLIS }
                },
            }
        }),
        r == polled(ended, interrupted, elapsed_millis as int, timeout_millis as int),
{
    if interrupted {
        return PollStep::Interrupt;
    }
    match ended {
        Some(success) => if success {
            PollStep::Done
        } else {
            PollStep::Failed
        },
        None => if elapsed_millis >= timeout_millis {
            PollStep::Kill
        } else {
            PollStep::Sleep { millis: POLL_MILLIS }
        },
    }
}

/// A line without the carriage return at its end.
pub open spec fn without_return(s: Seq<char>) -> Seq<char> {
    if s.len() > 0 && s.last() == '\r' {
        s.drop_last()
    } else {
        s
    }
}

/// The lines of a text. What follows the last line end is a line where it is
/// not empty, and keeps a carriage return.
pub open spec fn lines(s: Seq<char>) -> Seq<Seq<char>> {
    let pieces = text::split_on(s, '\n');
    let ended = pieces.drop_last().map_values(|p: Seq<char>| without_return(p));
    if pieces.last().len() == 0 {
        ended
    } else {
        ended.push(pieces.last())
    }
}

/// The last of the lines.
pub open spec fn last_lines(list: Seq<Seq<char>>) -> Seq<Seq<char>> {
    if list.len() > LOG_LINES {
        list.skip(list.len() - LOG_LINES)
    } else {
        list
    }
}

/// A line without the carriage return at its end.
fn strip_return(s: &str) -> (r: String)
    ensures
        r@ == without_return(s@),
{
    let cs = text::chars_of(s);
    if cs.len() > 0 && cs[cs.len() - 1] == '\r' {
        assert(s@.subrange(0, s@.len() - 1) =~= s@.drop_last());
        s.substring_char(0, cs.len() - 1).to_owned()
    } else {
        s.to_owned()
    }
}

/// The lines of a text.
fn lines_of(s: &str) -> (r: Vec<String>)
    ensures
        text::texts(r@) == lines(s@),
{
    let pieces = text::split(s, '\n');
    let ghost all = text::texts(pieces@);
    proof {
        text::lemma_split_nonempty(s@, '\n');
        assert(all.len() == pieces@.len());
    }
    let ghost ended = all.drop_last().map_values(|p: Seq<char>| without_return(p));
    let mut r: Vec<String> = Vec::new();
    let mut i: usize = 0;
    while i < pieces.len() - 1
        invariant
            pieces.len() > 0,
            i <= pieces.len() - 1,
            all == text::texts(pieces@),
            ended == all.drop_last().map_values(|p: Seq<char>| without_return(p)),
            text::texts(r@) == ended.take(i as int),
        decreases pieces.len() - i,
    {
        let ghost before = text::texts(r@);
        assert(all[i as int] == pieces@[i as int]@);
        let line = strip_return(pieces[i].as_str());
        let ghost x = line@;
        r.push(line);
        assert(text::texts(r@) =~= before.push(x));
        assert(ended.take(i + 1) =~= ended.take(i as int).push(ended[i as int]));
        i += 1;
    }
    assert(ended.take(i as int) =~= ended);
    let last = pieces[i].as_str();
    assert(all.last() == last@);
    if !last.is_empty() {
        let ghost before = text::texts(r@);
        r.push(last.to_owned());
        assert(text::texts(r@) =~= before.push(last@));
    }
    r
}

/// The last lines of a log, for an error.
pub fn log_tail(log: &str) -> (r: String)
    ensures
        r@ == text::join(last_lines(lines(log@)), "\n"@),
{
    let list = lines_of(log);
    let ghost all = text::texts(list@);
    let start: usize = if list.len() > LOG_LINES {
        list.len() - LOG_LINES
    } else {
        0
    };
    let mut tail: Vec<String> = Vec::new();
    let mut i: usize = start;
    while i < list.len()
        invariant
            start <= i <= list.len(),
            all == text::texts(list@),
            text::texts(tail@) == all.subrange(start as int, i as int),
        decreases list.len() - i,
    {
        let ghost before = text::texts(tail@);
        let line = list[i].clone();
        let ghost x = line@;
        tail.push(line);
        assert(text::texts(tail@) =~= before.push(x));
        assert(all.subrange(start as int, i + 1) =~= all.subrange(start as int, i as int).push(
            all[i as int],
        ));
        i += 1;
    }
    assert(all.subrange(start as int, all.len() as int) =~= last_lines(all));
    text::joined(&tail, "\n")
}

/// Why a compilation gave no document.
#[derive(Debug)]
pub enum CompileFailure {
    Exited { status: String },
    TimedOut { seconds: u64 },
    NoPdf,
}

/// A failed compilation in words; `log_path` and `log` are those of its log.
pub open spec fn failure_text(f: CompileFailure, log_path: Seq<char>, log: Seq<char>) -> Seq<
    char,
> {
    match f {
        CompileFailure::Exited { status } => "Compiler exited with "@ + status@ + "; full log: "@
            + log_path + "\n"@ + text::join(last_lines(lines(log)), "\n"@),
        CompileFailure::TimedOut { seconds } => "Compilation timed out after "@ + text::decimal(
            seconds as nat,
        ) + "s; full log: "@ + log_path,
        CompileFailure::NoPdf => "Compiler succeeded without a PDF; full log: "@ + log_path,
    }
}

impl CompileFailure {
    /// The failure in words; `log_path` and `log` are those of the log.
    pub fn message(&self, log_path: &str, log: &str) -> (r: String)
        ensures
            r@ == failure_text(*self, log_path@, log@),
    {
        match self {
            CompileFailure::Exited { status } => {
                let mut r = "Compiler exited with ".to_owned();
                r.append(status.as_str());
                r.append("; full log: ");
                r.append(log_path);
                r.append("\n");
                r.append(log_tail(log).as_str());
                r
            },
            CompileFailure::TimedOut { seconds } => {
                let mut r = "Compilation timed out after ".to_owned();
                r.append(text::decimal_text(*seconds).as_str());
                r.append("s; full log: ");
                r.append(log_path);
                r
            },
            CompileFailure::NoPdf => {
                let mut r = "Compiler succeeded without a PDF; full log: ".to_owned();
                r.append(log_path);
                r
            },
        }
    }
}

// ---------------------------------------------------------------- the root

/// The directory in which a document is compiled: the innermost one below
/// directories that hold nothing but one directory. None where it is the top.
pub open spec fn root_below(entries: Seq<Entry>) -> Option<usize>
    decreases entries,
{
    if entries.len() == 1 {
        match entries[0].children {
            Some(children) => match root_below(children@) {
                Some(id) => Some(id),
                None => Some(entries[0].id),
            },
            None => None,
        }
    } else {
        None
    }
}

/// Finds the directory in which a document is compiled. A directory that holds
/// nothing but one directory only wraps that one.
pub fn project_root(entries: &Vec<Entry>) -> (r: Option<usize>)
    ensures
        r == root_below(entries@),
    decreases entries,
{
    if entries.len() != 1 {
        return None;
    }
    let e = &entries[0];
    match &e.children {
        Some(children) => match project_root(children) {
            Some(id) => Some(id),
            None => Some(e.id),
        },
        None => None,
    }
}

} // verus!
