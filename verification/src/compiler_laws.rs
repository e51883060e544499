//! How compilers are called, and what is shown of their logs.

use crate::compiler;
use crate::compiler::{CompileFailure, CompilePlan, Compiler, PollStep};
use crate::latex::files::Entry;
use crate::{arxiv_laws, text, text_laws};
use vstd::prelude::*;

verus! {

/// A compiler that was asked for is the only one that is tried; otherwise Tectonic
/// comes before TeX Live.
pub proof fn asked_compilers_are_tried_alone(c: Compiler)
    ensures
        c != Compiler::Auto ==> compiler::candidates(c) == seq![c],
        compiler::candidates(Compiler::Auto).len() == 2,
        compiler::candidates(Compiler::Auto)[0] == Compiler::Tectonic,
        compiler::candidates(Compiler::Auto)[1] == Compiler::Latexmk,
        forall|i: int|
            0 <= i < compiler::candidates(c).len() ==> #[trigger] compiler::candidates(c)[i]
                != Compiler::Auto,
{
}

/// A source is not trusted: Tectonic is told so, and latexmk reads no configuration
/// and runs no shell. Neither waits for an answer.
pub proof fn sources_are_not_trusted(
    c: Compiler,
    stem: Seq<char>,
    output_dir: Seq<char>,
    p: CompilePlan,
)
    requires
        compiler::plan_is(c, stem, output_dir, p),
    ensures
        c == Compiler::Tectonic ==> p.program@ == "tectonic"@ && text::texts(p.args@).contains(
            "--untrusted"@,
        ) && text::texts(p.args@).contains("--keep-logs"@) && p.in_workspace && !p.names_main,
        c == Compiler::Latexmk ==> {
            let args = text::texts(p.args@);
            &&& p.program@ == "latexmk"@
            &&& args.contains("-norc"@)
            &&& args.contains("-no-shell-escape"@)
            &&& args.contains("-xelatex"@)
            &&& args.contains("-interaction=nonstopmode"@)
            &&& args.contains("-halt-on-error"@)
            &&& args.contains("-bibtex-cond"@)
            &&& args.contains("-cd-"@)
            &&& args.contains("-outdir="@ + output_dir)
            &&& p.names_main
            &&& !p.in_workspace
        },
        p.pdf@.len() > 0,
        text::texts(p.pdf@).last() == stem + ".pdf"@,
{
    let args = text::texts(p.args@);
    if c == Compiler::Tectonic {
        assert(args[2] == "--untrusted"@);
        assert(args[3] == "--keep-logs"@);
    } else {
        assert(args[0] == "-norc"@);
        assert(args[1] == "-xelatex"@);
        assert(args[2] == "-cd-"@);
        assert(args[3] == "-bibtex-cond"@);
        assert(args[4] == "-interaction=nonstopmode"@);
        assert(args[5] == "-halt-on-error"@);
        assert(args[6] == "-no-shell-escape"@);
        assert(args[7] == "-outdir="@ + output_dir);
    }
    assert(text::texts(p.pdf@).len() == p.pdf@.len());
}

/// At most twenty lines are shown of a log: the last ones, and all where there are
/// no more.
pub proof fn tails_are_the_last_lines(list: Seq<Seq<char>>)
    ensures
        compiler::last_lines(list).len() <= 20,
        list.len() <= 20 ==> compiler::last_lines(list) == list,
        list.len() > 20 ==> compiler::last_lines(list) == list.skip(list.len() - 20),
{
}

proof fn lemma_no_return(s: Seq<char>, pieces: Seq<Seq<char>>)
    requires
        !s.contains('\r'),
        pieces == text::split_on(s, '\n'),
    ensures
        pieces.drop_last().map_values(|p: Seq<char>| compiler::without_return(p))
            == pieces.drop_last(),
{
    text::lemma_split_nonempty(s, '\n');
    let mapped = pieces.drop_last().map_values(|p: Seq<char>| compiler::without_return(p));
    assert forall|k: int| 0 <= k < mapped.len() implies mapped[k] == pieces[k] by {
        lemma_piece_chars(s, k);
        if pieces[k].len() > 0 {
            assert(pieces[k].contains(pieces[k].last())) by {
                assert(pieces[k][pieces[k].len() - 1] == pieces[k].last());
            }
        }
    }
    assert(mapped =~= pieces.drop_last());
}

/// The characters of a piece are characters of the text.
proof fn lemma_piece_chars(s: Seq<char>, k: int)
    requires
        0 <= k < text::split_on(s, '\n').len(),
    ensures
        forall|c: char| #[trigger] text::split_on(s, '\n')[k].contains(c) ==> s.contains(c),
    decreases s.len(),
{
    let all = text::split_on(s, '\n');
    if s.len() > 0 {
        let head = s.drop_last();
        let before = text::split_on(head, '\n');
        text::lemma_split_nonempty(head, '\n');
        assert forall|c: char| #[trigger] all[k].contains(c) implies s.contains(c) by {
            let i = choose|i: int| 0 <= i < all[k].len() && all[k][i] == c;
            if k < before.len() {
                lemma_piece_chars(head, k);
                if i < before[k].len() && before[k][i] == c {
                    assert(before[k].contains(c));
                    let j = choose|j: int| 0 <= j < head.len() && head[j] == c;
                    assert(s[j] == c);
                } else {
                    assert(c == s.last());
                    assert(s[s.len() - 1] == c);
                }
            }
        }
    }
}

/// A log of a few lines, without carriage returns, is shown as it is, apart from the
/// line end behind it.
pub proof fn short_logs_are_shown_whole(s: Seq<char>)
    requires
        s.len() > 0,
        s.last() != '\n',
        !s.contains('\r'),
        compiler::lines(s).len() <= 20,
    ensures
        text::join(compiler::last_lines(compiler::lines(s)), "\n"@) == s,
        compiler::lines(s.push('\n')) == compiler::lines(s),
{
    let pieces = text::split_on(s, '\n');
    lemma_no_return(s, pieces);
    text_laws::pieces_lie_between_separators(s, '\n');
    lemma_last_piece(s);
    assert(compiler::lines(s) =~= pieces);
    reveal_strlit("\n");
    assert("\n"@ =~= seq!['\n']);
    let t = s.push('\n');
    assert(t.drop_last() =~= s);
    let more = text::split_on(t, '\n');
    assert(more == pieces.push(Seq::<char>::empty()));
    assert(more.drop_last() =~= pieces);
    let mapped = more.drop_last().map_values(|p: Seq<char>| compiler::without_return(p));
    assert forall|k: int| 0 <= k < mapped.len() implies mapped[k] == pieces[k] by {
        lemma_piece_chars(s, k);
        if pieces[k].len() > 0 {
            assert(pieces[k][pieces[k].len() - 1] == pieces[k].last());
            assert(pieces[k].contains(pieces[k].last()));
        }
    }
    assert(mapped =~= pieces);
}

proof fn lemma_last_piece(s: Seq<char>)
    requires
        s.len() > 0,
        s.last() != '\n',
    ensures
        text::split_on(s, '\n').last().len() > 0,
{
    text::lemma_split_nonempty(s.drop_last(), '\n');
}

/// The lines of a log hold no line ends.
pub proof fn lines_hold_no_line_ends(s: Seq<char>, k: int)
    requires
        0 <= k < compiler::lines(s).len(),
    ensures
        !compiler::lines(s)[k].contains('\n'),
{
    let pieces = text::split_on(s, '\n');
    text_laws::pieces_lie_between_separators(s, '\n');
    assert(!pieces[k].contains('\n'));
    let line = compiler::lines(s)[k];
    if line.contains('\n') {
        let i = choose|i: int| 0 <= i < line.len() && line[i] == '\n';
        assert(pieces[k][i] == '\n');
    }
}

/// A directory with nothing but one directory in it is a wrapper: the project is in
/// that one, or deeper where that is a wrapper too. Anything else is the project.
pub proof fn wrappers_are_entered(entries: Seq<Entry>)
    ensures
        entries.len() != 1 ==> compiler::root_below(entries) is None,
        entries.len() == 1 && entries[0].children is None ==> compiler::root_below(entries) is None,
        entries.len() == 1 && entries[0].children is Some ==> {
            let inner = compiler::root_below(entries[0].children->0@);
            compiler::root_below(entries) == (if inner is Some {
                inner
            } else {
                Some(entries[0].id)
            })
        },
{
}

/// A compilation is stopped when the user asks for it, or when its time is over and
/// it has not ended. How it ended decides what comes of it; until then it is looked
/// at again after a moment.
pub proof fn compilations_end_or_are_stopped(
    ended: Option<bool>,
    interrupted: bool,
    elapsed: int,
    timeout: int,
)
    ensures
        ({
            let r = compiler::polled(ended, interrupted, elapsed, timeout);
            &&& r == PollStep::Interrupt <==> interrupted
            &&& r == PollStep::Done <==> !interrupted && ended == Some(true)
            &&& r == PollStep::Failed <==> !interrupted && ended == Some(false)
            &&& r == PollStep::Kill <==> !interrupted && ended is None && timeout <= elapsed
            &&& r matches PollStep::Sleep { millis } ==> 0 < millis <= 100 && elapsed < timeout
        }),
{
}

proof fn lemma_lines_behind(a: Seq<char>, piece: Seq<char>, b: Seq<char>)
    requires
        !piece.contains('\n'),
        a == compiler::without_return(piece),
    ensures
        compiler::lines(piece + seq!['\n'] + b) == seq![a] + compiler::lines(b),
{
    let s = piece + seq!['\n'] + b;
    arxiv_laws::lemma_split_concat(piece, b, '\n');
    arxiv_laws::lemma_split_none(piece, '\n');
    let rest = text::split_on(b, '\n');
    let all = text::split_on(s, '\n');
    text::lemma_split_nonempty(b, '\n');
    assert(all == seq![piece] + rest);
    assert(all.last() == rest.last());
    assert(all.drop_last() =~= seq![piece] + rest.drop_last());
    assert(compiler::lines(s) =~= seq![a] + compiler::lines(b));
}

/// A line ends with a line end, and a carriage return before that belongs to the end.
pub proof fn line_ends_may_have_a_carriage_return(a: Seq<char>, b: Seq<char>)
    requires
        !a.contains('\n'),
    ensures
        compiler::lines(a + seq!['\r', '\n'] + b) == seq![a] + compiler::lines(b),
        a.len() == 0 || a.last() != '\r' ==> compiler::lines(a + seq!['\n'] + b) == seq![a]
            + compiler::lines(b),
        compiler::lines(Seq::<char>::empty()).len() == 0,
{
    let piece = a.push('\r');
    if piece.contains('\n') {
        let i = choose|i: int| 0 <= i < piece.len() && piece[i] == '\n';
        assert(a[i] == '\n');
    }
    assert(piece.drop_last() =~= a);
    lemma_lines_behind(a, piece, b);
    assert(piece + seq!['\n'] + b =~= a + seq!['\r', '\n'] + b);
    if a.len() == 0 || a.last() != '\r' {
        lemma_lines_behind(a, a, b);
    }
    assert(compiler::lines(Seq::<char>::empty()) =~= Seq::<Seq<char>>::empty());
}

/// A failure names the log, and one that the compiler reported shows the end of it.
pub proof fn failures_show_the_log(f: CompileFailure, path: Seq<char>, log: Seq<char>)
    ensures
        exists|a: Seq<char>, b: Seq<char>|
            compiler::failure_text(f, path, log) == #[trigger] (a + path + b),
        f is Exited ==> exists|a: Seq<char>|
            compiler::failure_text(f, path, log) == #[trigger] (a + text::join(
                compiler::last_lines(compiler::lines(log)),
                "\n"@,
            )),
{
    let none = Seq::<char>::empty();
    match f {
        CompileFailure::Exited { status } => {
            let a = "Compiler exited with "@ + status@ + "; full log: "@;
            let tail = text::join(compiler::last_lines(compiler::lines(log)), "\n"@);
            assert(compiler::failure_text(f, path, log) =~= a + path + ("\n"@ + tail));
            assert(compiler::failure_text(f, path, log) == (a + path + "\n"@) + tail);
        },
        CompileFailure::TimedOut { seconds } => {
            let a = "Compilation timed out after "@ + text::decimal(seconds as nat)
                + "s; full log: "@;
            assert(compiler::failure_text(f, path, log) =~= a + path + none);
        },
        CompileFailure::NoPdf => {
            assert(compiler::failure_text(f, path, log)
                =~= "Compiler succeeded without a PDF; full log: "@ + path + none);
        },
    }
}

} // verus!
