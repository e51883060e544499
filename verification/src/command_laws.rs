//! What the command line means, and the course of a run.

use crate::command;
use crate::command::{Cli, Event, Run, SourceChoice, Step, UsageError};
use crate::compiler::Compiler;
use crate::text;
use vstd::prelude::*;

verus! {

/// Either a paper or a directory to compile has to be named, and not both. With a
/// directory, compiling cannot be switched off, and no other directory be named.
pub proof fn a_paper_or_a_directory_is_named(c: Cli)
    ensures
        command::usage_error(c) is None <==> (c.url is Some) != (c.compile_only is Some) && (
        c.compile_only is Some ==> !c.no_compile && c.source_dir is None),
        c.url is None && c.compile_only is None ==> command::usage_error(c) == Some(
            UsageError::NothingToDo,
        ),
        c.url is Some && c.compile_only is Some ==> command::usage_error(c) == Some(
            UsageError::PaperAndCompileOnly,
        ),
{
}

/// The source goes to the directory that was named for it. What was named as output
/// is that directory only where nothing is compiled, and then not both may be named.
pub proof fn sources_go_where_they_are_told(c: Cli)
    ensures
        command::source_choice_of(c) is Err <==> c.no_compile && c.output is Some && c.source_dir
            is Some,
        command::source_choice_of(c) == Ok::<SourceChoice, UsageError>(SourceChoice::Given)
            <==> c.source_dir is Some && !(c.no_compile && c.output is Some),
        command::source_choice_of(c) == Ok::<SourceChoice, UsageError>(SourceChoice::Output)
            <==> c.source_dir is None && c.no_compile && c.output is Some,
{
}

/// The names made from an identifier are one part of a path: a slash becomes an
/// underscore, and every other character stays.
pub proof fn names_are_one_part_of_a_path(id: Seq<char>, i: int)
    requires
        0 <= i < id.len(),
    ensures
        command::sanitized(id).len() == id.len(),
        id[i] != '/' ==> command::sanitized(id)[i] == id[i],
        id[i] == '/' ==> command::sanitized(id)[i] == '_',
        !command::sanitized(id).contains('/'),
        command::source_dir_name(id) == command::sanitized(id) + "_zh_tex"@,
        command::pdf_name(id) == command::sanitized(id) + "_zh.pdf"@,
{
    let s = command::sanitized(id);
    if s.contains('/') {
        let k = choose|k: int| 0 <= k < s.len() && s[k] == '/';
        assert(s[k] != '/');
    }
}

/// A directory is compiled to a PDF of its name, without the ending of a source
/// directory.
pub proof fn directories_name_their_pdf(dir: Seq<char>)
    ensures
        command::recompiled_name(dir + "_tex"@) == dir + ".pdf"@,
        !text::occurs_at(dir, "_tex"@, dir.len() - "_tex"@.len()) ==> command::recompiled_name(dir)
            == dir + ".pdf"@,
{
    let s = dir + "_tex"@;
    assert(s.subrange(dir.len() as int, s.len() as int) =~= "_tex"@);
    assert(s.take(dir.len() as int) =~= dir);
}

/// An error ends a run as a failure, at whatever step.
pub proof fn errors_end_runs(run: Run)
    requires
        command::can_come(run.step, Event::Error),
    ensures
        command::next(run, Event::Error).step == Step::Failed,
{
}

/// A step that is done leads to the next one: none is left out, but for the check of
/// the compiler and the compilation.
pub proof fn no_step_is_left_out(run: Run, event: Event)
    requires
        command::can_come(run.step, event),
        event != Event::Error,
    ensures
        ({
            let next = command::next(run, event);
            &&& run.step == Step::ResolveProfile && !run.compile ==> next.step
                == Step::CreateSourceDir
            &&& run.step == Step::Unmark && run.compiler is None ==> next.step == Step::Finished
            &&& !(run.step == Step::ResolveProfile && !run.compile) && !(run.step == Step::Unmark
                && run.compiler is None) ==> command::rank(next.step) == command::rank(run.step)
                + 1 && next.step != Step::Failed
            &&& next.compile == run.compile
        }),
{
}

/// The compiler that the check found is kept, and used at the end; where it found
/// none, the paper is translated and not compiled.
pub proof fn found_compilers_are_used(run: Run, c: Compiler)
    ensures
        run.step == Step::CheckCompiler ==> {
            &&& command::next(run, Event::CompilerReady(c)).compiler == Some(c)
            &&& command::next(run, Event::CompilerMissing).compiler is None
        },
        command::next(run, Event::Done).compiler == run.compiler,
        run.step == Step::Unmark && run.compiler is Some ==> command::next(run, Event::Done).step
            == Step::Compile,
        run.step == Step::ResolveProfile && run.compile ==> command::next(run, Event::Done).step
            == Step::CheckCompiler,
{
}

/// The order of the steps: work is marked before anything is downloaded, and the mark
/// goes when all is translated, before compiling.
pub proof fn steps_have_their_order()
    ensures
        command::rank(Step::ResolveProfile) < command::rank(Step::CheckCompiler),
        command::rank(Step::CheckCompiler) < command::rank(Step::CreateSourceDir),
        command::rank(Step::CreateSourceDir) < command::rank(Step::MarkIncomplete),
        command::rank(Step::MarkIncomplete) < command::rank(Step::Download),
        command::rank(Step::Download) < command::rank(Step::FindFiles),
        command::rank(Step::FindFiles) < command::rank(Step::Translate),
        command::rank(Step::Translate) < command::rank(Step::Unmark),
        command::rank(Step::Unmark) < command::rank(Step::Compile),
        command::rank(Step::Compile) < command::rank(Step::Finished),
{
}

} // verus!
