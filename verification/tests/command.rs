//! The command line and the course of a run.

use ratex::command::{
    check_complete, compile_only_pdf, default_pdf, default_source_dir, Cli, Event, Run,
    SourceChoice, Step, UsageError,
};
use ratex::compiler::Compiler;

/// Reads the options that decide what a run does; which of them go together is
/// for the library to say.
fn parse(args: &[&str]) -> Cli {
    let option = |name: &'static str| clap::Arg::new(name).long(name).num_args(1);
    let matches = clap::Command::new("ratex")
        .arg(clap::Arg::new("url"))
        .arg(option("compile-only"))
        .arg(option("source-dir"))
        .arg(option("output").short('o'))
        .arg(
            clap::Arg::new("no-compile")
                .long("no-compile")
                .action(clap::ArgAction::SetTrue),
        )
        .get_matches_from(args.iter().map(|s| s.to_string()));
    let text = |name: &str| matches.get_one::<String>(name).cloned();
    Cli {
        url: text("url"),
        compile_only: text("compile-only"),
        source_dir: text("source-dir"),
        compiler: Compiler::default(),
        config: None,
        profile: None,
        api_key: None,
        model: None,
        base_url: None,
        output: text("output"),
        no_compile: matches.get_flag("no-compile"),
        concurrency: None,
    }
}

#[test]
fn cli_supports_compile_without_profile_or_paper() {
    let cli = parse(&["ratex", "--compile-only", "paper_zh_tex"]);
    assert!(cli.check().is_ok());
    assert!(cli.url.is_none());
    assert!(parse(&["ratex"]).check().is_err());
    assert!(parse(&["ratex", "2406.06608", "--compile-only", "paper"]).check().is_err());
    assert!(parse(&["ratex", "--compile-only", "paper", "--no-compile"]).check().is_err());
}

#[test]
fn options_that_exclude_each_other() {
    let error = |args: &[&str]| parse(args).check().unwrap_err();
    assert_eq!(error(&["ratex"]), UsageError::NothingToDo);
    assert_eq!(
        error(&["ratex", "x", "--compile-only", "p"]),
        UsageError::PaperAndCompileOnly
    );
    assert_eq!(
        error(&["ratex", "--compile-only", "p", "--no-compile"]),
        UsageError::CompileOnlyAndNoCompile
    );
    assert_eq!(
        error(&["ratex", "--compile-only", "p", "--source-dir", "d"]),
        UsageError::SourceDirAndCompileOnly
    );
    assert_eq!(
        UsageError::NothingToDo.message(),
        "the following required arguments were not provided:\n  <URL>"
    );
    for e in [
        UsageError::NothingToDo,
        UsageError::PaperAndCompileOnly,
        UsageError::CompileOnlyAndNoCompile,
        UsageError::SourceDirAndCompileOnly,
    ] {
        assert!(e.message().contains("argument"), "{e:?}");
    }
    assert!(parse(&["ratex", "x", "--no-compile", "--source-dir", "d"]).check().is_ok());
}

#[test]
fn source_directory_is_chosen() {
    let choice = |args: &[&str]| parse(args).source_choice();
    assert_eq!(choice(&["ratex", "x"]), Ok(SourceChoice::Default));
    assert_eq!(choice(&["ratex", "x", "-o", "y"]), Ok(SourceChoice::Default));
    assert_eq!(choice(&["ratex", "x", "-o", "y", "--no-compile"]), Ok(SourceChoice::Output));
    assert_eq!(choice(&["ratex", "x", "--source-dir", "y"]), Ok(SourceChoice::Given));
    assert_eq!(
        choice(&["ratex", "x", "-o", "y", "--source-dir", "z"]),
        Ok(SourceChoice::Given)
    );
    let error = choice(&["ratex", "x", "-o", "y", "--source-dir", "z", "--no-compile"]).unwrap_err();
    assert_eq!(error, UsageError::TwoSourceDirs);
    assert_eq!(
        error.message(),
        "With --no-compile, choose either --output or --source-dir for the source directory."
    );
}

#[test]
fn outputs_are_named_after_the_paper() {
    assert_eq!(default_source_dir("2406.06608"), "2406.06608_zh_tex");
    assert_eq!(default_pdf("2406.06608"), "2406.06608_zh.pdf");
    assert_eq!(default_source_dir("math.GT/0309136v1"), "math.GT_0309136v1_zh_tex");
    assert_eq!(default_pdf("hep-th/0601001"), "hep-th_0601001_zh.pdf");
    for id in ["2406.06608", "hep-th/0601001"] {
        assert_eq!(compile_only_pdf(&default_source_dir(id)), default_pdf(id));
    }
    assert_eq!(compile_only_pdf("paper"), "paper.pdf");
    assert_eq!(compile_only_pdf("_tex"), ".pdf");
    assert_eq!(compile_only_pdf("a_tex_tex"), "a_tex.pdf");
}

#[test]
fn incomplete_translations_are_not_compiled() {
    assert!(check_complete("/x", false).is_ok());
    let message = check_complete("/x", true).unwrap_err().message();
    assert!(message.contains("Translation is incomplete in /x."), "{message}");
}

#[test]
fn runs_take_their_steps_in_order() {
    let mut run = Run::new(false);
    let mut steps = vec![run.step];
    while run.step != Step::Finished {
        run.advance(match run.step {
            Step::CheckCompiler => Event::CompilerReady(Compiler::Latexmk),
            _ => Event::Done,
        });
        steps.push(run.step);
    }
    assert_eq!(
        steps,
        [
            Step::ResolveProfile,
            Step::CheckCompiler,
            Step::CreateSourceDir,
            Step::MarkIncomplete,
            Step::Download,
            Step::FindFiles,
            Step::Translate,
            Step::Unmark,
            Step::Compile,
            Step::Finished,
        ]
    );
    assert_eq!(run.compiler, Some(Compiler::Latexmk));
}

#[test]
fn runs_without_compiler_end_with_the_source() {
    for no_compile in [true, false] {
        let mut run = Run::new(no_compile);
        let mut last = run.step;
        let mut checked = false;
        while run.step != Step::Finished {
            last = run.step;
            checked |= last == Step::CheckCompiler;
            run.advance(match run.step {
                Step::CheckCompiler => Event::CompilerMissing,
                _ => Event::Done,
            });
        }
        assert_eq!(last, Step::Unmark);
        assert_eq!(checked, !no_compile);
        assert_eq!(run.compiler, None);
    }
}

#[test]
fn errors_end_a_run() {
    let mut run = Run::new(true);
    while run.step != Step::Translate {
        run.advance(Event::Done);
    }
    run.advance(Event::Error);
    assert_eq!(run.step, Step::Failed);
}
