//! Compiling documents.

use ratex::compiler::{
    can_be_quoted, compile_plan, log_tail, main_argument, manifest_of, poll_step, preflight_document, project_root,
    tectonic_manifest, CompileFailure, Compiler, PollStep, Preflight, PreflightStep,
    COMPILE_TIMEOUT_MILLIS, TECTONIC_BUNDLE,
};
use ratex::latex::cjk::CJK_LINES;
use ratex::latex::files::Entry;

#[test]
fn compilers_are_tried_in_order() {
    assert_eq!(Compiler::default(), Compiler::Auto);
    let mut search = Preflight::new(Compiler::Auto);
    assert!(matches!(search.next(), PreflightStep::Try(Compiler::Tectonic)));
    search.failed("no tectonic", "/tmp/a");
    assert!(matches!(search.next(), PreflightStep::Try(Compiler::Latexmk)));
    search.failed("no latexmk", "/tmp/b");
    match search.next() {
        PreflightStep::GiveUp(message) => assert_eq!(
            message,
            "No working Chinese TeX compiler. Install Tectonic on PATH, or TeX Live/MacTeX with latexmk, XeLaTeX, xeCJK and Fandol.\nTectonic: no tectonic (preflight: /tmp/a)\nLatexmk: no latexmk (preflight: /tmp/b)"
        ),
        other => panic!("{other:?}"),
    }
    for compiler in [Compiler::Tectonic, Compiler::Latexmk] {
        let mut search = Preflight::new(compiler);
        assert!(matches!(search.next(), PreflightStep::Try(c) if c == compiler));
        search.failed("x", "y");
        assert!(matches!(search.next(), PreflightStep::GiveUp(_)));
        assert_eq!(search.errors, [format!("{}: x (preflight: y)", compiler.as_str())]);
    }
}

#[test]
fn preflight_needs_what_translations_need() {
    let document = preflight_document();
    let start = format!("\\documentclass{{article}}{CJK_LINES}\n\\begin{{document}}");
    assert!(document.starts_with(&start));
    assert!(document.contains("{\\sffamily 中文} {\\ttfamily 中文}"));
}

#[test]
fn plans_fit_their_compilers() {
    let plan = compile_plan(Compiler::Tectonic, "paper.v1", "/out").unwrap();
    assert_eq!(plan.program, "tectonic");
    assert_eq!(plan.args, ["-X", "build", "--untrusted", "--keep-logs", "--print"]);
    assert!(plan.in_workspace && !plan.names_main);
    assert_eq!(plan.pdf, ["paper.v1.tex", "paper.v1.pdf"]);
    let plan = compile_plan(Compiler::Latexmk, "paper.v1", "/out").unwrap();
    assert_eq!(plan.program, "latexmk");
    assert_eq!(
        plan.args,
        [
            "-norc", "-xelatex", "-cd-", "-bibtex-cond", "-interaction=nonstopmode",
            "-halt-on-error", "-no-shell-escape", "-outdir=/out"
        ]
    );
    assert!(!plan.in_workspace && plan.names_main);
    assert_eq!(plan.pdf, ["paper.v1.pdf"]);
    let error = compile_plan(Compiler::Auto, "x", "y").unwrap_err();
    assert_eq!(
        error.message(),
        "Resolve the compiler with check_available before compilation"
    );
}

#[test]
fn manifest_preserves_entry_and_jobname() {
    let text = tectonic_manifest("paper.v1", "nested/paper.v1.tex");
    assert_eq!(
        text,
        manifest_of(
            "\"paper.v1\"",
            &format!("\"{TECTONIC_BUNDLE}\""),
            "\"paper.v1.tex\"",
            "\"nested/paper.v1.tex\""
        )
    );
    let config: toml::Value = text.parse().unwrap();
    assert_eq!(config["doc"]["name"].as_str(), Some("paper.v1"));
    assert_eq!(config["doc"]["bundle"].as_str(), Some(TECTONIC_BUNDLE));
    assert_eq!(config["output"][0]["name"].as_str(), Some("paper.v1.tex"));
    assert_eq!(config["output"][0]["type"].as_str(), Some("pdf"));
    assert_eq!(
        config["output"][0]["inputs"].as_str(),
        Some("nested/paper.v1.tex")
    );
}

#[test]
fn manifest_quotes_what_needs_quoting() {
    for stem in ["a\"b", "a\\b", "a'b", "a\nb", "译文", "a\u{7f}\u{1}", "", "'''\"\"\""] {
        let config: toml::Value = tectonic_manifest(stem, "x y.tex").parse().unwrap();
        assert_eq!(config["doc"]["name"].as_str(), Some(stem));
        assert_eq!(config["output"][0]["inputs"].as_str(), Some("x y.tex"));
    }
    // Plain texts stand between double quotes as they are.
    let plain: String = (' '..='~').filter(|c| *c != '"' && *c != '\\').collect();
    assert!(tectonic_manifest(&plain, "m").starts_with(&format!("[doc]\nname = \"{plain}\"\n")));
}

#[test]
fn compilations_are_looked_after() {
    assert_eq!(COMPILE_TIMEOUT_MILLIS, 300_000);
    assert_eq!(poll_step(Some(true), false, 900, 50), PollStep::Done);
    assert_eq!(poll_step(Some(false), false, 0, 50), PollStep::Failed);
    assert_eq!(poll_step(None, false, 49, 50), PollStep::Sleep { millis: 25 });
    assert_eq!(poll_step(None, false, 50, 50), PollStep::Kill);
    assert_eq!(poll_step(None, true, 0, 50), PollStep::Interrupt);
    assert_eq!(poll_step(None, true, 50, 50), PollStep::Interrupt);
    assert_eq!(poll_step(Some(true), true, 0, 50), PollStep::Interrupt);
}

#[test]
fn errors_show_the_end_of_the_log() {
    assert_eq!(log_tail(""), "");
    assert_eq!(log_tail("a\r\nb\n\nc\r"), "a\nb\n\nc\r");
    assert_eq!(log_tail("a\n"), "a");
    let long: String = (0..30).map(|i| format!("line {i}\n")).collect();
    let expected: Vec<String> = (10..30).map(|i| format!("line {i}")).collect();
    assert_eq!(log_tail(&long), expected.join("\n"));
    for log in ["", "\n", "a", "a\nb\r\n\rc\n\n", &long] {
        let lines: Vec<_> = log.lines().collect();
        assert_eq!(log_tail(log), lines[lines.len().saturating_sub(20)..].join("\n"), "{log:?}");
    }
}

#[test]
fn failed_compilations_in_words() {
    let exited = CompileFailure::Exited {
        status: "exit status: 2".to_string(),
    };
    assert_eq!(
        exited.message("/x.log", "a\nb\n"),
        "Compiler exited with exit status: 2; full log: /x.log\na\nb"
    );
    assert_eq!(
        CompileFailure::TimedOut { seconds: 300 }.message("/x.log", ""),
        "Compilation timed out after 300s; full log: /x.log"
    );
    assert_eq!(
        CompileFailure::NoPdf.message("/x.log", ""),
        "Compiler succeeded without a PDF; full log: /x.log"
    );
}

#[test]
fn wrappers_around_a_project_are_stripped() {
    let file = |id| Entry {
        name: "f".to_string(),
        id,
        children: None,
    };
    let dir = |id, children| Entry {
        name: "d".to_string(),
        id,
        children: Some(children),
    };
    assert_eq!(project_root(&vec![]), None);
    assert_eq!(project_root(&vec![file(1)]), None);
    assert_eq!(project_root(&vec![dir(1, vec![file(2)])]), Some(1));
    assert_eq!(project_root(&vec![dir(1, vec![dir(2, vec![file(3), file(4)])])]), Some(2));
    assert_eq!(project_root(&vec![dir(1, vec![file(2)]), file(3)]), None);
}

#[test]
fn long_rows_of_quotes_cannot_be_quoted() {
    let row = |c: &str, n: usize| format!("a{}b", c.repeat(n));
    for c in ["'", "\""] {
        assert!(can_be_quoted(&row(c, 255)));
        assert!(!can_be_quoted(&row(c, 256)));
        assert!(!can_be_quoted(&row(c, 300)));
    }
    assert!(can_be_quoted(&row("x", 300)));
    assert!(can_be_quoted(&"'\"".repeat(300)));
    assert!(can_be_quoted(""));
    let manifest = tectonic_manifest(&row("'", 255), "m.tex");
    assert!(manifest.contains(&"'".repeat(255)));
}

#[test]
fn main_files_are_no_options() {
    assert_eq!(main_argument("main.tex"), "./main.tex");
    assert_eq!(main_argument("-shell-escape.tex"), "./-shell-escape.tex");
    assert_eq!(main_argument("sub/é.tex"), "./sub/é.tex");
}
