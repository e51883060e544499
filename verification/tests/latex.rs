//! Editing, cutting and putting together LaTeX sources.

use ratex::latex::bibliography::{
    bibliography_files, inline_missing_bibliography, plan_bibliography,
    try_inline_missing_bibliography, BibliographyError, Found,
};
use ratex::latex::chunks::split_into_chunks;
use ratex::latex::cjk::{add_cjk_support, try_add_cjk_support, CJK_LINES};
use ratex::latex::course::{FileCourse, FileEvent, FileStep};
use ratex::latex::document::{document_body, translate_tex_file, try_translate_tex_file};
use ratex::latex::edits::{sort_edits, try_apply, Edit};
use ratex::latex::files::{
    find_main_tex, find_tex_files, is_tex_name, is_work_dir, Entry, FileError,
};
use ratex::latex::progress::{
    chunk_failure, chunk_file_name, plan_file, ChunkRun, FilePlan, FileRun, CHUNK_BYTES,
};
use ratex::latex::scan::{commands, group_end, uncommented, Call};

#[test]
fn add_cjk_support_neutralizes_pdfoutput() {
    let src = "\\pdfoutput=1\n\\documentclass{article}\n\\usepackage{hyperref}\n\\begin{document}\nhi\n\\end{document}\n";
    let out = add_cjk_support(src);
    // XeTeX must not see the pdfTeX-only assignment.
    assert!(
        !out.lines()
            .any(|l| l.trim_start().starts_with("\\pdfoutput")),
        "uncommented \\pdfoutput remained:\n{out}"
    );
    assert!(
        out.contains("\\usepackage{xeCJK}"),
        "CJK package missing:\n{out}"
    );
}

#[test]
fn add_cjk_support_still_removes_fontenc_inputenc() {
    let src = "\\documentclass{article}\n\\usepackage[T1]{fontenc}\n\\usepackage[utf8]{inputenc}\n\\begin{document}\n\\end{document}\n";
    let out = add_cjk_support(src);
    let active_pkgs: Vec<&str> = out
        .lines()
        .filter(|l| !l.trim_start().starts_with('%') && l.contains("\\usepackage"))
        .collect();
    assert!(
        !active_pkgs.iter().any(|l| l.contains("fontenc")),
        "fontenc still active in:\n{}",
        active_pkgs.join("\n")
    );
    assert!(
        !active_pkgs.iter().any(|l| l.contains("inputenc")),
        "inputenc still active in:\n{}",
        active_pkgs.join("\n")
    );
}

#[test]
fn cjk_edits_preserve_comments_packages_and_multiline_class() {
    let src = [
        "% \\documentclass{ignored}\n",
        "\\documentclass[\n11pt,foo={]} % closing ] inside braces/comment\n]{article}% class note\n",
        "\\usepackage[T1]{fontenc} \\usepackage{amsmath}% keep this\n",
        "\\usepackage{inputenc,graphicx}\n",
        "\\usepackage{hyperref} % fontenc is mentioned only in a comment\n",
        "% end preamble\n",
    ]
    .concat();
    let out = add_cjk_support(&src);
    assert!(out.starts_with("% \\documentclass{ignored}\n\\documentclass["));
    assert!(out.find("]{article}").unwrap() < out.find("\\usepackage{xeCJK}").unwrap());
    assert!(out.contains(" \\usepackage{amsmath}% keep this\n"));
    assert!(out.contains("\\usepackage{graphicx}\n"));
    assert!(out.contains("\\usepackage{hyperref} % fontenc is mentioned only in a comment\n"));
    assert!(out.ends_with("% end preamble\n"));
    assert_eq!(
        uncommented("\\% kept % 隐藏\n\\\\% hidden\n"),
        "\\% kept         \n\\\\        \n"
    );
}

#[test]
fn chunking_retains_original_separators() {
    let src = "\n\n\\section{One}\nText.% comment\n\n\n\\section{Two}\nMore text.\n\n";
    assert_eq!(split_into_chunks(src, 24).concat(), src);
    assert_eq!(split_into_chunks("\n\n\n\n", 1).concat(), "\n\n\n\n");
}

// ---------------------------------------------------------------- scanning

#[test]
fn comments_are_masked_byte_by_byte() {
    for text in ["", "%", "a%b\nc", "é%é\n\\%é", "\\\\%x\n\\\\\\%y", "%\\\n%", "\n\n%%\n"] {
        let masked = uncommented(text);
        assert_eq!(masked.len(), text.len(), "{text:?}");
        for (m, b) in masked.bytes().zip(text.bytes()) {
            assert!(m == b || m == b' ', "{text:?}");
            assert_eq!(m == b'\n', b == b'\n', "{text:?}");
        }
    }
    assert_eq!(uncommented("é%é\n\\%é"), "é   \n\\%é");
    assert_eq!(uncommented("\\\\%x\n\\\\\\%y"), "\\\\  \n\\\\\\%y");
    assert_eq!(uncommented("%\\\n%a"), "  \n  ");
}

#[test]
fn groups_end_behind_their_closer() {
    assert_eq!(group_end(b"{a}b", 0), Some(3));
    assert_eq!(group_end(b"{a{b}c}d", 0), Some(7));
    assert_eq!(group_end(b"[a{]}b]c", 0), Some(7));
    assert_eq!(group_end(b"[a}b]", 0), Some(5));
    assert_eq!(group_end(b"{a\\}b}", 0), Some(6));
    assert_eq!(group_end(b"{a\\\\}b}", 0), Some(5));
    assert_eq!(group_end(b"{a", 0), None);
    assert_eq!(group_end(b"{", 0), None);
    assert_eq!(group_end(b"x[y]", 1), Some(4));
    // What stands before the group does not escape its first byte.
    assert_eq!(group_end(b"\\{}", 1), Some(3));
}

#[test]
fn commands_need_complete_arguments() {
    let call = |start, end, arg_start, arg_end| Call {
        start,
        end,
        arg_start,
        arg_end,
    };
    assert_eq!(commands("\\a{b}", "\\a"), vec![call(0, 5, 3, 4)]);
    assert_eq!(commands("\\a [x]\n\t{b}", "\\a"), vec![call(0, 11, 9, 10)]);
    assert_eq!(commands("\\a{b} \\a{}", "\\a"), vec![call(0, 5, 3, 4), call(6, 10, 9, 9)]);
    // A command may stand inside the argument of another one.
    assert_eq!(commands("\\a{\\a{b}}", "\\a"), vec![call(0, 9, 3, 8), call(3, 8, 6, 7)]);
    assert_eq!(commands("\\\\a{b}", "\\a"), vec![]);
    assert_eq!(commands("\\\\\\a{b}", "\\a"), vec![call(2, 7, 5, 6)]);
    for text in ["\\a", "\\ab{c}", "\\a[x{b}", "\\a{b", "\\a[x]", "\\a[x][y]{b}", "\\a\u{a0}{b}"] {
        assert_eq!(commands(text, "\\a"), vec![], "{text:?}");
    }
}

// ---------------------------------------------------------------- edits

fn edit(start: usize, end: usize, text: &str) -> Edit {
    Edit {
        start,
        end,
        text: text.to_string(),
    }
}

#[test]
fn sorting_keeps_the_order_of_equal_starts() {
    let sorted = sort_edits(vec![
        edit(5, 5, "a"),
        edit(1, 2, "b"),
        edit(5, 6, "c"),
        edit(0, 0, "d"),
        edit(5, 5, "e"),
        edit(1, 1, "f"),
    ]);
    let texts: Vec<_> = sorted.iter().map(|e| e.text.as_str()).collect();
    assert_eq!(texts, ["d", "b", "f", "a", "c", "e"]);
    assert!(sort_edits(vec![]).is_empty());
}

#[test]
fn edits_apart_are_made_where_they_stand() {
    let edits = vec![edit(0, 1, "xyz"), edit(2, 2, "-"), edit(3, 6, "")];
    assert_eq!(try_apply("abcdefg", &edits).unwrap(), "xyzb-cg");
    assert_eq!(try_apply("abc", &vec![]).unwrap(), "abc");
}

#[test]
fn edits_that_do_not_fit_are_refused() {
    assert!(try_apply("abc", &vec![edit(2, 1, "")]).is_none());
    assert!(try_apply("abc", &vec![edit(2, 4, "")]).is_none());
    assert!(try_apply("é", &vec![edit(1, 2, "")]).is_none());
    // The later edit leaves too little for the earlier one.
    assert!(try_apply("abcdef", &vec![edit(0, 6, "x"), edit(1, 5, "")]).is_none());
    assert_eq!(
        try_apply("abcdef", &vec![edit(0, 2, "x"), edit(1, 5, "12")]).unwrap(),
        "x2f"
    );
}

// ---------------------------------------------------------------- Chinese support

#[test]
fn support_goes_behind_the_first_class() {
    let src = "\\documentclass{a}\n\\documentclass{b}";
    let expected = format!("\\documentclass{{a}}{CJK_LINES}\n\\documentclass{{b}}");
    assert_eq!(add_cjk_support(src), expected);
    assert_eq!(add_cjk_support("no class here"), "no class here");
}

#[test]
fn encoding_packages_go_and_others_stay() {
    let src = "\\usepackage[x]{fontenc}\\usepackage{ a , inputenc,b}\\usepackage{c,d}";
    assert_eq!(add_cjk_support(src), "\\usepackage{a,b}\\usepackage{c,d}");
    assert_eq!(add_cjk_support("\\usepackage{inputenc,fontenc}."), ".");
    assert_eq!(add_cjk_support("\\usepackage{a,,fontenc}"), "\\usepackage{a,}");
}

#[test]
fn output_directives_go() {
    for directive in [
        "\\pdfoutput=1",
        "\\pdfoutput 1",
        "\\pdfoutput\u{3000}=\n12",
        "\\pdfoutput0",
        "\\pdfoutput\u{a0}\u{2003}= \t7",
    ] {
        assert_eq!(add_cjk_support(&format!("é{directive}x")), "éx", "{directive:?}");
    }
    for kept in ["\\pdfoutput", "\\pdfoutput=", "\\pdfoutput==1", "\\pdfoutput=x", "\\pdfoutput=٣"] {
        assert_eq!(add_cjk_support(kept), kept);
    }
    assert_eq!(add_cjk_support("\\pdfoutput=1\\pdfoutput=2"), "");
}

#[test]
fn nothing_behind_the_preamble_is_edited() {
    let src = "\\usepackage{fontenc}\\begin{ document }\\usepackage{fontenc}\\pdfoutput=1";
    assert_eq!(
        add_cjk_support(src),
        "\\begin{ document }\\usepackage{fontenc}\\pdfoutput=1"
    );
    let commented = "%\\begin{document}\n\\usepackage{fontenc}%\\pdfoutput=1";
    assert_eq!(add_cjk_support(commented), "%\\begin{document}\n%\\pdfoutput=1");
}

#[test]
fn preamble_is_edited_alone() {
    let preamble = "\\documentclass{a}\n\\usepackage{fontenc}é\\pdfoutput=1\n";
    for rest in ["\\begin{document}", "\\begin{document}x\\usepackage{inputenc}", ""] {
        let whole = add_cjk_support(&format!("{preamble}{rest}"));
        assert_eq!(whole, format!("{}{rest}", add_cjk_support(preamble)));
    }
    for kept in ["", "text", "\\usepackage{xeCJK}%\\documentclass{a}", "\\begin{document}\\pdfoutput=1"] {
        assert_eq!(add_cjk_support(kept), kept);
    }
}

#[test]
fn edits_inside_each_other_are_refused() {
    let nested = "\\usepackage[\\usepackage{fontenc}]{inputenc}";
    assert!(try_add_cjk_support(nested).is_none());
    assert!(try_translate_tex_file(&format!("{nested}\\begin{{document}}"), true, "x").is_none());
}

// ---------------------------------------------------------------- chunks

#[test]
fn small_bodies_are_one_chunk() {
    assert_eq!(split_into_chunks("", 0), [""]);
    assert_eq!(split_into_chunks("", 10), [""]);
    assert_eq!(split_into_chunks("\\section{a}\n\\section{b}", 23), ["\\section{a}\n\\section{b}"]);
}

#[test]
fn headings_and_paragraphs_bound_chunks() {
    let body = "intro\n\\section{a}\none\n\ntwo\n\nthree\n  \\section{no}\n\\part*{b}\nend";
    let chunks = split_into_chunks(body, 20);
    assert_eq!(
        chunks,
        [
            "intro\n",
            "\\section{a}\none\n\n",
            "two\n\n",
            "three\n  \\section{no}\n",
            "\\part*{b}\nend"
        ]
    );
    assert_eq!(chunks.concat(), body);
    let chunks = split_into_chunks(body, 22);
    assert_eq!(chunks[1], "\\section{a}\none\n\ntwo\n\n");
    assert_eq!(chunks.concat(), body);
}

#[test]
fn all_sectioning_commands_are_headings() {
    for name in ["section", "subsection", "subsubsection", "chapter", "part"] {
        for star in ["", "*"] {
            let body = format!("x\n\\{name}{star}{{y}}");
            assert_eq!(split_into_chunks(&body, 2), ["x\n", &body[2..]], "{body}");
        }
    }
    for other in ["\\sectional{y}", "\\section {y}", "\\section**{y}", "\\paragraph{y}", "section{y}"] {
        let body = format!("x\n{other}");
        assert_eq!(split_into_chunks(&body, 2), [body.clone()], "{body}");
    }
    assert_eq!(split_into_chunks("\\part{y}\r\\part{z}", 2), ["\\part{y}\r\\part{z}"]);
}

#[test]
fn long_paragraphs_stay_whole() {
    let body = "aaaa\n\n\n\nbbbbbbbbbb\n\ncc";
    let chunks = split_into_chunks(body, 5);
    assert_eq!(chunks, ["aaaa\n\n", "\n\n", "bbbbbbbbbb\n\n", "cc"]);
    for chunk in &chunks {
        assert!(chunk.len() <= 5 || !chunk[..chunk.len() - 2].contains("\n\n"));
    }
    // Sizes are counted in bytes.
    assert_eq!(split_into_chunks("é\n\né\n\n", 7), ["é\n\n", "é\n\n"]);
    assert_eq!(split_into_chunks("é\n\né\n\n", 8), ["é\n\né\n\n"]);
}

#[test]
fn chunks_are_put_together_in_their_order() {
    let body = format!("{}\n\n{}\n\nend", "a".repeat(CHUNK_BYTES), "b".repeat(CHUNK_BYTES));
    let mut run = ChunkRun::new(&body);
    assert_eq!(run.chunks.concat(), body);
    assert_eq!(run.chunks.len(), 3);
    let line = run.record(2, "C".to_string(), "main.tex").unwrap();
    assert_eq!(line, "  main.tex: chunk 1/3 done");
    run.record(0, "A".to_string(), "main.tex");
    let line = run.record(1, "B".to_string(), "main.tex").unwrap();
    assert_eq!(line, "  main.tex: chunk 3/3 done");
    assert_eq!(run.into_text(), "ABC");
    let mut single = ChunkRun::new("x");
    assert!(single.record(0, "y".to_string(), "main.tex").is_none());
    assert_eq!(single.into_text(), "y");
}

#[test]
fn unchanged_chunks_give_the_source() {
    let body = format!("\n\\section{{x}}\n{}\n\n\\section{{y}}{}", "a ".repeat(5000), "b\n\n".repeat(3000));
    let mut run = ChunkRun::new(&body);
    for i in 0..run.chunks.len() {
        let chunk = run.chunks[i].clone();
        run.record(i, chunk, "x");
    }
    assert_eq!(run.into_text(), body);
}

#[test]
fn chunks_and_files_have_names() {
    assert_eq!(chunk_file_name(0), "00001.tex");
    assert_eq!(chunk_file_name(98), "00099.tex");
    assert_eq!(chunk_file_name(99999), "100000.tex");
    assert_eq!(chunk_failure(1, 2), "Failed to translate chunk 2/2");
    assert!(matches!(plan_file("a.tex", " \n\u{3000}", true), FilePlan::Skip));
    assert!(matches!(
        plan_file("a.tex", "x", true),
        FilePlan::Translate { label } if label == "a.tex (main)"
    ));
    assert!(matches!(
        plan_file("a.tex", "x", false),
        FilePlan::Translate { label } if label == "a.tex"
    ));
    let mut files = FileRun::new(2);
    assert_eq!(files.opening(), "  Translating (2 files in parallel)...");
    assert!(files.record(&None).is_none());
    assert_eq!(files.record(&Some("b.tex".to_string())).unwrap(), "  [2/2] b.tex");
}

#[test]
fn failed_translation_keeps_original_and_completed_chunks() {
    let first = format!("{}\n\n", "A".repeat(7997));
    let original = format!(
        "\\documentclass{{article}}\n\\begin{{document}}{first}FAIL\\end{{document}}\n"
    );
    let plan = plan_file("main.tex", &original, true);
    let mut course = FileCourse::new(&plan);
    course.advance(FileEvent::Done);
    assert_eq!(course.step, FileStep::TranslateChunks);
    let mut run = ChunkRun::new(&document_body(&original, true));
    assert_eq!(run.chunks, [first.as_str(), "FAIL"]);
    assert_eq!(chunk_file_name(0), "00001.tex");
    run.record(0, first.clone(), "main.tex (main)");
    assert_eq!(run.results[0].as_deref(), Some(first.as_str()));
    assert!(chunk_failure(1, run.chunks.len()).contains("chunk 2/2"));
    // The file ends without a step that replaces it or removes what is saved.
    course.advance(FileEvent::Error);
    assert_eq!(course.step, FileStep::Failed);
}

#[test]
fn files_are_replaced_when_all_chunks_are_there() {
    let mut course = FileCourse::new(&plan_file("a.tex", "x", false));
    assert_eq!(course.step, FileStep::MakeSaveDir);
    course.advance(FileEvent::Done);
    let mut run = ChunkRun::new("x");
    run.record(0, "y".to_string(), "a.tex");
    assert_eq!(course.translated(run), "y");
    assert_eq!(course.step, FileStep::Replace);
    let mut failing = course;
    failing.advance(FileEvent::Error);
    assert_eq!(failing.step, FileStep::Failed);
    course.advance(FileEvent::Done);
    assert_eq!(course.step, FileStep::RemoveSaveDir);
    // Chunks that cannot be removed are no failure.
    let mut warned = course;
    warned.advance(FileEvent::Error);
    assert_eq!(warned.step, FileStep::Finished);
    course.advance(FileEvent::Done);
    assert_eq!(course.step, FileStep::Finished);
    assert_eq!(FileCourse::new(&FilePlan::Skip).step, FileStep::Skipped);
}

// ---------------------------------------------------------------- documents

#[test]
fn translated_document_boundaries_survive_comments() {
    let original = [
        "\\documentclass[\n11pt\n]{article}\n",
        "% fake \\begin{document}\n% end preamble\n",
        "\\begin{document}\nHello\n",
        "\\begin{verbatim}\n\\end{document}\n\\end{verbatim}\nAfter code sample.\n% end body\n",
        "\\end{document}\n% keep trailing comments\n",
    ]
    .concat();
    let body = document_body(&original, true);
    assert!(body.contains("After code sample."));
    let out = translate_tex_file(&original, true, &body);
    assert!(out.contains("% end preamble\n\\begin{document}\n"));
    assert!(out.contains("% end body\n\\end{document}\n% keep trailing comments\n"));
}

#[test]
fn boundaries_start_new_lines() {
    let out = translate_tex_file("p\\begin{document}body\\end{document}rest", true, "BODY");
    assert_eq!(out, "p\n\\begin{document}BODY\n\\end{document}rest");
    let out = translate_tex_file("\\begin{document}", true, "BODY");
    assert_eq!(out, "\n\\begin{document}BODY");
    let out = translate_tex_file("p\n\\begin{document}b\n\\end{document}", true, "B\n");
    assert_eq!(out, "p\n\\begin{document}B\n\\end{document}");
}

#[test]
fn other_files_are_translated_whole() {
    let text = "\\begin{document}x\\end{document}";
    assert_eq!(document_body(text, false), text);
    assert_eq!(translate_tex_file(text, false, "y"), "y");
    assert_eq!(document_body("no document", true), "no document");
    assert_eq!(translate_tex_file("no document", true, "y"), "y");
    assert_eq!(document_body(text, true), "x");
    assert_eq!(document_body("\\end{document}\\begin{document}x", true), "x");
}

// ---------------------------------------------------------------- files

fn file(name: &str, id: usize) -> Entry {
    Entry {
        name: name.to_string(),
        id,
        children: None,
    }
}

fn dir(name: &str, id: usize, children: Vec<Entry>) -> Entry {
    Entry {
        name: name.to_string(),
        id,
        children: Some(children),
    }
}

#[test]
fn tex_files_are_found_in_order() {
    let tree = vec![
        file("b.tex", 1),
        dir("sub.tex", 2, vec![file("c.tex", 3), file("fig.pdf", 4)]),
        dir(".ratex-build-x", 5, vec![file("d.tex", 6)]),
        dir("main.ratex-chunks", 7, vec![file("00001.tex", 8)]),
        file(".ratex-build-note.tex", 9),
        file(".tex", 10),
        file("tex", 11),
        file("A.TEX", 12),
    ];
    assert_eq!(find_tex_files(&tree).unwrap(), [1, 3, 9]);
    let error = find_tex_files(&vec![file("a.txt", 0)]).unwrap_err();
    assert_eq!(error, FileError::NoTexFiles);
    assert!(error.message().starts_with("No .tex files found"));
    assert!(is_work_dir(".ratex-build-1") && is_work_dir("x.ratex-chunks"));
    assert!(!is_work_dir("x.ratex-build-1") && !is_work_dir("ratex-chunks.d"));
    assert!(is_tex_name("..tex") && !is_tex_name(".tex") && !is_tex_name("x.texx"));
}

#[test]
fn main_file_is_the_first_with_a_class() {
    let contents = vec![
        None,
        Some("% \\documentclass{a}".to_string()),
        Some("\\documentclass[x]{b}".to_string()),
        Some("\\documentclass{c}".to_string()),
    ];
    assert_eq!(find_main_tex(&contents).unwrap(), 2);
    let error = find_main_tex(&contents[..2].to_vec()).unwrap_err();
    assert_eq!(error, FileError::NoMainFile);
    assert_eq!(
        error.message(),
        "Could not identify the main .tex file — none contain \\documentclass."
    );
}

// ---------------------------------------------------------------- bibliographies

fn found(names: &[&str]) -> Vec<Found> {
    names
        .iter()
        .map(|name| Found {
            name: name.to_string(),
            input: Some(name.to_string()),
        })
        .collect()
}

fn inline(content: &str, names: &[&str]) -> Option<String> {
    inline_missing_bibliography(content, &Some("main".to_string()), &found(names), &None).unwrap()
}

#[test]
fn inline_bbl_when_bib_missing_and_matching_bbl_exists() {
    let out = inline("before\n\\bibliography{custom}\nafter\n", &["main.bbl"]).unwrap();
    assert!(out.contains("\\input{main.bbl}"), "got:\n{out}");
    assert!(
        !out.contains("\\bibliography{custom}"),
        "still has original call:\n{out}"
    );
}

#[test]
fn inline_bbl_prefers_bbl_with_referenced_name() {
    let out = inline("\\bibliography{refs}\n", &["refs.bbl", "main.bbl"]).unwrap();
    assert!(
        out.contains("\\input{refs.bbl}"),
        "expected refs.bbl, got:\n{out}"
    );
}

#[test]
fn inline_bbl_skips_when_bib_present() {
    let changed = inline("\\bibliography{custom}\n", &["custom.bib", "custom.bbl"]);
    assert!(changed.is_none(), "should not rewrite when .bib is present");
}

#[test]
fn inline_bbl_noop_when_no_bbl_available() {
    assert!(inline("\\bibliography{custom}\n", &[]).is_none());
}

#[test]
fn inline_bbl_keeps_paths_relative_to_source_root() {
    let out = inline(
        "% \\bibliography{ignored}\n\\bibliography{refs/custom}% trailing comment\n",
        &["refs/custom.bbl"],
    );
    assert_eq!(
        out.unwrap(),
        "% \\bibliography{ignored}\n\\input{refs/custom.bbl}% trailing comment\n"
    );
}

#[test]
fn bibliography_beside_the_main_file_comes_last() {
    let sibling = Some(Found {
        name: "main.bbl".to_string(),
        input: Some("paper/main.bbl".to_string()),
    });
    let stem = Some("main".to_string());
    let text = "\\bibliography{a, ,b}";
    let out = inline_missing_bibliography(text, &stem, &vec![], &sibling).unwrap();
    assert_eq!(out.unwrap(), "\\input{paper/main.bbl}");
    let out = inline_missing_bibliography(text, &stem, &found(&["b.bbl"]), &sibling).unwrap();
    assert_eq!(out.unwrap(), "\\input{b.bbl}");
    let out = inline_missing_bibliography(text, &None, &found(&["main.bbl"]), &None).unwrap();
    assert!(out.is_none());
    let empty = inline_missing_bibliography("\\bibliography{ , }", &stem, &vec![], &sibling);
    assert!(empty.unwrap().is_none());
}

#[test]
fn several_bibliographies_are_replaced_where_they_stand() {
    let text = "a\\bibliography{x}b\\bibliography{y}c\\bibliography{z}d";
    let out = inline(text, &["x.bbl", "y.bib", "z.bbl"]).unwrap();
    assert_eq!(out, "a\\input{x.bbl}b\\bibliography{y}c\\input{z.bbl}d");
}

#[test]
fn bibliography_outside_of_the_source_is_an_error() {
    let outside = vec![Found {
        name: "/x/refs.bbl".to_string(),
        input: None,
    }];
    let error = plan_bibliography("\\bibliography{/x/refs}", &None, &outside, &None).err().unwrap();
    assert_eq!(error, BibliographyError::OutsideSource);
    assert_eq!(error.message(), "bibliography is outside the source directory");
}

#[test]
fn nested_bibliographies_are_refused() {
    let text = "\\bibliography[\\bibliography{x}]{y}";
    let error =
        try_inline_missing_bibliography(text, &None, &found(&["x.bbl", "y.bbl"]), &None).unwrap_err();
    assert_eq!(error, BibliographyError::Overlapping);
    assert_eq!(error.message(), "bibliography commands overlap");
}

#[test]
fn files_that_matter_for_bibliographies_are_listed() {
    assert_eq!(
        bibliography_files("\\bibliography{a, b}%\\bibliography{c}\n\\bibliography{d}", &Some("m".into())),
        ["a.bib", "a.bbl", "b.bib", "b.bbl", "d.bib", "d.bbl", "m.bbl"]
    );
    assert!(bibliography_files("nothing", &None).is_empty());
}
