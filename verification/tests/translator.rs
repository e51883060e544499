//! Asking for translations, and what is made of the replies.

use ratex::config::{Protocol, ResolvedProfile};
use ratex::translator::cli::{arguments, cli_reply, needs_resolving, CliFailure, CliOutcome};
use ratex::translator::provider::{Provider, Request, SYSTEM_PROMPT};
use ratex::translator::reply::{
    clean_response, finish_translation, looks_like_chatter, paragraph_spans, strip_code_fences,
    strip_llm_chatter,
};
use ratex::translator::response::{
    GeminiCandidate, GeminiContentResp, GeminiFailure, GeminiPartResp, GeminiPromptFeedback,
    GeminiResponse, OpenAiChoice, OpenAiFailure, OpenAiMessageResp, OpenAiResponse,
};
use ratex::translator::retry::{
    judge_gemini, judge_openai, retry_delay, retry_step, Attempt, NextStep, Verdict, MAX_ATTEMPTS,
};
use serde_json::Value;

fn text_at(v: &Value, key: &str) -> Option<String> {
    v.get(key).and_then(Value::as_str).map(String::from)
}

fn list_at<'a>(v: &'a Value, key: &str) -> Option<&'a Vec<Value>> {
    v.get(key).and_then(Value::as_array)
}

fn openai(body: &str) -> OpenAiResponse {
    let v: Value = serde_json::from_str(body).unwrap();
    let choice = |c: &Value| OpenAiChoice {
        message: OpenAiMessageResp {
            content: text_at(&c["message"], "content"),
            refusal: text_at(&c["message"], "refusal"),
        },
        finish_reason: text_at(c, "finish_reason"),
    };
    OpenAiResponse {
        choices: list_at(&v, "choices").unwrap().iter().map(choice).collect(),
    }
}

fn gemini(body: &str) -> GeminiResponse {
    let v: Value = serde_json::from_str(body).unwrap();
    let part = |p: &Value| GeminiPartResp {
        text: text_at(p, "text"),
        thought: p.get("thought").and_then(Value::as_bool).unwrap_or(false),
    };
    let candidate = |c: &Value| GeminiCandidate {
        content: c.get("content").map(|content| GeminiContentResp {
            parts: list_at(content, "parts").unwrap().iter().map(part).collect(),
        }),
        finish_reason: text_at(c, "finishReason"),
    };
    GeminiResponse {
        candidates: list_at(&v, "candidates").map(|list| list.iter().map(candidate).collect()),
        prompt_feedback: v.get("promptFeedback").map(|f| GeminiPromptFeedback {
            block_reason: text_at(f, "blockReason"),
        }),
    }
}

#[test]
fn rejects_incomplete_api_responses() {
    for body in [
        r#"{"choices":[]}"#,
        r#"{"choices":[{"message":{"content":"partial"},"finish_reason":"length"}]}"#,
        r#"{"choices":[{"message":{"content":null,"refusal":"No"},"finish_reason":"stop"}]}"#,
        r#"{"choices":[{"message":{"content":"partial"},"finish_reason":"content_filter"}]}"#,
        r#"{"choices":[{"message":{"content":"partial"}}]}"#,
    ] {
        assert!(
            openai(body)
                .into_text()
                .is_err(),
            "{body}"
        );
    }
    for body in [
        r#"{}"#,
        r#"{"candidates":[]}"#,
        r#"{"promptFeedback":{"blockReason":"SAFETY"}}"#,
        r#"{"candidates":[{"finishReason":"MAX_TOKENS","content":{"parts":[{"text":"partial"}]}}]}"#,
        r#"{"candidates":[{"finishReason":"SAFETY"}]}"#,
        r#"{"candidates":[{"finishReason":"STOP"}]}"#,
    ] {
        assert!(
            gemini(body)
                .into_text()
                .is_err(),
            "{body}"
        );
    }
    let answer = openai(r#"{"choices":[{"message":{"content":"译文"},"finish_reason":"stop"}]}"#);
    assert_eq!(answer.into_text().unwrap(), "译文");
    let answer = gemini(r#"{"candidates":[{"finishReason":"STOP","content":{"parts":[{"text":"reasoning","thought":true},{"text":"译文"}]}}]}"#);
    assert_eq!(answer.into_text().unwrap(), "译文");
}

#[test]
fn rejects_empty_translation_and_preserves_source_boundaries() {
    for response in ["", " \n", "```latex\n\n```"] {
        assert!(finish_translation("source", response).is_err());
    }
    assert_eq!(
        finish_translation("\n  source % comment\n\n", "译文 % comment").unwrap(),
        "\n  译文 % comment\n\n"
    );
}

#[test]
fn strips_the_real_world_preamble() {
    // The exact failure that broke 2503.20783: chatter prepended to a
    // chunk of math_commands.tex (all macros) → tectonic "Missing
    // \begin{document}".
    let raw = "I'll translate the LaTeX content following your rules. This content is entirely LaTeX command definitions (macros) and comments — there is no natural language body text to translate except the comments. Per your rules, comments (lines starting with %) must be preserved exactly as-is.\n\nHere is the output:\n\n% Tensor\n\\def\\tA{{\\tens{A}}}\n";
    let cleaned = clean_response(raw);
    assert_eq!(cleaned, "% Tensor\n\\def\\tA{{\\tens{A}}}");
}

#[test]
fn leaves_clean_macro_chunk_untouched() {
    let raw = "% Tensor\n\\def\\tA{{\\tens{A}}}\n\\def\\tB{{\\tens{B}}}";
    assert_eq!(clean_response(raw), raw);
}

#[test]
fn keeps_chinese_body_prose() {
    // Real translated content must survive even with no LaTeX syntax.
    let raw = "我们提出了一种新的方法来解决这个问题。\n\n实验结果表明该方法是有效的。";
    assert_eq!(clean_response(raw), raw);
}

#[test]
fn keeps_paragraph_that_mentions_translation_but_has_latex() {
    // "translat" keyword present, but it's genuine content (has a command).
    let raw = "我们翻译了 \\cite{smith2020} 中的定义。";
    assert_eq!(clean_response(raw), raw);
}

#[test]
fn keeps_plain_sentence_starting_with_this_is() {
    // Opener matches but there's no handoff colon or meta keyword.
    let raw = "This is a normal sentence that should not be removed.";
    assert_eq!(clean_response(raw), raw);
}

#[test]
fn strips_trailing_postamble() {
    let raw = "\\section{方法}\n\n本节介绍方法。\n\nNote: I kept all LaTeX commands unchanged as requested.";
    assert_eq!(clean_response(raw), "\\section{方法}\n\n本节介绍方法。");
}

#[test]
fn strips_chatter_line_above_a_fenced_block() {
    let raw = "Here is the translated output:\n\n```latex\n\\section{引言}\n```";
    assert_eq!(clean_response(raw), "\\section{引言}");
}

#[test]
fn plain_fenced_block_still_unwraps() {
    let raw = "```latex\n\\section{引言}\n```";
    assert_eq!(clean_response(raw), "\\section{引言}");
}

#[test]
fn never_empties_an_all_chatter_chunk() {
    // Degenerate: nothing but chatter. Better to keep it than to silently
    // drop the chunk and lose real content on a false positive.
    let raw = "Here is the output:";
    assert_eq!(clean_response(raw), "Here is the output:");
}

// ---------------------------------------------------------------- replies

#[test]
fn paragraphs_are_runs_of_filled_lines() {
    assert_eq!(paragraph_spans(""), []);
    assert_eq!(paragraph_spans(" \n\t\n"), []);
    assert_eq!(paragraph_spans("a"), [(0, 1)]);
    assert_eq!(paragraph_spans("\n a\nb\n \nc\n\n"), [(1, 6), (8, 10)]);
    assert_eq!(paragraph_spans("译\n\n文"), [(0, 4), (5, 8)]);
}

#[test]
fn stripping_takes_chatter_alone_and_is_done_once() {
    let raw = "\nSure, here it is:\n\n\\section{甲}\n\nText.\n\nNote: all macros are kept:\n";
    let stripped = strip_llm_chatter(raw);
    assert_eq!(stripped, "\\section{甲}\n\nText.");
    assert_eq!(strip_llm_chatter(&stripped), stripped);
    assert_eq!(strip_llm_chatter("  乙\n\n丙 \n"), "乙\n\n丙");
}

#[test]
fn openers_are_recognised_without_regard_to_case() {
    for opener in [
        "Sure", "CERTAINLY", "of course", "Okay", "ok", "Here's", "heres", "HERE \u{3000} IS",
        "here\tare", "I'll", "I\u{2019}ve", "i'm", "I will", "I have", "I am", "I translated",
        "I  translate", "Below is", "The following", "This is", "this content", "This file", "Note:",
        "以下是", "翻译如下", "译文如下", "下面是", "\u{17f}ure", "o\u{212a}", "Here'\u{17f}",
    ] {
        assert!(looks_like_chatter(&format!("{opener} x:")), "{opener}");
        assert!(looks_like_chatter(&format!("  {opener} the LaTeX\nx  ")), "{opener}");
        assert!(!looks_like_chatter(&format!("x {opener} x:")), "{opener}");
    }
    for opener in ["Sure", "here are", "I'll", "Below is", "This file", "以下是"] {
        assert!(!looks_like_chatter(&format!("{opener} x")), "{opener}");
    }
    for other in ["hereis", "I", "Ill", "belowis", "the follow", "thisis", "note", "如下是"] {
        assert!(!looks_like_chatter(&format!("{other} x:")), "{other}");
    }
}

#[test]
fn chatter_has_no_syntax_and_speaks_of_work() {
    for word in ["translat", "LaTeX", "preserved", "UNCHANGED", "Comments"] {
        assert!(looks_like_chatter(&format!("Sure, {word}.")), "{word}");
    }
    assert!(looks_like_chatter("Sure："));
    assert!(looks_like_chatter("Sure,\nwith pleasure:\n"));
    assert!(!looks_like_chatter("Sure:\nwith pleasure"));
    for syntax in ["\\", "{", "}", "$"] {
        assert!(!looks_like_chatter(&format!("Sure, latex {syntax}:")), "{syntax}");
    }
    assert!(!looks_like_chatter("% Here is latex:"));
    assert!(!looks_like_chatter(""));
    assert!(!looks_like_chatter(" \n"));
}

#[test]
fn lower_case_of_other_letters_meets_no_word() {
    // The words looked for hold neither of the two letters that occur in the
    // lower case of characters outside of ASCII.
    for c in '\u{80}'..=char::MAX {
        for lower in c.to_lowercase() {
            assert!(!lower.is_ascii() || lower == 'i' || lower == 'k', "{c:?}");
        }
    }
    for word in ["translat", "latex", "preserv", "unchanged", "comment"] {
        assert!(!word.contains('i') && !word.contains('k'));
    }
}

#[test]
fn chatter_goes_from_both_ends_only() {
    assert_eq!(
        strip_llm_chatter("Sure:\n\nOk:\n\nbody\n\nSure:\n\nmore\n\nNote: latex\n"),
        "body\n\nSure:\n\nmore"
    );
    assert_eq!(strip_llm_chatter("  \n "), "");
    assert_eq!(strip_llm_chatter("\n Sure:\n\nOk:\n"), "Sure:\n\nOk:");
}

#[test]
fn fences_go_with_what_follows_them() {
    assert_eq!(strip_code_fences(" x "), "x");
    assert_eq!(strip_code_fences("```x```"), "```x```");
    assert_eq!(strip_code_fences("```tex\n a \n```\nbye"), " a");
    assert_eq!(strip_code_fences("```\na ```b``` c\n```"), "a ```b``` c");
    assert_eq!(strip_code_fences("```\nopen\n"), "open");
    assert_eq!(strip_code_fences("x\n```\ny\n```"), "x\n```\ny\n```");
    assert_eq!(strip_code_fences("```\n```"), "");
}

#[test]
fn white_space_of_the_source_surrounds_the_translation() {
    assert_eq!(finish_translation("\u{3000}\nx\t", "  y  ").unwrap(), "\u{3000}\ny\t");
    assert_eq!(finish_translation("x", "\n\ny\n").unwrap(), "y");
    for source in ["a\n\nb", "  \\section{a}\n", "% c\n\\x{y}\n\n"] {
        assert_eq!(finish_translation(source, source).unwrap(), source);
    }
    let error = finish_translation("x", "").unwrap_err();
    assert_eq!(
        error.message(),
        "Translation returned empty content; the original source was not replaced"
    );
}

// ---------------------------------------------------------------- responses

#[test]
fn failures_of_openai_are_told_apart() {
    let fail = |body: &str| openai(body).into_text().unwrap_err();
    assert!(matches!(fail(r#"{"choices":[]}"#), OpenAiFailure::NoChoices));
    let refused =
        fail(r#"{"choices":[{"message":{"content":"x","refusal":"No"},"finish_reason":"length"}]}"#);
    assert!(matches!(refused, OpenAiFailure::Refused));
    assert_eq!(refused.message(""), "OpenAI refused the translation");
    let cut = fail(r#"{"choices":[{"message":{"content":"x"},"finish_reason":"length"}]}"#);
    assert_eq!(
        cut.message("Some(\"length\")"),
        "OpenAI translation did not complete (finish_reason: Some(\"length\"))"
    );
    assert!(matches!(
        cut,
        OpenAiFailure::Incomplete { finish_reason: Some(reason) } if reason == "length"
    ));
    let empty = fail(r#"{"choices":[{"message":{},"finish_reason":"stop"}]}"#);
    assert_eq!(empty.message(""), "OpenAI returned no text content");
    assert_eq!(
        fail(r#"{"choices":[]}"#).message(""),
        "OpenAI returned no choices"
    );
    let two = r#"{"choices":[{"message":{"content":"a"},"finish_reason":"stop"},{"message":{"content":"b"},"finish_reason":"stop"}]}"#;
    assert_eq!(openai(two).into_text().unwrap(), "a");
}

#[test]
fn failures_of_gemini_are_told_apart() {
    let fail = |body: &str| gemini(body).into_text().unwrap_err();
    let blocked = fail(
        r#"{"promptFeedback":{"blockReason":"SAFETY"},"candidates":[{"finishReason":"STOP","content":{"parts":[]}}]}"#,
    );
    assert_eq!(blocked.message(""), "Gemini blocked the translation (SAFETY)");
    assert!(matches!(fail(r#"{"promptFeedback":{}}"#), GeminiFailure::NoCandidates));
    assert_eq!(fail("{}").message(""), "Gemini returned no candidates");
    let cut = fail(r#"{"candidates":[{"finishReason":"MAX_TOKENS"}]}"#);
    assert_eq!(
        cut.message("x"),
        "Gemini translation did not complete (finishReason: x)"
    );
    assert!(matches!(
        cut,
        GeminiFailure::Incomplete { finish_reason: Some(reason) } if reason == "MAX_TOKENS"
    ));
    assert_eq!(
        fail(r#"{"candidates":[{"finishReason":"STOP"}]}"#).message(""),
        "Gemini returned no text content"
    );
    let parts = r#"{"candidates":[{"finishReason":"STOP","content":{"parts":[{"text":"a"},{},{"text":"b","thought":true},{"text":"c"}]}}]}"#;
    assert_eq!(gemini(parts).into_text().unwrap(), "ac");
}

// ---------------------------------------------------------------- retrying

#[test]
fn passing_faults_are_retried_twice() {
    assert_eq!(MAX_ATTEMPTS, 3);
    for outcome in [
        Attempt::Failed,
        Attempt::Answered { status: 429 },
        Attempt::Answered { status: 500 },
        Attempt::Answered { status: 599 },
    ] {
        assert_eq!(retry_step(0, outcome), NextStep::Wait { seconds: 2 });
        assert_eq!(retry_step(1, outcome), NextStep::Wait { seconds: 4 });
        assert_eq!(retry_step(2, outcome), NextStep::Stop);
    }
    for status in [200, 400, 401, 404, 428, 430, 499, 600] {
        assert_eq!(retry_step(0, Attempt::Answered { status }), NextStep::Stop);
    }
    assert_eq!(retry_delay(0), 2);
    assert_eq!(retry_delay(9), 1024);
    assert_eq!(retry_delay(62), 1 << 63);
}

#[test]
fn statuses_are_judged() {
    for status in [200, 204, 299] {
        assert_eq!(judge_openai(status), Verdict::Success);
        assert_eq!(judge_gemini(status), Verdict::Success);
    }
    assert_eq!(judge_openai(401), Verdict::Unauthorized);
    assert_eq!(judge_gemini(401), Verdict::Error);
    for status in [100, 199, 300, 403, 500] {
        assert_eq!(judge_openai(status), Verdict::Error);
        assert_eq!(judge_gemini(status), Verdict::Error);
    }
}

// ---------------------------------------------------------------- providers

fn provider(protocol: Protocol, endpoint: &str, model: &str) -> Provider {
    Provider::new(&ResolvedProfile {
        protocol,
        endpoint: endpoint.to_string(),
        model: model.to_string(),
        api_key: "key".to_string(),
        concurrency: 1,
    })
}

#[test]
fn services_are_asked_at_their_addresses() {
    match provider(Protocol::OpenAi, "https://api.openai.com/v1", "gpt-4o").request("text") {
        Some(Request::OpenAi {
            url,
            authorization,
            model,
            messages,
        }) => {
            assert_eq!(url, "https://api.openai.com/v1/chat/completions");
            assert_eq!(authorization, "Bearer key");
            assert_eq!(model, "gpt-4o");
            assert_eq!(messages.len(), 2);
            assert_eq!(messages[0].role, "system");
            assert_eq!(messages[0].content, SYSTEM_PROMPT);
            assert_eq!(messages[1].role, "user");
            assert_eq!(messages[1].content, "text");
        }
        other => panic!("{other:?}"),
    }
    match provider(Protocol::Gemini, "https://g", "m").request("text") {
        Some(Request::Gemini {
            url,
            api_key,
            system_instruction,
            content,
        }) => {
            assert_eq!(url, "https://g/v1beta/models/m:generateContent");
            assert_eq!(api_key, "key");
            assert_eq!(system_instruction, SYSTEM_PROMPT);
            assert_eq!(content, "text");
        }
        other => panic!("{other:?}"),
    }
}

#[test]
fn programs_get_their_arguments() {
    match provider(Protocol::Codex, "./bin/codex", "test-model").request("\ntext\n") {
        Some(Request::Cli {
            protocol,
            bin,
            resolve,
            args,
            input,
        }) => {
            assert_eq!(protocol, Protocol::Codex);
            assert_eq!(bin, "./bin/codex");
            assert!(resolve);
            assert_eq!(
                args,
                [
                    "exec", "--ephemeral", "--skip-git-repo-check", "--sandbox", "read-only",
                    "--ignore-user-config", "--config", "mcp_servers={}", "--config",
                    "features.plugins=false", "--config", "features.skills=false", "--config",
                    "features.shell_tool=false", "--config", "web_search=disabled",
                    "--color", "never", SYSTEM_PROMPT, "--model", "test-model"
                ]
            );
            assert_eq!(input, "\ntext\n");
        }
        other => panic!("{other:?}"),
    }
    match provider(Protocol::Claude, "mock-cli", "").request("text") {
        Some(Request::Cli { protocol, resolve, args, .. }) => {
            assert_eq!(protocol, Protocol::Claude);
            assert!(!resolve);
            assert_eq!(args, ["--print", "--append-system-prompt", SYSTEM_PROMPT]);
        }
        other => panic!("{other:?}"),
    }
    assert_eq!(
        arguments(Protocol::Claude, "p", "m"),
        ["--print", "--append-system-prompt", "p", "--model", "m"]
    );
}

#[test]
fn blank_content_is_not_sent() {
    for protocol in [Protocol::OpenAi, Protocol::Gemini, Protocol::Claude, Protocol::Codex] {
        let p = provider(protocol, "x", "");
        assert!(p.request(" \n").is_none());
        assert_eq!(p.translate(" \n", "anything").unwrap(), " \n");
        let input = "\n\\section{中文}\nBody % comment\n\n";
        assert_eq!(p.translate(input, input).unwrap(), input);
        assert!(p.translate("x", "```\n```").is_err());
    }
}

#[test]
fn only_paths_are_resolved() {
    for path in ["./codex", "bin/codex", "../codex", "a//b", "a/../b", "./.", "./", "a/.", "codex/"] {
        let parts = std::path::Path::new(path).components().count();
        assert_eq!(needs_resolving(path), parts > 1, "{path}");
    }
    for path in ["codex", "", ".", "codex/", "a/.", "..", "./", "/bin/codex", "//x/y"] {
        assert!(!needs_resolving(path), "{path}");
    }
    for path in ["./codex", "bin/codex", "../codex", "a//b"] {
        assert!(needs_resolving(path), "{path}");
    }
}

#[test]
fn output_of_programs_is_judged() {
    let ended = |success, written, stdout: &[u8]| CliOutcome::Ended {
        success,
        status: "exit status: 3".to_string(),
        written,
        stdout: stdout.to_vec(),
        stderr: " login-required\n".to_string(),
    };
    assert_eq!(cli_reply(ended(true, true, "译文\n".as_bytes())).unwrap(), "译文\n");
    let fail = |outcome| cli_reply(outcome).unwrap_err();
    assert!(matches!(fail(CliOutcome::TimedOut), CliFailure::TimedOut));
    assert_eq!(
        fail(CliOutcome::TimedOut).message("mock", 300),
        "mock CLI timed out after 300 seconds"
    );
    assert_eq!(
        fail(ended(false, false, b"\xff")).message("mock", 1),
        "mock CLI exited with status exit status: 3: login-required"
    );
    assert_eq!(
        fail(ended(true, false, b"\xff")).message("mock", 1),
        "Failed to write content to mock CLI stdin"
    );
    assert_eq!(
        fail(ended(true, true, b"\xff")).message("mock", 1),
        "mock CLI returned non-UTF-8 output"
    );
}
