//! What is asked for, when it is asked again, and what is taken from the answer.

use crate::config::{Protocol, ResolvedProfile};
use crate::translator::cli::CliOutcome;
use crate::translator::provider::{Provider, Request, SYSTEM_PROMPT};
use crate::translator::response::{
    GeminiFailure, GeminiPartResp, GeminiResponse, OpenAiFailure, OpenAiResponse,
};
use crate::translator::retry::{Attempt, NextStep, Verdict};
use crate::translator::{cli, provider, response, retry};
use crate::{arxiv_laws, text};
use vstd::arithmetic::power2::{lemma2_to64, lemma_pow2_unfold};
use vstd::prelude::*;
use vstd::utf8::*;

verus! {

/// A request is made again where it failed, was one too many, or met an error of the
/// server, and not more than three were made. Other answers are taken at once.
pub proof fn passing_troubles_are_waited_out(attempt: int, status: u16)
    requires
        0 <= attempt,
    ensures
        retry::next_step(attempt, Attempt::Failed) is Wait <==> attempt < 2,
        retry::next_step(attempt, Attempt::Answered { status }) is Wait <==> attempt < 2 && (status
            == 429 || 500 <= status <= 599),
{
}

/// The first wait takes two seconds, and each one twice as long as the one before.
pub proof fn waits_double(attempt: int, outcome: Attempt)
    requires
        0 <= attempt,
    ensures
        retry::next_step(attempt, outcome) matches NextStep::Wait { seconds } ==> {
            &&& attempt == 0 ==> seconds == 2
            &&& attempt > 0 ==> (retry::next_step(attempt - 1, outcome) matches NextStep::Wait {
                seconds: before,
            } && seconds == 2 * before)
        },
{
    lemma2_to64();
    if attempt > 0 {
        lemma_pow2_unfold((attempt + 1) as nat);
    }
}

/// The part is text of the answer: it has some, and it is no thought.
pub open spec fn is_spoken(p: GeminiPartResp) -> bool {
    p.text is Some && !p.thought
}

/// The text of an answer is that of its parts, in their order, without the thoughts.
pub proof fn thoughts_are_left_out(parts: Seq<GeminiPartResp>)
    ensures
        response::spoken(parts, parts.len() as int) == text::concat(
            parts.filter(|p: GeminiPartResp| is_spoken(p)).map_values(
                |p: GeminiPartResp| p.text->0@,
            ),
        ),
    decreases parts.len(),
{
    reveal(Seq::filter);
    let chosen = parts.filter(|p: GeminiPartResp| is_spoken(p));
    let words = chosen.map_values(|p: GeminiPartResp| p.text->0@);
    if parts.len() > 0 {
        let head = parts.drop_last();
        thoughts_are_left_out(head);
        lemma_spoken_front(parts, parts.len() - 1);
        let before = head.filter(|p: GeminiPartResp| is_spoken(p));
        let said = before.map_values(|p: GeminiPartResp| p.text->0@);
        let last = parts.last();
        if is_spoken(last) {
            assert(words =~= said.push(last.text->0@));
            text::lemma_concat_push(said, last.text->0@);
        } else {
            assert(words =~= said);
        }
    } else {
        assert(words =~= Seq::<Seq<char>>::empty());
    }
}

proof fn lemma_spoken_front(parts: Seq<GeminiPartResp>, n: int)
    requires
        0 <= n < parts.len(),
    ensures
        response::spoken(parts, n) == response::spoken(parts.drop_last(), n),
    decreases n,
{
    if n > 0 {
        lemma_spoken_front(parts, n - 1);
        assert(parts.drop_last()[n - 1] == parts[n - 1]);
    }
}

/// A program is told the prompt; `codex` is told to change nothing and to leave the
/// user's own settings and tools alone; a model is named where one is asked for, and
/// only then.
pub proof fn programs_are_told_what_to_do(protocol: Protocol, prompt: Seq<char>, model: Seq<char>)
    ensures
        ({
            let args = cli::args_of(protocol, prompt, model);
            let plain = cli::args_of(protocol, prompt, Seq::empty());
            &&& args.contains(prompt)
            &&& model.len() > 0 ==> args == plain + seq!["--model"@, model]
            &&& model.len() == 0 ==> args == plain
            &&& plain.last() == prompt
            &&& protocol == Protocol::Codex ==> {
                &&& args[0] == "exec"@
                &&& exists|i: int|
                    0 <= i && i + 1 < args.len() && #[trigger] args[i] == "--sandbox"@ && args[i + 1]
                        == "read-only"@
                &&& args.contains("--ephemeral"@)
                &&& args.contains("--ignore-user-config"@)
                &&& args.contains("mcp_servers={}"@)
                &&& args.contains("features.plugins=false"@)
                &&& args.contains("features.skills=false"@)
                &&& args.contains("features.shell_tool=false"@)
                &&& args.contains("web_search=disabled"@)
            }
            &&& protocol != Protocol::Codex ==> args[0] == "--print"@ && args[1]
                == "--append-system-prompt"@ && args[2] == prompt
        }),
{
    let args = cli::args_of(protocol, prompt, model);
    let plain = cli::fixed_args(protocol, prompt);
    assert(plain[plain.len() - 1] == prompt);
    assert(args[plain.len() - 1] == prompt);
    if protocol == Protocol::Codex {
        assert(args[1] == "--ephemeral"@);
        assert(args[3] == "--sandbox"@ && args[4] == "read-only"@);
        assert(args[5] == "--ignore-user-config"@);
        assert(args[7] == "mcp_servers={}"@);
        assert(args[9] == "features.plugins=false"@);
        assert(args[11] == "features.skills=false"@);
        assert(args[13] == "features.shell_tool=false"@);
        assert(args[15] == "web_search=disabled"@);
    }
}

/// A bare name of a program, and a path from the root, are left as they are; a path
/// below the present directory starts there.
pub proof fn paths_below_the_directory_are_resolved(bin: Seq<char>, a: Seq<char>, b: Seq<char>)
    ensures
        !bin.contains('/') ==> !cli::relative_path(bin),
        bin.len() > 0 && bin[0] == '/' ==> !cli::relative_path(bin),
        bin == a + seq!['/'] + b && a.len() > 0 && b.len() > 0 && !a.contains('/') && !b.contains(
            '/',
        ) && b != "."@ ==> cli::relative_path(bin),
{
    if !bin.contains('/') {
        arxiv_laws::lemma_split_none(bin, '/');
        let pieces = text::split_on(bin, '/');
        assert(cli::parts_from(pieces, 1) == 0);
    }
    if bin == a + seq!['/'] + b && a.len() > 0 && b.len() > 0 && !a.contains('/') && !b.contains(
        '/',
    ) && b != "."@ {
        arxiv_laws::lemma_split_concat(a, b, '/');
        arxiv_laws::lemma_split_none(a, '/');
        arxiv_laws::lemma_split_none(b, '/');
        let pieces = text::split_on(bin, '/');
        assert(pieces =~= seq![a, b]);
        assert(bin[0] == a[0]);
        assert(a[0] != '/') by {
            assert(a.contains(a[0]));
        }
        assert(cli::parts_from(pieces, 2) == 0);
        assert(cli::parts_from(pieces, 1) == 1);
        assert(cli::parts_from(pieces, 0) == 2);
    }
}

/// Whatever the provider, a request carries the content and the prompt, goes to the
/// endpoint of the profile, and names its model and its key.
pub proof fn requests_carry_the_content(
    profile: ResolvedProfile,
    p: Provider,
    content: Seq<char>,
    r: Request,
)
    requires
        provider::provider_is(profile, p),
        provider::request_is(p, content, r),
    ensures
        match r {
            Request::OpenAi { url, authorization, model, messages } => {
                &&& profile.protocol == Protocol::OpenAi
                &&& url@ == profile.endpoint@ + "/chat/completions"@
                &&& authorization@ == "Bearer "@ + profile.api_key@
                &&& model@ == profile.model@
                &&& messages@.len() == 2
                &&& messages@[0].role@ == "system"@ && messages@[0].content@ == SYSTEM_PROMPT@
                &&& messages@[1].role@ == "user"@ && messages@[1].content@ == content
            },
            Request::Gemini { url, api_key, system_instruction, content: c } => {
                &&& profile.protocol == Protocol::Gemini
                &&& url@ == profile.endpoint@ + "/v1beta/models/"@ + profile.model@
                    + ":generateContent"@
                &&& api_key@ == profile.api_key@
                &&& system_instruction@ == SYSTEM_PROMPT@
                &&& c@ == content
            },
            Request::Cli { protocol, bin, resolve, args, input } => {
                &&& profile.protocol == protocol
                &&& protocol == Protocol::Claude || protocol == Protocol::Codex
                &&& bin@ == profile.endpoint@
                &&& resolve == cli::relative_path(profile.endpoint@)
                &&& text::texts(args@) == cli::args_of(protocol, SYSTEM_PROMPT@, profile.model@)
                &&& input@ == content
            },
        },
{
}

/// An answer is taken where its status is one of success; one that refuses the key is
/// told apart, where the service has such a status.
pub proof fn successes_are_taken(status: int, key_status: Option<int>)
    requires
        key_status matches Some(k) ==> !(200 <= k <= 299),
    ensures
        retry::judged(status, key_status) == Verdict::Success <==> 200 <= status <= 299,
        retry::judged(status, key_status) == Verdict::Unauthorized <==> key_status == Some(status),
{
}

/// The text is the given one.
pub open spec fn reads(o: Option<String>, s: Seq<char>) -> bool {
    o is Some && o->0@ == s
}

/// Of an answer, the first choice counts alone: its content is taken where nothing was
/// refused and the answer came to its end.
pub proof fn whole_answers_are_taken(r: OpenAiResponse, q: OpenAiResponse, s: String)
    ensures
        response::openai_answer(r) == Ok::<String, OpenAiFailure>(s) <==> r.choices@.len() > 0
            && r.choices@[0].message.refusal is None && reads(
            r.choices@[0].finish_reason,
            "stop"@,
        ) && r.choices@[0].message.content == Some(s),
        r.choices@.len() > 0 && q.choices@.len() > 0 && r.choices@[0] == q.choices@[0]
            ==> response::openai_answer(r) == response::openai_answer(q),
        r.choices@.len() > 0 && r.choices@[0].message.refusal is Some ==> response::openai_answer(r)
            == Err::<String, OpenAiFailure>(OpenAiFailure::Refused),
{
}

/// Of an answer, the first candidate counts alone: its text is taken where the prompt
/// was not blocked and the answer came to its end.
pub proof fn whole_candidates_are_taken(r: GeminiResponse)
    ensures
        ({
            let blocked = r.prompt_feedback is Some && r.prompt_feedback->0.block_reason is Some;
            let some = r.candidates is Some && r.candidates->0@.len() > 0;
            let c = r.candidates->0@[0];
            &&& response::gemini_answer(r) is Ok <==> !blocked && some && reads(
                c.finish_reason,
                "STOP"@,
            ) && c.content is Some
            &&& response::gemini_answer(r) is Ok ==> response::gemini_answer(r)->Ok_0
                == text::concat(
                c.content->0.parts@.filter(|p: GeminiPartResp| is_spoken(p)).map_values(
                    |p: GeminiPartResp| p.text->0@,
                ),
            )
            &&& blocked ==> response::gemini_answer(r) == Err::<Seq<char>, GeminiFailure>(
                GeminiFailure::Blocked { reason: r.prompt_feedback->0.block_reason->0 },
            )
        }),
{
    if r.candidates is Some && r.candidates->0@.len() > 0 && r.candidates->0@[0].content is Some {
        thoughts_are_left_out(r.candidates->0@[0].content->0.parts@);
    }
}

/// A program that took too long, failed, or did not take all of its input gives no
/// reply, whatever it wrote. All that another one wrote is its reply, as it is.
pub proof fn programs_that_fail_give_no_reply(o: CliOutcome)
    ensures
        o is TimedOut ==> cli::replied(o) is None,
        o matches CliOutcome::Ended { success, status, written, stdout, stderr } ==> {
            &&& !success || !written || !valid_utf8(stdout@) ==> cli::replied(o) is None
            &&& success && written && valid_utf8(stdout@) ==> cli::replied(o) == Some(stdout@)
        },
{
}

} // verus!
