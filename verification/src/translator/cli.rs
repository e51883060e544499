//! Local programs that translate: how they are called, and what their output means.

use crate::config::Protocol;
use crate::{outside, text};
use vstd::prelude::*;
use vstd::utf8::*;

verus! {

/// How many seconds a program may take for one translation.
pub const CLI_TIMEOUT_SECONDS: u64 = 300;

/// How many parts of a path, from number `k` on, name something: an empty part
/// does not, and a dot only does at the start.
pub open spec fn parts_from(pieces: Seq<Seq<char>>, k: int) -> nat
    decreases pieces.len() - k,
{
    if k < 0 || k >= pieces.len() {
        0
    } else if pieces[k].len() == 0 || (k > 0 && pieces[k] == "."@) {
        parts_from(pieces, k + 1)
    } else {
        1 + parts_from(pieces, k + 1)
    }
}

/// A path that leads somewhere from the working directory, and not a bare name.
pub open spec fn relative_path(bin: Seq<char>) -> bool {
    !(bin.len() > 0 && bin[0] == '/') && parts_from(text::split_on(bin, '/'), 0) > 1
}

/// Has the path of the program to be resolved before the program is started in
/// another directory? A bare name is looked for elsewhere, and an absolute path
/// stays what it is.
pub fn needs_resolving(bin: &str) -> (r: bool)
    ensures
        r == relative_path(bin@),
{
    let cs = text::chars_of(bin);
    if cs.len() > 0 && cs[0] == '/' {
        return false;
    }
    let pieces = text::split(bin, '/');
    let ghost all = text::texts(pieces@);
    let mut count: usize = 0;
    let mut k: usize = 0;
    while k < pieces.len()
        invariant
            k <= pieces.len(),
            count <= k,
            all == text::texts(pieces@),
            count + parts_from(all, k as int) == parts_from(all, 0),
        decreases pieces.len() - k,
    {
        let piece = pieces[k].as_str();
        assert(all[k as int] == piece@);
        if !(piece.is_empty() || (k > 0 && text::same(piece, "."))) {
            count += 1;
        }
        k += 1;
    }
    count > 1
}

/// The arguments that shut Codex off from what the user has set up: the
/// configuration is not read, and no MCP servers, plugins, skills, shell commands
/// or web searches are at hand.
pub open spec fn isolation() -> Seq<Seq<char>> {
    seq![
        "--ignore-user-config"@,
        "--config"@,
        "mcp_servers={}"@,
        "--config"@,
        "features.plugins=false"@,
        "--config"@,
        "features.skills=false"@,
        "--config"@,
        "features.shell_tool=false"@,
        "--config"@,
        "web_search=disabled"@,
    ]
}

/// The arguments for a program, up to the model.
pub open spec fn fixed_args(protocol: Protocol, prompt: Seq<char>) -> Seq<Seq<char>> {
    match protocol {
        Protocol::Codex => seq![
            "exec"@,
            "--ephemeral"@,
            "--skip-git-repo-check"@,
            "--sandbox"@,
            "read-only"@,
        ] + isolation() + seq!["--color"@, "never"@, prompt],
        _ => seq!["--print"@, "--append-system-prompt"@, prompt],
    }
}

/// All arguments for a program. A model is named only where one is asked for.
pub open spec fn args_of(protocol: Protocol, prompt: Seq<char>, model: Seq<char>) -> Seq<
    Seq<char>,
> {
    if model.len() == 0 {
        fixed_args(protocol, prompt)
    } else {
        fixed_args(protocol, prompt) + seq!["--model"@, model]
    }
}

/// The arguments for a program.
pub fn arguments(protocol: Protocol, prompt: &str, model: &str) -> (r: Vec<String>)
    requires
        protocol.local(),
    ensures
        text::texts(r@) == args_of(protocol, prompt@, model@),
{
    let mut r: Vec<String> = Vec::new();
    match protocol {
        Protocol::Codex => {
            r.push("exec".to_owned());
            r.push("--ephemeral".to_owned());
            r.push("--skip-git-repo-check".to_owned());
            r.push("--sandbox".to_owned());
            r.push("read-only".to_owned());
            r.push("--ignore-user-config".to_owned());
            r.push("--config".to_owned());
            r.push("mcp_servers={}".to_owned());
            r.push("--config".to_owned());
            r.push("features.plugins=false".to_owned());
            r.push("--config".to_owned());
            r.push("features.skills=false".to_owned());
            r.push("--config".to_owned());
            r.push("features.shell_tool=false".to_owned());
            r.push("--config".to_owned());
            r.push("web_search=disabled".to_owned());
            r.push("--color".to_owned());
            r.push("never".to_owned());
            r.push(prompt.to_owned());
        },
        _ => {
            r.push("--print".to_owned());
            r.push("--append-system-prompt".to_owned());
            r.push(prompt.to_owned());
        },
    }
    assert(text::texts(r@) =~= fixed_args(protocol, prompt@));
    if !model.is_empty() {
        let ghost before = text::texts(r@);
        r.push("--model".to_owned());
        r.push(model.to_owned());
        assert(text::texts(r@) =~= before + seq!["--model"@, model@]);
    }
    r
}

/// What became of a program that was run.
#[derive(Debug)]
pub enum CliOutcome {
    /// It took too long.
    TimedOut,
    /// It ended. `status` says how, and `written` that it took all of its input.
    Ended { success: bool, status: String, written: bool, stdout: Vec<u8>, stderr: String },
}

/// Why a program gave no translation.
#[derive(Debug)]
pub enum CliFailure {
    TimedOut,
    Exited { status: String, stderr: String },
    InputNotWritten,
    OutputNotText,
}

/// The output of a program that counts as its reply.
pub open spec fn replied(outcome: CliOutcome) -> Option<Seq<u8>> {
    match outcome {
        CliOutcome::TimedOut => None,
        CliOutcome::Ended { success, status: _, written, stdout, stderr: _ } => if success
            && written && valid_utf8(stdout@) {
            Some(stdout@)
        } else {
            None
        },
    }
}

/// The reply of a program that was run: all of its output, where it ended well,
/// took its input, and wrote text.
pub fn cli_reply(outcome: CliOutcome) -> (r: Result<String, CliFailure>)
    ensures
        match outcome {
            CliOutcome::TimedOut => r matches Err(CliFailure::TimedOut),
            CliOutcome::Ended { success, status, written, stdout, stderr } => if !success {
                r matches Err(CliFailure::Exited { status: s, stderr: e }) && s == status && e@
                    == text::trim(stderr@)
            } else if !written {
                r matches Err(CliFailure::InputNotWritten)
            } else if !valid_utf8(stdout@) {
                r matches Err(CliFailure::OutputNotText)
            } else {
                r matches Ok(s) && encode_utf8(s@) == stdout@
            },
        },
        match r {
            Ok(s) => replied(outcome) == Some(encode_utf8(s@)),
            Err(_) => replied(outcome) is None,
        },
{
    match outcome {
        CliOutcome::TimedOut => Err(CliFailure::TimedOut),
        CliOutcome::Ended { success, status, written, stdout, stderr } => {
            if !success {
                return Err(
                    CliFailure::Exited {
                        status,
                        stderr: text::trimmed(stderr.as_str()).to_owned(),
                    },
                );
            }
            if !written {
                return Err(CliFailure::InputNotWritten);
            }
            match outside::string_from_utf8(stdout) {
                Some(s) => Ok(s),
                None => Err(CliFailure::OutputNotText),
            }
        },
    }
}

impl CliFailure {
    pub open spec fn text(self, name: Seq<char>, seconds: nat) -> Seq<char> {
        match self {
            CliFailure::TimedOut => name + " CLI timed out after "@ + text::decimal(seconds)
                + " seconds"@,
            CliFailure::Exited { status, stderr } => name + " CLI exited with status "@ + status@
                + ": "@ + stderr@,
            CliFailure::InputNotWritten => "Failed to write content to "@ + name + " CLI stdin"@,
            CliFailure::OutputNotText => name + " CLI returned non-UTF-8 output"@,
        }
    }

    /// The failure in words; `name` is the program's, `seconds` the time it had.
    pub fn message(&self, name: &str, seconds: u64) -> (r: String)
        ensures
            r@ == self.text(name@, seconds as nat),
    {
        match self {
            CliFailure::TimedOut => {
                let mut r = name.to_owned();
                r.append(" CLI timed out after ");
                r.append(text::decimal_text(seconds).as_str());
                r.append(" seconds");
                r
            },
            CliFailure::Exited { status, stderr } => {
                let mut r = name.to_owned();
                r.append(" CLI exited with status ");
                r.append(status.as_str());
                r.append(": ");
                r.append(stderr.as_str());
                r
            },
            CliFailure::InputNotWritten => {
                let mut r = "Failed to write content to ".to_owned();
                r.append(name);
                r.append(" CLI stdin");
                r
            },
            CliFailure::OutputNotText => {
                let mut r = name.to_owned();
                r.append(" CLI returned non-UTF-8 output");
                r
            },
        }
    }
}

} // verus!
