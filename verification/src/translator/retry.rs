//! When a request is made again, and what a status means.

use vstd::arithmetic::power2::*;
use vstd::prelude::*;

verus! {

/// How often a request is made at most.
pub const MAX_ATTEMPTS: u32 = 3;

/// What came of a request.
#[derive(Clone, Copy, Debug, PartialEq, Eq, Structural)]
pub enum Attempt {
    Answered { status: u16 },
    Failed,
}

/// What to do next.
#[derive(Clone, Copy, Debug, PartialEq, Eq, Structural)]
pub enum NextStep {
    /// Take what came of the request.
    Stop,
    /// Make the request again after so many seconds.
    Wait { seconds: u64 },
}

/// A service that is too busy, or broken for the moment.
pub open spec fn passing(a: Attempt) -> bool {
    match a {
        Attempt::Answered { status } => status == 429 || 500 <= status < 600,
        Attempt::Failed => true,
    }
}

/// How long to wait after attempt number `attempt`, counted from zero: two
/// seconds, then four, and so on.
pub fn retry_delay(attempt: u32) -> (r: u64)
    requires
        attempt < 63,
    ensures
        r == pow2((attempt + 1) as nat),
{
    let mut r: u64 = 2;
    let mut i: u32 = 0;
    proof {
        lemma2_to64();
        lemma2_to64_rest();
    }
    while i < attempt
        invariant
            i <= attempt < 63,
            r == pow2((i + 1) as nat),
            pow2(63) == 0x8000_0000_0000_0000,
        decreases attempt - i,
    {
        proof {
            lemma_pow2_unfold((i + 2) as nat);
            if i + 2 < 63 {
                lemma_pow2_strictly_increases((i + 2) as nat, 63);
            }
        }
        r = r * 2;
        i += 1;
    }
    r
}

/// What follows attempt number `attempt`, counted from zero: the request is made
/// again where a passing fault is to blame and an attempt is left.
pub open spec fn next_step(attempt: int, outcome: Attempt) -> NextStep {
    if passing(outcome) && attempt + 1 < MAX_ATTEMPTS {
        NextStep::Wait { seconds: pow2((attempt + 1) as nat) as u64 }
    } else {
        NextStep::Stop
    }
}

/// Decides what follows attempt number `attempt`, counted from zero.
pub fn retry_step(attempt: u32, outcome: Attempt) -> (r: NextStep)
    requires
        attempt < MAX_ATTEMPTS,
    ensures
        r == next_step(attempt as int, outcome),
{
    let again = match outcome {
        Attempt::Answered { status } => status == 429 || (500 <= status && status < 600),
        Attempt::Failed => true,
    };
    if again && attempt + 1 < MAX_ATTEMPTS {
        NextStep::Wait { seconds: retry_delay(attempt) }
    } else {
        NextStep::Stop
    }
}

/// The number of attempts that are made, from attempt number `k` on, when these
/// would be their outcomes.
pub open spec fn attempts(outcomes: Seq<Attempt>, k: int) -> int
    decreases MAX_ATTEMPTS - k,
{
    if k + 1 < MAX_ATTEMPTS && next_step(k, outcomes[k]) is Wait {
        attempts(outcomes, k + 1)
    } else {
        k + 1
    }
}

/// A request is made at least once and at most [`MAX_ATTEMPTS`] times; every
/// attempt but the last one met a passing fault.
pub proof fn attempts_are_bounded(outcomes: Seq<Attempt>, k: int)
    requires
        0 <= k < MAX_ATTEMPTS,
    ensures
        k < attempts(outcomes, k) <= MAX_ATTEMPTS,
        forall|i: int| k <= i < attempts(outcomes, k) - 1 ==> passing(#[trigger] outcomes[i]),
        attempts(outcomes, k) < MAX_ATTEMPTS ==> !passing(outcomes[attempts(outcomes, k) - 1]),
    decreases MAX_ATTEMPTS - k,
{
    if k + 1 < MAX_ATTEMPTS && passing(outcomes[k]) {
        attempts_are_bounded(outcomes, k + 1);
    }
}

/// What the status of an answer means.
#[derive(Clone, Copy, Debug, PartialEq, Eq, Structural)]
pub enum Verdict {
    Success,
    Unauthorized,
    Error,
}

/// What the status of an answer says, where `key_status` is the one that refuses a
/// key, if there is one.
pub open spec fn judged(status: int, key_status: Option<int>) -> Verdict {
    if key_status == Some(status) {
        Verdict::Unauthorized
    } else if 200 <= status <= 299 {
        Verdict::Success
    } else {
        Verdict::Error
    }
}

/// Judges the status of an answer of an OpenAI service.
pub fn judge_openai(status: u16) -> (r: Verdict)
    ensures
        r == (if status == 401 {
            Verdict::Unauthorized
        } else if 200 <= status < 300 {
            Verdict::Success
        } else {
            Verdict::Error
        }),
        r == judged(status as int, Some(401)),
{
    if status == 401 {
        Verdict::Unauthorized
    } else if 200 <= status && status < 300 {
        Verdict::Success
    } else {
        Verdict::Error
    }
}

/// Judges the status of an answer of a Gemini service.
pub fn judge_gemini(status: u16) -> (r: Verdict)
    ensures
        r == (if 200 <= status < 300 {
            Verdict::Success
        } else {
            Verdict::Error
        }),
        r == judged(status as int, None),
{
    if 200 <= status && status < 300 {
        Verdict::Success
    } else {
        Verdict::Error
    }
}

} // verus!
