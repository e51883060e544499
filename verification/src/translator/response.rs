//! The answers of the HTTP services, and the translation in them.

use crate::text;
use vstd::prelude::*;

verus! {

/// An answer of an OpenAI service.
#[derive(Debug)]
pub struct OpenAiResponse {
    pub choices: Vec<OpenAiChoice>,
}

#[derive(Debug)]
pub struct OpenAiChoice {
    pub message: OpenAiMessageResp,
    pub finish_reason: Option<String>,
}

#[derive(Debug)]
pub struct OpenAiMessageResp {
    pub content: Option<String>,
    pub refusal: Option<String>,
}

/// Why an answer of an OpenAI service holds no translation.
#[derive(Debug)]
pub enum OpenAiFailure {
    NoChoices,
    Refused,
    Incomplete { finish_reason: Option<String> },
    NoContent,
}

/// The optional text is there and is `s`.
pub open spec fn is_text(o: Option<String>, s: Seq<char>) -> bool {
    o matches Some(t) && t@ == s
}

/// Is the optional text there, and is it `s`?
fn has_text(o: &Option<String>, s: &str) -> (r: bool)
    ensures
        r == is_text(*o, s@),
{
    match o {
        Some(t) => text::same(t.as_str(), s),
        None => false,
    }
}

/// Takes the first of a list.
fn take_first<T>(list: Vec<T>) -> (r: Option<T>)
    ensures
        match r {
            Some(x) => list@.len() > 0 && x == list@[0],
            None => list@.len() == 0,
        },
{
    let mut list = list;
    if list.len() == 0 {
        None
    } else {
        Some(list.swap_remove(0))
    }
}

/// What is taken from an answer, or why nothing is.
pub open spec fn openai_answer(r: OpenAiResponse) -> Result<String, OpenAiFailure> {
    if r.choices@.len() == 0 {
        Err(OpenAiFailure::NoChoices)
    } else {
        let choice = r.choices@[0];
        if choice.message.refusal is Some {
            Err(OpenAiFailure::Refused)
        } else if !is_text(choice.finish_reason, "stop"@) {
            Err(OpenAiFailure::Incomplete { finish_reason: choice.finish_reason })
        } else {
            match choice.message.content {
                Some(s) => Ok(s),
                None => Err(OpenAiFailure::NoContent),
            }
        }
    }
}

impl OpenAiResponse {
    /// The translation: the content of the first choice, where it was not refused
    /// and came to its end.
    pub fn into_text(self) -> (r: Result<String, OpenAiFailure>)
        ensures
            match r {
                Ok(s) => {
                    &&& self.choices@.len() > 0
                    &&& self.choices@[0].message.refusal is None
                    &&& is_text(self.choices@[0].finish_reason, "stop"@)
                    &&& self.choices@[0].message.content == Some(s)
                },
                Err(OpenAiFailure::NoChoices) => self.choices@.len() == 0,
                Err(OpenAiFailure::Refused) => self.choices@.len() > 0
                    && self.choices@[0].message.refusal is Some,
                Err(OpenAiFailure::Incomplete { finish_reason }) => {
                    &&& self.choices@.len() > 0
                    &&& self.choices@[0].message.refusal is None
                    &&& !is_text(self.choices@[0].finish_reason, "stop"@)
                    &&& finish_reason == self.choices@[0].finish_reason
                },
                Err(OpenAiFailure::NoContent) => {
                    &&& self.choices@.len() > 0
                    &&& self.choices@[0].message.refusal is None
                    &&& is_text(self.choices@[0].finish_reason, "stop"@)
                    &&& self.choices@[0].message.content is None
                },
            },
            r == openai_answer(self),
    {
        let choice = match take_first(self.choices) {
            Some(c) => c,
            None => {
                return Err(OpenAiFailure::NoChoices);
            },
        };
        if choice.message.refusal.is_some() {
            return Err(OpenAiFailure::Refused);
        }
        if !has_text(&choice.finish_reason, "stop") {
            return Err(OpenAiFailure::Incomplete { finish_reason: choice.finish_reason });
        }
        match choice.message.content {
            Some(s) => Ok(s),
            None => Err(OpenAiFailure::NoContent),
        }
    }
}

impl OpenAiFailure {
    pub open spec fn text(self, reason: Seq<char>) -> Seq<char> {
        match self {
            OpenAiFailure::NoChoices => "OpenAI returned no choices"@,
            OpenAiFailure::Refused => "OpenAI refused the translation"@,
            OpenAiFailure::Incomplete { finish_reason: _ } =>
                "OpenAI translation did not complete (finish_reason: "@ + reason + ")"@,
            OpenAiFailure::NoContent => "OpenAI returned no text content"@,
        }
    }

    /// The failure in words, where `reason` shows the reason why the answer ended.
    pub fn message(&self, reason: &str) -> (r: String)
        ensures
            r@ == self.text(reason@),
    {
        match self {
            OpenAiFailure::NoChoices => "OpenAI returned no choices".to_owned(),
            OpenAiFailure::Refused => "OpenAI refused the translation".to_owned(),
            OpenAiFailure::Incomplete { finish_reason: _ } => {
                let mut r = "OpenAI translation did not complete (finish_reason: ".to_owned();
                r.append(reason);
                r.append(")");
                r
            },
            OpenAiFailure::NoContent => "OpenAI returned no text content".to_owned(),
        }
    }
}

/// An answer of a Gemini service.
#[derive(Debug)]
pub struct GeminiResponse {
    pub candidates: Option<Vec<GeminiCandidate>>,
    pub prompt_feedback: Option<GeminiPromptFeedback>,
}

#[derive(Debug)]
pub struct GeminiPromptFeedback {
    pub block_reason: Option<String>,
}

#[derive(Debug)]
pub struct GeminiCandidate {
    pub content: Option<GeminiContentResp>,
    pub finish_reason: Option<String>,
}

#[derive(Debug)]
pub struct GeminiContentResp {
    pub parts: Vec<GeminiPartResp>,
}

#[derive(Debug)]
pub struct GeminiPartResp {
    pub text: Option<String>,
    pub thought: bool,
}

/// Why an answer of a Gemini service holds no translation.
#[derive(Debug)]
pub enum GeminiFailure {
    Blocked { reason: String },
    NoCandidates,
    Incomplete { finish_reason: Option<String> },
    NoContent,
}

/// The texts of the first `n` parts that are no thoughts, one behind the other.
pub open spec fn spoken(parts: Seq<GeminiPartResp>, n: int) -> Seq<char>
    decreases n,
{
    if n <= 0 {
        Seq::empty()
    } else {
        let before = spoken(parts, n - 1);
        let part = parts[n - 1];
        match part.text {
            Some(t) => if part.thought {
                before
            } else {
                before + t@
            },
            None => before,
        }
    }
}

/// The reason for which the prompt was blocked.
pub open spec fn block_reason(r: GeminiResponse) -> Option<String> {
    match r.prompt_feedback {
        Some(f) => f.block_reason,
        None => None,
    }
}

/// The first candidate.
pub open spec fn first_candidate(r: GeminiResponse) -> Option<GeminiCandidate> {
    match r.candidates {
        Some(list) => if list@.len() > 0 {
            Some(list@[0])
        } else {
            None
        },
        None => None,
    }
}

/// What is taken from an answer, or why nothing is.
pub open spec fn gemini_answer(r: GeminiResponse) -> Result<Seq<char>, GeminiFailure> {
    match (block_reason(r), first_candidate(r)) {
        (Some(reason), _) => Err(GeminiFailure::Blocked { reason }),
        (None, None) => Err(GeminiFailure::NoCandidates),
        (None, Some(c)) => if !is_text(c.finish_reason, "STOP"@) {
            Err(GeminiFailure::Incomplete { finish_reason: c.finish_reason })
        } else {
            match c.content {
                Some(content) => Ok(spoken(content.parts@, content.parts@.len() as int)),
                None => Err(GeminiFailure::NoContent),
            }
        },
    }
}

impl GeminiResponse {
    /// The translation: the texts of the first candidate, without its thoughts,
    /// where the prompt was not blocked and the answer came to its end.
    pub fn into_text(self) -> (r: Result<String, GeminiFailure>)
        ensures
            match block_reason(self) {
                Some(reason) => r matches Err(GeminiFailure::Blocked { reason: b }) && b == reason,
                None => match first_candidate(self) {
                    None => r matches Err(GeminiFailure::NoCandidates),
                    Some(c) => if !is_text(c.finish_reason, "STOP"@) {
                        r matches Err(GeminiFailure::Incomplete { finish_reason })
                            && finish_reason == c.finish_reason
                    } else {
                        match c.content {
                            None => r matches Err(GeminiFailure::NoContent),
                            Some(content) => r matches Ok(s) && s@ == spoken(
                                content.parts@,
                                content.parts@.len() as int,
                            ),
                        }
                    },
                },
            },
            match r {
                Ok(s) => gemini_answer(self) == Ok::<Seq<char>, GeminiFailure>(s@),
                Err(e) => gemini_answer(self) == Err::<Seq<char>, GeminiFailure>(e),
            },
    {
        match self.prompt_feedback {
            Some(f) => match f.block_reason {
                Some(reason) => {
                    return Err(GeminiFailure::Blocked { reason });
                },
                None => {},
            },
            None => {},
        }
        let list = match self.candidates {
            Some(list) => list,
            None => {
                return Err(GeminiFailure::NoCandidates);
            },
        };
        let candidate = match take_first(list) {
            Some(c) => c,
            None => {
                return Err(GeminiFailure::NoCandidates);
            },
        };
        if !has_text(&candidate.finish_reason, "STOP") {
            return Err(GeminiFailure::Incomplete { finish_reason: candidate.finish_reason });
        }
        let content = match candidate.content {
            Some(c) => c,
            None => {
                return Err(GeminiFailure::NoContent);
            },
        };
        let mut r = String::new();
        let mut n: usize = 0;
        assert(r@ =~= Seq::<char>::empty());
        while n < content.parts.len()
            invariant
                n <= content.parts.len(),
                r@ == spoken(content.parts@, n as int),
            decreases content.parts.len() - n,
        {
            let part = &content.parts[n];
            if !part.thought {
                match &part.text {
                    Some(t) => {
                        r.append(t.as_str());
                    },
                    None => {},
                }
            }
            n += 1;
        }
        Ok(r)
    }
}

impl GeminiFailure {
    pub open spec fn text(self, shown: Seq<char>) -> Seq<char> {
        match self {
            GeminiFailure::Blocked { reason } => "Gemini blocked the translation ("@ + reason@
                + ")"@,
            GeminiFailure::NoCandidates => "Gemini returned no candidates"@,
            GeminiFailure::Incomplete { finish_reason: _ } =>
                "Gemini translation did not complete (finishReason: "@ + shown + ")"@,
            GeminiFailure::NoContent => "Gemini returned no text content"@,
        }
    }

    /// The failure in words, where `shown` shows the reason why the answer ended.
    pub fn message(&self, shown: &str) -> (r: String)
        ensures
            r@ == self.text(shown@),
    {
        match self {
            GeminiFailure::Blocked { reason } => {
                let mut r = "Gemini blocked the translation (".to_owned();
                r.append(reason.as_str());
                r.append(")");
                r
            },
            GeminiFailure::NoCandidates => "Gemini returned no candidates".to_owned(),
            GeminiFailure::Incomplete { finish_reason: _ } => {
                let mut r = "Gemini translation did not complete (finishReason: ".to_owned();
                r.append(shown);
                r.append(")");
                r
            },
            GeminiFailure::NoContent => "Gemini returned no text content".to_owned(),
        }
    }
}

} // verus!
