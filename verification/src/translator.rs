//! Translation by a language model: what is asked, and what is made of the reply.

pub mod cli;
pub mod fence_laws;
pub mod paragraph_laws;
pub mod provider;
pub mod reply;
pub mod reply_laws;
pub mod request_laws;
pub mod response;
pub mod retry;
pub mod talk_laws;

pub use provider::{CliProvider, GeminiProvider, OpenAiProvider, Provider};
pub use reply::{clean_response, finish_translation};
pub use response::{GeminiResponse, OpenAiResponse};
