//! Requests to a language model.

use vstd::prelude::*;

use crate::binary64::Real;
use crate::l1::summarizer::Message;
use crate::text::opt_text;

verus! {

/// A request to a language model.
#[derive(Debug)]
pub struct ChatRequest {
    pub system_prompt: String,
    pub memory_context: Option<String>,
    /// What was said before.
    pub history: Vec<Message>,
    pub user_message: String,
    pub temperature: Real,
    pub max_tokens: u32,
    pub request_id: u128,
    /// The version of the template that the message was made from, where it has one.
    pub template_version: Option<String>,
}

/// Whether a request asks just this, with nothing before it.
pub open spec fn asks(
    r: ChatRequest,
    system_prompt: Seq<char>,
    user_message: Seq<char>,
    temperature: Real,
    max_tokens: u32,
    template_version: Option<Seq<char>>,
) -> bool {
    &&& r.system_prompt@ == system_prompt
    &&& r.memory_context is None
    &&& r.history@.len() == 0
    &&& r.user_message@ == user_message
    &&& r.temperature == temperature
    &&& r.max_tokens == max_tokens
    &&& opt_text(r.template_version) == template_version
}

/// A request asks what it was made for: its prompt and its message are those, it is answered as
/// warmly and as long as wanted, and it carries no memory and nothing that was said before.
pub proof fn law_requests_ask_just_this(
    r: ChatRequest,
    system_prompt: Seq<char>,
    user_message: Seq<char>,
    temperature: Real,
    max_tokens: u32,
    template_version: Option<Seq<char>>,
)
    requires
        asks(r, system_prompt, user_message, temperature, max_tokens, template_version),
    ensures
        r.system_prompt@ == system_prompt,
        r.user_message@ == user_message,
        r.temperature == temperature,
        r.max_tokens == max_tokens,
        r.memory_context is None,
        r.history@.len() == 0,
        r.template_version is Some <==> template_version is Some,
        r.template_version matches Some(v) ==> v@ == template_version->0,
{
}

} // verus!
