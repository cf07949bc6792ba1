//! The `/v1/messages` client, without its socket.
//!
//! Named `api` rather than `client` on purpose: `client` is the memory daemon's
//! socket client. Everything here is a pure function over bytes and values, which
//! is what lets the whole decoder be checked with no network and no API key.
use vstd::prelude::*;
use crate::text::{chars_of, string_of};
use crate::tree::Message;

pub mod accumulate;
pub mod sse;

verus! {

/// Large because the request streams. The ceiling that matters for a non-streaming
/// request is the HTTP timeout, and streaming removes it.
pub const MAX_TOKENS: u32 = 64_000;

/// The environment variable that holds the credential.
pub const KEY_VAR: &'static str = "ANTHROPIC_API_KEY";

/// How much the model may think, and how its thinking comes back.
///
/// A budget is absent because models that think on their own refuse one, and an effort
/// because its default is the value we would set. `display` is the one real choice here: the
/// default returns thinking blocks whose text is empty, which is nothing to print
/// and nothing for the memory index to ever label.
#[derive(Debug)]
pub struct Thinking {
    pub kind: &'static str,
    pub display: &'static str,
}

/// The body of a request.
#[derive(Debug)]
pub struct Request<'a> {
    /// The model to talk to, which the caller names. It is one on which thinking is on by
    /// default, which is why the tree has a thinking block at all.
    pub model: &'a str,
    pub max_tokens: u32,
    pub stream: bool,
    pub thinking: Thinking,
    /// Borrowed rather than owned because the tree already holds the only copy and
    /// a request outlives nothing: it is serialized and dropped.
    pub messages: &'a [Message],
}

impl<'a> Request<'a> {
    /// The request that sends the given messages to the given model.
    pub fn new(model: &'a str, messages: &'a [Message]) -> (out: Self)
        ensures
            out.model@ == model@,
            out.max_tokens == MAX_TOKENS,
            out.stream,
            out.thinking.kind@ == "adaptive"@,
            out.thinking.display@ == "summarized"@,
            out.messages@ == messages@,
    {
        Request {
            model,
            max_tokens: MAX_TOKENS,
            stream: true,
            thinking: Thinking { kind: "adaptive", display: "summarized" },
            messages,
        }
    }
}

/// What is said where there is no credential.
pub open spec fn missing_key_words() -> Seq<char> {
    "ANTHROPIC_API_KEY is not set.\n\n    export ANTHROPIC_API_KEY=sk-ant-...\n\nsloop-harness talks to /v1/messages directly and has no other credential source."@
}

/// The credential of a client for `/v1/messages`.
///
/// No `Debug`, unlike everything else in this module: a derived one would put the
/// credential into any error or trace that formats the client, a leak that is
/// invisible at the site that causes it.
pub struct Api {
    key: String,
}

impl Api {
    /// The credential.
    pub closed spec fn credential(&self) -> Seq<char> {
        self.key@
    }

    /// Takes the credential, which is the only input the client cannot work without.
    ///
    /// A missing key fails here rather than at the first request, and says which
    /// variable to set.
    pub fn from_key(key: Option<String>) -> (out: Result<Self, String>)
        ensures
            match (key, out) {
                (Some(k), Ok(api)) => api.credential() == k@,
                (None, Err(message)) => message@ == missing_key_words(),
                _ => false,
            },
    {
        match key {
            Some(key) => Ok(Api { key }),
            None => Err(
                string_of(
                    chars_of(
                        "ANTHROPIC_API_KEY is not set.\n\n    export ANTHROPIC_API_KEY=sk-ant-...\n\nsloop-harness talks to /v1/messages directly and has no other credential source.",
                    ).as_slice(),
                ),
            ),
        }
    }

    /// The credential, for the header that carries it.
    pub fn key(&self) -> (out: &str)
        ensures
            out@ == self.credential(),
    {
        self.key.as_str()
    }
}

} // verus!
