//! The provider: where it sends its requests, and under which names.

use vstd::prelude::*;

use crate::capabilities::events::ProviderError;
use crate::text::{chars_of, text_of, trim_end_char, without_trailing};

verus! {

/// What the provider is set up with.
#[derive(Debug)]
pub struct OllamaConfig {
    pub base_url: String,
    pub model: String,
    pub context_window: u32,
}

/// The error for an HTTP client that could not be set up. It stays the same
/// when it is tried again.
pub fn client_failed(reason: &str) -> (r: ProviderError)
    ensures
        !r.retryable,
        r.message@ == "http client build failed: "@ + reason@,
{
    let mut message = "http client build failed: ".to_owned();
    message.append(reason);
    ProviderError { retryable: false, message }
}

/// A model that is served over the chat protocol.
#[derive(Debug)]
pub struct MinicpmProvider {
    cfg: OllamaConfig,
    url: String,
    session_id: Option<String>,
}

/// The mathematical content of a [`MinicpmProvider`].
pub struct ProviderView {
    pub model: Seq<char>,
    pub context_window: u32,
    pub url: Seq<char>,
    pub session_id: Option<Seq<char>>,
}

impl View for MinicpmProvider {
    type V = ProviderView;

    closed spec fn view(&self) -> ProviderView {
        ProviderView {
            model: self.cfg.model@,
            context_window: self.cfg.context_window,
            url: self.url@,
            session_id: match self.session_id {
                Some(s) => Some(s@),
                None => None,
            },
        }
    }
}

/// The address that chat requests go to. Slashes behind the address of the
/// server do not count.
pub open spec fn chat_url(base_url: Seq<char>) -> Seq<char> {
    trim_end_char(base_url, '/') + "/api/chat"@
}

impl MinicpmProvider {
    /// A provider with the given setup, in no session yet.
    pub fn new(cfg: OllamaConfig) -> (r: MinicpmProvider)
        ensures
            r@ == (ProviderView {
                model: cfg.model@,
                context_window: cfg.context_window,
                url: chat_url(cfg.base_url@),
                session_id: None,
            }),
    {
        let base = chars_of(cfg.base_url.as_str());
        let mut url = text_of(without_trailing(base.as_slice(), '/'));
        url.append("/api/chat");
        MinicpmProvider { cfg, url, session_id: None }
    }

    /// The name of the model.
    pub fn model_name(&self) -> (r: &str)
        ensures
            r@ == self@.model,
    {
        self.cfg.model.as_str()
    }

    /// The size of the model's context window.
    pub fn context_window(&self) -> (r: u32)
        ensures
            r == self@.context_window,
    {
        self.cfg.context_window
    }

    /// The address that chat requests go to.
    pub fn url(&self) -> (r: &str)
        ensures
            r@ == self@.url,
    {
        self.url.as_str()
    }

    /// Binds the provider to a session. A provider that is bound stays bound to
    /// its first session.
    pub fn bind_session_id(&mut self, session_id: &str)
        ensures
            final(self)@ == (ProviderView {
                session_id: match old(self)@.session_id {
                    Some(s) => Some(s),
                    None => Some(session_id@),
                },
                ..old(self)@
            }),
    {
        if self.session_id.is_none() {
            self.session_id = Some(session_id.to_owned());
        }
    }

    /// The session that the provider is bound to, empty where it is in none.
    pub fn session_id(&self) -> (r: String)
        ensures
            r@ == (match self@.session_id {
                Some(s) => s,
                None => Seq::empty(),
            }),
    {
        match &self.session_id {
            Some(s) => s.clone(),
            None => String::new(),
        }
    }
}

} // verus!
