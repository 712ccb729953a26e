//! The provider: which model it asks, and where.

use serde_json::Value;
use vstd::prelude::*;

use crate::core_layer::history::{wire_messages, wire_values, Message};
use crate::core_layer::history_laws::law_request;
use crate::json::{
    array_value, bool_value, contents, contents_of, member, object_value, text_value, Json,
};

verus! {

/// What the provider is set up with.
#[derive(Debug)]
pub struct ProviderConfig {
    pub model: String,
    pub base_url: Option<String>,
}

/// A model that is served over the chat protocol.
#[derive(Debug)]
pub struct MinicpmProvider {
    model: String,
    base_url: String,
}

/// The mathematical content of a [`MinicpmProvider`].
pub struct ProviderView {
    pub model: Seq<char>,
    pub base_url: Seq<char>,
}

impl View for MinicpmProvider {
    type V = ProviderView;

    closed spec fn view(&self) -> ProviderView {
        ProviderView { model: self.model@, base_url: self.base_url@ }
    }
}

/// A request for an answer to `messages`, to be streamed. It offers the model no
/// tools: these are described in the prompt, which is how the model knows them.
pub open spec fn request_json(model: Seq<char>, messages: Seq<Json>) -> Json {
    Json::Object(
        Map::empty().insert("model"@, Json::Text(model)).insert(
            "messages"@,
            Json::Array(messages),
        ).insert("stream"@, Json::Bool(true)),
    )
}

impl MinicpmProvider {
    /// A provider with the given setup. Without an address it asks the server
    /// on this machine.
    pub fn new(config: &ProviderConfig) -> (r: MinicpmProvider)
        ensures
            r@ == (ProviderView {
                model: config.model@,
                base_url: match config.base_url {
                    Some(url) => url@,
                    None => "http://localhost:11434"@,
                },
            }),
    {
        let base_url = match &config.base_url {
            Some(url) => url.clone(),
            None => "http://localhost:11434".to_owned(),
        };
        MinicpmProvider { model: config.model.clone(), base_url }
    }

    /// The name of the model.
    pub fn model_name(&self) -> (r: &str)
        ensures
            r@ == self@.model,
    {
        self.model.as_str()
    }

    /// The address that chat requests go to.
    pub fn url(&self) -> (r: String)
        ensures
            r@ == self@.base_url + "/api/chat"@,
    {
        let mut url = self.base_url.clone();
        url.append("/api/chat");
        url
    }

    /// Writes the conversation as the model is shown it.
    pub fn format_messages(messages: &[Message]) -> (r: Vec<Value>)
        ensures
            contents_of(r@) == wire_messages(messages@),
    {
        wire_values(messages)
    }

    /// Writes a request for an answer to `messages`.
    pub fn request_body(&self, messages: &[Message]) -> (r: Value)
        ensures
            contents(r) == request_json(self@.model, wire_messages(messages@)),
            member(contents(r), "model"@) == Some(Json::Text(self@.model)),
            member(contents(r), "messages"@) == Some(Json::Array(wire_messages(messages@))),
            member(contents(r), "stream"@) == Some(Json::Bool(true)),
    {
        proof {
            law_request(self@.model, wire_messages(messages@), Seq::empty());
        }
        let mut body = serde_json::Map::new();
        body.insert("model".to_owned(), text_value(self.model.clone()));
        body.insert("messages".to_owned(), array_value(Self::format_messages(messages)));
        body.insert("stream".to_owned(), bool_value(true));
        object_value(body)
    }
}

} // verus!
