use minicpm::capabilities::provider::{client_failed, MinicpmProvider, OllamaConfig};
use minicpm::capabilities::request::set_context_window;
use minicpm::core_layer::history::{Message, MessageContent, Role};
use minicpm::core_layer::provider::{MinicpmProvider as CoreProvider, ProviderConfig};
use serde_json::Value;

fn value(s: &str) -> Value {
    serde_json::from_str(s).unwrap()
}

fn provider(base_url: &str) -> MinicpmProvider {
    MinicpmProvider::new(OllamaConfig {
        base_url: base_url.to_string(),
        model: "minicpm5".to_string(),
        context_window: 32768,
    })
}

#[test]
fn slashes_behind_the_address_do_not_count() {
    assert_eq!(provider("http://h:1").url(), "http://h:1/api/chat");
    assert_eq!(provider("http://h:1///").url(), "http://h:1/api/chat");
    assert_eq!(provider("").url(), "/api/chat");
}

#[test]
fn provider_tells_its_setup() {
    let p = provider("http://h");
    assert_eq!(p.model_name(), "minicpm5");
    assert_eq!(p.context_window(), 32768);
}

#[test]
fn first_session_counts() {
    let mut p = provider("http://h");
    assert_eq!(p.session_id(), "");
    p.bind_session_id("one");
    p.bind_session_id("two");
    assert_eq!(p.session_id(), "one");
}

#[test]
fn context_window_is_set() {
    assert_eq!(
        set_context_window(value("{\"model\":\"m\"}"), 32768),
        value("{\"model\":\"m\",\"options\":{\"num_ctx\":32768}}")
    );
    assert_eq!(
        set_context_window(value("{\"options\":{\"num_ctx\":1,\"top_k\":2}}"), 8),
        value("{\"options\":{\"num_ctx\":8,\"top_k\":2}}")
    );
    assert_eq!(
        set_context_window(value("{\"options\":null}"), 8),
        value("{\"options\":null}")
    );
    assert_eq!(set_context_window(value("[1]"), 8), value("[1]"));
}

#[test]
fn core_provider_has_a_default_address() {
    let p = CoreProvider::new(&ProviderConfig { model: "m".to_string(), base_url: None });
    assert_eq!(p.url(), "http://localhost:11434/api/chat");
    assert_eq!(p.model_name(), "m");
    let p = CoreProvider::new(&ProviderConfig {
        model: "m".to_string(),
        base_url: Some("http://h/".to_string()),
    });
    assert_eq!(p.url(), "http://h//api/chat");
}

#[test]
fn request_holds_model_and_messages() {
    let p = CoreProvider::new(&ProviderConfig { model: "m".to_string(), base_url: None });
    let messages = [Message {
        role: Role::User,
        content: MessageContent::Text("hi".to_string()),
    }];
    assert_eq!(
        p.request_body(&messages),
        value("{\"model\":\"m\",\"messages\":[{\"role\":\"user\",\"content\":\"hi\"}],\"stream\":true}")
    );
}

#[test]
fn client_that_cannot_be_set_up() {
    let e = client_failed("no resolver");
    assert!(!e.retryable);
    assert_eq!(e.message, "http client build failed: no resolver");
}
