//! The provider of the capabilities layer: it re-emits the inline markup of
//! MiniCPM5 as the events of the agent kernel.

pub mod chat_line;
pub mod decoder;
pub mod decoder_laws;
pub mod event_laws;
pub mod events;
pub mod laws;
pub mod line_laws;
pub mod provider;
pub mod replayer;
pub mod request;
pub mod request_laws;
pub mod session;
pub mod session_laws;
pub mod view_laws;
