//! The provider of the core layer: it re-emits the inline markup of MiniCPM5 as
//! the events of a conversation.

pub mod event_laws;
pub mod events;
pub mod history;
pub mod history_laws;
pub mod laws;
pub mod provider;
pub mod replayer;
pub mod round_trip;
pub mod session;
pub mod session_laws;
pub mod stream;
pub mod stream_laws;
pub mod view_laws;
