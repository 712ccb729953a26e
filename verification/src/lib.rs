//! Bridges the inline markup that MiniCPM5 writes into its answers to the
//! event streams of a chat agent.

pub mod bytes;
pub mod call;
pub mod call_laws;
pub mod capabilities;
pub mod core_layer;
pub mod decimal;
pub mod json;
pub mod markup;
pub mod markup_laws;
pub mod scanner;
pub mod scanner_laws;
pub mod streaming;
pub mod text;
pub mod text_laws;
