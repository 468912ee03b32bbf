//! The decision core of a chat bot.
pub mod ai;
pub mod answer;
pub mod attachment;
pub mod audio;
pub mod config;
pub mod convo_cache;
pub mod exchange;
pub mod handler;
pub mod history;
pub mod ids;
pub mod images;
pub mod json;
pub mod media;
pub mod memory;
pub mod message;
pub mod names;
pub mod prune;
pub mod recipient;
pub mod redact;
pub mod replies;
pub mod stream;
pub mod text;
pub mod tools;
pub mod transcript;
pub mod turn;
