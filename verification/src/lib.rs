pub mod command;
pub mod command_laws;
pub mod event_sender;
pub mod hashtag;
pub mod helpers;
pub mod kinds;
pub mod lists;
pub mod nostr;
pub mod paint;
pub mod task;
pub mod tasks;
pub mod text;
pub mod text_laws;
pub mod time;
pub mod time_laws;
