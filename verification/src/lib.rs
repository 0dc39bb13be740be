//! The chat client's logic: word wrapping of message text, the layout of
//! messages and of the input box as drawing commands, the handling of key
//! presses and of incoming messages, and the messages themselves.

pub mod wrap;
pub mod draw;
pub mod message;
pub mod input;
pub mod chat_window;
pub mod local_chat;
