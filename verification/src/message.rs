//! The messages that the chat sends, receives and shows.

use vstd::prelude::*;

verus! {

/// An instant, as seconds since 1970-01-01 00:00:00 UTC and the nanoseconds
/// past that second.
#[derive(Clone, Copy, PartialEq, Eq, Structural, Debug)]
pub struct Timestamp {
    pub secs: i64,
    pub nanos: u32,
}

/// What a raw message carries.
#[derive(Clone, Copy, PartialEq, Eq, Structural, Debug)]
pub enum MsgType {
    Text,
    Image,
}

/// Who a message is for, who it is from, and when it was made.
#[derive(Clone, Debug, PartialEq, Eq)]
pub struct MsgMetaData {
    pub to: String,
    pub from: String,
    pub timestamp: Timestamp,
}

/// A message: raw text as it travels, text broken into lines for the
/// screen, or an image.
#[derive(Clone, Debug, PartialEq, Eq)]
pub enum Message {
    Raw { meta_data: MsgMetaData, text: String, msg_type: MsgType },
    Text { meta_data: MsgMetaData, msg_lines: Vec<Vec<String>> },
    Image { meta_data: MsgMetaData, url: String },
}

/// The metadata of a message, as mathematical values.
pub struct MetaView {
    pub to: Seq<char>,
    pub from: Seq<char>,
    pub timestamp: Timestamp,
}

/// A message, as mathematical values.
pub enum MessageView {
    Raw { meta_data: MetaView, text: Seq<char>, msg_type: MsgType },
    Text { meta_data: MetaView, msg_lines: Seq<Seq<Seq<char>>> },
    Image { meta_data: MetaView, url: Seq<char> },
}

impl DeepView for MsgMetaData {
    type V = MetaView;

    open spec fn deep_view(&self) -> MetaView {
        MetaView { to: self.to@, from: self.from@, timestamp: self.timestamp }
    }
}

impl DeepView for Message {
    type V = MessageView;

    open spec fn deep_view(&self) -> MessageView {
        match self {
            Message::Raw { meta_data, text, msg_type } => MessageView::Raw {
                meta_data: meta_data.deep_view(),
                text: text@,
                msg_type: *msg_type,
            },
            Message::Text { meta_data, msg_lines } => MessageView::Text {
                meta_data: meta_data.deep_view(),
                msg_lines: msg_lines.deep_view(),
            },
            Message::Image { meta_data, url } => MessageView::Image {
                meta_data: meta_data.deep_view(),
                url: url@,
            },
        }
    }
}

} // verus!
