//! Decisions of the receive loop: what one read step does to a
//! connection's reader, and how the consumer treats each message kind.
//! The loops that act on these decisions live in the surrounding
//! binary; the decisions themselves are verified here.

use vstd::prelude::*;
use crate::codec::{frame_core, parse_message};
use crate::message::{meta_lookup, Message, MessageType};

verus! {

/// What one line read does to a connection's reader: the peer closed,
/// a message is delivered, or a malformed frame ends the reader.
#[derive(Debug)]
pub enum ReaderStep {
    Closed,
    Deliver(Message),
    Malformed,
}

/// Decide the fate of one read: `n` is the byte count the line read
/// returned, `line` the text it produced.  Zero bytes mean the peer
/// closed; otherwise the frame is decoded, and a malformed frame
/// terminates this reader and no other.
pub fn reader_step(n: usize, line: &str) -> (r: ReaderStep)
    ensures
        n == 0 <==> r is Closed,
        match r {
            ReaderStep::Closed => n == 0,
            ReaderStep::Deliver(m) => parse_message(frame_core(line@)) == Some(m@),
            ReaderStep::Malformed => parse_message(frame_core(line@)) is None,
        },
{
    if n == 0 {
        ReaderStep::Closed
    } else {
        match crate::codec::decode_frame(line) {
            Ok(m) => ReaderStep::Deliver(m),
            Err(_) => ReaderStep::Malformed,
        }
    }
}

/// The metadata key under which a file announcement carries its name.
pub open spec fn filename_key() -> Seq<char> {
    seq!['f', 'i', 'l', 'e', 'n', 'a', 'm', 'e']
}

/// What the consumer does with one delivered message.
#[derive(Debug)]
pub enum Dispatch {
    /// Print the text with its sender and timestamp.
    ShowText { from: String, content: String, timestamp: i64 },
    /// Log a file announcement; `filename` is its metadata entry.
    ShowFile { from: String, filename: Option<String> },
    /// A heartbeat: consumed with no visible effect.
    Silent,
    /// Any other kind: logged as unknown, with the peer's address.
    Unknown,
}

/// Decide how the consumer treats a message, by kind: text is shown,
/// a file announcement is logged under its `filename` metadata,
/// heartbeats are silent, everything else is unknown.
pub fn dispatch(m: &Message) -> (d: Dispatch)
    ensures
        match d {
            Dispatch::ShowText { from, content, timestamp } => {
                &&& m@.kind == MessageType::Text
                &&& from@ == m@.from
                &&& content@ == m@.content
                &&& timestamp as int == m@.timestamp
            },
            Dispatch::ShowFile { from, filename } => {
                &&& m@.kind == MessageType::File
                &&& from@ == m@.from
                &&& match filename {
                    Some(f) => meta_lookup(m@.metadata, filename_key()) == Some(f@),
                    None => meta_lookup(m@.metadata, filename_key()) is None,
                }
            },
            Dispatch::Silent => m@.kind == MessageType::Heartbeat,
            Dispatch::Unknown => !(m@.kind == MessageType::Text || m@.kind == MessageType::File
                || m@.kind == MessageType::Heartbeat),
        },
{
    proof {
        reveal_strlit("filename");
        assert(("filename")@ =~= filename_key());
    }
    match m.msg_type {
        MessageType::Text => Dispatch::ShowText {
            from: m.from.clone(),
            content: m.content.clone(),
            timestamp: m.timestamp,
        },
        MessageType::File => {
            let filename = match m.get_metadata("filename") {
                Some(f) => Some(f.clone()),
                None => None,
            };
            Dispatch::ShowFile { from: m.from.clone(), filename }
        },
        MessageType::Heartbeat => Dispatch::Silent,
        _ => Dispatch::Unknown,
    }
}

} // verus!
