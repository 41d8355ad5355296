//! Simulated messenger traffic: the wire format shared by clients, peers and
//! servers, the conversation state machine, the decisions of the servers and
//! peers, and the analysis of recorded conversations that the simulation's
//! distributions are built from.

pub mod alias;
pub mod messenger;
pub mod nonzero;
pub mod sam;
pub mod server;
pub mod text;
pub mod web;
pub mod wire;

pub use nonzero::NonZeroU32;
pub use wire::{
    deserialize_str, deserialize_u32, get_message_with_header_size, header_size, parse_identifier,
    serialize_handshake, serialize_str, serialize_str_to, write_progress, Error, Handshake,
    HandshakeRef, MessageBody, MessageHeader, MessageHeaderRef, SerializedMessage, WriteProgress,
    INLINE_MAX_SIZE, MAX_BLOCKS_IN_BODY, PADDING_BLOCK_SIZE,
};
pub use text::format_list;
pub use messenger::message::{construct_message, construct_receipt};
pub use messenger::hosts::parse_hosts_file;
pub use sam::extract::{process_conversation, try_process_conversation, Conversation, DataRun, Message, UserId, UserStats};
pub use sam::weights::{create_weighted, write_weighted_text};
