//! The provider-neutral vocabulary of a conversation.

pub mod message;
