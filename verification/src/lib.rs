//! A service-discovery registry: the wire codec that frames its messages and the
//! in-memory book of live services.

pub mod book;
pub mod buffer;
pub mod clock;
pub mod codec;
pub mod decoding;
pub mod error;
pub mod identity;
pub mod index;
pub mod known;
pub mod message;
pub mod registry;
pub mod stream;
pub mod text;
pub mod wire;

pub use crate::codec::MessageCodec;
pub use crate::error::InternError;
pub use crate::identity::{ServiceIdentity, Session};
pub use crate::message::{Message, MessageError, MessageType};
pub use crate::registry::{Service, ServiceBook};
