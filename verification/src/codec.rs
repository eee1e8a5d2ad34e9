//! The codec of one connection: it writes messages into a buffer and reads them
//! back out of a buffer that fills up piece by piece.

use crate::buffer::buf_bytes;
use crate::decoding::{decoding, tag_kind, trim_nul, Decoded, DecoderState, Outcome};
use crate::message::{Message, MessageError, MessageType};
use crate::wire::{
    be_decode, be_encode_u16, be_encode_u64, lemma_be_bytes_len, lemma_be_value_bound, HEADER_LEN,
    LENGTH_LEN, MAGIC, MAGIC_LEN, MAX_PROTOCOL_LEN, TAG_LEN,
};
use bytes::BytesMut;
use vstd::prelude::*;
use vstd::slice::slice_to_vec;

verus! {

/// The decoder of one stream, with what it has consumed of the message that is
/// arriving.
pub struct MessageCodec {
    message_type: Option<MessageType>,
    payload_section_read: usize,
    next_section_length: u64,
    first: BytesMut,
    second: BytesMut,
}

impl View for MessageCodec {
    type V = DecoderState;

    closed spec fn view(&self) -> DecoderState {
        DecoderState {
            kind: self.message_type,
            read: self.payload_section_read as nat,
            need: self.next_section_length as nat,
            first: buf_bytes(self.first),
            second: buf_bytes(self.second),
        }
    }
}

/// What a call of `decode` returned, as contracts see it.
pub open spec fn decoded_view(result: Result<Option<Message>, MessageError>) -> Decoded {
    match result {
        Ok(None) => Ok(None),
        Ok(Some(message)) => Ok(Some(message@)),
        Err(error) => Err(error@),
    }
}

/// How many bytes of `bytes` come before the zero bytes at its end.
fn trimmed_len(bytes: &[u8]) -> (len: usize)
    ensures
        len <= bytes@.len(),
        trim_nul(bytes@) == bytes@.subrange(0, len as int),
{
    let mut len: usize = bytes.len();
    proof {
        assert(bytes@.subrange(0, len as int) =~= bytes@);
    }
    while len > 0 && bytes[len - 1] == 0
        invariant
            len <= bytes@.len(),
            trim_nul(bytes@) == trim_nul(bytes@.subrange(0, len as int)),
        decreases len,
    {
        proof {
            assert(bytes@.subrange(0, len as int).drop_last() =~= bytes@.subrange(0, len - 1));
        }
        len -= 1;
    }
    len
}

/// Whether the first `len` bytes of `bytes` are exactly `name`.
fn is_name(bytes: &[u8], len: usize, name: &[u8]) -> (same: bool)
    requires
        len <= bytes@.len(),
    ensures
        same == (bytes@.subrange(0, len as int) == name@),
{
    if len != name.len() {
        return false;
    }
    let mut i: usize = 0;
    while i < len
        invariant
            i <= len <= bytes@.len(),
            len == name@.len(),
            bytes@.subrange(0, i as int) == name@.subrange(0, i as int),
        decreases len - i,
    {
        if bytes[i] != name[i] {
            proof {
                assert(bytes@.subrange(0, len as int)[i as int] != name@[i as int]);
            }
            return false;
        }
        proof {
            assert(bytes@.subrange(0, i + 1) =~= bytes@.subrange(0, i as int).push(bytes@[i as int]));
            assert(name@.subrange(0, i + 1) =~= name@.subrange(0, i as int).push(name@[i as int]));
        }
        i += 1;
    }
    proof {
        assert(name@.subrange(0, len as int) =~= name@);
    }
    true
}

/// The kind that a tag names, if any.
pub fn classify(tag: &[u8]) -> (kind: Option<MessageType>)
    ensures
        kind == tag_kind(tag@),
{
    let len = trimmed_len(tag);
    if is_name(tag, len, MessageType::Get.name_bytes()) {
        Some(MessageType::Get)
    } else if is_name(tag, len, MessageType::Identity.name_bytes()) {
        Some(MessageType::Identity)
    } else if is_name(tag, len, MessageType::Ping.name_bytes()) {
        Some(MessageType::Ping)
    } else {
        None
    }
}

/// Appends a string as it stands on the wire: its length, then its bytes.
fn put_field(buf: &mut BytesMut, text: &String)
    requires
        buf_bytes(*old(buf)).len() + crate::message::field(text@).len() <= isize::MAX,
    ensures
        buf_bytes(*final(buf)) == buf_bytes(*old(buf)) + crate::message::field(text@),
{
    let bytes = text.as_str().as_bytes();
    let length = be_encode_u64(bytes.len() as u64);
    proof {
        lemma_be_bytes_len(bytes@.len(), 8);
    }
    buf.extend_from_slice(length.as_slice());
    buf.extend_from_slice(bytes);
    proof {
        assert(buf_bytes(*buf) =~= buf_bytes(*old(buf)) + crate::message::field(text@));
    }
}

impl MessageCodec {
    /// A codec at the start of a stream.
    pub fn new() -> (codec: MessageCodec)
        ensures
            codec@ == DecoderState::fresh(),
    {
        MessageCodec {
            message_type: None,
            payload_section_read: 0,
            next_section_length: 0,
            first: BytesMut::new(),
            second: BytesMut::new(),
        }
    }

    /// Appends the bytes of `message` to `buf`, which must have room for them
    /// within what one allocation can hold. Encoding keeps no state: the codec
    /// stays as it was. It always succeeds.
    pub fn encode(&mut self, message: Message, buf: &mut BytesMut) -> (result: Result<
        (),
        MessageError,
    >)
        requires
            buf_bytes(*old(buf)).len() + message@.encoding().len() <= isize::MAX,
        ensures
            result is Ok,
            *final(self) == *old(self),
            buf_bytes(*final(buf)) == buf_bytes(*old(buf)) + message@.encoding(),
    {
        let magic = be_encode_u16(MAGIC);
        let tag = message.get_type().to_bytes();
        proof {
            lemma_be_bytes_len(MAGIC as nat, 2);
        }
        buf.extend_from_slice(magic.as_slice());
        buf.extend_from_slice(tag.as_ref());
        match message {
            Message::Get { protocol } => {
                put_field(buf, &protocol);
            },
            Message::Ping => (),
            Message::Identity { protocol, address } => {
                proof {
                    lemma_be_bytes_len(vstd::utf8::encode_utf8(protocol@).len(), 8);
                }
                put_field(buf, &protocol);
                put_field(buf, &address);
            },
        }
        proof {
            assert(buf_bytes(*buf) =~= buf_bytes(*old(buf)) + message@.encoding());
        }
        Ok(())
    }

    /// What the codec makes of a stream that ended: no message, whatever part
    /// of one it holds.
    pub fn decode_eof(&mut self, buf: &mut BytesMut) -> (result: Result<
        Option<Message>,
        MessageError,
    >)
        ensures
            result == Ok::<Option<Message>, MessageError>(None),
            *final(self) == *old(self),
            *final(buf) == *old(buf),
    {
        Ok(None)
    }

    /// Reads the next message out of `buf`, as far as the bytes are there. It
    /// consumes whole fields only, remembers what it consumed, and returns
    /// `Ok(None)` when the next field is not buffered in full. An error ends the
    /// stream.
    pub fn decode(&mut self, buf: &mut BytesMut) -> (result: Result<Option<Message>, MessageError>)
        requires
            old(self)@.wf(),
        ensures
            final(self)@.wf(),
            decoding(old(self)@, buf_bytes(*old(buf))) == (Outcome {
                state: final(self)@,
                rest: buf_bytes(*final(buf)),
                result: decoded_view(result),
            }),
    {
        let ghost whole = decoding(self@, buf_bytes(*buf));
        loop
            invariant
                self@.wf(),
                whole == decoding(old(self)@, buf_bytes(*old(buf))),
                decoding(self@, buf_bytes(*buf)) == whole,
            decreases self@.moves_left(),
        {
            let ghost state = self@;
            let ghost bytes = buf_bytes(*buf);
            match self.message_type {
                None => {
                    if buf.len() < HEADER_LEN {
                        return Ok(None);
                    }
                    let magic = buf.split_to(MAGIC_LEN);
                    proof {
                        lemma_be_value_bound(buf_bytes(magic));
                        assert(buf_bytes(*buf) =~= bytes.subrange(2, bytes.len() as int));
                    }
                    let found = be_decode(magic.as_ref()) as u16;
                    if found != MAGIC {
                        return Err(MessageError::InvalidMagic(found));
                    }
                    let tag = buf.split_to(TAG_LEN);
                    proof {
                        assert(buf_bytes(tag) =~= bytes.subrange(2, 12));
                        assert(buf_bytes(*buf) =~= bytes.subrange(12, bytes.len() as int));
                    }
                    let text = match String::from_utf8(slice_to_vec(tag.as_ref())) {
                        Ok(text) => text,
                        Err(error) => {
                            return Err(MessageError::from(error));
                        },
                    };
                    let kind = match classify(tag.as_ref()) {
                        Some(kind) => kind,
                        None => {
                            return Err(MessageError::InvalidType(text));
                        },
                    };
                    self.payload_section_read = 0;
                    self.next_section_length = match kind {
                        MessageType::Ping => 0,
                        _ => LENGTH_LEN as u64,
                    };
                    self.message_type = Some(kind);
                },
                Some(kind) => {
                    if self.payload_section_read == kind.section_count() {
                        self.message_type = None;
                        return self.assemble(kind);
                    } else if buf.len() as u64 >= self.next_section_length {
                        if self.payload_section_read % 2 == 0 {
                            let length = buf.split_to(LENGTH_LEN);
                            proof {
                                lemma_be_value_bound(buf_bytes(length));
                            }
                            let declared = be_decode(length.as_ref());
                            self.next_section_length = declared;
                            if self.payload_section_read == 0 && declared > MAX_PROTOCOL_LEN {
                                return Err(MessageError::ProtocolTooLong);
                            }
                            self.payload_section_read += 1;
                        } else {
                            let payload = buf.split_to(self.next_section_length as usize);
                            if self.payload_section_read == 1 {
                                self.first = payload;
                            } else {
                                self.second = payload;
                            }
                            self.next_section_length = LENGTH_LEN as u64;
                            self.payload_section_read += 1;
                        }
                    } else {
                        return Ok(None);
                    }
                },
            }
        }
    }

    /// The message that the consumed payloads make.
    fn assemble(&self, kind: MessageType) -> (result: Result<Option<Message>, MessageError>)
        ensures
            decoded_view(result) == crate::decoding::assemble(kind, self@.first, self@.second),
    {
        match kind {
            MessageType::Get => {
                match String::from_utf8(slice_to_vec(self.first.as_ref())) {
                    Ok(protocol) => Ok(Some(Message::Get { protocol })),
                    Err(error) => Err(MessageError::from(error)),
                }
            },
            MessageType::Identity => {
                let protocol = match String::from_utf8(slice_to_vec(self.first.as_ref())) {
                    Ok(protocol) => protocol,
                    Err(error) => {
                        return Err(MessageError::from(error));
                    },
                };
                match String::from_utf8(slice_to_vec(self.second.as_ref())) {
                    Ok(address) => Ok(Some(Message::Identity { protocol, address })),
                    Err(error) => Err(MessageError::from(error)),
                }
            },
            MessageType::Ping => Ok(Some(Message::Ping)),
        }
    }
}

} // verus!
