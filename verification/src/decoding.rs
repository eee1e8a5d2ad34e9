//! What decoding means: a state machine over a buffer that may hold any part of
//! a frame, stated on sequences of bytes.

use crate::message::{ErrorView, MessageType, MessageView};
use crate::wire::{be_value, HEADER_LEN, LENGTH_LEN, MAGIC, MAGIC_LEN, MAX_PROTOCOL_LEN};
use vstd::prelude::*;
use vstd::utf8::*;

verus! {

/// Where a decoder stands between two calls.
pub struct DecoderState {
    /// The kind of the message being read; `None` while the next header is
    /// awaited.
    pub kind: Option<MessageType>,
    /// Sections of the current message that were consumed.
    pub read: nat,
    /// Bytes that must be buffered before the next section is consumed.
    pub need: nat,
    /// The payload of the first string, once it was consumed.
    pub first: Seq<u8>,
    /// The payload of the second string, once it was consumed.
    pub second: Seq<u8>,
}

/// What one call hands back: a message, `None` for "more bytes are needed", or
/// the error that ends the stream.
pub type Decoded = Result<Option<MessageView>, ErrorView>;

/// A decoder and its buffer after a call, with what the call returned.
pub struct Outcome {
    pub state: DecoderState,
    pub rest: Seq<u8>,
    pub result: Decoded,
}

/// One move of the decoder: it consumed a field and goes on, or the call ends.
pub enum Step {
    Advance { state: DecoderState, rest: Seq<u8> },
    Finish(Outcome),
}

impl DecoderState {
    /// A decoder that has seen nothing.
    pub open spec fn fresh() -> DecoderState {
        DecoderState { kind: None, read: 0, need: 0, first: Seq::empty(), second: Seq::empty() }
    }

    /// The states a decoder can be in: inside a message it has consumed no more
    /// sections than the kind has, and it waits for a whole length field.
    pub open spec fn wf(self) -> bool {
        match self.kind {
            None => true,
            Some(kind) => {
                &&& self.read <= kind.sections()
                &&& (self.read < kind.sections() && self.read % 2 == 0 ==> self.need
                    >= LENGTH_LEN)
            },
        }
    }

    /// Moves that a call can still make from this state.
    pub open spec fn moves_left(self) -> nat {
        match self.kind {
            None => 6,
            Some(kind) => if self.read >= kind.sections() {
                0
            } else {
                (kind.sections() - self.read) as nat
            },
        }
    }
}

/// `bytes` without the zero bytes at its end.
pub open spec fn trim_nul(bytes: Seq<u8>) -> Seq<u8>
    decreases bytes.len(),
{
    if bytes.len() > 0 && bytes.last() == 0 {
        trim_nul(bytes.drop_last())
    } else {
        bytes
    }
}

/// The kind that a tag names, if its bytes up to the padding are a known name.
pub open spec fn tag_kind(tag: Seq<u8>) -> Option<MessageType> {
    let name = trim_nul(tag);
    if name == MessageType::Get.name() {
        Some(MessageType::Get)
    } else if name == MessageType::Identity.name() {
        Some(MessageType::Identity)
    } else if name == MessageType::Ping.name() {
        Some(MessageType::Ping)
    } else {
        None
    }
}

/// The message that the consumed payloads make, or the error if one of them is
/// not valid UTF-8.
pub open spec fn assemble(kind: MessageType, first: Seq<u8>, second: Seq<u8>) -> Decoded {
    match kind {
        MessageType::Ping => Ok(Some(MessageView::Ping)),
        MessageType::Get => if valid_utf8(first) {
            Ok(Some(MessageView::Get { protocol: decode_utf8(first) }))
        } else {
            Err(ErrorView::InvalidString)
        },
        MessageType::Identity => if valid_utf8(first) && valid_utf8(second) {
            Ok(
                Some(
                    MessageView::Identity {
                        protocol: decode_utf8(first),
                        address: decode_utf8(second),
                    },
                ),
            )
        } else {
            Err(ErrorView::InvalidString)
        },
    }
}

/// The move of a decoder that awaits a header. It waits for all twelve bytes,
/// then checks the magic number and the tag in this order.
pub open spec fn read_header(state: DecoderState, buf: Seq<u8>) -> Step {
    if buf.len() < HEADER_LEN {
        Step::Finish(Outcome { state, rest: buf, result: Ok(None) })
    } else {
        let magic = be_value(buf.subrange(0, MAGIC_LEN as int));
        let tag = buf.subrange(MAGIC_LEN as int, HEADER_LEN as int);
        let rest = buf.subrange(HEADER_LEN as int, buf.len() as int);
        if magic != MAGIC {
            Step::Finish(
                Outcome {
                    state,
                    rest: buf.subrange(MAGIC_LEN as int, buf.len() as int),
                    result: Err(ErrorView::InvalidMagic(magic as u16)),
                },
            )
        } else if !valid_utf8(tag) {
            Step::Finish(Outcome { state, rest, result: Err(ErrorView::InvalidString) })
        } else {
            match tag_kind(tag) {
                None => Step::Finish(
                    Outcome { state, rest, result: Err(ErrorView::InvalidType(decode_utf8(tag))) },
                ),
                Some(kind) => Step::Advance {
                    state: DecoderState {
                        kind: Some(kind),
                        read: 0,
                        need: if kind == MessageType::Ping {
                            0
                        } else {
                            LENGTH_LEN as nat
                        },
                        ..state
                    },
                    rest,
                },
            }
        }
    }
}

/// The move of a decoder inside a message of the given kind. With all sections
/// consumed it hands out the message. Else it waits until `need` bytes are
/// buffered and consumes one section whole: a length, which for the first
/// string may not exceed 100, or a payload of the length read before.
pub open spec fn read_section(kind: MessageType, state: DecoderState, buf: Seq<u8>) -> Step {
    if state.read >= kind.sections() {
        Step::Finish(
            Outcome {
                state: DecoderState { kind: None, ..state },
                rest: buf,
                result: assemble(kind, state.first, state.second),
            },
        )
    } else if buf.len() < state.need {
        Step::Finish(Outcome { state, rest: buf, result: Ok(None) })
    } else if state.read % 2 == 0 {
        let declared = be_value(buf.subrange(0, LENGTH_LEN as int));
        let rest = buf.subrange(LENGTH_LEN as int, buf.len() as int);
        if state.read == 0 && declared > MAX_PROTOCOL_LEN {
            Step::Finish(
                Outcome {
                    state: DecoderState { need: declared, ..state },
                    rest,
                    result: Err(ErrorView::ProtocolTooLong),
                },
            )
        } else {
            Step::Advance {
                state: DecoderState { read: state.read + 1, need: declared, ..state },
                rest,
            }
        }
    } else {
        let payload = buf.subrange(0, state.need as int);
        let rest = buf.subrange(state.need as int, buf.len() as int);
        Step::Advance {
            state: if state.read == 1 {
                DecoderState {
                    read: state.read + 1,
                    need: LENGTH_LEN as nat,
                    first: payload,
                    ..state
                }
            } else {
                DecoderState {
                    read: state.read + 1,
                    need: LENGTH_LEN as nat,
                    second: payload,
                    ..state
                }
            },
            rest,
        }
    }
}

/// One move of a decoder on what is buffered.
pub open spec fn step(state: DecoderState, buf: Seq<u8>) -> Step {
    match state.kind {
        None => read_header(state, buf),
        Some(kind) => read_section(kind, state, buf),
    }
}

/// What a call of the decoder does: it moves until a move ends the call.
pub open spec fn decoding(state: DecoderState, buf: Seq<u8>) -> Outcome
    decreases state.moves_left(),
{
    match step(state, buf) {
        Step::Finish(outcome) => outcome,
        Step::Advance { state: next, rest } => decoding(next, rest),
    }
}

/// A move that goes on leaves a well-formed decoder with fewer moves to make.
pub proof fn lemma_step_advances(state: DecoderState, buf: Seq<u8>)
    requires
        state.wf(),
    ensures
        step(state, buf) matches Step::Advance { state: next, rest } ==> {
            &&& next.wf()
            &&& next.moves_left() < state.moves_left()
            &&& rest.len() <= buf.len()
        },
        step(state, buf) matches Step::Finish(outcome) ==> outcome.state.wf(),
{
}

} // verus!
