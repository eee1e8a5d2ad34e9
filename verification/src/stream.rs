//! What holds of whole streams: a decoder reads back what an encoder wrote,
//! however the bytes are cut into pieces, and turns away what is malformed.

use crate::decoding::{decoding, step, tag_kind, trim_nul, DecoderState, Outcome, Step};
use crate::message::{field, header, ErrorView, MessageType, MessageView};
use crate::wire::{
    be_bytes, be_value, lemma_be_bytes_len, lemma_be_round_trip, lemma_fits_machine_words,
    HEADER_LEN, LENGTH_LEN, MAGIC, MAGIC_LEN, MAX_PROTOCOL_LEN,
};
use vstd::prelude::*;
use vstd::utf8::*;

verus! {

/// The messages whose encoding a decoder takes back: the first string has at
/// most 100 bytes, and the length of every string fits its eight-byte field.
pub open spec fn decodable(message: MessageView) -> bool {
    match message {
        MessageView::Ping => true,
        MessageView::Get { protocol } => encode_utf8(protocol).len() <= MAX_PROTOCOL_LEN,
        MessageView::Identity { protocol, address } => {
            &&& encode_utf8(protocol).len() <= MAX_PROTOCOL_LEN
            &&& encode_utf8(address).len() <= u64::MAX
        },
    }
}

/// The bytes of all chunks, one after the other.
pub open spec fn joined(chunks: Seq<Seq<u8>>) -> Seq<u8> {
    chunks.flatten()
}

/// What a connection makes of bytes that arrive in chunks: each chunk is put
/// behind what is buffered and the decoder is called, until a call returns a
/// message or an error or the chunks are used up.
pub open spec fn feeding(state: DecoderState, buf: Seq<u8>, chunks: Seq<Seq<u8>>) -> Outcome
    decreases chunks.len(),
{
    if chunks.len() == 0 {
        Outcome { state, rest: buf, result: Ok(None) }
    } else {
        let outcome = decoding(state, buf + chunks.first());
        if outcome.result == Ok::<Option<MessageView>, ErrorView>(None) && chunks.len() > 1 {
            feeding(outcome.state, outcome.rest, chunks.drop_first())
        } else {
            outcome
        }
    }
}

proof fn lemma_cut(front: Seq<u8>, back: Seq<u8>)
    ensures
        (front + back).subrange(0, front.len() as int) == front,
        (front + back).subrange(front.len() as int, (front + back).len() as int) == back,
{
    assert((front + back).subrange(0, front.len() as int) =~= front);
    assert((front + back).subrange(front.len() as int, (front + back).len() as int) =~= back);
}

proof fn lemma_trim_padding(name: Seq<u8>, padding: nat)
    requires
        name.len() > 0,
        name.last() != 0,
    ensures
        trim_nul(name + Seq::new(padding, |i: int| 0u8)) == name,
    decreases padding,
{
    let padded = name + Seq::new(padding, |i: int| 0u8);
    if padding == 0 {
        assert(padded =~= name);
    } else {
        assert(padded.drop_last() =~= name + Seq::new((padding - 1) as nat, |i: int| 0u8));
        lemma_trim_padding(name, (padding - 1) as nat);
    }
}

/// Bytes below 128 are valid UTF-8.
pub proof fn lemma_ascii_is_utf8(bytes: Seq<u8>)
    requires
        forall|i: int| 0 <= i < bytes.len() ==> bytes[i] < 128,
    ensures
        valid_utf8(bytes),
{
    let chars = Seq::new(bytes.len(), |i: int| bytes[i] as char);
    assert(is_ascii_chars(chars));
    is_ascii_chars_encode_utf8(chars);
    assert(encode_utf8(chars) =~= bytes);
    encode_utf8_valid_utf8(chars);
}

/// A decoder recognises the tag of every kind.
pub proof fn lemma_tag_names_kind(kind: MessageType)
    ensures
        kind.tag().len() == 10,
        valid_utf8(kind.tag()),
        tag_kind(kind.tag()) == Some(kind),
{
    lemma_trim_padding(kind.name(), (10 - kind.name().len()) as nat);
    lemma_ascii_is_utf8(kind.tag());
    assert(MessageType::Get.name().len() == 3);
    assert(MessageType::Ping.name().len() == 4);
    assert(MessageType::Identity.name().len() == 8);
}

proof fn lemma_header_move(state: DecoderState, kind: MessageType, tail: Seq<u8>)
    requires
        state.kind is None,
    ensures
        step(state, header(kind) + tail) == (Step::Advance {
            state: DecoderState {
                kind: Some(kind),
                read: 0,
                need: if kind == MessageType::Ping {
                    0
                } else {
                    8
                },
                ..state
            },
            rest: tail,
        }),
{
    let buf = header(kind) + tail;
    lemma_tag_names_kind(kind);
    lemma_be_bytes_len(555, 2);
    lemma_fits_machine_words(555);
    lemma_be_round_trip(555, 2);
    assert(buf.subrange(0, 2) =~= be_bytes(555, 2));
    assert(buf.subrange(2, 12) =~= kind.tag());
    assert(buf.subrange(12, buf.len() as int) =~= tail);
}

proof fn lemma_length_move(state: DecoderState, declared: nat, tail: Seq<u8>)
    requires
        state.kind is Some,
        state.read < state.kind->0.sections(),
        state.read % 2 == 0,
        state.need == 8,
        declared <= u64::MAX,
        state.read == 0 ==> declared <= 100,
    ensures
        step(state, be_bytes(declared, 8) + tail) == (Step::Advance {
            state: DecoderState { read: state.read + 1, need: declared, ..state },
            rest: tail,
        }),
{
    lemma_be_bytes_len(declared, 8);
    lemma_fits_machine_words(declared);
    lemma_be_round_trip(declared, 8);
    lemma_cut(be_bytes(declared, 8), tail);
}

proof fn lemma_payload_move(state: DecoderState, payload: Seq<u8>, tail: Seq<u8>)
    requires
        state.kind is Some,
        state.read < state.kind->0.sections(),
        state.read % 2 == 1,
        state.need == payload.len(),
    ensures
        step(state, payload + tail) == (Step::Advance {
            state: if state.read == 1 {
                DecoderState { read: state.read + 1, need: 8, first: payload, ..state }
            } else {
                DecoderState { read: state.read + 1, need: 8, second: payload, ..state }
            },
            rest: tail,
        }),
{
    lemma_cut(payload, tail);
}

/// A decoder that has consumed `read` sections of a message consumes a string
/// that is buffered in full, and goes on behind it.
proof fn lemma_field_moves(state: DecoderState, text: Seq<char>, tail: Seq<u8>)
    requires
        state.kind is Some,
        state.read + 1 < state.kind->0.sections(),
        state.read % 2 == 0,
        state.need == 8,
        encode_utf8(text).len() <= u64::MAX,
        state.read == 0 ==> encode_utf8(text).len() <= 100,
    ensures
        decoding(state, field(text) + tail) == decoding(
            if state.read == 0 {
                DecoderState { read: 2, need: 8, first: encode_utf8(text), ..state }
            } else {
                DecoderState {
                    read: state.read + 2,
                    need: 8,
                    second: encode_utf8(text),
                    ..state
                }
            },
            tail,
        ),
{
    let payload = encode_utf8(text);
    let after_length = DecoderState { read: state.read + 1, need: payload.len(), ..state };
    assert(field(text) + tail =~= be_bytes(payload.len(), 8) + (payload + tail));
    lemma_length_move(state, payload.len(), payload + tail);
    lemma_payload_move(after_length, payload, tail);
    assert(decoding(state, field(text) + tail) == decoding(after_length, payload + tail));
}

/// Decoding takes back what encoding gave: a decoder that awaits a header and
/// finds the encoding of a message at the front of its buffer returns that
/// message, consumes exactly its bytes and awaits the next header.
pub proof fn lemma_decode_encoded(state: DecoderState, message: MessageView, tail: Seq<u8>)
    requires
        state.kind is None,
        decodable(message),
    ensures
        decoding(state, message.encoding() + tail).result == Ok::<
            Option<MessageView>,
            ErrorView,
        >(Some(message)),
        decoding(state, message.encoding() + tail).rest == tail,
        decoding(state, message.encoding() + tail).state.kind is None,
{
    let kind = message.kind();
    let entered = DecoderState {
        kind: Some(kind),
        read: 0,
        need: if kind == MessageType::Ping {
            0
        } else {
            8
        },
        ..state
    };
    match message {
        MessageView::Ping => {
            lemma_header_move(state, kind, tail);
            assert(decoding(state, header(kind) + tail) == decoding(entered, tail));
        },
        MessageView::Get { protocol } => {
            let bytes = encode_utf8(protocol);
            assert(message.encoding() + tail =~= header(kind) + (field(protocol) + tail));
            lemma_header_move(state, kind, field(protocol) + tail);
            lemma_field_moves(entered, protocol, tail);
            let done = DecoderState { read: 2, need: 8, first: bytes, ..entered };
            assert(decoding(done, tail).result == crate::decoding::assemble(
                kind,
                bytes,
                done.second,
            ));
            encode_utf8_valid_utf8(protocol);
            encode_utf8_decode_utf8(protocol);
        },
        MessageView::Identity { protocol, address } => {
            let first = encode_utf8(protocol);
            let second = encode_utf8(address);
            assert(message.encoding() + tail =~= header(kind) + (field(protocol) + (field(address)
                + tail)));
            lemma_header_move(state, kind, field(protocol) + (field(address) + tail));
            lemma_field_moves(entered, protocol, field(address) + tail);
            let half = DecoderState { read: 2, need: 8, first, ..entered };
            lemma_field_moves(half, address, tail);
            let done = DecoderState { read: 4, need: 8, second, ..half };
            assert(decoding(done, tail).result == crate::decoding::assemble(kind, first, second));
            encode_utf8_valid_utf8(protocol);
            encode_utf8_decode_utf8(protocol);
            encode_utf8_valid_utf8(address);
            encode_utf8_decode_utf8(address);
        },
    }
}

/// Bytes that arrive later change nothing of what a call has done. Where a call
/// ended with a message or an error, the same call on a longer buffer ends the
/// same way and leaves the added bytes untouched. Where it asked for more, the
/// next call carries on as if it had seen all bytes at once.
pub proof fn lemma_decode_resumes(state: DecoderState, buf: Seq<u8>, more: Seq<u8>)
    requires
        state.wf(),
    ensures
        ({
            let early = decoding(state, buf);
            if early.result == Ok::<Option<MessageView>, ErrorView>(None) {
                decoding(state, buf + more) == decoding(early.state, early.rest + more)
            } else {
                decoding(state, buf + more) == (Outcome { rest: early.rest + more, ..early })
            }
        }),
    decreases state.moves_left(),
{
    let longer = buf + more;
    crate::decoding::lemma_step_advances(state, buf);
    match step(state, buf) {
        Step::Advance { state: next, rest } => {
            assert(step(state, longer) == (Step::Advance { state: next, rest: rest + more })) by {
                match state.kind {
                    None => {
                        assert(longer.subrange(0, 2) =~= buf.subrange(0, 2));
                        assert(longer.subrange(2, 12) =~= buf.subrange(2, 12));
                        assert(longer.subrange(12, longer.len() as int) =~= buf.subrange(
                            12,
                            buf.len() as int,
                        ) + more);
                    },
                    Some(kind) => {
                        if state.read % 2 == 0 {
                            assert(longer.subrange(0, 8) =~= buf.subrange(0, 8));
                            assert(longer.subrange(8, longer.len() as int) =~= buf.subrange(
                                8,
                                buf.len() as int,
                            ) + more);
                        } else {
                            let need = state.need as int;
                            assert(longer.subrange(0, need) =~= buf.subrange(0, need));
                            assert(longer.subrange(need, longer.len() as int) =~= buf.subrange(
                                need,
                                buf.len() as int,
                            ) + more);
                        }
                    },
                }
            }
            lemma_decode_resumes(next, rest, more);
        },
        Step::Finish(outcome) => {
            if outcome.result == Ok::<Option<MessageView>, ErrorView>(None) {
            } else {
                match state.kind {
                    None => {
                        assert(longer.subrange(0, 2) =~= buf.subrange(0, 2));
                        assert(longer.subrange(2, 12) =~= buf.subrange(2, 12));
                        assert(longer.subrange(2, longer.len() as int) =~= buf.subrange(
                            2,
                            buf.len() as int,
                        ) + more);
                        assert(longer.subrange(12, longer.len() as int) =~= buf.subrange(
                            12,
                            buf.len() as int,
                        ) + more);
                    },
                    Some(kind) => {
                        if state.read < kind.sections() {
                            assert(longer.subrange(0, 8) =~= buf.subrange(0, 8));
                            assert(longer.subrange(8, longer.len() as int) =~= buf.subrange(
                                8,
                                buf.len() as int,
                            ) + more);
                        }
                    },
                }
            }
        },
    }
}

/// A call that asked for more bytes and gets none has nothing to do: called
/// again on what it left, the decoder stays where it is and asks again.
pub proof fn lemma_waiting_is_idle(state: DecoderState, buf: Seq<u8>)
    requires
        state.wf(),
        decoding(state, buf).result == Ok::<Option<MessageView>, ErrorView>(None),
    ensures
        decoding(decoding(state, buf).state, decoding(state, buf).rest) == decoding(state, buf),
{
    let empty = Seq::<u8>::empty();
    lemma_decode_resumes(state, buf, empty);
    assert(buf + empty =~= buf);
    assert(decoding(state, buf).rest + empty =~= decoding(state, buf).rest);
}

/// However a stream is cut into chunks, feeding the chunks one by one ends as
/// one call on all bytes together: with the same message or error, and with the
/// decoder in the same state.
pub proof fn lemma_chunks_do_not_matter(state: DecoderState, buf: Seq<u8>, chunks: Seq<Seq<u8>>)
    requires
        state.wf(),
        chunks.len() > 0,
    ensures
        feeding(state, buf, chunks).result == decoding(state, buf + joined(chunks)).result,
        feeding(state, buf, chunks).state == decoding(state, buf + joined(chunks)).state,
    decreases chunks.len(),
{
    let head = chunks.first();
    let others = chunks.drop_first();
    let early = decoding(state, buf + head);
    assert(buf + joined(chunks) =~= (buf + head) + joined(others));
    lemma_decode_resumes(state, buf + head, joined(others));
    if chunks.len() == 1 {
        assert(joined(others) =~= Seq::<u8>::empty());
        assert((buf + head) + joined(others) =~= buf + head);
    } else if early.result == Ok::<Option<MessageView>, ErrorView>(None) {
        lemma_outcome_wf(state, buf + head);
        lemma_chunks_do_not_matter(early.state, early.rest, others);
    }
}

/// A call leaves the decoder in one of its states.
pub proof fn lemma_outcome_wf(state: DecoderState, buf: Seq<u8>)
    requires
        state.wf(),
    ensures
        decoding(state, buf).state.wf(),
    decreases state.moves_left(),
{
    crate::decoding::lemma_step_advances(state, buf);
    match step(state, buf) {
        Step::Advance { state: next, rest } => {
            lemma_outcome_wf(next, rest);
        },
        Step::Finish(outcome) => {},
    }
}

/// The encoding of a message, cut into chunks in any way and fed to a fresh
/// decoder chunk by chunk, gives the message, as it does in one piece.
pub proof fn lemma_fragments_decode(message: MessageView, chunks: Seq<Seq<u8>>)
    requires
        decodable(message),
        joined(chunks) == message.encoding(),
    ensures
        feeding(DecoderState::fresh(), Seq::empty(), chunks).result == Ok::<
            Option<MessageView>,
            ErrorView,
        >(Some(message)),
        feeding(DecoderState::fresh(), Seq::empty(), chunks).result == decoding(
            DecoderState::fresh(),
            message.encoding(),
        ).result,
{
    let fresh = DecoderState::fresh();
    let empty = Seq::<u8>::empty();
    lemma_decode_encoded(fresh, message, empty);
    assert(message.encoding() + empty =~= message.encoding());
    assert(empty + joined(chunks) =~= message.encoding());
    if chunks.len() == 0 {
        lemma_be_bytes_len(555, 2);
        assert(message.encoding().len() >= 2);
    } else {
        lemma_chunks_do_not_matter(fresh, empty, chunks);
    }
}

/// A first string that declares more than 100 bytes ends the stream: whatever
/// follows the length, the decoder returns the over-length error.
pub proof fn lemma_long_protocol_rejected(
    state: DecoderState,
    kind: MessageType,
    declared: nat,
    tail: Seq<u8>,
)
    requires
        state.kind is None,
        kind != MessageType::Ping,
        MAX_PROTOCOL_LEN < declared <= u64::MAX,
    ensures
        decoding(state, header(kind) + be_bytes(declared, LENGTH_LEN as nat) + tail).result == Err::<
            Option<MessageView>,
            ErrorView,
        >(ErrorView::ProtocolTooLong),
{
    let body = be_bytes(declared, 8) + tail;
    assert(header(kind) + be_bytes(declared, 8) + tail =~= header(kind) + body);
    lemma_header_move(state, kind, body);
    lemma_be_bytes_len(declared, 8);
    lemma_fits_machine_words(declared);
    lemma_be_round_trip(declared, 8);
    lemma_cut(be_bytes(declared, 8), tail);
    let entered = DecoderState { kind: Some(kind), read: 0, need: 8, ..state };
    assert(decoding(state, header(kind) + body) == decoding(entered, body));
}

/// A header that opens with anything but the magic number ends the stream with
/// the number found.
pub proof fn lemma_bad_magic_rejected(state: DecoderState, buf: Seq<u8>)
    requires
        state.kind is None,
        buf.len() >= HEADER_LEN,
        be_value(buf.subrange(0, MAGIC_LEN as int)) != MAGIC,
    ensures
        decoding(state, buf).result == Err::<Option<MessageView>, ErrorView>(
            ErrorView::InvalidMagic(be_value(buf.subrange(0, MAGIC_LEN as int)) as u16),
        ),
        decoding(state, buf).state == state,
{
}

} // verus!
