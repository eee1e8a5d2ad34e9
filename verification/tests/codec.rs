use bytes::BytesMut;
use service_book::codec::{classify, MessageCodec};
use service_book::message::{Message, MessageError, MessageType};
use service_book::wire::{be_decode, be_encode_u16, be_encode_u64};

fn get(protocol: &str) -> Message {
    Message::Get { protocol: protocol.to_string() }
}

fn identity(protocol: &str, address: &str) -> Message {
    Message::Identity { protocol: protocol.to_string(), address: address.to_string() }
}

fn encoded(message: Message) -> Vec<u8> {
    let mut codec = MessageCodec::new();
    let mut buf = BytesMut::new();
    codec.encode(message, &mut buf).expect("encoding always succeeds");
    buf.to_vec()
}

fn header(tag: &str) -> Vec<u8> {
    let mut bytes = vec![0x02, 0x2b];
    bytes.extend_from_slice(tag.as_bytes());
    bytes.resize(12, 0);
    bytes
}

fn length(n: u64) -> Vec<u8> {
    n.to_be_bytes().to_vec()
}

fn frame(parts: &[&[u8]]) -> BytesMut {
    let mut buf = BytesMut::new();
    for part in parts {
        buf.extend_from_slice(part);
    }
    buf
}

/// Feeds `bytes` in the given chunk sizes and returns what the first call that did not
/// ask for more gave back, with the number of chunks fed until then.
fn feed(bytes: &[u8], sizes: &[usize]) -> (Result<Option<Message>, MessageError>, usize) {
    let mut codec = MessageCodec::new();
    let mut buf = BytesMut::new();
    let mut at = 0;
    let mut fed = 0;
    for size in sizes {
        buf.extend_from_slice(&bytes[at..at + size]);
        at += size;
        fed += 1;
        match codec.decode(&mut buf) {
            Ok(None) => (),
            other => return (other, fed),
        }
    }
    (Ok(None), fed)
}

#[test]
fn ping_is_twelve_bytes() {
    assert_eq!(
        encoded(Message::Ping),
        vec![0x02, 0x2b, b'p', b'i', b'n', b'g', 0, 0, 0, 0, 0, 0]
    );
}

#[test]
fn get_is_header_length_and_text() {
    assert_eq!(
        encoded(get("echo")),
        vec![
            0x02, 0x2b, b'g', b'e', b't', 0, 0, 0, 0, 0, 0, 0, 0, 0, 0, 0, 0, 0, 0, 4, b'e', b'c',
            b'h', b'o'
        ]
    );
}

#[test]
fn identity_is_header_and_two_strings() {
    let mut expected = header("identity");
    expected.extend_from_slice(&[0, 0, 0, 0, 0, 0, 0, 4]);
    expected.extend_from_slice(b"echo");
    expected.extend_from_slice(&[0, 0, 0, 0, 0, 0, 0, 10]);
    expected.extend_from_slice(b"10.0.0.1:9");
    assert_eq!(encoded(identity("echo", "10.0.0.1:9")), expected);
}

#[test]
fn encode_appends_and_keeps_what_was_buffered() {
    let mut codec = MessageCodec::new();
    let mut buf = BytesMut::from(&b"xy"[..]);
    assert!(codec.encode(Message::Ping, &mut buf).is_ok());
    assert_eq!(buf.len(), 14);
    assert_eq!(&buf[..2], b"xy");
    assert_eq!(&buf[2..], &header("ping")[..]);
}

#[test]
fn empty_strings_encode_to_zero_lengths() {
    let mut expected = header("identity");
    expected.extend_from_slice(&[0; 16]);
    assert_eq!(encoded(identity("", "")), expected);
}

#[test]
fn non_ascii_text_is_counted_in_bytes() {
    let bytes = encoded(get("é"));
    assert_eq!(&bytes[12..20], &[0, 0, 0, 0, 0, 0, 0, 2]);
    assert_eq!(&bytes[20..], "é".as_bytes());
}

#[test]
fn round_trip_ping() {
    let mut codec = MessageCodec::new();
    let mut buf = BytesMut::from(&encoded(Message::Ping)[..]);
    assert_eq!(codec.decode(&mut buf).unwrap(), Some(Message::Ping));
    assert!(buf.is_empty());
}

#[test]
fn round_trip_get() {
    let mut codec = MessageCodec::new();
    let mut buf = BytesMut::from(&encoded(get("echo"))[..]);
    assert_eq!(codec.decode(&mut buf).unwrap(), Some(get("echo")));
    assert!(buf.is_empty());
}

#[test]
fn round_trip_identity() {
    let mut codec = MessageCodec::new();
    let mut buf = BytesMut::from(&encoded(identity("echo", "10.0.0.1:9"))[..]);
    assert_eq!(codec.decode(&mut buf).unwrap(), Some(identity("echo", "10.0.0.1:9")));
    assert!(buf.is_empty());
}

#[test]
fn round_trip_non_ascii_and_empty_text() {
    let message = identity("", "grüß-gott:№9");
    let mut codec = MessageCodec::new();
    let mut buf = BytesMut::from(&encoded(message.clone())[..]);
    assert_eq!(codec.decode(&mut buf).unwrap(), Some(message));
}

#[test]
fn one_byte_at_a_time_gives_the_message_at_the_last_byte() {
    let message = identity("echo", "10.0.0.1:9");
    let bytes = encoded(message.clone());
    let sizes = vec![1; bytes.len()];
    let (result, fed) = feed(&bytes, &sizes);
    assert_eq!(result.unwrap(), Some(message));
    assert_eq!(fed, bytes.len());
}

#[test]
fn every_cut_in_two_gives_the_message() {
    let message = identity("echo", "10.0.0.1:9");
    let bytes = encoded(message.clone());
    for cut in 0..=bytes.len() {
        let (result, _) = feed(&bytes, &[cut, bytes.len() - cut]);
        assert_eq!(result.unwrap(), Some(message.clone()), "cut at {}", cut);
    }
}

#[test]
fn cuts_inside_fields_give_the_message() {
    let message = get("echo");
    let bytes = encoded(message.clone());
    assert_eq!(bytes.len(), 24);
    let (result, fed) = feed(&bytes, &[1, 10, 3, 6, 0, 3, 1]);
    assert_eq!(result.unwrap(), Some(message));
    assert_eq!(fed, 7);
}

#[test]
fn ping_arrives_with_its_twelfth_byte() {
    let bytes = encoded(Message::Ping);
    let (early, _) = feed(&bytes, &[11]);
    assert_eq!(early.unwrap(), None);
    let (result, fed) = feed(&bytes, &[11, 1]);
    assert_eq!(result.unwrap(), Some(Message::Ping));
    assert_eq!(fed, 2);
}

#[test]
fn short_header_is_left_in_the_buffer() {
    let mut codec = MessageCodec::new();
    let mut buf = BytesMut::from(&header("get")[..11]);
    assert_eq!(codec.decode(&mut buf).unwrap(), None);
    assert_eq!(&buf[..], &header("get")[..11]);
}

#[test]
fn partial_length_is_left_in_the_buffer() {
    let mut codec = MessageCodec::new();
    let mut buf = frame(&[&header("get"), &[0, 0, 0]]);
    assert_eq!(codec.decode(&mut buf).unwrap(), None);
    assert_eq!(&buf[..], &[0, 0, 0]);
    buf.extend_from_slice(&[0, 0, 0, 0, 2, b'h']);
    assert_eq!(codec.decode(&mut buf).unwrap(), None);
    assert_eq!(&buf[..], b"h");
    buf.extend_from_slice(b"i");
    assert_eq!(codec.decode(&mut buf).unwrap(), Some(get("hi")));
    assert!(buf.is_empty());
}

#[test]
fn two_messages_in_one_buffer_come_out_in_turn() {
    let mut codec = MessageCodec::new();
    let mut buf = frame(&[&encoded(get("echo")), &encoded(Message::Ping), &[0x02]]);
    assert_eq!(codec.decode(&mut buf).unwrap(), Some(get("echo")));
    assert_eq!(buf.len(), 13);
    assert_eq!(codec.decode(&mut buf).unwrap(), Some(Message::Ping));
    assert_eq!(&buf[..], &[0x02]);
    assert_eq!(codec.decode(&mut buf).unwrap(), None);
}

#[test]
fn first_length_of_101_is_too_long() {
    let mut codec = MessageCodec::new();
    let mut buf = frame(&[&header("get"), &length(101), &[b'a'; 101]]);
    assert!(matches!(codec.decode(&mut buf), Err(MessageError::ProtocolTooLong)));
}

#[test]
fn first_length_of_101_is_too_long_for_an_identity() {
    let mut codec = MessageCodec::new();
    let mut buf = frame(&[&header("identity"), &length(101)]);
    assert!(matches!(codec.decode(&mut buf), Err(MessageError::ProtocolTooLong)));
}

#[test]
fn huge_first_length_is_too_long() {
    let mut codec = MessageCodec::new();
    let mut buf = frame(&[&header("get"), &length(u64::MAX)]);
    assert!(matches!(codec.decode(&mut buf), Err(MessageError::ProtocolTooLong)));
}

#[test]
fn first_length_of_100_is_accepted() {
    let protocol = "a".repeat(100);
    let mut codec = MessageCodec::new();
    let mut buf = BytesMut::from(&encoded(get(&protocol))[..]);
    assert_eq!(codec.decode(&mut buf).unwrap(), Some(get(&protocol)));
}

#[test]
fn second_string_may_exceed_100_bytes() {
    let address = "b".repeat(300);
    let mut codec = MessageCodec::new();
    let mut buf = BytesMut::from(&encoded(identity("echo", &address))[..]);
    assert_eq!(codec.decode(&mut buf).unwrap(), Some(identity("echo", &address)));
}

#[test]
fn altered_magic_is_reported_with_its_value() {
    let mut bytes = encoded(Message::Ping);
    bytes[0] = 0x12;
    bytes[1] = 0x34;
    let mut codec = MessageCodec::new();
    let mut buf = BytesMut::from(&bytes[..]);
    assert!(matches!(codec.decode(&mut buf), Err(MessageError::InvalidMagic(0x1234))));
}

#[test]
fn magic_off_by_one_is_reported() {
    let mut bytes = encoded(get("echo"));
    bytes[1] = 0x2c;
    let mut codec = MessageCodec::new();
    let mut buf = BytesMut::from(&bytes[..]);
    assert!(matches!(codec.decode(&mut buf), Err(MessageError::InvalidMagic(556))));
}

#[test]
fn magic_is_not_judged_before_the_header_is_whole() {
    let mut codec = MessageCodec::new();
    let mut buf = BytesMut::from(&[0xff, 0xff, b'p'][..]);
    assert_eq!(codec.decode(&mut buf).unwrap(), None);
    assert_eq!(buf.len(), 3);
}

#[test]
fn unknown_tag_is_reported_in_full() {
    let mut codec = MessageCodec::new();
    let mut buf = BytesMut::from(&header("put")[..]);
    match codec.decode(&mut buf) {
        Err(MessageError::InvalidType(tag)) => assert_eq!(tag, "put\0\0\0\0\0\0\0"),
        other => panic!("unexpected: {:?}", other),
    }
}

#[test]
fn tag_with_bytes_behind_the_padding_is_unknown() {
    let mut bytes = header("get");
    bytes[11] = b'x';
    let mut codec = MessageCodec::new();
    let mut buf = BytesMut::from(&bytes[..]);
    assert!(matches!(codec.decode(&mut buf), Err(MessageError::InvalidType(_))));
}

#[test]
fn empty_tag_is_unknown() {
    let mut codec = MessageCodec::new();
    let mut buf = BytesMut::from(&header("")[..]);
    assert!(matches!(codec.decode(&mut buf), Err(MessageError::InvalidType(_))));
}

#[test]
fn tag_that_is_not_utf8_is_an_invalid_string() {
    let mut bytes = header("get");
    bytes[5] = 0xff;
    let mut codec = MessageCodec::new();
    let mut buf = BytesMut::from(&bytes[..]);
    assert!(matches!(codec.decode(&mut buf), Err(MessageError::InvalidString)));
}

#[test]
fn payload_that_is_not_utf8_is_an_invalid_string() {
    let mut codec = MessageCodec::new();
    let mut buf = frame(&[&header("get"), &length(2), &[0xc3, 0x28]]);
    assert!(matches!(codec.decode(&mut buf), Err(MessageError::InvalidString)));
}

#[test]
fn second_payload_that_is_not_utf8_is_an_invalid_string() {
    let mut codec = MessageCodec::new();
    let mut buf = frame(&[&header("identity"), &length(1), b"a", &length(1), &[0x80]]);
    assert!(matches!(codec.decode(&mut buf), Err(MessageError::InvalidString)));
}

#[test]
fn end_of_stream_in_mid_message_is_no_message() {
    let mut codec = MessageCodec::new();
    let mut buf = frame(&[&header("get"), &length(3), b"a"]);
    assert_eq!(codec.decode(&mut buf).unwrap(), None);
    assert_eq!(codec.decode_eof(&mut buf).unwrap(), None);
    assert_eq!(&buf[..], b"a");
}

#[test]
fn kinds_know_their_sections_and_tags() {
    assert_eq!(MessageType::Ping.section_count(), 0);
    assert_eq!(MessageType::Get.section_count(), 2);
    assert_eq!(MessageType::Identity.section_count(), 4);
    assert_eq!(&MessageType::Ping.to_bytes()[..], b"ping\0\0\0\0\0\0");
    assert_eq!(&MessageType::Get.to_bytes()[..], b"get\0\0\0\0\0\0\0");
    assert_eq!(&MessageType::Identity.to_bytes()[..], b"identity\0\0");
    assert_eq!(MessageType::Identity.name_bytes(), b"identity");
}

#[test]
fn messages_know_their_kind() {
    assert_eq!(Message::Ping.get_type(), MessageType::Ping);
    assert_eq!(get("a").get_type(), MessageType::Get);
    assert_eq!(identity("a", "b").get_type(), MessageType::Identity);
}

#[test]
fn tags_are_classified_up_to_their_padding() {
    assert_eq!(classify(b"get\0\0\0\0\0\0\0"), Some(MessageType::Get));
    assert_eq!(classify(b"ping\0\0\0\0\0\0"), Some(MessageType::Ping));
    assert_eq!(classify(b"identity\0\0"), Some(MessageType::Identity));
    assert_eq!(classify(b"get"), Some(MessageType::Get));
    assert_eq!(classify(b"ge\0t\0\0\0\0\0\0"), None);
    assert_eq!(classify(b"\0\0\0\0\0\0\0\0\0\0"), None);
    assert_eq!(classify(b"getter\0\0\0\0"), None);
    assert_eq!(classify(b"Get\0\0\0\0\0\0\0"), None);
}

#[test]
fn integers_are_big_endian() {
    assert_eq!(be_encode_u16(555), vec![0x02, 0x2b]);
    assert_eq!(be_encode_u64(0x0102030405060708), vec![1, 2, 3, 4, 5, 6, 7, 8]);
    assert_eq!(be_encode_u64(u64::MAX), vec![0xff; 8]);
    assert_eq!(be_decode(&[0x02, 0x2b]), 555);
    assert_eq!(be_decode(&[1, 2, 3, 4, 5, 6, 7, 8]), 0x0102030405060708);
    assert_eq!(be_decode(&[]), 0);
    assert_eq!(be_decode(&[0xff; 8]), u64::MAX);
}

#[test]
fn outside_errors_become_message_errors() {
    let io = std::io::Error::new(std::io::ErrorKind::Other, "closed");
    assert!(matches!(MessageError::from(io), MessageError::Io(_)));
    let utf8 = String::from_utf8(vec![0xff]).unwrap_err();
    assert!(matches!(MessageError::from(utf8), MessageError::InvalidString));
}

#[test]
fn encoded_len_counts_header_lengths_and_text() {
    assert_eq!(Message::Ping.encoded_len(), Some(12));
    assert_eq!(get("").encoded_len(), Some(20));
    assert_eq!(get("echo").encoded_len(), Some(24));
    assert_eq!(get("é").encoded_len(), Some(22));
    assert_eq!(identity("echo", "10.0.0.1:9").encoded_len(), Some(42));
    for message in [Message::Ping, get("echo"), identity("a", "grüß")] {
        assert_eq!(message.encoded_len(), Some(encoded(message.clone()).len()));
    }
}
