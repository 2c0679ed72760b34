use bytes::BytesMut;
use k210_flash::error::{Error, ErrorKind};
use k210_flash::slip::{SlipCodec, SlipDecoded};

fn frame_of(packet: &[u8]) -> Vec<u8> {
    let mut dst = BytesMut::new();
    SlipCodec.encode(packet, &mut dst).unwrap();
    dst.to_vec()
}

fn decode(bytes: &[u8]) -> (Result<Option<SlipDecoded>, Error>, Vec<u8>) {
    let mut src = BytesMut::from(bytes);
    let outcome = SlipCodec.decode(&mut src);
    (outcome, src.to_vec())
}

fn decoded(item: &[u8], log: &[u8]) -> Result<Option<SlipDecoded>, Error> {
    Ok(Some(SlipDecoded { item: item.to_vec(), log: log.to_vec() }))
}

#[test]
fn encodes_plain_bytes_between_delimiters() {
    assert_eq!(frame_of(&[1, 2, 3]), vec![0xc0, 1, 2, 3, 0xc0]);
    assert_eq!(frame_of(&[]), vec![0xc0, 0xc0]);
}

#[test]
fn encodes_delimiters_and_escapes() {
    assert_eq!(
        frame_of(&[0xc0, 0xdb, 0xdc, 0xdd]),
        vec![0xc0, 0xdb, 0xdc, 0xdb, 0xdd, 0xdc, 0xdd, 0xc0]
    );
}

#[test]
fn encode_appends_to_what_is_there() {
    let mut dst = BytesMut::from(&[9u8][..]);
    SlipCodec.encode(&[1], &mut dst).unwrap();
    SlipCodec.encode(&[2], &mut dst).unwrap();
    assert_eq!(dst.to_vec(), vec![9, 0xc0, 1, 0xc0, 0xc0, 2, 0xc0]);
}

#[test]
fn frame_delimiters_stand_at_the_ends_only() {
    let packet: Vec<u8> = (0..=255u8).collect();
    let frame = frame_of(&packet);
    assert_eq!(frame.len(), 256 + 2 + 2);
    assert_eq!(frame[0], 0xc0);
    assert_eq!(frame[frame.len() - 1], 0xc0);
    assert!(!frame[1..frame.len() - 1].contains(&0xc0));
}

#[test]
fn frames_of_different_packets_differ() {
    assert_ne!(frame_of(&[0xc0]), frame_of(&[0xdb, 0xdc]));
    assert_ne!(frame_of(&[0xdb]), frame_of(&[0xdb, 0xdd]));
}

#[test]
fn plain_packets_round_trip() {
    let packet: Vec<u8> = (0..=255u8).filter(|b| *b != 0xc0 && *b != 0xdb).collect();
    let mut bytes = frame_of(&packet);
    bytes.extend_from_slice(&[5, 6]);
    assert_eq!(decode(&bytes), (decoded(&packet, &[]), vec![5, 6]));
    assert_eq!(decode(&frame_of(&[])), (decoded(&[], &[]), vec![]));
    assert_eq!(decode(&frame_of(&[1, 0xdc, 0xdd])), (decoded(&[1, 0xdc, 0xdd], &[]), vec![]));
}

#[test]
fn escaped_packets_are_refused() {
    let mut bytes = frame_of(&[1, 0xc0, 2]);
    bytes.push(8);
    assert_eq!(decode(&bytes), (Err(Error::InvalidEscape), vec![8]));
    assert_eq!(decode(&frame_of(&[0xdb])), (Err(Error::InvalidEscape), vec![]));
    assert_eq!(decode(&frame_of(&[0xdc, 0xc0])), (Err(Error::InvalidEscape), vec![]));
}

#[test]
fn leading_escape_codes_are_dropped() {
    assert_eq!(decode(&[0xc0, 0xdc, 0xdd, 7, 0xdc, 0xc0]), (decoded(&[7, 0xdc], &[]), vec![]));
    assert_eq!(decode(&[0xc0, 0xdd, 0xc0]), (decoded(&[], &[]), vec![]));
}

#[test]
fn a_lone_escape_byte_is_kept() {
    assert_eq!(decode(&[0xc0, 0xdb, 0xc0]), (decoded(&[0xdb], &[]), vec![]));
    assert_eq!(decode(&[0xc0, 0xdb, 1, 0xc0]), (decoded(&[0xdb, 1], &[]), vec![]));
}

#[test]
fn log_text_comes_with_the_frame() {
    let mut bytes = b"[INFO] boot\r\n".to_vec();
    bytes.extend_from_slice(&[0xc0, 0xc2, 0xe0, 0xc0, 4]);
    let (outcome, rest) = decode(&bytes);
    let reply = outcome.unwrap().unwrap();
    assert_eq!(reply.get_item(), &vec![0xc2, 0xe0]);
    assert_eq!(reply.get_debug_info(), "[INFO] boot\r\n".to_string());
    assert_eq!(rest, vec![4]);
}

#[test]
fn log_text_before_a_broken_frame_changes_nothing() {
    assert_eq!(decode(&[0xc0, 0xdb, 0xdc, 0xc0, 1]), (Err(Error::InvalidEscape), vec![1]));
    assert_eq!(decode(&[0x5b, 0x41, 0xc0, 0xdb, 0xdc, 0xc0, 1]), (Err(Error::InvalidEscape), vec![1]));
    assert_eq!(decode(&[0xc0, 9]), (Ok(None), vec![0xc0, 9]));
    assert_eq!(decode(&[0x5b, 0x41, 0xc0, 9]), (Ok(None), vec![0xc0, 9]));
}

#[test]
fn log_text_that_is_not_text_is_replaced() {
    let reply = SlipDecoded { item: vec![], log: vec![0x5b, 0xff] };
    assert_eq!(reply.get_debug_info(), "[\u{fffd}".to_string());
}

#[test]
fn incomplete_input_asks_for_more() {
    assert_eq!(decode(b"[INFO"), (Ok(None), b"[INFO".to_vec()));
    assert_eq!(decode(&[0xc0]), (Ok(None), vec![0xc0]));
    assert_eq!(decode(&[0x41]), (Ok(None), vec![0x41]));
    assert_eq!(decode(&[0xc0, 1, 2]), (Ok(None), vec![0xc0, 1, 2]));
    assert_eq!(decode(&[0x5b, 0x41, 0xc0]), (Ok(None), vec![0xc0]));
    assert_eq!(decode(&[0x5b, 0x41, 0xc0, 1]), (Ok(None), vec![0xc0, 1]));
}

#[test]
fn a_split_frame_decodes_when_the_rest_arrives() {
    let mut src = BytesMut::from(&b"[x"[..]);
    assert_eq!(SlipCodec.decode(&mut src), Ok(None));
    src.extend_from_slice(&[0xc0, 1]);
    assert_eq!(SlipCodec.decode(&mut src), Ok(None));
    assert_eq!(src.to_vec(), vec![0xc0, 1]);
    src.extend_from_slice(&[2, 0xc0, 3]);
    assert_eq!(SlipCodec.decode(&mut src), decoded(&[1, 2], &[]));
    assert_eq!(src.to_vec(), vec![3]);
}

#[test]
fn other_bytes_are_refused() {
    assert_eq!(decode(&[0x41, 0xc0, 1, 0xc0]), (Err(Error::InvalidByte), vec![0x41, 0xc0, 1, 0xc0]));
}

#[test]
fn an_empty_reply_is_empty() {
    let reply = SlipDecoded::new();
    assert_eq!(reply.get_item().len(), 0);
    assert_eq!(reply.get_debug_info(), "".to_string());
}

#[test]
fn errors_have_kinds_and_messages() {
    assert_eq!(Error::InvalidByte.message(), "Invalid byte");
    assert_eq!(Error::InvalidEscape.message(), "Invalid byte in escape sequence");
    assert_eq!(Error::InvalidResponse.message(), "Invalid response");
    assert_eq!(Error::Timeout.message(), "Timeout");
    assert_eq!(Error::NotRiscv.message(), "Not a RISCV64 ELF file");
    assert_eq!(Error::InvalidByte.kind(), ErrorKind::Other);
    assert_eq!(Error::InvalidEscape.kind(), ErrorKind::Other);
    assert_eq!(Error::InvalidResponse.kind(), ErrorKind::Other);
    assert_eq!(Error::Io.kind(), ErrorKind::Other);
    assert_eq!(Error::Timeout.kind(), ErrorKind::TimedOut);
    assert_eq!(Error::NotRiscv.kind(), ErrorKind::InvalidInput);
}
