use cribbage::hand::Hand;
use cribbage::{encode_frame, parse_frame, take_record, Card, Frame, FrameError, Suit};

fn card(value: char, suit: Suit) -> Card {
    Card { value, suit }
}

fn record(frame: &Frame) -> Vec<u8> {
    let mut bytes = encode_frame(frame).unwrap();
    assert_eq!(bytes.pop(), Some(b'\n'));
    bytes
}

fn round_trip(frame: Frame) {
    let bytes = record(&frame);
    assert_eq!(parse_frame(&bytes), Ok(Some(frame)));
}

#[test]
fn exact_bytes() {
    assert_eq!(encode_frame(&Frame::Name(String::from("ann"))).unwrap(), b"\x01ann\n".to_vec());
    assert_eq!(
        encode_frame(&Frame::Start(vec![String::from("a"), String::from("bo")])).unwrap(),
        b"\x02a,bo,\n".to_vec()
    );
    let hand = Hand::from(vec![card('T', Suit::Hearts), card('2', Suit::Clubs)], Some(card('A', Suit::Spades)));
    assert_eq!(encode_frame(&Frame::Hand(hand)).unwrap(), b"\x03\x01ASTH,2C,\n".to_vec());
    let bare = Hand::from(vec![], None);
    assert_eq!(encode_frame(&Frame::Hand(bare)).unwrap(), b"\x03\x0000\n".to_vec());
    assert_eq!(encode_frame(&Frame::Card(card('K', Suit::Diamonds))).unwrap(), b"\x04KD\n".to_vec());
    assert_eq!(encode_frame(&Frame::Play(None, true)).unwrap(), b"\x05\x01go\n".to_vec());
    assert_eq!(encode_frame(&Frame::Play(Some(card('9', Suit::Clubs)), false)).unwrap(), b"\x05\x009C\n".to_vec());
    assert_eq!(encode_frame(&Frame::RoundDone).unwrap(), b"\x06\n".to_vec());
    assert_eq!(encode_frame(&Frame::Seed(String::from("42"))).unwrap(), b"\x0742\n".to_vec());
}

#[test]
fn round_trip_every_variant() {
    round_trip(Frame::Name(String::from("Ann")));
    round_trip(Frame::Name(String::new()));
    round_trip(Frame::Name("n".repeat(4096)));
    round_trip(Frame::Name(String::from("Zoë ♣")));
    round_trip(Frame::Start(vec![String::from("a"), String::from("b"), String::from("c")]));
    round_trip(Frame::Start(vec![]));
    round_trip(Frame::Start(vec![String::new(), String::new()]));
    round_trip(Frame::Start(vec!["x".repeat(1000)]));
    round_trip(Frame::Hand(Hand::from(
        vec![card('A', Suit::Spades), card('T', Suit::Hearts), card('K', Suit::Clubs)],
        Some(card('5', Suit::Diamonds)),
    )));
    round_trip(Frame::Hand(Hand::from(vec![card('Q', Suit::Hearts)], None)));
    round_trip(Frame::Hand(Hand::from(vec![], None)));
    round_trip(Frame::Hand(Hand::from(vec![], Some(card('J', Suit::Clubs)))));
    round_trip(Frame::Card(card('7', Suit::Spades)));
    round_trip(Frame::Play(Some(card('3', Suit::Diamonds)), true));
    round_trip(Frame::Play(Some(card('3', Suit::Diamonds)), false));
    round_trip(Frame::Play(None, false));
    round_trip(Frame::Play(None, true));
    round_trip(Frame::RoundDone);
    round_trip(Frame::Seed(String::from("seed with spaces")));
    round_trip(Frame::Seed(String::new()));
}

#[test]
fn empty_record_is_disconnect() {
    assert_eq!(parse_frame(&[]), Ok(None));
}

#[test]
fn malformed_records() {
    assert_eq!(parse_frame(&[0x00]), Err(FrameError::UnknownTag(0)));
    assert_eq!(parse_frame(&[0x08, b'a']), Err(FrameError::UnknownTag(8)));
    assert_eq!(parse_frame(b"Hello"), Err(FrameError::UnknownTag(b'H')));
    // a list that does not end with its separator
    assert_eq!(parse_frame(b"\x02a,b"), Err(FrameError::Malformed));
    // a presence byte outside 0 and 1
    assert_eq!(parse_frame(b"\x03\x02ASAH,"), Err(FrameError::Malformed));
    // a card list that is not a whole number of items
    assert_eq!(parse_frame(b"\x03\x0000AH,2"), Err(FrameError::Malformed));
    assert_eq!(parse_frame(b"\x03\x0000AH;"), Err(FrameError::Malformed));
    // a truncated hand
    assert_eq!(parse_frame(b"\x03\x01A"), Err(FrameError::Malformed));
    // no such card
    assert_eq!(parse_frame(b"\x04ZS"), Err(FrameError::Malformed));
    assert_eq!(parse_frame(b"\x04AX"), Err(FrameError::Malformed));
    assert_eq!(parse_frame(b"\x04A"), Err(FrameError::Malformed));
    // a move flag outside 0 and 1
    assert_eq!(parse_frame(b"\x05\x02go"), Err(FrameError::Malformed));
    assert_eq!(parse_frame(b"\x05\x01no"), Err(FrameError::Malformed));
    assert_eq!(parse_frame(b"\x06x"), Err(FrameError::Malformed));
    // text that is not UTF-8
    assert_eq!(parse_frame(&[0x01, 0xFF]), Err(FrameError::Malformed));
}

#[test]
fn records_from_a_stream() {
    let mut buf = Vec::new();
    buf.extend(encode_frame(&Frame::Name(String::from("ann"))).unwrap());
    buf.extend(encode_frame(&Frame::RoundDone).unwrap());
    buf.extend(b"\x04K".to_vec());
    let first = take_record(&mut buf).unwrap();
    assert_eq!(parse_frame(&first), Ok(Some(Frame::Name(String::from("ann")))));
    let second = take_record(&mut buf).unwrap();
    assert_eq!(parse_frame(&second), Ok(Some(Frame::RoundDone)));
    // a partial record waits for more bytes
    assert_eq!(take_record(&mut buf), None);
    assert_eq!(buf, b"\x04K".to_vec());
    buf.extend(b"S\n".to_vec());
    let third = take_record(&mut buf).unwrap();
    assert_eq!(parse_frame(&third), Ok(Some(Frame::Card(card('K', Suit::Spades)))));
    assert!(buf.is_empty());
}

#[test]
fn frames_the_wire_would_change_are_not_encoded() {
    assert_eq!(encode_frame(&Frame::Start(vec![String::from("a,b")])), None);
    assert_eq!(encode_frame(&Frame::Name(String::from("two\nlines"))), None);
    assert_eq!(encode_frame(&Frame::Seed(String::from("x\n"))), None);
    assert_eq!(encode_frame(&Frame::Card(card('Z', Suit::Hearts))), None);
    let hand = Hand::from(vec![card('1', Suit::Hearts)], None);
    assert_eq!(encode_frame(&Frame::Hand(hand)), None);
    assert_eq!(encode_frame(&Frame::Play(Some(card('x', Suit::Hearts)), false)), None);
    // a comma is fine in a single name
    assert!(encode_frame(&Frame::Name(String::from("a,b"))).is_some());
}
