//! Round trips and error behaviour of the wire codec.

use craft_server::codec::{
    handshake_accepts, parse_record, BlockEvent, ChunkRequestEvent, Event, LightEvent,
    MessageParseError, PositionEvent, SignEvent, TalkEvent,
};
use craft_server::fields::{split_records, split_str};
use craft_server::message::{format_message, parse_message, Message};
use craft_server::num::{check_num_token, fmt_i32, fmt_u64, parse_i32, parse_i8, parse_u8};
use craft_server::world::chunked;

#[test]
fn block_event_round_trip() {
    let e = BlockEvent { x: 31, y: 10, z: 5, w: 3 };
    let rec = e.record();
    assert_eq!(rec, "B,31,10,5,3");
    match parse_record(&rec) {
        Ok(Event::Block(e2)) => assert_eq!(e2, e),
        other => panic!("unexpected: {:?}", other),
    }
}

#[test]
fn block_event_negative_round_trip() {
    let e = BlockEvent { x: -33, y: 0, z: -1, w: -128 };
    let rec = e.record();
    assert_eq!(rec, "B,-33,0,-1,-128");
    match parse_record(&rec) {
        Ok(Event::Block(e2)) => assert_eq!(e2, e),
        other => panic!("unexpected: {:?}", other),
    }
}

#[test]
fn position_event_round_trip() {
    let e = PositionEvent::new("1.5,2,3.25,-0.5,90").unwrap();
    let rec = e.record();
    assert_eq!(rec, "P,1.5,2,3.25,-0.5,90");
    match parse_record(&rec) {
        Ok(Event::Position(e2)) => {
            assert_eq!(e2.x, "1.5");
            assert_eq!(e2.y, "2");
            assert_eq!(e2.z, "3.25");
            assert_eq!(e2.rx, "-0.5");
            assert_eq!(e2.ry, "90");
        },
        other => panic!("unexpected: {:?}", other),
    }
}

#[test]
fn talk_event_round_trip() {
    let e = TalkEvent::new("hello, world").unwrap();
    let rec = e.record();
    assert_eq!(rec, "T,hello, world");
    match parse_record(&rec) {
        Ok(Event::Talk(e2)) => assert_eq!(e2.text, "hello, world"),
        other => panic!("unexpected: {:?}", other),
    }
}

#[test]
fn chunk_request_round_trip() {
    let e = ChunkRequestEvent { p: -2, q: 7 };
    let rec = e.record();
    assert_eq!(rec, "C,-2,7,0");
    match parse_record(&rec) {
        Ok(Event::ChunkRequest(e2)) => assert_eq!(e2, e),
        other => panic!("unexpected: {:?}", other),
    }
}

#[test]
fn sign_event_round_trip() {
    let e = SignEvent::new("4,8,4,0,hi there").unwrap();
    let rec = e.record();
    assert_eq!(rec, "S,4,8,4,0,hi there");
    match parse_record(&rec) {
        Ok(Event::Sign(e2)) => {
            assert_eq!(e2.x, 4);
            assert_eq!(e2.y, 8);
            assert_eq!(e2.z, 4);
            assert_eq!(e2.face, 0);
            assert_eq!(e2.text, "hi there");
        },
        other => panic!("unexpected: {:?}", other),
    }
}

#[test]
fn light_event_round_trip() {
    let e = LightEvent { x: 1, y: 2, z: 3, w: 15 };
    let rec = e.record();
    assert_eq!(rec, "L,1,2,3,15");
    match parse_record(&rec) {
        Ok(Event::Light(e2)) => assert_eq!(e2, e),
        other => panic!("unexpected: {:?}", other),
    }
}

#[test]
fn wrong_field_count_is_invalid_length() {
    assert_eq!(BlockEvent::new("1,2,3"), Err(MessageParseError::InvalidLength));
    assert_eq!(BlockEvent::new("1,2,3,4,5"), Err(MessageParseError::InvalidLength));
    assert!(matches!(SignEvent::new("1,2,3,0"), Err(MessageParseError::InvalidLength)));
    assert!(matches!(
        PositionEvent::new("1,2,3,4"),
        Err(MessageParseError::InvalidLength)
    ));
}

#[test]
fn bad_numbers_are_int_errors() {
    assert_eq!(BlockEvent::new("a,2,3,4"), Err(MessageParseError::IntError));
    assert_eq!(BlockEvent::new("1,2,3,999"), Err(MessageParseError::IntError));
    assert_eq!(LightEvent::new("1,2,3,-1"), Err(MessageParseError::IntError));
    assert_eq!(ChunkRequestEvent::new("x,0,0"), Err(MessageParseError::IntError));
}

#[test]
fn bad_coordinates_are_float_errors() {
    assert!(matches!(
        PositionEvent::new("abc,2,3,4,5"),
        Err(MessageParseError::FloatError)
    ));
    assert!(matches!(
        PositionEvent::new("1..2,2,3,4,5"),
        Err(MessageParseError::FloatError)
    ));
}

#[test]
fn float_grammar_coordinates_are_accepted() {
    // Everything the 32-bit float parser takes textually is a coordinate.
    let e = PositionEvent::new("1e5,5.,.5,-inf,NaN").unwrap();
    assert_eq!(e.x, "1e5");
    assert_eq!(e.y, "5.");
    assert_eq!(e.z, ".5");
    assert_eq!(e.rx, "-inf");
    assert_eq!(e.ry, "NaN");
    let rec = e.record();
    assert_eq!(rec, "P,1e5,5.,.5,-inf,NaN");
    assert!(matches!(parse_record(&rec), Ok(Event::Position(_))));
}

#[test]
fn short_and_unknown_records() {
    assert!(matches!(parse_record("T"), Err(MessageParseError::EmptyMessageError)));
    assert!(matches!(parse_record(""), Err(MessageParseError::EmptyMessageError)));
    assert!(matches!(parse_record("X,1"), Err(MessageParseError::UnknownTag)));
}

#[test]
fn handshake_only_exact_bytes() {
    assert!(handshake_accepts(b"V,1\n"));
    assert!(!handshake_accepts(b"V,2\n"));
    assert!(!handshake_accepts(b"V,1 "));
    assert!(!handshake_accepts(b"V,1"));
    assert!(!handshake_accepts(b"V,1\n\n"));
}

#[test]
fn message_round_trips() {
    let msgs = vec![
        Message::TimeMsg { time: 300, day_length: 600 },
        Message::NickOf { id: 7, name: String::from("alice") },
        Message::TalkMsg { text: String::from("hi, all") },
        Message::BlockAt { p: 1, q: 0, x: 31, y: 10, z: 5, w: -3 },
        Message::SignAt { p: 0, q: 0, x: 4, y: 8, z: 4, face: 0, text: String::from("hi") },
        Message::LightAt { p: 0, q: 0, x: 1, y: 2, z: 3, w: 15 },
        Message::RedrawChunk { p: -1, q: 2 },
        Message::Gone { id: 3 },
        Message::Hello { version: 1 },
    ];
    for m in &msgs {
        let wire = format_message(m);
        let lines = split_records(&wire);
        assert_eq!(lines.len(), 1);
        let back = parse_message(&lines[0]).expect("decodes");
        assert_eq!(format_message(&back), wire);
    }
}

#[test]
fn message_exact_wire_forms() {
    assert_eq!(
        format_message(&Message::BlockAt { p: 1, q: 0, x: 31, y: 10, z: 5, w: -3 }),
        "B,1,0,31,10,5,-3\n"
    );
    assert_eq!(format_message(&Message::RedrawChunk { p: 1, q: 0 }), "R,1,0\n");
    assert_eq!(format_message(&Message::Gone { id: 1 }), "D,1\n");
    assert_eq!(
        format_message(&Message::TimeMsg { time: 300, day_length: 600 }),
        "E,300,600\n"
    );
    assert_eq!(
        format_message(&Message::You { id: 1, pos: PositionEvent::spawn() }),
        "U,1,0,0,0,0,0\n"
    );
}

#[test]
fn split_records_splits_lines() {
    let rs = split_records("P,1,2,3,4,5\nT,hi\n");
    assert_eq!(rs.len(), 2);
    assert_eq!(rs[0], "P,1,2,3,4,5");
    assert_eq!(rs[1], "T,hi");
    // A record cut off at the end of the buffer is still a record.
    let rs = split_records("B,1,2,3,4\nT,partial");
    assert_eq!(rs.len(), 2);
    assert_eq!(rs[1], "T,partial");
    assert_eq!(split_records("").len(), 0);
}

#[test]
fn split_str_fields() {
    let fs = split_str("a,b,,c");
    assert_eq!(fs.len(), 4);
    assert_eq!(fs[0], "a");
    assert_eq!(fs[2], "");
    assert_eq!(split_str("").len(), 1);
}

#[test]
fn number_parsing() {
    assert_eq!(parse_i32("-33"), Some(-33));
    assert_eq!(parse_i32("+7"), Some(7));
    assert_eq!(parse_i32("2147483647"), Some(i32::MAX));
    assert_eq!(parse_i32("2147483648"), None);
    assert_eq!(parse_i32("12a"), None);
    assert_eq!(parse_i32(""), None);
    assert_eq!(parse_i8("-128"), Some(-128));
    assert_eq!(parse_i8("128"), None);
    assert_eq!(parse_u8("255"), Some(255));
    assert_eq!(parse_u8("-1"), None);
}

#[test]
fn number_formatting() {
    assert_eq!(fmt_i32(0), "0");
    assert_eq!(fmt_i32(-5), "-5");
    assert_eq!(fmt_i32(i32::MIN), "-2147483648");
    assert_eq!(fmt_u64(18446744073709551615), "18446744073709551615");
}

#[test]
fn numeral_tokens() {
    assert!(check_num_token("3.14"));
    assert!(check_num_token("-0.5"));
    assert!(check_num_token("+90"));
    assert!(check_num_token("0"));
    assert!(check_num_token("1e5"));
    assert!(check_num_token("2.5E-10"));
    assert!(check_num_token("1."));
    assert!(check_num_token(".5"));
    assert!(check_num_token("1.e3"));
    assert!(check_num_token("inf"));
    assert!(check_num_token("-Infinity"));
    assert!(check_num_token("nAn"));
    assert!(!check_num_token("abc"));
    assert!(!check_num_token("."));
    assert!(!check_num_token("e5"));
    assert!(!check_num_token("1e"));
    assert!(!check_num_token("1e+"));
    assert!(!check_num_token("infx"));
    assert!(!check_num_token(""));
}

#[test]
fn chunked_floor_division() {
    assert_eq!(chunked(0), 0);
    assert_eq!(chunked(31), 0);
    assert_eq!(chunked(32), 1);
    assert_eq!(chunked(-1), -1);
    assert_eq!(chunked(-32), -1);
    assert_eq!(chunked(-33), -2);
}

#[test]
fn message_parser_rejects_malformed_records() {
    assert!(parse_message("").is_none());
    assert!(parse_message("B;1,0,0,0,0,1").is_none());
    assert!(parse_message("B,1,0,0,0,1").is_none());
    assert!(parse_message("D,notanumber").is_none());
    assert!(parse_message("Z,1").is_none());
}
