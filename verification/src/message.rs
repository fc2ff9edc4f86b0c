//! Outbound server records: every message kind the server sends to a
//! client, its exact wire rendering, a symmetric parser (what a client's
//! decoder sees), and the proof that parsing a formatted message yields
//! the message back.

use vstd::prelude::*;
use crate::codec::{PositionEvent, PositionEventView};
use crate::fields::{join_fields, lemma_split_join, no_sep, split_fields, split_str, views_of};
use crate::num::{
    dec_digits, fmt_i32, fmt_i8, fmt_u32, fmt_u64, fmt_u8, int_digits, is_num_token,
    lemma_int_digits_round_trip, lemma_num_token_no_sep, parse_i32, parse_i8, parse_u32, parse_u64,
    parse_u8, spec_parse_int,
};

verus! {

/// Spec-level image of an outbound message.
pub enum MessageView {
    /// `U`: assigns a peer its id and spawn transform.
    You { id: u32, pos: PositionEventView },
    /// `E`: current in-game time and day length in seconds.
    TimeMsg { time: u64, day_length: u32 },
    /// `P`: another peer's position.
    PositionOf { id: u32, pos: PositionEventView },
    /// `N`: a peer's nickname.
    NickOf { id: u32, name: Seq<char> },
    /// `T`: chat text or a notice.
    TalkMsg { text: Seq<char> },
    /// `B`: a block of kind `w` at `(x, y, z)` recorded in chunk `(p, q)`.
    BlockAt { p: i32, q: i32, x: i32, y: i32, z: i32, w: i8 },
    /// `S`: sign text on a face of the block at `(x, y, z)`.
    SignAt { p: i32, q: i32, x: i32, y: i32, z: i32, face: u8, text: Seq<char> },
    /// `L`: a light level at `(x, y, z)`.
    LightAt { p: i32, q: i32, x: i32, y: i32, z: i32, w: u8 },
    /// `R`: the client should redraw chunk `(p, q)`.
    RedrawChunk { p: i32, q: i32 },
    /// `D`: another peer disconnected.
    Gone { id: u32 },
    /// `V`: the protocol version, as the handshake carries it.
    Hello { version: u32 },
}

impl MessageView {
    /// Fields whose encoding would change the field count are excluded.
    pub open spec fn wf(self) -> bool {
        match self {
            MessageView::You { pos, .. } => pos.wf(),
            MessageView::PositionOf { pos, .. } => pos.wf(),
            MessageView::NickOf { name, .. } => no_sep(name),
            MessageView::SignAt { text, .. } => no_sep(text),
            _ => true,
        }
    }
}

/// An outbound message the server sends to a client.
#[derive(Clone, Debug)]
pub enum Message {
    You { id: u32, pos: PositionEvent },
    TimeMsg { time: u64, day_length: u32 },
    PositionOf { id: u32, pos: PositionEvent },
    NickOf { id: u32, name: String },
    TalkMsg { text: String },
    BlockAt { p: i32, q: i32, x: i32, y: i32, z: i32, w: i8 },
    SignAt { p: i32, q: i32, x: i32, y: i32, z: i32, face: u8, text: String },
    LightAt { p: i32, q: i32, x: i32, y: i32, z: i32, w: u8 },
    RedrawChunk { p: i32, q: i32 },
    Gone { id: u32 },
    Hello { version: u32 },
}

impl View for Message {
    type V = MessageView;

    open spec fn view(&self) -> MessageView {
        match self {
            Message::You { id, pos } => MessageView::You { id: *id, pos: pos@ },
            Message::TimeMsg { time, day_length } => MessageView::TimeMsg {
                time: *time,
                day_length: *day_length,
            },
            Message::PositionOf { id, pos } => MessageView::PositionOf { id: *id, pos: pos@ },
            Message::NickOf { id, name } => MessageView::NickOf { id: *id, name: name@ },
            Message::TalkMsg { text } => MessageView::TalkMsg { text: text@ },
            Message::BlockAt { p, q, x, y, z, w } => MessageView::BlockAt {
                p: *p,
                q: *q,
                x: *x,
                y: *y,
                z: *z,
                w: *w,
            },
            Message::SignAt { p, q, x, y, z, face, text } => MessageView::SignAt {
                p: *p,
                q: *q,
                x: *x,
                y: *y,
                z: *z,
                face: *face,
                text: text@,
            },
            Message::LightAt { p, q, x, y, z, w } => MessageView::LightAt {
                p: *p,
                q: *q,
                x: *x,
                y: *y,
                z: *z,
                w: *w,
            },
            Message::RedrawChunk { p, q } => MessageView::RedrawChunk { p: *p, q: *q },
            Message::Gone { id } => MessageView::Gone { id: *id },
            Message::Hello { version } => MessageView::Hello { version: *version },
        }
    }
}

/// The tag character of an outbound message.
pub open spec fn message_tag(m: MessageView) -> char {
    match m {
        MessageView::You { .. } => 'U',
        MessageView::TimeMsg { .. } => 'E',
        MessageView::PositionOf { .. } => 'P',
        MessageView::NickOf { .. } => 'N',
        MessageView::TalkMsg { .. } => 'T',
        MessageView::BlockAt { .. } => 'B',
        MessageView::SignAt { .. } => 'S',
        MessageView::LightAt { .. } => 'L',
        MessageView::RedrawChunk { .. } => 'R',
        MessageView::Gone { .. } => 'D',
        MessageView::Hello { .. } => 'V',
    }
}

/// The payload fields of an outbound message, in wire order.
pub open spec fn message_fields(m: MessageView) -> Seq<Seq<char>> {
    match m {
        MessageView::You { id, pos } => seq![
            dec_digits(id as nat),
            pos.x,
            pos.y,
            pos.z,
            pos.rx,
            pos.ry,
        ],
        MessageView::TimeMsg { time, day_length } => seq![
            dec_digits(time as nat),
            dec_digits(day_length as nat),
        ],
        MessageView::PositionOf { id, pos } => seq![
            dec_digits(id as nat),
            pos.x,
            pos.y,
            pos.z,
            pos.rx,
            pos.ry,
        ],
        MessageView::NickOf { id, name } => seq![dec_digits(id as nat), name],
        MessageView::TalkMsg { text } => seq![text],
        MessageView::BlockAt { p, q, x, y, z, w } => seq![
            int_digits(p as int),
            int_digits(q as int),
            int_digits(x as int),
            int_digits(y as int),
            int_digits(z as int),
            int_digits(w as int),
        ],
        MessageView::SignAt { p, q, x, y, z, face, text } => seq![
            int_digits(p as int),
            int_digits(q as int),
            int_digits(x as int),
            int_digits(y as int),
            int_digits(z as int),
            dec_digits(face as nat),
            text,
        ],
        MessageView::LightAt { p, q, x, y, z, w } => seq![
            int_digits(p as int),
            int_digits(q as int),
            int_digits(x as int),
            int_digits(y as int),
            int_digits(z as int),
            dec_digits(w as nat),
        ],
        MessageView::RedrawChunk { p, q } => seq![int_digits(p as int), int_digits(q as int)],
        MessageView::Gone { id } => seq![dec_digits(id as nat)],
        MessageView::Hello { version } => seq![dec_digits(version as nat)],
    }
}

/// One outbound record, without its newline: tag, comma, joined fields.
pub open spec fn record_of_message(m: MessageView) -> Seq<char> {
    seq![message_tag(m)] + seq![','] + join_fields(message_fields(m))
}

/// One outbound record as written to the socket: newline-terminated.
pub open spec fn wire_of(m: MessageView) -> Seq<char> {
    record_of_message(m) + seq!['\n']
}

/// What a client's symmetric decoder makes of one server record (one
/// line, without its newline).
pub open spec fn spec_parse_message(s: Seq<char>) -> Option<MessageView> {
    if s.len() < 2 || s[1] != ',' {
        None
    } else {
        let p = s.skip(2);
        let fs = split_fields(p);
        if s[0] == 'U' || s[0] == 'P' {
            if fs.len() == 6 {
                let id = spec_parse_int(fs[0], 0, u32::MAX as int);
                if id is Some && is_num_token(fs[1]) && is_num_token(fs[2]) && is_num_token(fs[3])
                    && is_num_token(fs[4]) && is_num_token(fs[5]) {
                    let pos = PositionEventView {
                        x: fs[1],
                        y: fs[2],
                        z: fs[3],
                        rx: fs[4],
                        ry: fs[5],
                    };
                    if s[0] == 'U' {
                        Some(MessageView::You { id: id.unwrap() as u32, pos })
                    } else {
                        Some(MessageView::PositionOf { id: id.unwrap() as u32, pos })
                    }
                } else {
                    None
                }
            } else {
                None
            }
        } else if s[0] == 'E' {
            if fs.len() == 2 {
                let time = spec_parse_int(fs[0], 0, u64::MAX as int);
                let day_length = spec_parse_int(fs[1], 0, u32::MAX as int);
                if time is Some && day_length is Some {
                    Some(
                        MessageView::TimeMsg {
                            time: time.unwrap() as u64,
                            day_length: day_length.unwrap() as u32,
                        },
                    )
                } else {
                    None
                }
            } else {
                None
            }
        } else if s[0] == 'N' {
            if fs.len() == 2 {
                let id = spec_parse_int(fs[0], 0, u32::MAX as int);
                if id is Some {
                    Some(MessageView::NickOf { id: id.unwrap() as u32, name: fs[1] })
                } else {
                    None
                }
            } else {
                None
            }
        } else if s[0] == 'T' {
            Some(MessageView::TalkMsg { text: p })
        } else if s[0] == 'B' || s[0] == 'L' {
            if fs.len() == 6 {
                let cp = spec_parse_int(fs[0], i32::MIN as int, i32::MAX as int);
                let cq = spec_parse_int(fs[1], i32::MIN as int, i32::MAX as int);
                let x = spec_parse_int(fs[2], i32::MIN as int, i32::MAX as int);
                let y = spec_parse_int(fs[3], i32::MIN as int, i32::MAX as int);
                let z = spec_parse_int(fs[4], i32::MIN as int, i32::MAX as int);
                if cp is Some && cq is Some && x is Some && y is Some && z is Some {
                    if s[0] == 'B' {
                        let w = spec_parse_int(fs[5], i8::MIN as int, i8::MAX as int);
                        if w is Some {
                            Some(
                                MessageView::BlockAt {
                                    p: cp.unwrap() as i32,
                                    q: cq.unwrap() as i32,
                                    x: x.unwrap() as i32,
                                    y: y.unwrap() as i32,
                                    z: z.unwrap() as i32,
                                    w: w.unwrap() as i8,
                                },
                            )
                        } else {
                            None
                        }
                    } else {
                        let w = spec_parse_int(fs[5], 0, u8::MAX as int);
                        if w is Some {
                            Some(
                                MessageView::LightAt {
                                    p: cp.unwrap() as i32,
                                    q: cq.unwrap() as i32,
                                    x: x.unwrap() as i32,
                                    y: y.unwrap() as i32,
                                    z: z.unwrap() as i32,
                                    w: w.unwrap() as u8,
                                },
                            )
                        } else {
                            None
                        }
                    }
                } else {
                    None
                }
            } else {
                None
            }
        } else if s[0] == 'S' {
            if fs.len() == 7 {
                let cp = spec_parse_int(fs[0], i32::MIN as int, i32::MAX as int);
                let cq = spec_parse_int(fs[1], i32::MIN as int, i32::MAX as int);
                let x = spec_parse_int(fs[2], i32::MIN as int, i32::MAX as int);
                let y = spec_parse_int(fs[3], i32::MIN as int, i32::MAX as int);
                let z = spec_parse_int(fs[4], i32::MIN as int, i32::MAX as int);
                let face = spec_parse_int(fs[5], 0, u8::MAX as int);
                if cp is Some && cq is Some && x is Some && y is Some && z is Some
                    && face is Some {
                    Some(
                        MessageView::SignAt {
                            p: cp.unwrap() as i32,
                            q: cq.unwrap() as i32,
                            x: x.unwrap() as i32,
                            y: y.unwrap() as i32,
                            z: z.unwrap() as i32,
                            face: face.unwrap() as u8,
                            text: fs[6],
                        },
                    )
                } else {
                    None
                }
            } else {
                None
            }
        } else if s[0] == 'R' {
            if fs.len() == 2 {
                let cp = spec_parse_int(fs[0], i32::MIN as int, i32::MAX as int);
                let cq = spec_parse_int(fs[1], i32::MIN as int, i32::MAX as int);
                if cp is Some && cq is Some {
                    Some(MessageView::RedrawChunk { p: cp.unwrap() as i32, q: cq.unwrap() as i32 })
                } else {
                    None
                }
            } else {
                None
            }
        } else if s[0] == 'D' {
            if fs.len() == 1 {
                let id = spec_parse_int(fs[0], 0, u32::MAX as int);
                if id is Some {
                    Some(MessageView::Gone { id: id.unwrap() as u32 })
                } else {
                    None
                }
            } else {
                None
            }
        } else if s[0] == 'V' {
            if fs.len() == 1 {
                let v = spec_parse_int(fs[0], 0, u32::MAX as int);
                if v is Some {
                    Some(MessageView::Hello { version: v.unwrap() as u32 })
                } else {
                    None
                }
            } else {
                None
            }
        } else {
            None
        }
    }
}

/// Format one outbound message for the wire, newline-terminated.
pub fn format_message(m: &Message) -> (r: String)
    ensures
        r@ == wire_of(m@),
{
    let rec: String = match m {
        Message::You { id, pos } => {
            let mut fs: Vec<String> = Vec::new();
            fs.push(fmt_u32(*id));
            fs.push(pos.x.clone());
            fs.push(pos.y.clone());
            fs.push(pos.z.clone());
            fs.push(pos.rx.clone());
            fs.push(pos.ry.clone());
            proof {
                assert(views_of(fs@) =~= message_fields(m@));
                reveal_strlit("U");
                assert("U"@ =~= seq![message_tag(m@)]);
            }
            let out = crate::codec::assemble_record("U", &fs);
            proof {
                assert(out@ =~= record_of_message(m@));
            }
            out
        },
        Message::TimeMsg { time, day_length } => {
            let mut fs: Vec<String> = Vec::new();
            fs.push(fmt_u64(*time));
            fs.push(fmt_u32(*day_length));
            proof {
                assert(views_of(fs@) =~= message_fields(m@));
                reveal_strlit("E");
                assert("E"@ =~= seq![message_tag(m@)]);
            }
            let out = crate::codec::assemble_record("E", &fs);
            proof {
                assert(out@ =~= record_of_message(m@));
            }
            out
        },
        Message::PositionOf { id, pos } => {
            let mut fs: Vec<String> = Vec::new();
            fs.push(fmt_u32(*id));
            fs.push(pos.x.clone());
            fs.push(pos.y.clone());
            fs.push(pos.z.clone());
            fs.push(pos.rx.clone());
            fs.push(pos.ry.clone());
            proof {
                assert(views_of(fs@) =~= message_fields(m@));
                reveal_strlit("P");
                assert("P"@ =~= seq![message_tag(m@)]);
            }
            let out = crate::codec::assemble_record("P", &fs);
            proof {
                assert(out@ =~= record_of_message(m@));
            }
            out
        },
        Message::NickOf { id, name } => {
            let mut fs: Vec<String> = Vec::new();
            fs.push(fmt_u32(*id));
            fs.push(name.clone());
            proof {
                assert(views_of(fs@) =~= message_fields(m@));
                reveal_strlit("N");
                assert("N"@ =~= seq![message_tag(m@)]);
            }
            let out = crate::codec::assemble_record("N", &fs);
            proof {
                assert(out@ =~= record_of_message(m@));
            }
            out
        },
        Message::TalkMsg { text } => {
            let mut out = "T,".to_owned();
            out.append(text.as_str());
            proof {
                reveal_strlit("T,");
                assert("T,"@ =~= seq![message_tag(m@)] + seq![',']);
                assert(join_fields(message_fields(m@)) == text@);
                assert(out@ =~= record_of_message(m@));
            }
            out
        },
        Message::BlockAt { p, q, x, y, z, w } => {
            let mut fs: Vec<String> = Vec::new();
            fs.push(fmt_i32(*p));
            fs.push(fmt_i32(*q));
            fs.push(fmt_i32(*x));
            fs.push(fmt_i32(*y));
            fs.push(fmt_i32(*z));
            fs.push(fmt_i8(*w));
            proof {
                assert(views_of(fs@) =~= message_fields(m@));
                reveal_strlit("B");
                assert("B"@ =~= seq![message_tag(m@)]);
            }
            let out = crate::codec::assemble_record("B", &fs);
            proof {
                assert(out@ =~= record_of_message(m@));
            }
            out
        },
        Message::SignAt { p, q, x, y, z, face, text } => {
            let mut fs: Vec<String> = Vec::new();
            fs.push(fmt_i32(*p));
            fs.push(fmt_i32(*q));
            fs.push(fmt_i32(*x));
            fs.push(fmt_i32(*y));
            fs.push(fmt_i32(*z));
            fs.push(fmt_u8(*face));
            fs.push(text.clone());
            proof {
                assert(views_of(fs@) =~= message_fields(m@));
                reveal_strlit("S");
                assert("S"@ =~= seq![message_tag(m@)]);
            }
            let out = crate::codec::assemble_record("S", &fs);
            proof {
                assert(out@ =~= record_of_message(m@));
            }
            out
        },
        Message::LightAt { p, q, x, y, z, w } => {
            let mut fs: Vec<String> = Vec::new();
            fs.push(fmt_i32(*p));
            fs.push(fmt_i32(*q));
            fs.push(fmt_i32(*x));
            fs.push(fmt_i32(*y));
            fs.push(fmt_i32(*z));
            fs.push(fmt_u8(*w));
            proof {
                assert(views_of(fs@) =~= message_fields(m@));
                reveal_strlit("L");
                assert("L"@ =~= seq![message_tag(m@)]);
            }
            let out = crate::codec::assemble_record("L", &fs);
            proof {
                assert(out@ =~= record_of_message(m@));
            }
            out
        },
        Message::RedrawChunk { p, q } => {
            let mut fs: Vec<String> = Vec::new();
            fs.push(fmt_i32(*p));
            fs.push(fmt_i32(*q));
            proof {
                assert(views_of(fs@) =~= message_fields(m@));
                reveal_strlit("R");
                assert("R"@ =~= seq![message_tag(m@)]);
            }
            let out = crate::codec::assemble_record("R", &fs);
            proof {
                assert(out@ =~= record_of_message(m@));
            }
            out
        },
        Message::Gone { id } => {
            let mut fs: Vec<String> = Vec::new();
            fs.push(fmt_u32(*id));
            proof {
                assert(views_of(fs@) =~= message_fields(m@));
                reveal_strlit("D");
                assert("D"@ =~= seq![message_tag(m@)]);
            }
            let out = crate::codec::assemble_record("D", &fs);
            proof {
                assert(out@ =~= record_of_message(m@));
            }
            out
        },
        Message::Hello { version } => {
            let mut fs: Vec<String> = Vec::new();
            fs.push(fmt_u32(*version));
            proof {
                assert(views_of(fs@) =~= message_fields(m@));
                reveal_strlit("V");
                assert("V"@ =~= seq![message_tag(m@)]);
            }
            let out = crate::codec::assemble_record("V", &fs);
            proof {
                assert(out@ =~= record_of_message(m@));
            }
            out
        },
    };
    let mut s = rec;
    s.append("\n");
    proof {
        reveal_strlit("\n");
        assert("\n"@ =~= seq!['\n']);
        assert(s@ =~= wire_of(m@));
    }
    s
}

/// Decode one server record (one line, without its newline) as the
/// reference client does.
pub fn parse_message(line: &str) -> (r: Option<Message>)
    ensures
        match r {
            Some(m) => spec_parse_message(line@) == Some(m@),
            None => spec_parse_message(line@) is None,
        },
{
    let n = line.unicode_len();
    if n < 2 {
        return None;
    }
    if line.get_char(1) != ',' {
        return None;
    }
    let tag = line.get_char(0);
    let payload = line.substring_char(2, n);
    proof {
        assert(payload@ =~= line@.skip(2));
    }
    let pieces = split_str(payload);
    let ghost fs = split_fields(line@.skip(2));
    if tag == 'U' || tag == 'P' {
        if pieces.len() != 6 {
            return None;
        }
        proof {
            assert(pieces@[0]@ == fs[0]);
            assert(pieces@[1]@ == fs[1]);
            assert(pieces@[2]@ == fs[2]);
            assert(pieces@[3]@ == fs[3]);
            assert(pieces@[4]@ == fs[4]);
            assert(pieces@[5]@ == fs[5]);
        }
        let id = match parse_u32(pieces[0].as_str()) {
            Some(v) => v,
            None => {
                return None;
            },
        };
        let mut ok = crate::num::check_num_token(pieces[1].as_str());
        ok = ok && crate::num::check_num_token(pieces[2].as_str());
        ok = ok && crate::num::check_num_token(pieces[3].as_str());
        ok = ok && crate::num::check_num_token(pieces[4].as_str());
        ok = ok && crate::num::check_num_token(pieces[5].as_str());
        if !ok {
            return None;
        }
        let pos = PositionEvent {
            x: pieces[1].clone(),
            y: pieces[2].clone(),
            z: pieces[3].clone(),
            rx: pieces[4].clone(),
            ry: pieces[5].clone(),
        };
        if tag == 'U' {
            Some(Message::You { id, pos })
        } else {
            Some(Message::PositionOf { id, pos })
        }
    } else if tag == 'E' {
        if pieces.len() != 2 {
            return None;
        }
        proof {
            assert(pieces@[0]@ == fs[0]);
            assert(pieces@[1]@ == fs[1]);
        }
        let time = match parse_u64(pieces[0].as_str()) {
            Some(v) => v,
            None => {
                return None;
            },
        };
        let day_length = match parse_u32(pieces[1].as_str()) {
            Some(v) => v,
            None => {
                return None;
            },
        };
        Some(Message::TimeMsg { time, day_length })
    } else if tag == 'N' {
        if pieces.len() != 2 {
            return None;
        }
        proof {
            assert(pieces@[0]@ == fs[0]);
            assert(pieces@[1]@ == fs[1]);
        }
        let id = match parse_u32(pieces[0].as_str()) {
            Some(v) => v,
            None => {
                return None;
            },
        };
        Some(Message::NickOf { id, name: pieces[1].clone() })
    } else if tag == 'T' {
        Some(Message::TalkMsg { text: payload.to_owned() })
    } else if tag == 'B' || tag == 'L' {
        if pieces.len() != 6 {
            return None;
        }
        proof {
            assert(pieces@[0]@ == fs[0]);
            assert(pieces@[1]@ == fs[1]);
            assert(pieces@[2]@ == fs[2]);
            assert(pieces@[3]@ == fs[3]);
            assert(pieces@[4]@ == fs[4]);
            assert(pieces@[5]@ == fs[5]);
        }
        let p = match parse_i32(pieces[0].as_str()) {
            Some(v) => v,
            None => {
                return None;
            },
        };
        let q = match parse_i32(pieces[1].as_str()) {
            Some(v) => v,
            None => {
                return None;
            },
        };
        let x = match parse_i32(pieces[2].as_str()) {
            Some(v) => v,
            None => {
                return None;
            },
        };
        let y = match parse_i32(pieces[3].as_str()) {
            Some(v) => v,
            None => {
                return None;
            },
        };
        let z = match parse_i32(pieces[4].as_str()) {
            Some(v) => v,
            None => {
                return None;
            },
        };
        if tag == 'B' {
            let w = match parse_i8(pieces[5].as_str()) {
                Some(v) => v,
                None => {
                    return None;
                },
            };
            Some(Message::BlockAt { p, q, x, y, z, w })
        } else {
            let w = match parse_u8(pieces[5].as_str()) {
                Some(v) => v,
                None => {
                    return None;
                },
            };
            Some(Message::LightAt { p, q, x, y, z, w })
        }
    } else if tag == 'S' {
        if pieces.len() != 7 {
            return None;
        }
        proof {
            assert(pieces@[0]@ == fs[0]);
            assert(pieces@[1]@ == fs[1]);
            assert(pieces@[2]@ == fs[2]);
            assert(pieces@[3]@ == fs[3]);
            assert(pieces@[4]@ == fs[4]);
            assert(pieces@[5]@ == fs[5]);
            assert(pieces@[6]@ == fs[6]);
        }
        let p = match parse_i32(pieces[0].as_str()) {
            Some(v) => v,
            None => {
                return None;
            },
        };
        let q = match parse_i32(pieces[1].as_str()) {
            Some(v) => v,
            None => {
                return None;
            },
        };
        let x = match parse_i32(pieces[2].as_str()) {
            Some(v) => v,
            None => {
                return None;
            },
        };
        let y = match parse_i32(pieces[3].as_str()) {
            Some(v) => v,
            None => {
                return None;
            },
        };
        let z = match parse_i32(pieces[4].as_str()) {
            Some(v) => v,
            None => {
                return None;
            },
        };
        let face = match parse_u8(pieces[5].as_str()) {
            Some(v) => v,
            None => {
                return None;
            },
        };
        Some(Message::SignAt { p, q, x, y, z, face, text: pieces[6].clone() })
    } else if tag == 'R' {
        if pieces.len() != 2 {
            return None;
        }
        proof {
            assert(pieces@[0]@ == fs[0]);
            assert(pieces@[1]@ == fs[1]);
        }
        let p = match parse_i32(pieces[0].as_str()) {
            Some(v) => v,
            None => {
                return None;
            },
        };
        let q = match parse_i32(pieces[1].as_str()) {
            Some(v) => v,
            None => {
                return None;
            },
        };
        Some(Message::RedrawChunk { p, q })
    } else if tag == 'D' {
        if pieces.len() != 1 {
            return None;
        }
        proof {
            assert(pieces@[0]@ == fs[0]);
        }
        let id = match parse_u32(pieces[0].as_str()) {
            Some(v) => v,
            None => {
                return None;
            },
        };
        Some(Message::Gone { id })
    } else if tag == 'V' {
        if pieces.len() != 1 {
            return None;
        }
        proof {
            assert(pieces@[0]@ == fs[0]);
        }
        let version = match parse_u32(pieces[0].as_str()) {
            Some(v) => v,
            None => {
                return None;
            },
        };
        Some(Message::Hello { version })
    } else {
        None
    }
}

/// An unsigned rendering contains no separator and parses back to its
/// value.
proof fn lemma_unsigned_field(n: nat, hi: int)
    requires
        n <= hi,
    ensures
        no_sep(dec_digits(n)),
        spec_parse_int(dec_digits(n), 0, hi) == Some(n as int),
{
    crate::codec::lemma_int_digits_no_sep(n as int);
    lemma_int_digits_round_trip(n as int, 0, hi);
    assert(int_digits(n as int) == dec_digits(n));
}

/// A signed rendering contains no separator and parses back to its
/// value.
proof fn lemma_signed_field(n: int, lo: int, hi: int)
    requires
        lo <= n <= hi,
    ensures
        no_sep(int_digits(n)),
        spec_parse_int(int_digits(n), lo, hi) == Some(n),
{
    crate::codec::lemma_int_digits_no_sep(n);
    lemma_int_digits_round_trip(n, lo, hi);
}

/// The codec round trip for every outbound message kind: decoding a
/// formatted record yields the message back.
#[verifier::rlimit(100)]
#[verifier::spinoff_prover]
pub proof fn lemma_message_round_trip(m: MessageView)
    requires
        m.wf(),
    ensures
        spec_parse_message(record_of_message(m)) == Some(m),
{
    let s = record_of_message(m);
    let fields = message_fields(m);
    assert(s[0] == message_tag(m));
    assert(s[1] == ',');
    match m {
        MessageView::You { id, pos } => {
            lemma_unsigned_field(id as nat, u32::MAX as int);
            lemma_num_token_no_sep(pos.x);
            lemma_num_token_no_sep(pos.y);
            lemma_num_token_no_sep(pos.z);
            lemma_num_token_no_sep(pos.rx);
            lemma_num_token_no_sep(pos.ry);
            assert(forall|i: int| 0 <= i < fields.len() ==> no_sep(#[trigger] fields[i])) by {
                assert(fields[0] == dec_digits(id as nat));
                assert(fields[1] == pos.x);
                assert(fields[2] == pos.y);
                assert(fields[3] == pos.z);
                assert(fields[4] == pos.rx);
                assert(fields[5] == pos.ry);
            }
            lemma_split_join(fields);
            assert(s.skip(2) =~= join_fields(fields));
        },
        MessageView::TimeMsg { time, day_length } => {
            lemma_unsigned_field(time as nat, u64::MAX as int);
            lemma_unsigned_field(day_length as nat, u32::MAX as int);
            assert(forall|i: int| 0 <= i < fields.len() ==> no_sep(#[trigger] fields[i])) by {
                assert(fields[0] == dec_digits(time as nat));
                assert(fields[1] == dec_digits(day_length as nat));
            }
            lemma_split_join(fields);
            assert(s.skip(2) =~= join_fields(fields));
        },
        MessageView::PositionOf { id, pos } => {
            lemma_unsigned_field(id as nat, u32::MAX as int);
            lemma_num_token_no_sep(pos.x);
            lemma_num_token_no_sep(pos.y);
            lemma_num_token_no_sep(pos.z);
            lemma_num_token_no_sep(pos.rx);
            lemma_num_token_no_sep(pos.ry);
            assert(forall|i: int| 0 <= i < fields.len() ==> no_sep(#[trigger] fields[i])) by {
                assert(fields[0] == dec_digits(id as nat));
                assert(fields[1] == pos.x);
                assert(fields[2] == pos.y);
                assert(fields[3] == pos.z);
                assert(fields[4] == pos.rx);
                assert(fields[5] == pos.ry);
            }
            lemma_split_join(fields);
            assert(s.skip(2) =~= join_fields(fields));
        },
        MessageView::NickOf { id, name } => {
            lemma_unsigned_field(id as nat, u32::MAX as int);
            assert(forall|i: int| 0 <= i < fields.len() ==> no_sep(#[trigger] fields[i])) by {
                assert(fields[0] == dec_digits(id as nat));
                assert(fields[1] == name);
            }
            lemma_split_join(fields);
            assert(s.skip(2) =~= join_fields(fields));
        },
        MessageView::TalkMsg { text } => {
            assert(join_fields(fields) == text);
            assert(s.skip(2) =~= text);
        },
        MessageView::BlockAt { p, q, x, y, z, w } => {
            lemma_signed_field(p as int, i32::MIN as int, i32::MAX as int);
            lemma_signed_field(q as int, i32::MIN as int, i32::MAX as int);
            lemma_signed_field(x as int, i32::MIN as int, i32::MAX as int);
            lemma_signed_field(y as int, i32::MIN as int, i32::MAX as int);
            lemma_signed_field(z as int, i32::MIN as int, i32::MAX as int);
            lemma_signed_field(w as int, i8::MIN as int, i8::MAX as int);
            assert(forall|i: int| 0 <= i < fields.len() ==> no_sep(#[trigger] fields[i])) by {
                assert(fields[0] == int_digits(p as int));
                assert(fields[1] == int_digits(q as int));
                assert(fields[2] == int_digits(x as int));
                assert(fields[3] == int_digits(y as int));
                assert(fields[4] == int_digits(z as int));
                assert(fields[5] == int_digits(w as int));
            }
            lemma_split_join(fields);
            assert(s.skip(2) =~= join_fields(fields));
        },
        MessageView::SignAt { p, q, x, y, z, face, text } => {
            lemma_signed_field(p as int, i32::MIN as int, i32::MAX as int);
            lemma_signed_field(q as int, i32::MIN as int, i32::MAX as int);
            lemma_signed_field(x as int, i32::MIN as int, i32::MAX as int);
            lemma_signed_field(y as int, i32::MIN as int, i32::MAX as int);
            lemma_signed_field(z as int, i32::MIN as int, i32::MAX as int);
            lemma_unsigned_field(face as nat, u8::MAX as int);
            assert(forall|i: int| 0 <= i < fields.len() ==> no_sep(#[trigger] fields[i])) by {
                assert(fields[0] == int_digits(p as int));
                assert(fields[1] == int_digits(q as int));
                assert(fields[2] == int_digits(x as int));
                assert(fields[3] == int_digits(y as int));
                assert(fields[4] == int_digits(z as int));
                assert(fields[5] == dec_digits(face as nat));
                assert(fields[6] == text);
            }
            lemma_split_join(fields);
            assert(s.skip(2) =~= join_fields(fields));
        },
        MessageView::LightAt { p, q, x, y, z, w } => {
            lemma_signed_field(p as int, i32::MIN as int, i32::MAX as int);
            lemma_signed_field(q as int, i32::MIN as int, i32::MAX as int);
            lemma_signed_field(x as int, i32::MIN as int, i32::MAX as int);
            lemma_signed_field(y as int, i32::MIN as int, i32::MAX as int);
            lemma_signed_field(z as int, i32::MIN as int, i32::MAX as int);
            lemma_unsigned_field(w as nat, u8::MAX as int);
            assert(forall|i: int| 0 <= i < fields.len() ==> no_sep(#[trigger] fields[i])) by {
                assert(fields[0] == int_digits(p as int));
                assert(fields[1] == int_digits(q as int));
                assert(fields[2] == int_digits(x as int));
                assert(fields[3] == int_digits(y as int));
                assert(fields[4] == int_digits(z as int));
                assert(fields[5] == dec_digits(w as nat));
            }
            lemma_split_join(fields);
            assert(s.skip(2) =~= join_fields(fields));
        },
        MessageView::RedrawChunk { p, q } => {
            lemma_signed_field(p as int, i32::MIN as int, i32::MAX as int);
            lemma_signed_field(q as int, i32::MIN as int, i32::MAX as int);
            assert(forall|i: int| 0 <= i < fields.len() ==> no_sep(#[trigger] fields[i])) by {
                assert(fields[0] == int_digits(p as int));
                assert(fields[1] == int_digits(q as int));
            }
            lemma_split_join(fields);
            assert(s.skip(2) =~= join_fields(fields));
        },
        MessageView::Gone { id } => {
            lemma_unsigned_field(id as nat, u32::MAX as int);
            assert(forall|i: int| 0 <= i < fields.len() ==> no_sep(#[trigger] fields[i])) by {
                assert(fields[0] == dec_digits(id as nat));
            }
            lemma_split_join(fields);
            assert(s.skip(2) =~= join_fields(fields));
        },
        MessageView::Hello { version } => {
            lemma_unsigned_field(version as nat, u32::MAX as int);
            assert(forall|i: int| 0 <= i < fields.len() ==> no_sep(#[trigger] fields[i])) by {
                assert(fields[0] == dec_digits(version as nat));
            }
            lemma_split_join(fields);
            assert(s.skip(2) =~= join_fields(fields));
        },
    }
}

/// `s` contains no newline.
pub open spec fn newline_free(s: Seq<char>) -> bool {
    forall|i: int| 0 <= i < s.len() ==> (#[trigger] s[i]) != '\n'
}

/// Joining newline-free fields with commas stays newline free.
proof fn lemma_join_newline_free(fs: Seq<Seq<char>>)
    requires
        forall|i: int| 0 <= i < fs.len() ==> newline_free(#[trigger] fs[i]),
    ensures
        newline_free(join_fields(fs)),
    decreases fs.len(),
{
    if fs.len() == 0 {
    } else if fs.len() == 1 {
        assert(join_fields(fs) == fs[0]);
    } else {
        assert(forall|i: int| 0 <= i < fs.skip(1).len() ==> fs.skip(1)[i] == fs[i + 1]);
        lemma_join_newline_free(fs.skip(1));
        let s = join_fields(fs);
        assert(s == fs[0] + seq![','] + join_fields(fs.skip(1)));
        assert forall|j: int| 0 <= j < s.len() implies (#[trigger] s[j]) != '\n' by {
            if j < fs[0].len() {
                assert(s[j] == fs[0][j]);
            } else if j == fs[0].len() {
                assert(s[j] == ',');
            } else {
                assert(s[j] == join_fields(fs.skip(1))[j - fs[0].len() - 1]);
            }
        }
    }
}

/// A separator-free field is newline free.
proof fn lemma_no_sep_newline_free(s: Seq<char>)
    requires
        no_sep(s),
    ensures
        newline_free(s),
{
    assert(forall|i: int|
        0 <= i < s.len() ==> !crate::fields::is_sep(#[trigger] s[i]));
}

/// A message whose record can be framed on a line: well formed, with
/// chat text that carries no newline. Every other field kind is free of
/// separators altogether.
pub open spec fn framable(m: MessageView) -> bool {
    &&& m.wf()
    &&& match m {
        MessageView::TalkMsg { text } => newline_free(text),
        _ => true,
    }
}

/// A framable message's record contains no newline.
proof fn lemma_record_newline_free(m: MessageView)
    requires
        framable(m),
    ensures
        newline_free(record_of_message(m)),
{
    let fields = message_fields(m);
    assert forall|i: int| 0 <= i < fields.len() implies newline_free(#[trigger] fields[i]) by {
        match m {
            MessageView::You { id, pos } => {
                lemma_unsigned_field(id as nat, u32::MAX as int);
                lemma_num_token_no_sep(pos.x);
                lemma_num_token_no_sep(pos.y);
                lemma_num_token_no_sep(pos.z);
                lemma_num_token_no_sep(pos.rx);
                lemma_num_token_no_sep(pos.ry);
            },
            MessageView::TimeMsg { time, day_length } => {
                lemma_unsigned_field(time as nat, u64::MAX as int);
                lemma_unsigned_field(day_length as nat, u32::MAX as int);
            },
            MessageView::PositionOf { id, pos } => {
                lemma_unsigned_field(id as nat, u32::MAX as int);
                lemma_num_token_no_sep(pos.x);
                lemma_num_token_no_sep(pos.y);
                lemma_num_token_no_sep(pos.z);
                lemma_num_token_no_sep(pos.rx);
                lemma_num_token_no_sep(pos.ry);
            },
            MessageView::NickOf { id, .. } => {
                lemma_unsigned_field(id as nat, u32::MAX as int);
            },
            MessageView::TalkMsg { .. } => {},
            MessageView::BlockAt { p, q, x, y, z, w } => {
                lemma_signed_field(p as int, i32::MIN as int, i32::MAX as int);
                lemma_signed_field(q as int, i32::MIN as int, i32::MAX as int);
                lemma_signed_field(x as int, i32::MIN as int, i32::MAX as int);
                lemma_signed_field(y as int, i32::MIN as int, i32::MAX as int);
                lemma_signed_field(z as int, i32::MIN as int, i32::MAX as int);
                lemma_signed_field(w as int, i8::MIN as int, i8::MAX as int);
            },
            MessageView::SignAt { p, q, x, y, z, face, .. } => {
                lemma_signed_field(p as int, i32::MIN as int, i32::MAX as int);
                lemma_signed_field(q as int, i32::MIN as int, i32::MAX as int);
                lemma_signed_field(x as int, i32::MIN as int, i32::MAX as int);
                lemma_signed_field(y as int, i32::MIN as int, i32::MAX as int);
                lemma_signed_field(z as int, i32::MIN as int, i32::MAX as int);
                lemma_unsigned_field(face as nat, u8::MAX as int);
            },
            MessageView::LightAt { p, q, x, y, z, w } => {
                lemma_signed_field(p as int, i32::MIN as int, i32::MAX as int);
                lemma_signed_field(q as int, i32::MIN as int, i32::MAX as int);
                lemma_signed_field(x as int, i32::MIN as int, i32::MAX as int);
                lemma_signed_field(y as int, i32::MIN as int, i32::MAX as int);
                lemma_signed_field(z as int, i32::MIN as int, i32::MAX as int);
                lemma_unsigned_field(w as nat, u8::MAX as int);
            },
            MessageView::RedrawChunk { p, q } => {
                lemma_signed_field(p as int, i32::MIN as int, i32::MAX as int);
                lemma_signed_field(q as int, i32::MIN as int, i32::MAX as int);
            },
            MessageView::Gone { id } => {
                lemma_unsigned_field(id as nat, u32::MAX as int);
            },
            MessageView::Hello { version } => {
                lemma_unsigned_field(version as nat, u32::MAX as int);
            },
        }
        if no_sep(fields[i]) {
            lemma_no_sep_newline_free(fields[i]);
        }
    }
    lemma_join_newline_free(fields);
    let s = record_of_message(m);
    assert forall|j: int| 0 <= j < s.len() implies (#[trigger] s[j]) != '\n' by {
        if j == 0 {
            assert(s[j] == message_tag(m));
        } else if j == 1 {
            assert(s[j] == ',');
        } else {
            assert(s[j] == join_fields(message_fields(m))[j - 2]);
        }
    }
}

/// The codec round trip through the wire framing: one formatted message
/// splits back into exactly its record, and decoding that record yields
/// the message.
pub proof fn lemma_wire_round_trip(m: MessageView)
    requires
        framable(m),
    ensures
        crate::fields::split_records_spec(wire_of(m)) == seq![record_of_message(m)],
        spec_parse_message(record_of_message(m)) == Some(m),
{
    lemma_record_newline_free(m);
    crate::fields::lemma_split_records_single(record_of_message(m));
    lemma_message_round_trip(m);
}

} // verus!
