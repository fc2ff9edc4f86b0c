//! The line-oriented ASCII protocol: inbound client records parsed into
//! events, outbound server records formatted from messages, with proofs
//! that parsing a formatted record yields the original value.
//!
//! Position and rotation coordinates travel as validated decimal text
//! tokens (sign, digits, optional fraction); the server never computes
//! with them, it caches and re-emits them.

use vstd::prelude::*;
use crate::fields::{
    join_fields, lemma_split_join, no_sep, split_fields, split_str, views_of,
};
use crate::num::{
    check_num_token, int_digits, is_num_token, lemma_int_digits_is_num_token,
    lemma_int_digits_round_trip, lemma_num_token_no_sep, parse_i32, parse_i8, parse_u8,
    spec_parse_int,
};

verus! {

/// Why an inbound record was rejected.
#[derive(Clone, Copy, Debug, PartialEq, Eq, Structural)]
pub enum MessageParseError {
    /// The record had the wrong number of payload fields.
    InvalidLength,
    /// An integer field did not parse.
    IntError,
    /// A coordinate field did not match the numeral grammar.
    FloatError,
    /// The record was too short to carry a tag and payload.
    EmptyMessageError,
    /// The record's tag is not one the server consumes.
    UnknownTag,
}

/// Spec-level image of a position event: five numeral tokens.
pub struct PositionEventView {
    pub x: Seq<char>,
    pub y: Seq<char>,
    pub z: Seq<char>,
    pub rx: Seq<char>,
    pub ry: Seq<char>,
}

impl PositionEventView {
    /// All five coordinates match the numeral grammar.
    pub open spec fn wf(self) -> bool {
        &&& is_num_token(self.x)
        &&& is_num_token(self.y)
        &&& is_num_token(self.z)
        &&& is_num_token(self.rx)
        &&& is_num_token(self.ry)
    }
}

/// Corresponds to `P` position messages: a transform carried as decimal
/// text tokens `(x, y, z, rx, ry)`.
#[derive(Clone, Debug)]
pub struct PositionEvent {
    pub x: String,
    pub y: String,
    pub z: String,
    pub rx: String,
    pub ry: String,
}

impl View for PositionEvent {
    type V = PositionEventView;

    open spec fn view(&self) -> PositionEventView {
        PositionEventView { x: self.x@, y: self.y@, z: self.z@, rx: self.rx@, ry: self.ry@ }
    }
}

/// Spec-level image of a chat event.
pub struct TalkEventView {
    pub text: Seq<char>,
}

/// Corresponds to `T` chat messages.
#[derive(Clone, Debug)]
pub struct TalkEvent {
    pub text: String,
}

impl View for TalkEvent {
    type V = TalkEventView;

    open spec fn view(&self) -> TalkEventView {
        TalkEventView { text: self.text@ }
    }
}

/// Corresponds to `B` block messages: a block of kind `w` placed at
/// global coordinates `(x, y, z)`; `w == 0` mines the block away.
#[derive(Clone, Copy, Debug, PartialEq, Eq, Structural)]
pub struct BlockEvent {
    pub x: i32,
    pub y: i32,
    pub z: i32,
    pub w: i8,
}

/// Corresponds to `C` chunk data request messages.
#[derive(Clone, Copy, Debug, PartialEq, Eq, Structural)]
pub struct ChunkRequestEvent {
    pub p: i32,
    pub q: i32,
}

/// Corresponds to `L` light messages: light level `w` set at `(x, y, z)`.
#[derive(Clone, Copy, Debug, PartialEq, Eq, Structural)]
pub struct LightEvent {
    pub x: i32,
    pub y: i32,
    pub z: i32,
    pub w: u8,
}

/// Spec-level image of a sign event.
pub struct SignEventView {
    pub x: i32,
    pub y: i32,
    pub z: i32,
    pub face: u8,
    pub text: Seq<char>,
}

/// Corresponds to `S` sign messages: text placed on one `face` of the
/// block at `(x, y, z)`; empty text deletes that face's sign.
#[derive(Clone, Debug)]
pub struct SignEvent {
    pub x: i32,
    pub y: i32,
    pub z: i32,
    pub face: u8,
    pub text: String,
}

impl View for SignEvent {
    type V = SignEventView;

    open spec fn view(&self) -> SignEventView {
        SignEventView { x: self.x, y: self.y, z: self.z, face: self.face, text: self.text@ }
    }
}

/// Spec-level image of an inbound event.
pub enum EventView {
    Disconnected,
    Position(PositionEventView),
    Talk(TalkEventView),
    Block(BlockEvent),
    ChunkRequest(ChunkRequestEvent),
    Sign(SignEventView),
    Light(LightEvent),
}

/// An inbound event: what one parsed client record means to the hub.
/// `Disconnected` is never parsed from a record; the connection layer
/// synthesises it when a peer's stream ends.
#[derive(Clone, Debug)]
pub enum Event {
    /// Informs the hub that the client has left.
    Disconnected,
    /// A player's change in position.
    Position(PositionEvent),
    /// A chat message sent from a client.
    Talk(TalkEvent),
    /// A block placed (or mined) on a client.
    Block(BlockEvent),
    /// A request for chunk data from a client.
    ChunkRequest(ChunkRequestEvent),
    /// A sign set or cleared on a client.
    Sign(SignEvent),
    /// A light value set on a client.
    Light(LightEvent),
}

impl View for Event {
    type V = EventView;

    open spec fn view(&self) -> EventView {
        match self {
            Event::Disconnected => EventView::Disconnected,
            Event::Position(e) => EventView::Position(e@),
            Event::Talk(e) => EventView::Talk(e@),
            Event::Block(e) => EventView::Block(*e),
            Event::ChunkRequest(e) => EventView::ChunkRequest(*e),
            Event::Sign(e) => EventView::Sign(e@),
            Event::Light(e) => EventView::Light(*e),
        }
    }
}

/// What parsing a `P` payload yields: the five tokens when each matches
/// the numeral grammar.
pub open spec fn spec_parse_position(p: Seq<char>) -> Result<PositionEventView, MessageParseError> {
    let fs = split_fields(p);
    if fs.len() != 5 {
        Err(MessageParseError::InvalidLength)
    } else if is_num_token(fs[0]) && is_num_token(fs[1]) && is_num_token(fs[2]) && is_num_token(
        fs[3],
    ) && is_num_token(fs[4]) {
        Ok(PositionEventView { x: fs[0], y: fs[1], z: fs[2], rx: fs[3], ry: fs[4] })
    } else {
        Err(MessageParseError::FloatError)
    }
}

/// What parsing a `T` payload yields: the text itself, always.
pub open spec fn spec_parse_talk(p: Seq<char>) -> Result<TalkEventView, MessageParseError> {
    Ok(TalkEventView { text: p })
}

/// What parsing a `B` payload yields.
pub open spec fn spec_parse_block(p: Seq<char>) -> Result<BlockEvent, MessageParseError> {
    let fs = split_fields(p);
    if fs.len() != 4 {
        Err(MessageParseError::InvalidLength)
    } else {
        let x = spec_parse_int(fs[0], i32::MIN as int, i32::MAX as int);
        let y = spec_parse_int(fs[1], i32::MIN as int, i32::MAX as int);
        let z = spec_parse_int(fs[2], i32::MIN as int, i32::MAX as int);
        let w = spec_parse_int(fs[3], i8::MIN as int, i8::MAX as int);
        if x is Some && y is Some && z is Some && w is Some {
            Ok(
                BlockEvent {
                    x: x.unwrap() as i32,
                    y: y.unwrap() as i32,
                    z: z.unwrap() as i32,
                    w: w.unwrap() as i8,
                },
            )
        } else {
            Err(MessageParseError::IntError)
        }
    }
}

/// What parsing a `C` payload yields: three fields, of which the chunk
/// key `(p, q)` is read and the request key is ignored.
pub open spec fn spec_parse_chunk_request(p: Seq<char>) -> Result<
    ChunkRequestEvent,
    MessageParseError,
> {
    let fs = split_fields(p);
    if fs.len() != 3 {
        Err(MessageParseError::InvalidLength)
    } else {
        let cp = spec_parse_int(fs[0], i32::MIN as int, i32::MAX as int);
        let cq = spec_parse_int(fs[1], i32::MIN as int, i32::MAX as int);
        if cp is Some && cq is Some {
            Ok(ChunkRequestEvent { p: cp.unwrap() as i32, q: cq.unwrap() as i32 })
        } else {
            Err(MessageParseError::IntError)
        }
    }
}

/// What parsing an `S` payload yields.
pub open spec fn spec_parse_sign(p: Seq<char>) -> Result<SignEventView, MessageParseError> {
    let fs = split_fields(p);
    if fs.len() != 5 {
        Err(MessageParseError::InvalidLength)
    } else {
        let x = spec_parse_int(fs[0], i32::MIN as int, i32::MAX as int);
        let y = spec_parse_int(fs[1], i32::MIN as int, i32::MAX as int);
        let z = spec_parse_int(fs[2], i32::MIN as int, i32::MAX as int);
        let face = spec_parse_int(fs[3], 0, u8::MAX as int);
        if x is Some && y is Some && z is Some && face is Some {
            Ok(
                SignEventView {
                    x: x.unwrap() as i32,
                    y: y.unwrap() as i32,
                    z: z.unwrap() as i32,
                    face: face.unwrap() as u8,
                    text: fs[4],
                },
            )
        } else {
            Err(MessageParseError::IntError)
        }
    }
}

/// What parsing an `L` payload yields.
pub open spec fn spec_parse_light(p: Seq<char>) -> Result<LightEvent, MessageParseError> {
    let fs = split_fields(p);
    if fs.len() != 4 {
        Err(MessageParseError::InvalidLength)
    } else {
        let x = spec_parse_int(fs[0], i32::MIN as int, i32::MAX as int);
        let y = spec_parse_int(fs[1], i32::MIN as int, i32::MAX as int);
        let z = spec_parse_int(fs[2], i32::MIN as int, i32::MAX as int);
        let w = spec_parse_int(fs[3], 0, u8::MAX as int);
        if x is Some && y is Some && z is Some && w is Some {
            Ok(
                LightEvent {
                    x: x.unwrap() as i32,
                    y: y.unwrap() as i32,
                    z: z.unwrap() as i32,
                    w: w.unwrap() as u8,
                },
            )
        } else {
            Err(MessageParseError::IntError)
        }
    }
}

/// What parsing one whole inbound record yields: dispatch on the tag
/// character; the second character is skipped; tags the server does not
/// consume are reported as unknown.
pub open spec fn spec_parse_record(s: Seq<char>) -> Result<EventView, MessageParseError> {
    if s.len() < 2 {
        Err(MessageParseError::EmptyMessageError)
    } else {
        let p = s.skip(2);
        if s[0] == 'P' {
            match spec_parse_position(p) {
                Ok(e) => Ok(EventView::Position(e)),
                Err(e) => Err(e),
            }
        } else if s[0] == 'T' {
            match spec_parse_talk(p) {
                Ok(e) => Ok(EventView::Talk(e)),
                Err(e) => Err(e),
            }
        } else if s[0] == 'B' {
            match spec_parse_block(p) {
                Ok(e) => Ok(EventView::Block(e)),
                Err(e) => Err(e),
            }
        } else if s[0] == 'C' {
            match spec_parse_chunk_request(p) {
                Ok(e) => Ok(EventView::ChunkRequest(e)),
                Err(e) => Err(e),
            }
        } else if s[0] == 'S' {
            match spec_parse_sign(p) {
                Ok(e) => Ok(EventView::Sign(e)),
                Err(e) => Err(e),
            }
        } else if s[0] == 'L' {
            match spec_parse_light(p) {
                Ok(e) => Ok(EventView::Light(e)),
                Err(e) => Err(e),
            }
        } else {
            Err(MessageParseError::UnknownTag)
        }
    }
}

impl PositionEvent {
    /// Create a new position event from an encoded payload.
    pub fn new(payload: &str) -> (r: Result<PositionEvent, MessageParseError>)
        ensures
            match r {
                Ok(e) => spec_parse_position(payload@) == Ok::<_, MessageParseError>(e@),
                Err(er) => spec_parse_position(payload@) == Err::<PositionEventView, _>(er),
            },
    {
        let pieces = split_str(payload);
        let ghost fs = split_fields(payload@);
        if pieces.len() != 5 {
            return Err(MessageParseError::InvalidLength);
        }
        let mut ok = check_num_token(pieces[0].as_str());
        ok = ok && check_num_token(pieces[1].as_str());
        ok = ok && check_num_token(pieces[2].as_str());
        ok = ok && check_num_token(pieces[3].as_str());
        ok = ok && check_num_token(pieces[4].as_str());
        proof {
            assert(pieces@[0]@ == fs[0]);
            assert(pieces@[1]@ == fs[1]);
            assert(pieces@[2]@ == fs[2]);
            assert(pieces@[3]@ == fs[3]);
            assert(pieces@[4]@ == fs[4]);
        }
        if !ok {
            return Err(MessageParseError::FloatError);
        }
        let e = PositionEvent {
            x: pieces[0].clone(),
            y: pieces[1].clone(),
            z: pieces[2].clone(),
            rx: pieces[3].clone(),
            ry: pieces[4].clone(),
        };
        Ok(e)
    }
}

impl TalkEvent {
    /// Create a new chat event from an encoded payload.
    pub fn new(payload: &str) -> (r: Result<TalkEvent, MessageParseError>)
        ensures
            match r {
                Ok(e) => spec_parse_talk(payload@) == Ok::<_, MessageParseError>(e@),
                Err(er) => spec_parse_talk(payload@) == Err::<TalkEventView, _>(er),
            },
    {
        Ok(TalkEvent { text: payload.to_owned() })
    }
}

impl BlockEvent {
    /// Create a new block event from an encoded payload.
    pub fn new(payload: &str) -> (r: Result<BlockEvent, MessageParseError>)
        ensures
            r == spec_parse_block(payload@),
    {
        let pieces = split_str(payload);
        let ghost fs = split_fields(payload@);
        if pieces.len() != 4 {
            return Err(MessageParseError::InvalidLength);
        }
        proof {
            assert(pieces@[0]@ == fs[0]);
            assert(pieces@[1]@ == fs[1]);
            assert(pieces@[2]@ == fs[2]);
            assert(pieces@[3]@ == fs[3]);
        }
        let x = match parse_i32(pieces[0].as_str()) {
            Some(v) => v,
            None => {
                return Err(MessageParseError::IntError);
            },
        };
        let y = match parse_i32(pieces[1].as_str()) {
            Some(v) => v,
            None => {
                return Err(MessageParseError::IntError);
            },
        };
        let z = match parse_i32(pieces[2].as_str()) {
            Some(v) => v,
            None => {
                return Err(MessageParseError::IntError);
            },
        };
        let w = match parse_i8(pieces[3].as_str()) {
            Some(v) => v,
            None => {
                return Err(MessageParseError::IntError);
            },
        };
        Ok(BlockEvent { x, y, z, w })
    }
}

impl ChunkRequestEvent {
    /// Create a new chunk data request event from an encoded payload.
    pub fn new(payload: &str) -> (r: Result<ChunkRequestEvent, MessageParseError>)
        ensures
            r == spec_parse_chunk_request(payload@),
    {
        let pieces = split_str(payload);
        let ghost fs = split_fields(payload@);
        if pieces.len() != 3 {
            return Err(MessageParseError::InvalidLength);
        }
        proof {
            assert(pieces@[0]@ == fs[0]);
            assert(pieces@[1]@ == fs[1]);
        }
        let p = match parse_i32(pieces[0].as_str()) {
            Some(v) => v,
            None => {
                return Err(MessageParseError::IntError);
            },
        };
        let q = match parse_i32(pieces[1].as_str()) {
            Some(v) => v,
            None => {
                return Err(MessageParseError::IntError);
            },
        };
        Ok(ChunkRequestEvent { p, q })
    }
}

impl SignEvent {
    /// Create a new sign event from an encoded payload.
    pub fn new(payload: &str) -> (r: Result<SignEvent, MessageParseError>)
        ensures
            match r {
                Ok(e) => spec_parse_sign(payload@) == Ok::<_, MessageParseError>(e@),
                Err(er) => spec_parse_sign(payload@) == Err::<SignEventView, _>(er),
            },
    {
        let pieces = split_str(payload);
        let ghost fs = split_fields(payload@);
        if pieces.len() != 5 {
            return Err(MessageParseError::InvalidLength);
        }
        proof {
            assert(pieces@[0]@ == fs[0]);
            assert(pieces@[1]@ == fs[1]);
            assert(pieces@[2]@ == fs[2]);
            assert(pieces@[3]@ == fs[3]);
            assert(pieces@[4]@ == fs[4]);
        }
        let x = match parse_i32(pieces[0].as_str()) {
            Some(v) => v,
            None => {
                return Err(MessageParseError::IntError);
            },
        };
        let y = match parse_i32(pieces[1].as_str()) {
            Some(v) => v,
            None => {
                return Err(MessageParseError::IntError);
            },
        };
        let z = match parse_i32(pieces[2].as_str()) {
            Some(v) => v,
            None => {
                return Err(MessageParseError::IntError);
            },
        };
        let face = match parse_u8(pieces[3].as_str()) {
            Some(v) => v,
            None => {
                return Err(MessageParseError::IntError);
            },
        };
        Ok(SignEvent { x, y, z, face, text: pieces[4].clone() })
    }
}

impl LightEvent {
    /// Create a new light event from an encoded payload.
    pub fn new(payload: &str) -> (r: Result<LightEvent, MessageParseError>)
        ensures
            r == spec_parse_light(payload@),
    {
        let pieces = split_str(payload);
        let ghost fs = split_fields(payload@);
        if pieces.len() != 4 {
            return Err(MessageParseError::InvalidLength);
        }
        proof {
            assert(pieces@[0]@ == fs[0]);
            assert(pieces@[1]@ == fs[1]);
            assert(pieces@[2]@ == fs[2]);
            assert(pieces@[3]@ == fs[3]);
        }
        let x = match parse_i32(pieces[0].as_str()) {
            Some(v) => v,
            None => {
                return Err(MessageParseError::IntError);
            },
        };
        let y = match parse_i32(pieces[1].as_str()) {
            Some(v) => v,
            None => {
                return Err(MessageParseError::IntError);
            },
        };
        let z = match parse_i32(pieces[2].as_str()) {
            Some(v) => v,
            None => {
                return Err(MessageParseError::IntError);
            },
        };
        let w = match parse_u8(pieces[3].as_str()) {
            Some(v) => v,
            None => {
                return Err(MessageParseError::IntError);
            },
        };
        Ok(LightEvent { x, y, z, w })
    }
}

/// Parse one whole inbound record (one line, without its newline).
pub fn parse_record(line: &str) -> (r: Result<Event, MessageParseError>)
    ensures
        match r {
            Ok(e) => spec_parse_record(line@) == Ok::<_, MessageParseError>(e@),
            Err(er) => spec_parse_record(line@) == Err::<EventView, _>(er),
        },
{
    let n = line.unicode_len();
    if n < 2 {
        return Err(MessageParseError::EmptyMessageError);
    }
    let tag = line.get_char(0);
    let payload = line.substring_char(2, n);
    proof {
        assert(payload@ =~= line@.skip(2));
    }
    if tag == 'P' {
        match PositionEvent::new(payload) {
            Ok(e) => Ok(Event::Position(e)),
            Err(er) => Err(er),
        }
    } else if tag == 'T' {
        match TalkEvent::new(payload) {
            Ok(e) => Ok(Event::Talk(e)),
            Err(er) => Err(er),
        }
    } else if tag == 'B' {
        match BlockEvent::new(payload) {
            Ok(e) => Ok(Event::Block(e)),
            Err(er) => Err(er),
        }
    } else if tag == 'C' {
        match ChunkRequestEvent::new(payload) {
            Ok(e) => Ok(Event::ChunkRequest(e)),
            Err(er) => Err(er),
        }
    } else if tag == 'S' {
        match SignEvent::new(payload) {
            Ok(e) => Ok(Event::Sign(e)),
            Err(er) => Err(er),
        }
    } else if tag == 'L' {
        match LightEvent::new(payload) {
            Ok(e) => Ok(Event::Light(e)),
            Err(er) => Err(er),
        }
    } else {
        Err(MessageParseError::UnknownTag)
    }
}

/// The record a client encodes for a position event.
pub open spec fn position_record(v: PositionEventView) -> Seq<char> {
    seq!['P'] + seq![','] + join_fields(seq![v.x, v.y, v.z, v.rx, v.ry])
}

/// The record a client encodes for a chat event.
pub open spec fn talk_record(v: TalkEventView) -> Seq<char> {
    seq!['T'] + seq![','] + v.text
}

/// The record a client encodes for a block event.
pub open spec fn block_record(e: BlockEvent) -> Seq<char> {
    seq!['B'] + seq![','] + join_fields(
        seq![
            int_digits(e.x as int),
            int_digits(e.y as int),
            int_digits(e.z as int),
            int_digits(e.w as int),
        ],
    )
}

/// The record a client encodes for a chunk request; the third field is
/// the request key, which the server ignores.
pub open spec fn chunk_request_record(e: ChunkRequestEvent) -> Seq<char> {
    seq!['C'] + seq![','] + join_fields(
        seq![int_digits(e.p as int), int_digits(e.q as int), seq!['0']],
    )
}

/// The record a client encodes for a sign event.
pub open spec fn sign_record(v: SignEventView) -> Seq<char> {
    seq!['S'] + seq![','] + join_fields(
        seq![
            int_digits(v.x as int),
            int_digits(v.y as int),
            int_digits(v.z as int),
            int_digits(v.face as int),
            v.text,
        ],
    )
}

/// The record a client encodes for a light event.
pub open spec fn light_record(e: LightEvent) -> Seq<char> {
    seq!['L'] + seq![','] + join_fields(
        seq![
            int_digits(e.x as int),
            int_digits(e.y as int),
            int_digits(e.z as int),
            int_digits(e.w as int),
        ],
    )
}

/// An integer rendering contains no field separator.
pub proof fn lemma_int_digits_no_sep(n: int)
    ensures
        no_sep(int_digits(n)),
{
    lemma_int_digits_is_num_token(n);
    lemma_num_token_no_sep(int_digits(n));
}

/// Assemble a record: tag, comma, fields joined with commas.
pub fn assemble_record(tag: &str, fs: &Vec<String>) -> (r: String)
    requires
        fs@.len() >= 1,
    ensures
        r@ == tag@ + seq![','] + join_fields(views_of(fs@)),
{
    let mut s = tag.to_owned();
    s.append(",");
    s.append(crate::fields::join_strs(fs).as_str());
    proof {
        reveal_strlit(",");
        assert(","@ =~= seq![',']);
        assert(s@ =~= tag@ + seq![','] + join_fields(views_of(fs@)));
    }
    s
}

impl PositionEvent {
    /// The spawn transform: all five coordinates zero.
    pub fn spawn() -> (r: PositionEvent)
        ensures
            r@.x == seq!['0'],
            r@.y == seq!['0'],
            r@.z == seq!['0'],
            r@.rx == seq!['0'],
            r@.ry == seq!['0'],
            r@.wf(),
    {
        proof {
            reveal_strlit("0");
            assert("0"@ =~= seq!['0']);
            lemma_int_digits_is_num_token(0);
            assert(int_digits(0) =~= seq!['0']);
        }
        PositionEvent {
            x: "0".to_owned(),
            y: "0".to_owned(),
            z: "0".to_owned(),
            rx: "0".to_owned(),
            ry: "0".to_owned(),
        }
    }

    /// An owned copy with the same five tokens.
    pub fn duplicate(&self) -> (r: PositionEvent)
        ensures
            r@ == self@,
    {
        PositionEvent {
            x: self.x.clone(),
            y: self.y.clone(),
            z: self.z.clone(),
            rx: self.rx.clone(),
            ry: self.ry.clone(),
        }
    }

    /// Encode this event as a client would put it on the wire, without
    /// the trailing newline.
    pub fn record(&self) -> (r: String)
        ensures
            r@ == position_record(self@),
    {
        let mut fs: Vec<String> = Vec::new();
        fs.push(self.x.clone());
        fs.push(self.y.clone());
        fs.push(self.z.clone());
        fs.push(self.rx.clone());
        fs.push(self.ry.clone());
        proof {
            assert(views_of(fs@) =~= seq![self.x@, self.y@, self.z@, self.rx@, self.ry@]);
            reveal_strlit("P");
            assert("P"@ =~= seq!['P']);
        }
        assemble_record("P", &fs)
    }
}

impl TalkEvent {
    /// Encode this event as a client would put it on the wire, without
    /// the trailing newline.
    pub fn record(&self) -> (r: String)
        ensures
            r@ == talk_record(self@),
    {
        let mut s = "T,".to_owned();
        s.append(self.text.as_str());
        proof {
            reveal_strlit("T,");
            assert("T,"@ =~= seq!['T'] + seq![',']);
            assert(s@ =~= talk_record(self@));
        }
        s
    }
}

impl BlockEvent {
    /// Encode this event as a client would put it on the wire, without
    /// the trailing newline.
    pub fn record(&self) -> (r: String)
        ensures
            r@ == block_record(*self),
    {
        let mut fs: Vec<String> = Vec::new();
        fs.push(crate::num::fmt_i32(self.x));
        fs.push(crate::num::fmt_i32(self.y));
        fs.push(crate::num::fmt_i32(self.z));
        fs.push(crate::num::fmt_i8(self.w));
        proof {
            assert(views_of(fs@) =~= seq![
                int_digits(self.x as int),
                int_digits(self.y as int),
                int_digits(self.z as int),
                int_digits(self.w as int),
            ]);
            reveal_strlit("B");
            assert("B"@ =~= seq!['B']);
        }
        assemble_record("B", &fs)
    }
}

impl ChunkRequestEvent {
    /// Encode this event as a client would put it on the wire, without
    /// the trailing newline; the ignored request key is sent as zero.
    pub fn record(&self) -> (r: String)
        ensures
            r@ == chunk_request_record(*self),
    {
        let mut fs: Vec<String> = Vec::new();
        fs.push(crate::num::fmt_i32(self.p));
        fs.push(crate::num::fmt_i32(self.q));
        fs.push("0".to_owned());
        proof {
            reveal_strlit("0");
            assert("0"@ =~= seq!['0']);
            assert(views_of(fs@) =~= seq![
                int_digits(self.p as int),
                int_digits(self.q as int),
                seq!['0'],
            ]);
            reveal_strlit("C");
            assert("C"@ =~= seq!['C']);
        }
        assemble_record("C", &fs)
    }
}

impl SignEvent {
    /// Encode this event as a client would put it on the wire, without
    /// the trailing newline.
    pub fn record(&self) -> (r: String)
        ensures
            r@ == sign_record(self@),
    {
        let mut fs: Vec<String> = Vec::new();
        fs.push(crate::num::fmt_i32(self.x));
        fs.push(crate::num::fmt_i32(self.y));
        fs.push(crate::num::fmt_i32(self.z));
        fs.push(crate::num::fmt_u8(self.face));
        fs.push(self.text.clone());
        proof {
            assert(int_digits(self.face as int) == crate::num::dec_digits(self.face as nat));
            assert(views_of(fs@) =~= seq![
                int_digits(self.x as int),
                int_digits(self.y as int),
                int_digits(self.z as int),
                int_digits(self.face as int),
                self.text@,
            ]);
            reveal_strlit("S");
            assert("S"@ =~= seq!['S']);
        }
        assemble_record("S", &fs)
    }
}

impl LightEvent {
    /// Encode this event as a client would put it on the wire, without
    /// the trailing newline.
    pub fn record(&self) -> (r: String)
        ensures
            r@ == light_record(*self),
    {
        let mut fs: Vec<String> = Vec::new();
        fs.push(crate::num::fmt_i32(self.x));
        fs.push(crate::num::fmt_i32(self.y));
        fs.push(crate::num::fmt_i32(self.z));
        fs.push(crate::num::fmt_u8(self.w));
        proof {
            assert(int_digits(self.w as int) == crate::num::dec_digits(self.w as nat));
            assert(views_of(fs@) =~= seq![
                int_digits(self.x as int),
                int_digits(self.y as int),
                int_digits(self.z as int),
                int_digits(self.w as int),
            ]);
            reveal_strlit("L");
            assert("L"@ =~= seq!['L']);
        }
        assemble_record("L", &fs)
    }
}

/// Parsing an encoded position event yields the event: the codec round
/// trip for `P` records.
pub proof fn lemma_position_round_trip(v: PositionEventView)
    requires
        v.wf(),
    ensures
        spec_parse_record(position_record(v)) == Ok::<EventView, MessageParseError>(
            EventView::Position(v),
        ),
{
    lemma_num_token_no_sep(v.x);
    lemma_num_token_no_sep(v.y);
    lemma_num_token_no_sep(v.z);
    lemma_num_token_no_sep(v.rx);
    lemma_num_token_no_sep(v.ry);
    let fields = seq![v.x, v.y, v.z, v.rx, v.ry];
    assert(forall|i: int| 0 <= i < fields.len() ==> no_sep(#[trigger] fields[i])) by {
        assert(fields[0] == v.x);
        assert(fields[1] == v.y);
        assert(fields[2] == v.z);
        assert(fields[3] == v.rx);
        assert(fields[4] == v.ry);
    }
    lemma_split_join(fields);
    let s = position_record(v);
    assert(s[0] == 'P');
    assert(s.skip(2) =~= join_fields(fields));
    let fs = split_fields(s.skip(2));
    assert(fs == fields);
    assert(spec_parse_position(s.skip(2)) == Ok::<_, MessageParseError>(v));
}

/// The codec round trip for `T` records.
pub proof fn lemma_talk_round_trip(v: TalkEventView)
    ensures
        spec_parse_record(talk_record(v)) == Ok::<EventView, MessageParseError>(
            EventView::Talk(v),
        ),
{
    let s = talk_record(v);
    assert(s[0] == 'T');
    assert(s.skip(2) =~= v.text);
}

/// The codec round trip for `B` records.
pub proof fn lemma_block_round_trip(e: BlockEvent)
    ensures
        spec_parse_record(block_record(e)) == Ok::<EventView, MessageParseError>(
            EventView::Block(e),
        ),
{
    lemma_int_digits_no_sep(e.x as int);
    lemma_int_digits_no_sep(e.y as int);
    lemma_int_digits_no_sep(e.z as int);
    lemma_int_digits_no_sep(e.w as int);
    let fields = seq![
        int_digits(e.x as int),
        int_digits(e.y as int),
        int_digits(e.z as int),
        int_digits(e.w as int),
    ];
    assert(forall|i: int| 0 <= i < fields.len() ==> no_sep(#[trigger] fields[i])) by {
        assert(fields[0] == int_digits(e.x as int));
        assert(fields[1] == int_digits(e.y as int));
        assert(fields[2] == int_digits(e.z as int));
        assert(fields[3] == int_digits(e.w as int));
    }
    lemma_split_join(fields);
    let s = block_record(e);
    assert(s[0] == 'B');
    assert(s.skip(2) =~= join_fields(fields));
    lemma_int_digits_round_trip(e.x as int, i32::MIN as int, i32::MAX as int);
    lemma_int_digits_round_trip(e.y as int, i32::MIN as int, i32::MAX as int);
    lemma_int_digits_round_trip(e.z as int, i32::MIN as int, i32::MAX as int);
    lemma_int_digits_round_trip(e.w as int, i8::MIN as int, i8::MAX as int);
    assert(spec_parse_block(s.skip(2)) == Ok::<_, MessageParseError>(e));
}

/// The codec round trip for `C` records.
pub proof fn lemma_chunk_request_round_trip(e: ChunkRequestEvent)
    ensures
        spec_parse_record(chunk_request_record(e)) == Ok::<EventView, MessageParseError>(
            EventView::ChunkRequest(e),
        ),
{
    lemma_int_digits_no_sep(e.p as int);
    lemma_int_digits_no_sep(e.q as int);
    let key = seq!['0'];
    assert(no_sep(key)) by {
        assert(key[0] == '0');
    }
    let fields = seq![int_digits(e.p as int), int_digits(e.q as int), key];
    assert(forall|i: int| 0 <= i < fields.len() ==> no_sep(#[trigger] fields[i])) by {
        assert(fields[0] == int_digits(e.p as int));
        assert(fields[1] == int_digits(e.q as int));
        assert(fields[2] == key);
    }
    lemma_split_join(fields);
    let s = chunk_request_record(e);
    assert(s[0] == 'C');
    assert(s.skip(2) =~= join_fields(fields));
    lemma_int_digits_round_trip(e.p as int, i32::MIN as int, i32::MAX as int);
    lemma_int_digits_round_trip(e.q as int, i32::MIN as int, i32::MAX as int);
    assert(spec_parse_chunk_request(s.skip(2)) == Ok::<_, MessageParseError>(e));
}

/// The codec round trip for `S` records: the sign text must be free of
/// separators, or encoding it would change the field count.
pub proof fn lemma_sign_round_trip(v: SignEventView)
    requires
        no_sep(v.text),
    ensures
        spec_parse_record(sign_record(v)) == Ok::<EventView, MessageParseError>(
            EventView::Sign(v),
        ),
{
    lemma_int_digits_no_sep(v.x as int);
    lemma_int_digits_no_sep(v.y as int);
    lemma_int_digits_no_sep(v.z as int);
    lemma_int_digits_no_sep(v.face as int);
    let fields = seq![
        int_digits(v.x as int),
        int_digits(v.y as int),
        int_digits(v.z as int),
        int_digits(v.face as int),
        v.text,
    ];
    assert(forall|i: int| 0 <= i < fields.len() ==> no_sep(#[trigger] fields[i])) by {
        assert(fields[0] == int_digits(v.x as int));
        assert(fields[1] == int_digits(v.y as int));
        assert(fields[2] == int_digits(v.z as int));
        assert(fields[3] == int_digits(v.face as int));
        assert(fields[4] == v.text);
    }
    lemma_split_join(fields);
    let s = sign_record(v);
    assert(s[0] == 'S');
    assert(s.skip(2) =~= join_fields(fields));
    lemma_int_digits_round_trip(v.x as int, i32::MIN as int, i32::MAX as int);
    lemma_int_digits_round_trip(v.y as int, i32::MIN as int, i32::MAX as int);
    lemma_int_digits_round_trip(v.z as int, i32::MIN as int, i32::MAX as int);
    lemma_int_digits_round_trip(v.face as int, 0, u8::MAX as int);
    assert(spec_parse_sign(s.skip(2)) == Ok::<_, MessageParseError>(v));
}

/// The codec round trip for `L` records.
pub proof fn lemma_light_round_trip(e: LightEvent)
    ensures
        spec_parse_record(light_record(e)) == Ok::<EventView, MessageParseError>(
            EventView::Light(e),
        ),
{
    lemma_int_digits_no_sep(e.x as int);
    lemma_int_digits_no_sep(e.y as int);
    lemma_int_digits_no_sep(e.z as int);
    lemma_int_digits_no_sep(e.w as int);
    let fields = seq![
        int_digits(e.x as int),
        int_digits(e.y as int),
        int_digits(e.z as int),
        int_digits(e.w as int),
    ];
    assert(forall|i: int| 0 <= i < fields.len() ==> no_sep(#[trigger] fields[i])) by {
        assert(fields[0] == int_digits(e.x as int));
        assert(fields[1] == int_digits(e.y as int));
        assert(fields[2] == int_digits(e.z as int));
        assert(fields[3] == int_digits(e.w as int));
    }
    lemma_split_join(fields);
    let s = light_record(e);
    assert(s[0] == 'L');
    assert(s.skip(2) =~= join_fields(fields));
    lemma_int_digits_round_trip(e.x as int, i32::MIN as int, i32::MAX as int);
    lemma_int_digits_round_trip(e.y as int, i32::MIN as int, i32::MAX as int);
    lemma_int_digits_round_trip(e.z as int, i32::MIN as int, i32::MAX as int);
    lemma_int_digits_round_trip(e.w as int, 0, u8::MAX as int);
    assert(spec_parse_light(s.skip(2)) == Ok::<_, MessageParseError>(e));
}

/// The exact four handshake bytes `V`, `,`, `1`, newline.
pub open spec fn handshake_bytes() -> Seq<u8> {
    seq![86u8, 44u8, 49u8, 10u8]
}

/// Decide the handshake: only the exact four bytes `V,1\n` admit a
/// connection.
pub fn handshake_accepts(buf: &[u8]) -> (r: bool)
    ensures
        r == (buf@ == handshake_bytes()),
{
    if buf.len() != 4 {
        proof {
            assert(buf@ != handshake_bytes());
        }
        return false;
    }
    let r = buf[0] == 86 && buf[1] == 44 && buf[2] == 49 && buf[3] == 10;
    proof {
        if r {
            assert(buf@ =~= handshake_bytes());
        } else {
            assert(buf@ != handshake_bytes());
        }
    }
    r
}

} // verus!
