//! Response frames and the read/write interfaces of the wire protocol.
//!
//! A response is a payload (any [`Value`], reusing the value encoding
//! verbatim), an error message (tag `e`), or null (tag `-`); every
//! response frame ends with the two-byte terminator. The [`TcpRead`] and
//! [`TcpWrite`] traits name what every frame kind offers: a validator
//! that finds one complete frame without decoding it, a parser, and a
//! serializer, each tied to the type's spec-level codec.

use vstd::prelude::*;
use vstd::bytes::{
    spec_u32_to_le_bytes, spec_u32_from_le_bytes, u32_to_le_bytes,
    lemma_auto_spec_u32_to_from_le_bytes,
};
use vstd::slice::{slice_subrange, slice_to_vec};
use vstd::utf8::{valid_utf8, decode_utf8, encode_utf8};
use crate::bytes::Cursor;
use crate::error::{Error, ErrorKind};
use crate::command::{
    Command, CommandView, encode_command, parse_command, command_frame_len, command_wf,
    frame_terminated, finish_frame,
};
use crate::value::{
    Value, ValueView, value_wf, encode_value, parse_value, value_len, append_bytes,
    lemma_encode_parse_value, lemma_encode_value_len, lemma_prefix_value_len,
    lemma_value_len_consumes, TAG_BOOLEAN, TAG_NUMBER, TAG_STRING, TAG_ARRAY, TAG_BYTES,
    TERM_CR, TERM_LF,
};

verus! {

/// Wire tag of a null response.
pub const TAG_NULL: u8 = 45;

/// Wire tag of an error response.
pub const TAG_ERROR: u8 = 101;

/// What the server answers with.
#[derive(Debug, PartialEq)]
pub enum Response {
    /// The response carries data.
    Payload(Value),
    /// The response reports an application-level error.
    Error(String),
    /// The response is empty, or the searched key was not found.
    Null,
}

/// The model of a response.
pub enum ResponseView {
    Payload(ValueView),
    Error(Seq<char>),
    Null,
}

impl View for Response {
    type V = ResponseView;

    open spec fn view(&self) -> ResponseView {
        match self {
            Response::Payload(v) => ResponseView::Payload(v@),
            Response::Error(m) => ResponseView::Error(m@),
            Response::Null => ResponseView::Null,
        }
    }
}

/// A response is encodable when its payload is, or its message's UTF-8
/// length fits the 4-byte field.
pub open spec fn response_wf(r: ResponseView) -> bool {
    match r {
        ResponseView::Payload(v) => value_wf(v),
        ResponseView::Error(m) => encode_utf8(m).len() <= u32::MAX,
        ResponseView::Null => true,
    }
}

/// The wire encoding of a response, terminator included.
pub open spec fn encode_response(r: ResponseView) -> Seq<u8> {
    match r {
        ResponseView::Payload(v) => encode_value(v) + seq![TERM_CR, TERM_LF],
        ResponseView::Error(m) => seq![TAG_ERROR] + spec_u32_to_le_bytes(
            encode_utf8(m).len() as u32,
        ) + encode_utf8(m) + seq![TERM_CR, TERM_LF],
        ResponseView::Null => seq![TAG_NULL, TERM_CR, TERM_LF],
    }
}

/// Whether the byte is one of the value tags, with which a payload
/// response begins.
pub open spec fn is_value_tag(t: u8) -> bool {
    t == TAG_BOOLEAN || t == TAG_NUMBER || t == TAG_STRING || t == TAG_ARRAY || t == TAG_BYTES
}

/// The structural parse of the response at the front of `s`, up to but
/// not including the terminator. A message that is not UTF-8 is reported
/// as `InvalidBytes`.
pub open spec fn parse_response(s: Seq<u8>) -> Result<(ResponseView, int), ErrorKind> {
    if s.len() == 0 {
        Err(ErrorKind::InvalidBytes)
    } else if is_value_tag(s[0]) {
        match parse_value(s) {
            Ok(p) => Ok((ResponseView::Payload(p.0), p.1)),
            Err(k) => Err(k),
        }
    } else if s[0] == TAG_NULL {
        Ok((ResponseView::Null, 1))
    } else if s[0] == TAG_ERROR {
        let rest = s.drop_first();
        if rest.len() < 4 {
            Err(ErrorKind::InvalidBytes)
        } else {
            let n = spec_u32_from_le_bytes(rest.take(4)) as int;
            if rest.len() < 4 + n {
                Err(ErrorKind::InvalidBytes)
            } else {
                let mb = rest.subrange(4, 4 + n);
                if valid_utf8(mb) {
                    Ok((ResponseView::Error(decode_utf8(mb)), 5 + n))
                } else {
                    Err(ErrorKind::InvalidBytes)
                }
            }
        }
    } else {
        Err(ErrorKind::UnknownCommand)
    }
}

/// The length of the complete response frame at the front of `s`,
/// terminator included, walking the declared length fields without
/// decoding.
pub open spec fn response_frame_len(s: Seq<u8>) -> Result<int, ErrorKind> {
    if s.len() == 0 {
        Err(ErrorKind::InvalidBytes)
    } else if is_value_tag(s[0]) {
        match value_len(s) {
            Ok(u) => frame_terminated(s, u),
            Err(k) => Err(k),
        }
    } else if s[0] == TAG_NULL {
        frame_terminated(s, 1)
    } else if s[0] == TAG_ERROR {
        let rest = s.drop_first();
        if rest.len() < 4 {
            Err(ErrorKind::InvalidBytes)
        } else {
            let n = spec_u32_from_le_bytes(rest.take(4)) as int;
            if rest.len() < 4 + n {
                Err(ErrorKind::InvalidBytes)
            } else {
                frame_terminated(s, 5 + n)
            }
        }
    } else {
        Err(ErrorKind::UnknownCommand)
    }
}

impl Response {
    /// Wraps a lookup result: data becomes a payload, absence becomes
    /// null.
    pub fn new(payload: Option<Value>) -> (r: Self)
        ensures
            match payload {
                Some(v) => r@ == ResponseView::Payload(v@),
                None => r@ == (ResponseView::Null {  }),
            },
    {
        if let Some(val) = payload {
            Self::Payload(val)
        } else {
            Self::Null
        }
    }

    /// An error response carrying the message.
    pub fn error(msg: &str) -> (r: Self)
        ensures
            r@ == ResponseView::Error(msg@),
    {
        Self::Error(msg.to_owned())
    }

    /// Serializes the response to its wire bytes, terminator included.
    pub fn to_bytes(self) -> (r: Vec<u8>)
        requires
            response_wf(self@),
        ensures
            r@ == encode_response(self@),
    {
        match self {
            Self::Payload(data) => {
                let mut out = data.to_bytes();
                out.push(TERM_CR);
                out.push(TERM_LF);
                out
            },
            Self::Error(msg) => {
                let mut out: Vec<u8> = Vec::new();
                out.push(TAG_ERROR);
                let mb = msg.as_str().as_bytes();
                let le = u32_to_le_bytes(mb.len() as u32);
                append_bytes(&mut out, le.as_slice());
                append_bytes(&mut out, mb);
                out.push(TERM_CR);
                out.push(TERM_LF);
                proof {
                    assert(out@ =~= encode_response(ResponseView::Error(msg@)));
                }
                out
            },
            Self::Null => {
                let mut out: Vec<u8> = Vec::new();
                out.push(TAG_NULL);
                out.push(TERM_CR);
                out.push(TERM_LF);
                proof {
                    assert(out@ =~= encode_response(ResponseView::Null));
                }
                out
            },
        }
    }

    /// Checks that one complete response frame stands at the cursor,
    /// advancing the cursor past its terminator; the cursor stays put on
    /// failure.
    pub fn validate(src: &mut Cursor<'_>) -> (r: Result<(), Error>)
        requires
            old(src).wf(),
        ensures
            final(src).wf(),
            final(src).all_bytes() == old(src).all_bytes(),
            match r {
                Ok(()) => response_frame_len(old(src).remaining()) matches Ok(u)
                    && final(src).offset() == old(src).offset() + u,
                Err(e) => response_frame_len(old(src).remaining()) == Err::<int, ErrorKind>(
                    e.kind(),
                ) && *final(src) == *old(src),
            },
    {
        let ghost s = old(src).remaining();
        let mut cur = *src;
        let tag = match crate::bytes::get_u8(&mut cur) {
            Ok(t) => t,
            Err(e) => {
                return Err(e);
            },
        };
        if tag == TAG_BOOLEAN || tag == TAG_NUMBER || tag == TAG_STRING || tag == TAG_ARRAY
            || tag == TAG_BYTES {
            let mut cur2 = *src;
            if let Err(e) = Value::validate(&mut cur2) {
                return Err(e);
            }
            proof {
                lemma_value_len_consumes(s);
            }
            finish_frame(src, cur2)
        } else if tag == TAG_NULL {
            finish_frame(src, cur)
        } else if tag == TAG_ERROR {
            let ghost rest = s.drop_first();
            proof {
                assert(cur.remaining() =~= rest);
            }
            let mlen = match crate::bytes::get_u32(&mut cur) {
                Ok(n) => n,
                Err(e) => {
                    return Err(e);
                },
            };
            if let Err(e) = cur.advance(mlen as usize) {
                return Err(e);
            }
            finish_frame(src, cur)
        } else {
            Err(Error::UnknownCommand)
        }
    }

    /// Decodes the response at the cursor, advancing the cursor past its
    /// structure but not the terminator; the cursor stays put on failure.
    pub fn parse(src: &mut Cursor<'_>) -> (r: Result<Self, Error>)
        requires
            old(src).wf(),
        ensures
            final(src).wf(),
            final(src).all_bytes() == old(src).all_bytes(),
            match r {
                Ok(resp) => parse_response(old(src).remaining()) matches Ok(p) && p.0 == resp@
                    && final(src).offset() == old(src).offset() + p.1,
                Err(e) => parse_response(old(src).remaining()) == Err::<
                    (ResponseView, int),
                    ErrorKind,
                >(e.kind()) && *final(src) == *old(src),
            },
    {
        let ghost s = old(src).remaining();
        let mut cur = *src;
        let tag = match crate::bytes::get_u8(&mut cur) {
            Ok(t) => t,
            Err(e) => {
                return Err(e);
            },
        };
        if tag == TAG_BOOLEAN || tag == TAG_NUMBER || tag == TAG_STRING || tag == TAG_ARRAY
            || tag == TAG_BYTES {
            let mut cur2 = *src;
            match Value::parse(&mut cur2) {
                Ok(v) => {
                    *src = cur2;
                    Ok(Response::Payload(v))
                },
                Err(e) => Err(e),
            }
        } else if tag == TAG_NULL {
            *src = cur;
            Ok(Response::Null)
        } else if tag == TAG_ERROR {
            let ghost rest = s.drop_first();
            proof {
                assert(cur.remaining() =~= rest);
            }
            let mlen = match crate::bytes::get_u32(&mut cur) {
                Ok(n) => n,
                Err(e) => {
                    return Err(e);
                },
            };
            let l = mlen as usize;
            if cur.remaining_len() < l {
                return Err(Error::InvalidBytes);
            }
            let p2 = cur.position();
            let d = cur.data();
            let dl: usize = d.len();
            proof {
                assert(p2 + l <= dl);
            }
            let msg_slice = slice_subrange(d, p2, p2 + l);
            proof {
                assert(msg_slice@ =~= rest.subrange(
                    4,
                    4 + spec_u32_from_le_bytes(rest.take(4)),
                ));
            }
            match crate::value::string_from_utf8(slice_to_vec(msg_slice)) {
                Some(msg) => {
                    cur.set_position(p2 + l);
                    *src = cur;
                    Ok(Response::Error(msg))
                },
                None => Err(Error::InvalidBytes),
            }
        } else {
            Err(Error::UnknownCommand)
        }
    }
}

} // verus!

verus! {

/// One step of the connection handler loop: dispatches the command to
/// the store and wraps what comes back. A Get reads and never mutates; a
/// Set inserts or overwrites and answers with the prior value; a Delete
/// removes and answers with the removed value; absence answers null.
pub fn dispatch(db: &mut crate::storage::Database, cmd: Command) -> (r: Response)
    ensures
        ({
            let k = cmd@.key;
            match cmd@.op {
                crate::command::CommandTypeView::Get => final(db)@ == old(db)@ && (if old(
                    db,
                )@.contains_key(k) {
                    r@ == ResponseView::Payload(old(db)@[k])
                } else {
                    r@ == (ResponseView::Null {  })
                }),
                crate::command::CommandTypeView::SetValue(v) => final(db)@ == old(db)@.insert(
                    k,
                    v,
                ) && (if old(db)@.contains_key(k) {
                    r@ == ResponseView::Payload(old(db)@[k])
                } else {
                    r@ == (ResponseView::Null {  })
                }),
                crate::command::CommandTypeView::Delete => final(db)@ == old(db)@.remove(k)
                    && (if old(db)@.contains_key(k) {
                    r@ == ResponseView::Payload(old(db)@[k])
                } else {
                    r@ == (ResponseView::Null {  })
                }),
            }
        }),
{
    match cmd.op {
        crate::command::CommandType::Get => Response::new(db.get(cmd.key.as_str())),
        crate::command::CommandType::SetValue { value } => Response::new(
            db.set(cmd.key, value),
        ),
        crate::command::CommandType::Delete => Response::new(db.delete(cmd.key.as_str())),
    }
}

} // verus!

verus! {

/// What every frame kind that arrives over the wire offers: a validator
/// that finds one complete frame in a buffer without decoding it, and a
/// parser. Both are tied to the type's spec-level codec, so a caller
/// generic over the frame kind still knows exactly what each call did.
pub trait TcpRead: Sized + View {
    /// The frame walk: the validator's verdict on `s`.
    spec fn spec_frame(s: Seq<u8>) -> Result<int, ErrorKind>;

    /// The structural parse at the front of `s`.
    spec fn spec_parse(s: Seq<u8>) -> Result<(Self::V, int), ErrorKind>;

    /// Checks that one complete frame stands at the cursor and advances
    /// past it; the cursor stays put on failure.
    fn validate(src: &mut Cursor<'_>) -> (r: Result<(), Error>)
        requires
            old(src).wf(),
        ensures
            final(src).wf(),
            final(src).all_bytes() == old(src).all_bytes(),
            match r {
                Ok(()) => Self::spec_frame(old(src).remaining()) matches Ok(u)
                    && final(src).offset() == old(src).offset() + u,
                Err(e) => Self::spec_frame(old(src).remaining()) == Err::<int, ErrorKind>(
                    e.kind(),
                ) && *final(src) == *old(src),
            },
    ;

    /// Decodes the frame at the cursor, advancing past what it consumed;
    /// the cursor stays put on failure.
    fn parse(src: &mut Cursor<'_>) -> (r: Result<Self, Error>)
        requires
            old(src).wf(),
        ensures
            final(src).wf(),
            final(src).all_bytes() == old(src).all_bytes(),
            match r {
                Ok(v) => Self::spec_parse(old(src).remaining()) matches Ok(p) && p.0 == v@
                    && final(src).offset() == old(src).offset() + p.1,
                Err(e) => Self::spec_parse(old(src).remaining()) == Err::<
                    (Self::V, int),
                    ErrorKind,
                >(e.kind()) && *final(src) == *old(src),
            },
    ;
}

/// Anything that implements `to_bytes` can be sent over the wire; the
/// contract ties the bytes to the type's spec-level encoding.
pub trait TcpWrite: Sized + View {
    /// When the value can be serialized: every length field fits.
    spec fn serializable(self) -> bool;

    /// The bytes it serializes to.
    spec fn wire(self) -> Seq<u8>;

    fn to_bytes(self) -> (r: Vec<u8>)
        requires
            self.serializable(),
        ensures
            r@ == self.wire(),
    ;
}

impl TcpRead for Value {
    open spec fn spec_frame(s: Seq<u8>) -> Result<int, ErrorKind> {
        value_len(s)
    }

    open spec fn spec_parse(s: Seq<u8>) -> Result<(ValueView, int), ErrorKind> {
        parse_value(s)
    }

    fn validate(src: &mut Cursor<'_>) -> (r: Result<(), Error>) {
        Value::validate(src)
    }

    fn parse(src: &mut Cursor<'_>) -> (r: Result<Self, Error>) {
        Value::parse(src)
    }
}

impl TcpRead for Command {
    open spec fn spec_frame(s: Seq<u8>) -> Result<int, ErrorKind> {
        command_frame_len(s)
    }

    open spec fn spec_parse(s: Seq<u8>) -> Result<(CommandView, int), ErrorKind> {
        parse_command(s)
    }

    fn validate(src: &mut Cursor<'_>) -> (r: Result<(), Error>) {
        Command::validate(src)
    }

    fn parse(src: &mut Cursor<'_>) -> (r: Result<Self, Error>) {
        Command::parse(src)
    }
}

impl TcpRead for Response {
    open spec fn spec_frame(s: Seq<u8>) -> Result<int, ErrorKind> {
        response_frame_len(s)
    }

    open spec fn spec_parse(s: Seq<u8>) -> Result<(ResponseView, int), ErrorKind> {
        parse_response(s)
    }

    fn validate(src: &mut Cursor<'_>) -> (r: Result<(), Error>) {
        Response::validate(src)
    }

    fn parse(src: &mut Cursor<'_>) -> (r: Result<Self, Error>) {
        Response::parse(src)
    }
}

impl TcpWrite for Value {
    open spec fn serializable(self) -> bool {
        value_wf(self@)
    }

    open spec fn wire(self) -> Seq<u8> {
        encode_value(self@)
    }

    fn to_bytes(self) -> (r: Vec<u8>) {
        Value::to_bytes(self)
    }
}

impl TcpWrite for Command {
    open spec fn serializable(self) -> bool {
        command_wf(self@)
    }

    open spec fn wire(self) -> Seq<u8> {
        encode_command(self@)
    }

    fn to_bytes(self) -> (r: Vec<u8>) {
        Command::to_bytes(self)
    }
}

impl TcpWrite for Response {
    open spec fn serializable(self) -> bool {
        response_wf(self@)
    }

    open spec fn wire(self) -> Seq<u8> {
        encode_response(self@)
    }

    fn to_bytes(self) -> (r: Vec<u8>) {
        Response::to_bytes(self)
    }
}

/// Decoding inverts encoding: a well-formed response's frame, followed
/// by anything, parses back to that response, consuming everything up to
/// the terminator.
pub proof fn lemma_encode_parse_response(r: ResponseView, rest: Seq<u8>)
    requires
        response_wf(r),
    ensures
        parse_response(encode_response(r) + rest) == Ok::<(ResponseView, int), ErrorKind>((
            r,
            encode_response(r).len() - 2,
        )),
{
    lemma_auto_spec_u32_to_from_le_bytes();
    let e = encode_response(r);
    let t = e + rest;
    match r {
        ResponseView::Payload(v) => {
            let ev = encode_value(v);
            match v {
                ValueView::Boolean(_) => assert(t[0] == TAG_BOOLEAN),
                ValueView::Number(_) => assert(t[0] == TAG_NUMBER),
                ValueView::Str(_) => assert(t[0] == TAG_STRING),
                ValueView::Array(_) => assert(t[0] == TAG_ARRAY),
                ValueView::Bytes(_) => assert(t[0] == TAG_BYTES),
            }
            assert(t =~= ev + (seq![TERM_CR, TERM_LF] + rest));
            lemma_encode_parse_value(v, seq![TERM_CR, TERM_LF] + rest);
        },
        ResponseView::Error(m) => {
            let mb = encode_utf8(m);
            let tail = t.drop_first();
            assert(t[0] == TAG_ERROR);
            assert(tail.take(4) =~= spec_u32_to_le_bytes(mb.len() as u32));
            assert(spec_u32_from_le_bytes(tail.take(4)) as int == mb.len() as int);
            assert(tail.subrange(4, 4 + mb.len() as int) =~= mb);
            vstd::utf8::encode_utf8_valid_utf8(m);
            vstd::utf8::encode_utf8_decode_utf8(m);
        },
        ResponseView::Null => {
            assert(t[0] == TAG_NULL);
        },
    }
}

/// The frame walk agrees with the encoder: a well-formed response's
/// frame, followed by anything, is seen as one complete frame of exactly
/// the frame's length.
pub proof fn lemma_encode_response_frame(r: ResponseView, rest: Seq<u8>)
    requires
        response_wf(r),
    ensures
        response_frame_len(encode_response(r) + rest) == Ok::<int, ErrorKind>(
            encode_response(r).len() as int,
        ),
{
    lemma_auto_spec_u32_to_from_le_bytes();
    let e = encode_response(r);
    let t = e + rest;
    match r {
        ResponseView::Payload(v) => {
            let ev = encode_value(v);
            match v {
                ValueView::Boolean(_) => assert(t[0] == TAG_BOOLEAN),
                ValueView::Number(_) => assert(t[0] == TAG_NUMBER),
                ValueView::Str(_) => assert(t[0] == TAG_STRING),
                ValueView::Array(_) => assert(t[0] == TAG_ARRAY),
                ValueView::Bytes(_) => assert(t[0] == TAG_BYTES),
            }
            assert(t =~= ev + (seq![TERM_CR, TERM_LF] + rest));
            lemma_encode_value_len(v, seq![TERM_CR, TERM_LF] + rest);
            assert(t[e.len() - 2] == TERM_CR);
            assert(t[e.len() - 1] == TERM_LF);
        },
        ResponseView::Error(m) => {
            let mb = encode_utf8(m);
            let tail = t.drop_first();
            assert(t[0] == TAG_ERROR);
            assert(tail.take(4) =~= spec_u32_to_le_bytes(mb.len() as u32));
            assert(spec_u32_from_le_bytes(tail.take(4)) as int == mb.len() as int);
            assert(t[e.len() - 2] == TERM_CR);
            assert(t[e.len() - 1] == TERM_LF);
        },
        ResponseView::Null => {
            assert(t[0] == TAG_NULL);
            assert(t[1] == TERM_CR);
            assert(t[2] == TERM_LF);
        },
    }
}

/// Incremental delivery, response side: every strict prefix of a
/// well-formed response's frame is seen as incomplete.
pub proof fn lemma_response_prefix_incomplete(r: ResponseView, p: Seq<u8>)
    requires
        response_wf(r),
        p.len() < encode_response(r).len(),
        p == encode_response(r).take(p.len() as int),
    ensures
        response_frame_len(p) == Err::<int, ErrorKind>(ErrorKind::InvalidBytes),
{
    lemma_auto_spec_u32_to_from_le_bytes();
    let e = encode_response(r);
    if p.len() == 0 {
    } else {
        assert(p[0] == e[0]);
        match r {
            ResponseView::Payload(v) => {
                let ev = encode_value(v);
                match v {
                    ValueView::Boolean(_) => assert(p[0] == TAG_BOOLEAN),
                    ValueView::Number(_) => assert(p[0] == TAG_NUMBER),
                    ValueView::Str(_) => assert(p[0] == TAG_STRING),
                    ValueView::Array(_) => assert(p[0] == TAG_ARRAY),
                    ValueView::Bytes(_) => assert(p[0] == TAG_BYTES),
                }
                if p.len() < ev.len() {
                    assert(p =~= ev.take(p.len() as int));
                    lemma_prefix_value_len(v, p);
                } else {
                    assert(p =~= ev + e.subrange(ev.len() as int, p.len() as int));
                    lemma_encode_value_len(v, e.subrange(ev.len() as int, p.len() as int));
                    assert(p.len() < ev.len() + 2);
                }
            },
            ResponseView::Error(m) => {
                let mb = encode_utf8(m);
                let n = mb.len() as int;
                assert(p[0] == TAG_ERROR);
                let ptail = p.drop_first();
                if p.len() < 5 {
                    assert(ptail.len() < 4);
                } else {
                    assert(ptail.take(4) =~= spec_u32_to_le_bytes(mb.len() as u32));
                    assert(spec_u32_from_le_bytes(ptail.take(4)) as int == n);
                    if p.len() < 5 + n {
                        assert(ptail.len() < 4 + n);
                    } else {
                        assert(p.len() < (5 + n) + 2);
                    }
                }
            },
            ResponseView::Null => {
                assert(p[0] == TAG_NULL);
                assert(p.len() < 1 + 2);
            },
        }
    }
}

} // verus!

verus! {

impl Response {
    /// Whether the response can be encoded: its payload is encodable, or
    /// its message's length fits the 4-byte field.
    pub fn is_encodable(&self) -> (b: bool)
        ensures
            b == response_wf(self@),
    {
        match self {
            Response::Payload(v) => v.is_encodable(),
            Response::Error(m) => (m.as_str().as_bytes().len() as u64) <= (u32::MAX as u64),
            Response::Null => true,
        }
    }
}

} // verus!
