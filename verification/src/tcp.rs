//! A request-header protocol for framed client requests.
//!
//! A raw request starts with a message-type byte, a big-endian two-byte
//! version, and a content-type byte; the content follows, with a 4-byte
//! little-endian length where its size varies. Nested array content is
//! not carried by this header protocol and is refused as an invalid
//! request.

use vstd::prelude::*;
use vstd::bytes::spec_u32_from_le_bytes;
use vstd::slice::{slice_subrange, slice_to_vec};
use vstd::utf8::{valid_utf8, decode_utf8};
use crate::bytes::Cursor;
use crate::error::{DatabaseError, DatabaseResult};

verus! {

/// What a request asks for.
#[derive(Debug, PartialEq, Eq, Structural)]
pub enum MessageType {
    Get,
    SetValue,
    Delete,
}

impl MessageType {
    /// The message type named by the byte: `g`, `s` or `d`.
    fn from_byte(value: u8) -> (r: DatabaseResult<Self>)
        ensures
            match r {
                Ok(m) => (value == 103 && m == MessageType::Get) || (value == 115 && m
                    == MessageType::SetValue) || (value == 100 && m == MessageType::Delete),
                Err(e) => e == (DatabaseError::InvalidRequest {  }) && value != 103 && value
                    != 115 && value != 100,
            },
    {
        match value {
            103 => Ok(MessageType::Get),
            115 => Ok(MessageType::SetValue),
            100 => Ok(MessageType::Delete),
            _ => Err(DatabaseError::InvalidRequest),
        }
    }
}

/// How the request's content is encoded.
#[derive(Debug, PartialEq, Eq, Structural)]
pub enum ContentType {
    Number,
    String,
    Boolean,
    Bytes,
    Array,
}

impl ContentType {
    /// The content type named by the byte.
    fn from_byte(value: u8) -> (r: DatabaseResult<Self>)
        ensures
            match r {
                Ok(c) => (value == 0 && c == ContentType::Number) || (value == 1 && c
                    == ContentType::String) || (value == 3 && c == ContentType::Boolean) || (
                value == 4 && c == ContentType::Bytes) || (value == 5 && c
                    == ContentType::Array),
                Err(e) => e == (DatabaseError::InvalidRequest {  }) && value != 0 && value != 1
                    && value != 3 && value != 4 && value != 5,
            },
    {
        match value {
            0 => Ok(ContentType::Number),
            1 => Ok(ContentType::String),
            3 => Ok(ContentType::Boolean),
            4 => Ok(ContentType::Bytes),
            5 => Ok(ContentType::Array),
            _ => Err(DatabaseError::InvalidRequest),
        }
    }
}

/// A request's content.
#[derive(Debug)]
pub enum Content {
    Number(i64),
    String(String),
    Boolean(bool),
    Bytes(Vec<u8>),
    Array(Vec<Content>),
}

/// The model of a request's content.
pub enum ContentView {
    Number(i64),
    Str(Seq<char>),
    Boolean(bool),
    Bytes(Seq<u8>),
    Array(Seq<ContentView>),
}

/// The model of a content value.
pub open spec fn content_view(c: Content) -> ContentView
    decreases c,
{
    match c {
        Content::Number(n) => ContentView::Number(n),
        Content::String(s) => ContentView::Str(s@),
        Content::Boolean(b) => ContentView::Boolean(b),
        Content::Bytes(b) => ContentView::Bytes(b@),
        Content::Array(a) => ContentView::Array(contents_view(a@)),
    }
}

/// The models of a sequence of content values, in order.
pub open spec fn contents_view(s: Seq<Content>) -> Seq<ContentView>
    decreases s,
{
    if s.len() == 0 {
        Seq::empty()
    } else {
        seq![content_view(s[0])] + contents_view(s.drop_first())
    }
}

impl View for Content {
    type V = ContentView;

    open spec fn view(&self) -> ContentView {
        content_view(*self)
    }
}

/// A framed client request: what it asks for, the protocol version it
/// speaks, and the content it carries.
#[derive(Debug)]
pub struct Request {
    message_type: MessageType,
    version: u16,
    content: Content,
}

/// The model of a request.
pub struct RequestView {
    pub message_type: MessageType,
    pub version: u16,
    pub content: ContentView,
}

impl View for Request {
    type V = RequestView;

    closed spec fn view(&self) -> RequestView {
        RequestView {
            message_type: self.message_type,
            version: self.version,
            content: content_view(self.content),
        }
    }
}

/// The big-endian reading of two bytes.
pub open spec fn spec_u16_be(b0: u8, b1: u8) -> u16 {
    (((b0 as int) * 256 + (b1 as int)) as u16)
}

/// The structural parse of the request at the front of `s`: the decoded
/// model and the bytes consumed. Any malformed or truncated header or
/// content, and array content, is an invalid request.
pub open spec fn parse_request(s: Seq<u8>) -> Result<(RequestView, int), DatabaseError> {
    if s.len() < 1 {
        Err(DatabaseError::InvalidRequest)
    } else if s[0] != 103 && s[0] != 115 && s[0] != 100 {
        Err(DatabaseError::InvalidRequest)
    } else {
        let mt = if s[0] == 103 {
            MessageType::Get
        } else if s[0] == 115 {
            MessageType::SetValue
        } else {
            MessageType::Delete
        };
        if s.len() < 3 {
            Err(DatabaseError::InvalidRequest)
        } else {
            let version = spec_u16_be(s[1], s[2]);
            if s.len() < 4 {
                Err(DatabaseError::InvalidRequest)
            } else if s[3] == 0 {
                if s.len() < 12 {
                    Err(DatabaseError::InvalidRequest)
                } else {
                    let n = vstd::bytes::spec_u64_from_le_bytes(s.subrange(4, 12)) as i64;
                    Ok((
                        RequestView {
                            message_type: mt,
                            version,
                            content: ContentView::Number(n),
                        },
                        12,
                    ))
                }
            } else if s[3] == 3 {
                if s.len() < 5 {
                    Err(DatabaseError::InvalidRequest)
                } else {
                    Ok((
                        RequestView {
                            message_type: mt,
                            version,
                            content: ContentView::Boolean(s[4] != 0),
                        },
                        5,
                    ))
                }
            } else if s[3] == 1 || s[3] == 4 {
                if s.len() < 8 {
                    Err(DatabaseError::InvalidRequest)
                } else {
                    let n = spec_u32_from_le_bytes(s.subrange(4, 8)) as int;
                    if s.len() < 8 + n {
                        Err(DatabaseError::InvalidRequest)
                    } else {
                        let body = s.subrange(8, 8 + n);
                        if s[3] == 4 {
                            Ok((
                                RequestView {
                                    message_type: mt,
                                    version,
                                    content: ContentView::Bytes(body),
                                },
                                8 + n,
                            ))
                        } else if valid_utf8(body) {
                            Ok((
                                RequestView {
                                    message_type: mt,
                                    version,
                                    content: ContentView::Str(decode_utf8(body)),
                                },
                                8 + n,
                            ))
                        } else {
                            Err(DatabaseError::InvalidRequest)
                        }
                    }
                }
            } else {
                Err(DatabaseError::InvalidRequest)
            }
        }
    }
}

/// Reads one byte, reporting an invalid request when none is left.
fn get_u8(cursor: &mut Cursor<'_>) -> (r: DatabaseResult<u8>)
    requires
        old(cursor).wf(),
    ensures
        final(cursor).wf(),
        final(cursor).all_bytes() == old(cursor).all_bytes(),
        match r {
            Ok(b) => old(cursor).remaining().len() >= 1 && b == old(cursor).remaining()[0]
                && final(cursor).offset() == old(cursor).offset() + 1,
            Err(e) => e == (DatabaseError::InvalidRequest {  }) && old(
                cursor,
            ).remaining().len() == 0 && *final(cursor) == *old(cursor),
        },
{
    match crate::bytes::get_u8(cursor) {
        Ok(b) => Ok(b),
        Err(_) => Err(DatabaseError::InvalidRequest),
    }
}

/// Reads the message-type byte.
fn get_message_type(cursor: &mut Cursor<'_>) -> (r: DatabaseResult<MessageType>)
    requires
        old(cursor).wf(),
    ensures
        final(cursor).wf(),
        final(cursor).all_bytes() == old(cursor).all_bytes(),
        match r {
            Ok(m) => old(cursor).remaining().len() >= 1 && final(cursor).offset() == old(
                cursor,
            ).offset() + 1 && ({
                let b = old(cursor).remaining()[0];
                (b == 103 && m == MessageType::Get) || (b == 115 && m == MessageType::SetValue)
                    || (b == 100 && m == MessageType::Delete)
            }),
            Err(e) => e == (DatabaseError::InvalidRequest {  }) && (old(
                cursor,
            ).remaining().len() == 0 || ({
                let b = old(cursor).remaining()[0];
                b != 103 && b != 115 && b != 100
            })),
        },
{
    let b = match get_u8(cursor) {
        Ok(b) => b,
        Err(e) => {
            return Err(e);
        },
    };
    MessageType::from_byte(b)
}

/// Reads the big-endian protocol version.
fn get_version(cursor: &mut Cursor<'_>) -> (r: DatabaseResult<u16>)
    requires
        old(cursor).wf(),
    ensures
        final(cursor).wf(),
        final(cursor).all_bytes() == old(cursor).all_bytes(),
        match r {
            Ok(v) => old(cursor).remaining().len() >= 2 && v == spec_u16_be(
                old(cursor).remaining()[0],
                old(cursor).remaining()[1],
            ) && final(cursor).offset() == old(cursor).offset() + 2,
            Err(e) => e == (DatabaseError::InvalidRequest {  }) && old(
                cursor,
            ).remaining().len() < 2,
        },
{
    let b0 = match get_u8(cursor) {
        Ok(b) => b,
        Err(e) => {
            return Err(e);
        },
    };
    let b1 = match get_u8(cursor) {
        Ok(b) => b,
        Err(e) => {
            return Err(e);
        },
    };
    Ok((b0 as u16) * 256 + (b1 as u16))
}

/// Reads the content-type byte.
fn get_content_type(cursor: &mut Cursor<'_>) -> (r: DatabaseResult<ContentType>)
    requires
        old(cursor).wf(),
    ensures
        final(cursor).wf(),
        final(cursor).all_bytes() == old(cursor).all_bytes(),
        match r {
            Ok(c) => old(cursor).remaining().len() >= 1 && final(cursor).offset() == old(
                cursor,
            ).offset() + 1 && ({
                let b = old(cursor).remaining()[0];
                (b == 0 && c == ContentType::Number) || (b == 1 && c == ContentType::String)
                    || (b == 3 && c == ContentType::Boolean) || (b == 4 && c
                    == ContentType::Bytes) || (b == 5 && c == ContentType::Array)
            }),
            Err(e) => e == (DatabaseError::InvalidRequest {  }) && (old(
                cursor,
            ).remaining().len() == 0 || ({
                let b = old(cursor).remaining()[0];
                b != 0 && b != 1 && b != 3 && b != 4 && b != 5
            })),
        },
{
    let b = match get_u8(cursor) {
        Ok(b) => b,
        Err(e) => {
            return Err(e);
        },
    };
    ContentType::from_byte(b)
}

impl Request {
    /// Decodes the request at the cursor, advancing the cursor just past
    /// it; the cursor stays put on failure.
    pub fn from_cursor(cursor: &mut Cursor<'_>) -> (r: DatabaseResult<Self>)
        requires
            old(cursor).wf(),
        ensures
            final(cursor).wf(),
            final(cursor).all_bytes() == old(cursor).all_bytes(),
            match r {
                Ok(req) => parse_request(old(cursor).remaining()) matches Ok(p) && p.0 == req@
                    && final(cursor).offset() == old(cursor).offset() + p.1,
                Err(e) => parse_request(old(cursor).remaining()) == Err::<
                    (RequestView, int),
                    DatabaseError,
                >(e) && *final(cursor) == *old(cursor),
            },
    {
        let ghost s = old(cursor).remaining();
        let mut cur = *cursor;
        proof {
            assert(cur.remaining() =~= s);
        }
        let message_type = match get_message_type(&mut cur) {
            Ok(m) => m,
            Err(e) => {
                return Err(e);
            },
        };
        proof {
            assert(cur.remaining() =~= s.skip(1));
        }
        let version = match get_version(&mut cur) {
            Ok(v) => v,
            Err(e) => {
                return Err(e);
            },
        };
        proof {
            assert(cur.remaining() =~= s.skip(3));
            assert(s.skip(1)[0] == s[1] && s.skip(1)[1] == s[2]);
        }
        let content_type = match get_content_type(&mut cur) {
            Ok(c) => c,
            Err(e) => {
                return Err(e);
            },
        };
        proof {
            assert(cur.remaining() =~= s.skip(4));
            assert(s.skip(3)[0] == s[3]);
        }
        let content = match content_type {
            ContentType::Number => {
                match crate::bytes::get_i64(&mut cur) {
                    Ok(n) => {
                        proof {
                            assert(s.skip(4).take(8) =~= s.subrange(4, 12));
                        }
                        Content::Number(n)
                    },
                    Err(_) => {
                        return Err(DatabaseError::InvalidRequest);
                    },
                }
            },
            ContentType::Boolean => {
                match crate::bytes::get_bool(&mut cur) {
                    Ok(b) => Content::Boolean(b),
                    Err(_) => {
                        return Err(DatabaseError::InvalidRequest);
                    },
                }
            },
            ContentType::String | ContentType::Bytes => {
                let is_text = match content_type {
                    ContentType::String => true,
                    _ => false,
                };
                let len = match crate::bytes::get_u32(&mut cur) {
                    Ok(n) => n,
                    Err(_) => {
                        return Err(DatabaseError::InvalidRequest);
                    },
                };
                proof {
                    assert(s.skip(4).take(4) =~= s.subrange(4, 8));
                }
                let l = len as usize;
                if cur.remaining_len() < l {
                    return Err(DatabaseError::InvalidRequest);
                }
                let p2 = cur.position();
                let d = cur.data();
                let dl: usize = d.len();
                proof {
                    assert(p2 + l <= dl);
                }
                let body = slice_subrange(d, p2, p2 + l);
                proof {
                    assert(s.len() >= 8);
                    assert(body@ =~= s.subrange(
                        8,
                        8 + spec_u32_from_le_bytes(s.subrange(4, 8)),
                    ));
                }
                cur.set_position(p2 + l);
                if is_text {
                    match crate::value::string_from_utf8(slice_to_vec(body)) {
                        Some(st) => Content::String(st),
                        None => {
                            return Err(DatabaseError::InvalidRequest);
                        },
                    }
                } else {
                    Content::Bytes(slice_to_vec(body))
                }
            },
            ContentType::Array => {
                return Err(DatabaseError::InvalidRequest);
            },
        };
        *cursor = cur;
        Ok(Request { message_type, version, content })
    }
}

} // verus!
