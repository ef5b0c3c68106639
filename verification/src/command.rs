//! Command frames: a key plus an operation, as they travel to the server.
//!
//! A command frame is a tag byte (`g`et, `s`et, `d`elete), a 4-byte
//! little-endian key length, the UTF-8 key bytes, for Set a nested
//! [`Value`], and the two-byte carriage-return line-feed terminator.

use vstd::prelude::*;
use vstd::bytes::{
    spec_u32_to_le_bytes, spec_u32_from_le_bytes, u32_to_le_bytes,
    lemma_auto_spec_u32_to_from_le_bytes,
};
use vstd::slice::{slice_subrange, slice_to_vec};
use vstd::utf8::{valid_utf8, decode_utf8, encode_utf8};
use crate::bytes::Cursor;
use crate::error::{Error, ErrorKind};
use crate::value::{
    Value, ValueView, value_wf, encode_value, parse_value, value_len, append_bytes,
    lemma_encode_parse_value, lemma_encode_value_len, lemma_prefix_value_len,
    lemma_value_len_consumes, TERM_CR, TERM_LF,
};

verus! {

/// Wire tag of a Get command.
pub const TAG_GET: u8 = 103;

/// Wire tag of a Set command.
pub const TAG_SET: u8 = 115;

/// Wire tag of a Delete command.
pub const TAG_DELETE: u8 = 100;

/// The operation a command asks for.
#[derive(Debug, PartialEq)]
pub enum CommandType {
    Get,
    SetValue { value: Value },
    Delete,
}

/// A command: the key it concerns plus the operation.
#[derive(Debug, PartialEq)]
pub struct Command {
    /// Common field for all commands.
    pub key: String,
    pub op: CommandType,
}

/// The model of a command's operation.
pub enum CommandTypeView {
    Get,
    SetValue(ValueView),
    Delete,
}

/// The model of a command.
pub struct CommandView {
    pub key: Seq<char>,
    pub op: CommandTypeView,
}

impl View for CommandType {
    type V = CommandTypeView;

    open spec fn view(&self) -> CommandTypeView {
        match self {
            CommandType::Get => CommandTypeView::Get,
            CommandType::SetValue { value } => CommandTypeView::SetValue(value@),
            CommandType::Delete => CommandTypeView::Delete,
        }
    }
}

impl View for Command {
    type V = CommandView;

    open spec fn view(&self) -> CommandView {
        CommandView { key: self.key@, op: self.op@ }
    }
}

/// The tag byte of an operation.
pub open spec fn command_tag(op: CommandTypeView) -> u8 {
    match op {
        CommandTypeView::Get => TAG_GET,
        CommandTypeView::SetValue(_) => TAG_SET,
        CommandTypeView::Delete => TAG_DELETE,
    }
}

/// A command is encodable when its key's UTF-8 length fits the 4-byte
/// field and, for Set, the value is encodable.
pub open spec fn command_wf(c: CommandView) -> bool {
    &&& encode_utf8(c.key).len() <= u32::MAX
    &&& match c.op {
        CommandTypeView::SetValue(v) => value_wf(v),
        _ => true,
    }
}

/// The wire encoding of a command, terminator included.
pub open spec fn encode_command(c: CommandView) -> Seq<u8> {
    let kb = encode_utf8(c.key);
    seq![command_tag(c.op)] + spec_u32_to_le_bytes(kb.len() as u32) + kb + (match c.op {
        CommandTypeView::SetValue(v) => encode_value(v),
        _ => Seq::empty(),
    }) + seq![TERM_CR, TERM_LF]
}

/// The structural parse of the command at the front of `s`, up to but not
/// including the terminator: the decoded model and the bytes consumed.
pub open spec fn parse_command(s: Seq<u8>) -> Result<(CommandView, int), ErrorKind> {
    if s.len() == 0 {
        Err(ErrorKind::InvalidBytes)
    } else {
        let tag = s[0];
        if tag != TAG_GET && tag != TAG_SET && tag != TAG_DELETE {
            Err(ErrorKind::UnknownCommand)
        } else {
            let rest = s.drop_first();
            if rest.len() < 4 {
                Err(ErrorKind::InvalidBytes)
            } else {
                let n = spec_u32_from_le_bytes(rest.take(4)) as int;
                if rest.len() < 4 + n {
                    Err(ErrorKind::InvalidBytes)
                } else {
                    let kb = rest.subrange(4, 4 + n);
                    if !valid_utf8(kb) {
                        Err(ErrorKind::BadRequest)
                    } else {
                        let key = decode_utf8(kb);
                        if tag == TAG_GET {
                            Ok((CommandView { key, op: CommandTypeView::Get }, 5 + n))
                        } else if tag == TAG_DELETE {
                            Ok((CommandView { key, op: CommandTypeView::Delete }, 5 + n))
                        } else {
                            match parse_value(rest.skip(4 + n)) {
                                Ok(p) => Ok((
                                    CommandView { key, op: CommandTypeView::SetValue(p.0) },
                                    5 + n + p.1,
                                )),
                                Err(k) => Err(k),
                            }
                        }
                    }
                }
            }
        }
    }
}

/// The length of the complete command frame at the front of `s`,
/// terminator included, walking the declared length fields without
/// decoding. Too few bytes anywhere is `InvalidBytes`; an unrecognized
/// leading tag is `UnknownCommand`; a structure not followed by the
/// terminator is `BadRequest`.
pub open spec fn command_frame_len(s: Seq<u8>) -> Result<int, ErrorKind> {
    if s.len() == 0 {
        Err(ErrorKind::InvalidBytes)
    } else {
        let tag = s[0];
        if tag != TAG_GET && tag != TAG_SET && tag != TAG_DELETE {
            Err(ErrorKind::UnknownCommand)
        } else {
            let rest = s.drop_first();
            if rest.len() < 4 {
                Err(ErrorKind::InvalidBytes)
            } else {
                let n = spec_u32_from_le_bytes(rest.take(4)) as int;
                if rest.len() < 4 + n {
                    Err(ErrorKind::InvalidBytes)
                } else if tag == TAG_SET {
                    match value_len(rest.skip(4 + n)) {
                        Ok(u) => frame_terminated(s, 5 + n + u),
                        Err(k) => Err(k),
                    }
                } else {
                    frame_terminated(s, 5 + n)
                }
            }
        }
    }
}

/// The frame verdict once the structure before the terminator is known to
/// end at `after`: complete when the two terminator bytes follow.
pub open spec fn frame_terminated(s: Seq<u8>, after: int) -> Result<int, ErrorKind> {
    if s.len() < after + 2 {
        Err(ErrorKind::InvalidBytes)
    } else if s[after] == TERM_CR && s[after + 1] == TERM_LF {
        Ok(after + 2)
    } else {
        Err(ErrorKind::BadRequest)
    }
}

impl Command {
    /// A Get command for the key.
    pub fn get(key: &str) -> (c: Self)
        ensures
            c@.key == key@,
            c@.op == CommandTypeView::Get,
    {
        Self { key: key.to_owned(), op: CommandType::Get }
    }

    /// A Set command binding the key to the value.
    pub fn set(key: &str, value: Value) -> (c: Self)
        ensures
            c@.key == key@,
            c@.op == CommandTypeView::SetValue(value@),
    {
        Self { key: key.to_owned(), op: CommandType::SetValue { value } }
    }

    /// A Delete command for the key.
    pub fn delete(key: &str) -> (c: Self)
        ensures
            c@.key == key@,
            c@.op == CommandTypeView::Delete,
    {
        Self { key: key.to_owned(), op: CommandType::Delete }
    }

    /// The tag byte of this command's operation.
    fn byte_type(&self) -> (t: u8)
        ensures
            t == command_tag(self@.op),
    {
        match &self.op {
            CommandType::Get => TAG_GET,
            CommandType::SetValue { value: _ } => TAG_SET,
            CommandType::Delete => TAG_DELETE,
        }
    }

    /// Accepts exactly the three known command tags.
    fn validate_command_type(command_type: u8) -> (r: Result<(), Error>)
        ensures
            match r {
                Ok(()) => command_type == TAG_GET || command_type == TAG_SET || command_type
                    == TAG_DELETE,
                Err(e) => e == (Error::UnknownCommand {  }) && command_type != TAG_GET
                    && command_type != TAG_SET && command_type != TAG_DELETE,
            },
    {
        if command_type == TAG_GET || command_type == TAG_SET || command_type == TAG_DELETE {
            Ok(())
        } else {
            Err(Error::UnknownCommand)
        }
    }

    /// Serializes the command to its wire bytes, terminator included.
    pub fn to_bytes(self) -> (r: Vec<u8>)
        requires
            command_wf(self@),
        ensures
            r@ == encode_command(self@),
    {
        let mut out: Vec<u8> = Vec::new();
        out.push(self.byte_type());
        let kb = self.key.as_str().as_bytes();
        let le = u32_to_le_bytes(kb.len() as u32);
        append_bytes(&mut out, le.as_slice());
        append_bytes(&mut out, kb);
        if let CommandType::SetValue { value } = self.op {
            let vb = value.to_bytes();
            append_bytes(&mut out, vb.as_slice());
        }
        out.push(TERM_CR);
        out.push(TERM_LF);
        proof {
            assert(out@ =~= encode_command(self@));
        }
        out
    }

    /// Checks that one complete command frame stands at the cursor,
    /// advancing the cursor past its terminator; the cursor stays put on
    /// failure.
    pub fn validate(src: &mut Cursor<'_>) -> (r: Result<(), Error>)
        requires
            old(src).wf(),
        ensures
            final(src).wf(),
            final(src).all_bytes() == old(src).all_bytes(),
            match r {
                Ok(()) => command_frame_len(old(src).remaining()) matches Ok(u)
                    && final(src).offset() == old(src).offset() + u,
                Err(e) => command_frame_len(old(src).remaining()) == Err::<int, ErrorKind>(
                    e.kind(),
                ) && *final(src) == *old(src),
            },
    {
        let ghost s = old(src).remaining();
        let mut cur = *src;
        let tag = match crate::bytes::get_u8(&mut cur) {
            Ok(t) => t,
            Err(e) => {
                return Err(e);
            },
        };
        if let Err(e) = Self::validate_command_type(tag) {
            return Err(e);
        }
        let ghost rest = s.drop_first();
        proof {
            assert(cur.remaining() =~= rest);
        }
        let klen = match crate::bytes::get_u32(&mut cur) {
            Ok(n) => n,
            Err(e) => {
                return Err(e);
            },
        };
        if let Err(e) = cur.advance(klen as usize) {
            return Err(e);
        }
        if tag == TAG_SET {
            proof {
                assert(cur.remaining() =~= rest.skip(4 + spec_u32_from_le_bytes(rest.take(4))));
            }
            if let Err(e) = Value::validate(&mut cur) {
                return Err(e);
            }
            proof {
                lemma_value_len_consumes(rest.skip(4 + spec_u32_from_le_bytes(rest.take(4))));
            }
        }
        finish_frame(src, cur)
    }

    /// Decodes the command at the cursor, advancing the cursor past its
    /// structure but not the terminator; the cursor stays put on failure.
    pub fn parse(src: &mut Cursor<'_>) -> (r: Result<Self, Error>)
        requires
            old(src).wf(),
        ensures
            final(src).wf(),
            final(src).all_bytes() == old(src).all_bytes(),
            match r {
                Ok(c) => parse_command(old(src).remaining()) matches Ok(p) && p.0 == c@
                    && final(src).offset() == old(src).offset() + p.1,
                Err(e) => parse_command(old(src).remaining()) == Err::<
                    (CommandView, int),
                    ErrorKind,
                >(e.kind()) && *final(src) == *old(src),
            },
    {
        let ghost s = old(src).remaining();
        let mut cur = *src;
        let tag = match crate::bytes::get_u8(&mut cur) {
            Ok(t) => t,
            Err(e) => {
                return Err(e);
            },
        };
        if let Err(e) = Self::validate_command_type(tag) {
            return Err(e);
        }
        let ghost rest = s.drop_first();
        proof {
            assert(cur.remaining() =~= rest);
        }
        let klen = match crate::bytes::get_u32(&mut cur) {
            Ok(n) => n,
            Err(e) => {
                return Err(e);
            },
        };
        let l = klen as usize;
        if cur.remaining_len() < l {
            return Err(Error::InvalidBytes);
        }
        let p2 = cur.position();
        let d = cur.data();
        let dl: usize = d.len();
        proof {
            assert(p2 + l <= dl);
        }
        let key_slice = slice_subrange(d, p2, p2 + l);
        proof {
            assert(key_slice@ =~= rest.subrange(4, 4 + spec_u32_from_le_bytes(rest.take(4))));
        }
        let key = match crate::value::string_from_utf8(slice_to_vec(key_slice)) {
            Some(k) => k,
            None => {
                return Err(Error::BadRequest { msg: "Invalid key utf-8 encoding".to_owned() });
            },
        };
        cur.set_position(p2 + l);
        if tag == TAG_GET {
            *src = cur;
            Ok(Command { key, op: CommandType::Get })
        } else if tag == TAG_DELETE {
            *src = cur;
            Ok(Command { key, op: CommandType::Delete })
        } else {
            proof {
                assert(cur.remaining() =~= rest.skip(4 + spec_u32_from_le_bytes(rest.take(4))));
            }
            match Value::parse(&mut cur) {
                Ok(value) => {
                    *src = cur;
                    Ok(Command { key, op: CommandType::SetValue { value } })
                },
                Err(e) => Err(e),
            }
        }
    }
}

/// Finishes a frame walk: checks the two terminator bytes at `cur` and
/// commits the advanced position to `src`.
pub(crate) fn finish_frame<'a>(src: &mut Cursor<'a>, cur0: Cursor<'a>) -> (r: Result<(), Error>)
    requires
        old(src).wf(),
        cur0.wf(),
        cur0.all_bytes() == old(src).all_bytes(),
        old(src).offset() <= cur0.offset(),
    ensures
        final(src).wf(),
        final(src).all_bytes() == old(src).all_bytes(),
        match r {
            Ok(()) => frame_terminated(old(src).remaining(), cur0.offset() - old(src).offset())
                matches Ok(u) && final(src).offset() == old(src).offset() + u,
            Err(e) => frame_terminated(old(src).remaining(), cur0.offset() - old(src).offset())
                == Err::<int, ErrorKind>(e.kind()) && *final(src) == *old(src),
        },
{
    let mut cur = cur0;
    let b1 = match crate::bytes::get_u8(&mut cur) {
        Ok(b) => b,
        Err(e) => {
            return Err(e);
        },
    };
    let b2 = match crate::bytes::get_u8(&mut cur) {
        Ok(b) => b,
        Err(e) => {
            return Err(e);
        },
    };
    if b1 == TERM_CR && b2 == TERM_LF {
        *src = cur;
        Ok(())
    } else {
        Err(Error::BadRequest { msg: "Invalid frame terminator".to_owned() })
    }
}

} // verus!

verus! {

/// Decoding inverts encoding: a well-formed command's frame, followed by
/// anything, parses back to that command, consuming everything up to the
/// terminator.
pub proof fn lemma_encode_parse_command(c: CommandView, rest: Seq<u8>)
    requires
        command_wf(c),
    ensures
        parse_command(encode_command(c) + rest) == Ok::<(CommandView, int), ErrorKind>((
            c,
            encode_command(c).len() - 2,
        )),
{
    lemma_auto_spec_u32_to_from_le_bytes();
    let e = encode_command(c);
    let t = e + rest;
    let kb = encode_utf8(c.key);
    let tail = t.drop_first();
    assert(t[0] == command_tag(c.op));
    assert(tail.take(4) =~= spec_u32_to_le_bytes(kb.len() as u32));
    assert(spec_u32_from_le_bytes(tail.take(4)) as int == kb.len() as int);
    assert(tail.subrange(4, 4 + kb.len() as int) =~= kb);
    vstd::utf8::encode_utf8_valid_utf8(c.key);
    vstd::utf8::encode_utf8_decode_utf8(c.key);
    match c.op {
        CommandTypeView::SetValue(v) => {
            let ev = encode_value(v);
            assert(tail.skip(4 + kb.len() as int) =~= ev + (seq![TERM_CR, TERM_LF] + rest));
            lemma_encode_parse_value(v, seq![TERM_CR, TERM_LF] + rest);
        },
        _ => {},
    }
}

/// The frame walk agrees with the encoder: a well-formed command's frame,
/// followed by anything, is seen as one complete frame of exactly the
/// frame's length.
pub proof fn lemma_encode_command_frame(c: CommandView, rest: Seq<u8>)
    requires
        command_wf(c),
    ensures
        command_frame_len(encode_command(c) + rest) == Ok::<int, ErrorKind>(
            encode_command(c).len() as int,
        ),
{
    lemma_auto_spec_u32_to_from_le_bytes();
    let e = encode_command(c);
    let t = e + rest;
    let kb = encode_utf8(c.key);
    let tail = t.drop_first();
    assert(t[0] == command_tag(c.op));
    assert(tail.take(4) =~= spec_u32_to_le_bytes(kb.len() as u32));
    assert(spec_u32_from_le_bytes(tail.take(4)) as int == kb.len() as int);
    match c.op {
        CommandTypeView::SetValue(v) => {
            let ev = encode_value(v);
            assert(tail.skip(4 + kb.len() as int) =~= ev + (seq![TERM_CR, TERM_LF] + rest));
            lemma_encode_value_len(v, seq![TERM_CR, TERM_LF] + rest);
            assert(t[e.len() - 2] == TERM_CR);
            assert(t[e.len() - 1] == TERM_LF);
        },
        _ => {
            assert(t[e.len() - 2] == TERM_CR);
            assert(t[e.len() - 1] == TERM_LF);
        },
    }
}

/// Incremental delivery, frame side: every strict prefix of a well-formed
/// command's frame is seen as incomplete, so the framing engine keeps
/// waiting; nothing else can be carved out of it.
pub proof fn lemma_command_prefix_incomplete(c: CommandView, p: Seq<u8>)
    requires
        command_wf(c),
        p.len() < encode_command(c).len(),
        p == encode_command(c).take(p.len() as int),
    ensures
        command_frame_len(p) == Err::<int, ErrorKind>(ErrorKind::InvalidBytes),
{
    lemma_auto_spec_u32_to_from_le_bytes();
    let e = encode_command(c);
    let kb = encode_utf8(c.key);
    let n = kb.len() as int;
    if p.len() == 0 {
    } else {
        assert(p[0] == command_tag(c.op));
        let ptail = p.drop_first();
        if p.len() < 5 {
            assert(ptail.len() < 4);
        } else {
            assert(ptail.take(4) =~= spec_u32_to_le_bytes(kb.len() as u32));
            assert(spec_u32_from_le_bytes(ptail.take(4)) as int == n);
            if p.len() < 5 + n {
                assert(ptail.len() < 4 + n);
            } else {
                match c.op {
                    CommandTypeView::SetValue(v) => {
                        let ev = encode_value(v);
                        let sub = ptail.skip(4 + n);
                        if p.len() < 5 + n + ev.len() {
                            assert(sub =~= ev.take(p.len() - 5 - n));
                            lemma_prefix_value_len(v, sub);
                        } else {
                            assert(sub =~= ev + (e + Seq::empty()).subrange(
                                5 + n + ev.len() as int,
                                p.len() as int,
                            ));
                            lemma_encode_value_len(
                                v,
                                (e + Seq::empty()).subrange(
                                    5 + n + ev.len() as int,
                                    p.len() as int,
                                ),
                            );
                            assert(p.len() < (5 + n + ev.len()) + 2);
                        }
                    },
                    _ => {
                        assert(p.len() < (5 + n) + 2);
                    },
                }
            }
        }
    }
}

/// A frame whose leading byte is no recognized command tag is refused as
/// an unknown command, never treated as any valid operation.
pub proof fn lemma_unknown_command_tag(s: Seq<u8>)
    requires
        s.len() > 0,
        s[0] != TAG_GET,
        s[0] != TAG_SET,
        s[0] != TAG_DELETE,
    ensures
        command_frame_len(s) == Err::<int, ErrorKind>(ErrorKind::UnknownCommand),
        parse_command(s) == Err::<(CommandView, int), ErrorKind>(ErrorKind::UnknownCommand),
{
}

/// The position of the first carriage-return line-feed pair in `s`, if any.
pub open spec fn spec_find_crlf(s: Seq<u8>) -> Option<int>
    decreases s.len(),
{
    if s.len() < 2 {
        None
    } else if s[0] == TERM_CR && s[1] == TERM_LF {
        Some(0)
    } else {
        match spec_find_crlf(s.drop_first()) {
            Some(i) => Some(i + 1),
            None => None,
        }
    }
}

/// What [`spec_find_crlf`] finds is the first terminator pair; when it
/// finds none, there is none.
pub proof fn lemma_find_crlf(s: Seq<u8>)
    ensures
        match spec_find_crlf(s) {
            Some(i) => 0 <= i && i + 1 < s.len() && s[i] == TERM_CR && s[i + 1] == TERM_LF
                && (forall|j: int|
                0 <= j < i ==> !(#[trigger] s[j] == TERM_CR && s[j + 1] == TERM_LF)),
            None => forall|j: int|
                0 <= j && j + 1 < s.len() ==> !(#[trigger] s[j] == TERM_CR && s[j + 1]
                    == TERM_LF),
        },
    decreases s.len(),
{
    if s.len() >= 2 {
        if !(s[0] == TERM_CR && s[1] == TERM_LF) {
            let t = s.drop_first();
            lemma_find_crlf(t);
            match spec_find_crlf(t) {
                Some(i) => {
                    assert(s[i + 1] == t[i] && s[i + 2] == t[i + 1]);
                    assert forall|j: int| 0 <= j < i + 1 implies !(#[trigger] s[j] == TERM_CR
                        && s[j + 1] == TERM_LF) by {
                        if j > 0 {
                            assert(t[j - 1] == s[j]);
                            assert(t[j] == s[j + 1]);
                        }
                    }
                },
                None => {
                    assert forall|j: int| 0 <= j && j + 1 < s.len() implies !(#[trigger] s[j]
                        == TERM_CR && s[j + 1] == TERM_LF) by {
                        if j > 0 {
                            assert(t[j - 1] == s[j]);
                            assert(t[j] == s[j + 1]);
                        }
                    }
                },
            }
        }
    }
}

/// Returns the buffered bytes up to the first terminator pair, advancing
/// the cursor past that pair; with no terminator buffered yet it reports
/// the input incomplete and stays put.
#[verifier::loop_isolation(false)]
pub fn get_line<'a>(src: &mut Cursor<'a>) -> (r: Result<&'a [u8], Error>)
    requires
        old(src).wf(),
    ensures
        final(src).wf(),
        final(src).all_bytes() == old(src).all_bytes(),
        match r {
            Ok(line) => spec_find_crlf(old(src).remaining()) matches Some(i) && line@ == old(
                src,
            ).remaining().take(i) && final(src).offset() == old(src).offset() + i + 2,
            Err(e) => e == (Error::Incomplete {  }) && spec_find_crlf(old(src).remaining())
                is None && *final(src) == *old(src),
        },
{
    let ghost s = old(src).remaining();
    proof {
        lemma_find_crlf(s);
    }
    let d = src.data();
    let start = src.position();
    let dl: usize = d.len();
    let mut i: usize = start;
    while i < dl && i + 1 < dl
        invariant
            *src == *old(src),
            start <= i,
            i <= dl,
            forall|j: int| 0 <= j < i - start ==> !(#[trigger] s[j] == TERM_CR && s[j + 1]
                == TERM_LF),
        decreases dl - i,
    {
        if d[i] == TERM_CR && d[i + 1] == TERM_LF {
            proof {
                assert(s[i - start] == TERM_CR && s[i - start + 1] == TERM_LF);
                assert(spec_find_crlf(s) matches Some(k) ==> k == i - start);
            }
            let line = slice_subrange(d, start, i);
            proof {
                assert(line@ =~= s.take(i - start));
            }
            src.set_position(i + 2);
            return Ok(line);
        }
        i = i + 1;
    }
    Err(Error::Incomplete)
}

} // verus!

verus! {

impl Command {
    /// Whether the command can be encoded: the key's length fits its
    /// 4-byte field and, for Set, the value is encodable.
    pub fn is_encodable(&self) -> (b: bool)
        ensures
            b == command_wf(self@),
    {
        if (self.key.as_str().as_bytes().len() as u64) > (u32::MAX as u64) {
            return false;
        }
        match &self.op {
            CommandType::SetValue { value } => value.is_encodable(),
            _ => true,
        }
    }
}

} // verus!
