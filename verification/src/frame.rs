//! The framing engine: turns an accumulating byte stream into frames.
//!
//! A [`FrameBuffer`] owns the growable receive buffer. The owner of the
//! transport appends whatever bytes arrive with [`FrameBuffer::feed`],
//! asks [`FrameBuffer::try_read_command`] (or `try_read_response`) to
//! carve one complete frame out of the front — validate, then parse,
//! then advance past the consumed bytes — and, when the transport
//! reports end-of-stream, asks [`FrameBuffer::on_peer_closed`] whether
//! that was a clean close between frames or a truncated frame.
//!
//! Frame completeness is decided by walking the frames' declared length
//! fields and then requiring the two-byte terminator, never by scanning
//! for the terminator bytes: string and blob payloads may legitimately
//! contain that byte pair, and a scan would split such a frame early.
//! A connection whose buffer starts with a frame that can never become
//! complete — an unknown tag, or a structure not followed by the
//! terminator — gets that verdict back unchanged on every call; the
//! caller's stated policy is to drop such a connection rather than to
//! guess how many bytes to skip.

use vstd::prelude::*;
use crate::bytes::Cursor;
use crate::error::{Error, ErrorKind};
use crate::command::{
    Command, CommandView, encode_command, parse_command, command_frame_len, command_wf,
    lemma_command_prefix_incomplete, lemma_encode_command_frame, lemma_encode_parse_command,
};
use crate::protocol::{Response, parse_response, response_frame_len};

verus! {

/// The accumulation buffer of one connection.
pub struct FrameBuffer {
    buf: Vec<u8>,
}

impl View for FrameBuffer {
    type V = Seq<u8>;

    closed spec fn view(&self) -> Seq<u8> {
        self.buf@
    }
}

impl FrameBuffer {
    /// An empty buffer.
    pub fn new() -> (b: Self)
        ensures
            b@ == Seq::<u8>::empty(),
    {
        FrameBuffer { buf: Vec::new() }
    }

    /// Appends bytes received from the transport.
    pub fn feed(&mut self, chunk: &[u8])
        ensures
            final(self)@ == old(self)@ + chunk@,
    {
        crate::value::append_bytes(&mut self.buf, chunk);
    }

    /// How many bytes are buffered.
    pub fn len(&self) -> (n: usize)
        ensures
            n == self@.len(),
    {
        self.buf.len()
    }

    /// Whether nothing is buffered.
    pub fn is_empty(&self) -> (b: bool)
        ensures
            b == (self@.len() == 0),
    {
        self.buf.len() == 0
    }

    /// Tries to carve one complete command frame out of the front of the
    /// buffer. With no complete frame yet it reports nothing and keeps
    /// every byte; a complete frame is decoded and its bytes, terminator
    /// included, are consumed; a malformed frame is reported and kept.
    pub fn try_read_command(&mut self) -> (r: Result<Option<Command>, Error>)
        ensures
            match r {
                Ok(Some(c)) => command_frame_len(old(self)@) matches Ok(u) && parse_command(
                    old(self)@,
                ) matches Ok(p) && p.0 == c@ && final(self)@ == old(self)@.skip(u),
                Ok(None) => final(self)@ == old(self)@ && (old(self)@.len() == 0
                    || command_frame_len(old(self)@) == Err::<int, ErrorKind>(
                    ErrorKind::InvalidBytes,
                )),
                Err(e) => final(self)@ == old(self)@ && (match command_frame_len(old(self)@) {
                    Ok(_) => parse_command(old(self)@) == Err::<(CommandView, int), ErrorKind>(
                        e.kind(),
                    ),
                    Err(k) => k == e.kind() && k != (ErrorKind::InvalidBytes {  }),
                }),
            },
    {
        if self.buf.len() == 0 {
            return Ok(None);
        }
        let mut cur = Cursor::new(self.buf.as_slice());
        proof {
            assert(cur.remaining() =~= self.buf@);
        }
        match Command::validate(&mut cur) {
            Ok(()) => {
                let req_len = cur.position();
                let mut cur2 = Cursor::new(self.buf.as_slice());
                proof {
                    assert(cur2.remaining() =~= self.buf@);
                }
                match Command::parse(&mut cur2) {
                    Ok(c) => {
                        let tail = self.buf.split_off(req_len);
                        self.buf = tail;
                        Ok(Some(c))
                    },
                    Err(e) => Err(e),
                }
            },
            Err(e) => match e {
                Error::InvalidBytes => Ok(None),
                _ => Err(e),
            },
        }
    }

    /// Tries to carve one complete response frame out of the front of
    /// the buffer, exactly as [`FrameBuffer::try_read_command`] does for
    /// commands.
    pub fn try_read_response(&mut self) -> (r: Result<Option<Response>, Error>)
        ensures
            match r {
                Ok(Some(resp)) => response_frame_len(old(self)@) matches Ok(u) && parse_response(
                    old(self)@,
                ) matches Ok(p) && p.0 == resp@ && final(self)@ == old(self)@.skip(u),
                Ok(None) => final(self)@ == old(self)@ && (old(self)@.len() == 0
                    || response_frame_len(old(self)@) == Err::<int, ErrorKind>(
                    ErrorKind::InvalidBytes,
                )),
                Err(e) => final(self)@ == old(self)@ && (match response_frame_len(old(self)@) {
                    Ok(_) => parse_response(old(self)@) == Err::<
                        (crate::protocol::ResponseView, int),
                        ErrorKind,
                    >(e.kind()),
                    Err(k) => k == e.kind() && k != (ErrorKind::InvalidBytes {  }),
                }),
            },
    {
        if self.buf.len() == 0 {
            return Ok(None);
        }
        let mut cur = Cursor::new(self.buf.as_slice());
        proof {
            assert(cur.remaining() =~= self.buf@);
        }
        match Response::validate(&mut cur) {
            Ok(()) => {
                let req_len = cur.position();
                let mut cur2 = Cursor::new(self.buf.as_slice());
                proof {
                    assert(cur2.remaining() =~= self.buf@);
                }
                match Response::parse(&mut cur2) {
                    Ok(resp) => {
                        let tail = self.buf.split_off(req_len);
                        self.buf = tail;
                        Ok(Some(resp))
                    },
                    Err(e) => Err(e),
                }
            },
            Err(e) => match e {
                Error::InvalidBytes => Ok(None),
                _ => Err(e),
            },
        }
    }

    /// The verdict when the transport reports end-of-stream: a clean
    /// close with nothing buffered, or a truncated frame — the peer
    /// closed mid-frame — which is fatal for the connection.
    pub fn on_peer_closed(&self) -> (r: Result<(), Error>)
        ensures
            self@.len() == 0 <==> r is Ok,
            self@.len() > 0 ==> (r matches Err(e) && e matches Error::BadRequest { msg }
                && msg@ == "Request was interrupted"@),
    {
        if self.buf.len() == 0 {
            Ok(())
        } else {
            Err(Error::BadRequest { msg: "Request was interrupted".to_owned() })
        }
    }
}

/// Incremental delivery: while any strict prefix of an encoded command
/// frame is buffered, the frame walk reports only that more bytes are
/// awaited, so [`FrameBuffer::try_read_command`] yields nothing and keeps
/// the bytes; once the final byte arrives, the walk accepts exactly the
/// whole frame and the parse returns a command equal to the original, so
/// the engine yields exactly that one frame and leaves the buffer empty.
pub proof fn lemma_incremental_delivery(c: CommandView, k: int)
    requires
        command_wf(c),
        0 <= k < encode_command(c).len(),
    ensures
        command_frame_len(encode_command(c).take(k)) == Err::<int, ErrorKind>(
            ErrorKind::InvalidBytes,
        ),
        command_frame_len(encode_command(c)) == Ok::<int, ErrorKind>(
            encode_command(c).len() as int,
        ),
        parse_command(encode_command(c)) matches Ok(p) && p.0 == c,
        encode_command(c).skip(encode_command(c).len() as int) == Seq::<u8>::empty(),
{
    let e = encode_command(c);
    lemma_command_prefix_incomplete(c, e.take(k));
    lemma_encode_command_frame(c, Seq::empty());
    lemma_encode_parse_command(c, Seq::empty());
    assert(e + Seq::<u8>::empty() =~= e);
    assert(e.skip(e.len() as int) =~= Seq::<u8>::empty());
}

} // verus!
