//! The tagged-union payload type and its wire codec.
//!
//! A [`Value`] is a boolean, a 64-bit signed number, a UTF-8 string, a
//! nested array or a raw byte blob. On the wire each value starts with a
//! one-byte tag; multi-byte integers are little-endian; strings, arrays and
//! blobs carry a 4-byte length or count prefix. Frame completeness is
//! determined by walking these declared length fields, so payload bytes are
//! never confused with the frame terminator.
//!
//! The mathematical model is [`ValueView`]: the encoding, the structural
//! frame walk and the parser are all defined over it as spec functions, and
//! the executable codec is proved against them.

use vstd::prelude::*;
use vstd::bytes::{
    spec_u32_to_le_bytes, spec_u32_from_le_bytes, spec_u64_to_le_bytes, spec_u64_from_le_bytes,
    u32_to_le_bytes, u64_to_le_bytes, lemma_auto_spec_u32_to_from_le_bytes,
    lemma_auto_spec_u64_to_from_le_bytes,
};
use vstd::slice::{slice_subrange, slice_to_vec};
use vstd::utf8::{valid_utf8, decode_utf8, encode_utf8};
use crate::bytes::Cursor;
use crate::error::{Error, ErrorKind};

verus! {

/// Wire tag of a boolean value.
pub const TAG_BOOLEAN: u8 = 33;

/// Wire tag of a number value.
pub const TAG_NUMBER: u8 = 35;

/// Wire tag of a string value.
pub const TAG_STRING: u8 = 36;

/// Wire tag of an array value.
pub const TAG_ARRAY: u8 = 91;

/// Wire tag of a byte-blob value.
pub const TAG_BYTES: u8 = 123;

/// First byte of the frame terminator (carriage return).
pub const TERM_CR: u8 = 13;

/// Second byte of the frame terminator (line feed).
pub const TERM_LF: u8 = 10;

/// The payload type that travels over the wire.
#[derive(Debug, PartialEq)]
pub enum Value {
    Boolean(bool),
    Number(i64),
    String(String),
    Array(Vec<Value>),
    Bytes(Vec<u8>),
}

/// The mathematical model of a [`Value`]: text as a character sequence,
/// collections as sequences.
pub enum ValueView {
    Boolean(bool),
    Number(i64),
    Str(Seq<char>),
    Array(Seq<ValueView>),
    Bytes(Seq<u8>),
}

/// The model of a value.
pub open spec fn value_view(v: Value) -> ValueView
    decreases v,
{
    match v {
        Value::Boolean(b) => ValueView::Boolean(b),
        Value::Number(n) => ValueView::Number(n),
        Value::String(s) => ValueView::Str(s@),
        Value::Array(a) => ValueView::Array(values_view(a@)),
        Value::Bytes(b) => ValueView::Bytes(b@),
    }
}

/// The models of a sequence of values, in order.
pub open spec fn values_view(s: Seq<Value>) -> Seq<ValueView>
    decreases s,
{
    if s.len() == 0 {
        Seq::empty()
    } else {
        seq![value_view(s[0])] + values_view(s.drop_first())
    }
}

impl View for Value {
    type V = ValueView;

    open spec fn view(&self) -> ValueView {
        value_view(*self)
    }
}

pub proof fn lemma_values_view_props(s: Seq<Value>)
    ensures
        values_view(s).len() == s.len(),
        forall|i: int| 0 <= i < s.len() ==> values_view(s)[i] == value_view(#[trigger] s[i]),
    decreases s.len(),
{
    if s.len() > 0 {
        lemma_values_view_props(s.drop_first());
        assert forall|i: int| 0 <= i < s.len() implies values_view(s)[i] == value_view(
            s[i],
        ) by {
            if i > 0 {
                assert(s.drop_first()[i - 1] == s[i]);
            }
        }
    }
}

pub proof fn lemma_values_view_push(s: Seq<Value>, v: Value)
    ensures
        values_view(s.push(v)) == values_view(s) + seq![value_view(v)],
    decreases s.len(),
{
    if s.len() == 0 {
        assert(s.push(v)[0] == v);
        assert(s.push(v).drop_first() =~= Seq::<Value>::empty());
        assert(values_view(Seq::<Value>::empty()) =~= Seq::<ValueView>::empty());
        assert(values_view(s.push(v)) =~= values_view(s) + seq![value_view(v)]);
    } else {
        lemma_values_view_push(s.drop_first(), v);
        assert(s.push(v).len() != 0);
        assert(s.push(v)[0] == s[0]);
        assert(s.push(v).drop_first() =~= s.drop_first().push(v));
        assert(values_view(s.push(v)) == seq![value_view(s[0])] + values_view(
            s.drop_first().push(v),
        ));
        assert(values_view(s.push(v)) =~= values_view(s) + seq![value_view(v)]);
    }
}

/// A value is encodable when every length or count written as a 4-byte
/// field fits in it.
pub open spec fn value_wf(v: ValueView) -> bool
    decreases v,
{
    match v {
        ValueView::Boolean(_) => true,
        ValueView::Number(_) => true,
        ValueView::Str(s) => encode_utf8(s).len() <= u32::MAX,
        ValueView::Array(a) => a.len() <= u32::MAX && (forall|i: int|
            0 <= i < a.len() ==> value_wf(#[trigger] a[i])),
        ValueView::Bytes(b) => b.len() <= u32::MAX,
    }
}

/// The wire encoding of a value: tag byte, then the fixed-width or
/// length-prefixed payload; array elements follow their count in order.
pub open spec fn encode_value(v: ValueView) -> Seq<u8>
    decreases v,
{
    match v {
        ValueView::Boolean(b) => seq![TAG_BOOLEAN, if b { 1u8 } else { 0u8 }],
        ValueView::Number(n) => seq![TAG_NUMBER] + spec_u64_to_le_bytes(n as u64),
        ValueView::Str(s) => seq![TAG_STRING] + spec_u32_to_le_bytes(
            encode_utf8(s).len() as u32,
        ) + encode_utf8(s),
        ValueView::Array(a) => seq![TAG_ARRAY] + spec_u32_to_le_bytes(a.len() as u32)
            + encode_values(a),
        ValueView::Bytes(b) => seq![TAG_BYTES] + spec_u32_to_le_bytes(b.len() as u32) + b,
    }
}

/// The concatenated encodings of a sequence of values.
pub open spec fn encode_values(vs: Seq<ValueView>) -> Seq<u8>
    decreases vs,
{
    if vs.len() == 0 {
        Seq::empty()
    } else {
        encode_value(vs[0]) + encode_values(vs.drop_first())
    }
}

pub proof fn lemma_encode_values_push(vs: Seq<ValueView>, v: ValueView)
    ensures
        encode_values(vs.push(v)) == encode_values(vs) + encode_value(v),
    decreases vs.len(),
{
    if vs.len() == 0 {
        assert(vs.push(v)[0] == v);
        assert(vs.push(v).drop_first() =~= Seq::<ValueView>::empty());
        assert(encode_values(Seq::<ValueView>::empty()) =~= Seq::<u8>::empty());
        assert(encode_values(vs.push(v)) =~= encode_values(vs) + encode_value(v));
    } else {
        lemma_encode_values_push(vs.drop_first(), v);
        assert(vs.push(v).len() != 0);
        assert(vs.push(v)[0] == vs[0]);
        assert(vs.push(v).drop_first() =~= vs.drop_first().push(v));
        assert(encode_values(vs.push(v)) == encode_value(vs[0]) + encode_values(
            vs.drop_first().push(v),
        ));
        assert(encode_values(vs.push(v)) =~= encode_values(vs) + encode_value(v));
    }
}

/// Appends every byte of `src` to `out`.
pub(crate) fn append_bytes(out: &mut Vec<u8>, src: &[u8])
    ensures
        final(out)@ == old(out)@ + src@,
{
    let mut i: usize = 0;
    while i < src.len()
        invariant
            i <= src@.len(),
            out@ == old(out)@ + src@.take(i as int),
        decreases src@.len() - i,
    {
        out.push(src[i]);
        proof {
            assert(src@.take(i + 1 as int) =~= src@.take(i as int).push(src@[i as int]));
        }
        i = i + 1;
    }
    proof {
        assert(src@.take(src@.len() as int) =~= src@);
    }
}

/// Appends the encoding of `v` to `out`.
#[verifier::loop_isolation(false)]
fn encode_into(v: &Value, out: &mut Vec<u8>)
    requires
        value_wf(v@),
    ensures
        final(out)@ == old(out)@ + encode_value(v@),
    decreases *v,
{
    match v {
        Value::Boolean(b) => {
            out.push(TAG_BOOLEAN);
            out.push(if *b {
                1u8
            } else {
                0u8
            });
            proof {
                assert(out@ =~= old(out)@ + encode_value(v@));
            }
        },
        Value::Number(n) => {
            out.push(TAG_NUMBER);
            let le = u64_to_le_bytes(#[verifier::truncate] (*n as u64));
            append_bytes(out, le.as_slice());
            proof {
                assert(out@ =~= old(out)@ + encode_value(v@));
            }
        },
        Value::String(s) => {
            out.push(TAG_STRING);
            let bs = s.as_str().as_bytes();
            let le = u32_to_le_bytes(bs.len() as u32);
            append_bytes(out, le.as_slice());
            append_bytes(out, bs);
            proof {
                assert(out@ =~= old(out)@ + encode_value(v@));
            }
        },
        Value::Bytes(b) => {
            out.push(TAG_BYTES);
            let le = u32_to_le_bytes(b.len() as u32);
            append_bytes(out, le.as_slice());
            append_bytes(out, b.as_slice());
            proof {
                assert(out@ =~= old(out)@ + encode_value(v@));
            }
        },
        Value::Array(a) => {
            proof {
                lemma_values_view_props(a@);
            }
            out.push(TAG_ARRAY);
            let le = u32_to_le_bytes(a.len() as u32);
            append_bytes(out, le.as_slice());
            let ghost vv = values_view(a@);
            let ghost prefix = old(out)@ + seq![TAG_ARRAY] + spec_u32_to_le_bytes(
                a@.len() as u32,
            );
            let mut i: usize = 0;
            while i < a.len()
                invariant
                    i <= a@.len(),
                    value_wf(ValueView::Array(vv)),
                    vv == values_view(a@),
                    vv.len() == a@.len(),
                    forall|j: int| 0 <= j < a@.len() ==> vv[j] == value_view(#[trigger] a@[j]),
                    out@ == prefix + encode_values(vv.take(i as int)),
                decreases a@.len() - i,
            {
                encode_into(&a[i], out);
                proof {
                    assert(vv.take(i + 1 as int) =~= vv.take(i as int).push(vv[i as int]));
                    lemma_encode_values_push(vv.take(i as int), vv[i as int]);
                }
                i = i + 1;
            }
            proof {
                assert(vv.take(vv.len() as int) =~= vv);
                assert(out@ =~= old(out)@ + encode_value(v@));
            }
        },
    }
}

impl Value {
    /// Serializes the value to its wire bytes.
    pub fn to_bytes(self) -> (r: Vec<u8>)
        requires
            value_wf(self@),
        ensures
            r@ == encode_value(self@),
    {
        let mut out: Vec<u8> = Vec::new();
        encode_into(&self, &mut out);
        out
    }

    /// A copy of the value, equal under the model.
    #[verifier::loop_isolation(false)]
    pub fn duplicate(&self) -> (r: Value)
        ensures
            r@ == self@,
        decreases *self,
    {
        match self {
            Value::Boolean(b) => Value::Boolean(*b),
            Value::Number(n) => Value::Number(*n),
            Value::String(s) => Value::String(s.clone()),
            Value::Bytes(b) => Value::Bytes(slice_to_vec(b.as_slice())),
            Value::Array(a) => {
                let mut acc: Vec<Value> = Vec::new();
                proof {
                    lemma_values_view_props(a@);
                }
                let mut i: usize = 0;
                while i < a.len()
                    invariant
                        i <= a@.len(),
                        acc@.len() == i,
                        values_view(acc@) == values_view(a@).take(i as int),
                    decreases a@.len() - i,
                {
                    let d = a[i].duplicate();
                    proof {
                        lemma_values_view_push(acc@, d);
                        lemma_values_view_props(a@);
                        assert(values_view(a@).take(i + 1 as int) =~= values_view(a@).take(
                            i as int,
                        ).push(value_view(a@[i as int])));
                    }
                    acc.push(d);
                    i = i + 1;
                }
                proof {
                    assert(values_view(a@).take(a@.len() as int) =~= values_view(a@));
                }
                Value::Array(acc)
            },
        }
    }
}

} // verus!

verus! {

/// The structural parse of one value at the front of `s`: the decoded
/// model and the number of bytes consumed. Too few bytes for any field
/// is `InvalidBytes`; string bytes that are not UTF-8, or an unrecognized
/// tag, are `BadRequest`.
pub open spec fn parse_value(s: Seq<u8>) -> Result<(ValueView, int), ErrorKind>
    decreases s.len(), 0int,
{
    if s.len() == 0 {
        Err(ErrorKind::InvalidBytes)
    } else {
        let tag = s[0];
        let rest = s.drop_first();
        if tag == TAG_BOOLEAN {
            if rest.len() < 1 {
                Err(ErrorKind::InvalidBytes)
            } else {
                Ok((ValueView::Boolean(rest[0] != 0), 2))
            }
        } else if tag == TAG_NUMBER {
            if rest.len() < 8 {
                Err(ErrorKind::InvalidBytes)
            } else {
                Ok((ValueView::Number(spec_u64_from_le_bytes(rest.take(8)) as i64), 9))
            }
        } else if tag == TAG_STRING {
            if rest.len() < 4 {
                Err(ErrorKind::InvalidBytes)
            } else {
                let n = spec_u32_from_le_bytes(rest.take(4)) as int;
                if rest.len() < 4 + n {
                    Err(ErrorKind::InvalidBytes)
                } else {
                    let content = rest.subrange(4, 4 + n);
                    if valid_utf8(content) {
                        Ok((ValueView::Str(decode_utf8(content)), 5 + n))
                    } else {
                        Err(ErrorKind::BadRequest)
                    }
                }
            }
        } else if tag == TAG_ARRAY {
            if rest.len() < 4 {
                Err(ErrorKind::InvalidBytes)
            } else {
                let n = spec_u32_from_le_bytes(rest.take(4)) as int;
                match parse_values(rest.skip(4), n) {
                    Ok(p) => Ok((ValueView::Array(p.0), 5 + p.1)),
                    Err(k) => Err(k),
                }
            }
        } else if tag == TAG_BYTES {
            if rest.len() < 4 {
                Err(ErrorKind::InvalidBytes)
            } else {
                let n = spec_u32_from_le_bytes(rest.take(4)) as int;
                if rest.len() < 4 + n {
                    Err(ErrorKind::InvalidBytes)
                } else {
                    Ok((ValueView::Bytes(rest.subrange(4, 4 + n)), 5 + n))
                }
            }
        } else {
            Err(ErrorKind::BadRequest)
        }
    }
}

/// The structural parse of `n` consecutive values at the front of `s`.
/// The guard on the consumed count keeps the recursion well-founded; a
/// successful parse always consumes at least one byte and at most the
/// input, so the guard's failure branch is never taken (see
/// [`lemma_parse_value_consumes`]).
pub open spec fn parse_values(s: Seq<u8>, n: int) -> Result<(Seq<ValueView>, int), ErrorKind>
    decreases s.len(), n,
{
    if n <= 0 {
        Ok((Seq::empty(), 0))
    } else {
        match parse_value(s) {
            Ok(p) => if 1 <= p.1 <= s.len() {
                match parse_values(s.skip(p.1), n - 1) {
                    Ok(q) => Ok((seq![p.0] + q.0, p.1 + q.1)),
                    Err(k) => Err(k),
                }
            } else {
                Err(ErrorKind::InvalidBytes)
            },
            Err(k) => Err(k),
        }
    }
}

/// The length of the complete value at the front of `s`, walking the
/// declared length fields without decoding. It accepts string bytes that
/// are not UTF-8 (the parser rejects them later) and reports an
/// unrecognized tag as `UnknownCommand`.
pub open spec fn value_len(s: Seq<u8>) -> Result<int, ErrorKind>
    decreases s.len(), 0int,
{
    if s.len() == 0 {
        Err(ErrorKind::InvalidBytes)
    } else {
        let tag = s[0];
        let rest = s.drop_first();
        if tag == TAG_BOOLEAN {
            if rest.len() < 1 {
                Err(ErrorKind::InvalidBytes)
            } else {
                Ok(2)
            }
        } else if tag == TAG_NUMBER {
            if rest.len() < 8 {
                Err(ErrorKind::InvalidBytes)
            } else {
                Ok(9)
            }
        } else if tag == TAG_STRING || tag == TAG_BYTES {
            if rest.len() < 4 {
                Err(ErrorKind::InvalidBytes)
            } else {
                let n = spec_u32_from_le_bytes(rest.take(4)) as int;
                if rest.len() < 4 + n {
                    Err(ErrorKind::InvalidBytes)
                } else {
                    Ok(5 + n)
                }
            }
        } else if tag == TAG_ARRAY {
            if rest.len() < 4 {
                Err(ErrorKind::InvalidBytes)
            } else {
                let n = spec_u32_from_le_bytes(rest.take(4)) as int;
                match values_len(rest.skip(4), n) {
                    Ok(u) => Ok(5 + u),
                    Err(k) => Err(k),
                }
            }
        } else {
            Err(ErrorKind::UnknownCommand)
        }
    }
}

/// The total length of `n` consecutive complete values at the front of
/// `s`, guarded as in [`parse_values`].
pub open spec fn values_len(s: Seq<u8>, n: int) -> Result<int, ErrorKind>
    decreases s.len(), n,
{
    if n <= 0 {
        Ok(0)
    } else {
        match value_len(s) {
            Ok(u) => if 1 <= u <= s.len() {
                match values_len(s.skip(u), n - 1) {
                    Ok(u2) => Ok(u + u2),
                    Err(k) => Err(k),
                }
            } else {
                Err(ErrorKind::InvalidBytes)
            },
            Err(k) => Err(k),
        }
    }
}

/// A parsed value consumes at least its tag byte and one payload byte,
/// and never more than the input.
pub proof fn lemma_parse_value_consumes(s: Seq<u8>)
    ensures
        parse_value(s) matches Ok(p) ==> 2 <= p.1 <= s.len(),
    decreases s.len(), 0int,
{
    if s.len() > 0 {
        let rest = s.drop_first();
        if s[0] == TAG_ARRAY && rest.len() >= 4 {
            let n = spec_u32_from_le_bytes(rest.take(4)) as int;
            lemma_parse_values_consumes(rest.skip(4), n);
        }
    }
}

/// Parsing a run of values consumes no more than the input.
pub proof fn lemma_parse_values_consumes(s: Seq<u8>, n: int)
    ensures
        parse_values(s, n) matches Ok(p) ==> 0 <= p.1 <= s.len(),
    decreases s.len(), n,
{
    if n > 0 {
        lemma_parse_value_consumes(s);
        match parse_value(s) {
            Ok(p) => {
                if 1 <= p.1 <= s.len() {
                    lemma_parse_values_consumes(s.skip(p.1), n - 1);
                }
            },
            Err(_) => {},
        }
    }
}

/// A complete value's frame length covers at least the tag and one payload
/// byte, and never exceeds the input.
pub proof fn lemma_value_len_consumes(s: Seq<u8>)
    ensures
        value_len(s) matches Ok(u) ==> 2 <= u <= s.len(),
    decreases s.len(), 0int,
{
    if s.len() > 0 {
        let rest = s.drop_first();
        if s[0] == TAG_ARRAY && rest.len() >= 4 {
            let n = spec_u32_from_le_bytes(rest.take(4)) as int;
            lemma_values_len_consumes(rest.skip(4), n);
        }
    }
}

/// The frame length of a run of values never exceeds the input.
pub proof fn lemma_values_len_consumes(s: Seq<u8>, n: int)
    ensures
        values_len(s, n) matches Ok(u) ==> 0 <= u <= s.len(),
    decreases s.len(), n,
{
    if n > 0 {
        lemma_value_len_consumes(s);
        match value_len(s) {
            Ok(u) => {
                if 1 <= u <= s.len() {
                    lemma_values_len_consumes(s.skip(u), n - 1);
                }
            },
            Err(_) => {},
        }
    }
}

/// Relies on String::from_utf8: it returns the string holding exactly the
/// given bytes when they are valid UTF-8, and refuses them otherwise.
#[verifier::external_body]
pub(crate) fn string_from_utf8(bytes: Vec<u8>) -> (r: Option<String>)
    ensures
        r is Some <==> valid_utf8(bytes@),
        r matches Some(s) ==> s@ == decode_utf8(bytes@),
{
    String::from_utf8(bytes).ok()
}

} // verus!

verus! {

/// Parses one value starting at `pos`, returning it with the position
/// just past its encoding.
#[verifier::loop_isolation(false)]
fn parse_at(data: &[u8], pos: usize) -> (r: Result<(Value, usize), Error>)
    requires
        pos <= data@.len(),
    ensures
        ({
            let s = data@.subrange(pos as int, data@.len() as int);
            match r {
                Ok(p) => pos <= p.1 <= data@.len() && parse_value(s) == Ok::<
                    (ValueView, int),
                    ErrorKind,
                >((p.0@, p.1 - pos as int)),
                Err(e) => parse_value(s) == Err::<(ValueView, int), ErrorKind>(e.kind()),
            }
        }),
    decreases data@.len() - pos,
{
    let ghost s = data@.subrange(pos as int, data@.len() as int);
    // a slice's length fits in usize, so the walk's positions never overflow
    let dlen: usize = data.len();
    let mut cur = Cursor::new(data);
    cur.set_position(pos);
    proof {
        assert(dlen <= usize::MAX);
        assert(cur.remaining() =~= s);
    }
    let tag = match crate::bytes::get_u8(&mut cur) {
        Ok(t) => t,
        Err(_) => {
            return Err(Error::InvalidBytes);
        },
    };
    let ghost rest = s.drop_first();
    proof {
        assert(cur.remaining() =~= rest);
    }
    if tag == TAG_BOOLEAN {
        match crate::bytes::get_bool(&mut cur) {
            Ok(t) => {
                proof {
                    assert(rest[0] == s[1]);
                }
                Ok((Value::Boolean(t), cur.position()))
            },
            Err(_) => Err(Error::InvalidBytes),
        }
    } else if tag == TAG_NUMBER {
        match crate::bytes::get_i64(&mut cur) {
            Ok(n) => Ok((Value::Number(n), cur.position())),
            Err(_) => Err(Error::InvalidBytes),
        }
    } else if tag == TAG_STRING {
        let len = match crate::bytes::get_u32(&mut cur) {
            Ok(n) => n,
            Err(_) => {
                return Err(Error::InvalidBytes);
            },
        };
        let ghost n = spec_u32_from_le_bytes(rest.take(4)) as int;
        let l = len as usize;
        if cur.remaining_len() < l {
            return Err(Error::InvalidBytes);
        }
        let p2 = cur.position();
        proof {
            assert(p2 + l <= data@.len());
        }
        let content = slice_subrange(data, p2, p2 + l);
        proof {
            assert(content@ =~= rest.subrange(4, 4 + n));
        }
        match string_from_utf8(slice_to_vec(content)) {
            Some(st) => Ok((Value::String(st), p2 + l)),
            None => Err(
                Error::BadRequest { msg: "Invalid key utf-8 encoding".to_owned() },
            ),
        }
    } else if tag == TAG_ARRAY {
        let count = match crate::bytes::get_u32(&mut cur) {
            Ok(n) => n,
            Err(_) => {
                return Err(Error::InvalidBytes);
            },
        };
        let ghost n = spec_u32_from_le_bytes(rest.take(4)) as int;
        let ghost hdr = pos + 5;
        proof {
            assert(rest.skip(4) =~= data@.subrange(hdr, data@.len() as int));
        }
        let mut q: usize = cur.position();
        let mut acc: Vec<Value> = Vec::new();
        let mut i: u32 = 0;
        while i < count
            invariant
                i <= count,
                hdr <= q <= data@.len(),
                values_len_ok_inv(data@, hdr, q as int, values_view(acc@), i as int, n),
            decreases n - i,
        {
            match parse_at(data, q) {
                Ok(pr) => {
                    let (v, q2) = pr;
                    proof {
                        let sq = data@.subrange(q as int, data@.len() as int);
                        let sq2 = data@.subrange(q2 as int, data@.len() as int);
                        let u = q2 - q as int;
                        lemma_parse_value_consumes(sq);
                        assert(parse_value(sq) == Ok::<(ValueView, int), ErrorKind>((v@, u)));
                        assert(1 <= u <= sq.len());
                        assert(sq.skip(u) =~= sq2);
                        assert(parse_values(sq, n - i) == (match parse_values(sq2, n - i - 1) {
                            Ok(p3) => Ok::<(Seq<ValueView>, int), ErrorKind>((
                                seq![v@] + p3.0,
                                u + p3.1,
                            )),
                            Err(k) => Err::<(Seq<ValueView>, int), ErrorKind>(k),
                        }));
                        lemma_values_view_push(acc@, v);
                        match parse_values(sq2, n - i - 1) {
                            Ok(p3) => {
                                assert((values_view(acc@) + seq![v@]) + p3.0 =~= values_view(
                                    acc@,
                                ) + (seq![v@] + p3.0));
                            },
                            Err(_) => {},
                        }
                    }
                    acc.push(v);
                    q = q2;
                    i = i + 1;
                },
                Err(e) => {
                    proof {
                        let sq = data@.subrange(q as int, data@.len() as int);
                        assert(parse_values(sq, n - i) == Err::<
                            (Seq<ValueView>, int),
                            ErrorKind,
                        >(e.kind()));
                    }
                    return Err(e);
                },
            }
        }
        proof {
            let sq = data@.subrange(q as int, data@.len() as int);
            assert(parse_values(sq, 0) == Ok::<(Seq<ValueView>, int), ErrorKind>((
                Seq::empty(),
                0,
            )));
            assert(values_view(acc@) + Seq::<ValueView>::empty() =~= values_view(acc@));
        }
        Ok((Value::Array(acc), q))
    } else if tag == TAG_BYTES {
        let len = match crate::bytes::get_u32(&mut cur) {
            Ok(n) => n,
            Err(_) => {
                return Err(Error::InvalidBytes);
            },
        };
        let ghost n = spec_u32_from_le_bytes(rest.take(4)) as int;
        let l = len as usize;
        if cur.remaining_len() < l {
            return Err(Error::InvalidBytes);
        }
        let p2 = cur.position();
        proof {
            assert(p2 + l <= data@.len());
        }
        let content = slice_subrange(data, p2, p2 + l);
        proof {
            assert(content@ =~= rest.subrange(4, 4 + n));
        }
        Ok((Value::Bytes(slice_to_vec(content)), p2 + l))
    } else {
        Err(Error::BadRequest { msg: "Invalid data type".to_owned() })
    }
}

/// The loop invariant of the array cases: parsing the whole run of `n`
/// values at `hdr` is parsing the remaining `n - i` at `q` behind the `i`
/// already-parsed values `vs`, which consumed the bytes from `hdr` to `q`.
spec fn values_len_ok_inv(
    data: Seq<u8>,
    hdr: int,
    q: int,
    vs: Seq<ValueView>,
    i: int,
    n: int,
) -> bool {
    &&& 0 <= i <= n
    &&& vs.len() == i
    &&& parse_values(data.subrange(hdr, data.len() as int), n) == (match parse_values(
        data.subrange(q, data.len() as int),
        n - i,
    ) {
        Ok(p) => Ok::<(Seq<ValueView>, int), ErrorKind>((vs + p.0, (q - hdr) + p.1)),
        Err(k) => Err::<(Seq<ValueView>, int), ErrorKind>(k),
    })
}

} // verus!

verus! {

/// The loop invariant of the validator's array case, mirroring
/// [`values_len_ok_inv`] without the decoded models.
spec fn values_len_walk_inv(data: Seq<u8>, hdr: int, q: int, i: int, n: int) -> bool {
    &&& 0 <= i <= n
    &&& values_len(data.subrange(hdr, data.len() as int), n) == (match values_len(
        data.subrange(q, data.len() as int),
        n - i,
    ) {
        Ok(u) => Ok::<int, ErrorKind>((q - hdr) + u),
        Err(k) => Err::<int, ErrorKind>(k),
    })
}

/// Walks the complete value starting at `pos` without decoding it,
/// returning the position just past its encoding.
#[verifier::loop_isolation(false)]
fn valid_at(data: &[u8], pos: usize) -> (r: Result<usize, Error>)
    requires
        pos <= data@.len(),
    ensures
        ({
            let s = data@.subrange(pos as int, data@.len() as int);
            match r {
                Ok(p) => pos <= p <= data@.len() && value_len(s) == Ok::<int, ErrorKind>(
                    p - pos as int,
                ),
                Err(e) => value_len(s) == Err::<int, ErrorKind>(e.kind()),
            }
        }),
    decreases data@.len() - pos,
{
    let ghost s = data@.subrange(pos as int, data@.len() as int);
    // a slice's length fits in usize, so the walk's positions never overflow
    let dlen: usize = data.len();
    let mut cur = Cursor::new(data);
    cur.set_position(pos);
    proof {
        assert(dlen <= usize::MAX);
        assert(cur.remaining() =~= s);
    }
    let tag = match crate::bytes::get_u8(&mut cur) {
        Ok(t) => t,
        Err(_) => {
            return Err(Error::InvalidBytes);
        },
    };
    let ghost rest = s.drop_first();
    proof {
        assert(cur.remaining() =~= rest);
    }
    if tag == TAG_BOOLEAN {
        match cur.advance(1) {
            Ok(()) => Ok(cur.position()),
            Err(_) => Err(Error::InvalidBytes),
        }
    } else if tag == TAG_NUMBER {
        match cur.advance(8) {
            Ok(()) => Ok(cur.position()),
            Err(_) => Err(Error::InvalidBytes),
        }
    } else if tag == TAG_STRING || tag == TAG_BYTES {
        let len = match crate::bytes::get_u32(&mut cur) {
            Ok(n) => n,
            Err(_) => {
                return Err(Error::InvalidBytes);
            },
        };
        match cur.advance(len as usize) {
            Ok(()) => Ok(cur.position()),
            Err(_) => Err(Error::InvalidBytes),
        }
    } else if tag == TAG_ARRAY {
        let count = match crate::bytes::get_u32(&mut cur) {
            Ok(n) => n,
            Err(_) => {
                return Err(Error::InvalidBytes);
            },
        };
        let ghost n = spec_u32_from_le_bytes(rest.take(4)) as int;
        let ghost hdr = pos + 5;
        proof {
            assert(rest.skip(4) =~= data@.subrange(hdr, data@.len() as int));
        }
        let mut q: usize = cur.position();
        let mut i: u32 = 0;
        while i < count
            invariant
                i <= count,
                hdr <= q <= data@.len(),
                values_len_walk_inv(data@, hdr, q as int, i as int, n),
            decreases n - i,
        {
            match valid_at(data, q) {
                Ok(q2) => {
                    proof {
                        let sq = data@.subrange(q as int, data@.len() as int);
                        let sq2 = data@.subrange(q2 as int, data@.len() as int);
                        let u = q2 - q as int;
                        lemma_value_len_consumes(sq);
                        assert(1 <= u <= sq.len());
                        assert(sq.skip(u) =~= sq2);
                        assert(values_len(sq, n - i) == (match values_len(sq2, n - i - 1) {
                            Ok(u2) => Ok::<int, ErrorKind>(u + u2),
                            Err(k) => Err::<int, ErrorKind>(k),
                        }));
                    }
                    q = q2;
                    i = i + 1;
                },
                Err(e) => {
                    return Err(e);
                },
            }
        }
        Ok(q)
    } else {
        Err(Error::UnknownCommand)
    }
}

impl Value {
    /// Checks that one complete value stands at the cursor, advancing the
    /// cursor just past it; the cursor stays put on failure.
    pub fn validate(src: &mut Cursor<'_>) -> (r: Result<(), Error>)
        requires
            old(src).wf(),
        ensures
            final(src).wf(),
            final(src).all_bytes() == old(src).all_bytes(),
            match r {
                Ok(()) => value_len(old(src).remaining()) matches Ok(u) && final(src).offset()
                    == old(src).offset() + u,
                Err(e) => value_len(old(src).remaining()) == Err::<int, ErrorKind>(e.kind())
                    && *final(src) == *old(src),
            },
    {
        let d = src.data();
        let p0 = src.position();
        proof {
            assert(d@.subrange(p0 as int, d@.len() as int) =~= old(src).remaining());
        }
        match valid_at(d, p0) {
            Ok(p) => {
                src.set_position(p);
                Ok(())
            },
            Err(e) => Err(e),
        }
    }

    /// Decodes one value at the cursor, advancing the cursor just past its
    /// encoding; the cursor stays put on failure.
    pub fn parse(src: &mut Cursor<'_>) -> (r: Result<Value, Error>)
        requires
            old(src).wf(),
        ensures
            final(src).wf(),
            final(src).all_bytes() == old(src).all_bytes(),
            match r {
                Ok(v) => parse_value(old(src).remaining()) matches Ok(p) && p.0 == v@
                    && final(src).offset() == old(src).offset() + p.1,
                Err(e) => parse_value(old(src).remaining()) == Err::<
                    (ValueView, int),
                    ErrorKind,
                >(e.kind()) && *final(src) == *old(src),
            },
    {
        let d = src.data();
        let p0 = src.position();
        proof {
            assert(d@.subrange(p0 as int, d@.len() as int) =~= old(src).remaining());
        }
        match parse_at(d, p0) {
            Ok(pr) => {
                let (v, p) = pr;
                src.set_position(p);
                Ok(v)
            },
            Err(e) => Err(e),
        }
    }
}

} // verus!

verus! {

/// Every value encoding has at least a tag byte and one payload byte.
pub proof fn lemma_encode_value_min_len(v: ValueView)
    ensures
        encode_value(v).len() >= 2,
{
    lemma_auto_spec_u32_to_from_le_bytes();
    lemma_auto_spec_u64_to_from_le_bytes();
}

/// Decoding inverts encoding: a well-formed value's encoding, followed by
/// anything, parses back to that value, consuming exactly the encoding.
pub proof fn lemma_encode_parse_value(v: ValueView, rest: Seq<u8>)
    requires
        value_wf(v),
    ensures
        parse_value(encode_value(v) + rest) == Ok::<(ValueView, int), ErrorKind>((
            v,
            encode_value(v).len() as int,
        )),
    decreases v,
{
    lemma_auto_spec_u32_to_from_le_bytes();
    lemma_auto_spec_u64_to_from_le_bytes();
    let e = encode_value(v);
    let t = e + rest;
    let tail = t.drop_first();
    match v {
        ValueView::Boolean(b) => {
            assert(t[0] == TAG_BOOLEAN);
            assert(tail[0] == (if b {
                1u8
            } else {
                0u8
            }));
        },
        ValueView::Number(n) => {
            assert(t[0] == TAG_NUMBER);
            assert(tail.take(8) =~= spec_u64_to_le_bytes(n as u64));
            assert(((n as u64) as i64) == n) by (bit_vector);
        },
        ValueView::Str(cs) => {
            let b = encode_utf8(cs);
            assert(t[0] == TAG_STRING);
            assert(tail.take(4) =~= spec_u32_to_le_bytes(b.len() as u32));
            assert(spec_u32_from_le_bytes(tail.take(4)) as int == b.len() as int);
            assert(tail.subrange(4, 4 + b.len() as int) =~= b);
            vstd::utf8::encode_utf8_valid_utf8(cs);
            vstd::utf8::encode_utf8_decode_utf8(cs);
        },
        ValueView::Array(a) => {
            assert(t[0] == TAG_ARRAY);
            assert(tail.take(4) =~= spec_u32_to_le_bytes(a.len() as u32));
            assert(spec_u32_from_le_bytes(tail.take(4)) as int == a.len() as int);
            assert(tail.skip(4) =~= encode_values(a) + rest);
            lemma_encode_parse_values(a, rest);
        },
        ValueView::Bytes(b) => {
            assert(t[0] == TAG_BYTES);
            assert(tail.take(4) =~= spec_u32_to_le_bytes(b.len() as u32));
            assert(spec_u32_from_le_bytes(tail.take(4)) as int == b.len() as int);
            assert(tail.subrange(4, 4 + b.len() as int) =~= b);
        },
    }
}

/// Decoding inverts encoding for a run of well-formed values.
pub proof fn lemma_encode_parse_values(vs: Seq<ValueView>, rest: Seq<u8>)
    requires
        forall|i: int| 0 <= i < vs.len() ==> value_wf(#[trigger] vs[i]),
    ensures
        parse_values(encode_values(vs) + rest, vs.len() as int) == Ok::<
            (Seq<ValueView>, int),
            ErrorKind,
        >((vs, encode_values(vs).len() as int)),
    decreases vs,
{
    let e = encode_values(vs);
    let t = e + rest;
    if vs.len() == 0 {
        assert(t =~= rest);
        assert(vs =~= Seq::<ValueView>::empty());
    } else {
        let v0 = vs[0];
        let vt = vs.drop_first();
        let e0 = encode_value(v0);
        let et = encode_values(vt);
        assert(t =~= e0 + (et + rest));
        lemma_encode_parse_value(v0, et + rest);
        lemma_encode_value_min_len(v0);
        assert(t.skip(e0.len() as int) =~= et + rest);
        lemma_encode_parse_values(vt, rest);
        assert(seq![v0] + vt =~= vs);
    }
}

/// The structural walk agrees with the encoder: a well-formed value's
/// encoding, followed by anything, walks as one complete value of exactly
/// the encoding's length.
pub proof fn lemma_encode_value_len(v: ValueView, rest: Seq<u8>)
    requires
        value_wf(v),
    ensures
        value_len(encode_value(v) + rest) == Ok::<int, ErrorKind>(encode_value(v).len() as int),
    decreases v,
{
    lemma_auto_spec_u32_to_from_le_bytes();
    lemma_auto_spec_u64_to_from_le_bytes();
    let e = encode_value(v);
    let t = e + rest;
    let tail = t.drop_first();
    match v {
        ValueView::Boolean(b) => {
            assert(t[0] == TAG_BOOLEAN);
        },
        ValueView::Number(n) => {
            assert(t[0] == TAG_NUMBER);
        },
        ValueView::Str(cs) => {
            let b = encode_utf8(cs);
            assert(t[0] == TAG_STRING);
            assert(tail.take(4) =~= spec_u32_to_le_bytes(b.len() as u32));
            assert(spec_u32_from_le_bytes(tail.take(4)) as int == b.len() as int);
        },
        ValueView::Array(a) => {
            assert(t[0] == TAG_ARRAY);
            assert(tail.take(4) =~= spec_u32_to_le_bytes(a.len() as u32));
            assert(spec_u32_from_le_bytes(tail.take(4)) as int == a.len() as int);
            assert(tail.skip(4) =~= encode_values(a) + rest);
            lemma_encode_values_len(a, rest);
        },
        ValueView::Bytes(b) => {
            assert(t[0] == TAG_BYTES);
            assert(tail.take(4) =~= spec_u32_to_le_bytes(b.len() as u32));
            assert(spec_u32_from_le_bytes(tail.take(4)) as int == b.len() as int);
        },
    }
}

/// The structural walk agrees with the encoder over a run of values.
pub proof fn lemma_encode_values_len(vs: Seq<ValueView>, rest: Seq<u8>)
    requires
        forall|i: int| 0 <= i < vs.len() ==> value_wf(#[trigger] vs[i]),
    ensures
        values_len(encode_values(vs) + rest, vs.len() as int) == Ok::<int, ErrorKind>(
            encode_values(vs).len() as int,
        ),
    decreases vs,
{
    let e = encode_values(vs);
    let t = e + rest;
    if vs.len() == 0 {
        assert(t =~= rest);
    } else {
        let v0 = vs[0];
        let vt = vs.drop_first();
        let e0 = encode_value(v0);
        let et = encode_values(vt);
        assert(t =~= e0 + (et + rest));
        lemma_encode_value_len(v0, et + rest);
        lemma_encode_value_min_len(v0);
        assert(t.skip(e0.len() as int) =~= et + rest);
        lemma_encode_values_len(vt, rest);
    }
}

/// Every strict prefix of a well-formed value's encoding walks as an
/// incomplete value: more bytes are awaited, no other verdict is possible.
pub proof fn lemma_prefix_value_len(v: ValueView, p: Seq<u8>)
    requires
        value_wf(v),
        p.len() < encode_value(v).len(),
        p == encode_value(v).take(p.len() as int),
    ensures
        value_len(p) == Err::<int, ErrorKind>(ErrorKind::InvalidBytes),
    decreases v,
{
    lemma_auto_spec_u32_to_from_le_bytes();
    lemma_auto_spec_u64_to_from_le_bytes();
    let e = encode_value(v);
    if p.len() == 0 {
    } else {
        assert(p[0] == e[0]);
        let tail = p.drop_first();
        match v {
            ValueView::Boolean(b) => {
                assert(p[0] == TAG_BOOLEAN);
                assert(tail.len() < 1);
            },
            ValueView::Number(n) => {
                assert(p[0] == TAG_NUMBER);
                assert(tail.len() < 8);
            },
            ValueView::Str(cs) => {
                let b = encode_utf8(cs);
                assert(p[0] == TAG_STRING);
                if p.len() >= 5 {
                    assert(tail.take(4) =~= spec_u32_to_le_bytes(b.len() as u32));
                    assert(spec_u32_from_le_bytes(tail.take(4)) as int == b.len() as int);
                    assert(tail.len() < 4 + b.len());
                } else {
                    assert(tail.len() < 4);
                }
            },
            ValueView::Bytes(b) => {
                assert(p[0] == TAG_BYTES);
                if p.len() >= 5 {
                    assert(tail.take(4) =~= spec_u32_to_le_bytes(b.len() as u32));
                    assert(spec_u32_from_le_bytes(tail.take(4)) as int == b.len() as int);
                    assert(tail.len() < 4 + b.len());
                } else {
                    assert(tail.len() < 4);
                }
            },
            ValueView::Array(a) => {
                assert(p[0] == TAG_ARRAY);
                if p.len() >= 5 {
                    assert(tail.take(4) =~= spec_u32_to_le_bytes(a.len() as u32));
                    assert(spec_u32_from_le_bytes(tail.take(4)) as int == a.len() as int);
                    assert(tail.skip(4) =~= encode_values(a).take(p.len() - 5));
                    lemma_prefix_values_len(a, tail.skip(4));
                } else {
                    assert(tail.len() < 4);
                }
            },
        }
    }
}

/// Every strict prefix of the encodings of a run of well-formed values
/// walks as incomplete.
pub proof fn lemma_prefix_values_len(vs: Seq<ValueView>, p: Seq<u8>)
    requires
        forall|i: int| 0 <= i < vs.len() ==> value_wf(#[trigger] vs[i]),
        p.len() < encode_values(vs).len(),
        p == encode_values(vs).take(p.len() as int),
    ensures
        values_len(p, vs.len() as int) == Err::<int, ErrorKind>(ErrorKind::InvalidBytes),
    decreases vs,
{
    let v0 = vs[0];
    let vt = vs.drop_first();
    let e0 = encode_value(v0);
    let et = encode_values(vt);
    lemma_encode_value_min_len(v0);
    if p.len() < e0.len() {
        assert(p =~= e0.take(p.len() as int));
        lemma_prefix_value_len(v0, p);
    } else {
        assert(p =~= e0 + et.take(p.len() - e0.len()));
        lemma_encode_value_len(v0, et.take(p.len() - e0.len()));
        lemma_value_len_consumes(p);
        assert(p.skip(e0.len() as int) =~= et.take(p.len() - e0.len()));
        lemma_prefix_values_len(vt, p.skip(e0.len() as int));
    }
}

} // verus!

verus! {

impl Value {
    /// Whether the value can be encoded: every length or count written
    /// as a 4-byte field fits in it.
    #[verifier::loop_isolation(false)]
    pub fn is_encodable(&self) -> (b: bool)
        ensures
            b == value_wf(self@),
        decreases *self,
    {
        match self {
            Value::Boolean(_) => true,
            Value::Number(_) => true,
            Value::String(s) => (s.as_str().as_bytes().len() as u64) <= (u32::MAX as u64),
            Value::Bytes(bs) => (bs.len() as u64) <= (u32::MAX as u64),
            Value::Array(a) => {
                proof {
                    lemma_values_view_props(a@);
                }
                if (a.len() as u64) > (u32::MAX as u64) {
                    return false;
                }
                let mut i: usize = 0;
                while i < a.len()
                    invariant
                        i <= a@.len(),
                        forall|j: int| 0 <= j < i ==> value_wf(#[trigger] values_view(a@)[j]),
                    decreases a@.len() - i,
                {
                    if !a[i].is_encodable() {
                        return false;
                    }
                    i = i + 1;
                }
                true
            },
        }
    }
}

} // verus!
