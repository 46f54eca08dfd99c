//! Typed field values, documents and their wire encodings.
//!
//! Fixed-width integers are big-endian. Strings and byte arrays are
//! length-prefixed with a varint. A value is one tag byte followed by its
//! payload. Floating-point payloads are carried as their IEEE-754 bit
//! patterns, stored big-endian like the other fixed-width fields.
use crate::varint::{read_vu64, vu64_dec, vu64_enc, write_vu64};
use crate::{GyError, GyResult};
use vstd::prelude::*;
use vstd::slice::{slice_subrange, slice_to_vec};
use vstd::string::StrSliceExecFns;
use vstd::utf8::{decode_utf8, encode_utf8, valid_utf8};

verus! {

pub type DocID = u64;

/// Big-endian bytes of a 32-bit integer.
pub open spec fn be32(x: u32) -> Seq<u8> {
    seq![(x >> 24) as u8, (x >> 16) as u8, (x >> 8) as u8, x as u8]
}

/// Big-endian bytes of a 64-bit integer.
pub open spec fn be64(x: u64) -> Seq<u8> {
    be32((x >> 32) as u32) + be32(x as u32)
}

/// The value read back from four big-endian bytes.
pub open spec fn be32_val(s: Seq<u8>) -> u32 {
    (s[0] as u32) << 24 | (s[1] as u32) << 16 | (s[2] as u32) << 8 | s[3] as u32
}

/// The value read back from eight big-endian bytes.
pub open spec fn be64_val(s: Seq<u8>) -> u64 {
    (be32_val(s) as u64) << 32 | be32_val(s.skip(4)) as u64
}

/// Four big-endian bytes decode to the integer they came from.
pub proof fn lemma_be32_round_trip(x: u32)
    ensures
        be32_val(be32(x)) == x,
{
    assert(((x >> 24) as u8 as u32) << 24 | ((x >> 16) as u8 as u32) << 16 | ((x >> 8) as u8 as u32) << 8
        | (x as u8 as u32) == x) by (bit_vector);
}

/// Eight big-endian bytes decode to the integer they came from.
pub proof fn lemma_be64_round_trip(x: u64)
    ensures
        be64_val(be64(x)) == x,
{
    let hi = (x >> 32) as u32;
    let lo = x as u32;
    lemma_be32_round_trip(hi);
    lemma_be32_round_trip(lo);
    assert(be64(x).skip(4) =~= be32(lo));
    assert(be32_val(be64(x)) == be32_val(be32(hi))) by {
        assert(forall|i: int| 0 <= i < 4 ==> be64(x)[i] == be32(hi)[i]);
    };
    assert((hi as u64) << 32 | (lo as u64) == x) by (bit_vector)
        requires
            hi == (x >> 32) as u32 && lo == x as u32,
    ;
}

/// Appends the four big-endian bytes of `x`.
pub fn write_u32_be(out: &mut Vec<u8>, x: u32)
    ensures
        final(out)@ == old(out)@ + be32(x),
{
    out.push((x >> 24) as u8);
    out.push((x >> 16) as u8);
    out.push((x >> 8) as u8);
    out.push(x as u8);
    assert(final(out)@ =~= old(out)@ + be32(x));
}

/// Appends the eight big-endian bytes of `x`.
pub fn write_u64_be(out: &mut Vec<u8>, x: u64)
    ensures
        final(out)@ == old(out)@ + be64(x),
{
    write_u32_be(out, (x >> 32) as u32);
    write_u32_be(out, x as u32);
    assert(final(out)@ =~= old(out)@ + be64(x));
}

/// Reads four big-endian bytes starting at `pos`.
pub fn read_u32_be(b: &[u8], pos: usize) -> (r: GyResult<(u32, usize)>)
    requires
        pos <= b@.len(),
    ensures
        match r {
            Ok((v, end)) => {
                &&& end == pos + 4 <= b@.len()
                &&& v == be32_val(b@.subrange(pos as int, b@.len() as int))
                &&& be32(v) =~= b@.subrange(pos as int, pos + 4)
            },
            Err(e) => e == GyError::UnexpectedEof && pos + 4 > b@.len(),
        },
{
    if b.len() < 4 || pos > b.len() - 4 {
        return Err(GyError::UnexpectedEof);
    }
    let b0 = b[pos];
    let b1 = b[pos + 1];
    let b2 = b[pos + 2];
    let b3 = b[pos + 3];
    let v = (b0 as u32) << 24 | (b1 as u32) << 16 | (b2 as u32) << 8 | b3 as u32;
    proof {
        let s = b@.subrange(pos as int, b@.len() as int);
        assert(s[0] == b0 && s[1] == b1 && s[2] == b2 && s[3] == b3);
        assert((v >> 24) as u8 == b0 && (v >> 16) as u8 == b1 && (v >> 8) as u8 == b2 && v as u8
            == b3) by (bit_vector)
            requires
                v == (b0 as u32) << 24 | (b1 as u32) << 16 | (b2 as u32) << 8 | b3 as u32,
        ;
        assert(be32(v) =~= b@.subrange(pos as int, pos + 4));
    }
    Ok((v, pos + 4))
}

/// Reads eight big-endian bytes starting at `pos`.
pub fn read_u64_be(b: &[u8], pos: usize) -> (r: GyResult<(u64, usize)>)
    requires
        pos <= b@.len(),
    ensures
        match r {
            Ok((v, end)) => {
                &&& end == pos + 8 <= b@.len()
                &&& v == be64_val(b@.subrange(pos as int, b@.len() as int))
                &&& be64(v) =~= b@.subrange(pos as int, pos + 8)
            },
            Err(e) => e == GyError::UnexpectedEof && pos + 8 > b@.len(),
        },
{
    if b.len() < 8 || pos > b.len() - 8 {
        return Err(GyError::UnexpectedEof);
    }
    let (hi, _mid) = read_u32_be(b, pos)?;
    let (lo, _end) = read_u32_be(b, pos + 4)?;
    let v = (hi as u64) << 32 | lo as u64;
    proof {
        let s = b@.subrange(pos as int, b@.len() as int);
        let s2 = b@.subrange(pos + 4, b@.len() as int);
        assert(s.skip(4) =~= s2);
        assert(forall|i: int| 0 <= i < 4 ==> s[i] == b@[pos + i]);
        assert(hi == be32_val(s) && lo == be32_val(s.skip(4)));
        assert((v >> 32) as u32 == hi && v as u32 == lo) by (bit_vector)
            requires
                v == (hi as u64) << 32 | lo as u64,
        ;
        assert(be64(v) =~= b@.subrange(pos as int, pos + 8));
    }
    Ok((v, pos + 8))
}

/// Compares two byte slices for equality.
pub fn bytes_eq(a: &[u8], b: &[u8]) -> (r: bool)
    ensures
        r <==> a@ == b@,
{
    if a.len() != b.len() {
        proof {
            assert(a@.len() != b@.len());
        }
        return false;
    }
    let mut i: usize = 0;
    while i < a.len()
        invariant
            i <= a@.len(),
            a@.len() == b@.len(),
            forall|j: int| 0 <= j < i ==> a@[j] == b@[j],
        decreases a@.len() - i,
    {
        if a[i] != b[i] {
            return false;
        }
        i += 1;
    }
    proof {
        assert(a@ =~= b@);
    }
    true
}

/// The mathematical form of a field value: strings as character sequences,
/// floating-point numbers as their bit patterns, dates as nanoseconds.
pub ghost enum ValView {
    Str(Seq<char>),
    I64(i64),
    U64(u64),
    I32(i32),
    U32(u32),
    F64(u64),
    F32(u32),
    Date(i64),
    Bytes(Seq<u8>),
}

/// A field's value. Text is a string; numbers keep their width and sign.
/// The `F64` and `F32` variants carry IEEE-754 bit patterns, and `Date`
/// carries nanoseconds since the epoch, so that every variant is a plain
/// value with an exact wire form.
#[derive(Debug, PartialEq)]
pub enum Value {
    Str(&'static str),
    String(String),
    I64(i64),
    U64(u64),
    I32(i32),
    U32(u32),
    F64(u64),
    F32(u32),
    Date(i64),
    Bytes(Vec<u8>),
}

impl View for Value {
    type V = ValView;

    open spec fn view(&self) -> ValView {
        match self {
            Value::Str(s) => ValView::Str(s@),
            Value::String(s) => ValView::Str(s@),
            Value::I64(i) => ValView::I64(*i),
            Value::U64(u) => ValView::U64(*u),
            Value::I32(i) => ValView::I32(*i),
            Value::U32(u) => ValView::U32(*u),
            Value::F64(u) => ValView::F64(*u),
            Value::F32(u) => ValView::F32(*u),
            Value::Date(d) => ValView::Date(*d),
            Value::Bytes(b) => ValView::Bytes(b@),
        }
    }
}

/// The one-byte-tagged wire form of a value.
pub open spec fn enc_val(v: ValView) -> Seq<u8> {
    match v {
        ValView::Str(s) => seq![0u8] + vu64_enc(encode_utf8(s).len() as u64) + encode_utf8(s),
        ValView::I64(i) => seq![1u8] + be64(i as u64),
        ValView::U64(u) => seq![2u8] + be64(u),
        ValView::I32(i) => seq![3u8] + be32(i as u32),
        ValView::U32(u) => seq![4u8] + be32(u),
        ValView::F32(u) => seq![5u8] + be32(u),
        ValView::F64(u) => seq![6u8] + be64(u),
        ValView::Date(d) => seq![7u8] + be64(d as u64),
        ValView::Bytes(bs) => seq![8u8] + vu64_enc(bs.len() as u64) + bs,
    }
}

/// Lengths that fit the varint prefix; every value held in memory meets it.
pub open spec fn wf_val(v: ValView) -> bool {
    match v {
        ValView::Str(s) => encode_utf8(s).len() <= u64::MAX,
        ValView::Bytes(bs) => bs.len() <= u64::MAX,
        _ => true,
    }
}

/// Decoding one value from the front of `b`: the value and the bytes
/// consumed, or `None` when `b` holds no complete value.
pub open spec fn dec_val(b: Seq<u8>) -> Option<(ValView, int)> {
    if b.len() == 0 {
        None
    } else {
        let t = b[0];
        let p = b.drop_first();
        if t == 0 || t == 8 {
            match vu64_dec(p) {
                None => None,
                Some((n, k)) => {
                    if 1 + k + n <= b.len() {
                        let payload = b.subrange(1 + k, 1 + k + n as int);
                        if t == 0 {
                            if valid_utf8(payload) {
                                Some((ValView::Str(decode_utf8(payload)), 1 + k + n as int))
                            } else {
                                None
                            }
                        } else {
                            Some((ValView::Bytes(payload), 1 + k + n as int))
                        }
                    } else {
                        None
                    }
                },
            }
        } else if t == 1 || t == 2 || t == 6 || t == 7 {
            if b.len() >= 9 {
                let x = be64_val(p);
                if t == 1 {
                    Some((ValView::I64(x as i64), 9))
                } else if t == 2 {
                    Some((ValView::U64(x), 9))
                } else if t == 6 {
                    Some((ValView::F64(x), 9))
                } else {
                    Some((ValView::Date(x as i64), 9))
                }
            } else {
                None
            }
        } else if t == 3 || t == 4 || t == 5 {
            if b.len() >= 5 {
                let x = be32_val(p);
                if t == 3 {
                    Some((ValView::I32(x as i32), 5))
                } else if t == 4 {
                    Some((ValView::U32(x), 5))
                } else {
                    Some((ValView::F32(x), 5))
                }
            } else {
                None
            }
        } else {
            None
        }
    }
}

/// Decoding an encoded value, whatever follows it, gives the value back.
pub proof fn lemma_dec_val_enc_val(v: ValView, rest: Seq<u8>)
    requires
        wf_val(v),
    ensures
        dec_val(enc_val(v) + rest) == Some((v, enc_val(v).len() as int)),
{
    let b = enc_val(v) + rest;
    let p = b.drop_first();
    match v {
        ValView::Str(s) => {
            let bytes = encode_utf8(s);
            let n = bytes.len() as u64;
            crate::varint::lemma_vu64_round_trip(n, bytes + rest);
            assert(p =~= vu64_enc(n) + (bytes + rest));
            let k = vu64_enc(n).len() as int;
            assert(b.subrange(1 + k, 1 + k + n as int) =~= bytes);
            vstd::utf8::encode_utf8_valid_utf8(s);
            vstd::utf8::encode_utf8_decode_utf8(s);
        },
        ValView::Bytes(bs) => {
            let n = bs.len() as u64;
            crate::varint::lemma_vu64_round_trip(n, bs + rest);
            assert(p =~= vu64_enc(n) + (bs + rest));
            let k = vu64_enc(n).len() as int;
            assert(b.subrange(1 + k, 1 + k + n as int) =~= bs);
        },
        ValView::I64(i) => {
            let u = i as u64;
            lemma_be64_prefix(u, rest);
            assert(p =~= be64(u) + rest);
            assert(u as i64 == i) by (bit_vector)
                requires
                    u == i as u64,
            ;
        },
        ValView::U64(u) => {
            lemma_be64_prefix(u, rest);
            assert(p =~= be64(u) + rest);
        },
        ValView::F64(u) => {
            lemma_be64_prefix(u, rest);
            assert(p =~= be64(u) + rest);
        },
        ValView::Date(d) => {
            let u = d as u64;
            lemma_be64_prefix(u, rest);
            assert(p =~= be64(u) + rest);
            assert(u as i64 == d) by (bit_vector)
                requires
                    u == d as u64,
            ;
        },
        ValView::I32(i) => {
            let u = i as u32;
            lemma_be32_prefix(u, rest);
            assert(p =~= be32(u) + rest);
            assert(u as i32 == i) by (bit_vector)
                requires
                    u == i as u32,
            ;
        },
        ValView::U32(u) => {
            lemma_be32_prefix(u, rest);
            assert(p =~= be32(u) + rest);
        },
        ValView::F32(u) => {
            lemma_be32_prefix(u, rest);
            assert(p =~= be32(u) + rest);
        },
    }
}

/// `be32_val` reads only the first four bytes.
pub proof fn lemma_be32_prefix(x: u32, rest: Seq<u8>)
    ensures
        be32_val(be32(x) + rest) == x,
{
    lemma_be32_round_trip(x);
    assert(be32_val(be32(x) + rest) == be32_val(be32(x))) by {
        assert(forall|i: int| 0 <= i < 4 ==> (be32(x) + rest)[i] == be32(x)[i]);
    };
}

/// `be64_val` reads only the first eight bytes.
pub proof fn lemma_be64_prefix(x: u64, rest: Seq<u8>)
    ensures
        be64_val(be64(x) + rest) == x,
{
    lemma_be64_round_trip(x);
    let a = be64(x) + rest;
    assert(be32_val(a) == be32_val(be64(x))) by {
        assert(forall|i: int| 0 <= i < 4 ==> a[i] == be64(x)[i]);
    };
    assert(be32_val(a.skip(4)) == be32_val(be64(x).skip(4))) by {
        assert(forall|i: int| 0 <= i < 4 ==> a.skip(4)[i] == be64(x).skip(4)[i]);
    };
}

/// Relies on `String::from_utf8`: it accepts exactly the byte sequences that
/// are valid UTF-8, and returns the string those bytes spell.
#[verifier::external_body]
fn string_from_utf8(v: Vec<u8>) -> (r: Option<String>)
    ensures
        r is Some <==> valid_utf8(v@),
        r matches Some(s) ==> s@ == decode_utf8(v@),
{
    match String::from_utf8(v) {
        Ok(s) => Some(s),
        Err(_) => None,
    }
}

/// The canonical term bytes of a value: text as its UTF-8 bytes, numbers as
/// their big-endian fixed-width bytes.
pub open spec fn term_bytes_of(v: ValView) -> Seq<u8> {
    match v {
        ValView::Str(s) => encode_utf8(s),
        ValView::I64(i) => be64(i as u64),
        ValView::U64(u) => be64(u),
        ValView::I32(i) => be32(i as u32),
        ValView::U32(u) => be32(u),
        ValView::F32(u) => be32(u),
        ValView::F64(u) => be64(u),
        ValView::Date(d) => be64(d as u64),
        ValView::Bytes(bs) => bs,
    }
}

impl Value {
    /// Appends the tagged wire form of this value.
    pub fn binary_serialize(&self, out: &mut Vec<u8>) -> (r: GyResult<()>)
        ensures
            r is Ok,
            final(out)@ == old(out)@ + enc_val(self@),
    {
        match self {
            Value::Str(s) => {
                out.push(0u8);
                let mut bv = s.as_bytes_vec();
                write_vu64(out, bv.len() as u64);
                out.append(&mut bv);
            },
            Value::String(s) => {
                out.push(0u8);
                let mut bv = s.as_str().as_bytes_vec();
                write_vu64(out, bv.len() as u64);
                out.append(&mut bv);
            },
            Value::I64(i) => {
                out.push(1u8);
                write_u64_be(out, *i as u64);
            },
            Value::U64(u) => {
                out.push(2u8);
                write_u64_be(out, *u);
            },
            Value::I32(i) => {
                out.push(3u8);
                write_u32_be(out, *i as u32);
            },
            Value::U32(u) => {
                out.push(4u8);
                write_u32_be(out, *u);
            },
            Value::F32(u) => {
                out.push(5u8);
                write_u32_be(out, *u);
            },
            Value::F64(u) => {
                out.push(6u8);
                write_u64_be(out, *u);
            },
            Value::Date(d) => {
                out.push(7u8);
                write_u64_be(out, *d as u64);
            },
            Value::Bytes(b) => {
                out.push(8u8);
                write_vu64(out, b.len() as u64);
                let mut bv = slice_to_vec(b.as_slice());
                out.append(&mut bv);
            },
        }
        assert(final(out)@ =~= old(out)@ + enc_val(self@));
        Ok(())
    }

    /// Reads one tagged value starting at `pos`.
    pub fn binary_deserialize(b: &[u8], pos: usize) -> (r: GyResult<(Value, usize)>)
        requires
            pos <= b@.len(),
        ensures
            match r {
                Ok((v, end)) => {
                    &&& pos < end <= b@.len()
                    &&& dec_val(b@.subrange(pos as int, b@.len() as int)) == Some(
                        (v@, end - pos as int),
                    )
                },
                Err(e) => {
                    &&& dec_val(b@.subrange(pos as int, b@.len() as int)) is None
                    &&& (e == GyError::UnexpectedEof || e == GyError::InvalidValueType || e
                        == GyError::Serialization)
                    &&& (e == GyError::InvalidValueType <==> pos < b@.len() && b@[pos as int] > 8)
                },
            },
    {
        let ghost tail = b@.subrange(pos as int, b@.len() as int);
        if pos >= b.len() {
            return Err(GyError::UnexpectedEof);
        }
        let tag = b[pos];
        let ghost p = tail.drop_first();
        proof {
            assert(p =~= b@.subrange(pos + 1, b@.len() as int));
        }
        if tag == 0 || tag == 8 {
            let (n, after_len) = match read_vu64(b, pos + 1) {
                Ok(x) => x,
                Err(e) => {
                    return Err(e);
                },
            };
            if n > (b.len() - after_len) as u64 {
                return Err(GyError::UnexpectedEof);
            }
            let m = n as usize;
            let payload = slice_subrange(b, after_len, after_len + m);
            proof {
                assert(payload@ =~= tail.subrange(
                    1 + (after_len - (pos + 1)),
                    1 + (after_len - (pos + 1)) + n as int,
                ));
            }
            if tag == 0 {
                match string_from_utf8(slice_to_vec(payload)) {
                    Some(s) => Ok((Value::String(s), after_len + m)),
                    None => Err(GyError::Serialization),
                }
            } else {
                Ok((Value::Bytes(slice_to_vec(payload)), after_len + m))
            }
        } else if tag == 1 || tag == 2 || tag == 6 || tag == 7 {
            let (x, end) = match read_u64_be(b, pos + 1) {
                Ok(x) => x,
                Err(e) => {
                    return Err(e);
                },
            };
            if tag == 1 {
                Ok((Value::I64(x as i64), end))
            } else if tag == 2 {
                Ok((Value::U64(x), end))
            } else if tag == 6 {
                Ok((Value::F64(x), end))
            } else {
                Ok((Value::Date(x as i64), end))
            }
        } else if tag == 3 || tag == 4 || tag == 5 {
            let (x, end) = match read_u32_be(b, pos + 1) {
                Ok(x) => x,
                Err(e) => {
                    return Err(e);
                },
            };
            if tag == 3 {
                Ok((Value::I32(x as i32), end))
            } else if tag == 4 {
                Ok((Value::U32(x), end))
            } else {
                Ok((Value::F32(x), end))
            }
        } else {
            Err(GyError::InvalidValueType)
        }
    }

    /// The canonical term bytes of this value, used to key the inverted
    /// index.
    pub fn to_vec(&self) -> (r: GyResult<Vec<u8>>)
        ensures
            match r {
                Ok(v) => v@ == term_bytes_of(self@),
                Err(_) => false,
            },
    {
        let mut out: Vec<u8> = Vec::new();
        match self {
            Value::Str(s) => {
                let mut bv = s.as_bytes_vec();
                out.append(&mut bv);
            },
            Value::String(s) => {
                let mut bv = s.as_str().as_bytes_vec();
                out.append(&mut bv);
            },
            Value::I64(i) => write_u64_be(&mut out, *i as u64),
            Value::U64(u) => write_u64_be(&mut out, *u),
            Value::I32(i) => write_u32_be(&mut out, *i as u32),
            Value::U32(u) => write_u32_be(&mut out, *u),
            Value::F32(u) => write_u32_be(&mut out, *u),
            Value::F64(u) => write_u64_be(&mut out, *u),
            Value::Date(d) => write_u64_be(&mut out, *d as u64),
            Value::Bytes(b) => {
                let mut bv = slice_to_vec(b.as_slice());
                out.append(&mut bv);
            },
        }
        assert(out@ =~= term_bytes_of(self@));
        Ok(out)
    }

    /// The exact length of this value's wire form.
    pub fn size(&self) -> (r: GyResult<usize>)
        ensures
            match r {
                Ok(sz) => sz == enc_val(self@).len(),
                Err(e) => e == GyError::Serialization && enc_val(self@).len() > usize::MAX,
            },
    {
        match self {
            Value::Str(s) => {
                let n = s.as_bytes().len();
                let vl = crate::varint::vu64_len(n as u64);
                if n > usize::MAX - 1 - vl {
                    Err(GyError::Serialization)
                } else {
                    Ok(1 + vl + n)
                }
            },
            Value::String(s) => {
                let n = s.as_str().as_bytes().len();
                let vl = crate::varint::vu64_len(n as u64);
                if n > usize::MAX - 1 - vl {
                    Err(GyError::Serialization)
                } else {
                    Ok(1 + vl + n)
                }
            },
            Value::I64(_) => Ok(9),
            Value::U64(_) => Ok(9),
            Value::I32(_) => Ok(5),
            Value::U32(_) => Ok(5),
            Value::F32(_) => Ok(5),
            Value::F64(_) => Ok(9),
            Value::Date(_) => Ok(9),
            Value::Bytes(b) => {
                let n = b.len();
                let vl = crate::varint::vu64_len(n as u64);
                if n > usize::MAX - 1 - vl {
                    Err(GyError::Serialization)
                } else {
                    Ok(1 + vl + n)
                }
            },
        }
    }
}

/// An unsigned integer carried in varint form.
#[derive(Debug)]
pub struct VUInt(pub u64);

impl VUInt {
    pub fn val(&self) -> (r: u64)
        ensures
            r == self.0,
    {
        self.0
    }

    /// Appends the varint form; returns how many bytes it took.
    pub fn binary_serialize(&self, out: &mut Vec<u8>) -> (r: GyResult<usize>)
        ensures
            final(out)@ == old(out)@ + vu64_enc(self.0),
            r matches Ok(n) && n == vu64_enc(self.0).len(),
    {
        let l = crate::varint::vu64_len(self.0);
        write_vu64(out, self.0);
        Ok(l)
    }

    /// Reads one varint at `pos`; returns the value and the bytes consumed.
    pub fn binary_deserialize(b: &[u8], pos: usize) -> (r: GyResult<(VUInt, usize)>)
        requires
            pos <= b@.len(),
        ensures
            match r {
                Ok((v, n)) => {
                    &&& 0 < n <= b@.len() - pos
                    &&& vu64_dec(b@.subrange(pos as int, b@.len() as int)) == Some(
                        (v.0, n as int),
                    )
                },
                Err(e) => {
                    &&& e == GyError::UnexpectedEof
                    &&& vu64_dec(b@.subrange(pos as int, b@.len() as int)) is None
                },
            },
    {
        match read_vu64(b, pos) {
            Ok((v, end)) => Ok((VUInt(v), end - pos)),
            Err(e) => Err(e),
        }
    }
}

/// The zig-zag mapping that sends small-magnitude signed numbers to small
/// unsigned ones.
pub open spec fn zigzag(x: i64) -> u64 {
    if x < 0 {
        !((x as u64) << 1)
    } else {
        (x as u64) << 1
    }
}

pub open spec fn unzigzag(u: u64) -> i64 {
    if u & 1 != 0 {
        !(u >> 1) as i64
    } else {
        (u >> 1) as i64
    }
}

/// Zig-zag then un-zig-zag is the identity on every signed value.
pub proof fn lemma_zigzag_round_trip(x: i64)
    ensures
        unzigzag(zigzag(x)) == x,
{
    if x < 0 {
        let u = !((x as u64) << 1);
        assert(u & 1 != 0 && !(u >> 1) as i64 == x) by (bit_vector)
            requires
                u == !((x as u64) << 1) && x < 0,
        ;
    } else {
        let u = (x as u64) << 1;
        assert(u & 1 == 0 && (u >> 1) as i64 == x) by (bit_vector)
            requires
                u == (x as u64) << 1 && x >= 0,
        ;
    }
}

/// Decoding one zig-zag varint from the front of `b`.
pub open spec fn dec_vint(b: Seq<u8>) -> Option<(i64, int)> {
    match vu64_dec(b) {
        None => None,
        Some((u, k)) => Some((unzigzag(u), k)),
    }
}

/// A signed integer carried in zig-zag varint form.
#[derive(Debug)]
pub struct VInt(pub i64);

impl VInt {
    pub fn val(&self) -> (r: i64)
        ensures
            r == self.0,
    {
        self.0
    }

    /// Appends the zig-zag varint form of this value.
    pub fn binary_serialize(&self, out: &mut Vec<u8>) -> (r: GyResult<()>)
        ensures
            r is Ok,
            final(out)@ == old(out)@ + vu64_enc(zigzag(self.0)),
    {
        let x = self.0;
        let u: u64 = if x < 0 {
            !((x as u64) << 1)
        } else {
            (x as u64) << 1
        };
        write_vu64(out, u);
        Ok(())
    }

    /// Reads one zig-zag varint at `pos`; returns the value and the bytes
    /// consumed.
    pub fn binary_deserialize(b: &[u8], pos: usize) -> (r: GyResult<(VInt, usize)>)
        requires
            pos <= b@.len(),
        ensures
            match r {
                Ok((v, n)) => {
                    &&& 0 < n <= b@.len() - pos
                    &&& dec_vint(b@.subrange(pos as int, b@.len() as int)) == Some(
                        (v.0, n as int),
                    )
                },
                Err(e) => {
                    &&& e == GyError::UnexpectedEof
                    &&& dec_vint(b@.subrange(pos as int, b@.len() as int)) is None
                },
            },
    {
        match read_vu64(b, pos) {
            Ok((u, end)) => {
                let v: i64 = if u & 1 != 0 {
                    !(u >> 1) as i64
                } else {
                    (u >> 1) as i64
                };
                Ok((VInt(v), end - pos))
            },
            Err(e) => Err(e),
        }
    }
}

/// One posting-list record: a document-id delta and a term frequency.
/// In the wire form a frequency of one is folded into the delta's low bit.
#[derive(Debug, PartialEq)]
pub struct DocFreq(pub DocID, pub u32);

/// The wire form of one posting record.
pub open spec fn enc_doc_freq(delta: u64, freq: u32) -> Seq<u8> {
    if freq == 1 {
        vu64_enc(delta << 1 | 1)
    } else {
        vu64_enc(delta << 1) + vu64_enc(freq as u64)
    }
}

/// Decoding one posting record from the front of `b`.
pub open spec fn dec_doc_freq(b: Seq<u8>) -> Option<((u64, u32), int)> {
    match vu64_dec(b) {
        None => None,
        Some((code, k)) => {
            if code & 1 == 1 {
                Some(((code >> 1, 1u32), k))
            } else {
                match vu64_dec(b.skip(k)) {
                    None => None,
                    Some((f, k2)) => Some(((code >> 1, f as u32), k + k2)),
                }
            }
        },
    }
}

/// A posting record's wire form decodes to the record it came from.
pub proof fn lemma_doc_freq_round_trip(delta: u64, freq: u32, rest: Seq<u8>)
    requires
        delta < 0x8000_0000_0000_0000,
        freq >= 1,
    ensures
        dec_doc_freq(enc_doc_freq(delta, freq) + rest) == Some(
            ((delta, freq), enc_doc_freq(delta, freq).len() as int),
        ),
{
    if freq == 1 {
        let code = delta << 1 | 1;
        crate::varint::lemma_vu64_round_trip(code, rest);
        assert(code & 1 == 1 && code >> 1 == delta) by (bit_vector)
            requires
                code == delta << 1 | 1 && delta < 0x8000_0000_0000_0000,
        ;
    } else {
        let code = delta << 1;
        let b = enc_doc_freq(delta, freq) + rest;
        crate::varint::lemma_vu64_round_trip(code, vu64_enc(freq as u64) + rest);
        assert(b =~= vu64_enc(code) + (vu64_enc(freq as u64) + rest));
        let k = vu64_enc(code).len() as int;
        crate::varint::lemma_vu64_round_trip(freq as u64, rest);
        assert(b.skip(k) =~= vu64_enc(freq as u64) + rest);
        assert(code & 1 == 0 && code >> 1 == delta) by (bit_vector)
            requires
                code == delta << 1 && delta < 0x8000_0000_0000_0000,
        ;
        assert((freq as u64) as u32 == freq);
    }
}

impl DocFreq {
    /// The document id this record stands for (a delta in wire form).
    pub fn doc_id(&self) -> (r: DocID)
        ensures
            r == self.0,
    {
        self.0
    }

    /// How many times the term occurred in that document.
    pub fn freq(&self) -> (r: u32)
        ensures
            r == self.1,
    {
        self.1
    }

    /// Appends the wire form; the record's first field is taken as the
    /// delta.
    pub fn binary_serialize(&self, out: &mut Vec<u8>) -> (r: GyResult<()>)
        requires
            self.0 < 0x8000_0000_0000_0000,
        ensures
            r is Ok,
            final(out)@ == old(out)@ + enc_doc_freq(self.0, self.1),
    {
        if self.1 == 1 {
            write_vu64(out, self.0 << 1 | 1);
        } else {
            write_vu64(out, self.0 << 1);
            write_vu64(out, self.1 as u64);
            assert(final(out)@ =~= old(out)@ + enc_doc_freq(self.0, self.1));
        }
        Ok(())
    }

    /// Reads one record at `pos`; the returned record holds the decoded
    /// delta and frequency.
    pub fn binary_deserialize(b: &[u8], pos: usize) -> (r: GyResult<(DocFreq, usize)>)
        requires
            pos <= b@.len(),
        ensures
            match r {
                Ok((df, end)) => {
                    &&& pos < end <= b@.len()
                    &&& dec_doc_freq(b@.subrange(pos as int, b@.len() as int)) == Some(
                        ((df.0, df.1), end - pos as int),
                    )
                },
                Err(e) => {
                    &&& e == GyError::UnexpectedEof
                    &&& dec_doc_freq(b@.subrange(pos as int, b@.len() as int)) is None
                },
            },
    {
        let ghost tail = b@.subrange(pos as int, b@.len() as int);
        let (code, p1) = match read_vu64(b, pos) {
            Ok(x) => x,
            Err(e) => {
                return Err(e);
            },
        };
        if code & 1 == 1 {
            Ok((DocFreq(code >> 1, 1), p1))
        } else {
            proof {
                assert(tail.skip(p1 - pos) =~= b@.subrange(p1 as int, b@.len() as int));
            }
            let (f, p2) = match read_vu64(b, p1) {
                Ok(x) => x,
                Err(e) => {
                    return Err(e);
                },
            };
            Ok((DocFreq(code >> 1, f as u32), p2))
        }
    }
}

/// A field's position in the schema.
#[derive(Debug, Clone, Copy, PartialEq, Eq, Structural, Hash)]
pub struct FieldID(pub u32);

impl FieldID {
    pub fn from_field_id(field_id: u32) -> (r: FieldID)
        ensures
            r.0 == field_id,
    {
        FieldID(field_id)
    }

    /// The wire width of a field id.
    pub fn size(&self) -> (r: usize)
        ensures
            r == 4,
    {
        4
    }

    pub fn binary_serialize(&self, out: &mut Vec<u8>) -> (r: GyResult<()>)
        ensures
            r is Ok,
            final(out)@ == old(out)@ + be32(self.0),
    {
        write_u32_be(out, self.0);
        Ok(())
    }

    pub fn binary_deserialize(b: &[u8], pos: usize) -> (r: GyResult<(FieldID, usize)>)
        requires
            pos <= b@.len(),
        ensures
            match r {
                Ok((id, end)) => {
                    &&& end == pos + 4 <= b@.len()
                    &&& be32(id.0) =~= b@.subrange(pos as int, pos + 4)
                    &&& id.0 == be32_val(b@.subrange(pos as int, b@.len() as int))
                },
                Err(e) => e == GyError::UnexpectedEof && pos + 4 > b@.len(),
            },
    {
        match read_u32_be(b, pos) {
            Ok((v, end)) => Ok((FieldID(v), end)),
            Err(e) => Err(e),
        }
    }
}

/// One field of a document: which field, and its value.
#[derive(Debug, PartialEq)]
pub struct FieldValue {
    pub field_id: FieldID,
    pub value: Value,
}

impl View for FieldValue {
    type V = (u32, ValView);

    open spec fn view(&self) -> (u32, ValView) {
        (self.field_id.0, self.value@)
    }
}

/// The wire form of one field value: its id, then its value.
pub open spec fn enc_fv(p: (u32, ValView)) -> Seq<u8> {
    be32(p.0) + enc_val(p.1)
}

/// Decoding one field value from the front of `b`.
pub open spec fn dec_fv(b: Seq<u8>) -> Option<((u32, ValView), int)> {
    if b.len() < 4 {
        None
    } else {
        match dec_val(b.skip(4)) {
            None => None,
            Some((v, k)) => Some(((be32_val(b), v), 4 + k)),
        }
    }
}

pub proof fn lemma_dec_fv_enc_fv(p: (u32, ValView), rest: Seq<u8>)
    requires
        wf_val(p.1),
    ensures
        dec_fv(enc_fv(p) + rest) == Some((p, enc_fv(p).len() as int)),
{
    let b = enc_fv(p) + rest;
    assert(b.skip(4) =~= enc_val(p.1) + rest);
    lemma_dec_val_enc_val(p.1, rest);
    lemma_be32_prefix(p.0, enc_val(p.1) + rest);
    assert(be32(p.0) + (enc_val(p.1) + rest) =~= b);
}

impl FieldValue {
    pub fn new(field_id: FieldID, value: Value) -> (r: FieldValue)
        ensures
            r.field_id == field_id,
            r.value == value,
    {
        FieldValue { field_id, value }
    }

    /// The exact length of this field value's wire form.
    pub fn size(&self) -> (r: GyResult<usize>)
        ensures
            match r {
                Ok(sz) => sz == enc_fv(self@).len(),
                Err(e) => e == GyError::Serialization && enc_fv(self@).len() > usize::MAX,
            },
    {
        match self.value.size() {
            Ok(n) => {
                if n > usize::MAX - 4 {
                    Err(GyError::Serialization)
                } else {
                    Ok(4 + n)
                }
            },
            Err(e) => Err(e),
        }
    }

    pub fn field_id(&self) -> (r: &FieldID)
        ensures
            r == self.field_id,
    {
        &self.field_id
    }

    pub fn value(&self) -> (r: &Value)
        ensures
            r == &self.value,
    {
        &self.value
    }

    pub fn binary_serialize(&self, out: &mut Vec<u8>) -> (r: GyResult<()>)
        ensures
            r is Ok,
            final(out)@ == old(out)@ + enc_fv(self@),
    {
        write_u32_be(out, self.field_id.0);
        let r = self.value.binary_serialize(out);
        assert(final(out)@ =~= old(out)@ + enc_fv(self@));
        r
    }

    pub fn binary_deserialize(b: &[u8], pos: usize) -> (r: GyResult<(FieldValue, usize)>)
        requires
            pos <= b@.len(),
        ensures
            match r {
                Ok((fv, end)) => {
                    &&& pos < end <= b@.len()
                    &&& dec_fv(b@.subrange(pos as int, b@.len() as int)) == Some(
                        (fv@, end - pos as int),
                    )
                },
                Err(e) => {
                    &&& dec_fv(b@.subrange(pos as int, b@.len() as int)) is None
                    &&& (e == GyError::UnexpectedEof || e == GyError::InvalidValueType || e
                        == GyError::Serialization)
                },
            },
    {
        let ghost tail = b@.subrange(pos as int, b@.len() as int);
        let (id, p1) = match FieldID::binary_deserialize(b, pos) {
            Ok(x) => x,
            Err(e) => {
                return Err(e);
            },
        };
        proof {
            assert(tail.skip(4) =~= b@.subrange(pos + 4, b@.len() as int));
        }
        let (v, end) = match Value::binary_deserialize(b, p1) {
            Ok(x) => x,
            Err(e) => {
                return Err(e);
            },
        };
        proof {
            assert(be32_val(tail) == id.0) by {
                assert(forall|i: int| 0 <= i < 4 ==> tail[i] == b@.subrange(pos as int, pos + 4)[i]);
                lemma_be32_round_trip(id.0);
                assert(be32_val(b@.subrange(pos as int, pos + 4)) == be32_val(be32(id.0))) by {
                    assert(forall|i: int|
                        0 <= i < 4 ==> b@.subrange(pos as int, pos + 4)[i] == be32(id.0)[i]);
                };
            };
        }
        Ok((FieldValue { field_id: id, value: v }, end))
    }
}

/// The view of a list of field values.
pub open spec fn fvs_view(s: Seq<FieldValue>) -> Seq<(u32, ValView)> {
    s.map_values(|fv: FieldValue| fv@)
}

/// The wire form of a list of field values, back to back.
pub open spec fn enc_fvs(s: Seq<(u32, ValView)>) -> Seq<u8>
    decreases s.len(),
{
    if s.len() == 0 {
        Seq::empty()
    } else {
        enc_fv(s[0]) + enc_fvs(s.drop_first())
    }
}

/// The wire form of a document: a field count, then the fields.
pub open spec fn enc_doc(s: Seq<(u32, ValView)>) -> Seq<u8> {
    vu64_enc(s.len() as u64) + enc_fvs(s)
}

/// A document whose lengths all fit their varint prefixes.
pub open spec fn wf_doc(s: Seq<(u32, ValView)>) -> bool {
    s.len() <= u64::MAX && forall|i: int| 0 <= i < s.len() ==> wf_val(#[trigger] s[i].1)
}

/// Decoding `n` field values from the front of `b`.
pub open spec fn dec_fvs(b: Seq<u8>, n: u64) -> Option<(Seq<(u32, ValView)>, int)>
    decreases n,
{
    if n == 0 {
        Some((Seq::empty(), 0))
    } else {
        match dec_fv(b) {
            None => None,
            Some((fv, k)) => {
                match dec_fvs(b.skip(k), (n - 1) as u64) {
                    None => None,
                    Some((rest, m)) => Some((seq![fv] + rest, k + m)),
                }
            },
        }
    }
}

/// Decoding one document from the front of `b`.
pub open spec fn dec_doc(b: Seq<u8>) -> Option<(Seq<(u32, ValView)>, int)> {
    match vu64_dec(b) {
        None => None,
        Some((n, k)) => {
            match dec_fvs(b.skip(k), n) {
                None => None,
                Some((s, m)) => Some((s, k + m)),
            }
        },
    }
}

/// The wire form of a field list splits at any point.
pub proof fn lemma_enc_fvs_split(s: Seq<(u32, ValView)>, i: int)
    requires
        0 <= i <= s.len(),
    ensures
        enc_fvs(s) == enc_fvs(s.take(i)) + enc_fvs(s.skip(i)),
    decreases i,
{
    if i == 0 {
        assert(s.take(0) =~= Seq::<(u32, ValView)>::empty());
        assert(s.skip(0) =~= s);
        assert(enc_fvs(s) =~= enc_fvs(s.take(0)) + enc_fvs(s.skip(0)));
    } else {
        assert(s.len() > 0);
        assert(enc_fvs(s) == enc_fv(s[0]) + enc_fvs(s.drop_first()));
        lemma_enc_fvs_split(s.drop_first(), i - 1);
        assert(s.drop_first().take(i - 1) =~= s.take(i).drop_first());
        assert(s.drop_first().skip(i - 1) =~= s.skip(i));
        assert(s.take(i).len() > 0);
        assert(enc_fvs(s.take(i)) == enc_fv(s.take(i)[0]) + enc_fvs(s.take(i).drop_first()));
        assert(s.take(i)[0] == s[0]);
        assert(enc_fvs(s) =~= enc_fvs(s.take(i)) + enc_fvs(s.skip(i)));
    }
}

pub proof fn lemma_enc_fvs_push(s: Seq<(u32, ValView)>, x: (u32, ValView))
    ensures
        enc_fvs(s.push(x)) == enc_fvs(s) + enc_fv(x),
    decreases s.len(),
{
    if s.len() == 0 {
        assert(s.push(x)[0] == x);
        assert(s.push(x).drop_first() =~= Seq::<(u32, ValView)>::empty());
        assert(enc_fvs(s.push(x).drop_first()) == Seq::<u8>::empty());
        assert(enc_fvs(s) == Seq::<u8>::empty());
        assert(enc_fvs(s.push(x)) =~= enc_fvs(s) + enc_fv(x));
    } else {
        assert(s.push(x).drop_first() =~= s.drop_first().push(x));
        lemma_enc_fvs_push(s.drop_first(), x);
        assert(s.push(x)[0] == s[0]);
        assert(enc_fvs(s.push(x)) =~= enc_fvs(s) + enc_fv(x));
    }
}

/// Decoding an encoded field list, whatever follows it, gives it back.
pub proof fn lemma_dec_fvs_enc_fvs(s: Seq<(u32, ValView)>, rest: Seq<u8>)
    requires
        s.len() <= u64::MAX,
        forall|i: int| 0 <= i < s.len() ==> wf_val(#[trigger] s[i].1),
    ensures
        dec_fvs(enc_fvs(s) + rest, s.len() as u64) == Some((s, enc_fvs(s).len() as int)),
    decreases s.len(),
{
    if s.len() == 0 {
        assert(enc_fvs(s) + rest =~= rest);
        assert(s =~= Seq::<(u32, ValView)>::empty());
    } else {
        let b = enc_fvs(s) + rest;
        let tail_enc = enc_fvs(s.drop_first());
        assert(b =~= enc_fv(s[0]) + (tail_enc + rest));
        lemma_dec_fv_enc_fv(s[0], tail_enc + rest);
        let k = enc_fv(s[0]).len() as int;
        assert(b.skip(k) =~= tail_enc + rest);
        assert(forall|i: int|
            0 <= i < s.drop_first().len() ==> wf_val(#[trigger] s.drop_first()[i].1));
        lemma_dec_fvs_enc_fvs(s.drop_first(), rest);
        assert(seq![s[0]] + s.drop_first() =~= s);
    }
}

/// A document's wire form deserialises to the document it came from, for
/// every representable combination of field values.
pub proof fn lemma_dec_doc_enc_doc(s: Seq<(u32, ValView)>, rest: Seq<u8>)
    requires
        wf_doc(s),
    ensures
        dec_doc(enc_doc(s) + rest) == Some((s, enc_doc(s).len() as int)),
{
    let b = enc_doc(s) + rest;
    let n = s.len() as u64;
    crate::varint::lemma_vu64_round_trip(n, enc_fvs(s) + rest);
    assert(b =~= vu64_enc(n) + (enc_fvs(s) + rest));
    let k = vu64_enc(n).len() as int;
    assert(b.skip(k) =~= enc_fvs(s) + rest);
    lemma_dec_fvs_enc_fvs(s, rest);
}

/// An ordered list of field values.
#[derive(Debug, PartialEq)]
pub struct Document {
    pub field_values: Vec<FieldValue>,
}

impl View for Document {
    type V = Seq<(u32, ValView)>;

    open spec fn view(&self) -> Seq<(u32, ValView)> {
        fvs_view(self.field_values@)
    }
}

impl Document {
    pub fn new() -> (r: Document)
        ensures
            r@ == Seq::<(u32, ValView)>::empty(),
    {
        let r = Document { field_values: Vec::new() };
        proof {
            assert(r@ =~= Seq::<(u32, ValView)>::empty());
        }
        r
    }

    pub fn from(field_values: Vec<FieldValue>) -> (r: Document)
        ensures
            r.field_values == field_values,
    {
        Document { field_values }
    }

    pub fn add_field_value(&mut self, field: FieldValue)
        ensures
            final(self).field_values@ == old(self).field_values@.push(field),
            final(self)@ == old(self)@.push(field@),
    {
        self.field_values.push(field);
        proof {
            assert(final(self)@ =~= old(self)@.push(field@));
        }
    }

    /// Orders the field values by field id; the same values remain, as a
    /// collection.
    pub fn sort_fieldvalues(&mut self)
        ensures
            final(self).field_values@.len() == old(self).field_values@.len(),
            forall|a: int, b: int|
                0 <= a < b < final(self).field_values@.len() ==> (#[trigger] final(self).field_values@[a]).field_id.0 <= (#[trigger] final(self).field_values@[
                    b
                ]).field_id.0,
            final(self).field_values@.to_multiset() == old(self).field_values@.to_multiset(),
    {
        let n = self.field_values.len();
        let mut i: usize = 1;
        while i < n
            invariant
                i >= 1,
                n == self.field_values@.len(),
                self.field_values@.to_multiset() == old(self).field_values@.to_multiset(),
                forall|a: int, b: int|
                    0 <= a < b < i ==> (#[trigger] self.field_values@[a]).field_id.0 <= (
                    #[trigger] self.field_values@[b]).field_id.0,
            decreases n - i,
        {
            let key = self.field_values[i].field_id.0;
            let mut j: usize = i;
            while j > 0
                invariant
                    j <= i < n,
                    n == self.field_values@.len(),
                    key == self.field_values@[i as int].field_id.0,
                    forall|b: int|
                        j <= b < i ==> (#[trigger] self.field_values@[b]).field_id.0 > key,
                ensures
                    j <= i < n,
                    n == self.field_values@.len(),
                    key == self.field_values@[i as int].field_id.0,
                    forall|b: int|
                        j <= b < i ==> (#[trigger] self.field_values@[b]).field_id.0 > key,
                    j == 0 || self.field_values@[j - 1].field_id.0 <= key,
                decreases j,
            {
                if self.field_values[j - 1].field_id.0 <= key {
                    break ;
                }
                j = j - 1;
            }
            let ghost s1 = self.field_values@;
            let v = self.field_values.remove(i);
            let ghost s2 = self.field_values@;
            self.field_values.insert(j, v);
            let ghost s3 = self.field_values@;
            proof {
                broadcast use vstd::seq_lib::group_to_multiset_ensures;

                assert(s2 =~= s1.remove(i as int));
                assert(s3.remove(j as int) =~= s2);
                assert(s3[j as int] == v && v == s1[i as int]);
                assert(s2.to_multiset() =~= s1.to_multiset().remove(s1[i as int]));
                assert(s2.to_multiset() =~= s3.to_multiset().remove(v));
                assert(s3.contains(v));
                assert(s3.to_multiset().count(v) > 0);
                assert forall|x: FieldValue| true implies s3.to_multiset().count(x) == s1
                    .to_multiset()
                    .count(x) by {
                    if x == v {
                        assert(s1.to_multiset().count(v) > 0) by {
                            assert(s1.contains(v));
                        };
                    }
                };
                assert(s3.to_multiset() =~= s1.to_multiset());
                assert forall|a: int, b: int|
                    0 <= a < b < i + 1 implies (#[trigger] s3[a]).field_id.0 <= (
                #[trigger] s3[b]).field_id.0 by {
                    assert(forall|c: int| 0 <= c < j ==> s3[c] == s1[c]);
                    assert(forall|c: int| j < c <= i ==> #[trigger] s3[c] == s1[c - 1]);
                    assert(s3[j as int] == s1[i as int]);
                    if j > 0 {
                        assert(s1[j - 1].field_id.0 <= key);
                    }
                };
            }
            i = i + 1;
        }
    }

    pub fn add_u64(&mut self, field: FieldID, value: u64)
        ensures
            final(self)@ == old(self)@.push((field.0, ValView::U64(value))),
    {
        self.add_field_value(FieldValue::new(field, Value::U64(value)));
    }

    pub fn add_i32(&mut self, field: FieldID, value: i32)
        ensures
            final(self)@ == old(self)@.push((field.0, ValView::I32(value))),
    {
        self.add_field_value(FieldValue::new(field, Value::I32(value)));
    }

    pub fn add_i64(&mut self, field: FieldID, value: i64)
        ensures
            final(self)@ == old(self)@.push((field.0, ValView::I64(value))),
    {
        self.add_field_value(FieldValue::new(field, Value::I64(value)));
    }

    pub fn add_text(&mut self, field: FieldID, value: &str)
        ensures
            final(self)@ == old(self)@.push((field.0, ValView::Str(value@))),
    {
        let s = value.to_owned();
        self.add_field_value(FieldValue::new(field, Value::String(s)));
    }

    /// The exact length of this document's wire form.
    pub fn size(&self) -> (r: GyResult<usize>)
        ensures
            r is Ok <==> enc_doc(self@).len() <= usize::MAX,
            match r {
                Ok(sz) => sz == enc_doc(self@).len(),
                Err(e) => e == GyError::Serialization,
            },
    {
        let n = self.field_values.len();
        let mut total: usize = crate::varint::vu64_len(n as u64);
        let mut i: usize = 0;
        proof {
            assert(self@.take(0) =~= Seq::<(u32, ValView)>::empty());
        }
        while i < n
            invariant
                i <= n,
                n == self.field_values@.len(),
                self@.len() == n,
                total == vu64_enc(n as u64).len() + enc_fvs(self@.take(i as int)).len(),
            decreases n - i,
        {
            let fv = &self.field_values[i];
            proof {
                assert(fv@ == self@[i as int]);
                lemma_enc_fvs_split(self@, i as int);
                assert(self@.skip(i as int).len() > 0);
                assert(enc_fvs(self@.skip(i as int)) == enc_fv(self@.skip(i as int)[0])
                    + enc_fvs(self@.skip(i as int).drop_first()));
                assert(self@.skip(i as int)[0] == self@[i as int]);
            }
            let sz = match fv.size() {
                Ok(s) => s,
                Err(e) => {
                    proof {
                        assert(enc_doc(self@).len() > usize::MAX);
                    }
                    return Err(GyError::Serialization);
                },
            };
            if sz > usize::MAX - total {
                proof {
                    assert(enc_doc(self@).len() > usize::MAX);
                }
                return Err(GyError::Serialization);
            }
            proof {
                assert(self@.take(i + 1) =~= self@.take(i as int).push(self@[i as int]));
                lemma_enc_fvs_push(self@.take(i as int), self@[i as int]);
            }
            total = total + sz;
            i += 1;
        }
        proof {
            assert(self@.take(n as int) =~= self@);
        }
        Ok(total)
    }

    /// Appends the wire form of this document.
    pub fn binary_serialize(&self, out: &mut Vec<u8>) -> (r: GyResult<()>)
        ensures
            r is Ok,
            final(out)@ == old(out)@ + enc_doc(self@),
    {
        let n = self.field_values.len();
        write_vu64(out, n as u64);
        let mut i: usize = 0;
        proof {
            assert(self@.take(0) =~= Seq::<(u32, ValView)>::empty());
        }
        while i < n
            invariant
                i <= n,
                n == self.field_values@.len(),
                self@.len() == n,
                out@ == old(out)@ + vu64_enc(n as u64) + enc_fvs(self@.take(i as int)),
            decreases n - i,
        {
            let fv = &self.field_values[i];
            let r = fv.binary_serialize(out);
            proof {
                assert(self@.take(i + 1) =~= self@.take(i as int).push(self@[i as int]));
                lemma_enc_fvs_push(self@.take(i as int), self@[i as int]);
                assert(fv@ == self@[i as int]);
            }
            i += 1;
        }
        proof {
            assert(self@.take(n as int) =~= self@);
            assert(final(out)@ =~= old(out)@ + enc_doc(self@));
        }
        Ok(())
    }

    /// Reads one document starting at `pos`.
    pub fn binary_deserialize(b: &[u8], pos: usize) -> (r: GyResult<(Document, usize)>)
        requires
            pos <= b@.len(),
        ensures
            match r {
                Ok((d, end)) => {
                    &&& pos < end <= b@.len()
                    &&& dec_doc(b@.subrange(pos as int, b@.len() as int)) == Some(
                        (d@, end - pos as int),
                    )
                },
                Err(e) => {
                    &&& dec_doc(b@.subrange(pos as int, b@.len() as int)) is None
                    &&& (e == GyError::UnexpectedEof || e == GyError::InvalidValueType || e
                        == GyError::Serialization)
                },
            },
    {
        let ghost whole = b@.subrange(pos as int, b@.len() as int);
        let (n64, p1) = match read_vu64(b, pos) {
            Ok(x) => x,
            Err(e) => {
                return Err(e);
            },
        };
        proof {
            assert(whole.skip(p1 - pos) =~= b@.subrange(p1 as int, b@.len() as int));
        }
        let mut items: Vec<FieldValue> = Vec::new();
        let mut p = p1;
        let mut k: u64 = 0;
        while k < n64
            invariant
                pos <= p1 <= p <= b@.len(),
                k <= n64,
                whole == b@.subrange(pos as int, b@.len() as int),
                vu64_dec(whole) == Some((n64, p1 - pos as int)),
                items@.len() == k,
                match dec_fvs(b@.subrange(p as int, b@.len() as int), (n64 - k) as u64) {
                    None => dec_fvs(whole.skip(p1 - pos as int), n64) is None,
                    Some((s2, m)) => dec_fvs(whole.skip(p1 - pos as int), n64) == Some(
                        (fvs_view(items@) + s2, (p - p1) + m),
                    ),
                },
            decreases n64 - k,
        {
            let ghost cur = b@.subrange(p as int, b@.len() as int);
            let (fv, end2) = match FieldValue::binary_deserialize(b, p) {
                Ok(x) => x,
                Err(e) => {
                    proof {
                        assert(dec_fvs(cur, (n64 - k) as u64) is None);
                    }
                    return Err(e);
                },
            };
            proof {
                assert(cur.skip(end2 - p) =~= b@.subrange(end2 as int, b@.len() as int));
            }
            items.push(fv);
            proof {
                assert(fvs_view(items@) =~= fvs_view(items@.drop_last()) + seq![fv@]);
                assert(forall|s2: Seq<(u32, ValView)>|
                    (fvs_view(items@.drop_last()) + (seq![fv@] + s2)) =~= (fvs_view(items@) + s2));
            }
            p = end2;
            k = k + 1;
        }
        proof {
            assert(dec_fvs(b@.subrange(p as int, b@.len() as int), 0) == Some(
                (Seq::<(u32, ValView)>::empty(), 0int),
            ));
            assert(fvs_view(items@) + Seq::<(u32, ValView)>::empty() =~= fvs_view(items@));
        }
        Ok((Document { field_values: items }, p))
    }
}

/// What a field is called, where it sits, and what type it holds.
#[derive(Debug, Clone, Copy, PartialEq, Eq, Structural)]
pub enum FieldType {
    Str,
    I64,
    I32,
    U64,
    U32,
    F64,
    F32,
    DATE,
    Bytes,
}

/// The flavours of vector index a collection can ask for.
#[derive(Debug, Clone, Copy)]
pub enum VectorType {
    Flat,
    BinFlat,
    IvfFlat,
    BinIvfFlat,
    IvfPQ,
    IvfSQ8,
    IvfSQ8H,
    NSG,
    HNSW,
    RHNSWFlat,
    RHNSWPQ,
    RHNSWSQ,
    IvfHNSW,
    ANNOY,
    NGTPANNG,
    NGTONNG,
}

/// One entry of the schema: a named, typed field at a fixed position.
#[derive(Debug)]
pub struct FieldEntry {
    pub name: String,
    pub field_id: FieldID,
    pub field_type: FieldType,
}

impl FieldEntry {
    pub fn str(field_name: &str) -> (r: FieldEntry)
        ensures
            r.name@ == field_name@,
            r.field_id.0 == 0,
            r.field_type == FieldType::Str,
    {
        FieldEntry { name: field_name.to_owned(), field_id: FieldID(0), field_type: FieldType::Str }
    }

    pub fn i64(field_name: &str) -> (r: FieldEntry)
        ensures
            r.name@ == field_name@,
            r.field_id.0 == 0,
            r.field_type == FieldType::I64,
    {
        FieldEntry { name: field_name.to_owned(), field_id: FieldID(0), field_type: FieldType::I64 }
    }

    pub fn i32(field_name: &str) -> (r: FieldEntry)
        ensures
            r.name@ == field_name@,
            r.field_id.0 == 0,
            r.field_type == FieldType::I32,
    {
        FieldEntry { name: field_name.to_owned(), field_id: FieldID(0), field_type: FieldType::I32 }
    }

    pub fn u64(field_name: &str) -> (r: FieldEntry)
        ensures
            r.name@ == field_name@,
            r.field_id.0 == 0,
            r.field_type == FieldType::U64,
    {
        FieldEntry { name: field_name.to_owned(), field_id: FieldID(0), field_type: FieldType::U64 }
    }

    pub fn get_name(&self) -> (r: &str)
        ensures
            r@ == self.name@,
    {
        self.name.as_str()
    }

    pub fn get_field_type(&self) -> (r: &FieldType)
        ensures
            r == &self.field_type,
    {
        &self.field_type
    }

    pub fn get_field_id(&self) -> (r: &FieldID)
        ensures
            r == &self.field_id,
    {
        &self.field_id
    }
}

/// The latest schema entry called `name`, if any: a field added again
/// under an old name shadows the earlier entry.
pub open spec fn find_field(s: Seq<FieldEntry>, name: Seq<char>) -> Option<int>
    decreases s.len(),
{
    if s.len() == 0 {
        None
    } else if s.last().name@ == name {
        Some(s.len() - 1)
    } else {
        find_field(s.drop_last(), name)
    }
}

/// The ordered list of fields a document may carry. A field's id is its
/// position in the list, fixed when the field is added.
#[derive(Debug)]
pub struct Schema {
    pub fields: Vec<FieldEntry>,
}

impl Schema {
    pub fn new() -> (r: Schema)
        ensures
            r.fields@.len() == 0,
    {
        Schema { fields: Vec::new() }
    }

    /// Looks a field up by name; returns the id of the most recently
    /// added entry with that name.
    pub fn get_field(&self, field_name: &str) -> (r: Option<FieldID>)
        ensures
            match r {
                Some(id) => {
                    &&& find_field(self.fields@, field_name@) matches Some(i)
                    &&& find_field(self.fields@, field_name@) == Some(i) ==> id
                        == self.fields@[i].field_id
                },
                None => find_field(self.fields@, field_name@) is None,
            },
    {
        let want = field_name.as_bytes();
        let n = self.fields.len();
        let mut i: usize = n;
        proof {
            assert(self.fields@.take(n as int) =~= self.fields@);
        }
        while i > 0
            invariant
                i <= n,
                n == self.fields@.len(),
                want@ == encode_utf8(field_name@),
                find_field(self.fields@, field_name@) == find_field(
                    self.fields@.take(i as int),
                    field_name@,
                ),
            decreases i,
        {
            let j = i - 1;
            let entry_name = self.fields[j].name.as_str().as_bytes();
            proof {
                assert(self.fields@.take(i as int).last() == self.fields@[j as int]);
                assert(self.fields@.take(i as int).drop_last() =~= self.fields@.take(j as int));
                if entry_name@ == want@ {
                    vstd::utf8::encode_utf8_decode_utf8(self.fields@[j as int].name@);
                    vstd::utf8::encode_utf8_decode_utf8(field_name@);
                }
            }
            if bytes_eq(entry_name, want) {
                proof {
                    assert(find_field(self.fields@, field_name@) == Some(j as int));
                }
                return Some(FieldID(self.fields[j].field_id.0));
            }
            proof {
                if self.fields@[j as int].name@ == field_name@ {
                    assert(encode_utf8(self.fields@[j as int].name@) == encode_utf8(field_name@));
                }
            }
            i = j;
        }
        proof {
            assert(self.fields@.take(0) =~= Seq::<FieldEntry>::empty());
        }
        None
    }

    /// Adds a field at the end; its id becomes its position.
    pub fn add_field(&mut self, field_entry: FieldEntry)
        requires
            old(self).fields@.len() < u32::MAX,
        ensures
            final(self).fields@.len() == old(self).fields@.len() + 1,
            final(self).fields@.last().name@ == field_entry.name@,
            final(self).fields@.last().field_type == field_entry.field_type,
            final(self).fields@.last().field_id.0 == old(self).fields@.len(),
            final(self).fields@.take(old(self).fields@.len() as int) == old(self).fields@,
            find_field(final(self).fields@, field_entry.name@) == Some(
                old(self).fields@.len() as int,
            ),
    {
        let id = FieldID(self.fields.len() as u32);
        let entry = FieldEntry {
            name: field_entry.name,
            field_id: id,
            field_type: field_entry.field_type,
        };
        self.fields.push(entry);
        proof {
            assert(final(self).fields@.take(old(self).fields@.len() as int) =~= old(self).fields@);
        }
    }
}

} // verus!
