//! The wire format: a versioned envelope around a tagged payload union.
//!
//! Every message is a sequence of tagged fields. A field is a key — the
//! field number shifted left by three, plus the wire kind — followed by
//! either a base-128 integer, a four-byte little-endian group, or a
//! length-prefixed byte string. Tag numbers are frozen; new payload
//! variants take new tags.
//!
//! Encoders write every field of a message, in field order; the decoders
//! accept exactly that canonical form — a peer's equivalent but
//! non-canonical bytes (redundant integer widths, reordered fields) are
//! refused. Each decoder's contract carries both directions: wherever an
//! encoded message stands, decoding returns precisely that message, and
//! whatever decoding returns, the bytes were precisely its encoding.

use vstd::prelude::*;
use vstd::string::StringSliceAdditionalSpecFns;
use vstd::utf8::{encode_utf8, valid_utf8};
use vstd::utf8::{encode_utf8_valid_utf8, encode_utf8_decode_utf8};
use crate::error::Error;
use crate::varint::{vint, starts_with, write_vint, read_vint, lemma_split};

verus! {

// ---------------------------------------------------------------------
// Field encodings
// ---------------------------------------------------------------------

/// An integer field: key with wire kind 0, then the value.
pub open spec fn f_vint(field: u64, v: u64) -> Seq<u8> {
    vint(8 * field) + vint(v as int)
}

/// A length-prefixed field: key with wire kind 2, the byte count, the bytes.
pub open spec fn f_len(field: u64, b: Seq<u8>) -> Seq<u8> {
    vint(8 * field + 2) + vint(b.len() as int) + b
}

/// Four little-endian bytes of a 32-bit group.
pub open spec fn le32(v: u32) -> Seq<u8> {
    seq![
        (v % 256) as u8,
        ((v / 256) % 256) as u8,
        ((v / 65536) % 256) as u8,
        ((v / 16777216) % 256) as u8,
    ]
}

/// A fixed 32-bit field: key with wire kind 5, then four bytes.
pub open spec fn f_fix32(field: u64, v: u32) -> Seq<u8> {
    vint(8 * field + 5) + le32(v)
}

/// A boolean field, carried as the integer zero or one.
pub open spec fn f_bool(field: u64, v: bool) -> Seq<u8> {
    f_vint(field, if v { 1 } else { 0 })
}

// ---------------------------------------------------------------------
// Field writers
// ---------------------------------------------------------------------

pub(crate) fn w_vint_field(out: &mut Vec<u8>, field: u64, v: u64)
    requires
        1 <= field <= 100,
    ensures
        final(out)@ == old(out)@ + f_vint(field, v),
{
    write_vint(out, 8 * field);
    write_vint(out, v);
    proof {
        assert(out@ =~= old(out)@ + f_vint(field, v));
    }
}

pub(crate) fn w_bytes_field(out: &mut Vec<u8>, field: u64, b: &[u8])
    requires
        1 <= field <= 100,
    ensures
        final(out)@ == old(out)@ + f_len(field, b@),
{
    write_vint(out, 8 * field + 2);
    write_vint(out, b.len() as u64);
    out.extend_from_slice(b);
    proof {
        assert(out@ =~= old(out)@ + f_len(field, b@));
    }
}

pub(crate) fn w_str_field(out: &mut Vec<u8>, field: u64, s: &str)
    requires
        1 <= field <= 100,
    ensures
        final(out)@ == old(out)@ + f_len(field, encode_utf8(s@)),
{
    let b = s.as_bytes();
    proof {
        assert(b@ == encode_utf8(s@));
    }
    w_bytes_field(out, field, b);
}

pub(crate) fn w_fix32_field(out: &mut Vec<u8>, field: u64, v: u32)
    requires
        1 <= field <= 100,
    ensures
        final(out)@ == old(out)@ + f_fix32(field, v),
{
    write_vint(out, 8 * field + 5);
    out.push((v % 256) as u8);
    out.push(((v / 256) % 256) as u8);
    out.push(((v / 65536) % 256) as u8);
    out.push(((v / 16777216) % 256) as u8);
    proof {
        assert(out@ =~= old(out)@ + f_fix32(field, v));
    }
}

pub(crate) fn w_bool_field(out: &mut Vec<u8>, field: u64, v: bool)
    requires
        1 <= field <= 100,
    ensures
        final(out)@ == old(out)@ + f_bool(field, v),
{
    if v {
        w_vint_field(out, field, 1);
    } else {
        w_vint_field(out, field, 0);
    }
}

// ---------------------------------------------------------------------
// Field readers
// ---------------------------------------------------------------------
//
// Each reader promises: wherever the canonical encoding of a field value
// stands at `pos`, it returns exactly that value and stops exactly after
// it. A reader that returns anything else saw input that encodes no value
// of this field at all.

pub(crate) fn dec_vint_field(buf: &[u8], pos: usize, end: usize, field: u64) -> (r: Result<
    (u64, usize),
    Error,
>)
    requires
        pos <= end <= buf@.len(),
        1 <= field <= 100,
    ensures
        r matches Ok(o) ==> pos < o.1 <= end && o.1 == pos + f_vint(field, o.0).len()
            && starts_with(buf@, pos as int, end as int, f_vint(field, o.0)),
        forall|v: u64| #[trigger] starts_with(buf@, pos as int, end as int, f_vint(field, v))
            ==> (match r {
                Ok(o) => o.0 == v && o.1 == pos + f_vint(field, v).len(),
                Err(_) => false,
            }),
{
    proof {
        assert forall|v: u64| starts_with(buf@, pos as int, end as int, f_vint(field, v))
            implies starts_with(buf@, pos as int, end as int, vint(8 * field))
                && starts_with(
                buf@,
                pos + vint(8 * field).len(),
                end as int,
                vint(v as int),
            ) by {
            lemma_split(
                buf@,
                pos as int,
                pos + f_vint(field, v).len(),
                vint(8 * field),
                vint(v as int),
            );
        }
    }
    let k = match read_vint(buf, pos, end) {
        Ok(o) => o,
        Err(e) => {
            return Err(e);
        },
    };
    if k.0 != 8 * field {
        return Err(Error::Decode("unexpected field key".to_owned()));
    }
    let v = match read_vint(buf, k.1, end) {
        Ok(o) => o,
        Err(e) => {
            return Err(e);
        },
    };
    proof {
        assert(k.0 as int == 8 * field);
        crate::varint::lemma_join(
            buf@,
            pos as int,
            v.1 as int,
            vint(8 * field),
            vint(v.0 as int),
        );
    }
    Ok((v.0, v.1))
}

pub(crate) fn dec_u32_field(buf: &[u8], pos: usize, end: usize, field: u64) -> (r: Result<
    (u32, usize),
    Error,
>)
    requires
        pos <= end <= buf@.len(),
        1 <= field <= 100,
    ensures
        r matches Ok(o) ==> pos < o.1 <= end && o.1 == pos + f_vint(field, o.0 as u64).len()
            && starts_with(buf@, pos as int, end as int, f_vint(field, o.0 as u64)),
        forall|v: u32|
            #[trigger] starts_with(buf@, pos as int, end as int, f_vint(field, v as u64))
            ==> (match r {
                Ok(o) => o.0 == v && o.1 == pos + f_vint(field, v as u64).len(),
                Err(_) => false,
            }),
{
    let o = match dec_vint_field(buf, pos, end, field) {
        Ok(o) => o,
        Err(e) => {
            return Err(e);
        },
    };
    if o.0 > 0xFFFF_FFFF {
        return Err(Error::Decode("integer field out of range".to_owned()));
    }
    Ok((o.0 as u32, o.1))
}

pub(crate) fn dec_bool_field(buf: &[u8], pos: usize, end: usize, field: u64) -> (r: Result<
    (bool, usize),
    Error,
>)
    requires
        pos <= end <= buf@.len(),
        1 <= field <= 100,
    ensures
        r matches Ok(o) ==> pos < o.1 <= end && o.1 == pos + f_bool(field, o.0).len()
            && starts_with(buf@, pos as int, end as int, f_bool(field, o.0)),
        forall|v: bool| #[trigger] starts_with(buf@, pos as int, end as int, f_bool(field, v))
            ==> (match r {
                Ok(o) => o.0 == v && o.1 == pos + f_bool(field, v).len(),
                Err(_) => false,
            }),
{
    let o = match dec_vint_field(buf, pos, end, field) {
        Ok(o) => o,
        Err(e) => {
            return Err(e);
        },
    };
    if o.0 == 0 {
        Ok((false, o.1))
    } else if o.0 == 1 {
        Ok((true, o.1))
    } else {
        Err(Error::Decode("boolean field out of range".to_owned()))
    }
}

pub(crate) fn dec_bytes_field(buf: &[u8], pos: usize, end: usize, field: u64) -> (r: Result<
    (Vec<u8>, usize),
    Error,
>)
    requires
        pos <= end <= buf@.len(),
        1 <= field <= 100,
    ensures
        r matches Ok(o) ==> pos < o.1 <= end && o.1 == pos + f_len(field, o.0@).len()
            && starts_with(buf@, pos as int, end as int, f_len(field, o.0@)),
        forall|b: Seq<u8>| #[trigger] starts_with(buf@, pos as int, end as int, f_len(field, b))
            ==> (match r {
                Ok(o) => o.0@ == b && o.1 == pos + f_len(field, b).len(),
                Err(_) => false,
            }),
{
    proof {
        assert forall|b: Seq<u8>| starts_with(buf@, pos as int, end as int, f_len(field, b))
            implies {
            &&& starts_with(buf@, pos as int, end as int, vint(8 * field + 2))
            &&& starts_with(
                buf@,
                pos + vint(8 * field + 2).len(),
                end as int,
                vint(b.len() as int),
            )
            &&& buf@.subrange(
                pos + vint(8 * field + 2).len() + vint(b.len() as int).len(),
                pos + f_len(field, b).len(),
            ) == b
        } by {
            assert(f_len(field, b) =~= vint(8 * field + 2) + (vint(b.len() as int) + b));
            lemma_split(
                buf@,
                pos as int,
                pos + f_len(field, b).len(),
                vint(8 * field + 2),
                vint(b.len() as int) + b,
            );
            lemma_split(
                buf@,
                pos + vint(8 * field + 2).len(),
                pos + f_len(field, b).len(),
                vint(b.len() as int),
                b,
            );
        }
    }
    let k = match read_vint(buf, pos, end) {
        Ok(o) => o,
        Err(e) => {
            return Err(e);
        },
    };
    if k.0 != 8 * field + 2 {
        return Err(Error::Decode("unexpected field key".to_owned()));
    }
    let l = match read_vint(buf, k.1, end) {
        Ok(o) => o,
        Err(e) => {
            return Err(e);
        },
    };
    if l.0 > (end - l.1) as u64 {
        return Err(Error::Decode("length prefix exceeds the input".to_owned()));
    }
    let bend = l.1 + (l.0 as usize);
    let mut v: Vec<u8> = Vec::new();
    v.extend_from_slice(&buf[l.1..bend]);
    proof {
        assert forall|b: Seq<u8>| starts_with(buf@, pos as int, end as int, f_len(field, b))
            implies v@ == b && bend == pos + f_len(field, b).len() by {
            assert(l.0 == b.len() as u64);
            assert(b.len() <= end <= usize::MAX);
            assert(l.0 as usize == b.len());
            assert(v@ == buf@.subrange(l.1 as int, bend as int));
        }
        // the bytes read stand exactly where they were copied from
        assert(v@ =~= buf@.subrange(l.1 as int, bend as int));
        assert(v@.len() == l.0 as int);
        assert(k.0 as int == 8 * field + 2);
        crate::varint::lemma_join(
            buf@,
            k.1 as int,
            bend as int,
            vint(v@.len() as int),
            v@,
        );
        crate::varint::lemma_join(
            buf@,
            pos as int,
            bend as int,
            vint(8 * field + 2),
            vint(v@.len() as int) + v@,
        );
        assert(f_len(field, v@) =~= vint(8 * field + 2) + (vint(v@.len() as int) + v@));
    }
    Ok((v, bend))
}

/// Relies on String::from_utf8: returns the string holding exactly the
/// given bytes when they are valid UTF-8, and refuses them otherwise.
#[verifier::external_body]
fn string_from_utf8(v: Vec<u8>) -> (r: Option<String>)
    ensures
        r matches Some(s) ==> encode_utf8(s@) == v@,
        valid_utf8(v@) ==> r is Some,
{
    match String::from_utf8(v) {
        Ok(s) => Some(s),
        Err(_) => None,
    }
}

pub(crate) fn dec_str_field(buf: &[u8], pos: usize, end: usize, field: u64) -> (r: Result<
    (String, usize),
    Error,
>)
    requires
        pos <= end <= buf@.len(),
        1 <= field <= 100,
    ensures
        r matches Ok(o) ==> pos < o.1 <= end && o.1 == pos + f_len(
            field,
            encode_utf8(o.0@),
        ).len() && starts_with(buf@, pos as int, end as int, f_len(field, encode_utf8(o.0@))),
        forall|q: Seq<char>|
            #[trigger] starts_with(buf@, pos as int, end as int, f_len(field, encode_utf8(q)))
            ==> (match r {
                Ok(o) => o.0@ == q && o.1 == pos + f_len(field, encode_utf8(q)).len(),
                Err(_) => false,
            }),
{
    let o = match dec_bytes_field(buf, pos, end, field) {
        Ok(o) => o,
        Err(e) => {
            return Err(e);
        },
    };
    let ghost bytes = o.0@;
    match string_from_utf8(o.0) {
        Some(s) => {
            proof {
                assert forall|q: Seq<char>|
                    starts_with(buf@, pos as int, end as int, f_len(field, encode_utf8(q)))
                    implies s@ == q by {
                    assert(bytes == encode_utf8(q));
                    encode_utf8_decode_utf8(s@);
                    encode_utf8_decode_utf8(q);
                }
            }
            Ok((s, o.1))
        },
        None => {
            proof {
                assert forall|q: Seq<char>|
                    !starts_with(buf@, pos as int, end as int, f_len(field, encode_utf8(q))) by {
                    if starts_with(buf@, pos as int, end as int, f_len(field, encode_utf8(q))) {
                        assert(bytes == encode_utf8(q));
                        encode_utf8_valid_utf8(q);
                    }
                }
            }
            Err(Error::Decode("text field is not valid UTF-8".to_owned()))
        },
    }
}

pub(crate) fn dec_fix32_field(buf: &[u8], pos: usize, end: usize, field: u64) -> (r: Result<
    (u32, usize),
    Error,
>)
    requires
        pos <= end <= buf@.len(),
        1 <= field <= 100,
    ensures
        r matches Ok(o) ==> pos < o.1 <= end && o.1 == pos + f_fix32(field, o.0).len()
            && starts_with(buf@, pos as int, end as int, f_fix32(field, o.0)),
        forall|v: u32| #[trigger] starts_with(buf@, pos as int, end as int, f_fix32(field, v))
            ==> (match r {
                Ok(o) => o.0 == v && o.1 == pos + f_fix32(field, v).len(),
                Err(_) => false,
            }),
{
    proof {
        assert forall|v: u32| starts_with(buf@, pos as int, end as int, f_fix32(field, v))
            implies {
            &&& starts_with(buf@, pos as int, end as int, vint(8 * field + 5))
            &&& buf@.subrange(
                pos + vint(8 * field + 5).len(),
                pos + f_fix32(field, v).len(),
            ) == le32(v)
        } by {
            lemma_split(
                buf@,
                pos as int,
                pos + f_fix32(field, v).len(),
                vint(8 * field + 5),
                le32(v),
            );
        }
    }
    let k = match read_vint(buf, pos, end) {
        Ok(o) => o,
        Err(e) => {
            return Err(e);
        },
    };
    if k.0 != 8 * field + 5 {
        return Err(Error::Decode("unexpected field key".to_owned()));
    }
    if end - k.1 < 4 {
        return Err(Error::Decode("truncated 32-bit group".to_owned()));
    }
    let b0 = buf[k.1] as u32;
    let b1 = buf[k.1 + 1] as u32;
    let b2 = buf[k.1 + 2] as u32;
    let b3 = buf[k.1 + 3] as u32;
    let v = b0 + 256 * b1 + 65536 * b2 + 16777216 * b3;
    proof {
        assert forall|v0: u32| starts_with(buf@, pos as int, end as int, f_fix32(field, v0))
            implies v == v0 && k.1 + 4 == pos + f_fix32(field, v0).len() by {
            let body = buf@.subrange(k.1 as int, k.1 + 4);
            assert(body == le32(v0));
            assert(body[0] == buf@[k.1 as int] && body[1] == buf@[k.1 + 1]
                && body[2] == buf@[k.1 + 2] && body[3] == buf@[k.1 + 3]);
            assert(b0 == v0 % 256 && b1 == (v0 / 256) % 256 && b2 == (v0 / 65536) % 256
                && b3 == (v0 / 16777216) % 256);
            assert(v0 == v0 % 256 + 256 * ((v0 / 256) % 256) + 65536 * ((v0 / 65536) % 256)
                + 16777216 * ((v0 / 16777216) % 256)) by (nonlinear_arith);
        }
        // the four bytes read back are exactly the little-endian group of v
        assert(b0 == v % 256 && b1 == (v / 256) % 256 && b2 == (v / 65536) % 256 && b3 == (v
            / 16777216) % 256) by (nonlinear_arith)
            requires
                b0 < 256 && b1 < 256 && b2 < 256 && b3 < 256,
                v == b0 + 256 * b1 + 65536 * b2 + 16777216 * b3,
        ;
        assert(buf@.subrange(k.1 as int, k.1 + 4) =~= le32(v));
        assert(k.0 as int == 8 * field + 5);
        crate::varint::lemma_join(
            buf@,
            pos as int,
            k.1 + 4,
            vint(8 * field + 5),
            le32(v),
        );
    }
    Ok((v, k.1 + 4))
}

// ---------------------------------------------------------------------
// Search messages
// ---------------------------------------------------------------------

/// A keyword query bound for an index provider.
#[derive(Debug, Clone, PartialEq)]
pub struct SearchRequest {
    pub query: String,
    pub max_results: u32,
}

pub ghost struct SearchRequestV {
    pub query: Seq<char>,
    pub max_results: u32,
}

impl View for SearchRequest {
    type V = SearchRequestV;

    open spec fn view(&self) -> SearchRequestV {
        SearchRequestV { query: self.query@, max_results: self.max_results }
    }
}

pub open spec fn enc_search_request(v: SearchRequestV) -> Seq<u8> {
    f_len(1, encode_utf8(v.query)) + f_vint(2, v.max_results as u64)
}

pub(crate) fn write_search_request(m: &SearchRequest, out: &mut Vec<u8>)
    ensures
        final(out)@ == old(out)@ + enc_search_request(m@),
{
    w_str_field(out, 1, self_str(&m.query));
    w_vint_field(out, 2, m.max_results as u64);
    proof {
        assert(out@ =~= old(out)@ + enc_search_request(m@));
    }
}

/// Borrow a String as a str slice.
fn self_str(s: &String) -> (r: &str)
    ensures
        r@ == s@,
{
    s.as_str()
}

proof fn lemma_sr_parts(s: Seq<u8>, pos: int, end: int, v: SearchRequestV)
    requires
        0 <= pos <= end <= s.len(),
        s.subrange(pos, end) == enc_search_request(v),
    ensures
        starts_with(s, pos, end, f_len(1, encode_utf8(v.query))),
        starts_with(
            s,
            pos + f_len(1, encode_utf8(v.query)).len(),
            end,
            f_vint(2, v.max_results as u64),
        ),
        end == pos + f_len(1, encode_utf8(v.query)).len() + f_vint(2, v.max_results as u64).len(),
{
    lemma_split(s, pos, end, f_len(1, encode_utf8(v.query)), f_vint(2, v.max_results as u64));
}

pub(crate) fn dec_search_request(buf: &[u8], pos: usize, end: usize) -> (r: Result<
    SearchRequest,
    Error,
>)
    requires
        pos <= end <= buf@.len(),
    ensures
        forall|v: SearchRequestV|
            buf@.subrange(pos as int, end as int) == #[trigger] enc_search_request(v)
            ==> (match r {
                Ok(m) => m@ == v,
                Err(_) => false,
            }),
        r matches Ok(m) ==> buf@.subrange(pos as int, end as int) == enc_search_request(m@),
{
    proof {
        assert forall|v: SearchRequestV|
            buf@.subrange(pos as int, end as int) == enc_search_request(v)
            implies starts_with(buf@, pos as int, end as int, f_len(1, encode_utf8(v.query))) by {
            lemma_sr_parts(buf@, pos as int, end as int, v);
        }
    }
    let q = match dec_str_field(buf, pos, end, 1) {
        Ok(o) => o,
        Err(e) => {
            return Err(e);
        },
    };
    proof {
        assert forall|v: SearchRequestV|
            buf@.subrange(pos as int, end as int) == enc_search_request(v)
            implies starts_with(
                buf@,
                q.1 as int,
                end as int,
                f_vint(2, v.max_results as u64),
            ) by {
            lemma_sr_parts(buf@, pos as int, end as int, v);
        }
    }
    let mr = match dec_u32_field(buf, q.1, end, 2) {
        Ok(o) => o,
        Err(e) => {
            return Err(e);
        },
    };
    if mr.1 != end {
        proof {
            assert forall|v: SearchRequestV|
                buf@.subrange(pos as int, end as int) != enc_search_request(v) by {
                if buf@.subrange(pos as int, end as int) == enc_search_request(v) {
                    lemma_sr_parts(buf@, pos as int, end as int, v);
                }
            }
        }
        return Err(Error::Decode("unexpected data after the message".to_owned()));
    }
    proof {
        assert(buf@.subrange(pos as int, q.1 as int) == f_len(1, encode_utf8(q.0@)));
        crate::varint::lemma_join(
            buf@,
            pos as int,
            mr.1 as int,
            f_len(1, encode_utf8(q.0@)),
            f_vint(2, mr.0 as u64),
        );
    }
    Ok(SearchRequest { query: q.0, max_results: mr.0 })
}

// ---------------------------------------------------------------------
// Error message
// ---------------------------------------------------------------------

/// An error report with a partitioned numeric code.
#[derive(Debug, Clone, PartialEq)]
pub struct ErrorResponse {
    pub code: u32,
    pub message: String,
}

pub ghost struct ErrorResponseV {
    pub code: u32,
    pub message: Seq<char>,
}

impl View for ErrorResponse {
    type V = ErrorResponseV;

    open spec fn view(&self) -> ErrorResponseV {
        ErrorResponseV { code: self.code, message: self.message@ }
    }
}

pub open spec fn enc_error_response(v: ErrorResponseV) -> Seq<u8> {
    f_vint(1, v.code as u64) + f_len(2, encode_utf8(v.message))
}

pub(crate) fn write_error_response(m: &ErrorResponse, out: &mut Vec<u8>)
    ensures
        final(out)@ == old(out)@ + enc_error_response(m@),
{
    w_vint_field(out, 1, m.code as u64);
    w_str_field(out, 2, self_str(&m.message));
    proof {
        assert(out@ =~= old(out)@ + enc_error_response(m@));
    }
}

proof fn lemma_er_parts(s: Seq<u8>, pos: int, end: int, v: ErrorResponseV)
    requires
        0 <= pos <= end <= s.len(),
        s.subrange(pos, end) == enc_error_response(v),
    ensures
        starts_with(s, pos, end, f_vint(1, v.code as u64)),
        starts_with(
            s,
            pos + f_vint(1, v.code as u64).len(),
            end,
            f_len(2, encode_utf8(v.message)),
        ),
        end == pos + f_vint(1, v.code as u64).len() + f_len(2, encode_utf8(v.message)).len(),
{
    lemma_split(s, pos, end, f_vint(1, v.code as u64), f_len(2, encode_utf8(v.message)));
}

pub(crate) fn dec_error_response(buf: &[u8], pos: usize, end: usize) -> (r: Result<
    ErrorResponse,
    Error,
>)
    requires
        pos <= end <= buf@.len(),
    ensures
        forall|v: ErrorResponseV|
            buf@.subrange(pos as int, end as int) == #[trigger] enc_error_response(v)
            ==> (match r {
                Ok(m) => m@ == v,
                Err(_) => false,
            }),
        r matches Ok(m) ==> buf@.subrange(pos as int, end as int) == enc_error_response(m@),
{
    proof {
        assert forall|v: ErrorResponseV|
            buf@.subrange(pos as int, end as int) == enc_error_response(v)
            implies starts_with(buf@, pos as int, end as int, f_vint(1, v.code as u64)) by {
            lemma_er_parts(buf@, pos as int, end as int, v);
        }
    }
    let c = match dec_u32_field(buf, pos, end, 1) {
        Ok(o) => o,
        Err(e) => {
            return Err(e);
        },
    };
    proof {
        assert forall|v: ErrorResponseV|
            buf@.subrange(pos as int, end as int) == enc_error_response(v)
            implies starts_with(
                buf@,
                c.1 as int,
                end as int,
                f_len(2, encode_utf8(v.message)),
            ) by {
            lemma_er_parts(buf@, pos as int, end as int, v);
        }
    }
    let msg = match dec_str_field(buf, c.1, end, 2) {
        Ok(o) => o,
        Err(e) => {
            return Err(e);
        },
    };
    if msg.1 != end {
        proof {
            assert forall|v: ErrorResponseV|
                buf@.subrange(pos as int, end as int) != enc_error_response(v) by {
                if buf@.subrange(pos as int, end as int) == enc_error_response(v) {
                    lemma_er_parts(buf@, pos as int, end as int, v);
                }
            }
        }
        return Err(Error::Decode("unexpected data after the message".to_owned()));
    }
    proof {
        assert(buf@.subrange(pos as int, c.1 as int) == f_vint(1, c.0 as u64));
        crate::varint::lemma_join(
            buf@,
            pos as int,
            msg.1 as int,
            f_vint(1, c.0 as u64),
            f_len(2, encode_utf8(msg.0@)),
        );
    }
    Ok(ErrorResponse { code: c.0, message: msg.0 })
}


// ---------------------------------------------------------------------
// Repeated string fields
// ---------------------------------------------------------------------

/// A repeated text field: one length-prefixed field per element, in order.
/// No elements leave no bytes at all.
pub open spec fn rep_strs(field: u64, qs: Seq<Seq<char>>) -> Seq<u8>
    decreases qs.len(),
{
    if qs.len() == 0 {
        Seq::<u8>::empty()
    } else {
        f_len(field, encode_utf8(qs[0])) + rep_strs(field, qs.drop_first())
    }
}

proof fn lemma_rep_strs_push(field: u64, qs: Seq<Seq<char>>, q: Seq<char>)
    ensures
        rep_strs(field, qs.push(q)) == rep_strs(field, qs) + f_len(field, encode_utf8(q)),
    decreases qs.len(),
{
    if qs.len() == 0 {
        assert(qs.push(q).drop_first() =~= Seq::<Seq<char>>::empty());
        assert(rep_strs(field, Seq::<Seq<char>>::empty()) == Seq::<u8>::empty());
        assert(qs.push(q)[0] == q);
        assert(rep_strs(field, qs.push(q))
            =~= rep_strs(field, qs) + f_len(field, encode_utf8(q)));
    } else {
        lemma_rep_strs_push(field, qs.drop_first(), q);
        assert(qs.push(q).drop_first() =~= qs.drop_first().push(q));
        assert(rep_strs(field, qs.push(q))
            =~= rep_strs(field, qs) + f_len(field, encode_utf8(q)));
    }
}

pub(crate) fn w_rep_str(out: &mut Vec<u8>, field: u64, v: &Vec<String>)
    requires
        1 <= field <= 100,
    ensures
        final(out)@ == old(out)@ + rep_strs(field, v.deep_view()),
{
    let ghost start = out@;
    let mut i: usize = 0;
    while i < v.len()
        invariant
            1 <= field <= 100,
            i <= v@.len(),
            out@ == start + rep_strs(field, v.deep_view().take(i as int)),
        decreases v@.len() - i,
    {
        w_str_field(out, field, self_str(&v[i]));
        proof {
            lemma_rep_strs_push(field, v.deep_view().take(i as int), v@[i as int]@);
            assert(v.deep_view().take(i as int).push(v@[i as int]@)
                =~= v.deep_view().take(i as int + 1));
            assert(out@ =~= start + rep_strs(field, v.deep_view().take(i as int + 1)));
        }
        i = i + 1;
    }
    proof {
        assert(v.deep_view().take(v@.len() as int) =~= v.deep_view());
    }
}

/// Encodings are never empty, so a field cannot stand in zero bytes.
pub(crate) proof fn lemma_vint_min_len(n: int)
    ensures
        vint(n).len() >= 1,
{
    if n < 128 {
    } else {
    }
}
#[verifier::rlimit(100)]
#[verifier::spinoff_prover]
pub(crate) fn dec_rep_str(buf: &[u8], pos: usize, end: usize, field: u64) -> (r: Result<
    (Vec<String>, usize),
    Error,
>)
    requires
        pos <= end <= buf@.len(),
        1 <= field <= 100,
    ensures
        r matches Ok(o) ==> pos <= o.1 <= end && o.1 == pos + rep_strs(
            field,
            o.0.deep_view(),
        ).len() && buf@.subrange(pos as int, o.1 as int) == rep_strs(field, o.0.deep_view()),
        forall|qs: Seq<Seq<char>>| ({
            &&& #[trigger] starts_with(buf@, pos as int, end as int, rep_strs(field, qs))
            &&& !starts_with(
                buf@,
                pos + rep_strs(field, qs).len(),
                end as int,
                vint(8 * field + 2),
            )
        }) ==> (match r {
            Ok(o) => o.0.deep_view() == qs && o.1 == pos + rep_strs(field, qs).len(),
            Err(_) => false,
        }),
{
    let mut out: Vec<String> = Vec::new();
    let mut p: usize = pos;
    proof {
        assert(out.deep_view() =~= Seq::<Seq<char>>::empty());
        assert(buf@.subrange(pos as int, pos as int) =~= rep_strs(field, out.deep_view()));
        assert forall|qs: Seq<Seq<char>>|
            #[trigger] starts_with(buf@, pos as int, end as int, rep_strs(field, qs))
            implies Seq::<Seq<char>>::empty() == qs.take(0) && starts_with(
                buf@,
                pos as int,
                end as int,
                rep_strs(field, qs.skip(0)),
            ) && rep_strs(field, qs.take(0)).len() == 0 by {
            assert(qs.take(0) =~= Seq::<Seq<char>>::empty());
            assert(qs.skip(0) =~= qs);
        }
    }
    loop
        invariant
            pos <= p <= end <= buf@.len(),
            1 <= field <= 100,
            buf@.subrange(pos as int, p as int) == rep_strs(field, out.deep_view()),
            forall|qs: Seq<Seq<char>>|
                #[trigger] starts_with(buf@, pos as int, end as int, rep_strs(field, qs)) ==> ({
                    ||| {
                        &&& out.deep_view().len() <= qs.len()
                        &&& out.deep_view() == qs.take(out.deep_view().len() as int)
                        &&& p == pos + rep_strs(
                            field,
                            qs.take(out.deep_view().len() as int),
                        ).len()
                        &&& starts_with(
                            buf@,
                            p as int,
                            end as int,
                            rep_strs(field, qs.skip(out.deep_view().len() as int)),
                        )
                    }
                    ||| starts_with(
                        buf@,
                        pos + rep_strs(field, qs).len(),
                        end as int,
                        vint(8 * field + 2),
                    )
                }),
        decreases end - p,
    {
        proof {
            assert forall|qs: Seq<Seq<char>>|
                #[trigger] starts_with(buf@, pos as int, end as int, rep_strs(field, qs))
                    && out.deep_view().len() < qs.len()
                    && out.deep_view() == qs.take(out.deep_view().len() as int)
                    && p == pos + rep_strs(field, qs.take(out.deep_view().len() as int)).len()
                    && starts_with(
                    buf@,
                    p as int,
                    end as int,
                    rep_strs(field, qs.skip(out.deep_view().len() as int)),
                )
                implies starts_with(
                    buf@,
                    p as int,
                    end as int,
                    f_len(field, encode_utf8(qs[out.deep_view().len() as int])),
                ) && starts_with(buf@, p as int, end as int, vint(8 * field + 2)) by {
                let n = out.deep_view().len() as int;
                let rem = qs.skip(n);
                assert(rem.len() > 0);
                assert(rem[0] == qs[n]);
                assert(rep_strs(field, rem)
                    == f_len(field, encode_utf8(rem[0])) + rep_strs(field, rem.drop_first()));
                lemma_split(
                    buf@,
                    p as int,
                    p + rep_strs(field, rem).len(),
                    f_len(field, encode_utf8(rem[0])),
                    rep_strs(field, rem.drop_first()),
                );
                assert(f_len(field, encode_utf8(rem[0])) =~= vint(8 * field + 2) + (vint(
                    encode_utf8(rem[0]).len() as int,
                ) + encode_utf8(rem[0])));
                lemma_split(
                    buf@,
                    p as int,
                    p + f_len(field, encode_utf8(rem[0])).len(),
                    vint(8 * field + 2),
                    vint(encode_utf8(rem[0]).len() as int) + encode_utf8(rem[0]),
                );
            }
        }
        if p >= end {
            proof {
                lemma_vint_min_len(8 * field + 2);
                assert forall|qs: Seq<Seq<char>>| ({
                    &&& #[trigger] starts_with(buf@, pos as int, end as int, rep_strs(field, qs))
                    &&& !starts_with(
                        buf@,
                        pos + rep_strs(field, qs).len(),
                        end as int,
                        vint(8 * field + 2),
                    )
                }) implies out.deep_view() == qs && p == pos + rep_strs(field, qs).len() by {
                    let n = out.deep_view().len() as int;
                    if n < qs.len() {
                        // an element would have to stand at p == end
                        assert(false);
                    }
                    assert(qs.take(n) =~= qs);
                }
            }
            return Ok((out, p));
        }
        let peek = read_vint(buf, p, end);
        match peek {
            Err(_) => {
                proof {
                    assert forall|qs: Seq<Seq<char>>| ({
                        &&& #[trigger] starts_with(
                            buf@,
                            pos as int,
                            end as int,
                            rep_strs(field, qs),
                        )
                        &&& !starts_with(
                            buf@,
                            pos + rep_strs(field, qs).len(),
                            end as int,
                            vint(8 * field + 2),
                        )
                    }) implies out.deep_view() == qs && p == pos + rep_strs(field, qs).len() by {
                        let n = out.deep_view().len() as int;
                        if n < qs.len() {
                            let ghost w: u64 = (8 * field + 2) as u64;
                            assert(w as int == 8 * field + 2);
                            assert(starts_with(buf@, p as int, end as int, vint(w as int)));
                            assert(false);
                        }
                        assert(qs.take(n) =~= qs);
                    }
                }
                return Ok((out, p));
            },
            Ok(k) => {
                if k.0 != 8 * field + 2 {
                    proof {
                        assert forall|qs: Seq<Seq<char>>| ({
                            &&& #[trigger] starts_with(
                                buf@,
                                pos as int,
                                end as int,
                                rep_strs(field, qs),
                            )
                            &&& !starts_with(
                                buf@,
                                pos + rep_strs(field, qs).len(),
                                end as int,
                                vint(8 * field + 2),
                            )
                        }) implies out.deep_view() == qs && p == pos + rep_strs(
                            field,
                            qs,
                        ).len() by {
                            let n = out.deep_view().len() as int;
                            if n < qs.len() {
                                let ghost w: u64 = (8 * field + 2) as u64;
                                assert(w as int == 8 * field + 2);
                                assert(starts_with(buf@, p as int, end as int, vint(w as int)));
                                assert(k.0 == w);
                                assert(false);
                            }
                            assert(qs.take(n) =~= qs);
                        }
                    }
                    return Ok((out, p));
                }
                // the element key stands here, so an element must follow
                let elem = match dec_str_field(buf, p, end, field) {
                    Ok(o) => o,
                    Err(e) => {
                        proof {
                            assert forall|qs: Seq<Seq<char>>| !({
                                &&& starts_with(
                                    buf@,
                                    pos as int,
                                    end as int,
                                    #[trigger] rep_strs(field, qs),
                                )
                                &&& !starts_with(
                                    buf@,
                                    pos + rep_strs(field, qs).len(),
                                    end as int,
                                    vint(8 * field + 2),
                                )
                            }) by {
                                if starts_with(buf@, pos as int, end as int, rep_strs(field, qs))
                                    && !starts_with(
                                    buf@,
                                    pos + rep_strs(field, qs).len(),
                                    end as int,
                                    vint(8 * field + 2),
                                ) {
                                    let n = out.deep_view().len() as int;
                                    if n >= qs.len() {
                                        assert(qs.take(n) =~= qs);
                                        assert(p == pos + rep_strs(field, qs).len());
                                        assert(starts_with(
                                            buf@,
                                            p as int,
                                            end as int,
                                            vint(k.0 as int),
                                        ));
                                        assert(k.0 as int == 8 * field + 2);
                                        assert(false);
                                    }
                                }
                            }
                        }
                        return Err(e);
                    },
                };
                let ghost old_out = out.deep_view();
                out.push(elem.0);
                proof {
                    assert(out.deep_view() =~= old_out.push(elem.0@));
                    lemma_rep_strs_push(field, old_out, elem.0@);
                    crate::varint::lemma_join(
                        buf@,
                        pos as int,
                        elem.1 as int,
                        rep_strs(field, old_out),
                        f_len(field, encode_utf8(elem.0@)),
                    );
                    assert forall|qs: Seq<Seq<char>>|
                        #[trigger] starts_with(buf@, pos as int, end as int, rep_strs(field, qs))
                        implies ({
                            ||| {
                                &&& out.deep_view().len() <= qs.len()
                                &&& out.deep_view() == qs.take(out.deep_view().len() as int)
                                &&& elem.1 == pos + rep_strs(
                                    field,
                                    qs.take(out.deep_view().len() as int),
                                ).len()
                                &&& starts_with(
                                    buf@,
                                    elem.1 as int,
                                    end as int,
                                    rep_strs(field, qs.skip(out.deep_view().len() as int)),
                                )
                            }
                            ||| starts_with(
                                buf@,
                                pos + rep_strs(field, qs).len(),
                                end as int,
                                vint(8 * field + 2),
                            )
                        }) by {
                        let n = old_out.len() as int;
                        if starts_with(
                            buf@,
                            pos + rep_strs(field, qs).len(),
                            end as int,
                            vint(8 * field + 2),
                        ) {
                            // already past this candidate; nothing to maintain
                        } else if n >= qs.len() {
                            // the candidate ended exactly here, yet the element
                            // key parses here: it joins the passed candidates
                            assert(qs.take(n) =~= qs);
                            assert(p == pos + rep_strs(field, qs).len());
                            assert(starts_with(buf@, p as int, end as int, vint(k.0 as int)));
                            assert(k.0 as int == 8 * field + 2);
                        } else {
                            let rem = qs.skip(n);
                            assert(rem[0] == qs[n]);
                            assert(elem.0@ == qs[n] && elem.1 == p + f_len(
                                field,
                                encode_utf8(qs[n]),
                            ).len());
                            lemma_rep_strs_push(field, qs.take(n), qs[n]);
                            assert(qs.take(n).push(qs[n]) =~= qs.take(n + 1));
                            assert(out.deep_view() =~= qs.take(n + 1));
                            assert(rep_strs(field, rem) == f_len(field, encode_utf8(rem[0]))
                                + rep_strs(field, rem.drop_first()));
                            lemma_split(
                                buf@,
                                p as int,
                                p + rep_strs(field, rem).len(),
                                f_len(field, encode_utf8(rem[0])),
                                rep_strs(field, rem.drop_first()),
                            );
                            assert(rem.drop_first() =~= qs.skip(n + 1));
                        }
                    }
                }
                p = elem.1;
            },
        }
    }
}

/// A request for one chunk of a file, carrying an opaque reply token.
#[derive(Debug, Clone, PartialEq)]
pub struct ChunkRequest {
    pub content_hash: Vec<u8>,
    pub chunk_index: u32,
    pub surb: Vec<u8>,
}

pub ghost struct ChunkRequestV {
    pub content_hash: Seq<u8>,
    pub chunk_index: u32,
    pub surb: Seq<u8>,
}

impl View for ChunkRequest {
    type V = ChunkRequestV;

    open spec fn view(&self) -> ChunkRequestV {
        ChunkRequestV { content_hash: self.content_hash@, chunk_index: self.chunk_index, surb: self.surb@ }
    }
}

impl DeepView for ChunkRequest {
    type V = ChunkRequestV;

    open spec fn deep_view(&self) -> ChunkRequestV {
        self.view()
    }
}

pub open spec fn enc_chunk_request_msg(v: ChunkRequestV) -> Seq<u8> {
    f_len(1, v.content_hash) + f_vint(2, v.chunk_index as u64) + f_len(3, v.surb)
}

pub(crate) fn write_chunk_request_msg(m: &ChunkRequest, out: &mut Vec<u8>)
    ensures
        final(out)@ == old(out)@ + enc_chunk_request_msg(m@),
{
    w_bytes_field(out, 1, m.content_hash.as_slice());
    w_vint_field(out, 2, m.chunk_index as u64);
    w_bytes_field(out, 3, m.surb.as_slice());
    proof {
        assert(out@ =~= old(out)@ + enc_chunk_request_msg(m@));
    }
}

proof fn lemma_chunk_request_msg_parts(s: Seq<u8>, pos: int, end: int, v: ChunkRequestV)
    requires
        0 <= pos <= end <= s.len(),
        s.subrange(pos, end) == enc_chunk_request_msg(v),
    ensures
        starts_with(s, pos, end, f_len(1, v.content_hash)),
        starts_with(s, pos + f_len(1, v.content_hash).len(), end, f_vint(2, v.chunk_index as u64)),
        starts_with(s, pos + f_len(1, v.content_hash).len() + f_vint(2, v.chunk_index as u64).len(), end, f_len(3, v.surb)),
        end == pos + f_len(1, v.content_hash).len() + f_vint(2, v.chunk_index as u64).len() + f_len(3, v.surb).len(),
{
    assert(enc_chunk_request_msg(v) =~= f_len(1, v.content_hash) + (f_vint(2, v.chunk_index as u64) + (f_len(3, v.surb))));
    lemma_split(s, pos, end, f_len(1, v.content_hash), f_vint(2, v.chunk_index as u64) + (f_len(3, v.surb)));
    lemma_split(s, pos + f_len(1, v.content_hash).len(), end, f_vint(2, v.chunk_index as u64), f_len(3, v.surb));
    assert(s.subrange(pos + f_len(1, v.content_hash).len() + f_vint(2, v.chunk_index as u64).len(), end).len() == end - (pos + f_len(1, v.content_hash).len() + f_vint(2, v.chunk_index as u64).len()));
}

pub(crate) fn dec_chunk_request_msg(buf: &[u8], pos: usize, end: usize) -> (r: Result<
    ChunkRequest,
    Error,
>)
    requires
        pos <= end <= buf@.len(),
    ensures
        forall|v: ChunkRequestV|
            buf@.subrange(pos as int, end as int) == #[trigger] enc_chunk_request_msg(v)
            ==> (match r {
                Ok(m) => m@ == v,
                Err(_) => false,
            }),
        r matches Ok(m) ==> buf@.subrange(pos as int, end as int) == enc_chunk_request_msg(m@),
{
    proof {
        assert forall|v: ChunkRequestV|
            buf@.subrange(pos as int, end as int) == enc_chunk_request_msg(v)
            implies starts_with(buf@, pos as int, end as int, f_len(1, v.content_hash)) by {
            lemma_chunk_request_msg_parts(buf@, pos as int, end as int, v);
        }
    }
    let x0 = match dec_bytes_field(buf, pos, end, 1) {
        Ok(o) => o,
        Err(e) => {
            return Err(e);
        },
    };
    proof {
        assert forall|v: ChunkRequestV|
            buf@.subrange(pos as int, end as int) == enc_chunk_request_msg(v)
            implies starts_with(buf@, x0.1 as int, end as int, f_vint(2, v.chunk_index as u64)) by {
            lemma_chunk_request_msg_parts(buf@, pos as int, end as int, v);
        }
    }
    let x1 = match dec_u32_field(buf, x0.1, end, 2) {
        Ok(o) => o,
        Err(e) => {
            return Err(e);
        },
    };
    proof {
        assert forall|v: ChunkRequestV|
            buf@.subrange(pos as int, end as int) == enc_chunk_request_msg(v)
            implies starts_with(buf@, x1.1 as int, end as int, f_len(3, v.surb)) by {
            lemma_chunk_request_msg_parts(buf@, pos as int, end as int, v);
        }
    }
    let x2 = match dec_bytes_field(buf, x1.1, end, 3) {
        Ok(o) => o,
        Err(e) => {
            return Err(e);
        },
    };
    if x2.1 != end {
        proof {
            assert forall|v: ChunkRequestV|
                buf@.subrange(pos as int, end as int) != enc_chunk_request_msg(v) by {
                if buf@.subrange(pos as int, end as int) == enc_chunk_request_msg(v) {
                    lemma_chunk_request_msg_parts(buf@, pos as int, end as int, v);
                }
            }
        }
        return Err(Error::Decode("unexpected data after the message".to_owned()));
    }
    proof {
        assert(buf@.subrange(pos as int, x0.1 as int) == f_len(1, x0.0@));
        crate::varint::lemma_join(
            buf@,
            pos as int,
            x1.1 as int,
            f_len(1, x0.0@),
            f_vint(2, x1.0 as u64),
        );
        crate::varint::lemma_join(
            buf@,
            pos as int,
            x2.1 as int,
            f_len(1, x0.0@) + f_vint(2, x1.0 as u64),
            f_len(3, x2.0@),
        );
    }
    Ok(ChunkRequest { content_hash: x0.0, chunk_index: x1.0, surb: x2.0 })
}

/// One chunk's bytes together with that chunk's own digest.
#[derive(Debug, Clone, PartialEq)]
pub struct ChunkResponse {
    pub content_hash: Vec<u8>,
    pub chunk_index: u32,
    pub data: Vec<u8>,
    pub chunk_hash: Vec<u8>,
}

pub ghost struct ChunkResponseV {
    pub content_hash: Seq<u8>,
    pub chunk_index: u32,
    pub data: Seq<u8>,
    pub chunk_hash: Seq<u8>,
}

impl View for ChunkResponse {
    type V = ChunkResponseV;

    open spec fn view(&self) -> ChunkResponseV {
        ChunkResponseV { content_hash: self.content_hash@, chunk_index: self.chunk_index, data: self.data@, chunk_hash: self.chunk_hash@ }
    }
}

impl DeepView for ChunkResponse {
    type V = ChunkResponseV;

    open spec fn deep_view(&self) -> ChunkResponseV {
        self.view()
    }
}

pub open spec fn enc_chunk_response_msg(v: ChunkResponseV) -> Seq<u8> {
    f_len(1, v.content_hash) + f_vint(2, v.chunk_index as u64) + f_len(3, v.data) + f_len(4, v.chunk_hash)
}

pub(crate) fn write_chunk_response_msg(m: &ChunkResponse, out: &mut Vec<u8>)
    ensures
        final(out)@ == old(out)@ + enc_chunk_response_msg(m@),
{
    w_bytes_field(out, 1, m.content_hash.as_slice());
    w_vint_field(out, 2, m.chunk_index as u64);
    w_bytes_field(out, 3, m.data.as_slice());
    w_bytes_field(out, 4, m.chunk_hash.as_slice());
    proof {
        assert(out@ =~= old(out)@ + enc_chunk_response_msg(m@));
    }
}

proof fn lemma_chunk_response_msg_parts(s: Seq<u8>, pos: int, end: int, v: ChunkResponseV)
    requires
        0 <= pos <= end <= s.len(),
        s.subrange(pos, end) == enc_chunk_response_msg(v),
    ensures
        starts_with(s, pos, end, f_len(1, v.content_hash)),
        starts_with(s, pos + f_len(1, v.content_hash).len(), end, f_vint(2, v.chunk_index as u64)),
        starts_with(s, pos + f_len(1, v.content_hash).len() + f_vint(2, v.chunk_index as u64).len(), end, f_len(3, v.data)),
        starts_with(s, pos + f_len(1, v.content_hash).len() + f_vint(2, v.chunk_index as u64).len() + f_len(3, v.data).len(), end, f_len(4, v.chunk_hash)),
        end == pos + f_len(1, v.content_hash).len() + f_vint(2, v.chunk_index as u64).len() + f_len(3, v.data).len() + f_len(4, v.chunk_hash).len(),
{
    assert(enc_chunk_response_msg(v) =~= f_len(1, v.content_hash) + (f_vint(2, v.chunk_index as u64) + (f_len(3, v.data) + (f_len(4, v.chunk_hash)))));
    lemma_split(s, pos, end, f_len(1, v.content_hash), f_vint(2, v.chunk_index as u64) + (f_len(3, v.data) + (f_len(4, v.chunk_hash))));
    lemma_split(s, pos + f_len(1, v.content_hash).len(), end, f_vint(2, v.chunk_index as u64), f_len(3, v.data) + (f_len(4, v.chunk_hash)));
    lemma_split(s, pos + f_len(1, v.content_hash).len() + f_vint(2, v.chunk_index as u64).len(), end, f_len(3, v.data), f_len(4, v.chunk_hash));
    assert(s.subrange(pos + f_len(1, v.content_hash).len() + f_vint(2, v.chunk_index as u64).len() + f_len(3, v.data).len(), end).len() == end - (pos + f_len(1, v.content_hash).len() + f_vint(2, v.chunk_index as u64).len() + f_len(3, v.data).len()));
}

pub(crate) fn dec_chunk_response_msg(buf: &[u8], pos: usize, end: usize) -> (r: Result<
    ChunkResponse,
    Error,
>)
    requires
        pos <= end <= buf@.len(),
    ensures
        forall|v: ChunkResponseV|
            buf@.subrange(pos as int, end as int) == #[trigger] enc_chunk_response_msg(v)
            ==> (match r {
                Ok(m) => m@ == v,
                Err(_) => false,
            }),
        r matches Ok(m) ==> buf@.subrange(pos as int, end as int) == enc_chunk_response_msg(m@),
{
    proof {
        assert forall|v: ChunkResponseV|
            buf@.subrange(pos as int, end as int) == enc_chunk_response_msg(v)
            implies starts_with(buf@, pos as int, end as int, f_len(1, v.content_hash)) by {
            lemma_chunk_response_msg_parts(buf@, pos as int, end as int, v);
        }
    }
    let x0 = match dec_bytes_field(buf, pos, end, 1) {
        Ok(o) => o,
        Err(e) => {
            return Err(e);
        },
    };
    proof {
        assert forall|v: ChunkResponseV|
            buf@.subrange(pos as int, end as int) == enc_chunk_response_msg(v)
            implies starts_with(buf@, x0.1 as int, end as int, f_vint(2, v.chunk_index as u64)) by {
            lemma_chunk_response_msg_parts(buf@, pos as int, end as int, v);
        }
    }
    let x1 = match dec_u32_field(buf, x0.1, end, 2) {
        Ok(o) => o,
        Err(e) => {
            return Err(e);
        },
    };
    proof {
        assert forall|v: ChunkResponseV|
            buf@.subrange(pos as int, end as int) == enc_chunk_response_msg(v)
            implies starts_with(buf@, x1.1 as int, end as int, f_len(3, v.data)) by {
            lemma_chunk_response_msg_parts(buf@, pos as int, end as int, v);
        }
    }
    let x2 = match dec_bytes_field(buf, x1.1, end, 3) {
        Ok(o) => o,
        Err(e) => {
            return Err(e);
        },
    };
    proof {
        assert forall|v: ChunkResponseV|
            buf@.subrange(pos as int, end as int) == enc_chunk_response_msg(v)
            implies starts_with(buf@, x2.1 as int, end as int, f_len(4, v.chunk_hash)) by {
            lemma_chunk_response_msg_parts(buf@, pos as int, end as int, v);
        }
    }
    let x3 = match dec_bytes_field(buf, x2.1, end, 4) {
        Ok(o) => o,
        Err(e) => {
            return Err(e);
        },
    };
    if x3.1 != end {
        proof {
            assert forall|v: ChunkResponseV|
                buf@.subrange(pos as int, end as int) != enc_chunk_response_msg(v) by {
                if buf@.subrange(pos as int, end as int) == enc_chunk_response_msg(v) {
                    lemma_chunk_response_msg_parts(buf@, pos as int, end as int, v);
                }
            }
        }
        return Err(Error::Decode("unexpected data after the message".to_owned()));
    }
    proof {
        assert(buf@.subrange(pos as int, x0.1 as int) == f_len(1, x0.0@));
        crate::varint::lemma_join(
            buf@,
            pos as int,
            x1.1 as int,
            f_len(1, x0.0@),
            f_vint(2, x1.0 as u64),
        );
        crate::varint::lemma_join(
            buf@,
            pos as int,
            x2.1 as int,
            f_len(1, x0.0@) + f_vint(2, x1.0 as u64),
            f_len(3, x2.0@),
        );
        crate::varint::lemma_join(
            buf@,
            pos as int,
            x3.1 as int,
            f_len(1, x0.0@) + f_vint(2, x1.0 as u64) + f_len(3, x2.0@),
            f_len(4, x3.0@),
        );
    }
    Ok(ChunkResponse { content_hash: x0.0, chunk_index: x1.0, data: x2.0, chunk_hash: x3.0 })
}

/// An announcement that a seeder offers a file under its digest.
#[derive(Debug, Clone, PartialEq)]
pub struct PublishRequest {
    pub content_hash: Vec<u8>,
    pub filename: String,
    pub keywords: Vec<String>,
    pub size: u64,
    pub chunk_count: u32,
    pub nym_address: String,
}

pub ghost struct PublishRequestV {
    pub content_hash: Seq<u8>,
    pub filename: Seq<char>,
    pub keywords: Seq<Seq<char>>,
    pub size: u64,
    pub chunk_count: u32,
    pub nym_address: Seq<char>,
}

impl View for PublishRequest {
    type V = PublishRequestV;

    open spec fn view(&self) -> PublishRequestV {
        PublishRequestV { content_hash: self.content_hash@, filename: self.filename@, keywords: self.keywords.deep_view(), size: self.size, chunk_count: self.chunk_count, nym_address: self.nym_address@ }
    }
}

impl DeepView for PublishRequest {
    type V = PublishRequestV;

    open spec fn deep_view(&self) -> PublishRequestV {
        self.view()
    }
}

pub open spec fn enc_publish_request_msg(v: PublishRequestV) -> Seq<u8> {
    f_len(1, v.content_hash) + f_len(2, encode_utf8(v.filename)) + rep_strs(3, v.keywords) + f_vint(4, v.size) + f_vint(5, v.chunk_count as u64) + f_len(6, encode_utf8(v.nym_address))
}

pub(crate) fn write_publish_request_msg(m: &PublishRequest, out: &mut Vec<u8>)
    ensures
        final(out)@ == old(out)@ + enc_publish_request_msg(m@),
{
    w_bytes_field(out, 1, m.content_hash.as_slice());
    w_str_field(out, 2, self_str(&m.filename));
    w_rep_str(out, 3, &m.keywords);
    w_vint_field(out, 4, m.size);
    w_vint_field(out, 5, m.chunk_count as u64);
    w_str_field(out, 6, self_str(&m.nym_address));
    proof {
        assert(out@ =~= old(out)@ + enc_publish_request_msg(m@));
    }
}

proof fn lemma_publish_request_msg_parts(s: Seq<u8>, pos: int, end: int, v: PublishRequestV)
    requires
        0 <= pos <= end <= s.len(),
        s.subrange(pos, end) == enc_publish_request_msg(v),
    ensures
        starts_with(s, pos, end, f_len(1, v.content_hash)),
        starts_with(s, pos + f_len(1, v.content_hash).len(), end, f_len(2, encode_utf8(v.filename))),
        starts_with(s, pos + f_len(1, v.content_hash).len() + f_len(2, encode_utf8(v.filename)).len(), end, rep_strs(3, v.keywords)),
        starts_with(s, pos + f_len(1, v.content_hash).len() + f_len(2, encode_utf8(v.filename)).len() + rep_strs(3, v.keywords).len(), end, f_vint(4, v.size)),
        starts_with(s, pos + f_len(1, v.content_hash).len() + f_len(2, encode_utf8(v.filename)).len() + rep_strs(3, v.keywords).len() + f_vint(4, v.size).len(), end, f_vint(5, v.chunk_count as u64)),
        starts_with(s, pos + f_len(1, v.content_hash).len() + f_len(2, encode_utf8(v.filename)).len() + rep_strs(3, v.keywords).len() + f_vint(4, v.size).len() + f_vint(5, v.chunk_count as u64).len(), end, f_len(6, encode_utf8(v.nym_address))),
        end == pos + f_len(1, v.content_hash).len() + f_len(2, encode_utf8(v.filename)).len() + rep_strs(3, v.keywords).len() + f_vint(4, v.size).len() + f_vint(5, v.chunk_count as u64).len() + f_len(6, encode_utf8(v.nym_address)).len(),
        !starts_with(s, pos + f_len(1, v.content_hash).len() + f_len(2, encode_utf8(v.filename)).len() + rep_strs(3, v.keywords).len(), end, vint(26)),
{
    assert(enc_publish_request_msg(v) =~= f_len(1, v.content_hash) + (f_len(2, encode_utf8(v.filename)) + (rep_strs(3, v.keywords) + (f_vint(4, v.size) + (f_vint(5, v.chunk_count as u64) + (f_len(6, encode_utf8(v.nym_address))))))));
    lemma_split(s, pos, end, f_len(1, v.content_hash), f_len(2, encode_utf8(v.filename)) + (rep_strs(3, v.keywords) + (f_vint(4, v.size) + (f_vint(5, v.chunk_count as u64) + (f_len(6, encode_utf8(v.nym_address)))))));
    lemma_split(s, pos + f_len(1, v.content_hash).len(), end, f_len(2, encode_utf8(v.filename)), rep_strs(3, v.keywords) + (f_vint(4, v.size) + (f_vint(5, v.chunk_count as u64) + (f_len(6, encode_utf8(v.nym_address))))));
    lemma_split(s, pos + f_len(1, v.content_hash).len() + f_len(2, encode_utf8(v.filename)).len(), end, rep_strs(3, v.keywords), f_vint(4, v.size) + (f_vint(5, v.chunk_count as u64) + (f_len(6, encode_utf8(v.nym_address)))));
    lemma_split(s, pos + f_len(1, v.content_hash).len() + f_len(2, encode_utf8(v.filename)).len() + rep_strs(3, v.keywords).len(), end, f_vint(4, v.size), f_vint(5, v.chunk_count as u64) + (f_len(6, encode_utf8(v.nym_address))));
    lemma_split(s, pos + f_len(1, v.content_hash).len() + f_len(2, encode_utf8(v.filename)).len() + rep_strs(3, v.keywords).len() + f_vint(4, v.size).len(), end, f_vint(5, v.chunk_count as u64), f_len(6, encode_utf8(v.nym_address)));
    assert(s.subrange(pos + f_len(1, v.content_hash).len() + f_len(2, encode_utf8(v.filename)).len() + rep_strs(3, v.keywords).len() + f_vint(4, v.size).len() + f_vint(5, v.chunk_count as u64).len(), end).len() == end - (pos + f_len(1, v.content_hash).len() + f_len(2, encode_utf8(v.filename)).len() + rep_strs(3, v.keywords).len() + f_vint(4, v.size).len() + f_vint(5, v.chunk_count as u64).len()));
    assert(!starts_with(s, pos + f_len(1, v.content_hash).len() + f_len(2, encode_utf8(v.filename)).len() + rep_strs(3, v.keywords).len(), end, vint(26))) by {
        if starts_with(s, pos + f_len(1, v.content_hash).len() + f_len(2, encode_utf8(v.filename)).len() + rep_strs(3, v.keywords).len(), end, vint(26)) {
            lemma_split(s, pos + f_len(1, v.content_hash).len() + f_len(2, encode_utf8(v.filename)).len() + rep_strs(3, v.keywords).len(), pos + f_len(1, v.content_hash).len() + f_len(2, encode_utf8(v.filename)).len() + rep_strs(3, v.keywords).len() + f_vint(4, v.size).len(), vint(32), vint(v.size as int));
            crate::varint::lemma_vint_unique(s, pos + f_len(1, v.content_hash).len() + f_len(2, encode_utf8(v.filename)).len() + rep_strs(3, v.keywords).len(), end, 26, 32);
        }
    }
}

pub(crate) fn dec_publish_request_msg(buf: &[u8], pos: usize, end: usize) -> (r: Result<
    PublishRequest,
    Error,
>)
    requires
        pos <= end <= buf@.len(),
    ensures
        forall|v: PublishRequestV|
            buf@.subrange(pos as int, end as int) == #[trigger] enc_publish_request_msg(v)
            ==> (match r {
                Ok(m) => m@ == v,
                Err(_) => false,
            }),
        r matches Ok(m) ==> buf@.subrange(pos as int, end as int) == enc_publish_request_msg(m@),
{
    proof {
        assert forall|v: PublishRequestV|
            buf@.subrange(pos as int, end as int) == enc_publish_request_msg(v)
            implies starts_with(buf@, pos as int, end as int, f_len(1, v.content_hash)) by {
            lemma_publish_request_msg_parts(buf@, pos as int, end as int, v);
        }
    }
    let x0 = match dec_bytes_field(buf, pos, end, 1) {
        Ok(o) => o,
        Err(e) => {
            return Err(e);
        },
    };
    proof {
        assert forall|v: PublishRequestV|
            buf@.subrange(pos as int, end as int) == enc_publish_request_msg(v)
            implies starts_with(buf@, x0.1 as int, end as int, f_len(2, encode_utf8(v.filename))) by {
            lemma_publish_request_msg_parts(buf@, pos as int, end as int, v);
        }
    }
    let x1 = match dec_str_field(buf, x0.1, end, 2) {
        Ok(o) => o,
        Err(e) => {
            return Err(e);
        },
    };
    proof {
        assert forall|v: PublishRequestV|
            buf@.subrange(pos as int, end as int) == enc_publish_request_msg(v)
            implies starts_with(buf@, x1.1 as int, end as int, rep_strs(3, v.keywords))
                && !starts_with(buf@, x1.1 as int + rep_strs(3, v.keywords).len(), end as int, vint(26)) by {
            lemma_publish_request_msg_parts(buf@, pos as int, end as int, v);
        }
    }
    let x2 = match dec_rep_str(buf, x1.1, end, 3) {
        Ok(o) => o,
        Err(e) => {
            return Err(e);
        },
    };
    proof {
        assert forall|v: PublishRequestV|
            buf@.subrange(pos as int, end as int) == enc_publish_request_msg(v)
            implies starts_with(buf@, x2.1 as int, end as int, f_vint(4, v.size)) by {
            lemma_publish_request_msg_parts(buf@, pos as int, end as int, v);
        }
    }
    let x3 = match dec_vint_field(buf, x2.1, end, 4) {
        Ok(o) => o,
        Err(e) => {
            return Err(e);
        },
    };
    proof {
        assert forall|v: PublishRequestV|
            buf@.subrange(pos as int, end as int) == enc_publish_request_msg(v)
            implies starts_with(buf@, x3.1 as int, end as int, f_vint(5, v.chunk_count as u64)) by {
            lemma_publish_request_msg_parts(buf@, pos as int, end as int, v);
        }
    }
    let x4 = match dec_u32_field(buf, x3.1, end, 5) {
        Ok(o) => o,
        Err(e) => {
            return Err(e);
        },
    };
    proof {
        assert forall|v: PublishRequestV|
            buf@.subrange(pos as int, end as int) == enc_publish_request_msg(v)
            implies starts_with(buf@, x4.1 as int, end as int, f_len(6, encode_utf8(v.nym_address))) by {
            lemma_publish_request_msg_parts(buf@, pos as int, end as int, v);
        }
    }
    let x5 = match dec_str_field(buf, x4.1, end, 6) {
        Ok(o) => o,
        Err(e) => {
            return Err(e);
        },
    };
    if x5.1 != end {
        proof {
            assert forall|v: PublishRequestV|
                buf@.subrange(pos as int, end as int) != enc_publish_request_msg(v) by {
                if buf@.subrange(pos as int, end as int) == enc_publish_request_msg(v) {
                    lemma_publish_request_msg_parts(buf@, pos as int, end as int, v);
                }
            }
        }
        return Err(Error::Decode("unexpected data after the message".to_owned()));
    }
    proof {
        assert(buf@.subrange(pos as int, x0.1 as int) == f_len(1, x0.0@));
        crate::varint::lemma_join(
            buf@,
            pos as int,
            x1.1 as int,
            f_len(1, x0.0@),
            f_len(2, encode_utf8(x1.0@)),
        );
        crate::varint::lemma_join(
            buf@,
            pos as int,
            x2.1 as int,
            f_len(1, x0.0@) + f_len(2, encode_utf8(x1.0@)),
            rep_strs(3, x2.0.deep_view()),
        );
        crate::varint::lemma_join(
            buf@,
            pos as int,
            x3.1 as int,
            f_len(1, x0.0@) + f_len(2, encode_utf8(x1.0@)) + rep_strs(3, x2.0.deep_view()),
            f_vint(4, x3.0),
        );
        crate::varint::lemma_join(
            buf@,
            pos as int,
            x4.1 as int,
            f_len(1, x0.0@) + f_len(2, encode_utf8(x1.0@)) + rep_strs(3, x2.0.deep_view()) + f_vint(4, x3.0),
            f_vint(5, x4.0 as u64),
        );
        crate::varint::lemma_join(
            buf@,
            pos as int,
            x5.1 as int,
            f_len(1, x0.0@) + f_len(2, encode_utf8(x1.0@)) + rep_strs(3, x2.0.deep_view()) + f_vint(4, x3.0) + f_vint(5, x4.0 as u64),
            f_len(6, encode_utf8(x5.0@)),
        );
    }
    Ok(PublishRequest { content_hash: x0.0, filename: x1.0, keywords: x2.0, size: x3.0, chunk_count: x4.0, nym_address: x5.0 })
}

/// The index provider's verdict on a publish.
#[derive(Debug, Clone, PartialEq)]
pub struct PublishResponse {
    pub success: bool,
    pub error: String,
}

pub ghost struct PublishResponseV {
    pub success: bool,
    pub error: Seq<char>,
}

impl View for PublishResponse {
    type V = PublishResponseV;

    open spec fn view(&self) -> PublishResponseV {
        PublishResponseV { success: self.success, error: self.error@ }
    }
}

impl DeepView for PublishResponse {
    type V = PublishResponseV;

    open spec fn deep_view(&self) -> PublishResponseV {
        self.view()
    }
}

pub open spec fn enc_publish_response_msg(v: PublishResponseV) -> Seq<u8> {
    f_bool(1, v.success) + f_len(2, encode_utf8(v.error))
}

pub(crate) fn write_publish_response_msg(m: &PublishResponse, out: &mut Vec<u8>)
    ensures
        final(out)@ == old(out)@ + enc_publish_response_msg(m@),
{
    w_bool_field(out, 1, m.success);
    w_str_field(out, 2, self_str(&m.error));
    proof {
        assert(out@ =~= old(out)@ + enc_publish_response_msg(m@));
    }
}

proof fn lemma_publish_response_msg_parts(s: Seq<u8>, pos: int, end: int, v: PublishResponseV)
    requires
        0 <= pos <= end <= s.len(),
        s.subrange(pos, end) == enc_publish_response_msg(v),
    ensures
        starts_with(s, pos, end, f_bool(1, v.success)),
        starts_with(s, pos + f_bool(1, v.success).len(), end, f_len(2, encode_utf8(v.error))),
        end == pos + f_bool(1, v.success).len() + f_len(2, encode_utf8(v.error)).len(),
{
    assert(enc_publish_response_msg(v) =~= f_bool(1, v.success) + (f_len(2, encode_utf8(v.error))));
    lemma_split(s, pos, end, f_bool(1, v.success), f_len(2, encode_utf8(v.error)));
    assert(s.subrange(pos + f_bool(1, v.success).len(), end).len() == end - (pos + f_bool(1, v.success).len()));
}

pub(crate) fn dec_publish_response_msg(buf: &[u8], pos: usize, end: usize) -> (r: Result<
    PublishResponse,
    Error,
>)
    requires
        pos <= end <= buf@.len(),
    ensures
        forall|v: PublishResponseV|
            buf@.subrange(pos as int, end as int) == #[trigger] enc_publish_response_msg(v)
            ==> (match r {
                Ok(m) => m@ == v,
                Err(_) => false,
            }),
        r matches Ok(m) ==> buf@.subrange(pos as int, end as int) == enc_publish_response_msg(m@),
{
    proof {
        assert forall|v: PublishResponseV|
            buf@.subrange(pos as int, end as int) == enc_publish_response_msg(v)
            implies starts_with(buf@, pos as int, end as int, f_bool(1, v.success)) by {
            lemma_publish_response_msg_parts(buf@, pos as int, end as int, v);
        }
    }
    let x0 = match dec_bool_field(buf, pos, end, 1) {
        Ok(o) => o,
        Err(e) => {
            return Err(e);
        },
    };
    proof {
        assert forall|v: PublishResponseV|
            buf@.subrange(pos as int, end as int) == enc_publish_response_msg(v)
            implies starts_with(buf@, x0.1 as int, end as int, f_len(2, encode_utf8(v.error))) by {
            lemma_publish_response_msg_parts(buf@, pos as int, end as int, v);
        }
    }
    let x1 = match dec_str_field(buf, x0.1, end, 2) {
        Ok(o) => o,
        Err(e) => {
            return Err(e);
        },
    };
    if x1.1 != end {
        proof {
            assert forall|v: PublishResponseV|
                buf@.subrange(pos as int, end as int) != enc_publish_response_msg(v) by {
                if buf@.subrange(pos as int, end as int) == enc_publish_response_msg(v) {
                    lemma_publish_response_msg_parts(buf@, pos as int, end as int, v);
                }
            }
        }
        return Err(Error::Decode("unexpected data after the message".to_owned()));
    }
    proof {
        assert(buf@.subrange(pos as int, x0.1 as int) == f_bool(1, x0.0));
        crate::varint::lemma_join(
            buf@,
            pos as int,
            x1.1 as int,
            f_bool(1, x0.0),
            f_len(2, encode_utf8(x1.0@)),
        );
    }
    Ok(PublishResponse { success: x0.0, error: x1.0 })
}

/// A lookup for nodes near a target identifier (reserved).
#[derive(Debug, Clone, PartialEq)]
pub struct FindNodeRequest {
    pub target_id: Vec<u8>,
}

pub ghost struct FindNodeRequestV {
    pub target_id: Seq<u8>,
}

impl View for FindNodeRequest {
    type V = FindNodeRequestV;

    open spec fn view(&self) -> FindNodeRequestV {
        FindNodeRequestV { target_id: self.target_id@ }
    }
}

impl DeepView for FindNodeRequest {
    type V = FindNodeRequestV;

    open spec fn deep_view(&self) -> FindNodeRequestV {
        self.view()
    }
}

pub open spec fn enc_find_node_request_msg(v: FindNodeRequestV) -> Seq<u8> {
    f_len(1, v.target_id)
}

pub(crate) fn write_find_node_request_msg(m: &FindNodeRequest, out: &mut Vec<u8>)
    ensures
        final(out)@ == old(out)@ + enc_find_node_request_msg(m@),
{
    w_bytes_field(out, 1, m.target_id.as_slice());
    proof {
        assert(out@ =~= old(out)@ + enc_find_node_request_msg(m@));
    }
}

proof fn lemma_find_node_request_msg_parts(s: Seq<u8>, pos: int, end: int, v: FindNodeRequestV)
    requires
        0 <= pos <= end <= s.len(),
        s.subrange(pos, end) == enc_find_node_request_msg(v),
    ensures
        starts_with(s, pos, end, f_len(1, v.target_id)),
        end == pos + f_len(1, v.target_id).len(),
{
    assert(s.subrange(pos, end).len() == end - pos);
    assert(s.subrange(pos, pos + f_len(1, v.target_id).len()) == s.subrange(pos, end));
}

pub(crate) fn dec_find_node_request_msg(buf: &[u8], pos: usize, end: usize) -> (r: Result<
    FindNodeRequest,
    Error,
>)
    requires
        pos <= end <= buf@.len(),
    ensures
        forall|v: FindNodeRequestV|
            buf@.subrange(pos as int, end as int) == #[trigger] enc_find_node_request_msg(v)
            ==> (match r {
                Ok(m) => m@ == v,
                Err(_) => false,
            }),
        r matches Ok(m) ==> buf@.subrange(pos as int, end as int) == enc_find_node_request_msg(m@),
{
    proof {
        assert forall|v: FindNodeRequestV|
            buf@.subrange(pos as int, end as int) == enc_find_node_request_msg(v)
            implies starts_with(buf@, pos as int, end as int, f_len(1, v.target_id)) by {
            lemma_find_node_request_msg_parts(buf@, pos as int, end as int, v);
        }
    }
    let x0 = match dec_bytes_field(buf, pos, end, 1) {
        Ok(o) => o,
        Err(e) => {
            return Err(e);
        },
    };
    if x0.1 != end {
        proof {
            assert forall|v: FindNodeRequestV|
                buf@.subrange(pos as int, end as int) != enc_find_node_request_msg(v) by {
                if buf@.subrange(pos as int, end as int) == enc_find_node_request_msg(v) {
                    lemma_find_node_request_msg_parts(buf@, pos as int, end as int, v);
                }
            }
        }
        return Err(Error::Decode("unexpected data after the message".to_owned()));
    }
    proof {
        assert(buf@.subrange(pos as int, x0.1 as int) == f_len(1, x0.0@));
    }
    Ok(FindNodeRequest { target_id: x0.0 })
}

/// A lookup for seeders of a key (reserved).
#[derive(Debug, Clone, PartialEq)]
pub struct FindValueRequest {
    pub key: Vec<u8>,
}

pub ghost struct FindValueRequestV {
    pub key: Seq<u8>,
}

impl View for FindValueRequest {
    type V = FindValueRequestV;

    open spec fn view(&self) -> FindValueRequestV {
        FindValueRequestV { key: self.key@ }
    }
}

impl DeepView for FindValueRequest {
    type V = FindValueRequestV;

    open spec fn deep_view(&self) -> FindValueRequestV {
        self.view()
    }
}

pub open spec fn enc_find_value_request_msg(v: FindValueRequestV) -> Seq<u8> {
    f_len(1, v.key)
}

pub(crate) fn write_find_value_request_msg(m: &FindValueRequest, out: &mut Vec<u8>)
    ensures
        final(out)@ == old(out)@ + enc_find_value_request_msg(m@),
{
    w_bytes_field(out, 1, m.key.as_slice());
    proof {
        assert(out@ =~= old(out)@ + enc_find_value_request_msg(m@));
    }
}

proof fn lemma_find_value_request_msg_parts(s: Seq<u8>, pos: int, end: int, v: FindValueRequestV)
    requires
        0 <= pos <= end <= s.len(),
        s.subrange(pos, end) == enc_find_value_request_msg(v),
    ensures
        starts_with(s, pos, end, f_len(1, v.key)),
        end == pos + f_len(1, v.key).len(),
{
    assert(s.subrange(pos, end).len() == end - pos);
    assert(s.subrange(pos, pos + f_len(1, v.key).len()) == s.subrange(pos, end));
}

pub(crate) fn dec_find_value_request_msg(buf: &[u8], pos: usize, end: usize) -> (r: Result<
    FindValueRequest,
    Error,
>)
    requires
        pos <= end <= buf@.len(),
    ensures
        forall|v: FindValueRequestV|
            buf@.subrange(pos as int, end as int) == #[trigger] enc_find_value_request_msg(v)
            ==> (match r {
                Ok(m) => m@ == v,
                Err(_) => false,
            }),
        r matches Ok(m) ==> buf@.subrange(pos as int, end as int) == enc_find_value_request_msg(m@),
{
    proof {
        assert forall|v: FindValueRequestV|
            buf@.subrange(pos as int, end as int) == enc_find_value_request_msg(v)
            implies starts_with(buf@, pos as int, end as int, f_len(1, v.key)) by {
            lemma_find_value_request_msg_parts(buf@, pos as int, end as int, v);
        }
    }
    let x0 = match dec_bytes_field(buf, pos, end, 1) {
        Ok(o) => o,
        Err(e) => {
            return Err(e);
        },
    };
    if x0.1 != end {
        proof {
            assert forall|v: FindValueRequestV|
                buf@.subrange(pos as int, end as int) != enc_find_value_request_msg(v) by {
                if buf@.subrange(pos as int, end as int) == enc_find_value_request_msg(v) {
                    lemma_find_value_request_msg_parts(buf@, pos as int, end as int, v);
                }
            }
        }
        return Err(Error::Decode("unexpected data after the message".to_owned()));
    }
    proof {
        assert(buf@.subrange(pos as int, x0.1 as int) == f_len(1, x0.0@));
    }
    Ok(FindValueRequest { key: x0.0 })
}

/// The outcome of a store (reserved).
#[derive(Debug, Clone, PartialEq)]
pub struct StoreResponse {
    pub success: bool,
}

pub ghost struct StoreResponseV {
    pub success: bool,
}

impl View for StoreResponse {
    type V = StoreResponseV;

    open spec fn view(&self) -> StoreResponseV {
        StoreResponseV { success: self.success }
    }
}

impl DeepView for StoreResponse {
    type V = StoreResponseV;

    open spec fn deep_view(&self) -> StoreResponseV {
        self.view()
    }
}

pub open spec fn enc_store_response_msg(v: StoreResponseV) -> Seq<u8> {
    f_bool(1, v.success)
}

pub(crate) fn write_store_response_msg(m: &StoreResponse, out: &mut Vec<u8>)
    ensures
        final(out)@ == old(out)@ + enc_store_response_msg(m@),
{
    w_bool_field(out, 1, m.success);
    proof {
        assert(out@ =~= old(out)@ + enc_store_response_msg(m@));
    }
}

proof fn lemma_store_response_msg_parts(s: Seq<u8>, pos: int, end: int, v: StoreResponseV)
    requires
        0 <= pos <= end <= s.len(),
        s.subrange(pos, end) == enc_store_response_msg(v),
    ensures
        starts_with(s, pos, end, f_bool(1, v.success)),
        end == pos + f_bool(1, v.success).len(),
{
    assert(s.subrange(pos, end).len() == end - pos);
    assert(s.subrange(pos, pos + f_bool(1, v.success).len()) == s.subrange(pos, end));
}

pub(crate) fn dec_store_response_msg(buf: &[u8], pos: usize, end: usize) -> (r: Result<
    StoreResponse,
    Error,
>)
    requires
        pos <= end <= buf@.len(),
    ensures
        forall|v: StoreResponseV|
            buf@.subrange(pos as int, end as int) == #[trigger] enc_store_response_msg(v)
            ==> (match r {
                Ok(m) => m@ == v,
                Err(_) => false,
            }),
        r matches Ok(m) ==> buf@.subrange(pos as int, end as int) == enc_store_response_msg(m@),
{
    proof {
        assert forall|v: StoreResponseV|
            buf@.subrange(pos as int, end as int) == enc_store_response_msg(v)
            implies starts_with(buf@, pos as int, end as int, f_bool(1, v.success)) by {
            lemma_store_response_msg_parts(buf@, pos as int, end as int, v);
        }
    }
    let x0 = match dec_bool_field(buf, pos, end, 1) {
        Ok(o) => o,
        Err(e) => {
            return Err(e);
        },
    };
    if x0.1 != end {
        proof {
            assert forall|v: StoreResponseV|
                buf@.subrange(pos as int, end as int) != enc_store_response_msg(v) by {
                if buf@.subrange(pos as int, end as int) == enc_store_response_msg(v) {
                    lemma_store_response_msg_parts(buf@, pos as int, end as int, v);
                }
            }
        }
        return Err(Error::Decode("unexpected data after the message".to_owned()));
    }
    proof {
        assert(buf@.subrange(pos as int, x0.1 as int) == f_bool(1, x0.0));
    }
    Ok(StoreResponse { success: x0.0 })
}

/// A liveness probe.
#[derive(Debug, Clone, PartialEq)]
pub struct PingRequest {
    pub sender_id: Vec<u8>,
}

pub ghost struct PingRequestV {
    pub sender_id: Seq<u8>,
}

impl View for PingRequest {
    type V = PingRequestV;

    open spec fn view(&self) -> PingRequestV {
        PingRequestV { sender_id: self.sender_id@ }
    }
}

impl DeepView for PingRequest {
    type V = PingRequestV;

    open spec fn deep_view(&self) -> PingRequestV {
        self.view()
    }
}

pub open spec fn enc_ping_request_msg(v: PingRequestV) -> Seq<u8> {
    f_len(1, v.sender_id)
}

pub(crate) fn write_ping_request_msg(m: &PingRequest, out: &mut Vec<u8>)
    ensures
        final(out)@ == old(out)@ + enc_ping_request_msg(m@),
{
    w_bytes_field(out, 1, m.sender_id.as_slice());
    proof {
        assert(out@ =~= old(out)@ + enc_ping_request_msg(m@));
    }
}

proof fn lemma_ping_request_msg_parts(s: Seq<u8>, pos: int, end: int, v: PingRequestV)
    requires
        0 <= pos <= end <= s.len(),
        s.subrange(pos, end) == enc_ping_request_msg(v),
    ensures
        starts_with(s, pos, end, f_len(1, v.sender_id)),
        end == pos + f_len(1, v.sender_id).len(),
{
    assert(s.subrange(pos, end).len() == end - pos);
    assert(s.subrange(pos, pos + f_len(1, v.sender_id).len()) == s.subrange(pos, end));
}

pub(crate) fn dec_ping_request_msg(buf: &[u8], pos: usize, end: usize) -> (r: Result<
    PingRequest,
    Error,
>)
    requires
        pos <= end <= buf@.len(),
    ensures
        forall|v: PingRequestV|
            buf@.subrange(pos as int, end as int) == #[trigger] enc_ping_request_msg(v)
            ==> (match r {
                Ok(m) => m@ == v,
                Err(_) => false,
            }),
        r matches Ok(m) ==> buf@.subrange(pos as int, end as int) == enc_ping_request_msg(m@),
{
    proof {
        assert forall|v: PingRequestV|
            buf@.subrange(pos as int, end as int) == enc_ping_request_msg(v)
            implies starts_with(buf@, pos as int, end as int, f_len(1, v.sender_id)) by {
            lemma_ping_request_msg_parts(buf@, pos as int, end as int, v);
        }
    }
    let x0 = match dec_bytes_field(buf, pos, end, 1) {
        Ok(o) => o,
        Err(e) => {
            return Err(e);
        },
    };
    if x0.1 != end {
        proof {
            assert forall|v: PingRequestV|
                buf@.subrange(pos as int, end as int) != enc_ping_request_msg(v) by {
                if buf@.subrange(pos as int, end as int) == enc_ping_request_msg(v) {
                    lemma_ping_request_msg_parts(buf@, pos as int, end as int, v);
                }
            }
        }
        return Err(Error::Decode("unexpected data after the message".to_owned()));
    }
    proof {
        assert(buf@.subrange(pos as int, x0.1 as int) == f_len(1, x0.0@));
    }
    Ok(PingRequest { sender_id: x0.0 })
}

/// The answer to a liveness probe.
#[derive(Debug, Clone, PartialEq)]
pub struct PingResponse {
    pub responder_id: Vec<u8>,
}

pub ghost struct PingResponseV {
    pub responder_id: Seq<u8>,
}

impl View for PingResponse {
    type V = PingResponseV;

    open spec fn view(&self) -> PingResponseV {
        PingResponseV { responder_id: self.responder_id@ }
    }
}

impl DeepView for PingResponse {
    type V = PingResponseV;

    open spec fn deep_view(&self) -> PingResponseV {
        self.view()
    }
}

pub open spec fn enc_ping_response_msg(v: PingResponseV) -> Seq<u8> {
    f_len(1, v.responder_id)
}

pub(crate) fn write_ping_response_msg(m: &PingResponse, out: &mut Vec<u8>)
    ensures
        final(out)@ == old(out)@ + enc_ping_response_msg(m@),
{
    w_bytes_field(out, 1, m.responder_id.as_slice());
    proof {
        assert(out@ =~= old(out)@ + enc_ping_response_msg(m@));
    }
}

proof fn lemma_ping_response_msg_parts(s: Seq<u8>, pos: int, end: int, v: PingResponseV)
    requires
        0 <= pos <= end <= s.len(),
        s.subrange(pos, end) == enc_ping_response_msg(v),
    ensures
        starts_with(s, pos, end, f_len(1, v.responder_id)),
        end == pos + f_len(1, v.responder_id).len(),
{
    assert(s.subrange(pos, end).len() == end - pos);
    assert(s.subrange(pos, pos + f_len(1, v.responder_id).len()) == s.subrange(pos, end));
}

pub(crate) fn dec_ping_response_msg(buf: &[u8], pos: usize, end: usize) -> (r: Result<
    PingResponse,
    Error,
>)
    requires
        pos <= end <= buf@.len(),
    ensures
        forall|v: PingResponseV|
            buf@.subrange(pos as int, end as int) == #[trigger] enc_ping_response_msg(v)
            ==> (match r {
                Ok(m) => m@ == v,
                Err(_) => false,
            }),
        r matches Ok(m) ==> buf@.subrange(pos as int, end as int) == enc_ping_response_msg(m@),
{
    proof {
        assert forall|v: PingResponseV|
            buf@.subrange(pos as int, end as int) == enc_ping_response_msg(v)
            implies starts_with(buf@, pos as int, end as int, f_len(1, v.responder_id)) by {
            lemma_ping_response_msg_parts(buf@, pos as int, end as int, v);
        }
    }
    let x0 = match dec_bytes_field(buf, pos, end, 1) {
        Ok(o) => o,
        Err(e) => {
            return Err(e);
        },
    };
    if x0.1 != end {
        proof {
            assert forall|v: PingResponseV|
                buf@.subrange(pos as int, end as int) != enc_ping_response_msg(v) by {
                if buf@.subrange(pos as int, end as int) == enc_ping_response_msg(v) {
                    lemma_ping_response_msg_parts(buf@, pos as int, end as int, v);
                }
            }
        }
        return Err(Error::Decode("unexpected data after the message".to_owned()));
    }
    proof {
        assert(buf@.subrange(pos as int, x0.1 as int) == f_len(1, x0.0@));
    }
    Ok(PingResponse { responder_id: x0.0 })
}

/// A node's identifier and its endpoint address (reserved).
#[derive(Debug, Clone, PartialEq)]
pub struct NodeInfo {
    pub node_id: Vec<u8>,
    pub nym_address: String,
}

pub ghost struct NodeInfoV {
    pub node_id: Seq<u8>,
    pub nym_address: Seq<char>,
}

impl View for NodeInfo {
    type V = NodeInfoV;

    open spec fn view(&self) -> NodeInfoV {
        NodeInfoV { node_id: self.node_id@, nym_address: self.nym_address@ }
    }
}

impl DeepView for NodeInfo {
    type V = NodeInfoV;

    open spec fn deep_view(&self) -> NodeInfoV {
        self.view()
    }
}

pub open spec fn enc_node_info_msg(v: NodeInfoV) -> Seq<u8> {
    f_len(1, v.node_id) + f_len(2, encode_utf8(v.nym_address))
}

pub(crate) fn write_node_info_msg(m: &NodeInfo, out: &mut Vec<u8>)
    ensures
        final(out)@ == old(out)@ + enc_node_info_msg(m@),
{
    w_bytes_field(out, 1, m.node_id.as_slice());
    w_str_field(out, 2, self_str(&m.nym_address));
    proof {
        assert(out@ =~= old(out)@ + enc_node_info_msg(m@));
    }
}

proof fn lemma_node_info_msg_parts(s: Seq<u8>, pos: int, end: int, v: NodeInfoV)
    requires
        0 <= pos <= end <= s.len(),
        s.subrange(pos, end) == enc_node_info_msg(v),
    ensures
        starts_with(s, pos, end, f_len(1, v.node_id)),
        starts_with(s, pos + f_len(1, v.node_id).len(), end, f_len(2, encode_utf8(v.nym_address))),
        end == pos + f_len(1, v.node_id).len() + f_len(2, encode_utf8(v.nym_address)).len(),
{
    assert(enc_node_info_msg(v) =~= f_len(1, v.node_id) + (f_len(2, encode_utf8(v.nym_address))));
    lemma_split(s, pos, end, f_len(1, v.node_id), f_len(2, encode_utf8(v.nym_address)));
    assert(s.subrange(pos + f_len(1, v.node_id).len(), end).len() == end - (pos + f_len(1, v.node_id).len()));
}

pub(crate) fn dec_node_info_msg(buf: &[u8], pos: usize, end: usize) -> (r: Result<
    NodeInfo,
    Error,
>)
    requires
        pos <= end <= buf@.len(),
    ensures
        forall|v: NodeInfoV|
            buf@.subrange(pos as int, end as int) == #[trigger] enc_node_info_msg(v)
            ==> (match r {
                Ok(m) => m@ == v,
                Err(_) => false,
            }),
        r matches Ok(m) ==> buf@.subrange(pos as int, end as int) == enc_node_info_msg(m@),
{
    proof {
        assert forall|v: NodeInfoV|
            buf@.subrange(pos as int, end as int) == enc_node_info_msg(v)
            implies starts_with(buf@, pos as int, end as int, f_len(1, v.node_id)) by {
            lemma_node_info_msg_parts(buf@, pos as int, end as int, v);
        }
    }
    let x0 = match dec_bytes_field(buf, pos, end, 1) {
        Ok(o) => o,
        Err(e) => {
            return Err(e);
        },
    };
    proof {
        assert forall|v: NodeInfoV|
            buf@.subrange(pos as int, end as int) == enc_node_info_msg(v)
            implies starts_with(buf@, x0.1 as int, end as int, f_len(2, encode_utf8(v.nym_address))) by {
            lemma_node_info_msg_parts(buf@, pos as int, end as int, v);
        }
    }
    let x1 = match dec_str_field(buf, x0.1, end, 2) {
        Ok(o) => o,
        Err(e) => {
            return Err(e);
        },
    };
    if x1.1 != end {
        proof {
            assert forall|v: NodeInfoV|
                buf@.subrange(pos as int, end as int) != enc_node_info_msg(v) by {
                if buf@.subrange(pos as int, end as int) == enc_node_info_msg(v) {
                    lemma_node_info_msg_parts(buf@, pos as int, end as int, v);
                }
            }
        }
        return Err(Error::Decode("unexpected data after the message".to_owned()));
    }
    proof {
        assert(buf@.subrange(pos as int, x0.1 as int) == f_len(1, x0.0@));
        crate::varint::lemma_join(
            buf@,
            pos as int,
            x1.1 as int,
            f_len(1, x0.0@),
            f_len(2, encode_utf8(x1.0@)),
        );
    }
    Ok(NodeInfo { node_id: x0.0, nym_address: x1.0 })
}

/// A seeder record carried inside lookup answers (reserved).
#[derive(Debug, Clone, PartialEq)]
pub struct ProtoSeeder {
    pub nym_address: String,
    pub chunk_bitmap: Vec<u8>,
    pub last_seen: u64,
}

pub ghost struct ProtoSeederV {
    pub nym_address: Seq<char>,
    pub chunk_bitmap: Seq<u8>,
    pub last_seen: u64,
}

impl View for ProtoSeeder {
    type V = ProtoSeederV;

    open spec fn view(&self) -> ProtoSeederV {
        ProtoSeederV { nym_address: self.nym_address@, chunk_bitmap: self.chunk_bitmap@, last_seen: self.last_seen }
    }
}

impl DeepView for ProtoSeeder {
    type V = ProtoSeederV;

    open spec fn deep_view(&self) -> ProtoSeederV {
        self.view()
    }
}

pub open spec fn enc_proto_seeder_msg(v: ProtoSeederV) -> Seq<u8> {
    f_len(1, encode_utf8(v.nym_address)) + f_len(2, v.chunk_bitmap) + f_vint(3, v.last_seen)
}

pub(crate) fn write_proto_seeder_msg(m: &ProtoSeeder, out: &mut Vec<u8>)
    ensures
        final(out)@ == old(out)@ + enc_proto_seeder_msg(m@),
{
    w_str_field(out, 1, self_str(&m.nym_address));
    w_bytes_field(out, 2, m.chunk_bitmap.as_slice());
    w_vint_field(out, 3, m.last_seen);
    proof {
        assert(out@ =~= old(out)@ + enc_proto_seeder_msg(m@));
    }
}

proof fn lemma_proto_seeder_msg_parts(s: Seq<u8>, pos: int, end: int, v: ProtoSeederV)
    requires
        0 <= pos <= end <= s.len(),
        s.subrange(pos, end) == enc_proto_seeder_msg(v),
    ensures
        starts_with(s, pos, end, f_len(1, encode_utf8(v.nym_address))),
        starts_with(s, pos + f_len(1, encode_utf8(v.nym_address)).len(), end, f_len(2, v.chunk_bitmap)),
        starts_with(s, pos + f_len(1, encode_utf8(v.nym_address)).len() + f_len(2, v.chunk_bitmap).len(), end, f_vint(3, v.last_seen)),
        end == pos + f_len(1, encode_utf8(v.nym_address)).len() + f_len(2, v.chunk_bitmap).len() + f_vint(3, v.last_seen).len(),
{
    assert(enc_proto_seeder_msg(v) =~= f_len(1, encode_utf8(v.nym_address)) + (f_len(2, v.chunk_bitmap) + (f_vint(3, v.last_seen))));
    lemma_split(s, pos, end, f_len(1, encode_utf8(v.nym_address)), f_len(2, v.chunk_bitmap) + (f_vint(3, v.last_seen)));
    lemma_split(s, pos + f_len(1, encode_utf8(v.nym_address)).len(), end, f_len(2, v.chunk_bitmap), f_vint(3, v.last_seen));
    assert(s.subrange(pos + f_len(1, encode_utf8(v.nym_address)).len() + f_len(2, v.chunk_bitmap).len(), end).len() == end - (pos + f_len(1, encode_utf8(v.nym_address)).len() + f_len(2, v.chunk_bitmap).len()));
}

pub(crate) fn dec_proto_seeder_msg(buf: &[u8], pos: usize, end: usize) -> (r: Result<
    ProtoSeeder,
    Error,
>)
    requires
        pos <= end <= buf@.len(),
    ensures
        forall|v: ProtoSeederV|
            buf@.subrange(pos as int, end as int) == #[trigger] enc_proto_seeder_msg(v)
            ==> (match r {
                Ok(m) => m@ == v,
                Err(_) => false,
            }),
        r matches Ok(m) ==> buf@.subrange(pos as int, end as int) == enc_proto_seeder_msg(m@),
{
    proof {
        assert forall|v: ProtoSeederV|
            buf@.subrange(pos as int, end as int) == enc_proto_seeder_msg(v)
            implies starts_with(buf@, pos as int, end as int, f_len(1, encode_utf8(v.nym_address))) by {
            lemma_proto_seeder_msg_parts(buf@, pos as int, end as int, v);
        }
    }
    let x0 = match dec_str_field(buf, pos, end, 1) {
        Ok(o) => o,
        Err(e) => {
            return Err(e);
        },
    };
    proof {
        assert forall|v: ProtoSeederV|
            buf@.subrange(pos as int, end as int) == enc_proto_seeder_msg(v)
            implies starts_with(buf@, x0.1 as int, end as int, f_len(2, v.chunk_bitmap)) by {
            lemma_proto_seeder_msg_parts(buf@, pos as int, end as int, v);
        }
    }
    let x1 = match dec_bytes_field(buf, x0.1, end, 2) {
        Ok(o) => o,
        Err(e) => {
            return Err(e);
        },
    };
    proof {
        assert forall|v: ProtoSeederV|
            buf@.subrange(pos as int, end as int) == enc_proto_seeder_msg(v)
            implies starts_with(buf@, x1.1 as int, end as int, f_vint(3, v.last_seen)) by {
            lemma_proto_seeder_msg_parts(buf@, pos as int, end as int, v);
        }
    }
    let x2 = match dec_vint_field(buf, x1.1, end, 3) {
        Ok(o) => o,
        Err(e) => {
            return Err(e);
        },
    };
    if x2.1 != end {
        proof {
            assert forall|v: ProtoSeederV|
                buf@.subrange(pos as int, end as int) != enc_proto_seeder_msg(v) by {
                if buf@.subrange(pos as int, end as int) == enc_proto_seeder_msg(v) {
                    lemma_proto_seeder_msg_parts(buf@, pos as int, end as int, v);
                }
            }
        }
        return Err(Error::Decode("unexpected data after the message".to_owned()));
    }
    proof {
        assert(buf@.subrange(pos as int, x0.1 as int) == f_len(1, encode_utf8(x0.0@)));
        crate::varint::lemma_join(
            buf@,
            pos as int,
            x1.1 as int,
            f_len(1, encode_utf8(x0.0@)),
            f_len(2, x1.0@),
        );
        crate::varint::lemma_join(
            buf@,
            pos as int,
            x2.1 as int,
            f_len(1, encode_utf8(x0.0@)) + f_len(2, x1.0@),
            f_vint(3, x2.0),
        );
    }
    Ok(ProtoSeeder { nym_address: x0.0, chunk_bitmap: x1.0, last_seen: x2.0 })
}

/// One search hit: the file, its shape, a relevance score carried as raw 32-bit float bits, and the seeders that offer it.
#[derive(Debug, Clone, PartialEq)]
pub struct SearchResult {
    pub content_hash: Vec<u8>,
    pub filename: String,
    pub size: u64,
    pub chunk_count: u32,
    pub relevance_bits: u32,
    pub seeders: Vec<String>,
}

pub ghost struct SearchResultV {
    pub content_hash: Seq<u8>,
    pub filename: Seq<char>,
    pub size: u64,
    pub chunk_count: u32,
    pub relevance_bits: u32,
    pub seeders: Seq<Seq<char>>,
}

impl View for SearchResult {
    type V = SearchResultV;

    open spec fn view(&self) -> SearchResultV {
        SearchResultV { content_hash: self.content_hash@, filename: self.filename@, size: self.size, chunk_count: self.chunk_count, relevance_bits: self.relevance_bits, seeders: self.seeders.deep_view() }
    }
}

impl DeepView for SearchResult {
    type V = SearchResultV;

    open spec fn deep_view(&self) -> SearchResultV {
        self.view()
    }
}

pub open spec fn enc_search_result_msg(v: SearchResultV) -> Seq<u8> {
    f_len(1, v.content_hash) + f_len(2, encode_utf8(v.filename)) + f_vint(3, v.size) + f_vint(4, v.chunk_count as u64) + f_fix32(5, v.relevance_bits) + rep_strs(6, v.seeders)
}

pub(crate) fn write_search_result_msg(m: &SearchResult, out: &mut Vec<u8>)
    ensures
        final(out)@ == old(out)@ + enc_search_result_msg(m@),
{
    w_bytes_field(out, 1, m.content_hash.as_slice());
    w_str_field(out, 2, self_str(&m.filename));
    w_vint_field(out, 3, m.size);
    w_vint_field(out, 4, m.chunk_count as u64);
    w_fix32_field(out, 5, m.relevance_bits);
    w_rep_str(out, 6, &m.seeders);
    proof {
        assert(out@ =~= old(out)@ + enc_search_result_msg(m@));
    }
}

proof fn lemma_search_result_msg_parts(s: Seq<u8>, pos: int, end: int, v: SearchResultV)
    requires
        0 <= pos <= end <= s.len(),
        s.subrange(pos, end) == enc_search_result_msg(v),
    ensures
        starts_with(s, pos, end, f_len(1, v.content_hash)),
        starts_with(s, pos + f_len(1, v.content_hash).len(), end, f_len(2, encode_utf8(v.filename))),
        starts_with(s, pos + f_len(1, v.content_hash).len() + f_len(2, encode_utf8(v.filename)).len(), end, f_vint(3, v.size)),
        starts_with(s, pos + f_len(1, v.content_hash).len() + f_len(2, encode_utf8(v.filename)).len() + f_vint(3, v.size).len(), end, f_vint(4, v.chunk_count as u64)),
        starts_with(s, pos + f_len(1, v.content_hash).len() + f_len(2, encode_utf8(v.filename)).len() + f_vint(3, v.size).len() + f_vint(4, v.chunk_count as u64).len(), end, f_fix32(5, v.relevance_bits)),
        starts_with(s, pos + f_len(1, v.content_hash).len() + f_len(2, encode_utf8(v.filename)).len() + f_vint(3, v.size).len() + f_vint(4, v.chunk_count as u64).len() + f_fix32(5, v.relevance_bits).len(), end, rep_strs(6, v.seeders)),
        end == pos + f_len(1, v.content_hash).len() + f_len(2, encode_utf8(v.filename)).len() + f_vint(3, v.size).len() + f_vint(4, v.chunk_count as u64).len() + f_fix32(5, v.relevance_bits).len() + rep_strs(6, v.seeders).len(),
        !starts_with(s, pos + f_len(1, v.content_hash).len() + f_len(2, encode_utf8(v.filename)).len() + f_vint(3, v.size).len() + f_vint(4, v.chunk_count as u64).len() + f_fix32(5, v.relevance_bits).len() + rep_strs(6, v.seeders).len(), end, vint(50)),
{
    assert(enc_search_result_msg(v) =~= f_len(1, v.content_hash) + (f_len(2, encode_utf8(v.filename)) + (f_vint(3, v.size) + (f_vint(4, v.chunk_count as u64) + (f_fix32(5, v.relevance_bits) + (rep_strs(6, v.seeders)))))));
    lemma_split(s, pos, end, f_len(1, v.content_hash), f_len(2, encode_utf8(v.filename)) + (f_vint(3, v.size) + (f_vint(4, v.chunk_count as u64) + (f_fix32(5, v.relevance_bits) + (rep_strs(6, v.seeders))))));
    lemma_split(s, pos + f_len(1, v.content_hash).len(), end, f_len(2, encode_utf8(v.filename)), f_vint(3, v.size) + (f_vint(4, v.chunk_count as u64) + (f_fix32(5, v.relevance_bits) + (rep_strs(6, v.seeders)))));
    lemma_split(s, pos + f_len(1, v.content_hash).len() + f_len(2, encode_utf8(v.filename)).len(), end, f_vint(3, v.size), f_vint(4, v.chunk_count as u64) + (f_fix32(5, v.relevance_bits) + (rep_strs(6, v.seeders))));
    lemma_split(s, pos + f_len(1, v.content_hash).len() + f_len(2, encode_utf8(v.filename)).len() + f_vint(3, v.size).len(), end, f_vint(4, v.chunk_count as u64), f_fix32(5, v.relevance_bits) + (rep_strs(6, v.seeders)));
    lemma_split(s, pos + f_len(1, v.content_hash).len() + f_len(2, encode_utf8(v.filename)).len() + f_vint(3, v.size).len() + f_vint(4, v.chunk_count as u64).len(), end, f_fix32(5, v.relevance_bits), rep_strs(6, v.seeders));
    assert(s.subrange(pos + f_len(1, v.content_hash).len() + f_len(2, encode_utf8(v.filename)).len() + f_vint(3, v.size).len() + f_vint(4, v.chunk_count as u64).len() + f_fix32(5, v.relevance_bits).len(), end).len() == end - (pos + f_len(1, v.content_hash).len() + f_len(2, encode_utf8(v.filename)).len() + f_vint(3, v.size).len() + f_vint(4, v.chunk_count as u64).len() + f_fix32(5, v.relevance_bits).len()));
    assert(!starts_with(s, pos + f_len(1, v.content_hash).len() + f_len(2, encode_utf8(v.filename)).len() + f_vint(3, v.size).len() + f_vint(4, v.chunk_count as u64).len() + f_fix32(5, v.relevance_bits).len() + rep_strs(6, v.seeders).len(), end, vint(50))) by {
        lemma_vint_min_len(50);
    }
}

pub(crate) fn dec_search_result_msg(buf: &[u8], pos: usize, end: usize) -> (r: Result<
    SearchResult,
    Error,
>)
    requires
        pos <= end <= buf@.len(),
    ensures
        forall|v: SearchResultV|
            buf@.subrange(pos as int, end as int) == #[trigger] enc_search_result_msg(v)
            ==> (match r {
                Ok(m) => m@ == v,
                Err(_) => false,
            }),
        r matches Ok(m) ==> buf@.subrange(pos as int, end as int) == enc_search_result_msg(m@),
{
    proof {
        assert forall|v: SearchResultV|
            buf@.subrange(pos as int, end as int) == enc_search_result_msg(v)
            implies starts_with(buf@, pos as int, end as int, f_len(1, v.content_hash)) by {
            lemma_search_result_msg_parts(buf@, pos as int, end as int, v);
        }
    }
    let x0 = match dec_bytes_field(buf, pos, end, 1) {
        Ok(o) => o,
        Err(e) => {
            return Err(e);
        },
    };
    proof {
        assert forall|v: SearchResultV|
            buf@.subrange(pos as int, end as int) == enc_search_result_msg(v)
            implies starts_with(buf@, x0.1 as int, end as int, f_len(2, encode_utf8(v.filename))) by {
            lemma_search_result_msg_parts(buf@, pos as int, end as int, v);
        }
    }
    let x1 = match dec_str_field(buf, x0.1, end, 2) {
        Ok(o) => o,
        Err(e) => {
            return Err(e);
        },
    };
    proof {
        assert forall|v: SearchResultV|
            buf@.subrange(pos as int, end as int) == enc_search_result_msg(v)
            implies starts_with(buf@, x1.1 as int, end as int, f_vint(3, v.size)) by {
            lemma_search_result_msg_parts(buf@, pos as int, end as int, v);
        }
    }
    let x2 = match dec_vint_field(buf, x1.1, end, 3) {
        Ok(o) => o,
        Err(e) => {
            return Err(e);
        },
    };
    proof {
        assert forall|v: SearchResultV|
            buf@.subrange(pos as int, end as int) == enc_search_result_msg(v)
            implies starts_with(buf@, x2.1 as int, end as int, f_vint(4, v.chunk_count as u64)) by {
            lemma_search_result_msg_parts(buf@, pos as int, end as int, v);
        }
    }
    let x3 = match dec_u32_field(buf, x2.1, end, 4) {
        Ok(o) => o,
        Err(e) => {
            return Err(e);
        },
    };
    proof {
        assert forall|v: SearchResultV|
            buf@.subrange(pos as int, end as int) == enc_search_result_msg(v)
            implies starts_with(buf@, x3.1 as int, end as int, f_fix32(5, v.relevance_bits)) by {
            lemma_search_result_msg_parts(buf@, pos as int, end as int, v);
        }
    }
    let x4 = match dec_fix32_field(buf, x3.1, end, 5) {
        Ok(o) => o,
        Err(e) => {
            return Err(e);
        },
    };
    proof {
        assert forall|v: SearchResultV|
            buf@.subrange(pos as int, end as int) == enc_search_result_msg(v)
            implies starts_with(buf@, x4.1 as int, end as int, rep_strs(6, v.seeders))
                && !starts_with(buf@, x4.1 as int + rep_strs(6, v.seeders).len(), end as int, vint(50)) by {
            lemma_search_result_msg_parts(buf@, pos as int, end as int, v);
        }
    }
    let x5 = match dec_rep_str(buf, x4.1, end, 6) {
        Ok(o) => o,
        Err(e) => {
            return Err(e);
        },
    };
    if x5.1 != end {
        proof {
            assert forall|v: SearchResultV|
                buf@.subrange(pos as int, end as int) != enc_search_result_msg(v) by {
                if buf@.subrange(pos as int, end as int) == enc_search_result_msg(v) {
                    lemma_search_result_msg_parts(buf@, pos as int, end as int, v);
                }
            }
        }
        return Err(Error::Decode("unexpected data after the message".to_owned()));
    }
    proof {
        assert(buf@.subrange(pos as int, x0.1 as int) == f_len(1, x0.0@));
        crate::varint::lemma_join(
            buf@,
            pos as int,
            x1.1 as int,
            f_len(1, x0.0@),
            f_len(2, encode_utf8(x1.0@)),
        );
        crate::varint::lemma_join(
            buf@,
            pos as int,
            x2.1 as int,
            f_len(1, x0.0@) + f_len(2, encode_utf8(x1.0@)),
            f_vint(3, x2.0),
        );
        crate::varint::lemma_join(
            buf@,
            pos as int,
            x3.1 as int,
            f_len(1, x0.0@) + f_len(2, encode_utf8(x1.0@)) + f_vint(3, x2.0),
            f_vint(4, x3.0 as u64),
        );
        crate::varint::lemma_join(
            buf@,
            pos as int,
            x4.1 as int,
            f_len(1, x0.0@) + f_len(2, encode_utf8(x1.0@)) + f_vint(3, x2.0) + f_vint(4, x3.0 as u64),
            f_fix32(5, x4.0),
        );
        crate::varint::lemma_join(
            buf@,
            pos as int,
            x5.1 as int,
            f_len(1, x0.0@) + f_len(2, encode_utf8(x1.0@)) + f_vint(3, x2.0) + f_vint(4, x3.0 as u64) + f_fix32(5, x4.0),
            rep_strs(6, x5.0.deep_view()),
        );
    }
    Ok(SearchResult { content_hash: x0.0, filename: x1.0, size: x2.0, chunk_count: x3.0, relevance_bits: x4.0, seeders: x5.0 })
}



/// A repeated field of embedded messages: one length-prefixed field per
/// element, in order. No elements leave no bytes at all.
pub open spec fn rep_results(field: u64, es: Seq<SearchResultV>) -> Seq<u8>
    decreases es.len(),
{
    if es.len() == 0 {
        Seq::<u8>::empty()
    } else {
        f_len(field, enc_search_result_msg(es[0])) + rep_results(field, es.drop_first())
    }
}

proof fn lemma_rep_results_push(field: u64, es: Seq<SearchResultV>, e: SearchResultV)
    ensures
        rep_results(field, es.push(e)) == rep_results(field, es) + f_len(field, enc_search_result_msg(e)),
    decreases es.len(),
{
    if es.len() == 0 {
        assert(es.push(e).drop_first() =~= Seq::<SearchResultV>::empty());
        assert(rep_results(field, Seq::<SearchResultV>::empty()) == Seq::<u8>::empty());
        assert(es.push(e)[0] == e);
        assert(rep_results(field, es.push(e)) =~= rep_results(field, es) + f_len(field, enc_search_result_msg(e)));
    } else {
        lemma_rep_results_push(field, es.drop_first(), e);
        assert(es.push(e).drop_first() =~= es.drop_first().push(e));
        assert(rep_results(field, es.push(e)) =~= rep_results(field, es) + f_len(field, enc_search_result_msg(e)));
    }
}

pub(crate) fn w_rep_results(out: &mut Vec<u8>, field: u64, v: &Vec<SearchResult>)
    requires
        1 <= field <= 100,
    ensures
        final(out)@ == old(out)@ + rep_results(field, v.deep_view()),
{
    let ghost start = out@;
    let mut i: usize = 0;
    while i < v.len()
        invariant
            1 <= field <= 100,
            i <= v@.len(),
            out@ == start + rep_results(field, v.deep_view().take(i as int)),
        decreases v@.len() - i,
    {
        let mut tmp: Vec<u8> = Vec::new();
        write_search_result_msg(&v[i], &mut tmp);
        w_bytes_field(out, field, tmp.as_slice());
        proof {
            assert(v.deep_view()[i as int] == v@[i as int]@);
            lemma_rep_results_push(field, v.deep_view().take(i as int), v.deep_view()[i as int]);
            assert(v.deep_view().take(i as int).push(v.deep_view()[i as int])
                =~= v.deep_view().take(i as int + 1));
            assert(out@ =~= start + rep_results(field, v.deep_view().take(i as int + 1)));
        }
        i = i + 1;
    }
    proof {
        assert(v.deep_view().take(v@.len() as int) =~= v.deep_view());
    }
}

pub(crate) fn dec_result_elem(buf: &[u8], pos: usize, end: usize, field: u64) -> (r: Result<
    (SearchResult, usize),
    Error,
>)
    requires
        pos <= end <= buf@.len(),
        1 <= field <= 100,
    ensures
        r matches Ok(o) ==> pos < o.1 <= end && o.1 == pos + f_len(
            field,
            enc_search_result_msg(o.0@),
        ).len() && starts_with(buf@, pos as int, end as int, f_len(field, enc_search_result_msg(o.0@))),
        forall|ev: SearchResultV|
            #[trigger] starts_with(buf@, pos as int, end as int, f_len(field, enc_search_result_msg(ev)))
            ==> (match r {
                Ok(o) => o.0@ == ev && o.1 == pos + f_len(field, enc_search_result_msg(ev)).len(),
                Err(_) => false,
            }),
{
    proof {
        assert forall|ev: SearchResultV|
            starts_with(buf@, pos as int, end as int, f_len(field, enc_search_result_msg(ev)))
            implies {
            &&& starts_with(buf@, pos as int, end as int, vint(8 * field + 2))
            &&& starts_with(
                buf@,
                pos + vint(8 * field + 2).len(),
                end as int,
                vint(enc_search_result_msg(ev).len() as int),
            )
            &&& buf@.subrange(
                pos + vint(8 * field + 2).len() + vint(enc_search_result_msg(ev).len() as int).len(),
                pos + f_len(field, enc_search_result_msg(ev)).len(),
            ) == enc_search_result_msg(ev)
        } by {
            assert(f_len(field, enc_search_result_msg(ev)) =~= vint(8 * field + 2) + (vint(
                enc_search_result_msg(ev).len() as int,
            ) + enc_search_result_msg(ev)));
            lemma_split(
                buf@,
                pos as int,
                pos + f_len(field, enc_search_result_msg(ev)).len(),
                vint(8 * field + 2),
                vint(enc_search_result_msg(ev).len() as int) + enc_search_result_msg(ev),
            );
            lemma_split(
                buf@,
                pos + vint(8 * field + 2).len(),
                pos + f_len(field, enc_search_result_msg(ev)).len(),
                vint(enc_search_result_msg(ev).len() as int),
                enc_search_result_msg(ev),
            );
        }
    }
    let k = match read_vint(buf, pos, end) {
        Ok(o) => o,
        Err(e) => {
            return Err(e);
        },
    };
    if k.0 != 8 * field + 2 {
        return Err(Error::Decode("unexpected field key".to_owned()));
    }
    let l = match read_vint(buf, k.1, end) {
        Ok(o) => o,
        Err(e) => {
            return Err(e);
        },
    };
    if l.0 > (end - l.1) as u64 {
        return Err(Error::Decode("length prefix exceeds the input".to_owned()));
    }
    let sub_end = l.1 + (l.0 as usize);
    let m = match dec_search_result_msg(buf, l.1, sub_end) {
        Ok(m) => m,
        Err(e) => {
            proof {
                assert forall|ev: SearchResultV|
                    !starts_with(buf@, pos as int, end as int, f_len(field, enc_search_result_msg(ev))) by {
                    if starts_with(buf@, pos as int, end as int, f_len(field, enc_search_result_msg(ev))) {
                        assert(enc_search_result_msg(ev).len() <= end <= usize::MAX);
                        assert(l.0 as usize == enc_search_result_msg(ev).len());
                        assert(buf@.subrange(l.1 as int, sub_end as int) == enc_search_result_msg(ev));
                    }
                }
            }
            return Err(e);
        },
    };
    proof {
        assert forall|ev: SearchResultV|
            starts_with(buf@, pos as int, end as int, f_len(field, enc_search_result_msg(ev)))
            implies m@ == ev && sub_end == pos + f_len(field, enc_search_result_msg(ev)).len() by {
            assert(enc_search_result_msg(ev).len() <= end <= usize::MAX);
            assert(l.0 as usize == enc_search_result_msg(ev).len());
            assert(buf@.subrange(l.1 as int, sub_end as int) == enc_search_result_msg(ev));
        }
        // the bytes consumed are exactly this element's field encoding
        assert(buf@.subrange(l.1 as int, sub_end as int) == enc_search_result_msg(m@));
        assert(l.0 as int == enc_search_result_msg(m@).len());
        assert(k.0 as int == 8 * field + 2);
        crate::varint::lemma_join(
            buf@,
            k.1 as int,
            sub_end as int,
            vint(enc_search_result_msg(m@).len() as int),
            enc_search_result_msg(m@),
        );
        crate::varint::lemma_join(
            buf@,
            pos as int,
            sub_end as int,
            vint(8 * field + 2),
            vint(enc_search_result_msg(m@).len() as int) + enc_search_result_msg(m@),
        );
        assert(f_len(field, enc_search_result_msg(m@)) =~= vint(8 * field + 2) + (vint(
            enc_search_result_msg(m@).len() as int,
        ) + enc_search_result_msg(m@)));
    }
    Ok((m, sub_end))
}

#[verifier::rlimit(100)]
#[verifier::spinoff_prover]
pub(crate) fn dec_rep_results(buf: &[u8], pos: usize, end: usize, field: u64) -> (r: Result<
    (Vec<SearchResult>, usize),
    Error,
>)
    requires
        pos <= end <= buf@.len(),
        1 <= field <= 100,
    ensures
        r matches Ok(o) ==> pos <= o.1 <= end && o.1 == pos + rep_results(
            field,
            o.0.deep_view(),
        ).len() && buf@.subrange(pos as int, o.1 as int) == rep_results(field, o.0.deep_view()),
        forall|es: Seq<SearchResultV>| ({
            &&& #[trigger] starts_with(buf@, pos as int, end as int, rep_results(field, es))
            &&& !starts_with(
                buf@,
                pos + rep_results(field, es).len(),
                end as int,
                vint(8 * field + 2),
            )
        }) ==> (match r {
            Ok(o) => o.0.deep_view() == es && o.1 == pos + rep_results(field, es).len(),
            Err(_) => false,
        }),
{
    let mut out: Vec<SearchResult> = Vec::new();
    let mut p: usize = pos;
    proof {
        assert(out.deep_view() =~= Seq::<SearchResultV>::empty());
        assert(buf@.subrange(pos as int, pos as int) =~= rep_results(field, out.deep_view()));
        assert forall|es: Seq<SearchResultV>|
            #[trigger] starts_with(buf@, pos as int, end as int, rep_results(field, es))
            implies Seq::<SearchResultV>::empty() == es.take(0) && starts_with(
                buf@,
                pos as int,
                end as int,
                rep_results(field, es.skip(0)),
            ) && rep_results(field, es.take(0)).len() == 0 by {
            assert(es.take(0) =~= Seq::<SearchResultV>::empty());
            assert(es.skip(0) =~= es);
        }
    }
    loop
        invariant
            pos <= p <= end <= buf@.len(),
            1 <= field <= 100,
            buf@.subrange(pos as int, p as int) == rep_results(field, out.deep_view()),
            forall|es: Seq<SearchResultV>|
                #[trigger] starts_with(buf@, pos as int, end as int, rep_results(field, es)) ==> ({
                    ||| {
                        &&& out.deep_view().len() <= es.len()
                        &&& out.deep_view() == es.take(out.deep_view().len() as int)
                        &&& p == pos + rep_results(
                            field,
                            es.take(out.deep_view().len() as int),
                        ).len()
                        &&& starts_with(
                            buf@,
                            p as int,
                            end as int,
                            rep_results(field, es.skip(out.deep_view().len() as int)),
                        )
                    }
                    ||| starts_with(
                        buf@,
                        pos + rep_results(field, es).len(),
                        end as int,
                        vint(8 * field + 2),
                    )
                }),
        decreases end - p,
    {
        proof {
            assert forall|es: Seq<SearchResultV>|
                #[trigger] starts_with(buf@, pos as int, end as int, rep_results(field, es))
                    && out.deep_view().len() < es.len()
                    && out.deep_view() == es.take(out.deep_view().len() as int)
                    && p == pos + rep_results(field, es.take(out.deep_view().len() as int)).len()
                    && starts_with(
                    buf@,
                    p as int,
                    end as int,
                    rep_results(field, es.skip(out.deep_view().len() as int)),
                )
                implies starts_with(
                    buf@,
                    p as int,
                    end as int,
                    f_len(field, enc_search_result_msg(es[out.deep_view().len() as int])),
                ) && starts_with(buf@, p as int, end as int, vint(8 * field + 2)) by {
                let n = out.deep_view().len() as int;
                let rem = es.skip(n);
                assert(rem.len() > 0);
                assert(rem[0] == es[n]);
                assert(rep_results(field, rem)
                    == f_len(field, enc_search_result_msg(rem[0])) + rep_results(field, rem.drop_first()));
                lemma_split(
                    buf@,
                    p as int,
                    p + rep_results(field, rem).len(),
                    f_len(field, enc_search_result_msg(rem[0])),
                    rep_results(field, rem.drop_first()),
                );
                assert(f_len(field, enc_search_result_msg(rem[0])) =~= vint(8 * field + 2) + (vint(
                    enc_search_result_msg(rem[0]).len() as int,
                ) + enc_search_result_msg(rem[0])));
                lemma_split(
                    buf@,
                    p as int,
                    p + f_len(field, enc_search_result_msg(rem[0])).len(),
                    vint(8 * field + 2),
                    vint(enc_search_result_msg(rem[0]).len() as int) + enc_search_result_msg(rem[0]),
                );
            }
        }
        if p >= end {
            proof {
                lemma_vint_min_len(8 * field + 2);
                assert forall|es: Seq<SearchResultV>| ({
                    &&& #[trigger] starts_with(buf@, pos as int, end as int, rep_results(field, es))
                    &&& !starts_with(
                        buf@,
                        pos + rep_results(field, es).len(),
                        end as int,
                        vint(8 * field + 2),
                    )
                }) implies out.deep_view() == es && p == pos + rep_results(field, es).len() by {
                    let n = out.deep_view().len() as int;
                    if n < es.len() {
                        assert(false);
                    }
                    assert(es.take(n) =~= es);
                }
            }
            return Ok((out, p));
        }
        let peek = read_vint(buf, p, end);
        match peek {
            Err(_) => {
                proof {
                    assert forall|es: Seq<SearchResultV>| ({
                        &&& #[trigger] starts_with(
                            buf@,
                            pos as int,
                            end as int,
                            rep_results(field, es),
                        )
                        &&& !starts_with(
                            buf@,
                            pos + rep_results(field, es).len(),
                            end as int,
                            vint(8 * field + 2),
                        )
                    }) implies out.deep_view() == es && p == pos + rep_results(field, es).len() by {
                        let n = out.deep_view().len() as int;
                        if n < es.len() {
                            let ghost w: u64 = (8 * field + 2) as u64;
                            assert(w as int == 8 * field + 2);
                            assert(starts_with(buf@, p as int, end as int, vint(w as int)));
                            assert(false);
                        }
                        assert(es.take(n) =~= es);
                    }
                }
                return Ok((out, p));
            },
            Ok(k) => {
                if k.0 != 8 * field + 2 {
                    proof {
                        assert forall|es: Seq<SearchResultV>| ({
                            &&& #[trigger] starts_with(
                                buf@,
                                pos as int,
                                end as int,
                                rep_results(field, es),
                            )
                            &&& !starts_with(
                                buf@,
                                pos + rep_results(field, es).len(),
                                end as int,
                                vint(8 * field + 2),
                            )
                        }) implies out.deep_view() == es && p == pos + rep_results(
                            field,
                            es,
                        ).len() by {
                            let n = out.deep_view().len() as int;
                            if n < es.len() {
                                let ghost w: u64 = (8 * field + 2) as u64;
                                assert(w as int == 8 * field + 2);
                                assert(starts_with(buf@, p as int, end as int, vint(w as int)));
                                assert(k.0 == w);
                                assert(false);
                            }
                            assert(es.take(n) =~= es);
                        }
                    }
                    return Ok((out, p));
                }
                // the element key stands here, so an element must follow
                let elem = match dec_result_elem(buf, p, end, field) {
                    Ok(o) => o,
                    Err(e) => {
                        proof {
                            assert forall|es: Seq<SearchResultV>| !({
                                &&& starts_with(
                                    buf@,
                                    pos as int,
                                    end as int,
                                    #[trigger] rep_results(field, es),
                                )
                                &&& !starts_with(
                                    buf@,
                                    pos + rep_results(field, es).len(),
                                    end as int,
                                    vint(8 * field + 2),
                                )
                            }) by {
                                if starts_with(buf@, pos as int, end as int, rep_results(field, es))
                                    && !starts_with(
                                    buf@,
                                    pos + rep_results(field, es).len(),
                                    end as int,
                                    vint(8 * field + 2),
                                ) {
                                    let n = out.deep_view().len() as int;
                                    if n >= es.len() {
                                        assert(es.take(n) =~= es);
                                        assert(p == pos + rep_results(field, es).len());
                                        assert(starts_with(
                                            buf@,
                                            p as int,
                                            end as int,
                                            vint(k.0 as int),
                                        ));
                                        assert(k.0 as int == 8 * field + 2);
                                        assert(false);
                                    }
                                }
                            }
                        }
                        return Err(e);
                    },
                };
                let ghost old_out = out.deep_view();
                out.push(elem.0);
                proof {
                    assert(out.deep_view() =~= old_out.push(elem.0@));
                    lemma_rep_results_push(field, old_out, elem.0@);
                    crate::varint::lemma_join(
                        buf@,
                        pos as int,
                        elem.1 as int,
                        rep_results(field, old_out),
                        f_len(field, enc_search_result_msg(elem.0@)),
                    );
                    assert forall|es: Seq<SearchResultV>|
                        #[trigger] starts_with(buf@, pos as int, end as int, rep_results(field, es))
                        implies ({
                            ||| {
                                &&& out.deep_view().len() <= es.len()
                                &&& out.deep_view() == es.take(out.deep_view().len() as int)
                                &&& elem.1 == pos + rep_results(
                                    field,
                                    es.take(out.deep_view().len() as int),
                                ).len()
                                &&& starts_with(
                                    buf@,
                                    elem.1 as int,
                                    end as int,
                                    rep_results(field, es.skip(out.deep_view().len() as int)),
                                )
                            }
                            ||| starts_with(
                                buf@,
                                pos + rep_results(field, es).len(),
                                end as int,
                                vint(8 * field + 2),
                            )
                        }) by {
                        let n = old_out.len() as int;
                        if starts_with(
                            buf@,
                            pos + rep_results(field, es).len(),
                            end as int,
                            vint(8 * field + 2),
                        ) {
                            // already past this candidate; nothing to maintain
                        } else if n >= es.len() {
                            // the candidate ended exactly here, yet the element
                            // key parses here: it joins the passed candidates
                            assert(es.take(n) =~= es);
                            assert(p == pos + rep_results(field, es).len());
                            assert(starts_with(buf@, p as int, end as int, vint(k.0 as int)));
                            assert(k.0 as int == 8 * field + 2);
                        } else {
                            let rem = es.skip(n);
                            assert(rem[0] == es[n]);
                            assert(elem.0@ == es[n] && elem.1 == p + f_len(
                                field,
                                enc_search_result_msg(es[n]),
                            ).len());
                            lemma_rep_results_push(field, es.take(n), es[n]);
                            assert(es.take(n).push(es[n]) =~= es.take(n + 1));
                            assert(out.deep_view() =~= es.take(n + 1));
                            assert(rep_results(field, rem) == f_len(field, enc_search_result_msg(rem[0]))
                                + rep_results(field, rem.drop_first()));
                            lemma_split(
                                buf@,
                                p as int,
                                p + rep_results(field, rem).len(),
                                f_len(field, enc_search_result_msg(rem[0])),
                                rep_results(field, rem.drop_first()),
                            );
                            assert(rem.drop_first() =~= es.skip(n + 1));
                        }
                    }
                }
                p = elem.1;
            },
        }
    }
}


/// A repeated field of embedded messages: one length-prefixed field per
/// element, in order. No elements leave no bytes at all.
pub open spec fn rep_nodes(field: u64, es: Seq<NodeInfoV>) -> Seq<u8>
    decreases es.len(),
{
    if es.len() == 0 {
        Seq::<u8>::empty()
    } else {
        f_len(field, enc_node_info_msg(es[0])) + rep_nodes(field, es.drop_first())
    }
}

proof fn lemma_rep_nodes_push(field: u64, es: Seq<NodeInfoV>, e: NodeInfoV)
    ensures
        rep_nodes(field, es.push(e)) == rep_nodes(field, es) + f_len(field, enc_node_info_msg(e)),
    decreases es.len(),
{
    if es.len() == 0 {
        assert(es.push(e).drop_first() =~= Seq::<NodeInfoV>::empty());
        assert(rep_nodes(field, Seq::<NodeInfoV>::empty()) == Seq::<u8>::empty());
        assert(es.push(e)[0] == e);
        assert(rep_nodes(field, es.push(e)) =~= rep_nodes(field, es) + f_len(field, enc_node_info_msg(e)));
    } else {
        lemma_rep_nodes_push(field, es.drop_first(), e);
        assert(es.push(e).drop_first() =~= es.drop_first().push(e));
        assert(rep_nodes(field, es.push(e)) =~= rep_nodes(field, es) + f_len(field, enc_node_info_msg(e)));
    }
}

pub(crate) fn w_rep_nodes(out: &mut Vec<u8>, field: u64, v: &Vec<NodeInfo>)
    requires
        1 <= field <= 100,
    ensures
        final(out)@ == old(out)@ + rep_nodes(field, v.deep_view()),
{
    let ghost start = out@;
    let mut i: usize = 0;
    while i < v.len()
        invariant
            1 <= field <= 100,
            i <= v@.len(),
            out@ == start + rep_nodes(field, v.deep_view().take(i as int)),
        decreases v@.len() - i,
    {
        let mut tmp: Vec<u8> = Vec::new();
        write_node_info_msg(&v[i], &mut tmp);
        w_bytes_field(out, field, tmp.as_slice());
        proof {
            assert(v.deep_view()[i as int] == v@[i as int]@);
            lemma_rep_nodes_push(field, v.deep_view().take(i as int), v.deep_view()[i as int]);
            assert(v.deep_view().take(i as int).push(v.deep_view()[i as int])
                =~= v.deep_view().take(i as int + 1));
            assert(out@ =~= start + rep_nodes(field, v.deep_view().take(i as int + 1)));
        }
        i = i + 1;
    }
    proof {
        assert(v.deep_view().take(v@.len() as int) =~= v.deep_view());
    }
}

pub(crate) fn dec_node_elem(buf: &[u8], pos: usize, end: usize, field: u64) -> (r: Result<
    (NodeInfo, usize),
    Error,
>)
    requires
        pos <= end <= buf@.len(),
        1 <= field <= 100,
    ensures
        r matches Ok(o) ==> pos < o.1 <= end && o.1 == pos + f_len(
            field,
            enc_node_info_msg(o.0@),
        ).len() && starts_with(buf@, pos as int, end as int, f_len(field, enc_node_info_msg(o.0@))),
        forall|ev: NodeInfoV|
            #[trigger] starts_with(buf@, pos as int, end as int, f_len(field, enc_node_info_msg(ev)))
            ==> (match r {
                Ok(o) => o.0@ == ev && o.1 == pos + f_len(field, enc_node_info_msg(ev)).len(),
                Err(_) => false,
            }),
{
    proof {
        assert forall|ev: NodeInfoV|
            starts_with(buf@, pos as int, end as int, f_len(field, enc_node_info_msg(ev)))
            implies {
            &&& starts_with(buf@, pos as int, end as int, vint(8 * field + 2))
            &&& starts_with(
                buf@,
                pos + vint(8 * field + 2).len(),
                end as int,
                vint(enc_node_info_msg(ev).len() as int),
            )
            &&& buf@.subrange(
                pos + vint(8 * field + 2).len() + vint(enc_node_info_msg(ev).len() as int).len(),
                pos + f_len(field, enc_node_info_msg(ev)).len(),
            ) == enc_node_info_msg(ev)
        } by {
            assert(f_len(field, enc_node_info_msg(ev)) =~= vint(8 * field + 2) + (vint(
                enc_node_info_msg(ev).len() as int,
            ) + enc_node_info_msg(ev)));
            lemma_split(
                buf@,
                pos as int,
                pos + f_len(field, enc_node_info_msg(ev)).len(),
                vint(8 * field + 2),
                vint(enc_node_info_msg(ev).len() as int) + enc_node_info_msg(ev),
            );
            lemma_split(
                buf@,
                pos + vint(8 * field + 2).len(),
                pos + f_len(field, enc_node_info_msg(ev)).len(),
                vint(enc_node_info_msg(ev).len() as int),
                enc_node_info_msg(ev),
            );
        }
    }
    let k = match read_vint(buf, pos, end) {
        Ok(o) => o,
        Err(e) => {
            return Err(e);
        },
    };
    if k.0 != 8 * field + 2 {
        return Err(Error::Decode("unexpected field key".to_owned()));
    }
    let l = match read_vint(buf, k.1, end) {
        Ok(o) => o,
        Err(e) => {
            return Err(e);
        },
    };
    if l.0 > (end - l.1) as u64 {
        return Err(Error::Decode("length prefix exceeds the input".to_owned()));
    }
    let sub_end = l.1 + (l.0 as usize);
    let m = match dec_node_info_msg(buf, l.1, sub_end) {
        Ok(m) => m,
        Err(e) => {
            proof {
                assert forall|ev: NodeInfoV|
                    !starts_with(buf@, pos as int, end as int, f_len(field, enc_node_info_msg(ev))) by {
                    if starts_with(buf@, pos as int, end as int, f_len(field, enc_node_info_msg(ev))) {
                        assert(enc_node_info_msg(ev).len() <= end <= usize::MAX);
                        assert(l.0 as usize == enc_node_info_msg(ev).len());
                        assert(buf@.subrange(l.1 as int, sub_end as int) == enc_node_info_msg(ev));
                    }
                }
            }
            return Err(e);
        },
    };
    proof {
        assert forall|ev: NodeInfoV|
            starts_with(buf@, pos as int, end as int, f_len(field, enc_node_info_msg(ev)))
            implies m@ == ev && sub_end == pos + f_len(field, enc_node_info_msg(ev)).len() by {
            assert(enc_node_info_msg(ev).len() <= end <= usize::MAX);
            assert(l.0 as usize == enc_node_info_msg(ev).len());
            assert(buf@.subrange(l.1 as int, sub_end as int) == enc_node_info_msg(ev));
        }
        // the bytes consumed are exactly this element's field encoding
        assert(buf@.subrange(l.1 as int, sub_end as int) == enc_node_info_msg(m@));
        assert(l.0 as int == enc_node_info_msg(m@).len());
        assert(k.0 as int == 8 * field + 2);
        crate::varint::lemma_join(
            buf@,
            k.1 as int,
            sub_end as int,
            vint(enc_node_info_msg(m@).len() as int),
            enc_node_info_msg(m@),
        );
        crate::varint::lemma_join(
            buf@,
            pos as int,
            sub_end as int,
            vint(8 * field + 2),
            vint(enc_node_info_msg(m@).len() as int) + enc_node_info_msg(m@),
        );
        assert(f_len(field, enc_node_info_msg(m@)) =~= vint(8 * field + 2) + (vint(
            enc_node_info_msg(m@).len() as int,
        ) + enc_node_info_msg(m@)));
    }
    Ok((m, sub_end))
}

#[verifier::rlimit(100)]
#[verifier::spinoff_prover]
pub(crate) fn dec_rep_nodes(buf: &[u8], pos: usize, end: usize, field: u64) -> (r: Result<
    (Vec<NodeInfo>, usize),
    Error,
>)
    requires
        pos <= end <= buf@.len(),
        1 <= field <= 100,
    ensures
        r matches Ok(o) ==> pos <= o.1 <= end && o.1 == pos + rep_nodes(
            field,
            o.0.deep_view(),
        ).len() && buf@.subrange(pos as int, o.1 as int) == rep_nodes(field, o.0.deep_view()),
        forall|es: Seq<NodeInfoV>| ({
            &&& #[trigger] starts_with(buf@, pos as int, end as int, rep_nodes(field, es))
            &&& !starts_with(
                buf@,
                pos + rep_nodes(field, es).len(),
                end as int,
                vint(8 * field + 2),
            )
        }) ==> (match r {
            Ok(o) => o.0.deep_view() == es && o.1 == pos + rep_nodes(field, es).len(),
            Err(_) => false,
        }),
{
    let mut out: Vec<NodeInfo> = Vec::new();
    let mut p: usize = pos;
    proof {
        assert(out.deep_view() =~= Seq::<NodeInfoV>::empty());
        assert(buf@.subrange(pos as int, pos as int) =~= rep_nodes(field, out.deep_view()));
        assert forall|es: Seq<NodeInfoV>|
            #[trigger] starts_with(buf@, pos as int, end as int, rep_nodes(field, es))
            implies Seq::<NodeInfoV>::empty() == es.take(0) && starts_with(
                buf@,
                pos as int,
                end as int,
                rep_nodes(field, es.skip(0)),
            ) && rep_nodes(field, es.take(0)).len() == 0 by {
            assert(es.take(0) =~= Seq::<NodeInfoV>::empty());
            assert(es.skip(0) =~= es);
        }
    }
    loop
        invariant
            pos <= p <= end <= buf@.len(),
            1 <= field <= 100,
            buf@.subrange(pos as int, p as int) == rep_nodes(field, out.deep_view()),
            forall|es: Seq<NodeInfoV>|
                #[trigger] starts_with(buf@, pos as int, end as int, rep_nodes(field, es)) ==> ({
                    ||| {
                        &&& out.deep_view().len() <= es.len()
                        &&& out.deep_view() == es.take(out.deep_view().len() as int)
                        &&& p == pos + rep_nodes(
                            field,
                            es.take(out.deep_view().len() as int),
                        ).len()
                        &&& starts_with(
                            buf@,
                            p as int,
                            end as int,
                            rep_nodes(field, es.skip(out.deep_view().len() as int)),
                        )
                    }
                    ||| starts_with(
                        buf@,
                        pos + rep_nodes(field, es).len(),
                        end as int,
                        vint(8 * field + 2),
                    )
                }),
        decreases end - p,
    {
        proof {
            assert forall|es: Seq<NodeInfoV>|
                #[trigger] starts_with(buf@, pos as int, end as int, rep_nodes(field, es))
                    && out.deep_view().len() < es.len()
                    && out.deep_view() == es.take(out.deep_view().len() as int)
                    && p == pos + rep_nodes(field, es.take(out.deep_view().len() as int)).len()
                    && starts_with(
                    buf@,
                    p as int,
                    end as int,
                    rep_nodes(field, es.skip(out.deep_view().len() as int)),
                )
                implies starts_with(
                    buf@,
                    p as int,
                    end as int,
                    f_len(field, enc_node_info_msg(es[out.deep_view().len() as int])),
                ) && starts_with(buf@, p as int, end as int, vint(8 * field + 2)) by {
                let n = out.deep_view().len() as int;
                let rem = es.skip(n);
                assert(rem.len() > 0);
                assert(rem[0] == es[n]);
                assert(rep_nodes(field, rem)
                    == f_len(field, enc_node_info_msg(rem[0])) + rep_nodes(field, rem.drop_first()));
                lemma_split(
                    buf@,
                    p as int,
                    p + rep_nodes(field, rem).len(),
                    f_len(field, enc_node_info_msg(rem[0])),
                    rep_nodes(field, rem.drop_first()),
                );
                assert(f_len(field, enc_node_info_msg(rem[0])) =~= vint(8 * field + 2) + (vint(
                    enc_node_info_msg(rem[0]).len() as int,
                ) + enc_node_info_msg(rem[0])));
                lemma_split(
                    buf@,
                    p as int,
                    p + f_len(field, enc_node_info_msg(rem[0])).len(),
                    vint(8 * field + 2),
                    vint(enc_node_info_msg(rem[0]).len() as int) + enc_node_info_msg(rem[0]),
                );
            }
        }
        if p >= end {
            proof {
                lemma_vint_min_len(8 * field + 2);
                assert forall|es: Seq<NodeInfoV>| ({
                    &&& #[trigger] starts_with(buf@, pos as int, end as int, rep_nodes(field, es))
                    &&& !starts_with(
                        buf@,
                        pos + rep_nodes(field, es).len(),
                        end as int,
                        vint(8 * field + 2),
                    )
                }) implies out.deep_view() == es && p == pos + rep_nodes(field, es).len() by {
                    let n = out.deep_view().len() as int;
                    if n < es.len() {
                        assert(false);
                    }
                    assert(es.take(n) =~= es);
                }
            }
            return Ok((out, p));
        }
        let peek = read_vint(buf, p, end);
        match peek {
            Err(_) => {
                proof {
                    assert forall|es: Seq<NodeInfoV>| ({
                        &&& #[trigger] starts_with(
                            buf@,
                            pos as int,
                            end as int,
                            rep_nodes(field, es),
                        )
                        &&& !starts_with(
                            buf@,
                            pos + rep_nodes(field, es).len(),
                            end as int,
                            vint(8 * field + 2),
                        )
                    }) implies out.deep_view() == es && p == pos + rep_nodes(field, es).len() by {
                        let n = out.deep_view().len() as int;
                        if n < es.len() {
                            let ghost w: u64 = (8 * field + 2) as u64;
                            assert(w as int == 8 * field + 2);
                            assert(starts_with(buf@, p as int, end as int, vint(w as int)));
                            assert(false);
                        }
                        assert(es.take(n) =~= es);
                    }
                }
                return Ok((out, p));
            },
            Ok(k) => {
                if k.0 != 8 * field + 2 {
                    proof {
                        assert forall|es: Seq<NodeInfoV>| ({
                            &&& #[trigger] starts_with(
                                buf@,
                                pos as int,
                                end as int,
                                rep_nodes(field, es),
                            )
                            &&& !starts_with(
                                buf@,
                                pos + rep_nodes(field, es).len(),
                                end as int,
                                vint(8 * field + 2),
                            )
                        }) implies out.deep_view() == es && p == pos + rep_nodes(
                            field,
                            es,
                        ).len() by {
                            let n = out.deep_view().len() as int;
                            if n < es.len() {
                                let ghost w: u64 = (8 * field + 2) as u64;
                                assert(w as int == 8 * field + 2);
                                assert(starts_with(buf@, p as int, end as int, vint(w as int)));
                                assert(k.0 == w);
                                assert(false);
                            }
                            assert(es.take(n) =~= es);
                        }
                    }
                    return Ok((out, p));
                }
                // the element key stands here, so an element must follow
                let elem = match dec_node_elem(buf, p, end, field) {
                    Ok(o) => o,
                    Err(e) => {
                        proof {
                            assert forall|es: Seq<NodeInfoV>| !({
                                &&& starts_with(
                                    buf@,
                                    pos as int,
                                    end as int,
                                    #[trigger] rep_nodes(field, es),
                                )
                                &&& !starts_with(
                                    buf@,
                                    pos + rep_nodes(field, es).len(),
                                    end as int,
                                    vint(8 * field + 2),
                                )
                            }) by {
                                if starts_with(buf@, pos as int, end as int, rep_nodes(field, es))
                                    && !starts_with(
                                    buf@,
                                    pos + rep_nodes(field, es).len(),
                                    end as int,
                                    vint(8 * field + 2),
                                ) {
                                    let n = out.deep_view().len() as int;
                                    if n >= es.len() {
                                        assert(es.take(n) =~= es);
                                        assert(p == pos + rep_nodes(field, es).len());
                                        assert(starts_with(
                                            buf@,
                                            p as int,
                                            end as int,
                                            vint(k.0 as int),
                                        ));
                                        assert(k.0 as int == 8 * field + 2);
                                        assert(false);
                                    }
                                }
                            }
                        }
                        return Err(e);
                    },
                };
                let ghost old_out = out.deep_view();
                out.push(elem.0);
                proof {
                    assert(out.deep_view() =~= old_out.push(elem.0@));
                    lemma_rep_nodes_push(field, old_out, elem.0@);
                    crate::varint::lemma_join(
                        buf@,
                        pos as int,
                        elem.1 as int,
                        rep_nodes(field, old_out),
                        f_len(field, enc_node_info_msg(elem.0@)),
                    );
                    assert forall|es: Seq<NodeInfoV>|
                        #[trigger] starts_with(buf@, pos as int, end as int, rep_nodes(field, es))
                        implies ({
                            ||| {
                                &&& out.deep_view().len() <= es.len()
                                &&& out.deep_view() == es.take(out.deep_view().len() as int)
                                &&& elem.1 == pos + rep_nodes(
                                    field,
                                    es.take(out.deep_view().len() as int),
                                ).len()
                                &&& starts_with(
                                    buf@,
                                    elem.1 as int,
                                    end as int,
                                    rep_nodes(field, es.skip(out.deep_view().len() as int)),
                                )
                            }
                            ||| starts_with(
                                buf@,
                                pos + rep_nodes(field, es).len(),
                                end as int,
                                vint(8 * field + 2),
                            )
                        }) by {
                        let n = old_out.len() as int;
                        if starts_with(
                            buf@,
                            pos + rep_nodes(field, es).len(),
                            end as int,
                            vint(8 * field + 2),
                        ) {
                            // already past this candidate; nothing to maintain
                        } else if n >= es.len() {
                            // the candidate ended exactly here, yet the element
                            // key parses here: it joins the passed candidates
                            assert(es.take(n) =~= es);
                            assert(p == pos + rep_nodes(field, es).len());
                            assert(starts_with(buf@, p as int, end as int, vint(k.0 as int)));
                            assert(k.0 as int == 8 * field + 2);
                        } else {
                            let rem = es.skip(n);
                            assert(rem[0] == es[n]);
                            assert(elem.0@ == es[n] && elem.1 == p + f_len(
                                field,
                                enc_node_info_msg(es[n]),
                            ).len());
                            lemma_rep_nodes_push(field, es.take(n), es[n]);
                            assert(es.take(n).push(es[n]) =~= es.take(n + 1));
                            assert(out.deep_view() =~= es.take(n + 1));
                            assert(rep_nodes(field, rem) == f_len(field, enc_node_info_msg(rem[0]))
                                + rep_nodes(field, rem.drop_first()));
                            lemma_split(
                                buf@,
                                p as int,
                                p + rep_nodes(field, rem).len(),
                                f_len(field, enc_node_info_msg(rem[0])),
                                rep_nodes(field, rem.drop_first()),
                            );
                            assert(rem.drop_first() =~= es.skip(n + 1));
                        }
                    }
                }
                p = elem.1;
            },
        }
    }
}


/// A repeated field of embedded messages: one length-prefixed field per
/// element, in order. No elements leave no bytes at all.
pub open spec fn rep_seeders(field: u64, es: Seq<ProtoSeederV>) -> Seq<u8>
    decreases es.len(),
{
    if es.len() == 0 {
        Seq::<u8>::empty()
    } else {
        f_len(field, enc_proto_seeder_msg(es[0])) + rep_seeders(field, es.drop_first())
    }
}

proof fn lemma_rep_seeders_push(field: u64, es: Seq<ProtoSeederV>, e: ProtoSeederV)
    ensures
        rep_seeders(field, es.push(e)) == rep_seeders(field, es) + f_len(field, enc_proto_seeder_msg(e)),
    decreases es.len(),
{
    if es.len() == 0 {
        assert(es.push(e).drop_first() =~= Seq::<ProtoSeederV>::empty());
        assert(rep_seeders(field, Seq::<ProtoSeederV>::empty()) == Seq::<u8>::empty());
        assert(es.push(e)[0] == e);
        assert(rep_seeders(field, es.push(e)) =~= rep_seeders(field, es) + f_len(field, enc_proto_seeder_msg(e)));
    } else {
        lemma_rep_seeders_push(field, es.drop_first(), e);
        assert(es.push(e).drop_first() =~= es.drop_first().push(e));
        assert(rep_seeders(field, es.push(e)) =~= rep_seeders(field, es) + f_len(field, enc_proto_seeder_msg(e)));
    }
}

pub(crate) fn w_rep_seeders(out: &mut Vec<u8>, field: u64, v: &Vec<ProtoSeeder>)
    requires
        1 <= field <= 100,
    ensures
        final(out)@ == old(out)@ + rep_seeders(field, v.deep_view()),
{
    let ghost start = out@;
    let mut i: usize = 0;
    while i < v.len()
        invariant
            1 <= field <= 100,
            i <= v@.len(),
            out@ == start + rep_seeders(field, v.deep_view().take(i as int)),
        decreases v@.len() - i,
    {
        let mut tmp: Vec<u8> = Vec::new();
        write_proto_seeder_msg(&v[i], &mut tmp);
        w_bytes_field(out, field, tmp.as_slice());
        proof {
            assert(v.deep_view()[i as int] == v@[i as int]@);
            lemma_rep_seeders_push(field, v.deep_view().take(i as int), v.deep_view()[i as int]);
            assert(v.deep_view().take(i as int).push(v.deep_view()[i as int])
                =~= v.deep_view().take(i as int + 1));
            assert(out@ =~= start + rep_seeders(field, v.deep_view().take(i as int + 1)));
        }
        i = i + 1;
    }
    proof {
        assert(v.deep_view().take(v@.len() as int) =~= v.deep_view());
    }
}

pub(crate) fn dec_seeder_elem(buf: &[u8], pos: usize, end: usize, field: u64) -> (r: Result<
    (ProtoSeeder, usize),
    Error,
>)
    requires
        pos <= end <= buf@.len(),
        1 <= field <= 100,
    ensures
        r matches Ok(o) ==> pos < o.1 <= end && o.1 == pos + f_len(
            field,
            enc_proto_seeder_msg(o.0@),
        ).len() && starts_with(buf@, pos as int, end as int, f_len(field, enc_proto_seeder_msg(o.0@))),
        forall|ev: ProtoSeederV|
            #[trigger] starts_with(buf@, pos as int, end as int, f_len(field, enc_proto_seeder_msg(ev)))
            ==> (match r {
                Ok(o) => o.0@ == ev && o.1 == pos + f_len(field, enc_proto_seeder_msg(ev)).len(),
                Err(_) => false,
            }),
{
    proof {
        assert forall|ev: ProtoSeederV|
            starts_with(buf@, pos as int, end as int, f_len(field, enc_proto_seeder_msg(ev)))
            implies {
            &&& starts_with(buf@, pos as int, end as int, vint(8 * field + 2))
            &&& starts_with(
                buf@,
                pos + vint(8 * field + 2).len(),
                end as int,
                vint(enc_proto_seeder_msg(ev).len() as int),
            )
            &&& buf@.subrange(
                pos + vint(8 * field + 2).len() + vint(enc_proto_seeder_msg(ev).len() as int).len(),
                pos + f_len(field, enc_proto_seeder_msg(ev)).len(),
            ) == enc_proto_seeder_msg(ev)
        } by {
            assert(f_len(field, enc_proto_seeder_msg(ev)) =~= vint(8 * field + 2) + (vint(
                enc_proto_seeder_msg(ev).len() as int,
            ) + enc_proto_seeder_msg(ev)));
            lemma_split(
                buf@,
                pos as int,
                pos + f_len(field, enc_proto_seeder_msg(ev)).len(),
                vint(8 * field + 2),
                vint(enc_proto_seeder_msg(ev).len() as int) + enc_proto_seeder_msg(ev),
            );
            lemma_split(
                buf@,
                pos + vint(8 * field + 2).len(),
                pos + f_len(field, enc_proto_seeder_msg(ev)).len(),
                vint(enc_proto_seeder_msg(ev).len() as int),
                enc_proto_seeder_msg(ev),
            );
        }
    }
    let k = match read_vint(buf, pos, end) {
        Ok(o) => o,
        Err(e) => {
            return Err(e);
        },
    };
    if k.0 != 8 * field + 2 {
        return Err(Error::Decode("unexpected field key".to_owned()));
    }
    let l = match read_vint(buf, k.1, end) {
        Ok(o) => o,
        Err(e) => {
            return Err(e);
        },
    };
    if l.0 > (end - l.1) as u64 {
        return Err(Error::Decode("length prefix exceeds the input".to_owned()));
    }
    let sub_end = l.1 + (l.0 as usize);
    let m = match dec_proto_seeder_msg(buf, l.1, sub_end) {
        Ok(m) => m,
        Err(e) => {
            proof {
                assert forall|ev: ProtoSeederV|
                    !starts_with(buf@, pos as int, end as int, f_len(field, enc_proto_seeder_msg(ev))) by {
                    if starts_with(buf@, pos as int, end as int, f_len(field, enc_proto_seeder_msg(ev))) {
                        assert(enc_proto_seeder_msg(ev).len() <= end <= usize::MAX);
                        assert(l.0 as usize == enc_proto_seeder_msg(ev).len());
                        assert(buf@.subrange(l.1 as int, sub_end as int) == enc_proto_seeder_msg(ev));
                    }
                }
            }
            return Err(e);
        },
    };
    proof {
        assert forall|ev: ProtoSeederV|
            starts_with(buf@, pos as int, end as int, f_len(field, enc_proto_seeder_msg(ev)))
            implies m@ == ev && sub_end == pos + f_len(field, enc_proto_seeder_msg(ev)).len() by {
            assert(enc_proto_seeder_msg(ev).len() <= end <= usize::MAX);
            assert(l.0 as usize == enc_proto_seeder_msg(ev).len());
            assert(buf@.subrange(l.1 as int, sub_end as int) == enc_proto_seeder_msg(ev));
        }
        // the bytes consumed are exactly this element's field encoding
        assert(buf@.subrange(l.1 as int, sub_end as int) == enc_proto_seeder_msg(m@));
        assert(l.0 as int == enc_proto_seeder_msg(m@).len());
        assert(k.0 as int == 8 * field + 2);
        crate::varint::lemma_join(
            buf@,
            k.1 as int,
            sub_end as int,
            vint(enc_proto_seeder_msg(m@).len() as int),
            enc_proto_seeder_msg(m@),
        );
        crate::varint::lemma_join(
            buf@,
            pos as int,
            sub_end as int,
            vint(8 * field + 2),
            vint(enc_proto_seeder_msg(m@).len() as int) + enc_proto_seeder_msg(m@),
        );
        assert(f_len(field, enc_proto_seeder_msg(m@)) =~= vint(8 * field + 2) + (vint(
            enc_proto_seeder_msg(m@).len() as int,
        ) + enc_proto_seeder_msg(m@)));
    }
    Ok((m, sub_end))
}

#[verifier::rlimit(100)]
#[verifier::spinoff_prover]
pub(crate) fn dec_rep_seeders(buf: &[u8], pos: usize, end: usize, field: u64) -> (r: Result<
    (Vec<ProtoSeeder>, usize),
    Error,
>)
    requires
        pos <= end <= buf@.len(),
        1 <= field <= 100,
    ensures
        r matches Ok(o) ==> pos <= o.1 <= end && o.1 == pos + rep_seeders(
            field,
            o.0.deep_view(),
        ).len() && buf@.subrange(pos as int, o.1 as int) == rep_seeders(field, o.0.deep_view()),
        forall|es: Seq<ProtoSeederV>| ({
            &&& #[trigger] starts_with(buf@, pos as int, end as int, rep_seeders(field, es))
            &&& !starts_with(
                buf@,
                pos + rep_seeders(field, es).len(),
                end as int,
                vint(8 * field + 2),
            )
        }) ==> (match r {
            Ok(o) => o.0.deep_view() == es && o.1 == pos + rep_seeders(field, es).len(),
            Err(_) => false,
        }),
{
    let mut out: Vec<ProtoSeeder> = Vec::new();
    let mut p: usize = pos;
    proof {
        assert(out.deep_view() =~= Seq::<ProtoSeederV>::empty());
        assert(buf@.subrange(pos as int, pos as int) =~= rep_seeders(field, out.deep_view()));
        assert forall|es: Seq<ProtoSeederV>|
            #[trigger] starts_with(buf@, pos as int, end as int, rep_seeders(field, es))
            implies Seq::<ProtoSeederV>::empty() == es.take(0) && starts_with(
                buf@,
                pos as int,
                end as int,
                rep_seeders(field, es.skip(0)),
            ) && rep_seeders(field, es.take(0)).len() == 0 by {
            assert(es.take(0) =~= Seq::<ProtoSeederV>::empty());
            assert(es.skip(0) =~= es);
        }
    }
    loop
        invariant
            pos <= p <= end <= buf@.len(),
            1 <= field <= 100,
            buf@.subrange(pos as int, p as int) == rep_seeders(field, out.deep_view()),
            forall|es: Seq<ProtoSeederV>|
                #[trigger] starts_with(buf@, pos as int, end as int, rep_seeders(field, es)) ==> ({
                    ||| {
                        &&& out.deep_view().len() <= es.len()
                        &&& out.deep_view() == es.take(out.deep_view().len() as int)
                        &&& p == pos + rep_seeders(
                            field,
                            es.take(out.deep_view().len() as int),
                        ).len()
                        &&& starts_with(
                            buf@,
                            p as int,
                            end as int,
                            rep_seeders(field, es.skip(out.deep_view().len() as int)),
                        )
                    }
                    ||| starts_with(
                        buf@,
                        pos + rep_seeders(field, es).len(),
                        end as int,
                        vint(8 * field + 2),
                    )
                }),
        decreases end - p,
    {
        proof {
            assert forall|es: Seq<ProtoSeederV>|
                #[trigger] starts_with(buf@, pos as int, end as int, rep_seeders(field, es))
                    && out.deep_view().len() < es.len()
                    && out.deep_view() == es.take(out.deep_view().len() as int)
                    && p == pos + rep_seeders(field, es.take(out.deep_view().len() as int)).len()
                    && starts_with(
                    buf@,
                    p as int,
                    end as int,
                    rep_seeders(field, es.skip(out.deep_view().len() as int)),
                )
                implies starts_with(
                    buf@,
                    p as int,
                    end as int,
                    f_len(field, enc_proto_seeder_msg(es[out.deep_view().len() as int])),
                ) && starts_with(buf@, p as int, end as int, vint(8 * field + 2)) by {
                let n = out.deep_view().len() as int;
                let rem = es.skip(n);
                assert(rem.len() > 0);
                assert(rem[0] == es[n]);
                assert(rep_seeders(field, rem)
                    == f_len(field, enc_proto_seeder_msg(rem[0])) + rep_seeders(field, rem.drop_first()));
                lemma_split(
                    buf@,
                    p as int,
                    p + rep_seeders(field, rem).len(),
                    f_len(field, enc_proto_seeder_msg(rem[0])),
                    rep_seeders(field, rem.drop_first()),
                );
                assert(f_len(field, enc_proto_seeder_msg(rem[0])) =~= vint(8 * field + 2) + (vint(
                    enc_proto_seeder_msg(rem[0]).len() as int,
                ) + enc_proto_seeder_msg(rem[0])));
                lemma_split(
                    buf@,
                    p as int,
                    p + f_len(field, enc_proto_seeder_msg(rem[0])).len(),
                    vint(8 * field + 2),
                    vint(enc_proto_seeder_msg(rem[0]).len() as int) + enc_proto_seeder_msg(rem[0]),
                );
            }
        }
        if p >= end {
            proof {
                lemma_vint_min_len(8 * field + 2);
                assert forall|es: Seq<ProtoSeederV>| ({
                    &&& #[trigger] starts_with(buf@, pos as int, end as int, rep_seeders(field, es))
                    &&& !starts_with(
                        buf@,
                        pos + rep_seeders(field, es).len(),
                        end as int,
                        vint(8 * field + 2),
                    )
                }) implies out.deep_view() == es && p == pos + rep_seeders(field, es).len() by {
                    let n = out.deep_view().len() as int;
                    if n < es.len() {
                        assert(false);
                    }
                    assert(es.take(n) =~= es);
                }
            }
            return Ok((out, p));
        }
        let peek = read_vint(buf, p, end);
        match peek {
            Err(_) => {
                proof {
                    assert forall|es: Seq<ProtoSeederV>| ({
                        &&& #[trigger] starts_with(
                            buf@,
                            pos as int,
                            end as int,
                            rep_seeders(field, es),
                        )
                        &&& !starts_with(
                            buf@,
                            pos + rep_seeders(field, es).len(),
                            end as int,
                            vint(8 * field + 2),
                        )
                    }) implies out.deep_view() == es && p == pos + rep_seeders(field, es).len() by {
                        let n = out.deep_view().len() as int;
                        if n < es.len() {
                            let ghost w: u64 = (8 * field + 2) as u64;
                            assert(w as int == 8 * field + 2);
                            assert(starts_with(buf@, p as int, end as int, vint(w as int)));
                            assert(false);
                        }
                        assert(es.take(n) =~= es);
                    }
                }
                return Ok((out, p));
            },
            Ok(k) => {
                if k.0 != 8 * field + 2 {
                    proof {
                        assert forall|es: Seq<ProtoSeederV>| ({
                            &&& #[trigger] starts_with(
                                buf@,
                                pos as int,
                                end as int,
                                rep_seeders(field, es),
                            )
                            &&& !starts_with(
                                buf@,
                                pos + rep_seeders(field, es).len(),
                                end as int,
                                vint(8 * field + 2),
                            )
                        }) implies out.deep_view() == es && p == pos + rep_seeders(
                            field,
                            es,
                        ).len() by {
                            let n = out.deep_view().len() as int;
                            if n < es.len() {
                                let ghost w: u64 = (8 * field + 2) as u64;
                                assert(w as int == 8 * field + 2);
                                assert(starts_with(buf@, p as int, end as int, vint(w as int)));
                                assert(k.0 == w);
                                assert(false);
                            }
                            assert(es.take(n) =~= es);
                        }
                    }
                    return Ok((out, p));
                }
                // the element key stands here, so an element must follow
                let elem = match dec_seeder_elem(buf, p, end, field) {
                    Ok(o) => o,
                    Err(e) => {
                        proof {
                            assert forall|es: Seq<ProtoSeederV>| !({
                                &&& starts_with(
                                    buf@,
                                    pos as int,
                                    end as int,
                                    #[trigger] rep_seeders(field, es),
                                )
                                &&& !starts_with(
                                    buf@,
                                    pos + rep_seeders(field, es).len(),
                                    end as int,
                                    vint(8 * field + 2),
                                )
                            }) by {
                                if starts_with(buf@, pos as int, end as int, rep_seeders(field, es))
                                    && !starts_with(
                                    buf@,
                                    pos + rep_seeders(field, es).len(),
                                    end as int,
                                    vint(8 * field + 2),
                                ) {
                                    let n = out.deep_view().len() as int;
                                    if n >= es.len() {
                                        assert(es.take(n) =~= es);
                                        assert(p == pos + rep_seeders(field, es).len());
                                        assert(starts_with(
                                            buf@,
                                            p as int,
                                            end as int,
                                            vint(k.0 as int),
                                        ));
                                        assert(k.0 as int == 8 * field + 2);
                                        assert(false);
                                    }
                                }
                            }
                        }
                        return Err(e);
                    },
                };
                let ghost old_out = out.deep_view();
                out.push(elem.0);
                proof {
                    assert(out.deep_view() =~= old_out.push(elem.0@));
                    lemma_rep_seeders_push(field, old_out, elem.0@);
                    crate::varint::lemma_join(
                        buf@,
                        pos as int,
                        elem.1 as int,
                        rep_seeders(field, old_out),
                        f_len(field, enc_proto_seeder_msg(elem.0@)),
                    );
                    assert forall|es: Seq<ProtoSeederV>|
                        #[trigger] starts_with(buf@, pos as int, end as int, rep_seeders(field, es))
                        implies ({
                            ||| {
                                &&& out.deep_view().len() <= es.len()
                                &&& out.deep_view() == es.take(out.deep_view().len() as int)
                                &&& elem.1 == pos + rep_seeders(
                                    field,
                                    es.take(out.deep_view().len() as int),
                                ).len()
                                &&& starts_with(
                                    buf@,
                                    elem.1 as int,
                                    end as int,
                                    rep_seeders(field, es.skip(out.deep_view().len() as int)),
                                )
                            }
                            ||| starts_with(
                                buf@,
                                pos + rep_seeders(field, es).len(),
                                end as int,
                                vint(8 * field + 2),
                            )
                        }) by {
                        let n = old_out.len() as int;
                        if starts_with(
                            buf@,
                            pos + rep_seeders(field, es).len(),
                            end as int,
                            vint(8 * field + 2),
                        ) {
                            // already past this candidate; nothing to maintain
                        } else if n >= es.len() {
                            // the candidate ended exactly here, yet the element
                            // key parses here: it joins the passed candidates
                            assert(es.take(n) =~= es);
                            assert(p == pos + rep_seeders(field, es).len());
                            assert(starts_with(buf@, p as int, end as int, vint(k.0 as int)));
                            assert(k.0 as int == 8 * field + 2);
                        } else {
                            let rem = es.skip(n);
                            assert(rem[0] == es[n]);
                            assert(elem.0@ == es[n] && elem.1 == p + f_len(
                                field,
                                enc_proto_seeder_msg(es[n]),
                            ).len());
                            lemma_rep_seeders_push(field, es.take(n), es[n]);
                            assert(es.take(n).push(es[n]) =~= es.take(n + 1));
                            assert(out.deep_view() =~= es.take(n + 1));
                            assert(rep_seeders(field, rem) == f_len(field, enc_proto_seeder_msg(rem[0]))
                                + rep_seeders(field, rem.drop_first()));
                            lemma_split(
                                buf@,
                                p as int,
                                p + rep_seeders(field, rem).len(),
                                f_len(field, enc_proto_seeder_msg(rem[0])),
                                rep_seeders(field, rem.drop_first()),
                            );
                            assert(rem.drop_first() =~= es.skip(n + 1));
                        }
                    }
                }
                p = elem.1;
            },
        }
    }
}


// ---------------------------------------------------------------------
// Container messages
// ---------------------------------------------------------------------

/// The hits an index provider returns for a query.
#[derive(Debug, Clone, PartialEq)]
pub struct SearchResponse {
    pub results: Vec<SearchResult>,
}

pub ghost struct SearchResponseV {
    pub results: Seq<SearchResultV>,
}

impl View for SearchResponse {
    type V = SearchResponseV;

    open spec fn view(&self) -> SearchResponseV {
        SearchResponseV { results: self.results.deep_view() }
    }
}

impl DeepView for SearchResponse {
    type V = SearchResponseV;

    open spec fn deep_view(&self) -> SearchResponseV {
        self.view()
    }
}

pub open spec fn enc_search_response_msg(v: SearchResponseV) -> Seq<u8> {
    rep_results(1, v.results)
}

pub(crate) fn write_search_response_msg(m: &SearchResponse, out: &mut Vec<u8>)
    ensures
        final(out)@ == old(out)@ + enc_search_response_msg(m@),
{
    w_rep_results(out, 1, &m.results);
}

proof fn lemma_search_response_msg_parts(s: Seq<u8>, pos: int, end: int, v: SearchResponseV)
    requires
        0 <= pos <= end <= s.len(),
        s.subrange(pos, end) == enc_search_response_msg(v),
    ensures
        starts_with(s, pos, end, rep_results(1, v.results)),
        end == pos + rep_results(1, v.results).len(),
        !starts_with(s, pos + rep_results(1, v.results).len(), end, vint(10)),
{
    assert(s.subrange(pos, end).len() == end - pos);
    assert(s.subrange(pos, pos + rep_results(1, v.results).len()) == s.subrange(pos, end));
    assert(!starts_with(s, end, end, vint(10))) by {
        lemma_vint_min_len(10);
    }
}

pub(crate) fn dec_search_response_msg(buf: &[u8], pos: usize, end: usize) -> (r: Result<
    SearchResponse,
    Error,
>)
    requires
        pos <= end <= buf@.len(),
    ensures
        forall|v: SearchResponseV|
            buf@.subrange(pos as int, end as int) == #[trigger] enc_search_response_msg(v)
            ==> (match r {
                Ok(m) => m@ == v,
                Err(_) => false,
            }),
        r matches Ok(m) ==> buf@.subrange(pos as int, end as int) == enc_search_response_msg(m@),
{
    proof {
        assert forall|v: SearchResponseV|
            buf@.subrange(pos as int, end as int) == enc_search_response_msg(v)
            implies starts_with(buf@, pos as int, end as int, rep_results(1, v.results))
                && !starts_with(
                buf@,
                pos + rep_results(1, v.results).len(),
                end as int,
                vint(10),
            ) by {
            lemma_search_response_msg_parts(buf@, pos as int, end as int, v);
        }
    }
    let x0 = match dec_rep_results(buf, pos, end, 1) {
        Ok(o) => o,
        Err(e) => {
            return Err(e);
        },
    };
    if x0.1 != end {
        proof {
            assert forall|v: SearchResponseV|
                buf@.subrange(pos as int, end as int) != enc_search_response_msg(v) by {
                if buf@.subrange(pos as int, end as int) == enc_search_response_msg(v) {
                    lemma_search_response_msg_parts(buf@, pos as int, end as int, v);
                }
            }
        }
        return Err(Error::Decode("unexpected data after the message".to_owned()));
    }
    proof {
        assert(buf@.subrange(pos as int, end as int) == rep_results(1, x0.0.deep_view()));
    }
    Ok(SearchResponse { results: x0.0 })
}

/// The nodes nearest a looked-up identifier (reserved).
#[derive(Debug, Clone, PartialEq)]
pub struct FindNodeResponse {
    pub nodes: Vec<NodeInfo>,
}

pub ghost struct FindNodeResponseV {
    pub nodes: Seq<NodeInfoV>,
}

impl View for FindNodeResponse {
    type V = FindNodeResponseV;

    open spec fn view(&self) -> FindNodeResponseV {
        FindNodeResponseV { nodes: self.nodes.deep_view() }
    }
}

impl DeepView for FindNodeResponse {
    type V = FindNodeResponseV;

    open spec fn deep_view(&self) -> FindNodeResponseV {
        self.view()
    }
}

pub open spec fn enc_find_node_response_msg(v: FindNodeResponseV) -> Seq<u8> {
    rep_nodes(1, v.nodes)
}

pub(crate) fn write_find_node_response_msg(m: &FindNodeResponse, out: &mut Vec<u8>)
    ensures
        final(out)@ == old(out)@ + enc_find_node_response_msg(m@),
{
    w_rep_nodes(out, 1, &m.nodes);
}

proof fn lemma_find_node_response_msg_parts(s: Seq<u8>, pos: int, end: int, v: FindNodeResponseV)
    requires
        0 <= pos <= end <= s.len(),
        s.subrange(pos, end) == enc_find_node_response_msg(v),
    ensures
        starts_with(s, pos, end, rep_nodes(1, v.nodes)),
        end == pos + rep_nodes(1, v.nodes).len(),
        !starts_with(s, pos + rep_nodes(1, v.nodes).len(), end, vint(10)),
{
    assert(s.subrange(pos, end).len() == end - pos);
    assert(s.subrange(pos, pos + rep_nodes(1, v.nodes).len()) == s.subrange(pos, end));
    assert(!starts_with(s, end, end, vint(10))) by {
        lemma_vint_min_len(10);
    }
}

pub(crate) fn dec_find_node_response_msg(buf: &[u8], pos: usize, end: usize) -> (r: Result<
    FindNodeResponse,
    Error,
>)
    requires
        pos <= end <= buf@.len(),
    ensures
        forall|v: FindNodeResponseV|
            buf@.subrange(pos as int, end as int) == #[trigger] enc_find_node_response_msg(v)
            ==> (match r {
                Ok(m) => m@ == v,
                Err(_) => false,
            }),
        r matches Ok(m) ==> buf@.subrange(pos as int, end as int) == enc_find_node_response_msg(m@),
{
    proof {
        assert forall|v: FindNodeResponseV|
            buf@.subrange(pos as int, end as int) == enc_find_node_response_msg(v)
            implies starts_with(buf@, pos as int, end as int, rep_nodes(1, v.nodes))
                && !starts_with(
                buf@,
                pos + rep_nodes(1, v.nodes).len(),
                end as int,
                vint(10),
            ) by {
            lemma_find_node_response_msg_parts(buf@, pos as int, end as int, v);
        }
    }
    let x0 = match dec_rep_nodes(buf, pos, end, 1) {
        Ok(o) => o,
        Err(e) => {
            return Err(e);
        },
    };
    if x0.1 != end {
        proof {
            assert forall|v: FindNodeResponseV|
                buf@.subrange(pos as int, end as int) != enc_find_node_response_msg(v) by {
                if buf@.subrange(pos as int, end as int) == enc_find_node_response_msg(v) {
                    lemma_find_node_response_msg_parts(buf@, pos as int, end as int, v);
                }
            }
        }
        return Err(Error::Decode("unexpected data after the message".to_owned()));
    }
    proof {
        assert(buf@.subrange(pos as int, end as int) == rep_nodes(1, x0.0.deep_view()));
    }
    Ok(FindNodeResponse { nodes: x0.0 })
}

/// The seeders of a looked-up key, with nearer nodes to try (reserved).
#[derive(Debug, Clone, PartialEq)]
pub struct FindValueResponse {
    pub seeders: Vec<ProtoSeeder>,
    pub nodes: Vec<NodeInfo>,
}

pub ghost struct FindValueResponseV {
    pub seeders: Seq<ProtoSeederV>,
    pub nodes: Seq<NodeInfoV>,
}

impl View for FindValueResponse {
    type V = FindValueResponseV;

    open spec fn view(&self) -> FindValueResponseV {
        FindValueResponseV { seeders: self.seeders.deep_view(), nodes: self.nodes.deep_view() }
    }
}

impl DeepView for FindValueResponse {
    type V = FindValueResponseV;

    open spec fn deep_view(&self) -> FindValueResponseV {
        self.view()
    }
}

pub open spec fn enc_find_value_response_msg(v: FindValueResponseV) -> Seq<u8> {
    rep_seeders(1, v.seeders) + rep_nodes(2, v.nodes)
}

pub(crate) fn write_find_value_response_msg(m: &FindValueResponse, out: &mut Vec<u8>)
    ensures
        final(out)@ == old(out)@ + enc_find_value_response_msg(m@),
{
    w_rep_seeders(out, 1, &m.seeders);
    w_rep_nodes(out, 2, &m.nodes);
    proof {
        assert(out@ =~= old(out)@ + enc_find_value_response_msg(m@));
    }
}

proof fn lemma_find_value_response_msg_parts(s: Seq<u8>, pos: int, end: int, v: FindValueResponseV)
    requires
        0 <= pos <= end <= s.len(),
        s.subrange(pos, end) == enc_find_value_response_msg(v),
    ensures
        starts_with(s, pos, end, rep_seeders(1, v.seeders)),
        starts_with(s, pos + rep_seeders(1, v.seeders).len(), end, rep_nodes(2, v.nodes)),
        end == pos + rep_seeders(1, v.seeders).len() + rep_nodes(2, v.nodes).len(),
        !starts_with(s, pos + rep_seeders(1, v.seeders).len(), end, vint(10)),
        !starts_with(
            s,
            pos + rep_seeders(1, v.seeders).len() + rep_nodes(2, v.nodes).len(),
            end,
            vint(18),
        ),
{
    lemma_split(s, pos, end, rep_seeders(1, v.seeders), rep_nodes(2, v.nodes));
    assert(s.subrange(pos + rep_seeders(1, v.seeders).len(), end).len()
        == end - (pos + rep_seeders(1, v.seeders).len()));
    let mid = pos + rep_seeders(1, v.seeders).len();
    assert(!starts_with(s, mid, end, vint(10))) by {
        if starts_with(s, mid, end, vint(10)) {
            if v.nodes.len() == 0 {
                assert(mid == end);
                lemma_vint_min_len(10);
            } else {
                let e0 = v.nodes[0];
                assert(rep_nodes(2, v.nodes) == f_len(2, enc_node_info_msg(e0)) + rep_nodes(
                    2,
                    v.nodes.drop_first(),
                ));
                lemma_split(
                    s,
                    mid,
                    mid + rep_nodes(2, v.nodes).len(),
                    f_len(2, enc_node_info_msg(e0)),
                    rep_nodes(2, v.nodes.drop_first()),
                );
                assert(f_len(2, enc_node_info_msg(e0)) =~= vint(18) + (vint(
                    enc_node_info_msg(e0).len() as int,
                ) + enc_node_info_msg(e0)));
                lemma_split(
                    s,
                    mid,
                    mid + f_len(2, enc_node_info_msg(e0)).len(),
                    vint(18),
                    vint(enc_node_info_msg(e0).len() as int) + enc_node_info_msg(e0),
                );
                crate::varint::lemma_vint_unique(s, mid, end, 10, 18);
            }
        }
    }
    assert(!starts_with(s, end, end, vint(18))) by {
        lemma_vint_min_len(18);
    }
}

pub(crate) fn dec_find_value_response_msg(buf: &[u8], pos: usize, end: usize) -> (r: Result<
    FindValueResponse,
    Error,
>)
    requires
        pos <= end <= buf@.len(),
    ensures
        forall|v: FindValueResponseV|
            buf@.subrange(pos as int, end as int) == #[trigger] enc_find_value_response_msg(v)
            ==> (match r {
                Ok(m) => m@ == v,
                Err(_) => false,
            }),
        r matches Ok(m) ==> buf@.subrange(pos as int, end as int)
            == enc_find_value_response_msg(m@),
{
    proof {
        assert forall|v: FindValueResponseV|
            buf@.subrange(pos as int, end as int) == enc_find_value_response_msg(v)
            implies starts_with(buf@, pos as int, end as int, rep_seeders(1, v.seeders))
                && !starts_with(
                buf@,
                pos + rep_seeders(1, v.seeders).len(),
                end as int,
                vint(10),
            ) by {
            lemma_find_value_response_msg_parts(buf@, pos as int, end as int, v);
        }
    }
    let x0 = match dec_rep_seeders(buf, pos, end, 1) {
        Ok(o) => o,
        Err(e) => {
            return Err(e);
        },
    };
    proof {
        assert forall|v: FindValueResponseV|
            buf@.subrange(pos as int, end as int) == enc_find_value_response_msg(v)
            implies starts_with(buf@, x0.1 as int, end as int, rep_nodes(2, v.nodes))
                && !starts_with(
                buf@,
                x0.1 + rep_nodes(2, v.nodes).len(),
                end as int,
                vint(18),
            ) by {
            lemma_find_value_response_msg_parts(buf@, pos as int, end as int, v);
        }
    }
    let x1 = match dec_rep_nodes(buf, x0.1, end, 2) {
        Ok(o) => o,
        Err(e) => {
            return Err(e);
        },
    };
    if x1.1 != end {
        proof {
            assert forall|v: FindValueResponseV|
                buf@.subrange(pos as int, end as int) != enc_find_value_response_msg(v) by {
                if buf@.subrange(pos as int, end as int) == enc_find_value_response_msg(v) {
                    lemma_find_value_response_msg_parts(buf@, pos as int, end as int, v);
                }
            }
        }
        return Err(Error::Decode("unexpected data after the message".to_owned()));
    }
    proof {
        crate::varint::lemma_join(
            buf@,
            pos as int,
            x1.1 as int,
            rep_seeders(1, x0.0.deep_view()),
            rep_nodes(2, x1.0.deep_view()),
        );
    }
    Ok(FindValueResponse { seeders: x0.0, nodes: x1.0 })
}

/// A request to remember a seeder under a key (reserved).
#[derive(Debug, Clone, PartialEq)]
pub struct StoreRequest {
    pub key: Vec<u8>,
    pub seeder: Option<ProtoSeeder>,
}

pub ghost struct StoreRequestV {
    pub key: Seq<u8>,
    pub seeder: Option<ProtoSeederV>,
}

impl View for StoreRequest {
    type V = StoreRequestV;

    open spec fn view(&self) -> StoreRequestV {
        StoreRequestV { key: self.key@, seeder: self.seeder.deep_view() }
    }
}

impl DeepView for StoreRequest {
    type V = StoreRequestV;

    open spec fn deep_view(&self) -> StoreRequestV {
        self.view()
    }
}

/// An optional embedded message leaves no bytes when absent.
pub open spec fn opt_seeder(field: u64, o: Option<ProtoSeederV>) -> Seq<u8> {
    match o {
        Option::None => Seq::<u8>::empty(),
        Option::Some(e) => f_len(field, enc_proto_seeder_msg(e)),
    }
}

pub open spec fn enc_store_request_msg(v: StoreRequestV) -> Seq<u8> {
    f_len(1, v.key) + opt_seeder(2, v.seeder)
}

pub(crate) fn write_store_request_msg(m: &StoreRequest, out: &mut Vec<u8>)
    ensures
        final(out)@ == old(out)@ + enc_store_request_msg(m@),
{
    w_bytes_field(out, 1, m.key.as_slice());
    match &m.seeder {
        Option::None => {},
        Option::Some(e) => {
            let mut tmp: Vec<u8> = Vec::new();
            write_proto_seeder_msg(e, &mut tmp);
            w_bytes_field(out, 2, tmp.as_slice());
        },
    }
    proof {
        assert(out@ =~= old(out)@ + enc_store_request_msg(m@));
    }
}

proof fn lemma_store_request_msg_parts(s: Seq<u8>, pos: int, end: int, v: StoreRequestV)
    requires
        0 <= pos <= end <= s.len(),
        s.subrange(pos, end) == enc_store_request_msg(v),
    ensures
        starts_with(s, pos, end, f_len(1, v.key)),
        v.seeder matches Some(e) ==> starts_with(
            s,
            pos + f_len(1, v.key).len(),
            end,
            f_len(2, enc_proto_seeder_msg(e)),
        ),
        end == pos + f_len(1, v.key).len() + opt_seeder(2, v.seeder).len(),
{
    lemma_split(s, pos, end, f_len(1, v.key), opt_seeder(2, v.seeder));
    assert(s.subrange(pos + f_len(1, v.key).len(), end).len()
        == end - (pos + f_len(1, v.key).len()));
}

pub(crate) fn dec_store_request_msg(buf: &[u8], pos: usize, end: usize) -> (r: Result<
    StoreRequest,
    Error,
>)
    requires
        pos <= end <= buf@.len(),
    ensures
        forall|v: StoreRequestV|
            buf@.subrange(pos as int, end as int) == #[trigger] enc_store_request_msg(v)
            ==> (match r {
                Ok(m) => m@ == v,
                Err(_) => false,
            }),
        r matches Ok(m) ==> buf@.subrange(pos as int, end as int)
            == enc_store_request_msg(m@),
{
    proof {
        assert forall|v: StoreRequestV|
            buf@.subrange(pos as int, end as int) == enc_store_request_msg(v)
            implies starts_with(buf@, pos as int, end as int, f_len(1, v.key)) by {
            lemma_store_request_msg_parts(buf@, pos as int, end as int, v);
        }
    }
    let x0 = match dec_bytes_field(buf, pos, end, 1) {
        Ok(o) => o,
        Err(e) => {
            return Err(e);
        },
    };
    if x0.1 == end {
        proof {
            assert forall|v: StoreRequestV|
                buf@.subrange(pos as int, end as int) == enc_store_request_msg(v)
                implies v.seeder is None by {
                lemma_store_request_msg_parts(buf@, pos as int, end as int, v);
                if v.seeder matches Some(e) {
                    lemma_vint_min_len(18);
                    assert(opt_seeder(2, v.seeder).len() > 0);
                }
            }
        }
        proof {
            let ghost rv = StoreRequestV { key: x0.0@, seeder: Option::None };
            assert(enc_store_request_msg(rv) =~= f_len(1, x0.0@));
            assert(buf@.subrange(pos as int, end as int) == f_len(1, x0.0@));
        }
        return Ok(StoreRequest { key: x0.0, seeder: Option::None });
    }
    proof {
        assert forall|v: StoreRequestV|
            buf@.subrange(pos as int, end as int) == enc_store_request_msg(v)
            implies v.seeder is Some && starts_with(
                buf@,
                x0.1 as int,
                end as int,
                f_len(2, enc_proto_seeder_msg(v.seeder->0)),
            ) by {
            lemma_store_request_msg_parts(buf@, pos as int, end as int, v);
            if v.seeder is None {
                assert(opt_seeder(2, v.seeder).len() == 0);
            }
        }
    }
    let elem = match dec_seeder_elem(buf, x0.1, end, 2) {
        Ok(o) => o,
        Err(e) => {
            return Err(e);
        },
    };
    if elem.1 != end {
        proof {
            assert forall|v: StoreRequestV|
                buf@.subrange(pos as int, end as int) != enc_store_request_msg(v) by {
                if buf@.subrange(pos as int, end as int) == enc_store_request_msg(v) {
                    lemma_store_request_msg_parts(buf@, pos as int, end as int, v);
                }
            }
        }
        return Err(Error::Decode("unexpected data after the message".to_owned()));
    }
    proof {
        crate::varint::lemma_join(
            buf@,
            pos as int,
            elem.1 as int,
            f_len(1, x0.0@),
            f_len(2, enc_proto_seeder_msg(elem.0@)),
        );
    }
    Ok(StoreRequest { key: x0.0, seeder: Option::Some(elem.0) })
}

// ---------------------------------------------------------------------
// The payload union and the envelope
// ---------------------------------------------------------------------

/// The tagged payload union. Tag numbers are frozen: requests and
/// responses keep theirs forever, and new variants take new tags.
#[derive(Debug, Clone, PartialEq)]
pub enum Payload {
    SearchRequest(SearchRequest),
    SearchResponse(SearchResponse),
    ChunkRequest(ChunkRequest),
    ChunkResponse(ChunkResponse),
    PublishRequest(PublishRequest),
    PublishResponse(PublishResponse),
    FindNodeRequest(FindNodeRequest),
    FindNodeResponse(FindNodeResponse),
    FindValueRequest(FindValueRequest),
    FindValueResponse(FindValueResponse),
    StoreRequest(StoreRequest),
    StoreResponse(StoreResponse),
    PingRequest(PingRequest),
    PingResponse(PingResponse),
    ErrorResponse(ErrorResponse),
}

pub ghost enum PayloadV {
    SearchRequest(SearchRequestV),
    SearchResponse(SearchResponseV),
    ChunkRequest(ChunkRequestV),
    ChunkResponse(ChunkResponseV),
    PublishRequest(PublishRequestV),
    PublishResponse(PublishResponseV),
    FindNodeRequest(FindNodeRequestV),
    FindNodeResponse(FindNodeResponseV),
    FindValueRequest(FindValueRequestV),
    FindValueResponse(FindValueResponseV),
    StoreRequest(StoreRequestV),
    StoreResponse(StoreResponseV),
    PingRequest(PingRequestV),
    PingResponse(PingResponseV),
    ErrorResponse(ErrorResponseV),
}

impl View for Payload {
    type V = PayloadV;

    open spec fn view(&self) -> PayloadV {
        match self {
            Payload::SearchRequest(m) => PayloadV::SearchRequest(m@),
            Payload::SearchResponse(m) => PayloadV::SearchResponse(m@),
            Payload::ChunkRequest(m) => PayloadV::ChunkRequest(m@),
            Payload::ChunkResponse(m) => PayloadV::ChunkResponse(m@),
            Payload::PublishRequest(m) => PayloadV::PublishRequest(m@),
            Payload::PublishResponse(m) => PayloadV::PublishResponse(m@),
            Payload::FindNodeRequest(m) => PayloadV::FindNodeRequest(m@),
            Payload::FindNodeResponse(m) => PayloadV::FindNodeResponse(m@),
            Payload::FindValueRequest(m) => PayloadV::FindValueRequest(m@),
            Payload::FindValueResponse(m) => PayloadV::FindValueResponse(m@),
            Payload::StoreRequest(m) => PayloadV::StoreRequest(m@),
            Payload::StoreResponse(m) => PayloadV::StoreResponse(m@),
            Payload::PingRequest(m) => PayloadV::PingRequest(m@),
            Payload::PingResponse(m) => PayloadV::PingResponse(m@),
            Payload::ErrorResponse(m) => PayloadV::ErrorResponse(m@),
        }
    }
}

impl DeepView for Payload {
    type V = PayloadV;

    open spec fn deep_view(&self) -> PayloadV {
        self.view()
    }
}

/// The frozen wire tag of each payload variant.
pub open spec fn payload_tag(p: PayloadV) -> u64 {
    match p {
        PayloadV::SearchRequest(_) => 10,
        PayloadV::SearchResponse(_) => 11,
        PayloadV::ChunkRequest(_) => 20,
        PayloadV::ChunkResponse(_) => 21,
        PayloadV::PublishRequest(_) => 30,
        PayloadV::PublishResponse(_) => 31,
        PayloadV::FindNodeRequest(_) => 40,
        PayloadV::FindNodeResponse(_) => 41,
        PayloadV::FindValueRequest(_) => 42,
        PayloadV::FindValueResponse(_) => 43,
        PayloadV::StoreRequest(_) => 44,
        PayloadV::StoreResponse(_) => 45,
        PayloadV::PingRequest(_) => 46,
        PayloadV::PingResponse(_) => 47,
        PayloadV::ErrorResponse(_) => 100,
    }
}

/// The encoding of a payload's inner message, without the tag framing.
pub open spec fn enc_payload_body(p: PayloadV) -> Seq<u8> {
    match p {
        PayloadV::SearchRequest(m) => enc_search_request(m),
        PayloadV::SearchResponse(m) => enc_search_response_msg(m),
        PayloadV::ChunkRequest(m) => enc_chunk_request_msg(m),
        PayloadV::ChunkResponse(m) => enc_chunk_response_msg(m),
        PayloadV::PublishRequest(m) => enc_publish_request_msg(m),
        PayloadV::PublishResponse(m) => enc_publish_response_msg(m),
        PayloadV::FindNodeRequest(m) => enc_find_node_request_msg(m),
        PayloadV::FindNodeResponse(m) => enc_find_node_response_msg(m),
        PayloadV::FindValueRequest(m) => enc_find_value_request_msg(m),
        PayloadV::FindValueResponse(m) => enc_find_value_response_msg(m),
        PayloadV::StoreRequest(m) => enc_store_request_msg(m),
        PayloadV::StoreResponse(m) => enc_store_response_msg(m),
        PayloadV::PingRequest(m) => enc_ping_request_msg(m),
        PayloadV::PingResponse(m) => enc_ping_response_msg(m),
        PayloadV::ErrorResponse(m) => enc_error_response(m),
    }
}

/// A payload is one length-prefixed field whose number is the variant's tag.
pub open spec fn enc_payload(p: PayloadV) -> Seq<u8> {
    f_len(payload_tag(p), enc_payload_body(p))
}

pub(crate) fn write_payload(p: &Payload, out: &mut Vec<u8>)
    ensures
        final(out)@ == old(out)@ + enc_payload(p@),
{
    let mut tmp: Vec<u8> = Vec::new();
    let tag: u64;
    match p {
        Payload::SearchRequest(m) => {
            write_search_request(m, &mut tmp);
            tag = 10;
        },
        Payload::SearchResponse(m) => {
            write_search_response_msg(m, &mut tmp);
            tag = 11;
        },
        Payload::ChunkRequest(m) => {
            write_chunk_request_msg(m, &mut tmp);
            tag = 20;
        },
        Payload::ChunkResponse(m) => {
            write_chunk_response_msg(m, &mut tmp);
            tag = 21;
        },
        Payload::PublishRequest(m) => {
            write_publish_request_msg(m, &mut tmp);
            tag = 30;
        },
        Payload::PublishResponse(m) => {
            write_publish_response_msg(m, &mut tmp);
            tag = 31;
        },
        Payload::FindNodeRequest(m) => {
            write_find_node_request_msg(m, &mut tmp);
            tag = 40;
        },
        Payload::FindNodeResponse(m) => {
            write_find_node_response_msg(m, &mut tmp);
            tag = 41;
        },
        Payload::FindValueRequest(m) => {
            write_find_value_request_msg(m, &mut tmp);
            tag = 42;
        },
        Payload::FindValueResponse(m) => {
            write_find_value_response_msg(m, &mut tmp);
            tag = 43;
        },
        Payload::StoreRequest(m) => {
            write_store_request_msg(m, &mut tmp);
            tag = 44;
        },
        Payload::StoreResponse(m) => {
            write_store_response_msg(m, &mut tmp);
            tag = 45;
        },
        Payload::PingRequest(m) => {
            write_ping_request_msg(m, &mut tmp);
            tag = 46;
        },
        Payload::PingResponse(m) => {
            write_ping_response_msg(m, &mut tmp);
            tag = 47;
        },
        Payload::ErrorResponse(m) => {
            write_error_response(m, &mut tmp);
            tag = 100;
        },
    }
    w_bytes_field(out, tag, tmp.as_slice());
}

/// Key, length and body segments standing in a row are exactly one
/// payload field.
proof fn lemma_payload_sound(s: Seq<u8>, pos: int, kpos: int, lend: int, end: int, pv: PayloadV)
    requires
        0 <= pos,
        end <= s.len(),
        kpos == pos + vint(8 * payload_tag(pv) + 2).len(),
        lend == kpos + vint(enc_payload_body(pv).len() as int).len(),
        end == lend + enc_payload_body(pv).len(),
        s.subrange(pos, kpos) == vint(8 * payload_tag(pv) + 2),
        s.subrange(kpos, lend) == vint(enc_payload_body(pv).len() as int),
        s.subrange(lend, end) == enc_payload_body(pv),
    ensures
        s.subrange(pos, end) == enc_payload(pv),
{
    crate::varint::lemma_join(
        s,
        kpos,
        end,
        vint(enc_payload_body(pv).len() as int),
        enc_payload_body(pv),
    );
    crate::varint::lemma_join(
        s,
        pos,
        end,
        vint(8 * payload_tag(pv) + 2),
        vint(enc_payload_body(pv).len() as int) + enc_payload_body(pv),
    );
    assert(enc_payload(pv) =~= vint(8 * payload_tag(pv) + 2) + (vint(
        enc_payload_body(pv).len() as int,
    ) + enc_payload_body(pv)));
}

#[verifier::rlimit(100)]
#[verifier::spinoff_prover]
pub(crate) fn dec_payload(buf: &[u8], pos: usize, end: usize) -> (r: Result<Payload, Error>)
    requires
        pos <= end <= buf@.len(),
    ensures
        r matches Ok(m) ==> buf@.subrange(pos as int, end as int) == enc_payload(m@),
        forall|p: PayloadV| buf@.subrange(pos as int, end as int) == #[trigger] enc_payload(p)
            ==> (match r {
                Ok(m) => m@ == p,
                Err(_) => false,
            }),
{
    proof {
        assert forall|p: PayloadV| buf@.subrange(pos as int, end as int) == enc_payload(p)
            implies {
            &&& starts_with(buf@, pos as int, end as int, vint(8 * payload_tag(p) + 2))
            &&& starts_with(
                buf@,
                pos + vint(8 * payload_tag(p) + 2).len(),
                end as int,
                vint(enc_payload_body(p).len() as int),
            )
            &&& buf@.subrange(
                pos + vint(8 * payload_tag(p) + 2).len() + vint(
                    enc_payload_body(p).len() as int,
                ).len(),
                end as int,
            ) == enc_payload_body(p)
            &&& end == pos + enc_payload(p).len()
        } by {
            assert(buf@.subrange(pos as int, end as int).len() == end - pos);
            assert(enc_payload(p) =~= vint(8 * payload_tag(p) + 2) + (vint(
                enc_payload_body(p).len() as int,
            ) + enc_payload_body(p)));
            lemma_split(
                buf@,
                pos as int,
                end as int,
                vint(8 * payload_tag(p) + 2),
                vint(enc_payload_body(p).len() as int) + enc_payload_body(p),
            );
            lemma_split(
                buf@,
                pos + vint(8 * payload_tag(p) + 2).len(),
                end as int,
                vint(enc_payload_body(p).len() as int),
                enc_payload_body(p),
            );
        }
    }
    let k = match read_vint(buf, pos, end) {
        Ok(o) => o,
        Err(e) => {
            return Err(e);
        },
    };
    let l = match read_vint(buf, k.1, end) {
        Ok(o) => o,
        Err(e) => {
            return Err(e);
        },
    };
    if l.0 > (end - l.1) as u64 {
        return Err(Error::Decode("length prefix exceeds the input".to_owned()));
    }
    let sub_end = l.1 + (l.0 as usize);
    if sub_end != end {
        proof {
            assert forall|p: PayloadV|
                buf@.subrange(pos as int, end as int) != enc_payload(p) by {
                if buf@.subrange(pos as int, end as int) == enc_payload(p) {
                    assert(enc_payload_body(p).len() <= end <= usize::MAX);
                    assert(l.0 as usize == enc_payload_body(p).len());
                }
            }
        }
        return Err(Error::Decode("payload length does not fill the envelope".to_owned()));
    }
    proof {
        assert forall|p: PayloadV| buf@.subrange(pos as int, end as int) == enc_payload(p)
            implies k.0 as int == 8 * payload_tag(p) + 2 && buf@.subrange(
            l.1 as int,
            sub_end as int,
        ) == enc_payload_body(p) by {
            assert(enc_payload_body(p).len() <= end <= usize::MAX);
            assert(l.0 as usize == enc_payload_body(p).len());
        }
    }
    if k.0 == 82 {
        match dec_search_request(buf, l.1, sub_end) {
            Ok(m) => {
                proof {
                    let ghost pv = Payload::SearchRequest(m)@;
                    assert(payload_tag(pv) == 10);
                    assert(enc_payload_body(pv) == enc_search_request(m@));
                    assert(l.0 as int == enc_payload_body(pv).len());
                    lemma_payload_sound(
                        buf@,
                        pos as int,
                        k.1 as int,
                        l.1 as int,
                        end as int,
                        pv,
                    );
                }
                Ok(Payload::SearchRequest(m))
            },
            Err(e) => Err(e),
        }
    } else if k.0 == 90 {
        match dec_search_response_msg(buf, l.1, sub_end) {
            Ok(m) => {
                proof {
                    let ghost pv = Payload::SearchResponse(m)@;
                    assert(payload_tag(pv) == 11);
                    assert(enc_payload_body(pv) == enc_search_response_msg(m@));
                    assert(l.0 as int == enc_payload_body(pv).len());
                    lemma_payload_sound(
                        buf@,
                        pos as int,
                        k.1 as int,
                        l.1 as int,
                        end as int,
                        pv,
                    );
                }
                Ok(Payload::SearchResponse(m))
            },
            Err(e) => Err(e),
        }
    } else if k.0 == 162 {
        match dec_chunk_request_msg(buf, l.1, sub_end) {
            Ok(m) => {
                proof {
                    let ghost pv = Payload::ChunkRequest(m)@;
                    assert(payload_tag(pv) == 20);
                    assert(enc_payload_body(pv) == enc_chunk_request_msg(m@));
                    assert(l.0 as int == enc_payload_body(pv).len());
                    lemma_payload_sound(
                        buf@,
                        pos as int,
                        k.1 as int,
                        l.1 as int,
                        end as int,
                        pv,
                    );
                }
                Ok(Payload::ChunkRequest(m))
            },
            Err(e) => Err(e),
        }
    } else if k.0 == 170 {
        match dec_chunk_response_msg(buf, l.1, sub_end) {
            Ok(m) => {
                proof {
                    let ghost pv = Payload::ChunkResponse(m)@;
                    assert(payload_tag(pv) == 21);
                    assert(enc_payload_body(pv) == enc_chunk_response_msg(m@));
                    assert(l.0 as int == enc_payload_body(pv).len());
                    lemma_payload_sound(
                        buf@,
                        pos as int,
                        k.1 as int,
                        l.1 as int,
                        end as int,
                        pv,
                    );
                }
                Ok(Payload::ChunkResponse(m))
            },
            Err(e) => Err(e),
        }
    } else if k.0 == 242 {
        match dec_publish_request_msg(buf, l.1, sub_end) {
            Ok(m) => {
                proof {
                    let ghost pv = Payload::PublishRequest(m)@;
                    assert(payload_tag(pv) == 30);
                    assert(enc_payload_body(pv) == enc_publish_request_msg(m@));
                    assert(l.0 as int == enc_payload_body(pv).len());
                    lemma_payload_sound(
                        buf@,
                        pos as int,
                        k.1 as int,
                        l.1 as int,
                        end as int,
                        pv,
                    );
                }
                Ok(Payload::PublishRequest(m))
            },
            Err(e) => Err(e),
        }
    } else if k.0 == 250 {
        match dec_publish_response_msg(buf, l.1, sub_end) {
            Ok(m) => {
                proof {
                    let ghost pv = Payload::PublishResponse(m)@;
                    assert(payload_tag(pv) == 31);
                    assert(enc_payload_body(pv) == enc_publish_response_msg(m@));
                    assert(l.0 as int == enc_payload_body(pv).len());
                    lemma_payload_sound(
                        buf@,
                        pos as int,
                        k.1 as int,
                        l.1 as int,
                        end as int,
                        pv,
                    );
                }
                Ok(Payload::PublishResponse(m))
            },
            Err(e) => Err(e),
        }
    } else if k.0 == 322 {
        match dec_find_node_request_msg(buf, l.1, sub_end) {
            Ok(m) => {
                proof {
                    let ghost pv = Payload::FindNodeRequest(m)@;
                    assert(payload_tag(pv) == 40);
                    assert(enc_payload_body(pv) == enc_find_node_request_msg(m@));
                    assert(l.0 as int == enc_payload_body(pv).len());
                    lemma_payload_sound(
                        buf@,
                        pos as int,
                        k.1 as int,
                        l.1 as int,
                        end as int,
                        pv,
                    );
                }
                Ok(Payload::FindNodeRequest(m))
            },
            Err(e) => Err(e),
        }
    } else if k.0 == 330 {
        match dec_find_node_response_msg(buf, l.1, sub_end) {
            Ok(m) => {
                proof {
                    let ghost pv = Payload::FindNodeResponse(m)@;
                    assert(payload_tag(pv) == 41);
                    assert(enc_payload_body(pv) == enc_find_node_response_msg(m@));
                    assert(l.0 as int == enc_payload_body(pv).len());
                    lemma_payload_sound(
                        buf@,
                        pos as int,
                        k.1 as int,
                        l.1 as int,
                        end as int,
                        pv,
                    );
                }
                Ok(Payload::FindNodeResponse(m))
            },
            Err(e) => Err(e),
        }
    } else if k.0 == 338 {
        match dec_find_value_request_msg(buf, l.1, sub_end) {
            Ok(m) => {
                proof {
                    let ghost pv = Payload::FindValueRequest(m)@;
                    assert(payload_tag(pv) == 42);
                    assert(enc_payload_body(pv) == enc_find_value_request_msg(m@));
                    assert(l.0 as int == enc_payload_body(pv).len());
                    lemma_payload_sound(
                        buf@,
                        pos as int,
                        k.1 as int,
                        l.1 as int,
                        end as int,
                        pv,
                    );
                }
                Ok(Payload::FindValueRequest(m))
            },
            Err(e) => Err(e),
        }
    } else if k.0 == 346 {
        match dec_find_value_response_msg(buf, l.1, sub_end) {
            Ok(m) => {
                proof {
                    let ghost pv = Payload::FindValueResponse(m)@;
                    assert(payload_tag(pv) == 43);
                    assert(enc_payload_body(pv) == enc_find_value_response_msg(m@));
                    assert(l.0 as int == enc_payload_body(pv).len());
                    lemma_payload_sound(
                        buf@,
                        pos as int,
                        k.1 as int,
                        l.1 as int,
                        end as int,
                        pv,
                    );
                }
                Ok(Payload::FindValueResponse(m))
            },
            Err(e) => Err(e),
        }
    } else if k.0 == 354 {
        match dec_store_request_msg(buf, l.1, sub_end) {
            Ok(m) => {
                proof {
                    let ghost pv = Payload::StoreRequest(m)@;
                    assert(payload_tag(pv) == 44);
                    assert(enc_payload_body(pv) == enc_store_request_msg(m@));
                    assert(l.0 as int == enc_payload_body(pv).len());
                    lemma_payload_sound(
                        buf@,
                        pos as int,
                        k.1 as int,
                        l.1 as int,
                        end as int,
                        pv,
                    );
                }
                Ok(Payload::StoreRequest(m))
            },
            Err(e) => Err(e),
        }
    } else if k.0 == 362 {
        match dec_store_response_msg(buf, l.1, sub_end) {
            Ok(m) => {
                proof {
                    let ghost pv = Payload::StoreResponse(m)@;
                    assert(payload_tag(pv) == 45);
                    assert(enc_payload_body(pv) == enc_store_response_msg(m@));
                    assert(l.0 as int == enc_payload_body(pv).len());
                    lemma_payload_sound(
                        buf@,
                        pos as int,
                        k.1 as int,
                        l.1 as int,
                        end as int,
                        pv,
                    );
                }
                Ok(Payload::StoreResponse(m))
            },
            Err(e) => Err(e),
        }
    } else if k.0 == 370 {
        match dec_ping_request_msg(buf, l.1, sub_end) {
            Ok(m) => {
                proof {
                    let ghost pv = Payload::PingRequest(m)@;
                    assert(payload_tag(pv) == 46);
                    assert(enc_payload_body(pv) == enc_ping_request_msg(m@));
                    assert(l.0 as int == enc_payload_body(pv).len());
                    lemma_payload_sound(
                        buf@,
                        pos as int,
                        k.1 as int,
                        l.1 as int,
                        end as int,
                        pv,
                    );
                }
                Ok(Payload::PingRequest(m))
            },
            Err(e) => Err(e),
        }
    } else if k.0 == 378 {
        match dec_ping_response_msg(buf, l.1, sub_end) {
            Ok(m) => {
                proof {
                    let ghost pv = Payload::PingResponse(m)@;
                    assert(payload_tag(pv) == 47);
                    assert(enc_payload_body(pv) == enc_ping_response_msg(m@));
                    assert(l.0 as int == enc_payload_body(pv).len());
                    lemma_payload_sound(
                        buf@,
                        pos as int,
                        k.1 as int,
                        l.1 as int,
                        end as int,
                        pv,
                    );
                }
                Ok(Payload::PingResponse(m))
            },
            Err(e) => Err(e),
        }
    } else if k.0 == 802 {
        match dec_error_response(buf, l.1, sub_end) {
            Ok(m) => {
                proof {
                    let ghost pv = Payload::ErrorResponse(m)@;
                    assert(payload_tag(pv) == 100);
                    assert(enc_payload_body(pv) == enc_error_response(m@));
                    assert(l.0 as int == enc_payload_body(pv).len());
                    lemma_payload_sound(
                        buf@,
                        pos as int,
                        k.1 as int,
                        l.1 as int,
                        end as int,
                        pv,
                    );
                }
                Ok(Payload::ErrorResponse(m))
            },
            Err(e) => Err(e),
        }
    } else {
        Err(Error::Decode("unknown payload tag".to_owned()))
    }
}

/// The outer frame of every wire message: the protocol version, a
/// correlation identifier minted by the requester, and the payload.
#[derive(Debug, Clone, PartialEq)]
pub struct Envelope {
    pub version: u32,
    pub request_id: u64,
    pub payload: Option<Payload>,
}

pub ghost struct EnvelopeV {
    pub version: u32,
    pub request_id: u64,
    pub payload: Option<PayloadV>,
}

impl View for Envelope {
    type V = EnvelopeV;

    open spec fn view(&self) -> EnvelopeV {
        EnvelopeV {
            version: self.version,
            request_id: self.request_id,
            payload: self.payload.deep_view(),
        }
    }
}

/// The encoding of a whole envelope: version, request id, then the
/// payload field, or nothing where the payload is absent.
pub open spec fn enc_envelope(e: EnvelopeV) -> Seq<u8> {
    f_vint(1, e.version as u64) + f_vint(2, e.request_id) + (match e.payload {
        Option::None => Seq::<u8>::empty(),
        Option::Some(p) => enc_payload(p),
    })
}

impl Envelope {
    /// Wrap a payload under the current protocol version.
    pub fn new(request_id: u64, payload: Payload) -> (r: Envelope)
        ensures
            r@ == (EnvelopeV {
                version: crate::PROTOCOL_VERSION as u32,
                request_id,
                payload: Option::Some(payload@),
            }),
    {
        Envelope { version: crate::PROTOCOL_VERSION as u32, request_id, payload: Option::Some(payload) }
    }

    /// Encode the envelope to its wire bytes.
    pub fn to_bytes(&self) -> (r: Vec<u8>)
        ensures
            r@ == enc_envelope(self@),
    {
        let mut out: Vec<u8> = Vec::new();
        w_vint_field(&mut out, 1, self.version as u64);
        w_vint_field(&mut out, 2, self.request_id);
        match &self.payload {
            Option::None => {},
            Option::Some(p) => {
                write_payload(p, &mut out);
            },
        }
        proof {
            assert(out@ =~= enc_envelope(self@));
        }
        out
    }

    /// Decode an envelope from its wire bytes, refusing any version other
    /// than `PROTOCOL_VERSION`.
    ///
    /// The contract carries the two laws of the codec. Round trip: where
    /// the bytes are the encoding of an envelope of the current version,
    /// decoding returns exactly that envelope, every field and every
    /// payload variant included. Version pinning: where they encode an
    /// envelope of any other version, decoding fails with precisely
    /// `VersionMismatch`, naming the version found.
    pub fn from_bytes(buf: &[u8]) -> (r: Result<Envelope, Error>)
        ensures
            r matches Ok(m) ==> buf@ == enc_envelope(m@) && m.version
                == crate::PROTOCOL_VERSION as u32,
            forall|e: EnvelopeV| buf@ == #[trigger] enc_envelope(e) ==> (if e.version
                == crate::PROTOCOL_VERSION as u32 {
                match r {
                    Ok(m) => m@ == e,
                    Err(_) => false,
                }
            } else {
                r == Err::<Envelope, Error>(Error::VersionMismatch {
                    expected: crate::PROTOCOL_VERSION,
                    actual: e.version,
                })
            }),
    {
        let end = buf.len();
        proof {
            assert forall|e: EnvelopeV| buf@ == enc_envelope(e) implies {
                &&& starts_with(buf@, 0, end as int, f_vint(1, e.version as u64))
                &&& starts_with(
                    buf@,
                    f_vint(1, e.version as u64).len() as int,
                    end as int,
                    f_vint(2, e.request_id),
                )
                &&& (e.payload matches Some(p) ==> buf@.subrange(
                    f_vint(1, e.version as u64).len() + f_vint(2, e.request_id).len() as int,
                    end as int,
                ) == enc_payload(p))
                &&& (e.payload is None ==> end == f_vint(1, e.version as u64).len() + f_vint(
                    2,
                    e.request_id,
                ).len())
                &&& (e.payload matches Some(p) ==> end == f_vint(1, e.version as u64).len()
                    + f_vint(2, e.request_id).len() + enc_payload(p).len())
            } by {
                assert(buf@.subrange(0, end as int) =~= buf@);
                let tail = match e.payload {
                    Option::None => Seq::<u8>::empty(),
                    Option::Some(p) => enc_payload(p),
                };
                assert(enc_envelope(e) =~= f_vint(1, e.version as u64) + (f_vint(
                    2,
                    e.request_id,
                ) + tail));
                lemma_split(
                    buf@,
                    0,
                    end as int,
                    f_vint(1, e.version as u64),
                    f_vint(2, e.request_id) + tail,
                );
                lemma_split(
                    buf@,
                    f_vint(1, e.version as u64).len() as int,
                    end as int,
                    f_vint(2, e.request_id),
                    tail,
                );
                assert(buf@.subrange(
                    f_vint(1, e.version as u64).len() + f_vint(2, e.request_id).len() as int,
                    end as int,
                ).len() == end - (f_vint(1, e.version as u64).len() + f_vint(
                    2,
                    e.request_id,
                ).len()));
            }
        }
        let ver = match dec_u32_field(buf, 0, end, 1) {
            Ok(o) => o,
            Err(e) => {
                return Err(e);
            },
        };
        if ver.0 != crate::PROTOCOL_VERSION as u32 {
            return Err(Error::VersionMismatch {
                expected: crate::PROTOCOL_VERSION,
                actual: ver.0,
            });
        }
        let rid = match dec_vint_field(buf, ver.1, end, 2) {
            Ok(o) => o,
            Err(e) => {
                return Err(e);
            },
        };
        if rid.1 == end {
            proof {
                assert forall|e: EnvelopeV| buf@ == enc_envelope(e)
                    implies e.payload is None by {
                    if e.payload is Some {
                        let pl = e.payload->0;
                        lemma_vint_min_len(8 * payload_tag(pl) + 2);
                        assert(enc_payload(pl).len() > 0);
                    }
                }
            }
            proof {
                let ghost ev = EnvelopeV {
                    version: ver.0,
                    request_id: rid.0,
                    payload: Option::None,
                };
                crate::varint::lemma_join(
                    buf@,
                    0,
                    rid.1 as int,
                    f_vint(1, ver.0 as u64),
                    f_vint(2, rid.0),
                );
                assert(enc_envelope(ev) =~= f_vint(1, ver.0 as u64) + f_vint(2, rid.0));
                assert(buf@ =~= buf@.subrange(0, end as int));
            }
            return Ok(Envelope { version: ver.0, request_id: rid.0, payload: Option::None });
        }
        proof {
            assert forall|e: EnvelopeV| buf@ == enc_envelope(e)
                implies e.payload is Some && buf@.subrange(rid.1 as int, end as int)
                    == enc_payload(e.payload->0) by {
                if e.payload is None {
                }
            }
        }
        let p = match dec_payload(buf, rid.1, end) {
            Ok(p) => p,
            Err(e) => {
                return Err(e);
            },
        };
        proof {
            let ghost ev = EnvelopeV {
                version: ver.0,
                request_id: rid.0,
                payload: Option::Some(p@),
            };
            crate::varint::lemma_join(
                buf@,
                0,
                rid.1 as int,
                f_vint(1, ver.0 as u64),
                f_vint(2, rid.0),
            );
            crate::varint::lemma_join(
                buf@,
                0,
                end as int,
                f_vint(1, ver.0 as u64) + f_vint(2, rid.0),
                enc_payload(p@),
            );
            assert(enc_envelope(ev) =~= f_vint(1, ver.0 as u64) + f_vint(2, rid.0)
                + enc_payload(p@));
            assert(buf@ =~= buf@.subrange(0, end as int));
        }
        Ok(Envelope { version: ver.0, request_id: rid.0, payload: Option::Some(p) })
    }
}

// ---------------------------------------------------------------------
// Envelope constructors for the common message kinds
// ---------------------------------------------------------------------

/// A search query envelope.
pub fn search_request(request_id: u64, query: String, max_results: u32) -> (r: Envelope)
    ensures
        r@ == (EnvelopeV {
            version: crate::PROTOCOL_VERSION as u32,
            request_id,
            payload: Option::Some(PayloadV::SearchRequest(SearchRequestV {
                query: query@,
                max_results,
            })),
        }),
{
    Envelope::new(request_id, Payload::SearchRequest(SearchRequest { query, max_results }))
}

/// A search answer envelope.
pub fn search_response(request_id: u64, results: Vec<SearchResult>) -> (r: Envelope)
    ensures
        r@ == (EnvelopeV {
            version: crate::PROTOCOL_VERSION as u32,
            request_id,
            payload: Option::Some(PayloadV::SearchResponse(SearchResponseV {
                results: results.deep_view(),
            })),
        }),
{
    Envelope::new(request_id, Payload::SearchResponse(SearchResponse { results }))
}

/// A chunk request envelope.
pub fn chunk_request(request_id: u64, content_hash: Vec<u8>, chunk_index: u32, surb: Vec<u8>)
    -> (r: Envelope)
    ensures
        r@ == (EnvelopeV {
            version: crate::PROTOCOL_VERSION as u32,
            request_id,
            payload: Option::Some(PayloadV::ChunkRequest(ChunkRequestV {
                content_hash: content_hash@,
                chunk_index,
                surb: surb@,
            })),
        }),
{
    Envelope::new(
        request_id,
        Payload::ChunkRequest(ChunkRequest { content_hash, chunk_index, surb }),
    )
}

/// A chunk answer envelope.
pub fn chunk_response(
    request_id: u64,
    content_hash: Vec<u8>,
    chunk_index: u32,
    data: Vec<u8>,
    chunk_hash: Vec<u8>,
) -> (r: Envelope)
    ensures
        r@ == (EnvelopeV {
            version: crate::PROTOCOL_VERSION as u32,
            request_id,
            payload: Option::Some(PayloadV::ChunkResponse(ChunkResponseV {
                content_hash: content_hash@,
                chunk_index,
                data: data@,
                chunk_hash: chunk_hash@,
            })),
        }),
{
    Envelope::new(
        request_id,
        Payload::ChunkResponse(ChunkResponse { content_hash, chunk_index, data, chunk_hash }),
    )
}

/// An error report envelope.
pub fn error_response(request_id: u64, code: u32, message: String) -> (r: Envelope)
    ensures
        r@ == (EnvelopeV {
            version: crate::PROTOCOL_VERSION as u32,
            request_id,
            payload: Option::Some(PayloadV::ErrorResponse(ErrorResponseV {
                code,
                message: message@,
            })),
        }),
{
    Envelope::new(request_id, Payload::ErrorResponse(ErrorResponse { code, message }))
}

} // verus!
