//! Reply encoders for the wire protocol: simple strings, errors, integers,
//! bulk strings, the null bulk, and array headers.
use vstd::prelude::*;
use vstd::string::StringSliceAdditionalSpecFns;

verus! {

pub open spec fn crlf() -> Seq<u8> {
    seq![13u8, 10u8]
}

/// The decimal digits of a non-negative number, most significant first.
pub open spec fn dec_digits(n: int) -> Seq<u8>
    decreases n,
{
    if n < 10 {
        seq![(48 + n) as u8]
    } else {
        dec_digits(n / 10).push((48 + n % 10) as u8)
    }
}

pub open spec fn bulk_reply(b: Seq<u8>) -> Seq<u8> {
    seq![36u8] + dec_digits(b.len() as int) + crlf() + b + crlf()
}

pub open spec fn null_bulk() -> Seq<u8> {
    seq![36u8, 45u8, 49u8, 13u8, 10u8]
}

pub open spec fn simple_reply(s: Seq<u8>) -> Seq<u8> {
    seq![43u8] + s + crlf()
}

pub open spec fn error_reply(s: Seq<u8>) -> Seq<u8> {
    seq![45u8] + s + crlf()
}

pub open spec fn int_reply(n: int) -> Seq<u8> {
    seq![58u8] + dec_digits(n) + crlf()
}

pub open spec fn array_header(n: int) -> Seq<u8> {
    seq![42u8] + dec_digits(n) + crlf()
}

/// Error texts are kept to one line: control bytes print as a space.
pub open spec fn safe_line(s: Seq<u8>) -> Seq<u8> {
    Seq::new(s.len(), |i: int| if s[i] < 32 { 32u8 } else { s[i] })
}

pub(crate) fn str_bytes_vec(s: &str) -> (r: Vec<u8>)
    ensures
        r@ == s.spec_bytes(),
{
    vstd::slice::slice_to_vec(s.as_bytes())
}

/// Appends a copy of `src` to `dst`.
pub fn append_bytes(dst: &mut Vec<u8>, src: &Vec<u8>)
    ensures
        final(dst)@ == old(dst)@ + src@,
{
    let mut k: usize = 0;
    while k < src.len()
        invariant
            k <= src.len(),
            dst@ == old(dst)@ + src@.subrange(0, k as int),
        decreases src.len() - k,
    {
        let b = src[k];
        dst.push(b);
        proof {
            assert(old(dst)@ + src@.subrange(0, k + 1 as int) =~= (old(dst)@ + src@.subrange(
                0,
                k as int,
            )).push(b));
        }
        k = k + 1;
    }
    proof {
        assert(src@.subrange(0, src@.len() as int) =~= src@);
    }
}

/// Copies a byte vector.
pub fn copy_bytes(src: &Vec<u8>) -> (r: Vec<u8>)
    ensures
        r@ == src@,
{
    vstd::slice::slice_to_vec(src.as_slice())
}

pub fn safe_line_from_slice(s: &Vec<u8>) -> (r: Vec<u8>)
    ensures
        r@ == safe_line(s@),
{
    let mut out: Vec<u8> = Vec::new();
    let mut k: usize = 0;
    while k < s.len()
        invariant
            k <= s.len(),
            out@ =~= safe_line(s@).subrange(0, k as int),
        decreases s.len() - k,
    {
        let b = s[k];
        if b < 32 {
            out.push(32);
        } else {
            out.push(b);
        }
        proof {
            assert(safe_line(s@).subrange(0, k + 1 as int) =~= safe_line(s@).subrange(
                0,
                k as int,
            ).push(safe_line(s@)[k as int]));
        }
        k = k + 1;
    }
    proof {
        assert(safe_line(s@).subrange(0, s@.len() as int) =~= safe_line(s@));
    }
    out
}

/// The decimal digits of `n`, as bytes.
pub fn dec_bytes(n: usize) -> (r: Vec<u8>)
    ensures
        r@ == dec_digits(n as int),
    decreases n,
{
    if n < 10 {
        let mut v: Vec<u8> = Vec::new();
        v.push(48 + n as u8);
        proof {
            assert(v@ =~= dec_digits(n as int));
        }
        v
    } else {
        let mut v = dec_bytes(n / 10);
        v.push(48 + (n % 10) as u8);
        v
    }
}

/// Encodes `$<len>\r\n<bytes>\r\n`.
pub fn make_bulk(bulk: &Vec<u8>) -> (r: Vec<u8>)
    ensures
        r@ == bulk_reply(bulk@),
{
    let mut resp: Vec<u8> = Vec::new();
    resp.push(36);
    let d = dec_bytes(bulk.len());
    append_bytes(&mut resp, &d);
    resp.push(13);
    resp.push(10);
    append_bytes(&mut resp, bulk);
    resp.push(13);
    resp.push(10);
    proof {
        assert(resp@ =~= bulk_reply(bulk@));
    }
    resp
}

/// Encodes `*<count>\r\n`.
pub fn make_array(count: usize) -> (r: Vec<u8>)
    ensures
        r@ == array_header(count as int),
{
    let mut resp: Vec<u8> = Vec::new();
    resp.push(42);
    let d = dec_bytes(count);
    append_bytes(&mut resp, &d);
    resp.push(13);
    resp.push(10);
    proof {
        assert(resp@ =~= array_header(count as int));
    }
    resp
}

/// Encodes `$-1\r\n`.
pub fn make_null_bulk() -> (r: Vec<u8>)
    ensures
        r@ == null_bulk(),
{
    let v: Vec<u8> = vec![36u8, 45u8, 49u8, 13u8, 10u8];
    v
}

} // verus!
