use crate::error::CacheError;
use vstd::prelude::*;
use vstd::string::StrSliceExecFns;
use vstd::utf8::{decode_utf8, encode_utf8, valid_utf8};

verus! {

/// The capability of turning a value into bytes, which may fail.
pub trait TryIntoBytes: View + Sized {
    /// The bytes that stand for the value `v`, or `None` where `v` cannot
    /// be encoded.
    spec fn encoding(v: Self::V) -> Option<Seq<u8>>;

    /// Encodes the value; the same value always gives the same bytes.
    fn try_into_bytes(&self) -> (r: Result<Vec<u8>, CacheError>)
        ensures
            match Self::encoding(self@) {
                Some(b) => r is Ok && r->Ok_0@ == b,
                None => r is Err,
            },
    ;
}

/// The capability of rebuilding a value from bytes, which may fail.
pub trait TryFromBytes: View + Sized {
    /// The value that the bytes `b` stand for, or `None` where they stand
    /// for no value.
    spec fn decoding(b: Seq<u8>) -> Option<Self::V>;

    /// Decodes `bytes`, failing exactly where they stand for no value.
    fn try_from_bytes(bytes: Vec<u8>) -> (r: Result<Self, CacheError>)
        ensures
            match Self::decoding(bytes@) {
                Some(v) => r is Ok && r->Ok_0@ == v,
                None => r is Err,
            },
    ;
}

/// The four big-endian bytes of `u`.
pub open spec fn be_u32_bytes(u: u32) -> Seq<u8> {
    seq![(u >> 24) as u8, (u >> 16) as u8, (u >> 8) as u8, u as u8]
}

/// The `u32` whose big-endian bytes are the first four of `b`.
pub open spec fn u32_from_be(b: Seq<u8>) -> u32
    recommends
        b.len() >= 4,
{
    ((b[0] as u32) << 24) | ((b[1] as u32) << 16) | ((b[2] as u32) << 8) | (b[3] as u32)
}

/// The four big-endian bytes of the two's complement form of `v`.
pub open spec fn be_i32_bytes(v: i32) -> Seq<u8> {
    be_u32_bytes(v as u32)
}

/// The `i32` whose big-endian two's complement bytes are the first four of `b`.
pub open spec fn i32_from_be(b: Seq<u8>) -> i32
    recommends
        b.len() >= 4,
{
    u32_from_be(b) as i32
}

/// Reading back the four bytes of a `u32` gives that `u32`.
pub proof fn lemma_u32_be_round_trip(u: u32)
    ensures
        u32_from_be(be_u32_bytes(u)) == u,
{
    let b = be_u32_bytes(u);
    assert(b[0] == (u >> 24) as u8 && b[1] == (u >> 16) as u8 && b[2] == (u >> 8) as u8 && b[3]
        == u as u8);
    assert(((((u >> 24) as u8) as u32) << 24) | ((((u >> 16) as u8) as u32) << 16) | ((((u
        >> 8) as u8) as u32) << 8) | ((u as u8) as u32) == u) by (bit_vector);
}

/// Reading back the four bytes of an `i32` gives that `i32`.
pub proof fn lemma_i32_be_round_trip(v: i32)
    ensures
        i32_from_be(be_i32_bytes(v)) == v,
{
    lemma_u32_be_round_trip(v as u32);
    assert((v as u32) as i32 == v) by (bit_vector);
}

/// Appends the four big-endian bytes of `u` to `out`.
pub fn push_u32_be(out: &mut Vec<u8>, u: u32)
    ensures
        final(out)@ == old(out)@ + be_u32_bytes(u),
{
    out.push((u >> 24) as u8);
    out.push((u >> 16) as u8);
    out.push((u >> 8) as u8);
    out.push(u as u8);
    assert(final(out)@ =~= old(out)@ + be_u32_bytes(u));
}

/// Reads the `u32` stored big-endian in `b` from index `at` on.
pub fn read_u32_be(b: &Vec<u8>, at: usize) -> (r: u32)
    requires
        at + 4 <= b@.len(),
    ensures
        r == u32_from_be(b@.subrange(at as int, at + 4)),
{
    let len = b.len();
    assert(at + 4 <= len);
    let b0 = b[at] as u32;
    let b1 = b[at + 1] as u32;
    let b2 = b[at + 2] as u32;
    let b3 = b[at + 3] as u32;
    (b0 << 24) | (b1 << 16) | (b2 << 8) | b3
}

/// A fresh vector holding `b[lo..hi]`.
pub fn copy_range(b: &Vec<u8>, lo: usize, hi: usize) -> (r: Vec<u8>)
    requires
        lo <= hi <= b@.len(),
    ensures
        r@ == b@.subrange(lo as int, hi as int),
{
    let mut r: Vec<u8> = Vec::new();
    let mut i: usize = lo;
    while i < hi
        invariant
            lo <= i <= hi <= b@.len(),
            r@ == b@.subrange(lo as int, i as int),
        decreases hi - i,
    {
        r.push(b[i]);
        i = i + 1;
        assert(r@ =~= b@.subrange(lo as int, i as int));
    }
    r
}

/// Relies on `String::from_utf8`: it fails exactly on bytes that are not
/// valid UTF-8, and otherwise gives the string those bytes encode.
#[verifier::external_body]
fn string_from_utf8(bytes: Vec<u8>) -> (r: Option<String>)
    ensures
        r is Some <==> valid_utf8(bytes@),
        r matches Some(s) ==> s@ == decode_utf8(bytes@),
{
    String::from_utf8(bytes).ok()
}

impl TryIntoBytes for String {
    open spec fn encoding(v: Seq<char>) -> Option<Seq<u8>> {
        Some(encode_utf8(v))
    }

    fn try_into_bytes(&self) -> (r: Result<Vec<u8>, CacheError>) {
        Ok(self.as_str().as_bytes_vec())
    }
}

impl TryFromBytes for String {
    open spec fn decoding(b: Seq<u8>) -> Option<Seq<char>> {
        if valid_utf8(b) {
            Some(decode_utf8(b))
        } else {
            None
        }
    }

    fn try_from_bytes(bytes: Vec<u8>) -> (r: Result<String, CacheError>) {
        match string_from_utf8(bytes) {
            Some(s) => Ok(s),
            None => Err(CacheError::conversion("bytes are not valid UTF-8")),
        }
    }
}

/// Decoding the UTF-8 bytes of a text gives that text back.
pub proof fn lemma_string_round_trip(v: Seq<char>)
    ensures
        <String as TryIntoBytes>::encoding(v) matches Some(b) && <String as TryFromBytes>::decoding(
            b,
        ) == Some(v),
{
    vstd::utf8::encode_utf8_valid_utf8(v);
    vstd::utf8::encode_utf8_decode_utf8(v);
}

impl TryIntoBytes for Vec<u8> {
    /// Raw bytes are stored as they are.
    open spec fn encoding(v: Seq<u8>) -> Option<Seq<u8>> {
        Some(v)
    }

    fn try_into_bytes(&self) -> (r: Result<Vec<u8>, CacheError>) {
        let r = copy_range(self, 0, self.len());
        assert(r@ =~= self@);
        Ok(r)
    }
}

impl TryFromBytes for Vec<u8> {
    open spec fn decoding(b: Seq<u8>) -> Option<Seq<u8>> {
        Some(b)
    }

    fn try_from_bytes(bytes: Vec<u8>) -> (r: Result<Vec<u8>, CacheError>) {
        Ok(bytes)
    }
}

/// Raw bytes come back unchanged.
pub proof fn lemma_bytes_round_trip(v: Seq<u8>)
    ensures
        <Vec<u8> as TryIntoBytes>::encoding(v) matches Some(b) && <Vec<u8> as TryFromBytes>::decoding(
            b,
        ) == Some(v),
{
}

impl TryIntoBytes for i32 {
    open spec fn encoding(v: i32) -> Option<Seq<u8>> {
        Some(be_i32_bytes(v))
    }

    fn try_into_bytes(&self) -> (r: Result<Vec<u8>, CacheError>) {
        let mut out: Vec<u8> = Vec::new();
        push_u32_be(&mut out, *self as u32);
        assert(out@ =~= be_i32_bytes(*self));
        Ok(out)
    }
}

impl TryFromBytes for i32 {
    open spec fn decoding(b: Seq<u8>) -> Option<i32> {
        if b.len() == 4 {
            Some(i32_from_be(b))
        } else {
            None
        }
    }

    fn try_from_bytes(bytes: Vec<u8>) -> (r: Result<i32, CacheError>) {
        if bytes.len() != 4 {
            return Err(CacheError::conversion("an i32 takes exactly four bytes"));
        }
        let u = read_u32_be(&bytes, 0);
        assert(bytes@.subrange(0, 4) =~= bytes@);
        Ok(u as i32)
    }
}

/// Decoding the bytes of an `i32` gives that `i32` back.
pub proof fn lemma_i32_round_trip(v: i32)
    ensures
        <i32 as TryIntoBytes>::encoding(v) matches Some(b) && <i32 as TryFromBytes>::decoding(b)
            == Some(v),
{
    lemma_i32_be_round_trip(v);
}

} // verus!
