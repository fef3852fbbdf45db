use crate::codec::{
    be_i32_bytes, be_u32_bytes, copy_range, lemma_i32_be_round_trip, lemma_string_round_trip,
    lemma_u32_be_round_trip, push_u32_be, read_u32_be, u32_from_be, TryFromBytes, TryIntoBytes,
};
use crate::error::CacheError;
use vstd::prelude::*;
use vstd::utf8::encode_utf8;

verus! {

/// A record of two fields, stored in the cache like any other value.
///
/// Its bytes are, in this order: the length of the name's UTF-8 bytes as a
/// big-endian `u32`, those bytes, and the age as a big-endian `i32`. The
/// length prefix makes the split between the fields unambiguous.
#[derive(Clone, Debug, PartialEq, Eq)]
pub struct Person {
    pub name: String,
    pub age: i32,
}

impl View for Person {
    type V = (Seq<char>, i32);

    open spec fn view(&self) -> (Seq<char>, i32) {
        (self.name@, self.age)
    }
}

impl TryIntoBytes for Person {
    /// A name whose UTF-8 bytes do not fit a `u32` length has no encoding.
    open spec fn encoding(v: (Seq<char>, i32)) -> Option<Seq<u8>> {
        let name = encode_utf8(v.0);
        if name.len() <= u32::MAX {
            Some(be_u32_bytes(name.len() as u32) + name + be_i32_bytes(v.1))
        } else {
            None
        }
    }

    fn try_into_bytes(&self) -> (r: Result<Vec<u8>, CacheError>) {
        let mut name = match self.name.try_into_bytes() {
            Ok(b) => b,
            Err(e) => return Err(e),
        };
        let mut age = match self.age.try_into_bytes() {
            Ok(b) => b,
            Err(e) => return Err(e),
        };
        if name.len() > u32::MAX as usize {
            return Err(CacheError::conversion("name too long for its length prefix"));
        }
        let mut out: Vec<u8> = Vec::new();
        push_u32_be(&mut out, name.len() as u32);
        out.append(&mut name);
        out.append(&mut age);
        Ok(out)
    }
}

impl TryFromBytes for Person {
    open spec fn decoding(b: Seq<u8>) -> Option<(Seq<char>, i32)> {
        if b.len() < 8 {
            None
        } else {
            let n = u32_from_be(b) as int;
            if b.len() != n + 8 {
                None
            } else {
                match (
                    <String as TryFromBytes>::decoding(b.subrange(4, 4 + n)),
                    <i32 as TryFromBytes>::decoding(b.subrange(4 + n, b.len() as int)),
                ) {
                    (Some(name), Some(age)) => Some((name, age)),
                    _ => None,
                }
            }
        }
    }

    fn try_from_bytes(bytes: Vec<u8>) -> (r: Result<Person, CacheError>) {
        let len = bytes.len();
        if len < 8 {
            return Err(CacheError::conversion("a record takes at least eight bytes"));
        }
        let n = read_u32_be(&bytes, 0) as usize;
        assert(bytes@.subrange(0, 4)[0] == bytes@[0] && bytes@.subrange(0, 4)[1] == bytes@[1]
            && bytes@.subrange(0, 4)[2] == bytes@[2] && bytes@.subrange(0, 4)[3] == bytes@[3]);
        if len - 8 != n {
            return Err(CacheError::conversion("record length disagrees with its name length"));
        }
        let name = match String::try_from_bytes(copy_range(&bytes, 4, 4 + n)) {
            Ok(s) => s,
            Err(e) => return Err(e),
        };
        let age = match i32::try_from_bytes(copy_range(&bytes, 4 + n, len)) {
            Ok(a) => a,
            Err(e) => return Err(e),
        };
        Ok(Person { name, age })
    }
}

/// Decoding the bytes of a record gives that record back, for every record
/// that has an encoding.
pub proof fn lemma_person_round_trip(v: (Seq<char>, i32))
    requires
        <Person as TryIntoBytes>::encoding(v) is Some,
    ensures
        <Person as TryIntoBytes>::encoding(v) matches Some(b) && <Person as TryFromBytes>::decoding(
            b,
        ) == Some(v),
{
    let name = encode_utf8(v.0);
    let prefix = be_u32_bytes(name.len() as u32);
    let age = be_i32_bytes(v.1);
    let b = prefix + name + age;
    let n = name.len() as int;
    assert(b[0] == prefix[0] && b[1] == prefix[1] && b[2] == prefix[2] && b[3] == prefix[3]);
    lemma_u32_be_round_trip(name.len() as u32);
    assert(u32_from_be(b) == u32_from_be(prefix));
    assert(b.subrange(4, 4 + n) =~= name);
    assert(b.subrange(4 + n, b.len() as int) =~= age);
    lemma_string_round_trip(v.0);
    lemma_i32_be_round_trip(v.1);
}

} // verus!
