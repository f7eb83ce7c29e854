//! Wrappers around the outside crates the engine leans on: the read-only
//! memory mapping, fast byte and substring search, and lossy decoding.
//! Their contracts state what the wrapped calls return; nothing else in the
//! crate is taken on trust.

use vstd::prelude::*;
use crate::text::occurs_at;

verus! {

#[verifier::external_type_specification]
#[verifier::external_body]
pub struct ExMmap(memmap2::Mmap);

/// The bytes of the mapped file.
pub uninterp spec fn mapped_bytes(m: memmap2::Mmap) -> Seq<u8>;

/// Relies on memmap2::Mmap's deref to `[u8]`: a read-only slice of the whole
/// mapped file.
#[verifier::external_body]
pub(crate) fn mapped_slice(m: &memmap2::Mmap) -> (r: &[u8])
    ensures
        r@ == mapped_bytes(*m),
{
    &m[..]
}

/// Relies on memchr::memchr2: the least index holding either needle byte,
/// `None` when neither occurs.
#[verifier::external_body]
pub(crate) fn find_first_of(n1: u8, n2: u8, hay: &[u8]) -> (r: Option<usize>)
    ensures
        match r {
            Some(i) => i < hay@.len() && (hay@[i as int] == n1 || hay@[i as int] == n2)
                && forall|j: int| 0 <= j < i ==> hay@[j] != n1 && hay@[j] != n2,
            None => forall|j: int| 0 <= j < hay@.len() ==> hay@[j] != n1 && hay@[j] != n2,
        },
{
    memchr::memchr2(n1, n2, hay)
}

/// Relies on memchr::memmem::find: the least index at which the needle
/// occurs as a substring, `None` when it occurs nowhere.
#[verifier::external_body]
pub(crate) fn find_sub(hay: &[u8], needle: &[u8]) -> (r: Option<usize>)
    ensures
        match r {
            Some(i) => occurs_at(hay@, needle@, i as int) && forall|j: int|
                0 <= j < i ==> !occurs_at(hay@, needle@, j),
            None => forall|j: int| !occurs_at(hay@, needle@, j),
        },
{
    memchr::memmem::find(hay, needle)
}

/// Relies on memchr::memmem::rfind: the greatest index at which the needle
/// occurs as a substring, `None` when it occurs nowhere.
#[verifier::external_body]
pub(crate) fn rfind_sub(hay: &[u8], needle: &[u8]) -> (r: Option<usize>)
    ensures
        match r {
            Some(i) => occurs_at(hay@, needle@, i as int) && forall|j: int|
                j > i ==> !occurs_at(hay@, needle@, j),
            None => forall|j: int| !occurs_at(hay@, needle@, j),
        },
{
    memchr::memmem::rfind(hay, needle)
}

/// What lossy UTF-8 decoding makes of a byte sequence; it depends on the
/// bytes alone.
pub uninterp spec fn lossy_of(b: Seq<u8>) -> Seq<u8>;

/// Relies on String::from_utf8_lossy: well-formed UTF-8 passes through
/// unchanged, ill-formed sequences are replaced; the result is a function of
/// the bytes alone.
#[verifier::external_body]
pub(crate) fn lossy_decode(b: &[u8]) -> (r: Vec<u8>)
    ensures
        r@ == lossy_of(b@),
{
    String::from_utf8_lossy(b).into_owned().into_bytes()
}

} // verus!
