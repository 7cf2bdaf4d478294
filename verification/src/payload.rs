//! Binary payloads are held in [`bytes::Bytes`], a cheaply clonable handle to
//! an immutable byte buffer. The verifier cannot look inside a `Bytes`, so the
//! library names what a handle holds and states, without proof, what the few
//! operations it uses do to those contents.

use bytes::Bytes;
use vstd::prelude::*;

verus! {

/// `bytes::Bytes`, made known so that it can stand in fields and signatures.
/// Nothing of its inside is visible here.
#[verifier::external_type_specification]
#[verifier::external_body]
pub struct ExBytes(bytes::Bytes);

/// The bytes that a handle holds, in order.
pub uninterp spec fn contents(b: Bytes) -> Seq<u8>;

/// `Bytes::copy_from_slice` copies the slice into a fresh buffer: the new
/// handle holds exactly the bytes of `data`.
pub assume_specification[ Bytes::copy_from_slice ](data: &[u8]) -> (b: Bytes)
    ensures
        contents(b) == data@,
;

/// `Bytes::len` is the number of bytes held.
pub assume_specification[ Bytes::len ](b: &Bytes) -> (n: usize)
    ensures
        n == contents(*b).len(),
;

/// `<Bytes as AsRef<[u8]>>::as_ref` borrows the held bytes as a slice.
pub assume_specification<'a>[ <Bytes as AsRef<[u8]>>::as_ref ](b: &'a Bytes) -> (s: &'a [u8])
    ensures
        s@ == contents(*b),
;

/// `<Bytes as Clone>::clone` makes a second handle to the same buffer: it
/// holds the same bytes.
pub assume_specification[ <Bytes as Clone>::clone ](b: &Bytes) -> (c: Bytes)
    ensures
        contents(c) == contents(*b),
;

} // verus!
