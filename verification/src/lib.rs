//! A compact, schema-less binary serialization codec.
//!
//! Values are converted to a byte sequence and back without type tags or
//! field names. Decoding is hardened against untrusted input: every
//! length prefix read from the stream is charged against a claimed-bytes
//! budget before any allocation takes place, so a malicious stream can
//! never force more memory to be reserved than the input itself (or a
//! configured limit) justifies.

pub mod codec;
pub mod config;
pub mod de;
pub mod enc;
pub mod error;
pub mod fixed;
pub mod impls;
pub mod laws;
pub mod wire;

use vstd::prelude::*;

use crate::codec::{BorrowDecode, Decode, Encode};
use crate::config::Configuration;
use crate::de::{spec_initial_budget, Decoder};
use crate::enc::Encoder;
use crate::error::{DecodeError, EncodeError};
use crate::wire::{prefix_of, strict_prefix_of};

verus! {

/// Encode one value under the given configuration into a fresh buffer.
/// The buffer holds exactly the value's wire image: encoding the same
/// value twice with the same configuration yields identical bytes.
pub fn encode_to_vec<T: Encode>(v: &T, c: Configuration) -> (r: Result<Vec<u8>, EncodeError>)
    requires
        v.wf(),
    ensures
        r is Ok,
        match r {
            Ok(bytes) => bytes@ == v.enc(c),
            Err(_) => false,
        },
{
    let mut e = Encoder::new(c);
    match v.encode(&mut e) {
        Ok(_) => (),
        Err(er) => {
            return Err(er);
        },
    }
    proof {
        assert(Seq::<u8>::empty() + v.enc(c) =~= v.enc(c));
    }
    Ok(e.into_vec())
}

/// Decode one value from the front of the input under the given
/// configuration. Bytes past the value's image are left unread.
///
/// The contract is the round-trip guarantee: any well-formed value
/// whose image begins the input — in particular, the value that was
/// encoded to produce it — is the value returned, and it is returned
/// whenever the claim budget (the input's length, capped by the
/// configured limit) covers that value's worst-case reservation. A
/// strict prefix of an image never yields a value.
pub fn decode_from_slice<'de, T: Decode>(bytes: &'de [u8], c: Configuration) -> (r: Result<
    T,
    DecodeError,
>)
    ensures
        match r {
            Ok(w) => w.wf() && prefix_of(w.enc(c), bytes@),
            Err(_) => true,
        },
        forall|v: T|
            v.wf() && v.enc(c).len() <= usize::MAX && #[trigger] prefix_of(v.enc(c), bytes@)
                ==> match r {
                Ok(w) => w.deep_view() == v.deep_view() && w.enc(c) == v.enc(c),
                Err(_) => true,
            },
        forall|v: T|
            v.wf() && v.enc(c).len() <= usize::MAX && #[trigger] strict_prefix_of(
                bytes@,
                v.enc(c),
            ) ==> !(r is Ok),
        forall|v: T|
            v.wf() && v.enc(c).len() <= usize::MAX && #[trigger] prefix_of(v.enc(c), bytes@)
                && v.need(c) <= spec_initial_budget(c, bytes@.len()) ==> r is Ok,
{
    let mut d = Decoder::new(bytes, c);
    proof {
        assert(d.rest() =~= bytes@);
    }
    T::decode(&mut d)
}

/// Decode one value from the front of the input, borrowing from the
/// input where the type supports it: the returned value may reference
/// the input buffer and is tied to its lifetime, with no copy made.
///
/// The contract mirrors [`decode_from_slice`] over the borrow-path
/// image: unambiguity, truncation safety with the exact
/// `UnexpectedEnd` kind under a covered budget, and success owed
/// whenever some value's borrow image begins the input and the budget
/// covers that value's borrow need.
pub fn borrow_decode_from_slice<'de, T: BorrowDecode<'de>>(bytes: &'de [u8], c: Configuration) -> (
    r: Result<T, DecodeError>)
    ensures
        match r {
            Ok(w) => w.wf() && prefix_of(w.borrow_enc(c), bytes@),
            Err(_) => true,
        },
        forall|v: T|
            v.wf() && v.borrow_enc(c).len() <= usize::MAX && #[trigger] prefix_of(
                v.borrow_enc(c),
                bytes@,
            ) ==> match r {
                Ok(w) => w.deep_view() == v.deep_view() && w.borrow_enc(c) == v.borrow_enc(c),
                Err(_) => true,
            },
        forall|v: T|
            v.wf() && v.borrow_enc(c).len() <= usize::MAX && #[trigger] strict_prefix_of(
                bytes@,
                v.borrow_enc(c),
            ) ==> !(r is Ok),
        forall|v: T|
            v.wf() && v.borrow_enc(c).len() <= usize::MAX && #[trigger] prefix_of(
                v.borrow_enc(c),
                bytes@,
            ) && v.borrow_need(c) <= spec_initial_budget(c, bytes@.len()) ==> r is Ok,
        forall|v: T|
            v.wf() && v.borrow_enc(c).len() <= usize::MAX && #[trigger] strict_prefix_of(
                bytes@,
                v.borrow_enc(c),
            ) && v.borrow_need(c) <= spec_initial_budget(c, bytes@.len()) ==> r == Err::<
                T,
                DecodeError,
            >(DecodeError::UnexpectedEnd),
{
    let mut d = Decoder::new(bytes, c);
    proof {
        assert(d.rest() =~= bytes@);
    }
    T::borrow_decode(&mut d)
}

} // verus!
