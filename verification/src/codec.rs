//! The Encode / Decode / BorrowDecode capability contract: what a type
//! implements to participate in the codec. Implementations are
//! stateless; they read or write through the encoder or decoder they
//! are given and retain nothing.
//!
//! Every implementation carries, besides the executable conversion,
//! a specification-level wire image (`enc`) and two proof obligations
//! about it: no two values' images can begin the same stream, and an
//! image never hides inside a truncation of another. Those two facts
//! are what make the decoding contracts below pin the decoded value
//! down uniquely and make truncation detectable, for every type at
//! once.

use vstd::prelude::*;

use crate::config::Configuration;
use crate::de::Decoder;
use crate::enc::Encoder;
use crate::error::{DecodeError, EncodeError};
use crate::wire::{prefix_of, strict_prefix_of};

verus! {

/// A value that can be written to the wire.
pub trait Encode: DeepView {
    /// The exact wire image of this value under configuration `c`.
    spec fn enc(&self, c: Configuration) -> Seq<u8>;

    /// Whether the value is one this codec traffics in: every container
    /// level holds at most an address space worth of elements. Every
    /// value built by executable code is well formed; the condition
    /// fences off only the phantom values specification-level
    /// quantifiers could otherwise range over.
    spec fn wf(&self) -> bool;

    /// No confusion: two well-formed values whose images begin the same
    /// byte stream have the same image and the same contents.
    proof fn lemma_enc_no_confusion(&self, other: &Self, c: Configuration, s: Seq<u8>)
        requires
            self.wf(),
            other.wf(),
            self.enc(c).len() <= usize::MAX,
            other.enc(c).len() <= usize::MAX,
            prefix_of(self.enc(c), s),
            prefix_of(other.enc(c), s),
        ensures
            self.enc(c) == other.enc(c),
            self.deep_view() == other.deep_view(),
    ;

    /// No truncated confusion: a stream fragment that contains one
    /// whole image and sits inside another image must be that whole
    /// image. Equivalently, a strict prefix of an image never contains
    /// a complete image.
    proof fn lemma_enc_no_truncation(&self, other: &Self, c: Configuration, s: Seq<u8>)
        requires
            self.wf(),
            other.wf(),
            self.enc(c).len() <= usize::MAX,
            other.enc(c).len() <= usize::MAX,
            prefix_of(self.enc(c), s),
            prefix_of(s, other.enc(c)),
        ensures
            s == other.enc(c),
    ;

    /// Write this value's image to the encoder. Appends exactly
    /// `self.enc(e.config())` and cannot fail for the types of this
    /// crate: an in-memory sink accepts every byte.
    fn encode(&self, e: &mut Encoder) -> (r: Result<(), EncodeError>)
        requires
            self.wf(),
        ensures
            r is Ok,
            final(e).config() == old(e).config(),
            final(e).bytes() == old(e).bytes() + self.enc(old(e).config()),
    ;
}

/// A value that can be read back from the wire into an owned form.
pub trait Decode: Encode + Sized {
    /// A budget bound sufficient for this value's decode: a decoder
    /// holding at least this much cannot fail a claim while reading
    /// this value's image. (Container bounds sum their elements', which
    /// may over-approximate the true peak of outstanding claims.)
    spec fn need(&self, c: Configuration) -> nat;

    /// Read one value. The contract, clause by clause:
    /// on success the consumed bytes are exactly the returned value's
    /// image and the budget is fully restored (claims are matched by
    /// unclaims); any well-formed value whose image begins the input is
    /// the value returned (decoding is unambiguous); if the input is a
    /// strict prefix of some value's image, no value is produced
    /// (truncation is never mistaken for data), and when the budget
    /// covers that value's need the error is exactly `UnexpectedEnd`;
    /// and success is owed whenever some value's image begins the
    /// input and the budget covers that value's need.
    fn decode<'de>(d: &mut Decoder<'de>) -> (r: Result<Self, DecodeError>)
        requires
            old(d).inv(),
        ensures
            final(d).inv(),
            final(d).config() == old(d).config(),
            final(d).input_seq() == old(d).input_seq(),
            old(d).pos() <= final(d).pos() <= final(d).input_seq().len(),
            match r {
                Ok(w) => {
                    &&& w.wf()
                    &&& prefix_of(w.enc(old(d).config()), old(d).rest())
                    &&& final(d).pos() == old(d).pos() + w.enc(old(d).config()).len()
                    &&& final(d).budget() == old(d).budget()
                    &&& final(d).claimed() == old(d).claimed()
                },
                Err(_) => true,
            },
            forall|v: Self|
                v.wf() && v.enc(old(d).config()).len() <= usize::MAX && #[trigger] prefix_of(
                    v.enc(old(d).config()),
                    old(d).rest(),
                ) ==> match r {
                    Ok(w) => w.deep_view() == v.deep_view() && w.enc(old(d).config()) == v.enc(
                        old(d).config(),
                    ),
                    Err(_) => true,
                },
            forall|v: Self|
                v.wf() && v.enc(old(d).config()).len() <= usize::MAX && #[trigger] strict_prefix_of(
                    old(d).rest(),
                    v.enc(old(d).config()),
                ) ==> !(r is Ok),
            forall|v: Self|
                v.wf() && v.enc(old(d).config()).len() <= usize::MAX && #[trigger] prefix_of(
                    v.enc(old(d).config()),
                    old(d).rest(),
                ) && v.need(old(d).config()) <= old(d).budget() ==> r is Ok,
            forall|v: Self|
                v.wf() && v.enc(old(d).config()).len() <= usize::MAX && #[trigger] strict_prefix_of(
                    old(d).rest(),
                    v.enc(old(d).config()),
                ) && v.need(old(d).config()) <= old(d).budget() ==> r == Err::<Self, DecodeError>(
                    DecodeError::UnexpectedEnd,
                ),
    ;
}

/// A value that can be read back from the wire while borrowing from
/// the decoder's input instead of copying out of it. Types without a
/// zero-copy representation fall back to behaving like [`Decode`].
pub trait BorrowDecode<'de>: Encode + Sized {
    /// The wire image this value is read from on the borrow path. For
    /// every type of this crate but the fixed-length array this is the
    /// image `enc` that `encode` writes; the fixed array's borrow path
    /// shares the length-prefixed convention of sequences, and that
    /// divergence is preserved as observed rather than unified.
    spec fn borrow_enc(&self, c: Configuration) -> Seq<u8>;

    /// A budget bound sufficient for this value's borrow decode, as
    /// [`Decode::need`] is for the owned path.
    spec fn borrow_need(&self, c: Configuration) -> nat;

    /// No confusion on the borrow path: two well-formed values whose
    /// borrow images begin the same byte stream have the same image
    /// and the same contents.
    proof fn lemma_borrow_enc_no_confusion(&self, other: &Self, c: Configuration, s: Seq<u8>)
        requires
            self.wf(),
            other.wf(),
            self.borrow_enc(c).len() <= usize::MAX,
            other.borrow_enc(c).len() <= usize::MAX,
            prefix_of(self.borrow_enc(c), s),
            prefix_of(other.borrow_enc(c), s),
        ensures
            self.borrow_enc(c) == other.borrow_enc(c),
            self.deep_view() == other.deep_view(),
    ;

    /// No truncated confusion on the borrow path: a stream fragment
    /// that contains one whole borrow image and sits inside another
    /// must be that whole image.
    proof fn lemma_borrow_enc_no_truncation(&self, other: &Self, c: Configuration, s: Seq<u8>)
        requires
            self.wf(),
            other.wf(),
            self.borrow_enc(c).len() <= usize::MAX,
            other.borrow_enc(c).len() <= usize::MAX,
            prefix_of(self.borrow_enc(c), s),
            prefix_of(s, other.borrow_enc(c)),
        ensures
            s == other.borrow_enc(c),
    ;

    /// Read one value, borrowing where possible. The contract mirrors
    /// [`Decode::decode`], clause for clause, over the borrow-path
    /// image: exact consumption and a restored budget on success,
    /// unambiguity, truncation safety with the exact `UnexpectedEnd`
    /// kind under a covered budget, and success owed whenever some
    /// value's borrow image begins the input and the budget covers
    /// that value's borrow need.
    fn borrow_decode(d: &mut Decoder<'de>) -> (r: Result<Self, DecodeError>)
        requires
            old(d).inv(),
        ensures
            final(d).inv(),
            final(d).config() == old(d).config(),
            final(d).input_seq() == old(d).input_seq(),
            old(d).pos() <= final(d).pos() <= final(d).input_seq().len(),
            match r {
                Ok(w) => {
                    &&& w.wf()
                    &&& prefix_of(w.borrow_enc(old(d).config()), old(d).rest())
                    &&& final(d).pos() == old(d).pos() + w.borrow_enc(old(d).config()).len()
                    &&& final(d).budget() == old(d).budget()
                    &&& final(d).claimed() == old(d).claimed()
                },
                Err(_) => true,
            },
            forall|v: Self|
                v.wf() && v.borrow_enc(old(d).config()).len() <= usize::MAX && #[trigger] prefix_of(
                    v.borrow_enc(old(d).config()),
                    old(d).rest(),
                ) ==> match r {
                    Ok(w) => w.deep_view() == v.deep_view() && w.borrow_enc(old(d).config())
                        == v.borrow_enc(old(d).config()),
                    Err(_) => true,
                },
            forall|v: Self|
                v.wf() && v.borrow_enc(old(d).config()).len() <= usize::MAX
                    && #[trigger] strict_prefix_of(old(d).rest(), v.borrow_enc(old(d).config()))
                    ==> !(r is Ok),
            forall|v: Self|
                v.wf() && v.borrow_enc(old(d).config()).len() <= usize::MAX && #[trigger] prefix_of(
                    v.borrow_enc(old(d).config()),
                    old(d).rest(),
                ) && v.borrow_need(old(d).config()) <= old(d).budget() ==> r is Ok,
            forall|v: Self|
                v.wf() && v.borrow_enc(old(d).config()).len() <= usize::MAX
                    && #[trigger] strict_prefix_of(old(d).rest(), v.borrow_enc(old(d).config()))
                    && v.borrow_need(old(d).config()) <= old(d).budget() ==> r == Err::<
                    Self,
                    DecodeError,
                >(DecodeError::UnexpectedEnd),
    ;
}


/// What every successful decode's two uniqueness clauses follow from:
/// once the consumed bytes are known to be the returned value's image,
/// the two per-type image facts pin every candidate down.
pub proof fn lemma_image_pins_candidates<T: Encode>(w: &T, c: Configuration, rest: Seq<u8>)
    requires
        w.wf(),
        rest.len() <= usize::MAX,
        prefix_of(w.enc(c), rest),
    ensures
        forall|v: T|
            v.wf() && v.enc(c).len() <= usize::MAX && #[trigger] prefix_of(v.enc(c), rest)
                ==> w.deep_view() == v.deep_view() && w.enc(c) == v.enc(c),
        forall|v: T|
            v.wf() && v.enc(c).len() <= usize::MAX && #[trigger] prefix_of(rest, v.enc(c)) ==> rest
                == v.enc(c),
{
    assert forall|v: T|
        v.wf() && v.enc(c).len() <= usize::MAX && #[trigger] prefix_of(v.enc(c), rest) implies (
    w.deep_view() == v.deep_view() && w.enc(c) == v.enc(c)) by {
        w.lemma_enc_no_confusion(&v, c, rest);
    };
    assert forall|v: T|
        v.wf() && v.enc(c).len() <= usize::MAX && #[trigger] prefix_of(rest, v.enc(c)) implies rest
        == v.enc(c) by {
        w.lemma_enc_no_truncation(&v, c, rest);
    };
}

} // verus!
