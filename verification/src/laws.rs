//! The codec's laws, stated once over the specification functions the
//! contracts are written in.

use vstd::prelude::*;

use crate::codec::{Decode, Encode};
use crate::config::Configuration;
use crate::de::{spec_initial_budget, Decoder};
use crate::wire::prefix_of;

verus! {

/// Determinism: what a value encodes to is a function of the value and
/// the configuration alone. `Encode::encode` appends exactly `enc`, so
/// encoding the same value twice with the same configuration yields
/// identical byte sequences.
pub proof fn lemma_encode_deterministic<T: Encode>(v: &T, c: Configuration, b1: Seq<u8>, b2: Seq<u8>)
    requires
        b1 == v.enc(c),
        b2 == v.enc(c),
    ensures
        b1 == b2,
{
}

/// Truncation safety: a fragment of a value's image that contains any
/// complete image is already the whole image. Hence a strict prefix of
/// a valid encoding contains no complete value, and decoding it can
/// never produce one — which is what `Decode::decode` ensures.
pub proof fn lemma_truncation_safety<T: Decode>(v: &T, w: &T, c: Configuration, p: Seq<u8>)
    requires
        v.wf(),
        w.wf(),
        v.enc(c).len() <= usize::MAX,
        w.enc(c).len() <= usize::MAX,
        prefix_of(w.enc(c), p),
        prefix_of(p, v.enc(c)),
    ensures
        p == v.enc(c),
{
    w.lemma_enc_no_truncation(v, c, p);
}

/// Truncation safety on the borrow path: the same statement over the
/// borrow-path image, from the borrow-path proof obligations.
pub proof fn lemma_borrow_truncation_safety<'de, T: crate::codec::BorrowDecode<'de>>(
    v: &T,
    w: &T,
    c: Configuration,
    p: Seq<u8>,
)
    requires
        v.wf(),
        w.wf(),
        v.borrow_enc(c).len() <= usize::MAX,
        w.borrow_enc(c).len() <= usize::MAX,
        prefix_of(w.borrow_enc(c), p),
        prefix_of(p, v.borrow_enc(c)),
    ensures
        p == v.borrow_enc(c),
{
    w.lemma_borrow_enc_no_truncation(v, c, p);
}

/// Budget conservation: at every point of a decode, the remaining
/// claim budget plus the outstanding claims equals the starting
/// budget, which is the input's length capped by the configured limit.
/// The remaining budget therefore never exceeds the original and, as a
/// natural quantity, never goes negative; over-claiming fails instead
/// of underflowing.
pub proof fn lemma_budget_conservation(d: &Decoder<'_>)
    requires
        d.inv(),
    ensures
        d.budget() + d.claimed() == spec_initial_budget(d.config(), d.input_seq().len()),
        d.budget() <= spec_initial_budget(d.config(), d.input_seq().len()),
        spec_initial_budget(d.config(), d.input_seq().len()) <= d.input_seq().len(),
{
}

} // verus!
