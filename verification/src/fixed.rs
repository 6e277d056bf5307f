//! The fixed-length array container: arity known statically, shared
//! knowledge between encoder and decoder.
//!
//! On the owned decode path the wire carries only the elements — no
//! length prefix, because the arity is not attacker-controlled data.
//! Both paths still claim the container's reservation against the
//! decode budget before element storage is allocated, exactly as a
//! sequence does.
//! The borrow path shares the length-prefixed convention of sequences:
//! it reads a declared length and requires it to equal the arity before
//! any element work begins, failing fast with `ArrayLengthMismatch` on
//! any disagreement. That divergence between the two paths is preserved
//! as observed rather than unified, since collapsing it would change
//! the wire format.

use vstd::prelude::*;

use crate::codec::{lemma_image_pins_candidates, BorrowDecode, Decode, Encode};
use crate::config::Configuration;
use crate::de::Decoder;
use crate::enc::Encoder;
use crate::error::{DecodeError, EncodeError};
use crate::impls::{
    all_wf, borrow_decode_elems, borrow_elems_enc, borrow_seq_need, decode_elems, dv_seq,
    elems_enc, encode_elems, seq_need,
};
use crate::wire::{len_enc, prefix_of, strict_prefix_of};

verus! {

/// A container of exactly `N` elements. `fixed_from_vec` is the only
/// way to build one, so every value holds its arity.
#[derive(Debug, Clone, PartialEq, Eq)]
pub struct FixedArr<T, const N: usize> {
    items: Vec<T>,
}

impl<T: DeepView, const N: usize> DeepView for FixedArr<T, N> {
    type V = Seq<T::V>;

    open spec fn deep_view(&self) -> Seq<T::V> {
        dv_seq(self.elems())
    }
}

impl<T, const N: usize> FixedArr<T, N> {
    /// The elements, in order.
    pub closed spec fn elems(&self) -> Seq<T> {
        self.items@
    }

    /// Read access to the elements.
    pub fn items(&self) -> (r: &Vec<T>)
        ensures
            r@ == self.elems(),
    {
        &self.items
    }

    /// Give the elements up.
    pub fn into_vec(self) -> (r: Vec<T>)
        ensures
            r@ == self.elems(),
    {
        self.items
    }

    /// The statically known arity.
    pub fn arity(&self) -> (r: usize)
        ensures
            r == N,
    {
        N
    }
}

/// Build a fixed array from exactly `N` produced elements; any other
/// count is `ArrayLengthMismatch`, never a silent truncation or pad.
pub fn fixed_from_vec<T, const N: usize>(items: Vec<T>) -> (r: Result<FixedArr<T, N>, DecodeError>)
    ensures
        match r {
            Ok(a) => items@.len() == N && a.elems() == items@,
            Err(e) => items@.len() != N && e == (DecodeError::ArrayLengthMismatch {
                required: N,
                found: items@.len() as usize,
            }),
        },
{
    let found = items.len();
    if found == N {
        Ok(FixedArr { items })
    } else {
        Err(DecodeError::ArrayLengthMismatch { required: N, found })
    }
}

impl<T: Encode, const N: usize> Encode for FixedArr<T, N> {
    open spec fn enc(&self, c: Configuration) -> Seq<u8> {
        elems_enc(self.elems(), c)
    }

    open spec fn wf(&self) -> bool {
        self.elems().len() == N && all_wf(self.elems())
    }

    proof fn lemma_enc_no_confusion(&self, other: &Self, c: Configuration, s: Seq<u8>) {
        crate::impls::lemma_elems_no_confusion(self.elems(), other.elems(), c, s);
    }

    proof fn lemma_enc_no_truncation(&self, other: &Self, c: Configuration, s: Seq<u8>) {
        crate::impls::lemma_elems_no_truncation(self.elems(), other.elems(), c, s);
    }

    fn encode(&self, e: &mut Encoder) -> (r: Result<(), EncodeError>) {
        encode_elems(&self.items, e)
    }
}

impl<T: Decode, const N: usize> Decode for FixedArr<T, N> {
    open spec fn need(&self, c: Configuration) -> nat {
        (N * vstd::layout::size_of::<T>() + seq_need(self.elems(), c)) as nat
    }

    #[verifier::rlimit(60)]
    fn decode<'de>(d: &mut Decoder<'de>) -> (r: Result<Self, DecodeError>) {
        let ghost c = d.config();
        let ghost rest0 = d.rest();
        let ghost b0 = d.budget();
        match d.claim_container_read::<T>(N) {
            Ok(_) => (),
            Err(e) => {
                proof {
                    assert forall|v2: FixedArr<T, N>|
                        v2.wf() && v2.enc(c).len() <= usize::MAX && #[trigger] prefix_of(
                            v2.enc(c),
                            rest0,
                        ) && v2.need(c) <= b0 implies false by {
                        assert(N * vstd::layout::size_of::<T>() <= v2.need(c));
                    };
                    assert forall|v2: FixedArr<T, N>|
                        v2.wf() && v2.enc(c).len() <= usize::MAX && #[trigger] strict_prefix_of(
                            rest0,
                            v2.enc(c),
                        ) && v2.need(c) <= b0 implies false by {
                        assert(N * vstd::layout::size_of::<T>() <= v2.need(c));
                    };
                }
                return Err(e);
            },
        }
        let ghost d_pre = *d;
        match decode_elems::<T>(d, N) {
            Ok(out) => {
                match fixed_from_vec::<T, N>(out) {
                    Ok(w) => {
                        proof {
                            assert(w.enc(c) == elems_enc(w.elems(), c));
                            assert(rest0.len() <= usize::MAX);
                            lemma_image_pins_candidates(&w, c, rest0);
                            assert forall|v2: FixedArr<T, N>|
                                v2.wf() && v2.enc(c).len() <= usize::MAX
                                    && #[trigger] strict_prefix_of(rest0, v2.enc(c))
                                implies false by {
                                w.lemma_enc_no_truncation(&v2, c, rest0);
                            };
                        }
                        Ok(w)
                    },
                    Err(e) => Err(e),
                }
            },
            Err(e) => {
                proof {
                    assert forall|v2: FixedArr<T, N>|
                        v2.wf() && v2.enc(c).len() <= usize::MAX && #[trigger] prefix_of(
                            v2.enc(c),
                            rest0,
                        ) && v2.need(c) <= b0 implies false by {
                        assert(v2.elems().len() == N);
                        assert(all_wf(v2.elems()));
                        assert(elems_enc(v2.elems(), d_pre.config()).len() <= usize::MAX);
                        assert(d_pre.rest() == rest0);
                        assert(prefix_of(elems_enc(v2.elems(), d_pre.config()), d_pre.rest()));
                        assert(seq_need(v2.elems(), d_pre.config()) <= d_pre.budget());
                    };
                    assert forall|v2: FixedArr<T, N>|
                        v2.wf() && v2.enc(c).len() <= usize::MAX && #[trigger] strict_prefix_of(
                            rest0,
                            v2.enc(c),
                        ) && v2.need(c) <= b0 implies e == DecodeError::UnexpectedEnd by {
                        assert(v2.elems().len() == N);
                        assert(all_wf(v2.elems()));
                        assert(elems_enc(v2.elems(), d_pre.config()).len() <= usize::MAX);
                        assert(d_pre.rest() == rest0);
                        assert(strict_prefix_of(d_pre.rest(), elems_enc(v2.elems(), d_pre.config())));
                        assert(seq_need(v2.elems(), d_pre.config()) <= d_pre.budget());
                    };
                }
                Err(e)
            },
        }
    }
}


impl<'de, T: BorrowDecode<'de>, const N: usize> BorrowDecode<'de> for FixedArr<T, N> {
    open spec fn borrow_enc(&self, c: Configuration) -> Seq<u8> {
        len_enc(c, N as nat) + borrow_elems_enc(self.elems(), c)
    }

    open spec fn borrow_need(&self, c: Configuration) -> nat {
        (N * vstd::layout::size_of::<T>() + borrow_seq_need(self.elems(), c)) as nat
    }

    proof fn lemma_borrow_enc_no_confusion(&self, other: &Self, c: Configuration, s: Seq<u8>) {
        crate::wire::lemma_prefix_concat_split(
            len_enc(c, N as nat),
            borrow_elems_enc(self.elems(), c),
            s,
        );
        crate::wire::lemma_prefix_concat_split(
            len_enc(c, N as nat),
            borrow_elems_enc(other.elems(), c),
            s,
        );
        crate::impls::lemma_borrow_elems_no_confusion(
            self.elems(),
            other.elems(),
            c,
            s.skip(len_enc(c, N as nat).len() as int),
        );
        assert(self.borrow_enc(c) =~= other.borrow_enc(c));
    }

    proof fn lemma_borrow_enc_no_truncation(&self, other: &Self, c: Configuration, s: Seq<u8>) {
        broadcast use crate::wire::lemma_prefix_refl, crate::wire::lemma_prefix_index;

        let lb = len_enc(c, N as nat);
        crate::wire::lemma_prefix_concat_split(lb, borrow_elems_enc(self.elems(), c), s);
        crate::wire::lemma_prefix_transitive(lb, s, other.borrow_enc(c));
        crate::wire::lemma_prefix_concat_split(
            lb,
            borrow_elems_enc(other.elems(), c),
            other.borrow_enc(c),
        );
        let k = lb.len() as int;
        assert(prefix_of(s.skip(k), other.borrow_enc(c).skip(k))) by {
            assert(s.skip(k) =~= other.borrow_enc(c).skip(k).take(s.len() - k));
        };
        assert(other.borrow_enc(c).skip(k) =~= borrow_elems_enc(other.elems(), c));
        crate::impls::lemma_borrow_elems_no_truncation(self.elems(), other.elems(), c, s.skip(k));
        assert(s =~= other.borrow_enc(c)) by {
            assert forall|i: int| 0 <= i < s.len() implies s[i] == other.borrow_enc(c)[i] by {
                if i >= k {
                    assert(s[i] == s.skip(k)[i - k]);
                    assert(other.borrow_enc(c)[i] == other.borrow_enc(c).skip(k)[i - k]);
                }
            };
        };
    }

    /// The borrow path reads a declared length the way a sequence
    /// does, and requires it to equal the arity before any element is
    /// touched: any other declared length is `ArrayLengthMismatch`,
    /// naming the required arity and the length found. With the arity
    /// confirmed it reserves the container's footprint — a reservation
    /// the budget cannot cover is `LimitExceeded`, before any element
    /// work — and decodes exactly `N` elements.
    fn borrow_decode(d: &mut Decoder<'de>) -> (r: Result<Self, DecodeError>)
        ensures
            forall|m: nat|
                m <= usize::MAX && m != N && #[trigger] crate::wire::prefix_of(
                    len_enc(old(d).config(), m),
                    old(d).rest(),
                ) ==> r == Err::<FixedArr<T, N>, DecodeError>(DecodeError::ArrayLengthMismatch {
                    required: N as usize,
                    found: m as usize,
                }),
            (crate::wire::prefix_of(len_enc(old(d).config(), N as nat), old(d).rest()) && N
                * vstd::layout::size_of::<T>() > old(d).budget()) ==> r == Err::<
                FixedArr<T, N>,
                DecodeError,
            >(DecodeError::LimitExceeded),
    {
        let ghost c = d.config();
        let ghost rest0 = d.rest();
        let ghost b0 = d.budget();
        proof {
            crate::wire::lemma_usize_fits_u64();
            assert forall|v2: FixedArr<T, N>|
                #![trigger prefix_of(v2.borrow_enc(c), rest0)]
                #![trigger strict_prefix_of(rest0, v2.borrow_enc(c))]
                v2.wf() && v2.borrow_enc(c).len() <= usize::MAX && (prefix_of(
                    v2.borrow_enc(c),
                    rest0,
                ) || strict_prefix_of(rest0, v2.borrow_enc(c))) implies (N
                * vstd::layout::size_of::<T>() <= v2.borrow_need(c) && (prefix_of(
                v2.borrow_enc(c),
                rest0,
            ) ==> prefix_of(len_enc(c, N as nat), rest0)) && (strict_prefix_of(
                rest0,
                v2.borrow_enc(c),
            ) ==> (strict_prefix_of(rest0, len_enc(c, N as nat)) || prefix_of(
                len_enc(c, N as nat),
                rest0,
            )))) by {
                let lb = len_enc(c, N as nat);
                crate::wire::lemma_prefix_refl(v2.borrow_enc(c));
                crate::wire::lemma_prefix_concat_split(
                    lb,
                    borrow_elems_enc(v2.elems(), c),
                    v2.borrow_enc(c),
                );
                if prefix_of(v2.borrow_enc(c), rest0) {
                    crate::wire::lemma_prefix_concat_split(
                        lb,
                        borrow_elems_enc(v2.elems(), c),
                        rest0,
                    );
                } else {
                    if rest0.len() < lb.len() {
                        crate::wire::lemma_prefix_common(rest0, lb, v2.borrow_enc(c));
                    } else {
                        crate::wire::lemma_prefix_common(lb, rest0, v2.borrow_enc(c));
                    }
                }
            };
        }
        let len = match d.decode_len() {
            Ok(n) => n,
            Err(e) => {
                proof {
                    assert forall|v2: FixedArr<T, N>|
                        v2.wf() && v2.borrow_enc(c).len() <= usize::MAX && #[trigger] prefix_of(
                            v2.borrow_enc(c),
                            rest0,
                        ) implies false by {};
                    assert forall|v2: FixedArr<T, N>|
                        v2.wf() && v2.borrow_enc(c).len() <= usize::MAX
                            && #[trigger] strict_prefix_of(rest0, v2.borrow_enc(c))
                        implies e == DecodeError::UnexpectedEnd by {};
                }
                return Err(e);
            },
        };
        if len != N {
            proof {
                assert forall|v2: FixedArr<T, N>|
                    v2.wf() && v2.borrow_enc(c).len() <= usize::MAX && #[trigger] prefix_of(
                        v2.borrow_enc(c),
                        rest0,
                    ) implies false by {};
                assert forall|v2: FixedArr<T, N>|
                    v2.wf() && v2.borrow_enc(c).len() <= usize::MAX && #[trigger] strict_prefix_of(
                        rest0,
                        v2.borrow_enc(c),
                    ) implies false by {};
            }
            return Err(DecodeError::ArrayLengthMismatch { required: N, found: len });
        }
        match d.claim_container_read::<T>(len) {
            Ok(_) => (),
            Err(e) => {
                proof {
                    assert forall|v2: FixedArr<T, N>|
                        v2.wf() && v2.borrow_enc(c).len() <= usize::MAX && #[trigger] prefix_of(
                            v2.borrow_enc(c),
                            rest0,
                        ) && v2.borrow_need(c) <= b0 implies false by {};
                    assert forall|v2: FixedArr<T, N>|
                        v2.wf() && v2.borrow_enc(c).len() <= usize::MAX
                            && #[trigger] strict_prefix_of(rest0, v2.borrow_enc(c))
                            && v2.borrow_need(c) <= b0 implies false by {};
                }
                return Err(e);
            },
        }
        let ghost rest1 = d.rest();
        let ghost b1 = d.budget();
        proof {
            assert(rest1 =~= rest0.skip(len_enc(c, N as nat).len() as int));
            assert forall|v2: FixedArr<T, N>|
                v2.wf() && v2.borrow_enc(c).len() <= usize::MAX && #[trigger] prefix_of(
                    v2.borrow_enc(c),
                    rest0,
                ) implies (prefix_of(borrow_elems_enc(v2.elems(), c), rest1)
                && borrow_seq_need(v2.elems(), c) <= v2.borrow_need(c) - N
                * vstd::layout::size_of::<T>()) by {
                crate::wire::lemma_prefix_concat_split(
                    len_enc(c, N as nat),
                    borrow_elems_enc(v2.elems(), c),
                    rest0,
                );
            };
            assert forall|v2: FixedArr<T, N>|
                v2.wf() && v2.borrow_enc(c).len() <= usize::MAX && #[trigger] strict_prefix_of(
                    rest0,
                    v2.borrow_enc(c),
                ) implies strict_prefix_of(rest1, borrow_elems_enc(v2.elems(), c)) by {
                assert(prefix_of(len_enc(c, N as nat), rest0));
                let k = len_enc(c, N as nat).len() as int;
                assert(prefix_of(rest1, v2.borrow_enc(c).skip(k))) by {
                    broadcast use crate::wire::lemma_prefix_index;

                    assert(rest1 =~= v2.borrow_enc(c).skip(k).take(rest0.len() - k));
                };
                assert(v2.borrow_enc(c).skip(k) =~= borrow_elems_enc(v2.elems(), c));
            };
        }
        let ghost d_pre = *d;
        let out = match borrow_decode_elems::<T>(d, len) {
            Ok(out) => out,
            Err(e) => {
                proof {
                    assert forall|v2: FixedArr<T, N>|
                        v2.wf() && v2.borrow_enc(c).len() <= usize::MAX && #[trigger] prefix_of(
                            v2.borrow_enc(c),
                            rest0,
                        ) && v2.borrow_need(c) <= b0 implies false by {
                        assert(v2.elems().len() == N);
                        assert(all_wf(v2.elems()));
                        assert(borrow_elems_enc(v2.elems(), d_pre.config()).len() <= usize::MAX);
                        assert(d_pre.rest() == rest1);
                        assert(prefix_of(
                            borrow_elems_enc(v2.elems(), d_pre.config()),
                            d_pre.rest(),
                        ));
                        assert(borrow_seq_need(v2.elems(), d_pre.config()) <= d_pre.budget());
                    };
                    assert forall|v2: FixedArr<T, N>|
                        v2.wf() && v2.borrow_enc(c).len() <= usize::MAX
                            && #[trigger] strict_prefix_of(rest0, v2.borrow_enc(c))
                            && v2.borrow_need(c) <= b0 implies e == DecodeError::UnexpectedEnd by {
                        assert(v2.elems().len() == N);
                        assert(all_wf(v2.elems()));
                        assert(borrow_elems_enc(v2.elems(), d_pre.config()).len() <= usize::MAX);
                        assert(d_pre.rest() == rest1);
                        assert(strict_prefix_of(
                            d_pre.rest(),
                            borrow_elems_enc(v2.elems(), d_pre.config()),
                        ));
                        assert(borrow_seq_need(v2.elems(), d_pre.config()) <= d_pre.budget());
                    };
                }
                return Err(e);
            },
        };
        match fixed_from_vec::<T, N>(out) {
            Ok(w) => {
                proof {
                    crate::wire::lemma_prefix_concat_join(
                        len_enc(c, N as nat),
                        borrow_elems_enc(w.elems(), c),
                        rest0,
                    );
                    assert(w.borrow_enc(c) == len_enc(c, N as nat) + borrow_elems_enc(
                        w.elems(),
                        c,
                    ));
                    assert(rest0.len() <= usize::MAX);
                    assert forall|v2: FixedArr<T, N>|
                        v2.wf() && v2.borrow_enc(c).len() <= usize::MAX && #[trigger] prefix_of(
                            v2.borrow_enc(c),
                            rest0,
                        ) implies (w.deep_view() == v2.deep_view() && w.borrow_enc(c)
                        == v2.borrow_enc(c)) by {
                        w.lemma_borrow_enc_no_confusion(&v2, c, rest0);
                    };
                    assert forall|v2: FixedArr<T, N>|
                        v2.wf() && v2.borrow_enc(c).len() <= usize::MAX
                            && #[trigger] strict_prefix_of(rest0, v2.borrow_enc(c))
                        implies false by {
                        w.lemma_borrow_enc_no_truncation(&v2, c, rest0);
                    };
                }
                Ok(w)
            },
            Err(e) => Err(e),
        }
    }
}

} // verus!
