//! The decoder: a cursor over an untrusted input byte sequence. It
//! tracks the remaining readable bytes and a claimed-bytes budget that
//! bounds speculative allocation: a length prefix must be claimed
//! against the budget before storage for it may be allocated, and the
//! per-element reservation is unclaimed again as each element is about
//! to be decoded for real. The budget is a conserved quantity: remaining
//! budget plus outstanding claims always equals the starting budget,
//! which never exceeds the input's own length (or the configured limit,
//! whichever is smaller).
//!
//! Because the cursor borrows its input for a lifetime, it is also the
//! borrow-decoding capability: [`Decoder::take_bytes`] hands out
//! sub-slices of the original input that outlive the decoder itself.

use vstd::prelude::*;

use crate::config::{Configuration, SizeLimit};
use crate::error::DecodeError;
use crate::wire::{
    len_enc, lemma_le_bytes_le_val, lemma_le_val_bound, pow256, prefix_of, strict_prefix_of,
    u32_enc, u64_enc, uint_bytes, varint_bytes,
};

verus! {

/// What the budget starts at: the input length, capped by the
/// configured limit.
pub open spec fn spec_initial_budget(c: Configuration, input_len: nat) -> nat {
    match c.size_limit {
        SizeLimit::Unlimited => input_len,
        SizeLimit::Bounded(k) => {
            if k < input_len {
                k as nat
            } else {
                input_len
            }
        },
    }
}

/// A cursor over a borrowed input slice, with the claimed-bytes budget.
/// Created per decode call; exclusively owned by that call.
pub struct Decoder<'de> {
    input: &'de [u8],
    pos: usize,
    budget: usize,
    claimed: usize,
    cfg: Configuration,
}

impl<'de> Decoder<'de> {
    /// The whole input.
    pub closed spec fn input_seq(&self) -> Seq<u8> {
        self.input@
    }

    /// The read position.
    pub closed spec fn pos(&self) -> nat {
        self.pos as nat
    }

    /// The remaining claim budget.
    pub closed spec fn budget(&self) -> nat {
        self.budget as nat
    }

    /// The outstanding (not yet unclaimed) reservations.
    pub closed spec fn claimed(&self) -> nat {
        self.claimed as nat
    }

    pub closed spec fn config(&self) -> Configuration {
        self.cfg
    }

    /// The bytes not yet consumed.
    pub open spec fn rest(&self) -> Seq<u8> {
        self.input_seq().skip(self.pos() as int)
    }

    /// The conservation law: the cursor is in bounds, and remaining
    /// budget plus outstanding claims equals the starting budget.
    pub open spec fn inv(&self) -> bool {
        &&& self.input_seq().len() <= usize::MAX
        &&& self.pos() <= self.input_seq().len()
        &&& self.budget() + self.claimed() == spec_initial_budget(
            self.config(),
            self.input_seq().len(),
        )
    }

    pub fn new(input: &'de [u8], cfg: Configuration) -> (d: Decoder<'de>)
        ensures
            d.inv(),
            d.input_seq() == input@,
            d.config() == cfg,
            d.pos() == 0,
            d.claimed() == 0,
            d.budget() == spec_initial_budget(cfg, input@.len()),
    {
        let n = input.len();
        let budget = match cfg.size_limit {
            SizeLimit::Unlimited => n,
            SizeLimit::Bounded(k) => {
                if k < n {
                    k
                } else {
                    n
                }
            },
        };
        Decoder { input, pos: 0, budget, claimed: 0, cfg }
    }

    /// Reserve `amount` bytes of the budget, failing with
    /// `LimitExceeded` (and reserving nothing) if the remaining budget
    /// cannot cover it.
    pub fn claim_bytes_read(&mut self, amount: usize) -> (r: Result<(), DecodeError>)
        requires
            old(self).inv(),
        ensures
            final(self).inv(),
            final(self).config() == old(self).config(),
            final(self).input_seq() == old(self).input_seq(),
            final(self).pos() == old(self).pos(),
            match r {
                Ok(_) => {
                    &&& amount <= old(self).budget()
                    &&& final(self).budget() == old(self).budget() - amount
                    &&& final(self).claimed() == old(self).claimed() + amount
                },
                Err(e) => {
                    &&& e == DecodeError::LimitExceeded
                    &&& amount > old(self).budget()
                    &&& *final(self) == *old(self)
                },
            },
    {
        if amount <= self.budget {
            self.budget = self.budget - amount;
            self.claimed = self.claimed + amount;
            Ok(())
        } else {
            Err(DecodeError::LimitExceeded)
        }
    }

    /// Reserve room for `len` elements whose in-memory footprint is that
    /// of `T`, before any storage for them is allocated. A declared
    /// length whose reservation cannot be covered — including one so
    /// large the product does not even fit in an address — fails with
    /// `LimitExceeded` before any per-element work happens.
    pub fn claim_container_read<T>(&mut self, len: usize) -> (r: Result<(), DecodeError>)
        requires
            old(self).inv(),
        ensures
            final(self).inv(),
            final(self).config() == old(self).config(),
            final(self).input_seq() == old(self).input_seq(),
            final(self).pos() == old(self).pos(),
            match r {
                Ok(_) => {
                    &&& len * vstd::layout::size_of::<T>() <= old(self).budget()
                    &&& final(self).budget() == old(self).budget() - len * vstd::layout::size_of::<
                        T,
                    >()
                    &&& final(self).claimed() == old(self).claimed() + len * vstd::layout::size_of::<
                        T,
                    >()
                },
                Err(e) => {
                    &&& e == DecodeError::LimitExceeded
                    &&& len * vstd::layout::size_of::<T>() > old(self).budget()
                    &&& *final(self) == *old(self)
                },
            },
    {
        let sz = core::mem::size_of::<T>();
        match len.checked_mul(sz) {
            Some(amount) => self.claim_bytes_read(amount),
            None => {
                proof {
                    assert(len * vstd::layout::size_of::<T>() > usize::MAX);
                }
                Err(DecodeError::LimitExceeded)
            },
        }
    }

    /// Return `amount` bytes of reservation to the budget. Only what is
    /// actually outstanding is returned, so the budget can never grow
    /// beyond what it started at.
    pub fn unclaim_bytes_read(&mut self, amount: usize)
        requires
            old(self).inv(),
        ensures
            final(self).inv(),
            final(self).config() == old(self).config(),
            final(self).input_seq() == old(self).input_seq(),
            final(self).pos() == old(self).pos(),
            final(self).budget() == old(self).budget() + (if amount <= old(self).claimed() {
                amount as nat
            } else {
                old(self).claimed()
            }),
            final(self).claimed() == old(self).claimed() - (if amount <= old(self).claimed() {
                amount as nat
            } else {
                old(self).claimed()
            }),
    {
        let k = if amount <= self.claimed {
            amount
        } else {
            self.claimed
        };
        self.budget = self.budget + k;
        self.claimed = self.claimed - k;
    }

    /// Hand out the next `n` bytes of the original input as a sub-slice
    /// that outlives this decoder, advancing the cursor past them.
    pub fn take_bytes(&mut self, n: usize) -> (r: Result<&'de [u8], DecodeError>)
        requires
            old(self).inv(),
        ensures
            final(self).inv(),
            final(self).config() == old(self).config(),
            final(self).input_seq() == old(self).input_seq(),
            final(self).budget() == old(self).budget(),
            final(self).claimed() == old(self).claimed(),
            match r {
                Ok(b) => {
                    &&& n <= old(self).rest().len()
                    &&& b@ == old(self).rest().take(n as int)
                    &&& final(self).pos() == old(self).pos() + n
                },
                Err(e) => {
                    &&& e == DecodeError::UnexpectedEnd
                    &&& n > old(self).rest().len()
                    &&& *final(self) == *old(self)
                },
            },
    {
        let len = self.input.len();
        if n <= len - self.pos {
            let b = vstd::slice::slice_subrange(self.input, self.pos, self.pos + n);
            proof {
                assert(b@ =~= old(self).rest().take(n as int));
            }
            self.pos = self.pos + n;
            Ok(b)
        } else {
            Err(DecodeError::UnexpectedEnd)
        }
    }

    /// Read a `width`-byte unsigned integer in the configured byte
    /// order.
    pub fn read_uint(&mut self, width: usize) -> (r: Result<u64, DecodeError>)
        requires
            old(self).inv(),
            1 <= width <= 8,
        ensures
            final(self).inv(),
            final(self).config() == old(self).config(),
            final(self).input_seq() == old(self).input_seq(),
            final(self).budget() == old(self).budget(),
            final(self).claimed() == old(self).claimed(),
            match r {
                Ok(v) => {
                    &&& width <= old(self).rest().len()
                    &&& (v as nat) < pow256(width as nat)
                    &&& uint_bytes(old(self).config().endianness, v as nat, width as nat) == old(
                        self,
                    ).rest().take(width as int)
                    &&& final(self).pos() == old(self).pos() + width
                },
                Err(e) => {
                    &&& e == DecodeError::UnexpectedEnd
                    &&& width > old(self).rest().len()
                    &&& *final(self) == *old(self)
                },
            },
    {
        let b = match self.take_bytes(width) {
            Ok(b) => b,
            Err(e) => {
                return Err(e);
            },
        };
        proof {
            broadcast use crate::wire::lemma_pow256_pos;

        }
        let mut acc: u64 = 0;
        match self.cfg.endianness {
            crate::config::Endianness::Little => {
                for k in 0..width
                    invariant
                        width == b@.len(),
                        width <= 8,
                        acc as nat == crate::wire::le_val(b@.skip((width - k) as int)),
                        acc < pow256(k as nat),
                {
                    proof {
                        broadcast use crate::wire::lemma_pow256_pos;

                        lemma_le_val_bound(b@.skip((width - k - 1) as int));
                        assert(b@.skip((width - k - 1) as int).drop_first() =~= b@.skip(
                            (width - k) as int,
                        ));
                        assert(pow256((k + 1) as nat) == 256 * pow256(k as nat));
                        assert(pow256(8) == 0x10000000000000000) by {
                            reveal_with_fuel(pow256, 9);
                        };
                        crate::wire::lemma_pow256_increases((k + 1) as nat, 8);
                    }
                    let byte = *vstd::slice::slice_index_get(b, width - 1 - k);
                    acc = acc * 256 + (byte as u64);
                }
                proof {
                    assert(b@.skip(0) =~= b@);
                    lemma_le_bytes_le_val(b@);
                    lemma_le_val_bound(b@);
                }
            },
            crate::config::Endianness::Big => {
                for k in 0..width
                    invariant
                        width == b@.len(),
                        width <= 8,
                        acc as nat == crate::wire::le_val(b@.take(k as int).reverse()),
                        acc < pow256(k as nat),
                {
                    proof {
                        broadcast use crate::wire::lemma_pow256_pos;

                        lemma_le_val_bound(b@.take(k + 1).reverse());
                        assert(b@.take(k + 1).reverse() =~= seq![b@[k as int]] + b@.take(
                            k as int,
                        ).reverse());
                        assert((seq![b@[k as int]] + b@.take(k as int).reverse()).drop_first()
                            =~= b@.take(k as int).reverse());
                        assert(pow256((k + 1) as nat) == 256 * pow256(k as nat));
                        assert(pow256(8) == 0x10000000000000000) by {
                            reveal_with_fuel(pow256, 9);
                        };
                        crate::wire::lemma_pow256_increases((k + 1) as nat, 8);
                    }
                    let byte = *vstd::slice::slice_index_get(b, k);
                    acc = acc * 256 + (byte as u64);
                }
                proof {
                    assert(b@.take(width as int) =~= b@);
                    lemma_le_bytes_le_val(b@.reverse());
                    lemma_le_val_bound(b@.reverse());
                    assert(uint_bytes(
                        crate::config::Endianness::Big,
                        crate::wire::le_val(b@.reverse()),
                        width as nat,
                    ) =~= b@);
                }
            },
        }
        Ok(acc)
    }

    /// Read a 64-bit unsigned integer under the configured encoding.
    /// Succeeds on, and only on, a stream that begins with the image of
    /// some value; non-canonical variable-length forms are rejected.
    pub fn read_u64(&mut self) -> (r: Result<u64, DecodeError>)
        requires
            old(self).inv(),
        ensures
            final(self).inv(),
            final(self).config() == old(self).config(),
            final(self).input_seq() == old(self).input_seq(),
            final(self).budget() == old(self).budget(),
            final(self).claimed() == old(self).claimed(),
            old(self).pos() <= final(self).pos() <= final(self).input_seq().len(),
            match r {
                Ok(v) => {
                    &&& prefix_of(u64_enc(old(self).config(), v as nat), old(self).rest())
                    &&& final(self).pos() == old(self).pos() + u64_enc(
                        old(self).config(),
                        v as nat,
                    ).len()
                },
                Err(e) => e == DecodeError::UnexpectedEnd || e == DecodeError::Other,
            },
            forall|m: nat|
                m < pow256(8) && #[trigger] prefix_of(u64_enc(old(self).config(), m), old(self).rest())
                    ==> r == Ok::<u64, DecodeError>(m as u64),
            forall|m: nat|
                m < pow256(8) && #[trigger] strict_prefix_of(
                    old(self).rest(),
                    u64_enc(old(self).config(), m),
                ) ==> r == Err::<u64, DecodeError>(DecodeError::UnexpectedEnd),
    {
        let ghost c = self.cfg;
        let ghost rest0 = self.rest();
        proof {
            broadcast use crate::wire::lemma_uint_bytes_len, crate::wire::lemma_prefix_index;

            assert(pow256(1) == 0x100 && pow256(2) == 0x10000 && pow256(4) == 0x100000000
                && pow256(8) == 0x10000000000000000) by {
                reveal_with_fuel(pow256, 9);
            };
        }
        match self.cfg.int_encoding {
            crate::config::IntEncoding::Fixed => {
                let r = self.read_uint(8);
                proof {
                    if let Ok(v) = r {
                        assert(prefix_of(u64_enc(c, v as nat), rest0));
                        assert forall|m: nat|
                            m < pow256(8) && #[trigger] prefix_of(u64_enc(c, m), rest0) implies Ok::<
                            u64,
                            DecodeError,
                        >(m as u64) == r by {
                            crate::wire::lemma_u64_enc_common_prefix(c, m, v as nat, rest0);
                        };
                    }
                }
                r
            },
            crate::config::IntEncoding::Varint => {
                let marker = match self.read_uint(1) {
                    Ok(m) => m,
                    Err(e) => {
                        return Err(e);
                    },
                };
                let ghost e0 = c.endianness;
                let ghost rest1 = self.rest();
                proof {
                    assert(marker < 256);
                    assert(uint_bytes(e0, marker as nat, 1) =~= seq![marker as u8]);
                    assert(rest0.take(1) =~= seq![marker as u8]);
                    assert(rest0[0] == rest0.take(1)[0]);
                    assert(rest1 =~= rest0.skip(1));
                }
                if marker <= 250 {
                    proof {
                        assert(varint_bytes(e0, marker as nat) =~= rest0.take(1));
                        lemma_varint_forall(c, marker as nat, rest0);
                    }
                    Ok(marker)
                } else if marker == 251 {
                    let v = match self.read_uint(2) {
                        Ok(v) => v,
                        Err(e) => {
                            proof {
                                lemma_varint_none(c, rest0, 251, 2);
                            }
                            return Err(e);
                        },
                    };
                    proof {
                        assert(uint_bytes(e0, v as nat, 2) == rest1.take(2));
                        assert(rest1.take(2) =~= rest0.subrange(1, 3));
                    }
                    if v <= 250 {
                        proof {
                            lemma_varint_noncanonical(c, rest0, 251, 2, v as nat);
                        }
                        return Err(DecodeError::Other);
                    }
                    proof {
                        lemma_varint_wide_ok(c, rest0, 251, 2, v as nat);
                        lemma_varint_forall(c, v as nat, rest0);
                    }
                    Ok(v)
                } else if marker == 252 {
                    let v = match self.read_uint(4) {
                        Ok(v) => v,
                        Err(e) => {
                            proof {
                                lemma_varint_none(c, rest0, 252, 4);
                            }
                            return Err(e);
                        },
                    };
                    proof {
                        assert(uint_bytes(e0, v as nat, 4) == rest1.take(4));
                        assert(rest1.take(4) =~= rest0.subrange(1, 5));
                    }
                    if v < 0x10000 {
                        proof {
                            lemma_varint_noncanonical(c, rest0, 252, 4, v as nat);
                        }
                        return Err(DecodeError::Other);
                    }
                    proof {
                        lemma_varint_wide_ok(c, rest0, 252, 4, v as nat);
                        lemma_varint_forall(c, v as nat, rest0);
                    }
                    Ok(v)
                } else if marker == 253 {
                    let v = match self.read_uint(8) {
                        Ok(v) => v,
                        Err(e) => {
                            proof {
                                lemma_varint_none(c, rest0, 253, 8);
                            }
                            return Err(e);
                        },
                    };
                    proof {
                        assert(uint_bytes(e0, v as nat, 8) == rest1.take(8));
                        assert(rest1.take(8) =~= rest0.subrange(1, 9));
                    }
                    if v < 0x100000000 {
                        proof {
                            lemma_varint_noncanonical(c, rest0, 253, 8, v as nat);
                        }
                        return Err(DecodeError::Other);
                    }
                    proof {
                        lemma_varint_wide_ok(c, rest0, 253, 8, v as nat);
                        lemma_varint_forall(c, v as nat, rest0);
                    }
                    Ok(v)
                } else {
                    proof {
                        assert forall|m: nat|
                            m < pow256(8) && #[trigger] prefix_of(varint_bytes(e0, m), rest0)
                                implies false by {
                            assert(varint_bytes(e0, m)[0] == rest0[0]);
                        };
                    }
                    Err(DecodeError::Other)
                }
            },
        }
    }

    /// Read a 32-bit unsigned integer under the configured encoding. A
    /// variable-length value too wide for 32 bits is rejected.
    pub fn read_u32(&mut self) -> (r: Result<u32, DecodeError>)
        requires
            old(self).inv(),
        ensures
            final(self).inv(),
            final(self).config() == old(self).config(),
            final(self).input_seq() == old(self).input_seq(),
            final(self).budget() == old(self).budget(),
            final(self).claimed() == old(self).claimed(),
            old(self).pos() <= final(self).pos() <= final(self).input_seq().len(),
            match r {
                Ok(v) => {
                    &&& prefix_of(u32_enc(old(self).config(), v as nat), old(self).rest())
                    &&& final(self).pos() == old(self).pos() + u32_enc(
                        old(self).config(),
                        v as nat,
                    ).len()
                },
                Err(e) => e == DecodeError::UnexpectedEnd || e == DecodeError::Other,
            },
            forall|m: nat|
                m < pow256(4) && #[trigger] prefix_of(u32_enc(old(self).config(), m), old(self).rest())
                    ==> r == Ok::<u32, DecodeError>(m as u32),
            forall|m: nat|
                m < pow256(4) && #[trigger] strict_prefix_of(
                    old(self).rest(),
                    u32_enc(old(self).config(), m),
                ) ==> r == Err::<u32, DecodeError>(DecodeError::UnexpectedEnd),
    {
        let ghost c = self.cfg;
        let ghost rest0 = self.rest();
        proof {
            broadcast use crate::wire::lemma_uint_bytes_len;

            assert(pow256(4) == 0x100000000 && pow256(8) == 0x10000000000000000) by {
                reveal_with_fuel(pow256, 9);
            };
        }
        match self.cfg.int_encoding {
            crate::config::IntEncoding::Fixed => {
                match self.read_uint(4) {
                    Ok(v) => {
                        proof {
                            assert forall|m: nat|
                                m < pow256(4) && #[trigger] strict_prefix_of(
                                    rest0,
                                    u32_enc(c, m),
                                ) implies false by {};
                            assert(prefix_of(u32_enc(c, v as nat), rest0));
                            assert forall|m: nat|
                                m < pow256(4) && #[trigger] prefix_of(u32_enc(c, m), rest0)
                                implies m == v as nat by {
                                assert(uint_bytes(c.endianness, m, 4) =~= uint_bytes(
                                    c.endianness,
                                    v as nat,
                                    4,
                                ));
                                crate::wire::lemma_uint_bytes_injective(
                                    c.endianness,
                                    m,
                                    v as nat,
                                    4,
                                );
                            };
                        }
                        Ok(v as u32)
                    },
                    Err(e) => Err(e),
                }
            },
            crate::config::IntEncoding::Varint => {
                let v = match self.read_u64() {
                    Ok(v) => v,
                    Err(e) => {
                        proof {
                            assert forall|m: nat|
                                m < pow256(4) && #[trigger] prefix_of(u32_enc(c, m), rest0)
                                implies false by {
                                assert(u32_enc(c, m) == u64_enc(c, m));
                                assert(prefix_of(u64_enc(c, m), rest0));
                            };
                            assert forall|m: nat|
                                m < pow256(4) && #[trigger] strict_prefix_of(
                                    rest0,
                                    u32_enc(c, m),
                                ) implies e == DecodeError::UnexpectedEnd by {
                                assert(u32_enc(c, m) == u64_enc(c, m));
                                assert(strict_prefix_of(rest0, u64_enc(c, m)));
                            };
                        }
                        return Err(e);
                    },
                };
                if v > 0xFFFFFFFF {
                    proof {
                        assert forall|m: nat|
                            m < pow256(4) && #[trigger] prefix_of(u32_enc(c, m), rest0)
                                implies false by {
                            assert(prefix_of(u64_enc(c, m), rest0));
                        };
                        assert forall|m: nat|
                            m < pow256(4) && #[trigger] strict_prefix_of(rest0, u32_enc(c, m))
                                implies false by {
                            assert(u32_enc(c, m) == u64_enc(c, m));
                            assert(strict_prefix_of(rest0, u64_enc(c, m)));
                        };
                    }
                    Err(DecodeError::Other)
                } else {
                    proof {
                        assert(u32_enc(c, v as nat) == u64_enc(c, v as nat));
                        assert forall|m: nat|
                            m < pow256(4) && #[trigger] prefix_of(u32_enc(c, m), rest0) implies m
                            == v as nat by {
                            assert(u32_enc(c, m) == u64_enc(c, m));
                            assert(prefix_of(u64_enc(c, m), rest0));
                        };
                        assert forall|m: nat|
                            m < pow256(4) && #[trigger] strict_prefix_of(rest0, u32_enc(c, m))
                                implies false by {
                            assert(u32_enc(c, m) == u64_enc(c, m));
                            assert(strict_prefix_of(rest0, u64_enc(c, m)));
                        };
                    }
                    Ok(v as u32)
                }
            },
        }
    }

    /// Read a container length prefix. A length that does not fit in
    /// this platform's addressable size fails with `OutsideUsizeRange`.
    pub fn decode_len(&mut self) -> (r: Result<usize, DecodeError>)
        requires
            old(self).inv(),
        ensures
            final(self).inv(),
            final(self).config() == old(self).config(),
            final(self).input_seq() == old(self).input_seq(),
            final(self).budget() == old(self).budget(),
            final(self).claimed() == old(self).claimed(),
            old(self).pos() <= final(self).pos() <= final(self).input_seq().len(),
            match r {
                Ok(n) => {
                    &&& prefix_of(len_enc(old(self).config(), n as nat), old(self).rest())
                    &&& final(self).pos() == old(self).pos() + len_enc(
                        old(self).config(),
                        n as nat,
                    ).len()
                },
                Err(e) => e == DecodeError::UnexpectedEnd || e == DecodeError::Other || e
                    == DecodeError::OutsideUsizeRange,
            },
            forall|m: nat|
                m <= usize::MAX && #[trigger] prefix_of(len_enc(old(self).config(), m), old(self).rest())
                    ==> r == Ok::<usize, DecodeError>(m as usize),
            forall|m: nat|
                m <= usize::MAX && #[trigger] strict_prefix_of(
                    old(self).rest(),
                    len_enc(old(self).config(), m),
                ) ==> r == Err::<usize, DecodeError>(DecodeError::UnexpectedEnd),
    {
        proof {
            assert(pow256(8) == 0x10000000000000000) by {
                reveal_with_fuel(pow256, 9);
            };
        }
        let v = match self.read_u64() {
            Ok(v) => v,
            Err(e) => {
                return Err(e);
            },
        };
        if v > (usize::MAX as u64) {
            Err(DecodeError::OutsideUsizeRange)
        } else {
            Ok(v as usize)
        }
    }
}

/// The bytes after a marker byte fall short: then no value's
/// variable-length image begins this stream at all.
proof fn lemma_varint_none(c: Configuration, rest0: Seq<u8>, marker: u8, width: nat)
    requires
        c.int_encoding == crate::config::IntEncoding::Varint,
        rest0.len() >= 1,
        rest0[0] == marker,
        marker == 251 && width == 2 || marker == 252 && width == 4 || marker == 253 && width == 8,
        rest0.len() < 1 + width,
    ensures
        forall|m: nat|
            m < pow256(8) ==> !(#[trigger] prefix_of(u64_enc(c, m), rest0)),
{
    broadcast use lemma_varint_facts;

    assert forall|m: nat| m < pow256(8) implies !(#[trigger] prefix_of(u64_enc(c, m), rest0)) by {
        if prefix_of(u64_enc(c, m), rest0) {
            crate::wire::lemma_prefix_index(u64_enc(c, m), rest0);
        }
    };
}

/// A wide field decoded after a marker whose value is small enough for
/// a narrower form: the stream is non-canonical, so no value's image
/// begins it.
proof fn lemma_varint_noncanonical(c: Configuration, rest0: Seq<u8>, marker: u8, width: nat, v: nat)
    requires
        c.int_encoding == crate::config::IntEncoding::Varint,
        rest0.len() >= 1 + width,
        rest0[0] == marker,
        marker == 251 && width == 2 || marker == 252 && width == 4 || marker == 253 && width == 8,
        uint_bytes(c.endianness, v, width) == rest0.subrange(1, 1 + width as int),
        v < pow256(width),
        marker == 251 ==> v <= 250,
        marker == 252 ==> v < 0x10000,
        marker == 253 ==> v < 0x100000000,
    ensures
        forall|m: nat|
            m < pow256(8) ==> !(#[trigger] prefix_of(u64_enc(c, m), rest0)),
{
    broadcast use lemma_varint_facts;

    assert forall|m: nat| m < pow256(8) implies !(#[trigger] prefix_of(u64_enc(c, m), rest0)) by {
        if prefix_of(u64_enc(c, m), rest0) {
            crate::wire::lemma_prefix_index(u64_enc(c, m), rest0);
            if varint_bytes(c.endianness, m)[0] == marker {
                assert(uint_bytes(c.endianness, m, width) =~= rest0.subrange(1, 1 + width as int));
                crate::wire::lemma_uint_bytes_injective(c.endianness, m, v, width);
            }
        }
    };
}

/// A wide field decoded after its marker, with a canonical value: the
/// stream begins with exactly that value's image.
proof fn lemma_varint_wide_ok(c: Configuration, rest0: Seq<u8>, marker: u8, width: nat, v: nat)
    requires
        c.int_encoding == crate::config::IntEncoding::Varint,
        rest0.len() >= 1 + width,
        rest0[0] == marker,
        marker == 251 && width == 2 || marker == 252 && width == 4 || marker == 253 && width == 8,
        uint_bytes(c.endianness, v, width) == rest0.subrange(1, 1 + width as int),
        v < pow256(width),
        marker == 251 ==> 250 < v,
        marker == 252 ==> 0x10000 <= v,
        marker == 253 ==> 0x100000000 <= v,
    ensures
        prefix_of(u64_enc(c, v), rest0),
{
    broadcast use lemma_varint_facts;

    assert(varint_bytes(c.endianness, v) =~= rest0.take(1 + width as int)) by {
        assert(varint_bytes(c.endianness, v) =~= seq![marker] + uint_bytes(
            c.endianness,
            v,
            width,
        ));
    };
}

/// Once the stream is known to begin with `v`'s image, every other
/// fitting value whose image also begins it is `v` itself.
proof fn lemma_varint_forall(c: Configuration, v: nat, rest0: Seq<u8>)
    requires
        c.int_encoding == crate::config::IntEncoding::Varint,
        v < pow256(8),
        prefix_of(u64_enc(c, v), rest0),
    ensures
        forall|m: nat|
            m < pow256(8) && #[trigger] prefix_of(u64_enc(c, m), rest0) ==> m == v,
{
    assert forall|m: nat|
        m < pow256(8) && #[trigger] prefix_of(u64_enc(c, m), rest0) implies m == v by {
        crate::wire::lemma_u64_enc_common_prefix(c, m, v, rest0);
    };
}

/// Small sizes of `pow256`, and the length of every variable-length
/// image, available wherever varint streams are analysed.
broadcast proof fn lemma_varint_facts(e: crate::config::Endianness, v: nat)
    ensures
        (#[trigger] varint_bytes(e, v)).len() == (if v <= 250 {
            1int
        } else if v < 0x10000 {
            3
        } else if v < 0x100000000 {
            5
        } else {
            9
        }),
        pow256(1) == 0x100,
        pow256(2) == 0x10000,
        pow256(4) == 0x100000000,
        pow256(8) == 0x10000000000000000,
{
    broadcast use crate::wire::lemma_uint_bytes_len;

    assert(pow256(1) == 0x100 && pow256(2) == 0x10000 && pow256(4) == 0x100000000 && pow256(8)
        == 0x10000000000000000) by {
        reveal_with_fuel(pow256, 9);
    };
}

} // verus!
