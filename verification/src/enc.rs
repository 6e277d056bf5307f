//! The encoder: a sink that appends primitive values and raw byte spans
//! to an in-memory output buffer, applying the configuration's numeric
//! encoding rules. Encoding has no allocation-budget concerns.

use vstd::prelude::*;

use crate::config::{Configuration, Endianness, IntEncoding};
use crate::wire::{
    le_bytes, lemma_le_bytes_snoc, lemma_pow256_pos, len_enc, pow256, u32_enc, u64_enc,
    uint_bytes, varint_bytes,
};

verus! {

/// Owns the output buffer exclusively and the configuration applied to
/// every integer written through it. Created per encode call.
pub struct Encoder {
    out: Vec<u8>,
    cfg: Configuration,
}

impl Encoder {
    /// Everything written so far.
    pub closed spec fn bytes(&self) -> Seq<u8> {
        self.out@
    }

    pub closed spec fn config(&self) -> Configuration {
        self.cfg
    }

    pub fn new(cfg: Configuration) -> (e: Encoder)
        ensures
            e.bytes() == Seq::<u8>::empty(),
            e.config() == cfg,
    {
        Encoder { out: Vec::new(), cfg }
    }

    /// Hand the finished buffer to the caller.
    pub fn into_vec(self) -> (v: Vec<u8>)
        ensures
            v@ == self.bytes(),
    {
        self.out
    }

    pub fn push_byte(&mut self, b: u8)
        ensures
            final(self).config() == old(self).config(),
            final(self).bytes() == old(self).bytes().push(b),
    {
        self.out.push(b);
    }

    /// Append a raw byte span unchanged.
    pub fn write_raw(&mut self, b: &[u8])
        ensures
            final(self).config() == old(self).config(),
            final(self).bytes() == old(self).bytes() + b@,
    {
        let n = b.len();
        for i in 0..n
            invariant
                n == b@.len(),
                self.cfg == old(self).cfg,
                self.out@ == old(self).out@ + b@.take(i as int),
        {
            let x = *vstd::slice::slice_index_get(b, i);
            self.out.push(x);
            proof {
                assert(old(self).out@ + b@.take(i + 1) =~= (old(self).out@ + b@.take(i as int)).push(
                    b@[i as int],
                ));
            }
        }
        proof {
            assert(b@.take(n as int) =~= b@);
        }
    }

    /// Append the `width` bytes of `v` in the configured byte order.
    pub fn write_uint(&mut self, v: u64, width: usize)
        requires
            width <= 8,
            v < pow256(width as nat),
        ensures
            final(self).config() == old(self).config(),
            final(self).bytes() == old(self).bytes() + uint_bytes(
                old(self).config().endianness,
                v as nat,
                width as nat,
            ),
    {
        proof {
            broadcast use crate::wire::lemma_le_bytes_len, lemma_pow256_pos;

            assert(pow256(0) == 1);
            assert((v as nat) / pow256(0) == v as nat);
        }
        let mut tmp: Vec<u8> = Vec::new();
        let mut x = v;
        for i in 0..width
            invariant
                width <= 8,
                tmp@ == le_bytes(v as nat, i as nat),
                x as nat == (v as nat) / pow256(i as nat),
        {
            proof {
                broadcast use crate::wire::lemma_le_bytes_len, lemma_pow256_pos;

                lemma_le_bytes_snoc(v as nat, i as nat);
                vstd::arithmetic::div_mod::lemma_div_denominator(
                    v as int,
                    pow256(i as nat) as int,
                    256,
                );
                assert(pow256((i + 1) as nat) == 256 * pow256(i as nat));
                assert((v as nat) / pow256(i as nat) / 256 == (v as nat) / pow256((i + 1) as nat));
            }
            tmp.push((x % 256) as u8);
            x = x / 256;
        }
        match self.cfg.endianness {
            Endianness::Little => {
                let w = tmp.len();
                for j in 0..w
                    invariant
                        w == tmp@.len(),
                        self.cfg == old(self).cfg,
                        self.out@ == old(self).out@ + tmp@.take(j as int),
                {
                    let b = tmp[j];
                    self.out.push(b);
                    proof {
                        assert(old(self).out@ + tmp@.take(j + 1) =~= (old(self).out@ + tmp@.take(
                            j as int,
                        )).push(tmp@[j as int]));
                    }
                }
                proof {
                    assert(tmp@.take(tmp@.len() as int) =~= tmp@);
                }
            },
            Endianness::Big => {
                let w = tmp.len();
                for j in 0..w
                    invariant
                        w == tmp@.len(),
                        self.cfg == old(self).cfg,
                        self.out@ == old(self).out@ + tmp@.reverse().take(j as int),
                {
                    let b = tmp[w - 1 - j];
                    self.out.push(b);
                    proof {
                        assert(tmp@.reverse()[j as int] == tmp@[w - 1 - j]);
                        assert(old(self).out@ + tmp@.reverse().take(j + 1) =~= (old(self).out@
                            + tmp@.reverse().take(j as int)).push(tmp@.reverse()[j as int]));
                    }
                }
                proof {
                    assert(tmp@.reverse().take(tmp@.reverse().len() as int) =~= tmp@.reverse());
                }
            },
        }
    }

    /// Append the variable-length image of `v`: one byte for small
    /// values, else a marker byte and the narrowest fixed field.
    pub fn write_varint(&mut self, v: u64)
        ensures
            final(self).config() == old(self).config(),
            final(self).bytes() == old(self).bytes() + varint_bytes(
                old(self).config().endianness,
                v as nat,
            ),
    {
        proof {
            assert(pow256(2) == 0x10000 && pow256(4) == 0x100000000 && pow256(8) > u64::MAX) by {
                reveal_with_fuel(pow256, 9);
            };
        }
        let ghost e = self.cfg.endianness;
        if v <= 250 {
            self.push_byte(v as u8);
            proof {
                assert(old(self).bytes().push(v as u8) =~= old(self).bytes() + varint_bytes(
                    e,
                    v as nat,
                ));
            }
        } else if v < 0x10000 {
            self.push_byte(251);
            self.write_uint(v, 2);
            proof {
                assert(old(self).bytes().push(251u8) + uint_bytes(e, v as nat, 2) =~= old(
                    self,
                ).bytes() + (seq![251u8] + uint_bytes(e, v as nat, 2)));
            }
        } else if v < 0x100000000 {
            self.push_byte(252);
            self.write_uint(v, 4);
            proof {
                assert(old(self).bytes().push(252u8) + uint_bytes(e, v as nat, 4) =~= old(
                    self,
                ).bytes() + (seq![252u8] + uint_bytes(e, v as nat, 4)));
            }
        } else {
            self.push_byte(253);
            self.write_uint(v, 8);
            proof {
                assert(old(self).bytes().push(253u8) + uint_bytes(e, v as nat, 8) =~= old(
                    self,
                ).bytes() + (seq![253u8] + uint_bytes(e, v as nat, 8)));
            }
        }
    }

    /// Append a 64-bit unsigned integer under the configured encoding.
    pub fn write_u64(&mut self, v: u64)
        ensures
            final(self).config() == old(self).config(),
            final(self).bytes() == old(self).bytes() + u64_enc(old(self).config(), v as nat),
    {
        proof {
            assert(pow256(8) > u64::MAX) by {
                reveal_with_fuel(pow256, 9);
            };
        }
        match self.cfg.int_encoding {
            IntEncoding::Fixed => self.write_uint(v, 8),
            IntEncoding::Varint => self.write_varint(v),
        }
    }

    /// Append a 32-bit unsigned integer under the configured encoding.
    pub fn write_u32(&mut self, v: u32)
        ensures
            final(self).config() == old(self).config(),
            final(self).bytes() == old(self).bytes() + u32_enc(old(self).config(), v as nat),
    {
        proof {
            assert(pow256(4) > u32::MAX) by {
                reveal_with_fuel(pow256, 5);
            };
        }
        match self.cfg.int_encoding {
            IntEncoding::Fixed => self.write_uint(v as u64, 4),
            IntEncoding::Varint => self.write_varint(v as u64),
        }
    }

    /// Append a container length prefix, encoded as a 64-bit integer.
    pub fn write_len(&mut self, n: usize)
        ensures
            final(self).config() == old(self).config(),
            final(self).bytes() == old(self).bytes() + len_enc(old(self).config(), n as nat),
    {
        self.write_u64(n as u64);
    }
}

} // verus!
