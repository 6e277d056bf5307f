//! The capability contract implemented for the crate's primitive and
//! owned container types. Composite implementations invoke the
//! contract on their parts sequentially, in declared order; the wire
//! carries no names and no tags.

use vstd::prelude::*;
use vstd::string::StringSliceAdditionalSpecFns;
use vstd::utf8::{decode_utf8, encode_utf8, valid_utf8};

use crate::codec::{lemma_image_pins_candidates, BorrowDecode, Decode, Encode};
use crate::config::Configuration;
use crate::de::Decoder;
use crate::enc::Encoder;
use crate::error::{DecodeError, EncodeError};
use crate::wire::{
    len_enc, lemma_prefix_index, lemma_prefix_refl, lemma_u64_enc_common_prefix,
    lemma_u64_enc_no_truncation, pow256, prefix_of, strict_prefix_of, u32_enc, u64_enc,
};

verus! {

/// Relies on core::str::from_utf8: yields a string view of exactly the
/// given bytes when they are valid UTF-8, and fails otherwise.
#[verifier::external_body]
fn bytes_to_str<'a>(b: &'a [u8]) -> (r: Option<&'a str>)
    ensures
        match r {
            Some(s) => s.spec_bytes() == b@ && valid_utf8(b@),
            None => !valid_utf8(b@),
        },
{
    core::str::from_utf8(b).ok()
}

/// Small powers of 256, available wherever integer images are sized.
pub broadcast proof fn lemma_pow256_values(n: nat)
    ensures
        #[trigger] pow256(n) >= 1,
        pow256(1) == 0x100,
        pow256(2) == 0x10000,
        pow256(4) == 0x100000000,
        pow256(8) == 0x10000000000000000,
{
    broadcast use crate::wire::lemma_pow256_pos;

    assert(pow256(1) == 0x100 && pow256(2) == 0x10000 && pow256(4) == 0x100000000 && pow256(8)
        == 0x10000000000000000) by {
        reveal_with_fuel(pow256, 9);
    };
}

impl Encode for u8 {
    open spec fn enc(&self, c: Configuration) -> Seq<u8> {
        seq![*self]
    }

    open spec fn wf(&self) -> bool {
        true
    }

    proof fn lemma_enc_no_confusion(&self, other: &Self, c: Configuration, s: Seq<u8>) {
        broadcast use lemma_prefix_index;

        assert(self.enc(c) =~= other.enc(c));
        assert(self.enc(c)[0] == other.enc(c)[0]);
        assert(*self == *other);
    }

    proof fn lemma_enc_no_truncation(&self, other: &Self, c: Configuration, s: Seq<u8>) {
        assert(s =~= other.enc(c));
    }

    fn encode(&self, e: &mut Encoder) -> (r: Result<(), EncodeError>) {
        e.push_byte(*self);
        proof {
            assert(old(e).bytes().push(*self) =~= old(e).bytes() + self.enc(old(e).config()));
        }
        Ok(())
    }
}

impl Decode for u8 {
    open spec fn need(&self, c: Configuration) -> nat {
        0
    }

    fn decode<'de>(d: &mut Decoder<'de>) -> (r: Result<Self, DecodeError>) {
        let ghost c = d.config();
        let ghost rest0 = d.rest();
        match d.read_uint(1) {
            Ok(v) => {
                let w: u8 = v as u8;
                proof {
                    broadcast use lemma_pow256_values;

                    assert(crate::wire::uint_bytes(c.endianness, v as nat, 1) =~= seq![w]);
                    assert(prefix_of(w.enc(c), rest0));
                    lemma_image_pins_candidates(&w, c, rest0);
                    assert forall|v2: u8|
                        v2.wf() && v2.enc(c).len() <= usize::MAX && #[trigger] strict_prefix_of(
                            rest0,
                            v2.enc(c),
                        ) implies false by {};
                }
                Ok(w)
            },
            Err(e) => {
                proof {
                    assert forall|v2: u8|
                        v2.wf() && v2.enc(c).len() <= usize::MAX && #[trigger] prefix_of(
                            v2.enc(c),
                            rest0,
                        ) implies false by {};
                }
                Err(e)
            },
        }
    }
}

impl Encode for bool {
    open spec fn enc(&self, c: Configuration) -> Seq<u8> {
        seq![
            if *self {
                1u8
            } else {
                0u8
            },
        ]
    }

    open spec fn wf(&self) -> bool {
        true
    }

    proof fn lemma_enc_no_confusion(&self, other: &Self, c: Configuration, s: Seq<u8>) {
        broadcast use lemma_prefix_index;

        assert(self.enc(c)[0] == other.enc(c)[0]);
        assert(self.enc(c) =~= other.enc(c));
    }

    proof fn lemma_enc_no_truncation(&self, other: &Self, c: Configuration, s: Seq<u8>) {
        assert(s =~= other.enc(c));
    }

    fn encode(&self, e: &mut Encoder) -> (r: Result<(), EncodeError>) {
        let b: u8 = if *self {
            1
        } else {
            0
        };
        e.push_byte(b);
        proof {
            assert(old(e).bytes().push(b) =~= old(e).bytes() + self.enc(old(e).config()));
        }
        Ok(())
    }
}

impl Decode for bool {
    open spec fn need(&self, c: Configuration) -> nat {
        0
    }

    fn decode<'de>(d: &mut Decoder<'de>) -> (r: Result<Self, DecodeError>) {
        let ghost c = d.config();
        let ghost rest0 = d.rest();
        match d.read_uint(1) {
            Ok(v) => {
                proof {
                    broadcast use lemma_pow256_values, lemma_prefix_index;

                    assert(crate::wire::uint_bytes(c.endianness, v as nat, 1) =~= seq![v as u8]);
                    assert(rest0.take(1) =~= seq![v as u8]);
                    assert(rest0[0] == rest0.take(1)[0]);
                }
                if v == 0 || v == 1 {
                    let w: bool = v == 1;
                    proof {
                        assert(w.enc(c) =~= rest0.take(1));
                        lemma_image_pins_candidates(&w, c, rest0);
                        assert forall|v2: bool|
                            v2.wf() && v2.enc(c).len() <= usize::MAX && #[trigger] strict_prefix_of(
                                rest0,
                                v2.enc(c),
                            ) implies false by {};
                    }
                    Ok(w)
                } else {
                    proof {
                        assert forall|v2: bool|
                            v2.wf() && v2.enc(c).len() <= usize::MAX && #[trigger] prefix_of(
                                v2.enc(c),
                                rest0,
                            ) implies false by {
                            assert(v2.enc(c)[0] == rest0[0]);
                        };
                        assert forall|v2: bool|
                            v2.wf() && v2.enc(c).len() <= usize::MAX && #[trigger] strict_prefix_of(
                                rest0,
                                v2.enc(c),
                            ) implies false by {};
                    }
                    Err(DecodeError::Other)
                }
            },
            Err(e) => {
                proof {
                    assert forall|v2: bool|
                        v2.wf() && v2.enc(c).len() <= usize::MAX && #[trigger] prefix_of(
                            v2.enc(c),
                            rest0,
                        ) implies false by {};
                }
                Err(e)
            },
        }
    }
}

impl Encode for u64 {
    open spec fn enc(&self, c: Configuration) -> Seq<u8> {
        u64_enc(c, *self as nat)
    }

    open spec fn wf(&self) -> bool {
        true
    }

    proof fn lemma_enc_no_confusion(&self, other: &Self, c: Configuration, s: Seq<u8>) {
        broadcast use lemma_pow256_values;

        lemma_u64_enc_common_prefix(c, *self as nat, *other as nat, s);
    }

    proof fn lemma_enc_no_truncation(&self, other: &Self, c: Configuration, s: Seq<u8>) {
        broadcast use lemma_pow256_values;

        lemma_u64_enc_no_truncation(c, *self as nat, *other as nat, s);
    }

    fn encode(&self, e: &mut Encoder) -> (r: Result<(), EncodeError>) {
        e.write_u64(*self);
        Ok(())
    }
}

impl Decode for u64 {
    open spec fn need(&self, c: Configuration) -> nat {
        0
    }

    fn decode<'de>(d: &mut Decoder<'de>) -> (r: Result<Self, DecodeError>) {
        let ghost c = d.config();
        let ghost rest0 = d.rest();
        proof {
            broadcast use lemma_pow256_values;

        }
        match d.read_u64() {
            Ok(w) => {
                proof {
                    assert(rest0.len() <= usize::MAX);
                    assert(prefix_of(w.enc(c), rest0));
                    lemma_image_pins_candidates(&w, c, rest0);
                    assert forall|v2: u64|
                        v2.wf() && v2.enc(c).len() <= usize::MAX && #[trigger] strict_prefix_of(
                            rest0,
                            v2.enc(c),
                        ) implies false by {
                        w.lemma_enc_no_truncation(&v2, c, rest0);
                    };
                }
                Ok(w)
            },
            Err(e) => {
                proof {
                    assert forall|v2: u64|
                        v2.wf() && v2.enc(c).len() <= usize::MAX && #[trigger] prefix_of(
                            v2.enc(c),
                            rest0,
                        ) implies false by {
                        assert(prefix_of(u64_enc(c, v2 as nat), rest0));
                    };
                    assert forall|v2: u64|
                        v2.wf() && v2.enc(c).len() <= usize::MAX && #[trigger] strict_prefix_of(
                            rest0,
                            v2.enc(c),
                        ) implies e == DecodeError::UnexpectedEnd by {
                        assert(strict_prefix_of(rest0, u64_enc(c, v2 as nat)));
                    };
                }
                Err(e)
            },
        }
    }
}

impl Encode for u32 {
    open spec fn enc(&self, c: Configuration) -> Seq<u8> {
        u32_enc(c, *self as nat)
    }

    open spec fn wf(&self) -> bool {
        true
    }

    proof fn lemma_enc_no_confusion(&self, other: &Self, c: Configuration, s: Seq<u8>) {
        broadcast use lemma_pow256_values, crate::wire::lemma_uint_bytes_len;

        match c.int_encoding {
            crate::config::IntEncoding::Fixed => {
                assert(crate::wire::uint_bytes(c.endianness, *self as nat, 4)
                    =~= crate::wire::uint_bytes(c.endianness, *other as nat, 4));
                crate::wire::lemma_uint_bytes_injective(
                    c.endianness,
                    *self as nat,
                    *other as nat,
                    4,
                );
            },
            crate::config::IntEncoding::Varint => {
                lemma_u32_like_u64(c, *self as nat);
                lemma_u32_like_u64(c, *other as nat);
                lemma_u64_enc_common_prefix(c, *self as nat, *other as nat, s);
            },
        }
    }

    proof fn lemma_enc_no_truncation(&self, other: &Self, c: Configuration, s: Seq<u8>) {
        broadcast use lemma_pow256_values, crate::wire::lemma_uint_bytes_len;

        match c.int_encoding {
            crate::config::IntEncoding::Fixed => {
                assert(s =~= other.enc(c));
            },
            crate::config::IntEncoding::Varint => {
                lemma_u32_like_u64(c, *self as nat);
                lemma_u32_like_u64(c, *other as nat);
                lemma_u64_enc_no_truncation(c, *self as nat, *other as nat, s);
            },
        }
    }

    fn encode(&self, e: &mut Encoder) -> (r: Result<(), EncodeError>) {
        e.write_u32(*self);
        Ok(())
    }
}

impl Decode for u32 {
    open spec fn need(&self, c: Configuration) -> nat {
        0
    }

    fn decode<'de>(d: &mut Decoder<'de>) -> (r: Result<Self, DecodeError>) {
        let ghost c = d.config();
        let ghost rest0 = d.rest();
        proof {
            broadcast use lemma_pow256_values;

        }
        match d.read_u32() {
            Ok(w) => {
                proof {
                    assert(rest0.len() <= usize::MAX);
                    assert(prefix_of(w.enc(c), rest0));
                    lemma_image_pins_candidates(&w, c, rest0);
                    assert forall|v2: u32|
                        v2.wf() && v2.enc(c).len() <= usize::MAX && #[trigger] strict_prefix_of(
                            rest0,
                            v2.enc(c),
                        ) implies false by {
                        w.lemma_enc_no_truncation(&v2, c, rest0);
                    };
                }
                Ok(w)
            },
            Err(e) => {
                proof {
                    assert forall|v2: u32|
                        v2.wf() && v2.enc(c).len() <= usize::MAX && #[trigger] prefix_of(
                            v2.enc(c),
                            rest0,
                        ) implies false by {
                        assert(prefix_of(u32_enc(c, v2 as nat), rest0));
                    };
                    assert forall|v2: u32|
                        v2.wf() && v2.enc(c).len() <= usize::MAX && #[trigger] strict_prefix_of(
                            rest0,
                            v2.enc(c),
                        ) implies e == DecodeError::UnexpectedEnd by {
                        assert(strict_prefix_of(rest0, u32_enc(c, v2 as nat)));
                    };
                }
                Err(e)
            },
        }
    }
}

/// In fixed mode a 32-bit integer has its own width, but in variable
/// mode its image coincides with the 64-bit image of the same value.
proof fn lemma_u32_like_u64(c: Configuration, v: nat)
    requires
        c.int_encoding == crate::config::IntEncoding::Varint,
    ensures
        u32_enc(c, v) == u64_enc(c, v),
{
}

/// The wire image of a piece of text: its UTF-8 byte length, then its
/// UTF-8 bytes.
pub open spec fn text_enc(c: Configuration, chars: Seq<char>) -> Seq<u8> {
    len_enc(c, encode_utf8(chars).len()) + encode_utf8(chars)
}

/// Two pieces of text whose images begin the same stream are the same
/// text: the length prefixes must agree, so the byte regions coincide,
/// and UTF-8 decoding recovers the characters.
proof fn lemma_text_no_confusion(a: Seq<char>, b: Seq<char>, c: Configuration, s: Seq<u8>)
    requires
        text_enc(c, a).len() <= usize::MAX,
        text_enc(c, b).len() <= usize::MAX,
        prefix_of(text_enc(c, a), s),
        prefix_of(text_enc(c, b), s),
    ensures
        a == b,
        text_enc(c, a) == text_enc(c, b),
{
    broadcast use vstd::utf8::encode_utf8_decode_utf8;

    crate::wire::lemma_usize_fits_u64();
    let ea = encode_utf8(a);
    let eb = encode_utf8(b);
    crate::wire::lemma_prefix_concat_split(len_enc(c, ea.len()), ea, s);
    crate::wire::lemma_prefix_concat_split(len_enc(c, eb.len()), eb, s);
    lemma_u64_enc_common_prefix(c, ea.len(), eb.len(), s);
    let s1 = s.skip(len_enc(c, ea.len()).len() as int);
    assert(ea =~= eb) by {
        assert(ea == s1.take(ea.len() as int));
        assert(eb == s1.take(eb.len() as int));
    };
    assert(decode_utf8(ea) == decode_utf8(eb));
    assert(a == b);
}

/// A stream fragment that contains one whole text image and sits
/// inside another text image is that whole image.
proof fn lemma_text_no_truncation(a: Seq<char>, b: Seq<char>, c: Configuration, s: Seq<u8>)
    requires
        text_enc(c, a).len() <= usize::MAX,
        text_enc(c, b).len() <= usize::MAX,
        prefix_of(text_enc(c, a), s),
        prefix_of(s, text_enc(c, b)),
    ensures
        s == text_enc(c, b),
{
    crate::wire::lemma_usize_fits_u64();
    broadcast use crate::wire::lemma_prefix_refl;

    let ea = encode_utf8(a);
    let eb = encode_utf8(b);
    crate::wire::lemma_prefix_concat_split(len_enc(c, ea.len()), ea, s);
    crate::wire::lemma_prefix_transitive(len_enc(c, ea.len()), s, text_enc(c, b));
    crate::wire::lemma_prefix_concat_split(len_enc(c, eb.len()), eb, text_enc(c, b));
    lemma_u64_enc_common_prefix(c, ea.len(), eb.len(), text_enc(c, b));
    assert(text_enc(c, a).len() == text_enc(c, b).len());
    assert(s =~= text_enc(c, b)) by {
        broadcast use lemma_prefix_index;

    };
}

impl Encode for String {
    open spec fn enc(&self, c: Configuration) -> Seq<u8> {
        text_enc(c, self@)
    }

    open spec fn wf(&self) -> bool {
        true
    }

    proof fn lemma_enc_no_confusion(&self, other: &Self, c: Configuration, s: Seq<u8>) {
        lemma_text_no_confusion(self@, other@, c, s);
    }

    proof fn lemma_enc_no_truncation(&self, other: &Self, c: Configuration, s: Seq<u8>) {
        lemma_text_no_truncation(self@, other@, c, s);
    }

    fn encode(&self, e: &mut Encoder) -> (r: Result<(), EncodeError>) {
        let bytes = self.as_str().as_bytes();
        e.write_len(bytes.len());
        e.write_raw(bytes);
        proof {
            assert(old(e).bytes() + len_enc(old(e).config(), encode_utf8(self@).len()) + bytes@
                =~= old(e).bytes() + self.enc(old(e).config()));
        }
        Ok(())
    }
}

impl Decode for String {
    open spec fn need(&self, c: Configuration) -> nat {
        encode_utf8(self@).len()
    }

    fn decode<'de>(d: &mut Decoder<'de>) -> (r: Result<Self, DecodeError>) {
        let ghost c = d.config();
        let ghost rest0 = d.rest();
        let ghost b0 = d.budget();
        proof {
            crate::wire::lemma_usize_fits_u64();
            broadcast use vstd::utf8::encode_utf8_valid_utf8;

        }
        let n = match d.decode_len() {
            Ok(n) => n,
            Err(e) => {
                proof {
                    assert forall|v2: String|
                        v2.wf() && v2.enc(c).len() <= usize::MAX && #[trigger] prefix_of(
                            v2.enc(c),
                            rest0,
                        ) implies false by {
                        crate::wire::lemma_prefix_concat_split(
                            len_enc(c, encode_utf8(v2@).len()),
                            encode_utf8(v2@),
                            rest0,
                        );
                    };
                    assert forall|v2: String|
                        v2.wf() && v2.enc(c).len() <= usize::MAX && #[trigger] strict_prefix_of(
                            rest0,
                            v2.enc(c),
                        ) && v2.need(c) <= b0 implies e == DecodeError::UnexpectedEnd by {
                        let lb = len_enc(c, encode_utf8(v2@).len());
                        crate::wire::lemma_prefix_refl(v2.enc(c));
                        crate::wire::lemma_prefix_concat_split(lb, encode_utf8(v2@), v2.enc(c));
                        if rest0.len() < lb.len() {
                            crate::wire::lemma_prefix_common(rest0, lb, v2.enc(c));
                            assert(strict_prefix_of(rest0, len_enc(c, encode_utf8(v2@).len())));
                        } else {
                            crate::wire::lemma_prefix_common(lb, rest0, v2.enc(c));
                            assert(prefix_of(len_enc(c, encode_utf8(v2@).len()), rest0));
                        }
                    };
                }
                return Err(e);
            },
        };
        let ghost rest1 = d.rest();
        proof {
            assert(rest1 =~= rest0.skip(len_enc(c, n as nat).len() as int));
            assert forall|v2: String|
                v2.wf() && v2.enc(c).len() <= usize::MAX && #[trigger] prefix_of(v2.enc(c), rest0)
                implies encode_utf8(v2@).len() == n as nat && prefix_of(encode_utf8(v2@), rest1) by {
                crate::wire::lemma_prefix_concat_split(
                    len_enc(c, encode_utf8(v2@).len()),
                    encode_utf8(v2@),
                    rest0,
                );
            };
            assert forall|v2: String|
                v2.wf() && v2.enc(c).len() <= usize::MAX && #[trigger] strict_prefix_of(
                    rest0,
                    v2.enc(c),
                ) implies encode_utf8(v2@).len() == n as nat && strict_prefix_of(
                    rest1,
                    encode_utf8(v2@),
                ) by {
                let lb = len_enc(c, encode_utf8(v2@).len());
                crate::wire::lemma_prefix_refl(v2.enc(c));
                crate::wire::lemma_prefix_concat_split(lb, encode_utf8(v2@), v2.enc(c));
                if rest0.len() < lb.len() {
                    crate::wire::lemma_prefix_common(rest0, lb, v2.enc(c));
                    assert(strict_prefix_of(rest0, len_enc(c, encode_utf8(v2@).len())));
                } else {
                    crate::wire::lemma_prefix_common(lb, rest0, v2.enc(c));
                    assert(prefix_of(len_enc(c, encode_utf8(v2@).len()), rest0));
                    assert(encode_utf8(v2@).len() == n as nat);
                    let k = lb.len() as int;
                    assert(prefix_of(rest1, v2.enc(c).skip(k))) by {
                        broadcast use lemma_prefix_index;

                        assert(rest1 =~= v2.enc(c).skip(k).take(rest0.len() - k));
                    };
                    assert(v2.enc(c).skip(k) =~= encode_utf8(v2@));
                }
            };
        }
        match d.claim_bytes_read(n) {
            Ok(_) => (),
            Err(e) => {
                proof {
                    assert forall|v2: String|
                        v2.wf() && v2.enc(c).len() <= usize::MAX && #[trigger] prefix_of(
                            v2.enc(c),
                            rest0,
                        ) && v2.need(c) <= b0 implies false by {};
                    assert forall|v2: String|
                        v2.wf() && v2.enc(c).len() <= usize::MAX && #[trigger] strict_prefix_of(
                            rest0,
                            v2.enc(c),
                        ) && v2.need(c) <= b0 implies false by {};
                }
                return Err(e);
            },
        }
        let b = match d.take_bytes(n) {
            Ok(b) => b,
            Err(e) => {
                proof {
                    assert forall|v2: String|
                        v2.wf() && v2.enc(c).len() <= usize::MAX && #[trigger] prefix_of(
                            v2.enc(c),
                            rest0,
                        ) implies false by {};
                }
                return Err(e);
            },
        };
        d.unclaim_bytes_read(n);
        match bytes_to_str(b) {
            Some(t) => {
                let w = t.to_owned();
                proof {
                    assert(encode_utf8(w@) == b@);
                    assert(prefix_of(b@, rest1));
                    crate::wire::lemma_prefix_concat_join(len_enc(c, n as nat), b@, rest0);
                    assert(w.enc(c) == len_enc(c, n as nat) + b@);
                    assert(rest0.len() <= usize::MAX);
                    lemma_image_pins_candidates(&w, c, rest0);
                    assert forall|v2: String|
                        v2.wf() && v2.enc(c).len() <= usize::MAX && #[trigger] strict_prefix_of(
                            rest0,
                            v2.enc(c),
                        ) implies false by {
                        w.lemma_enc_no_truncation(&v2, c, rest0);
                    };
                }
                Ok(w)
            },
            None => {
                proof {
                    assert forall|v2: String|
                        v2.wf() && v2.enc(c).len() <= usize::MAX && #[trigger] prefix_of(
                            v2.enc(c),
                            rest0,
                        ) implies false by {
                        assert(encode_utf8(v2@) =~= b@);
                    };
                    assert forall|v2: String|
                        v2.wf() && v2.enc(c).len() <= usize::MAX && #[trigger] strict_prefix_of(
                            rest0,
                            v2.enc(c),
                        ) implies false by {
                        assert(strict_prefix_of(rest1, encode_utf8(v2@)));
                        assert(prefix_of(b@, rest1));
                    };
                }
                Err(DecodeError::Utf8)
            },
        }
    }
}

/// The concatenated wire images of a sequence of elements, in order.
pub open spec fn elems_enc<T: Encode>(s: Seq<T>, c: Configuration) -> Seq<u8> {
    s.map_values(|t: T| t.enc(c)).flatten()
}

/// Every element is well formed.
pub open spec fn all_wf<T: Encode>(s: Seq<T>) -> bool {
    forall|i: int| 0 <= i < s.len() ==> (#[trigger] s[i]).wf()
}

/// The contents of a sequence of elements, element by element.
pub open spec fn dv_seq<T: DeepView>(s: Seq<T>) -> Seq<T::V> {
    s.map_values(|t: T| t.deep_view())
}

/// The summed decode budget of a sequence of elements.
pub open spec fn seq_need<T: Decode>(s: Seq<T>, c: Configuration) -> nat
    decreases s.len(),
{
    if s.len() == 0 {
        0
    } else {
        s[0].need(c) + seq_need(s.drop_first(), c)
    }
}

proof fn lemma_elems_enc_first<T: Encode>(s: Seq<T>, c: Configuration)
    requires
        s.len() > 0,
    ensures
        elems_enc(s, c) == s[0].enc(c) + elems_enc(s.drop_first(), c),
{
    let m = s.map_values(|t: T| t.enc(c));
    assert(m.drop_first() =~= s.drop_first().map_values(|t: T| t.enc(c)));
    assert(m.flatten() == m[0] + m.drop_first().flatten());
}

proof fn lemma_elems_enc_push<T: Encode>(s: Seq<T>, c: Configuration, x: T)
    ensures
        elems_enc(s.push(x), c) == elems_enc(s, c) + x.enc(c),
    decreases s.len(),
{
    let m = s.map_values(|t: T| t.enc(c));
    assert(s.push(x).map_values(|t: T| t.enc(c)) =~= m.push(x.enc(c)));
    Seq::lemma_flatten_push(m, x.enc(c));
}

proof fn lemma_seq_need_elem<T: Decode>(s: Seq<T>, c: Configuration, i: int)
    requires
        0 <= i < s.len(),
    ensures
        s[i].need(c) <= seq_need(s, c),
    decreases s.len(),
{
    if i > 0 {
        lemma_seq_need_elem(s.drop_first(), c, i - 1);
    }
}

/// Two same-arity element sequences whose concatenated images begin
/// the same stream have the same images and the same contents,
/// element by element.
pub(crate) proof fn lemma_elems_no_confusion<T: Encode>(xs: Seq<T>, ys: Seq<T>, c: Configuration, s: Seq<u8>)
    requires
        xs.len() == ys.len(),
        all_wf(xs),
        all_wf(ys),
        elems_enc(xs, c).len() <= usize::MAX,
        elems_enc(ys, c).len() <= usize::MAX,
        prefix_of(elems_enc(xs, c), s),
        prefix_of(elems_enc(ys, c), s),
    ensures
        elems_enc(xs, c) == elems_enc(ys, c),
        dv_seq(xs) == dv_seq(ys),
    decreases xs.len(),
{
    if xs.len() == 0 {
        assert(elems_enc(xs, c) =~= elems_enc(ys, c));
        assert(dv_seq(xs) =~= dv_seq(ys));
    } else {
        lemma_elems_enc_first(xs, c);
        lemma_elems_enc_first(ys, c);
        let ex0 = xs[0].enc(c);
        let ey0 = ys[0].enc(c);
        crate::wire::lemma_prefix_concat_split(ex0, elems_enc(xs.drop_first(), c), s);
        crate::wire::lemma_prefix_concat_split(ey0, elems_enc(ys.drop_first(), c), s);
        xs[0].lemma_enc_no_confusion(&ys[0], c, s);
        lemma_elems_no_confusion(xs.drop_first(), ys.drop_first(), c, s.skip(ex0.len() as int));
        assert(elems_enc(xs, c) =~= elems_enc(ys, c));
        assert(dv_seq(xs) =~= dv_seq(ys)) by {
            assert(dv_seq(xs.drop_first()) =~= dv_seq(xs).drop_first());
            assert(dv_seq(ys.drop_first()) =~= dv_seq(ys).drop_first());
            assert forall|i: int| 0 <= i < dv_seq(xs).len() implies dv_seq(xs)[i] == dv_seq(
                ys,
            )[i] by {
                if i > 0 {
                    assert(dv_seq(xs)[i] == dv_seq(xs.drop_first())[i - 1]);
                    assert(dv_seq(ys)[i] == dv_seq(ys.drop_first())[i - 1]);
                }
            };
        };
    }
}

/// A stream fragment that contains one whole same-arity image and sits
/// inside another is that whole image.
pub(crate) proof fn lemma_elems_no_truncation<T: Encode>(xs: Seq<T>, ys: Seq<T>, c: Configuration, s: Seq<u8>)
    requires
        xs.len() == ys.len(),
        all_wf(xs),
        all_wf(ys),
        elems_enc(xs, c).len() <= usize::MAX,
        elems_enc(ys, c).len() <= usize::MAX,
        prefix_of(elems_enc(xs, c), s),
        prefix_of(s, elems_enc(ys, c)),
    ensures
        s == elems_enc(ys, c),
    decreases xs.len(),
{
    broadcast use crate::wire::lemma_prefix_refl;

    if xs.len() == 0 {
        assert(elems_enc(xs, c) =~= Seq::<u8>::empty());
        assert(elems_enc(ys, c) =~= Seq::<u8>::empty());
        assert(s =~= elems_enc(ys, c));
    } else {
        lemma_elems_enc_first(xs, c);
        lemma_elems_enc_first(ys, c);
        let ex0 = xs[0].enc(c);
        let ey0 = ys[0].enc(c);
        crate::wire::lemma_prefix_concat_split(ex0, elems_enc(xs.drop_first(), c), s);
        crate::wire::lemma_prefix_concat_split(ey0, elems_enc(ys.drop_first(), c), elems_enc(ys, c));
        if s.len() < ey0.len() {
            crate::wire::lemma_prefix_common(s, ey0, elems_enc(ys, c));
            xs[0].lemma_enc_no_truncation(&ys[0], c, s);
            assert(false);
        } else {
            crate::wire::lemma_prefix_common(ey0, s, elems_enc(ys, c));
            xs[0].lemma_enc_no_confusion(&ys[0], c, s);
            assert(prefix_of(s.skip(ey0.len() as int), elems_enc(ys, c).skip(ey0.len() as int)))
                by {
                broadcast use lemma_prefix_index;

                assert(s.skip(ey0.len() as int) =~= elems_enc(ys, c).skip(ey0.len() as int).take(
                    s.len() - ey0.len(),
                ));
            };
            assert(elems_enc(ys, c).skip(ey0.len() as int) =~= elems_enc(ys.drop_first(), c));
            lemma_elems_no_truncation(
                xs.drop_first(),
                ys.drop_first(),
                c,
                s.skip(ex0.len() as int),
            );
            assert(s =~= elems_enc(ys, c));
        }
    }
}

proof fn lemma_elems_enc_split<T: Encode>(s: Seq<T>, c: Configuration, i: int)
    requires
        0 <= i <= s.len(),
    ensures
        elems_enc(s, c) == elems_enc(s.take(i), c) + elems_enc(s.skip(i), c),
    decreases i,
{
    if i == 0 {
        assert(s.take(0) =~= Seq::<T>::empty());
        assert(s.skip(0) =~= s);
        assert(elems_enc(Seq::<T>::empty(), c) =~= Seq::<u8>::empty());
        assert(elems_enc(s, c) =~= Seq::<u8>::empty() + elems_enc(s, c));
    } else {
        lemma_elems_enc_split(s, c, i - 1);
        lemma_elems_enc_push(s.take(i - 1), c, s[i - 1]);
        assert(s.take(i - 1).push(s[i - 1]) =~= s.take(i));
        lemma_elems_enc_first(s.skip(i - 1), c);
        assert(s.skip(i - 1)[0] == s[i - 1]);
        assert(s.skip(i - 1).drop_first() =~= s.skip(i));
        assert((elems_enc(s.take(i - 1), c) + s[i - 1].enc(c)) + elems_enc(s.skip(i), c)
            =~= elems_enc(s.take(i - 1), c) + (s[i - 1].enc(c) + elems_enc(s.skip(i), c)));
    }
}

/// Encode each element in order, composing the contract over the
/// element type.
pub(crate) fn encode_elems<T: Encode>(items: &Vec<T>, e: &mut Encoder) -> (r: Result<(), EncodeError>)
    requires
        all_wf(items@),
    ensures
        r is Ok,
        final(e).config() == old(e).config(),
        final(e).bytes() == old(e).bytes() + elems_enc(items@, old(e).config()),
{
    let ghost c = e.config();
    let n = items.len();
    proof {
        assert(items@.take(0) =~= Seq::<T>::empty());
        assert(elems_enc(Seq::<T>::empty(), c) =~= Seq::<u8>::empty());
        assert(old(e).bytes() + Seq::<u8>::empty() =~= old(e).bytes());
    }
    for i in 0..n
        invariant
            n == items@.len(),
            all_wf(items@),
            e.config() == c,
            e.bytes() == old(e).bytes() + elems_enc(items@.take(i as int), c),
    {
        let x = &items[i];
        match x.encode(e) {
            Ok(_) => (),
            Err(er) => {
                return Err(er);
            },
        }
        proof {
            lemma_elems_enc_push(items@.take(i as int), c, items@[i as int]);
            assert(items@.take(i as int).push(items@[i as int]) =~= items@.take(i + 1));
            assert((old(e).bytes() + elems_enc(items@.take(i as int), c)) + items@[i as int].enc(c)
                =~= old(e).bytes() + elems_enc(items@.take(i + 1), c));
        }
    }
    proof {
        assert(items@.take(n as int) =~= items@);
    }
    Ok(())
}

/// Decode `n` elements in order. The caller has already claimed the
/// container's reservation; each element's share is unclaimed here
/// immediately before that element's own decode begins, so on success
/// the whole reservation has flowed back.
#[verifier::rlimit(100)]
#[verifier::loop_isolation(false)]
pub(crate) fn decode_elems<'de, T: Decode>(d: &mut Decoder<'de>, n: usize) -> (r: Result<
    Vec<T>,
    DecodeError,
>)
    requires
        old(d).inv(),
        old(d).claimed() >= n * vstd::layout::size_of::<T>(),
    ensures
        final(d).inv(),
        final(d).config() == old(d).config(),
        final(d).input_seq() == old(d).input_seq(),
        old(d).pos() <= final(d).pos() <= final(d).input_seq().len(),
        match r {
            Ok(out) => {
                &&& out@.len() == n
                &&& all_wf(out@)
                &&& prefix_of(elems_enc(out@, old(d).config()), old(d).rest())
                &&& final(d).pos() == old(d).pos() + elems_enc(out@, old(d).config()).len()
                &&& final(d).budget() == old(d).budget() + n * vstd::layout::size_of::<T>()
                &&& final(d).claimed() == old(d).claimed() - n * vstd::layout::size_of::<T>()
            },
            Err(_) => true,
        },
        forall|vs: Seq<T>|
            vs.len() == n && all_wf(vs) && elems_enc(vs, old(d).config()).len() <= usize::MAX && (
            #[trigger] prefix_of(elems_enc(vs, old(d).config()), old(d).rest())) ==> match r {
                Ok(out) => dv_seq(out@) == dv_seq(vs) && elems_enc(out@, old(d).config())
                    == elems_enc(vs, old(d).config()),
                Err(_) => true,
            },
        forall|vs: Seq<T>|
            vs.len() == n && all_wf(vs) && elems_enc(vs, old(d).config()).len() <= usize::MAX && (
            #[trigger] strict_prefix_of(old(d).rest(), elems_enc(vs, old(d).config()))) ==> !(
            r is Ok),
        forall|vs: Seq<T>|
            vs.len() == n && all_wf(vs) && elems_enc(vs, old(d).config()).len() <= usize::MAX && (
            #[trigger] prefix_of(elems_enc(vs, old(d).config()), old(d).rest())) && seq_need(
                vs,
                old(d).config(),
            ) <= old(d).budget() ==> r is Ok,
        forall|vs: Seq<T>|
            vs.len() == n && all_wf(vs) && elems_enc(vs, old(d).config()).len() <= usize::MAX && (
            #[trigger] strict_prefix_of(old(d).rest(), elems_enc(vs, old(d).config())))
                && seq_need(vs, old(d).config()) <= old(d).budget() ==> r == Err::<
                Vec<T>,
                DecodeError,
            >(DecodeError::UnexpectedEnd),
{
    let ghost c = old(d).config();
    let ghost inp = old(d).input_seq();
    let ghost rest0 = old(d).rest();
    let ghost pos0 = old(d).pos();
    let ghost b0 = old(d).budget();
    let ghost cl0 = old(d).claimed();
    let ghost sz_s = vstd::layout::size_of::<T>();
    let sz = core::mem::size_of::<T>();
    let mut out: Vec<T> = Vec::new();
    proof {
        assert(elems_enc(out@, c) =~= Seq::<u8>::empty());
        assert(prefix_of(elems_enc(out@, c), rest0)) by {
            assert(elems_enc(out@, c) =~= rest0.take(0));
        };
    }
    proof {
        assert(0 * sz_s == 0) by (nonlinear_arith);
    }
    for i in 0..n
        invariant
            d.inv(),
            d.config() == c,
            d.input_seq() == inp,
            rest0 == inp.skip(pos0 as int),
            pos0 <= d.pos() <= inp.len(),
            sz == sz_s,
            cl0 >= n * sz_s,
            d.budget() == b0 + i * sz_s,
            d.claimed() == cl0 - i * sz_s,
            out@.len() == i,
            all_wf(out@),
            prefix_of(elems_enc(out@, c), rest0),
            d.pos() == pos0 + elems_enc(out@, c).len(),
            forall|vs: Seq<T>|
                #![trigger prefix_of(elems_enc(vs, c), rest0)]
                #![trigger prefix_of(rest0, elems_enc(vs, c))]
                vs.len() == n && all_wf(vs) && elems_enc(vs, c).len() <= usize::MAX && (prefix_of(
                    elems_enc(vs, c),
                    rest0,
                ) || prefix_of(
                    rest0,
                    elems_enc(vs, c),
                )) ==> dv_seq(out@) == dv_seq(vs.take(out@.len() as int)) && elems_enc(
                    out@,
                    c,
                ) == elems_enc(vs.take(out@.len() as int), c),
    {
        proof {
            assert((i + 1) * sz_s == i * sz_s + sz_s) by (nonlinear_arith);
            assert(n * sz_s >= (i + 1) * sz_s && n * sz_s >= i * sz_s) by (nonlinear_arith)
                requires
                    i < n,
                    sz_s >= 0,
            ;
        }
        d.unclaim_bytes_read(sz);
        let ghost rest_i = d.rest();
        let ghost out_pre = out@;
        proof {
            assert(rest_i =~= rest0.skip(elems_enc(out@, c).len() as int));
            assert(out@.len() == i);
            assert forall|vs: Seq<T>|
                #![trigger prefix_of(elems_enc(vs, c), rest0)]
                #![trigger prefix_of(rest0, elems_enc(vs, c))]
                vs.len() == n && all_wf(vs) && elems_enc(vs, c).len() <= usize::MAX && (prefix_of(
                    elems_enc(vs, c),
                    rest0,
                ) || prefix_of(
                    rest0,
                    elems_enc(vs, c),
                )) implies (vs[i as int].wf() && vs[i as int].enc(c).len() <= usize::MAX && (
            prefix_of(vs[i as int].enc(c), rest_i) || strict_prefix_of(
                rest_i,
                vs[i as int].enc(c),
            )) && (prefix_of(elems_enc(vs, c), rest0) ==> prefix_of(vs[i as int].enc(c), rest_i))
                && vs[i as int].need(c) <= seq_need(vs, c)) by {
                assert(elems_enc(out@, c) == elems_enc(vs.take(i as int), c));
                lemma_candidate_element_aligned(vs, c, rest0, rest_i, out@, i as int);
                lemma_seq_need_elem(vs, c, i as int);
            };
        }
        match T::decode(d) {
            Ok(t) => {
                proof {
                    let a = elems_enc(out@, c).len() as int;
                    assert forall|vs: Seq<T>|
                        vs.len() == n && all_wf(vs) && elems_enc(vs, c).len() <= usize::MAX && ((
                        #[trigger] prefix_of(elems_enc(vs, c), rest0)) || prefix_of(
                            rest0,
                            elems_enc(vs, c),
                        )) implies (dv_seq(out_pre.push(t)) == dv_seq(vs.take(i + 1)) && elems_enc(
                        out_pre.push(t),
                        c,
                    ) == elems_enc(vs.take(i + 1), c)) by {
                        assert(prefix_of(vs[i as int].enc(c), rest_i) || strict_prefix_of(
                            rest_i,
                            vs[i as int].enc(c),
                        ));
                        assert(prefix_of(vs[i as int].enc(c), rest_i));
                        assert(t.deep_view() == vs[i as int].deep_view() && t.enc(c)
                            == vs[i as int].enc(c));
                        lemma_elems_enc_push(out_pre, c, t);
                        lemma_elems_enc_push(vs.take(i as int), c, vs[i as int]);
                        assert(vs.take(i as int).push(vs[i as int]) =~= vs.take(i + 1));
                        assert(elems_enc(out_pre.push(t), c) =~= elems_enc(vs.take(i + 1), c));
                        assert(dv_seq(out_pre.push(t)) =~= dv_seq(vs.take(i + 1))) by {
                            assert(dv_seq(out_pre.push(t)) =~= dv_seq(out_pre).push(t.deep_view()));
                            assert(dv_seq(out_pre) == dv_seq(vs.take(out_pre.len() as int)));
                            assert(dv_seq(vs.take(i + 1)) =~= dv_seq(vs.take(i as int)).push(
                                vs[i as int].deep_view(),
                            ));
                        };
                        assert(out_pre.push(t).len() == i + 1);
                    };
                    lemma_elems_enc_push(out_pre, c, t);
                    crate::wire::lemma_prefix_concat_join(elems_enc(out_pre, c), t.enc(c), rest0);
                }
                out.push(t);
            },
            Err(er) => {
                proof {
                    assert forall|vs: Seq<T>|
                        vs.len() == n && all_wf(vs) && elems_enc(vs, c).len() <= usize::MAX && (
                        #[trigger] prefix_of(elems_enc(vs, c), rest0)) && seq_need(vs, c) <= b0
                        implies false by {
                        assert(prefix_of(vs[i as int].enc(c), rest_i));
                        assert(vs[i as int].need(c) <= seq_need(vs, c));
                    };
                    assert forall|vs: Seq<T>|
                        vs.len() == n && all_wf(vs) && elems_enc(vs, c).len() <= usize::MAX && (
                        #[trigger] strict_prefix_of(rest0, elems_enc(vs, c))) && seq_need(vs, c)
                            <= b0 implies er == DecodeError::UnexpectedEnd by {
                        assert(prefix_of(vs[i as int].enc(c), rest_i) || strict_prefix_of(
                            rest_i,
                            vs[i as int].enc(c),
                        ));
                        assert(vs[i as int].need(c) <= seq_need(vs, c));
                    };
                }
                return Err(er);
            },
        }
    }
    proof {
        assert forall|vs: Seq<T>|
            vs.len() == n && all_wf(vs) && elems_enc(vs, c).len() <= usize::MAX && ((
            #[trigger] prefix_of(elems_enc(vs, c), rest0)) || prefix_of(rest0, elems_enc(vs, c)))
            implies (dv_seq(out@) == dv_seq(vs) && elems_enc(out@, c) == elems_enc(vs, c)) by {
            assert(out@.len() == n);
            assert(vs.take(out@.len() as int) =~= vs);
            assert(dv_seq(out@) == dv_seq(vs.take(out@.len() as int)));
            assert(elems_enc(out@, c) == elems_enc(vs.take(out@.len() as int), c));
        };
        assert forall|vs: Seq<T>|
            vs.len() == n && all_wf(vs) && elems_enc(vs, c).len() <= usize::MAX && (
            #[trigger] strict_prefix_of(rest0, elems_enc(vs, c))) implies false by {
            if prefix_of(elems_enc(vs, c), rest0) {
                assert(elems_enc(out@, c) == elems_enc(vs, c));
            } else {
                assert(prefix_of(rest0, elems_enc(vs, c)));
                assert(elems_enc(out@, c) == elems_enc(vs, c));
            }
            assert(elems_enc(vs, c).len() <= rest0.len());
        };
    }
    Ok(out)
}

/// At each step of a container decode, every candidate sequence whose
/// image is compatible with the original input is aligned with what
/// has been decoded so far: its next element's image either begins the
/// remaining input or is cut off by the input's end.
proof fn lemma_candidate_element_aligned<T: Encode>(
    vs: Seq<T>,
    c: Configuration,
    rest0: Seq<u8>,
    rest_i: Seq<u8>,
    out: Seq<T>,
    i: int,
)
    requires
        0 <= i < vs.len(),
        all_wf(vs),
        elems_enc(vs, c).len() <= usize::MAX,
        prefix_of(elems_enc(vs, c), rest0) || prefix_of(rest0, elems_enc(vs, c)),
        prefix_of(elems_enc(out, c), rest0),
        elems_enc(out, c) == elems_enc(vs.take(i), c),
        rest_i == rest0.skip(elems_enc(out, c).len() as int),
    ensures
        vs[i].enc(c).len() <= usize::MAX,
        prefix_of(vs[i].enc(c), rest_i) || strict_prefix_of(rest_i, vs[i].enc(c)),
        prefix_of(elems_enc(vs, c), rest0) ==> prefix_of(vs[i].enc(c), rest_i),
{
    broadcast use crate::wire::lemma_prefix_refl, lemma_prefix_index;

    let a = elems_enc(out, c).len() as int;
    lemma_elems_enc_split(vs, c, i);
    let tail = elems_enc(vs.skip(i), c);
    lemma_elems_enc_first(vs.skip(i), c);
    assert(vs.skip(i)[0] == vs[i]);
    let e_i = vs[i].enc(c);
    assert(tail == e_i + elems_enc(vs.skip(i).drop_first(), c));
    assert(e_i.len() <= elems_enc(vs, c).len());
    if prefix_of(elems_enc(vs, c), rest0) {
        crate::wire::lemma_prefix_concat_split(elems_enc(vs.take(i), c), tail, rest0);
        assert(prefix_of(tail, rest_i));
        crate::wire::lemma_prefix_concat_split(e_i, elems_enc(vs.skip(i).drop_first(), c), rest_i);
    } else {
        assert(prefix_of(rest_i, elems_enc(vs, c).skip(a))) by {
            assert(rest_i =~= elems_enc(vs, c).skip(a).take(rest0.len() - a));
        };
        assert(elems_enc(vs, c).skip(a) =~= tail);
        if rest_i.len() >= e_i.len() {
            crate::wire::lemma_prefix_concat_split(e_i, elems_enc(vs.skip(i).drop_first(), c), tail);
            crate::wire::lemma_prefix_common(e_i, rest_i, tail);
        } else {
            crate::wire::lemma_prefix_concat_split(e_i, elems_enc(vs.skip(i).drop_first(), c), tail);
            crate::wire::lemma_prefix_common(rest_i, e_i, tail);
        }
    }
}

proof fn lemma_vec_deep_view<T: DeepView>(v: Seq<T>, w: &Vec<T>)
    requires
        w@ == v,
    ensures
        w.deep_view() == dv_seq(v),
{
    assert(w.deep_view() =~= dv_seq(v));
}

impl<T: Encode> Encode for Vec<T> {
    open spec fn enc(&self, c: Configuration) -> Seq<u8> {
        len_enc(c, self@.len()) + elems_enc(self@, c)
    }

    open spec fn wf(&self) -> bool {
        all_wf(self@)
    }

    proof fn lemma_enc_no_confusion(&self, other: &Self, c: Configuration, s: Seq<u8>) {
        crate::wire::lemma_usize_fits_u64();
        vstd::std_specs::vec::axiom_spec_len(self);
        vstd::std_specs::vec::axiom_spec_len(other);
        crate::wire::lemma_prefix_concat_split(len_enc(c, self@.len()), elems_enc(self@, c), s);
        crate::wire::lemma_prefix_concat_split(len_enc(c, other@.len()), elems_enc(other@, c), s);
        lemma_u64_enc_common_prefix(c, self@.len(), other@.len(), s);
        lemma_elems_no_confusion(
            self@,
            other@,
            c,
            s.skip(len_enc(c, self@.len()).len() as int),
        );
        lemma_vec_deep_view(self@, self);
        lemma_vec_deep_view(other@, other);
        assert(self.enc(c) =~= other.enc(c));
    }

    proof fn lemma_enc_no_truncation(&self, other: &Self, c: Configuration, s: Seq<u8>) {
        crate::wire::lemma_usize_fits_u64();
        vstd::std_specs::vec::axiom_spec_len(self);
        vstd::std_specs::vec::axiom_spec_len(other);
        broadcast use crate::wire::lemma_prefix_refl;

        let la = len_enc(c, self@.len());
        let lb = len_enc(c, other@.len());
        crate::wire::lemma_prefix_concat_split(la, elems_enc(self@, c), s);
        crate::wire::lemma_prefix_transitive(la, s, other.enc(c));
        crate::wire::lemma_prefix_concat_split(lb, elems_enc(other@, c), other.enc(c));
        lemma_u64_enc_common_prefix(c, self@.len(), other@.len(), other.enc(c));
        let k = la.len() as int;
        assert(prefix_of(s.skip(k), other.enc(c).skip(k))) by {
            broadcast use lemma_prefix_index;

            assert(s.skip(k) =~= other.enc(c).skip(k).take(s.len() - k));
        };
        assert(other.enc(c).skip(k) =~= elems_enc(other@, c));
        lemma_elems_no_truncation(self@, other@, c, s.skip(k));
        assert(s =~= other.enc(c)) by {
            broadcast use lemma_prefix_index;

            assert forall|i: int| 0 <= i < s.len() implies s[i] == other.enc(c)[i] by {
                if i >= k {
                    assert(s[i] == s.skip(k)[i - k]);
                    assert(other.enc(c)[i] == other.enc(c).skip(k)[i - k]);
                }
            };
        };
    }

    fn encode(&self, e: &mut Encoder) -> (r: Result<(), EncodeError>) {
        e.write_len(self.len());
        match encode_elems(self, e) {
            Ok(_) => (),
            Err(er) => {
                return Err(er);
            },
        }
        proof {
            assert(old(e).bytes() + len_enc(old(e).config(), self@.len()) + elems_enc(
                self@,
                old(e).config(),
            ) =~= old(e).bytes() + self.enc(old(e).config()));
        }
        Ok(())
    }
}

impl<T: Decode> Decode for Vec<T> {
    open spec fn need(&self, c: Configuration) -> nat {
        self@.len() * vstd::layout::size_of::<T>() + seq_need(self@, c)
    }

    #[verifier::rlimit(60)]
    fn decode<'de>(d: &mut Decoder<'de>) -> (r: Result<Self, DecodeError>) {
        let ghost c = d.config();
        let ghost rest0 = d.rest();
        let ghost b0 = d.budget();
        let ghost cl0 = d.claimed();
        proof {
            crate::wire::lemma_usize_fits_u64();
        }
        let n = match d.decode_len() {
            Ok(n) => n,
            Err(e) => {
                proof {
                    assert forall|v2: Vec<T>|
                        v2.wf() && v2.enc(c).len() <= usize::MAX && #[trigger] prefix_of(
                            v2.enc(c),
                            rest0,
                        ) implies false by {
                        vstd::std_specs::vec::axiom_spec_len(&v2);
                        crate::wire::lemma_prefix_concat_split(
                            len_enc(c, v2@.len()),
                            elems_enc(v2@, c),
                            rest0,
                        );
                    };
                    assert forall|v2: Vec<T>|
                        v2.wf() && v2.enc(c).len() <= usize::MAX && #[trigger] strict_prefix_of(
                            rest0,
                            v2.enc(c),
                        ) implies e == DecodeError::UnexpectedEnd by {
                        vstd::std_specs::vec::axiom_spec_len(&v2);
                        let lb = len_enc(c, v2@.len());
                        crate::wire::lemma_prefix_refl(v2.enc(c));
                        assert(v2.enc(c) == lb + elems_enc(v2@, c));
                        crate::wire::lemma_prefix_concat_split(lb, elems_enc(v2@, c), v2.enc(c));
                        if rest0.len() < lb.len() {
                            crate::wire::lemma_prefix_common(rest0, lb, v2.enc(c));
                            assert(strict_prefix_of(rest0, len_enc(c, v2@.len())));
                        } else {
                            crate::wire::lemma_prefix_common(lb, rest0, v2.enc(c));
                            assert(prefix_of(len_enc(c, v2@.len()), rest0));
                        }
                    };
                }
                return Err(e);
            },
        };
        let ghost rest1 = d.rest();
        proof {
            assert(rest1 =~= rest0.skip(len_enc(c, n as nat).len() as int));
            assert forall|v2: Vec<T>|
                v2.wf() && v2.enc(c).len() <= usize::MAX && #[trigger] prefix_of(v2.enc(c), rest0)
                implies v2@.len() == n as nat && prefix_of(elems_enc(v2@, c), rest1) && n as nat
                * vstd::layout::size_of::<T>() + seq_need(v2@, c) == v2.need(c) by {
                vstd::std_specs::vec::axiom_spec_len(&v2);
                crate::wire::lemma_prefix_concat_split(
                    len_enc(c, v2@.len()),
                    elems_enc(v2@, c),
                    rest0,
                );
            };
            assert forall|v2: Vec<T>|
                v2.wf() && v2.enc(c).len() <= usize::MAX && #[trigger] strict_prefix_of(
                    rest0,
                    v2.enc(c),
                ) implies v2@.len() == n as nat && strict_prefix_of(rest1, elems_enc(v2@, c))
                && n as nat * vstd::layout::size_of::<T>() + seq_need(v2@, c) == v2.need(c) by {
                vstd::std_specs::vec::axiom_spec_len(&v2);
                let lb = len_enc(c, v2@.len());
                crate::wire::lemma_prefix_refl(v2.enc(c));
                assert(v2.enc(c) == lb + elems_enc(v2@, c));
                crate::wire::lemma_prefix_concat_split(lb, elems_enc(v2@, c), v2.enc(c));
                if rest0.len() < lb.len() {
                    crate::wire::lemma_prefix_common(rest0, lb, v2.enc(c));
                    assert(strict_prefix_of(rest0, len_enc(c, v2@.len())));
                } else {
                    crate::wire::lemma_prefix_common(lb, rest0, v2.enc(c));
                    assert(prefix_of(len_enc(c, v2@.len()), rest0));
                    assert(v2@.len() == n as nat);
                    let k = lb.len() as int;
                    assert(prefix_of(rest1, v2.enc(c).skip(k))) by {
                        broadcast use lemma_prefix_index;

                        assert(rest1 =~= v2.enc(c).skip(k).take(rest0.len() - k));
                    };
                    assert(v2.enc(c).skip(k) =~= elems_enc(v2@, c));
                }
            };
        }
        match d.claim_container_read::<T>(n) {
            Ok(_) => (),
            Err(e) => {
                proof {
                    assert forall|v2: Vec<T>|
                        v2.wf() && v2.enc(c).len() <= usize::MAX && #[trigger] prefix_of(
                            v2.enc(c),
                            rest0,
                        ) && v2.need(c) <= b0 implies false by {
                        assert(prefix_of(v2.enc(c), rest0));
                        assert(v2@.len() == n as nat);
                        assert(n as nat * vstd::layout::size_of::<T>() + seq_need(v2@, c)
                            == v2.need(c));
                        assert(n * vstd::layout::size_of::<T>() > b0);
                    };
                    assert forall|v2: Vec<T>|
                        v2.wf() && v2.enc(c).len() <= usize::MAX && #[trigger] strict_prefix_of(
                            rest0,
                            v2.enc(c),
                        ) && v2.need(c) <= b0 implies false by {
                        assert(strict_prefix_of(rest0, v2.enc(c)));
                        assert(v2@.len() == n as nat);
                        assert(n as nat * vstd::layout::size_of::<T>() + seq_need(v2@, c)
                            == v2.need(c));
                        assert(n * vstd::layout::size_of::<T>() > b0);
                    };
                }
                return Err(e);
            },
        }
        let ghost b1 = d.budget();
        let ghost d_pre = *d;
        let out = match decode_elems::<T>(d, n) {
            Ok(out) => out,
            Err(e) => {
                proof {
                    assert forall|v2: Vec<T>|
                        v2.wf() && v2.enc(c).len() <= usize::MAX && #[trigger] prefix_of(
                            v2.enc(c),
                            rest0,
                        ) && v2.need(c) <= b0 implies false by {
                        assert(v2@.len() == n as nat);
                        assert(all_wf(v2@));
                        assert(elems_enc(v2@, d_pre.config()).len() <= usize::MAX);
                        assert(d_pre.rest() == rest1);
                        assert(prefix_of(elems_enc(v2@, d_pre.config()), d_pre.rest()));
                        assert(seq_need(v2@, d_pre.config()) <= d_pre.budget());
                    };
                    assert forall|v2: Vec<T>|
                        v2.wf() && v2.enc(c).len() <= usize::MAX && #[trigger] strict_prefix_of(
                            rest0,
                            v2.enc(c),
                        ) && v2.need(c) <= b0 implies e == DecodeError::UnexpectedEnd by {
                        assert(v2@.len() == n as nat);
                        assert(all_wf(v2@));
                        assert(elems_enc(v2@, d_pre.config()).len() <= usize::MAX);
                        assert(d_pre.rest() == rest1);
                        assert(strict_prefix_of(d_pre.rest(), elems_enc(v2@, d_pre.config())));
                        assert(seq_need(v2@, d_pre.config()) <= d_pre.budget());
                    };
                }
                return Err(e);
            },
        };
        proof {
            lemma_vec_deep_view(out@, &out);
            crate::wire::lemma_prefix_concat_join(len_enc(c, n as nat), elems_enc(out@, c), rest0);
            assert(out.enc(c) == len_enc(c, n as nat) + elems_enc(out@, c));
            assert(rest0.len() <= usize::MAX);
            assert forall|v2: Vec<T>|
                v2.wf() && v2.enc(c).len() <= usize::MAX && #[trigger] prefix_of(v2.enc(c), rest0)
                implies out.deep_view() == v2.deep_view() && out.enc(c) == v2.enc(c) by {
                lemma_vec_deep_view(v2@, &v2);
                assert(out.enc(c) =~= v2.enc(c));
            };
            assert forall|v2: Vec<T>|
                v2.wf() && v2.enc(c).len() <= usize::MAX && #[trigger] strict_prefix_of(
                    rest0,
                    v2.enc(c),
                ) implies false by {
                vstd::std_specs::vec::axiom_spec_len(&v2);
                let lb = len_enc(c, v2@.len());
                crate::wire::lemma_prefix_refl(v2.enc(c));
                assert(v2.enc(c) == lb + elems_enc(v2@, c));
                crate::wire::lemma_prefix_concat_split(lb, elems_enc(v2@, c), v2.enc(c));
                crate::wire::lemma_prefix_transitive(len_enc(c, n as nat), rest0, v2.enc(c));
                lemma_u64_enc_common_prefix(c, n as nat, v2@.len(), v2.enc(c));
                let k = lb.len() as int;
                assert(prefix_of(rest0.skip(k), v2.enc(c).skip(k))) by {
                    broadcast use lemma_prefix_index;

                    assert(rest0.skip(k) =~= v2.enc(c).skip(k).take(rest0.len() - k));
                };
                assert(v2.enc(c).skip(k) =~= elems_enc(v2@, c));
                assert(rest1 == rest0.skip(k));
                assert(strict_prefix_of(rest1, elems_enc(v2@, c)));
            };
        }
        Ok(out)
    }
}

/// The wire image of a raw byte span: its length, then the bytes.
pub open spec fn bytes_enc(c: Configuration, b: Seq<u8>) -> Seq<u8> {
    len_enc(c, b.len()) + b
}

proof fn lemma_bytes_no_confusion(a: Seq<u8>, b: Seq<u8>, c: Configuration, s: Seq<u8>)
    requires
        bytes_enc(c, a).len() <= usize::MAX,
        bytes_enc(c, b).len() <= usize::MAX,
        prefix_of(bytes_enc(c, a), s),
        prefix_of(bytes_enc(c, b), s),
    ensures
        a == b,
        bytes_enc(c, a) == bytes_enc(c, b),
{
    crate::wire::lemma_usize_fits_u64();
    crate::wire::lemma_prefix_concat_split(len_enc(c, a.len()), a, s);
    crate::wire::lemma_prefix_concat_split(len_enc(c, b.len()), b, s);
    lemma_u64_enc_common_prefix(c, a.len(), b.len(), s);
    let s1 = s.skip(len_enc(c, a.len()).len() as int);
    assert(a =~= b) by {
        assert(a == s1.take(a.len() as int));
        assert(b == s1.take(b.len() as int));
    };
}

proof fn lemma_bytes_no_truncation(a: Seq<u8>, b: Seq<u8>, c: Configuration, s: Seq<u8>)
    requires
        bytes_enc(c, a).len() <= usize::MAX,
        bytes_enc(c, b).len() <= usize::MAX,
        prefix_of(bytes_enc(c, a), s),
        prefix_of(s, bytes_enc(c, b)),
    ensures
        s == bytes_enc(c, b),
{
    crate::wire::lemma_usize_fits_u64();
    broadcast use crate::wire::lemma_prefix_refl;

    crate::wire::lemma_prefix_concat_split(len_enc(c, a.len()), a, s);
    crate::wire::lemma_prefix_transitive(len_enc(c, a.len()), s, bytes_enc(c, b));
    crate::wire::lemma_prefix_concat_split(len_enc(c, b.len()), b, bytes_enc(c, b));
    lemma_u64_enc_common_prefix(c, a.len(), b.len(), bytes_enc(c, b));
    assert(bytes_enc(c, a).len() == bytes_enc(c, b).len());
    assert(s =~= bytes_enc(c, b)) by {
        broadcast use lemma_prefix_index;

    };
}

impl<'s> Encode for &'s [u8] {
    open spec fn enc(&self, c: Configuration) -> Seq<u8> {
        bytes_enc(c, self@)
    }

    open spec fn wf(&self) -> bool {
        true
    }

    proof fn lemma_enc_no_confusion(&self, other: &Self, c: Configuration, s: Seq<u8>) {
        lemma_bytes_no_confusion(self@, other@, c, s);
        assert(self.deep_view() =~= self@);
        assert(other.deep_view() =~= other@);
    }

    proof fn lemma_enc_no_truncation(&self, other: &Self, c: Configuration, s: Seq<u8>) {
        lemma_bytes_no_truncation(self@, other@, c, s);
    }

    fn encode(&self, e: &mut Encoder) -> (r: Result<(), EncodeError>) {
        e.write_len(self.len());
        e.write_raw(self);
        proof {
            assert(old(e).bytes() + len_enc(old(e).config(), self@.len()) + self@ =~= old(
                e,
            ).bytes() + self.enc(old(e).config()));
        }
        Ok(())
    }
}


impl<'s> Encode for &'s str {
    open spec fn enc(&self, c: Configuration) -> Seq<u8> {
        text_enc(c, self@)
    }

    open spec fn wf(&self) -> bool {
        true
    }

    proof fn lemma_enc_no_confusion(&self, other: &Self, c: Configuration, s: Seq<u8>) {
        lemma_text_no_confusion(self@, other@, c, s);
    }

    proof fn lemma_enc_no_truncation(&self, other: &Self, c: Configuration, s: Seq<u8>) {
        lemma_text_no_truncation(self@, other@, c, s);
    }

    fn encode(&self, e: &mut Encoder) -> (r: Result<(), EncodeError>) {
        let bytes = self.as_bytes();
        e.write_len(bytes.len());
        e.write_raw(bytes);
        proof {
            assert(old(e).bytes() + len_enc(old(e).config(), encode_utf8(self@).len()) + bytes@
                =~= old(e).bytes() + self.enc(old(e).config()));
        }
        Ok(())
    }
}


impl<A: Encode, B: Encode> Encode for (A, B) {
    open spec fn enc(&self, c: Configuration) -> Seq<u8> {
        self.0.enc(c) + self.1.enc(c)
    }

    open spec fn wf(&self) -> bool {
        self.0.wf() && self.1.wf()
    }

    proof fn lemma_enc_no_confusion(&self, other: &Self, c: Configuration, s: Seq<u8>) {
        crate::wire::lemma_prefix_concat_split(self.0.enc(c), self.1.enc(c), s);
        crate::wire::lemma_prefix_concat_split(other.0.enc(c), other.1.enc(c), s);
        self.0.lemma_enc_no_confusion(&other.0, c, s);
        self.1.lemma_enc_no_confusion(&other.1, c, s.skip(self.0.enc(c).len() as int));
        assert(self.enc(c) =~= other.enc(c));
    }

    proof fn lemma_enc_no_truncation(&self, other: &Self, c: Configuration, s: Seq<u8>) {
        broadcast use crate::wire::lemma_prefix_refl, lemma_prefix_index;

        crate::wire::lemma_prefix_concat_split(self.0.enc(c), self.1.enc(c), s);
        crate::wire::lemma_prefix_concat_split(other.0.enc(c), other.1.enc(c), other.enc(c));
        if s.len() < other.0.enc(c).len() {
            crate::wire::lemma_prefix_common(s, other.0.enc(c), other.enc(c));
            self.0.lemma_enc_no_truncation(&other.0, c, s);
            assert(false);
        } else {
            crate::wire::lemma_prefix_common(other.0.enc(c), s, other.enc(c));
            self.0.lemma_enc_no_confusion(&other.0, c, s);
            let k = self.0.enc(c).len() as int;
            assert(prefix_of(s.skip(k), other.enc(c).skip(k))) by {
                assert(s.skip(k) =~= other.enc(c).skip(k).take(s.len() - k));
            };
            assert(other.enc(c).skip(k) =~= other.1.enc(c));
            self.1.lemma_enc_no_truncation(&other.1, c, s.skip(k));
            assert(s =~= other.enc(c)) by {
                assert forall|i: int| 0 <= i < s.len() implies s[i] == other.enc(c)[i] by {
                    if i >= k {
                        assert(s[i] == s.skip(k)[i - k]);
                        assert(other.enc(c)[i] == other.enc(c).skip(k)[i - k]);
                    }
                };
            };
        }
    }

    fn encode(&self, e: &mut Encoder) -> (r: Result<(), EncodeError>) {
        match self.0.encode(e) {
            Ok(_) => (),
            Err(er) => {
                return Err(er);
            },
        }
        match self.1.encode(e) {
            Ok(_) => (),
            Err(er) => {
                return Err(er);
            },
        }
        proof {
            assert(old(e).bytes() + self.0.enc(old(e).config()) + self.1.enc(old(e).config())
                =~= old(e).bytes() + self.enc(old(e).config()));
        }
        Ok(())
    }
}

impl<A: Decode, B: Decode> Decode for (A, B) {
    open spec fn need(&self, c: Configuration) -> nat {
        if self.0.need(c) >= self.1.need(c) {
            self.0.need(c)
        } else {
            self.1.need(c)
        }
    }

    #[verifier::rlimit(60)]
    fn decode<'de>(d: &mut Decoder<'de>) -> (r: Result<Self, DecodeError>) {
        let ghost c = d.config();
        let ghost rest0 = d.rest();
        let ghost b0 = d.budget();
        proof {
            assert forall|v2: (A, B)|
                v2.wf() && v2.enc(c).len() <= usize::MAX && #[trigger] prefix_of(v2.enc(c), rest0)
                implies (v2.0.wf() && v2.0.enc(c).len() <= usize::MAX && prefix_of(
                v2.0.enc(c),
                rest0,
            ) && v2.0.need(c) <= v2.need(c)) by {
                crate::wire::lemma_prefix_concat_split(v2.0.enc(c), v2.1.enc(c), rest0);
            };
            assert forall|v2: (A, B)|
                v2.wf() && v2.enc(c).len() <= usize::MAX && #[trigger] strict_prefix_of(
                    rest0,
                    v2.enc(c),
                ) implies (v2.0.wf() && v2.0.enc(c).len() <= usize::MAX && v2.0.need(c) <= v2.need(
                c,
            ) && (prefix_of(v2.0.enc(c), rest0) || strict_prefix_of(rest0, v2.0.enc(c)))) by {
                crate::wire::lemma_prefix_refl(v2.enc(c));
                assert(v2.enc(c) == v2.0.enc(c) + v2.1.enc(c));
                crate::wire::lemma_prefix_concat_split(v2.0.enc(c), v2.1.enc(c), v2.enc(c));
                if rest0.len() < v2.0.enc(c).len() {
                    crate::wire::lemma_prefix_common(rest0, v2.0.enc(c), v2.enc(c));
                } else {
                    crate::wire::lemma_prefix_common(v2.0.enc(c), rest0, v2.enc(c));
                }
            };
        }
        let a = match A::decode(d) {
            Ok(a) => a,
            Err(e) => {
                proof {
                    assert forall|v2: (A, B)|
                        v2.wf() && v2.enc(c).len() <= usize::MAX && #[trigger] strict_prefix_of(
                            rest0,
                            v2.enc(c),
                        ) && v2.need(c) <= b0 implies e == DecodeError::UnexpectedEnd by {
                        assert(prefix_of(v2.0.enc(c), rest0) || strict_prefix_of(
                            rest0,
                            v2.0.enc(c),
                        ));
                    };
                }
                return Err(e);
            },
        };
        let ghost rest1 = d.rest();
        proof {
            assert(rest1 =~= rest0.skip(a.enc(c).len() as int));
            assert forall|v2: (A, B)|
                v2.wf() && v2.enc(c).len() <= usize::MAX && #[trigger] prefix_of(v2.enc(c), rest0)
                implies (v2.1.wf() && v2.1.enc(c).len() <= usize::MAX && prefix_of(
                v2.1.enc(c),
                rest1,
            ) && v2.1.need(c) <= v2.need(c) && v2.0.enc(c) == a.enc(c) && v2.0.deep_view()
                == a.deep_view()) by {
                crate::wire::lemma_prefix_concat_split(v2.0.enc(c), v2.1.enc(c), rest0);
            };
            assert forall|v2: (A, B)|
                v2.wf() && v2.enc(c).len() <= usize::MAX && #[trigger] strict_prefix_of(
                    rest0,
                    v2.enc(c),
                ) implies (v2.1.wf() && v2.1.enc(c).len() <= usize::MAX && v2.1.need(c)
                <= v2.need(c) && strict_prefix_of(rest1, v2.1.enc(c))) by {
                assert(prefix_of(v2.0.enc(c), rest0) || strict_prefix_of(rest0, v2.0.enc(c)));
                assert(prefix_of(v2.0.enc(c), rest0));
                assert(v2.0.enc(c) == a.enc(c));
                crate::wire::lemma_prefix_refl(v2.enc(c));
                assert(v2.enc(c) == v2.0.enc(c) + v2.1.enc(c));
                crate::wire::lemma_prefix_concat_split(v2.0.enc(c), v2.1.enc(c), v2.enc(c));
                let k = v2.0.enc(c).len() as int;
                assert(prefix_of(rest1, v2.enc(c).skip(k))) by {
                    broadcast use lemma_prefix_index;

                    assert(rest1 =~= v2.enc(c).skip(k).take(rest0.len() - k));
                };
                assert(v2.enc(c).skip(k) =~= v2.1.enc(c));
            };
        }
        let b = match B::decode(d) {
            Ok(b) => b,
            Err(e) => {
                proof {
                    assert forall|v2: (A, B)|
                        v2.wf() && v2.enc(c).len() <= usize::MAX && #[trigger] strict_prefix_of(
                            rest0,
                            v2.enc(c),
                        ) && v2.need(c) <= b0 implies e == DecodeError::UnexpectedEnd by {
                        assert(strict_prefix_of(rest1, v2.1.enc(c)));
                    };
                }
                return Err(e);
            },
        };
        let w = (a, b);
        proof {
            crate::wire::lemma_prefix_concat_join(w.0.enc(c), w.1.enc(c), rest0);
            assert(rest0.len() <= usize::MAX);
            lemma_image_pins_candidates(&w, c, rest0);
            assert forall|v2: (A, B)|
                v2.wf() && v2.enc(c).len() <= usize::MAX && #[trigger] strict_prefix_of(
                    rest0,
                    v2.enc(c),
                ) implies false by {
                w.lemma_enc_no_truncation(&v2, c, rest0);
            };
        }
        Ok(w)
    }
}








/// The concatenated borrow-path images of a sequence of elements.
pub open spec fn borrow_elems_enc<'de, T: BorrowDecode<'de>>(s: Seq<T>, c: Configuration) -> Seq<
    u8,
> {
    s.map_values(|t: T| t.borrow_enc(c)).flatten()
}

/// The summed borrow-path decode budget of a sequence of elements.
pub open spec fn borrow_seq_need<'de, T: BorrowDecode<'de>>(s: Seq<T>, c: Configuration) -> nat
    decreases s.len(),
{
    if s.len() == 0 {
        0
    } else {
        s[0].borrow_need(c) + borrow_seq_need(s.drop_first(), c)
    }
}

proof fn lemma_borrow_elems_enc_first<'de, T: BorrowDecode<'de>>(s: Seq<T>, c: Configuration)
    requires
        s.len() > 0,
    ensures
        borrow_elems_enc(s, c) == s[0].borrow_enc(c) + borrow_elems_enc(s.drop_first(), c),
{
    let m = s.map_values(|t: T| t.borrow_enc(c));
    assert(m.drop_first() =~= s.drop_first().map_values(|t: T| t.borrow_enc(c)));
    assert(m.flatten() == m[0] + m.drop_first().flatten());
}

proof fn lemma_borrow_elems_enc_push<'de, T: BorrowDecode<'de>>(s: Seq<T>, c: Configuration, x: T)
    ensures
        borrow_elems_enc(s.push(x), c) == borrow_elems_enc(s, c) + x.borrow_enc(c),
    decreases s.len(),
{
    let m = s.map_values(|t: T| t.borrow_enc(c));
    assert(s.push(x).map_values(|t: T| t.borrow_enc(c)) =~= m.push(x.borrow_enc(c)));
    Seq::lemma_flatten_push(m, x.borrow_enc(c));
}

proof fn lemma_borrow_seq_need_elem<'de, T: BorrowDecode<'de>>(s: Seq<T>, c: Configuration, i: int)
    requires
        0 <= i < s.len(),
    ensures
        s[i].borrow_need(c) <= borrow_seq_need(s, c),
    decreases s.len(),
{
    if i > 0 {
        lemma_borrow_seq_need_elem(s.drop_first(), c, i - 1);
    }
}

/// Two same-arity element sequences whose concatenated borrow-path
/// images begin the same stream have the same images and the same
/// contents, element by element.
pub(crate) proof fn lemma_borrow_elems_no_confusion<'de, T: BorrowDecode<'de>>(xs: Seq<T>, ys: Seq<T>, c: Configuration, s: Seq<u8>)
    requires
        xs.len() == ys.len(),
        all_wf(xs),
        all_wf(ys),
        borrow_elems_enc(xs, c).len() <= usize::MAX,
        borrow_elems_enc(ys, c).len() <= usize::MAX,
        prefix_of(borrow_elems_enc(xs, c), s),
        prefix_of(borrow_elems_enc(ys, c), s),
    ensures
        borrow_elems_enc(xs, c) == borrow_elems_enc(ys, c),
        dv_seq(xs) == dv_seq(ys),
    decreases xs.len(),
{
    if xs.len() == 0 {
        assert(borrow_elems_enc(xs, c) =~= borrow_elems_enc(ys, c));
        assert(dv_seq(xs) =~= dv_seq(ys));
    } else {
        lemma_borrow_elems_enc_first(xs, c);
        lemma_borrow_elems_enc_first(ys, c);
        let ex0 = xs[0].borrow_enc(c);
        let ey0 = ys[0].borrow_enc(c);
        crate::wire::lemma_prefix_concat_split(ex0, borrow_elems_enc(xs.drop_first(), c), s);
        crate::wire::lemma_prefix_concat_split(ey0, borrow_elems_enc(ys.drop_first(), c), s);
        xs[0].lemma_borrow_enc_no_confusion(&ys[0], c, s);
        lemma_borrow_elems_no_confusion(xs.drop_first(), ys.drop_first(), c, s.skip(ex0.len() as int));
        assert(borrow_elems_enc(xs, c) =~= borrow_elems_enc(ys, c));
        assert(dv_seq(xs) =~= dv_seq(ys)) by {
            assert(dv_seq(xs.drop_first()) =~= dv_seq(xs).drop_first());
            assert(dv_seq(ys.drop_first()) =~= dv_seq(ys).drop_first());
            assert forall|i: int| 0 <= i < dv_seq(xs).len() implies dv_seq(xs)[i] == dv_seq(
                ys,
            )[i] by {
                if i > 0 {
                    assert(dv_seq(xs)[i] == dv_seq(xs.drop_first())[i - 1]);
                    assert(dv_seq(ys)[i] == dv_seq(ys.drop_first())[i - 1]);
                }
            };
        };
    }
}

/// A stream fragment that contains one whole same-arity borrow-path
/// image and sits inside another is that whole image.
pub(crate) proof fn lemma_borrow_elems_no_truncation<'de, T: BorrowDecode<'de>>(xs: Seq<T>, ys: Seq<T>, c: Configuration, s: Seq<u8>)
    requires
        xs.len() == ys.len(),
        all_wf(xs),
        all_wf(ys),
        borrow_elems_enc(xs, c).len() <= usize::MAX,
        borrow_elems_enc(ys, c).len() <= usize::MAX,
        prefix_of(borrow_elems_enc(xs, c), s),
        prefix_of(s, borrow_elems_enc(ys, c)),
    ensures
        s == borrow_elems_enc(ys, c),
    decreases xs.len(),
{
    broadcast use crate::wire::lemma_prefix_refl;

    if xs.len() == 0 {
        assert(borrow_elems_enc(xs, c) =~= Seq::<u8>::empty());
        assert(borrow_elems_enc(ys, c) =~= Seq::<u8>::empty());
        assert(s =~= borrow_elems_enc(ys, c));
    } else {
        lemma_borrow_elems_enc_first(xs, c);
        lemma_borrow_elems_enc_first(ys, c);
        let ex0 = xs[0].borrow_enc(c);
        let ey0 = ys[0].borrow_enc(c);
        crate::wire::lemma_prefix_concat_split(ex0, borrow_elems_enc(xs.drop_first(), c), s);
        crate::wire::lemma_prefix_concat_split(ey0, borrow_elems_enc(ys.drop_first(), c), borrow_elems_enc(ys, c));
        if s.len() < ey0.len() {
            crate::wire::lemma_prefix_common(s, ey0, borrow_elems_enc(ys, c));
            xs[0].lemma_borrow_enc_no_truncation(&ys[0], c, s);
            assert(false);
        } else {
            crate::wire::lemma_prefix_common(ey0, s, borrow_elems_enc(ys, c));
            xs[0].lemma_borrow_enc_no_confusion(&ys[0], c, s);
            assert(prefix_of(s.skip(ey0.len() as int), borrow_elems_enc(ys, c).skip(ey0.len() as int)))
                by {
                broadcast use lemma_prefix_index;

                assert(s.skip(ey0.len() as int) =~= borrow_elems_enc(ys, c).skip(ey0.len() as int).take(
                    s.len() - ey0.len(),
                ));
            };
            assert(borrow_elems_enc(ys, c).skip(ey0.len() as int) =~= borrow_elems_enc(ys.drop_first(), c));
            lemma_borrow_elems_no_truncation(
                xs.drop_first(),
                ys.drop_first(),
                c,
                s.skip(ex0.len() as int),
            );
            assert(s =~= borrow_elems_enc(ys, c));
        }
    }
}

proof fn lemma_borrow_elems_enc_split<'de, T: BorrowDecode<'de>>(s: Seq<T>, c: Configuration, i: int)
    requires
        0 <= i <= s.len(),
    ensures
        borrow_elems_enc(s, c) == borrow_elems_enc(s.take(i), c) + borrow_elems_enc(s.skip(i), c),
    decreases i,
{
    if i == 0 {
        assert(s.take(0) =~= Seq::<T>::empty());
        assert(s.skip(0) =~= s);
        assert(borrow_elems_enc(Seq::<T>::empty(), c) =~= Seq::<u8>::empty());
        assert(borrow_elems_enc(s, c) =~= Seq::<u8>::empty() + borrow_elems_enc(s, c));
    } else {
        lemma_borrow_elems_enc_split(s, c, i - 1);
        lemma_borrow_elems_enc_push(s.take(i - 1), c, s[i - 1]);
        assert(s.take(i - 1).push(s[i - 1]) =~= s.take(i));
        lemma_borrow_elems_enc_first(s.skip(i - 1), c);
        assert(s.skip(i - 1)[0] == s[i - 1]);
        assert(s.skip(i - 1).drop_first() =~= s.skip(i));
        assert((borrow_elems_enc(s.take(i - 1), c) + s[i - 1].borrow_enc(c)) + borrow_elems_enc(s.skip(i), c)
            =~= borrow_elems_enc(s.take(i - 1), c) + (s[i - 1].borrow_enc(c) + borrow_elems_enc(s.skip(i), c)));
    }
}

/// Decode `n` borrowed elements in order. The caller has already claimed the
/// container's reservation; each element's share is unclaimed here
/// immediately before that element's own decode begins, so on success
/// the whole reservation has flowed back.
#[verifier::rlimit(100)]
#[verifier::loop_isolation(false)]
pub(crate) fn borrow_decode_elems<'de, T: BorrowDecode<'de>>(d: &mut Decoder<'de>, n: usize) -> (r: Result<
    Vec<T>,
    DecodeError,
>)
    requires
        old(d).inv(),
        old(d).claimed() >= n * vstd::layout::size_of::<T>(),
    ensures
        final(d).inv(),
        final(d).config() == old(d).config(),
        final(d).input_seq() == old(d).input_seq(),
        old(d).pos() <= final(d).pos() <= final(d).input_seq().len(),
        match r {
            Ok(out) => {
                &&& out@.len() == n
                &&& all_wf(out@)
                &&& prefix_of(borrow_elems_enc(out@, old(d).config()), old(d).rest())
                &&& final(d).pos() == old(d).pos() + borrow_elems_enc(out@, old(d).config()).len()
                &&& final(d).budget() == old(d).budget() + n * vstd::layout::size_of::<T>()
                &&& final(d).claimed() == old(d).claimed() - n * vstd::layout::size_of::<T>()
            },
            Err(_) => true,
        },
        forall|vs: Seq<T>|
            vs.len() == n && all_wf(vs) && borrow_elems_enc(vs, old(d).config()).len() <= usize::MAX && (
            #[trigger] prefix_of(borrow_elems_enc(vs, old(d).config()), old(d).rest())) ==> match r {
                Ok(out) => dv_seq(out@) == dv_seq(vs) && borrow_elems_enc(out@, old(d).config())
                    == borrow_elems_enc(vs, old(d).config()),
                Err(_) => true,
            },
        forall|vs: Seq<T>|
            vs.len() == n && all_wf(vs) && borrow_elems_enc(vs, old(d).config()).len() <= usize::MAX && (
            #[trigger] strict_prefix_of(old(d).rest(), borrow_elems_enc(vs, old(d).config()))) ==> !(
            r is Ok),
        forall|vs: Seq<T>|
            vs.len() == n && all_wf(vs) && borrow_elems_enc(vs, old(d).config()).len() <= usize::MAX && (
            #[trigger] prefix_of(borrow_elems_enc(vs, old(d).config()), old(d).rest())) && borrow_seq_need(
                vs,
                old(d).config(),
            ) <= old(d).budget() ==> r is Ok,
        forall|vs: Seq<T>|
            vs.len() == n && all_wf(vs) && borrow_elems_enc(vs, old(d).config()).len() <= usize::MAX && (
            #[trigger] strict_prefix_of(old(d).rest(), borrow_elems_enc(vs, old(d).config())))
                && borrow_seq_need(vs, old(d).config()) <= old(d).budget() ==> r == Err::<
                Vec<T>,
                DecodeError,
            >(DecodeError::UnexpectedEnd),
{
    let ghost c = old(d).config();
    let ghost inp = old(d).input_seq();
    let ghost rest0 = old(d).rest();
    let ghost pos0 = old(d).pos();
    let ghost b0 = old(d).budget();
    let ghost cl0 = old(d).claimed();
    let ghost sz_s = vstd::layout::size_of::<T>();
    let sz = core::mem::size_of::<T>();
    let mut out: Vec<T> = Vec::new();
    proof {
        assert(borrow_elems_enc(out@, c) =~= Seq::<u8>::empty());
        assert(prefix_of(borrow_elems_enc(out@, c), rest0)) by {
            assert(borrow_elems_enc(out@, c) =~= rest0.take(0));
        };
    }
    proof {
        assert(0 * sz_s == 0) by (nonlinear_arith);
    }
    for i in 0..n
        invariant
            d.inv(),
            d.config() == c,
            d.input_seq() == inp,
            rest0 == inp.skip(pos0 as int),
            pos0 <= d.pos() <= inp.len(),
            sz == sz_s,
            cl0 >= n * sz_s,
            d.budget() == b0 + i * sz_s,
            d.claimed() == cl0 - i * sz_s,
            out@.len() == i,
            all_wf(out@),
            prefix_of(borrow_elems_enc(out@, c), rest0),
            d.pos() == pos0 + borrow_elems_enc(out@, c).len(),
            forall|vs: Seq<T>|
                #![trigger prefix_of(borrow_elems_enc(vs, c), rest0)]
                #![trigger prefix_of(rest0, borrow_elems_enc(vs, c))]
                vs.len() == n && all_wf(vs) && borrow_elems_enc(vs, c).len() <= usize::MAX && (prefix_of(
                    borrow_elems_enc(vs, c),
                    rest0,
                ) || prefix_of(
                    rest0,
                    borrow_elems_enc(vs, c),
                )) ==> dv_seq(out@) == dv_seq(vs.take(out@.len() as int)) && borrow_elems_enc(
                    out@,
                    c,
                ) == borrow_elems_enc(vs.take(out@.len() as int), c),
    {
        proof {
            assert((i + 1) * sz_s == i * sz_s + sz_s) by (nonlinear_arith);
            assert(n * sz_s >= (i + 1) * sz_s && n * sz_s >= i * sz_s) by (nonlinear_arith)
                requires
                    i < n,
                    sz_s >= 0,
            ;
        }
        d.unclaim_bytes_read(sz);
        let ghost rest_i = d.rest();
        let ghost out_pre = out@;
        proof {
            assert(rest_i =~= rest0.skip(borrow_elems_enc(out@, c).len() as int));
            assert(out@.len() == i);
            assert forall|vs: Seq<T>|
                #![trigger prefix_of(borrow_elems_enc(vs, c), rest0)]
                #![trigger prefix_of(rest0, borrow_elems_enc(vs, c))]
                vs.len() == n && all_wf(vs) && borrow_elems_enc(vs, c).len() <= usize::MAX && (prefix_of(
                    borrow_elems_enc(vs, c),
                    rest0,
                ) || prefix_of(
                    rest0,
                    borrow_elems_enc(vs, c),
                )) implies (vs[i as int].wf() && vs[i as int].borrow_enc(c).len() <= usize::MAX && (
            prefix_of(vs[i as int].borrow_enc(c), rest_i) || strict_prefix_of(
                rest_i,
                vs[i as int].borrow_enc(c),
            )) && (prefix_of(borrow_elems_enc(vs, c), rest0) ==> prefix_of(vs[i as int].borrow_enc(c), rest_i))
                && vs[i as int].borrow_need(c) <= borrow_seq_need(vs, c)) by {
                assert(borrow_elems_enc(out@, c) == borrow_elems_enc(vs.take(i as int), c));
                lemma_borrow_candidate_element_aligned(vs, c, rest0, rest_i, out@, i as int);
                lemma_borrow_seq_need_elem(vs, c, i as int);
            };
        }
        match T::borrow_decode(d) {
            Ok(t) => {
                proof {
                    let a = borrow_elems_enc(out@, c).len() as int;
                    assert forall|vs: Seq<T>|
                        vs.len() == n && all_wf(vs) && borrow_elems_enc(vs, c).len() <= usize::MAX && ((
                        #[trigger] prefix_of(borrow_elems_enc(vs, c), rest0)) || prefix_of(
                            rest0,
                            borrow_elems_enc(vs, c),
                        )) implies (dv_seq(out_pre.push(t)) == dv_seq(vs.take(i + 1)) && borrow_elems_enc(
                        out_pre.push(t),
                        c,
                    ) == borrow_elems_enc(vs.take(i + 1), c)) by {
                        assert(prefix_of(vs[i as int].borrow_enc(c), rest_i) || strict_prefix_of(
                            rest_i,
                            vs[i as int].borrow_enc(c),
                        ));
                        assert(prefix_of(vs[i as int].borrow_enc(c), rest_i));
                        assert(t.deep_view() == vs[i as int].deep_view() && t.borrow_enc(c)
                            == vs[i as int].borrow_enc(c));
                        lemma_borrow_elems_enc_push(out_pre, c, t);
                        lemma_borrow_elems_enc_push(vs.take(i as int), c, vs[i as int]);
                        assert(vs.take(i as int).push(vs[i as int]) =~= vs.take(i + 1));
                        assert(borrow_elems_enc(out_pre.push(t), c) =~= borrow_elems_enc(vs.take(i + 1), c));
                        assert(dv_seq(out_pre.push(t)) =~= dv_seq(vs.take(i + 1))) by {
                            assert(dv_seq(out_pre.push(t)) =~= dv_seq(out_pre).push(t.deep_view()));
                            assert(dv_seq(out_pre) == dv_seq(vs.take(out_pre.len() as int)));
                            assert(dv_seq(vs.take(i + 1)) =~= dv_seq(vs.take(i as int)).push(
                                vs[i as int].deep_view(),
                            ));
                        };
                        assert(out_pre.push(t).len() == i + 1);
                    };
                    lemma_borrow_elems_enc_push(out_pre, c, t);
                    crate::wire::lemma_prefix_concat_join(borrow_elems_enc(out_pre, c), t.borrow_enc(c), rest0);
                }
                out.push(t);
            },
            Err(er) => {
                proof {
                    assert forall|vs: Seq<T>|
                        vs.len() == n && all_wf(vs) && borrow_elems_enc(vs, c).len() <= usize::MAX && (
                        #[trigger] prefix_of(borrow_elems_enc(vs, c), rest0)) && borrow_seq_need(vs, c) <= b0
                        implies false by {
                        assert(prefix_of(vs[i as int].borrow_enc(c), rest_i));
                        assert(vs[i as int].borrow_need(c) <= borrow_seq_need(vs, c));
                    };
                    assert forall|vs: Seq<T>|
                        vs.len() == n && all_wf(vs) && borrow_elems_enc(vs, c).len() <= usize::MAX && (
                        #[trigger] strict_prefix_of(rest0, borrow_elems_enc(vs, c))) && borrow_seq_need(vs, c)
                            <= b0 implies er == DecodeError::UnexpectedEnd by {
                        assert(prefix_of(vs[i as int].borrow_enc(c), rest_i) || strict_prefix_of(
                            rest_i,
                            vs[i as int].borrow_enc(c),
                        ));
                        assert(vs[i as int].borrow_need(c) <= borrow_seq_need(vs, c));
                    };
                }
                return Err(er);
            },
        }
    }
    proof {
        assert forall|vs: Seq<T>|
            vs.len() == n && all_wf(vs) && borrow_elems_enc(vs, c).len() <= usize::MAX && ((
            #[trigger] prefix_of(borrow_elems_enc(vs, c), rest0)) || prefix_of(rest0, borrow_elems_enc(vs, c)))
            implies (dv_seq(out@) == dv_seq(vs) && borrow_elems_enc(out@, c) == borrow_elems_enc(vs, c)) by {
            assert(out@.len() == n);
            assert(vs.take(out@.len() as int) =~= vs);
            assert(dv_seq(out@) == dv_seq(vs.take(out@.len() as int)));
            assert(borrow_elems_enc(out@, c) == borrow_elems_enc(vs.take(out@.len() as int), c));
        };
        assert forall|vs: Seq<T>|
            vs.len() == n && all_wf(vs) && borrow_elems_enc(vs, c).len() <= usize::MAX && (
            #[trigger] strict_prefix_of(rest0, borrow_elems_enc(vs, c))) implies false by {
            if prefix_of(borrow_elems_enc(vs, c), rest0) {
                assert(borrow_elems_enc(out@, c) == borrow_elems_enc(vs, c));
            } else {
                assert(prefix_of(rest0, borrow_elems_enc(vs, c)));
                assert(borrow_elems_enc(out@, c) == borrow_elems_enc(vs, c));
            }
            assert(borrow_elems_enc(vs, c).len() <= rest0.len());
        };
    }
    Ok(out)
}

/// At each step of a container decode, every candidate sequence whose
/// image is compatible with the original input is aligned with what
/// has been decoded so far: its next element's image either begins the
/// remaining input or is cut off by the input's end.
proof fn lemma_borrow_candidate_element_aligned<'de, T: BorrowDecode<'de>>(
    vs: Seq<T>,
    c: Configuration,
    rest0: Seq<u8>,
    rest_i: Seq<u8>,
    out: Seq<T>,
    i: int,
)
    requires
        0 <= i < vs.len(),
        all_wf(vs),
        borrow_elems_enc(vs, c).len() <= usize::MAX,
        prefix_of(borrow_elems_enc(vs, c), rest0) || prefix_of(rest0, borrow_elems_enc(vs, c)),
        prefix_of(borrow_elems_enc(out, c), rest0),
        borrow_elems_enc(out, c) == borrow_elems_enc(vs.take(i), c),
        rest_i == rest0.skip(borrow_elems_enc(out, c).len() as int),
    ensures
        vs[i].borrow_enc(c).len() <= usize::MAX,
        prefix_of(vs[i].borrow_enc(c), rest_i) || strict_prefix_of(rest_i, vs[i].borrow_enc(c)),
        prefix_of(borrow_elems_enc(vs, c), rest0) ==> prefix_of(vs[i].borrow_enc(c), rest_i),
{
    broadcast use crate::wire::lemma_prefix_refl, lemma_prefix_index;

    let a = borrow_elems_enc(out, c).len() as int;
    lemma_borrow_elems_enc_split(vs, c, i);
    let tail = borrow_elems_enc(vs.skip(i), c);
    lemma_borrow_elems_enc_first(vs.skip(i), c);
    assert(vs.skip(i)[0] == vs[i]);
    let e_i = vs[i].borrow_enc(c);
    assert(tail == e_i + borrow_elems_enc(vs.skip(i).drop_first(), c));
    assert(e_i.len() <= borrow_elems_enc(vs, c).len());
    if prefix_of(borrow_elems_enc(vs, c), rest0) {
        crate::wire::lemma_prefix_concat_split(borrow_elems_enc(vs.take(i), c), tail, rest0);
        assert(prefix_of(tail, rest_i));
        crate::wire::lemma_prefix_concat_split(e_i, borrow_elems_enc(vs.skip(i).drop_first(), c), rest_i);
    } else {
        assert(prefix_of(rest_i, borrow_elems_enc(vs, c).skip(a))) by {
            assert(rest_i =~= borrow_elems_enc(vs, c).skip(a).take(rest0.len() - a));
        };
        assert(borrow_elems_enc(vs, c).skip(a) =~= tail);
        if rest_i.len() >= e_i.len() {
            crate::wire::lemma_prefix_concat_split(e_i, borrow_elems_enc(vs.skip(i).drop_first(), c), tail);
            crate::wire::lemma_prefix_common(e_i, rest_i, tail);
        } else {
            crate::wire::lemma_prefix_concat_split(e_i, borrow_elems_enc(vs.skip(i).drop_first(), c), tail);
            crate::wire::lemma_prefix_common(rest_i, e_i, tail);
        }
    }
}



impl<'de> BorrowDecode<'de> for u8 {
    open spec fn borrow_enc(&self, c: Configuration) -> Seq<u8> {
        self.enc(c)
    }

    open spec fn borrow_need(&self, c: Configuration) -> nat {
        self.need(c)
    }

    proof fn lemma_borrow_enc_no_confusion(&self, other: &Self, c: Configuration, s: Seq<u8>) {
        self.lemma_enc_no_confusion(other, c, s);
    }

    proof fn lemma_borrow_enc_no_truncation(&self, other: &Self, c: Configuration, s: Seq<u8>) {
        self.lemma_enc_no_truncation(other, c, s);
    }

    /// The borrow path of a type without a zero-copy representation
    /// is its owned decode; the image and the need coincide, so the
    /// owned contract carries over clause by clause.
    fn borrow_decode(d: &mut Decoder<'de>) -> (r: Result<Self, DecodeError>) {
        let ghost c = d.config();
        let ghost rest0 = d.rest();
        let r = Self::decode(d);
        proof {
            if let Ok(ref w) = r {
                assert(w.borrow_enc(c) == w.enc(c));
            }
            assert forall|v: Self|
                v.wf() && v.borrow_enc(c).len() <= usize::MAX && #[trigger] prefix_of(
                    v.borrow_enc(c),
                    rest0,
                ) implies (match r {
                Ok(ref w) => w.deep_view() == v.deep_view() && w.borrow_enc(c) == v.borrow_enc(c),
                Err(_) => true,
            } && (v.borrow_need(c) <= old(d).budget() ==> r is Ok)) by {
                assert(v.borrow_enc(c) == v.enc(c));
                assert(prefix_of(v.enc(c), rest0));
            };
            assert forall|v: Self|
                v.wf() && v.borrow_enc(c).len() <= usize::MAX && #[trigger] strict_prefix_of(
                    rest0,
                    v.borrow_enc(c),
                ) implies (!(r is Ok) && (v.borrow_need(c) <= old(d).budget() ==> r == Err::<
                Self,
                DecodeError,
            >(DecodeError::UnexpectedEnd))) by {
                assert(v.borrow_enc(c) == v.enc(c));
                assert(strict_prefix_of(rest0, v.enc(c)));
            };
        }
        r
    }
}

impl<'de> BorrowDecode<'de> for u32 {
    open spec fn borrow_enc(&self, c: Configuration) -> Seq<u8> {
        self.enc(c)
    }

    open spec fn borrow_need(&self, c: Configuration) -> nat {
        self.need(c)
    }

    proof fn lemma_borrow_enc_no_confusion(&self, other: &Self, c: Configuration, s: Seq<u8>) {
        self.lemma_enc_no_confusion(other, c, s);
    }

    proof fn lemma_borrow_enc_no_truncation(&self, other: &Self, c: Configuration, s: Seq<u8>) {
        self.lemma_enc_no_truncation(other, c, s);
    }

    /// The borrow path of a type without a zero-copy representation
    /// is its owned decode; the image and the need coincide, so the
    /// owned contract carries over clause by clause.
    fn borrow_decode(d: &mut Decoder<'de>) -> (r: Result<Self, DecodeError>) {
        let ghost c = d.config();
        let ghost rest0 = d.rest();
        let r = Self::decode(d);
        proof {
            if let Ok(ref w) = r {
                assert(w.borrow_enc(c) == w.enc(c));
            }
            assert forall|v: Self|
                v.wf() && v.borrow_enc(c).len() <= usize::MAX && #[trigger] prefix_of(
                    v.borrow_enc(c),
                    rest0,
                ) implies (match r {
                Ok(ref w) => w.deep_view() == v.deep_view() && w.borrow_enc(c) == v.borrow_enc(c),
                Err(_) => true,
            } && (v.borrow_need(c) <= old(d).budget() ==> r is Ok)) by {
                assert(v.borrow_enc(c) == v.enc(c));
                assert(prefix_of(v.enc(c), rest0));
            };
            assert forall|v: Self|
                v.wf() && v.borrow_enc(c).len() <= usize::MAX && #[trigger] strict_prefix_of(
                    rest0,
                    v.borrow_enc(c),
                ) implies (!(r is Ok) && (v.borrow_need(c) <= old(d).budget() ==> r == Err::<
                Self,
                DecodeError,
            >(DecodeError::UnexpectedEnd))) by {
                assert(v.borrow_enc(c) == v.enc(c));
                assert(strict_prefix_of(rest0, v.enc(c)));
            };
        }
        r
    }
}

impl<'de> BorrowDecode<'de> for u64 {
    open spec fn borrow_enc(&self, c: Configuration) -> Seq<u8> {
        self.enc(c)
    }

    open spec fn borrow_need(&self, c: Configuration) -> nat {
        self.need(c)
    }

    proof fn lemma_borrow_enc_no_confusion(&self, other: &Self, c: Configuration, s: Seq<u8>) {
        self.lemma_enc_no_confusion(other, c, s);
    }

    proof fn lemma_borrow_enc_no_truncation(&self, other: &Self, c: Configuration, s: Seq<u8>) {
        self.lemma_enc_no_truncation(other, c, s);
    }

    /// The borrow path of a type without a zero-copy representation
    /// is its owned decode; the image and the need coincide, so the
    /// owned contract carries over clause by clause.
    fn borrow_decode(d: &mut Decoder<'de>) -> (r: Result<Self, DecodeError>) {
        let ghost c = d.config();
        let ghost rest0 = d.rest();
        let r = Self::decode(d);
        proof {
            if let Ok(ref w) = r {
                assert(w.borrow_enc(c) == w.enc(c));
            }
            assert forall|v: Self|
                v.wf() && v.borrow_enc(c).len() <= usize::MAX && #[trigger] prefix_of(
                    v.borrow_enc(c),
                    rest0,
                ) implies (match r {
                Ok(ref w) => w.deep_view() == v.deep_view() && w.borrow_enc(c) == v.borrow_enc(c),
                Err(_) => true,
            } && (v.borrow_need(c) <= old(d).budget() ==> r is Ok)) by {
                assert(v.borrow_enc(c) == v.enc(c));
                assert(prefix_of(v.enc(c), rest0));
            };
            assert forall|v: Self|
                v.wf() && v.borrow_enc(c).len() <= usize::MAX && #[trigger] strict_prefix_of(
                    rest0,
                    v.borrow_enc(c),
                ) implies (!(r is Ok) && (v.borrow_need(c) <= old(d).budget() ==> r == Err::<
                Self,
                DecodeError,
            >(DecodeError::UnexpectedEnd))) by {
                assert(v.borrow_enc(c) == v.enc(c));
                assert(strict_prefix_of(rest0, v.enc(c)));
            };
        }
        r
    }
}

impl<'de> BorrowDecode<'de> for bool {
    open spec fn borrow_enc(&self, c: Configuration) -> Seq<u8> {
        self.enc(c)
    }

    open spec fn borrow_need(&self, c: Configuration) -> nat {
        self.need(c)
    }

    proof fn lemma_borrow_enc_no_confusion(&self, other: &Self, c: Configuration, s: Seq<u8>) {
        self.lemma_enc_no_confusion(other, c, s);
    }

    proof fn lemma_borrow_enc_no_truncation(&self, other: &Self, c: Configuration, s: Seq<u8>) {
        self.lemma_enc_no_truncation(other, c, s);
    }

    /// The borrow path of a type without a zero-copy representation
    /// is its owned decode; the image and the need coincide, so the
    /// owned contract carries over clause by clause.
    fn borrow_decode(d: &mut Decoder<'de>) -> (r: Result<Self, DecodeError>) {
        let ghost c = d.config();
        let ghost rest0 = d.rest();
        let r = Self::decode(d);
        proof {
            if let Ok(ref w) = r {
                assert(w.borrow_enc(c) == w.enc(c));
            }
            assert forall|v: Self|
                v.wf() && v.borrow_enc(c).len() <= usize::MAX && #[trigger] prefix_of(
                    v.borrow_enc(c),
                    rest0,
                ) implies (match r {
                Ok(ref w) => w.deep_view() == v.deep_view() && w.borrow_enc(c) == v.borrow_enc(c),
                Err(_) => true,
            } && (v.borrow_need(c) <= old(d).budget() ==> r is Ok)) by {
                assert(v.borrow_enc(c) == v.enc(c));
                assert(prefix_of(v.enc(c), rest0));
            };
            assert forall|v: Self|
                v.wf() && v.borrow_enc(c).len() <= usize::MAX && #[trigger] strict_prefix_of(
                    rest0,
                    v.borrow_enc(c),
                ) implies (!(r is Ok) && (v.borrow_need(c) <= old(d).budget() ==> r == Err::<
                Self,
                DecodeError,
            >(DecodeError::UnexpectedEnd))) by {
                assert(v.borrow_enc(c) == v.enc(c));
                assert(strict_prefix_of(rest0, v.enc(c)));
            };
        }
        r
    }
}

impl<'de> BorrowDecode<'de> for String {
    open spec fn borrow_enc(&self, c: Configuration) -> Seq<u8> {
        self.enc(c)
    }

    open spec fn borrow_need(&self, c: Configuration) -> nat {
        self.need(c)
    }

    proof fn lemma_borrow_enc_no_confusion(&self, other: &Self, c: Configuration, s: Seq<u8>) {
        self.lemma_enc_no_confusion(other, c, s);
    }

    proof fn lemma_borrow_enc_no_truncation(&self, other: &Self, c: Configuration, s: Seq<u8>) {
        self.lemma_enc_no_truncation(other, c, s);
    }

    /// The borrow path of a type without a zero-copy representation
    /// is its owned decode; the image and the need coincide, so the
    /// owned contract carries over clause by clause.
    fn borrow_decode(d: &mut Decoder<'de>) -> (r: Result<Self, DecodeError>) {
        let ghost c = d.config();
        let ghost rest0 = d.rest();
        let r = Self::decode(d);
        proof {
            if let Ok(ref w) = r {
                assert(w.borrow_enc(c) == w.enc(c));
            }
            assert forall|v: Self|
                v.wf() && v.borrow_enc(c).len() <= usize::MAX && #[trigger] prefix_of(
                    v.borrow_enc(c),
                    rest0,
                ) implies (match r {
                Ok(ref w) => w.deep_view() == v.deep_view() && w.borrow_enc(c) == v.borrow_enc(c),
                Err(_) => true,
            } && (v.borrow_need(c) <= old(d).budget() ==> r is Ok)) by {
                assert(v.borrow_enc(c) == v.enc(c));
                assert(prefix_of(v.enc(c), rest0));
            };
            assert forall|v: Self|
                v.wf() && v.borrow_enc(c).len() <= usize::MAX && #[trigger] strict_prefix_of(
                    rest0,
                    v.borrow_enc(c),
                ) implies (!(r is Ok) && (v.borrow_need(c) <= old(d).budget() ==> r == Err::<
                Self,
                DecodeError,
            >(DecodeError::UnexpectedEnd))) by {
                assert(v.borrow_enc(c) == v.enc(c));
                assert(strict_prefix_of(rest0, v.enc(c)));
            };
        }
        r
    }
}

impl<'de> BorrowDecode<'de> for &'de [u8] {
    open spec fn borrow_enc(&self, c: Configuration) -> Seq<u8> {
        self.enc(c)
    }

    open spec fn borrow_need(&self, c: Configuration) -> nat {
        0
    }

    proof fn lemma_borrow_enc_no_confusion(&self, other: &Self, c: Configuration, s: Seq<u8>) {
        self.lemma_enc_no_confusion(other, c, s);
    }

    proof fn lemma_borrow_enc_no_truncation(&self, other: &Self, c: Configuration, s: Seq<u8>) {
        self.lemma_enc_no_truncation(other, c, s);
    }

    /// Zero-copy: the returned slice borrows the decoder's input; no
    /// bytes are copied and nothing is claimed against the budget.
    fn borrow_decode(d: &mut Decoder<'de>) -> (r: Result<Self, DecodeError>) {
        let ghost c = d.config();
        let ghost rest0 = d.rest();
        proof {
            crate::wire::lemma_usize_fits_u64();
        }
        let n = match d.decode_len() {
            Ok(n) => n,
            Err(e) => {
                proof {
                    assert forall|v2: &'de [u8]|
                        v2.wf() && v2.borrow_enc(c).len() <= usize::MAX && #[trigger] prefix_of(
                            v2.borrow_enc(c),
                            rest0,
                        ) implies false by {
                        crate::wire::lemma_prefix_concat_split(len_enc(c, v2@.len()), v2@, rest0);
                    };
                    assert forall|v2: &'de [u8]|
                        v2.wf() && v2.borrow_enc(c).len() <= usize::MAX
                            && #[trigger] strict_prefix_of(rest0, v2.borrow_enc(c))
                        implies e == DecodeError::UnexpectedEnd by {
                        lemma_bytes_candidate_split(v2@, c, rest0);
                    };
                }
                return Err(e);
            },
        };
        let ghost rest1 = d.rest();
        proof {
            assert(rest1 =~= rest0.skip(len_enc(c, n as nat).len() as int));
            assert forall|v2: &'de [u8]|
                v2.wf() && v2.borrow_enc(c).len() <= usize::MAX && #[trigger] prefix_of(
                    v2.borrow_enc(c),
                    rest0,
                ) implies v2@.len() == n as nat && prefix_of(v2@, rest1) by {
                crate::wire::lemma_prefix_concat_split(len_enc(c, v2@.len()), v2@, rest0);
            };
            assert forall|v2: &'de [u8]|
                v2.wf() && v2.borrow_enc(c).len() <= usize::MAX && #[trigger] strict_prefix_of(
                    rest0,
                    v2.borrow_enc(c),
                ) implies v2@.len() == n as nat && strict_prefix_of(rest1, v2@) by {
                lemma_bytes_candidate_split(v2@, c, rest0);
                assert(prefix_of(len_enc(c, v2@.len()), rest0));
                let k = len_enc(c, v2@.len()).len() as int;
                assert(prefix_of(rest1, v2.borrow_enc(c).skip(k))) by {
                    broadcast use lemma_prefix_index;

                    assert(rest1 =~= v2.borrow_enc(c).skip(k).take(rest0.len() - k));
                };
                assert(v2.borrow_enc(c).skip(k) =~= v2@);
            };
        }
        let b = match d.take_bytes(n) {
            Ok(b) => b,
            Err(e) => {
                proof {
                    assert forall|v2: &'de [u8]|
                        v2.wf() && v2.borrow_enc(c).len() <= usize::MAX && #[trigger] prefix_of(
                            v2.borrow_enc(c),
                            rest0,
                        ) implies false by {};
                }
                return Err(e);
            },
        };
        proof {
            assert(prefix_of(b@, rest1));
            crate::wire::lemma_prefix_concat_join(len_enc(c, n as nat), b@, rest0);
            assert(b.borrow_enc(c) == len_enc(c, n as nat) + b@);
            assert(rest0.len() <= usize::MAX);
            assert forall|v2: &'de [u8]|
                v2.wf() && v2.borrow_enc(c).len() <= usize::MAX && #[trigger] prefix_of(
                    v2.borrow_enc(c),
                    rest0,
                ) implies (b.deep_view() == v2.deep_view() && b.borrow_enc(c) == v2.borrow_enc(
                c,
            )) by {
                b.lemma_borrow_enc_no_confusion(&v2, c, rest0);
            };
            assert forall|v2: &'de [u8]|
                v2.wf() && v2.borrow_enc(c).len() <= usize::MAX && #[trigger] strict_prefix_of(
                    rest0,
                    v2.borrow_enc(c),
                ) implies false by {
                assert(strict_prefix_of(rest1, v2@));
            };
        }
        Ok(b)
    }
}

/// On the borrow path a candidate byte span's image splits at a strict
/// input boundary like every other length-prefixed image: either the
/// length field itself is cut, or the field is whole and the span is
/// cut.
proof fn lemma_bytes_candidate_split(v: Seq<u8>, c: Configuration, rest0: Seq<u8>)
    requires
        v.len() <= usize::MAX,
        (len_enc(c, v.len()) + v).len() <= usize::MAX,
        strict_prefix_of(rest0, len_enc(c, v.len()) + v),
    ensures
        strict_prefix_of(rest0, len_enc(c, v.len())) || prefix_of(len_enc(c, v.len()), rest0),
{
    crate::wire::lemma_usize_fits_u64();
    let image = len_enc(c, v.len()) + v;
    let lb = len_enc(c, v.len());
    crate::wire::lemma_prefix_refl(image);
    crate::wire::lemma_prefix_concat_split(lb, v, image);
    if rest0.len() < lb.len() {
        crate::wire::lemma_prefix_common(rest0, lb, image);
    } else {
        crate::wire::lemma_prefix_common(lb, rest0, image);
    }
}

impl<'de> BorrowDecode<'de> for &'de str {
    open spec fn borrow_enc(&self, c: Configuration) -> Seq<u8> {
        self.enc(c)
    }

    open spec fn borrow_need(&self, c: Configuration) -> nat {
        0
    }

    proof fn lemma_borrow_enc_no_confusion(&self, other: &Self, c: Configuration, s: Seq<u8>) {
        self.lemma_enc_no_confusion(other, c, s);
    }

    proof fn lemma_borrow_enc_no_truncation(&self, other: &Self, c: Configuration, s: Seq<u8>) {
        self.lemma_enc_no_truncation(other, c, s);
    }

    /// Zero-copy: the returned string borrows the decoder's input.
    fn borrow_decode(d: &mut Decoder<'de>) -> (r: Result<Self, DecodeError>) {
        let ghost c = d.config();
        let ghost rest0 = d.rest();
        proof {
            crate::wire::lemma_usize_fits_u64();
            broadcast use vstd::utf8::encode_utf8_valid_utf8;

        }
        let n = match d.decode_len() {
            Ok(n) => n,
            Err(e) => {
                proof {
                    assert forall|v2: &'de str|
                        v2.wf() && v2.borrow_enc(c).len() <= usize::MAX && #[trigger] prefix_of(
                            v2.borrow_enc(c),
                            rest0,
                        ) implies false by {
                        crate::wire::lemma_prefix_concat_split(
                            len_enc(c, encode_utf8(v2@).len()),
                            encode_utf8(v2@),
                            rest0,
                        );
                    };
                    assert forall|v2: &'de str|
                        v2.wf() && v2.borrow_enc(c).len() <= usize::MAX
                            && #[trigger] strict_prefix_of(rest0, v2.borrow_enc(c))
                        implies e == DecodeError::UnexpectedEnd by {
                        lemma_bytes_candidate_split(encode_utf8(v2@), c, rest0);
                    };
                }
                return Err(e);
            },
        };
        let ghost rest1 = d.rest();
        proof {
            assert(rest1 =~= rest0.skip(len_enc(c, n as nat).len() as int));
            assert forall|v2: &'de str|
                v2.wf() && v2.borrow_enc(c).len() <= usize::MAX && #[trigger] prefix_of(
                    v2.borrow_enc(c),
                    rest0,
                ) implies encode_utf8(v2@).len() == n as nat && prefix_of(
                encode_utf8(v2@),
                rest1,
            ) by {
                crate::wire::lemma_prefix_concat_split(
                    len_enc(c, encode_utf8(v2@).len()),
                    encode_utf8(v2@),
                    rest0,
                );
            };
            assert forall|v2: &'de str|
                v2.wf() && v2.borrow_enc(c).len() <= usize::MAX && #[trigger] strict_prefix_of(
                    rest0,
                    v2.borrow_enc(c),
                ) implies encode_utf8(v2@).len() == n as nat && strict_prefix_of(
                rest1,
                encode_utf8(v2@),
            ) by {
                lemma_bytes_candidate_split(encode_utf8(v2@), c, rest0);
                assert(prefix_of(len_enc(c, encode_utf8(v2@).len()), rest0));
                let k = len_enc(c, encode_utf8(v2@).len()).len() as int;
                assert(prefix_of(rest1, v2.borrow_enc(c).skip(k))) by {
                    broadcast use lemma_prefix_index;

                    assert(rest1 =~= v2.borrow_enc(c).skip(k).take(rest0.len() - k));
                };
                assert(v2.borrow_enc(c).skip(k) =~= encode_utf8(v2@));
            };
        }
        let b = match d.take_bytes(n) {
            Ok(b) => b,
            Err(e) => {
                proof {
                    assert forall|v2: &'de str|
                        v2.wf() && v2.borrow_enc(c).len() <= usize::MAX && #[trigger] prefix_of(
                            v2.borrow_enc(c),
                            rest0,
                        ) implies false by {};
                }
                return Err(e);
            },
        };
        match bytes_to_str(b) {
            Some(t) => {
                proof {
                    assert(encode_utf8(t@) == b@);
                    assert(prefix_of(b@, rest1));
                    crate::wire::lemma_prefix_concat_join(len_enc(c, n as nat), b@, rest0);
                    assert(t.borrow_enc(c) == len_enc(c, n as nat) + b@);
                    assert(rest0.len() <= usize::MAX);
                    assert forall|v2: &'de str|
                        v2.wf() && v2.borrow_enc(c).len() <= usize::MAX && #[trigger] prefix_of(
                            v2.borrow_enc(c),
                            rest0,
                        ) implies (t.deep_view() == v2.deep_view() && t.borrow_enc(c)
                        == v2.borrow_enc(c)) by {
                        t.lemma_borrow_enc_no_confusion(&v2, c, rest0);
                    };
                    assert forall|v2: &'de str|
                        v2.wf() && v2.borrow_enc(c).len() <= usize::MAX
                            && #[trigger] strict_prefix_of(rest0, v2.borrow_enc(c))
                        implies false by {
                        assert(strict_prefix_of(rest1, encode_utf8(v2@)));
                        assert(prefix_of(b@, rest1));
                    };
                }
                Ok(t)
            },
            None => {
                proof {
                    assert forall|v2: &'de str|
                        v2.wf() && v2.borrow_enc(c).len() <= usize::MAX && #[trigger] prefix_of(
                            v2.borrow_enc(c),
                            rest0,
                        ) implies false by {
                        assert(encode_utf8(v2@) =~= b@);
                    };
                    assert forall|v2: &'de str|
                        v2.wf() && v2.borrow_enc(c).len() <= usize::MAX
                            && #[trigger] strict_prefix_of(rest0, v2.borrow_enc(c))
                        implies false by {
                        assert(strict_prefix_of(rest1, encode_utf8(v2@)));
                        assert(prefix_of(b@, rest1));
                    };
                }
                Err(DecodeError::Utf8)
            },
        }
    }
}

impl<'de, T: BorrowDecode<'de>> BorrowDecode<'de> for Vec<T> {
    open spec fn borrow_enc(&self, c: Configuration) -> Seq<u8> {
        len_enc(c, self@.len()) + borrow_elems_enc(self@, c)
    }

    open spec fn borrow_need(&self, c: Configuration) -> nat {
        self@.len() * vstd::layout::size_of::<T>() + borrow_seq_need(self@, c)
    }

    proof fn lemma_borrow_enc_no_confusion(&self, other: &Self, c: Configuration, s: Seq<u8>) {
        crate::wire::lemma_usize_fits_u64();
        vstd::std_specs::vec::axiom_spec_len(self);
        vstd::std_specs::vec::axiom_spec_len(other);
        crate::wire::lemma_prefix_concat_split(len_enc(c, self@.len()), borrow_elems_enc(self@, c), s);
        crate::wire::lemma_prefix_concat_split(len_enc(c, other@.len()), borrow_elems_enc(other@, c), s);
        lemma_u64_enc_common_prefix(c, self@.len(), other@.len(), s);
        lemma_borrow_elems_no_confusion(
            self@,
            other@,
            c,
            s.skip(len_enc(c, self@.len()).len() as int),
        );
        lemma_vec_deep_view(self@, self);
        lemma_vec_deep_view(other@, other);
        assert(self.borrow_enc(c) =~= other.borrow_enc(c));
    }

    proof fn lemma_borrow_enc_no_truncation(&self, other: &Self, c: Configuration, s: Seq<u8>) {
        crate::wire::lemma_usize_fits_u64();
        vstd::std_specs::vec::axiom_spec_len(self);
        vstd::std_specs::vec::axiom_spec_len(other);
        broadcast use crate::wire::lemma_prefix_refl;

        let la = len_enc(c, self@.len());
        let lb = len_enc(c, other@.len());
        crate::wire::lemma_prefix_concat_split(la, borrow_elems_enc(self@, c), s);
        crate::wire::lemma_prefix_transitive(la, s, other.borrow_enc(c));
        crate::wire::lemma_prefix_concat_split(lb, borrow_elems_enc(other@, c), other.borrow_enc(c));
        lemma_u64_enc_common_prefix(c, self@.len(), other@.len(), other.borrow_enc(c));
        let k = la.len() as int;
        assert(prefix_of(s.skip(k), other.borrow_enc(c).skip(k))) by {
            broadcast use lemma_prefix_index;

            assert(s.skip(k) =~= other.borrow_enc(c).skip(k).take(s.len() - k));
        };
        assert(other.borrow_enc(c).skip(k) =~= borrow_elems_enc(other@, c));
        lemma_borrow_elems_no_truncation(self@, other@, c, s.skip(k));
        assert(s =~= other.borrow_enc(c)) by {
            broadcast use lemma_prefix_index;

            assert forall|i: int| 0 <= i < s.len() implies s[i] == other.borrow_enc(c)[i] by {
                if i >= k {
                    assert(s[i] == s.skip(k)[i - k]);
                    assert(other.borrow_enc(c)[i] == other.borrow_enc(c).skip(k)[i - k]);
                }
            };
        };
    }

    #[verifier::rlimit(60)]
    fn borrow_decode(d: &mut Decoder<'de>) -> (r: Result<Self, DecodeError>) {
        let ghost c = d.config();
        let ghost rest0 = d.rest();
        let ghost b0 = d.budget();
        let ghost cl0 = d.claimed();
        proof {
            crate::wire::lemma_usize_fits_u64();
        }
        let n = match d.decode_len() {
            Ok(n) => n,
            Err(e) => {
                proof {
                    assert forall|v2: Vec<T>|
                        v2.wf() && v2.borrow_enc(c).len() <= usize::MAX && #[trigger] prefix_of(
                            v2.borrow_enc(c),
                            rest0,
                        ) implies false by {
                        vstd::std_specs::vec::axiom_spec_len(&v2);
                        crate::wire::lemma_prefix_concat_split(
                            len_enc(c, v2@.len()),
                            borrow_elems_enc(v2@, c),
                            rest0,
                        );
                    };
                    assert forall|v2: Vec<T>|
                        v2.wf() && v2.borrow_enc(c).len() <= usize::MAX && #[trigger] strict_prefix_of(
                            rest0,
                            v2.borrow_enc(c),
                        ) implies e == DecodeError::UnexpectedEnd by {
                        vstd::std_specs::vec::axiom_spec_len(&v2);
                        let lb = len_enc(c, v2@.len());
                        crate::wire::lemma_prefix_refl(v2.borrow_enc(c));
                        assert(v2.borrow_enc(c) == lb + borrow_elems_enc(v2@, c));
                        crate::wire::lemma_prefix_concat_split(lb, borrow_elems_enc(v2@, c), v2.borrow_enc(c));
                        if rest0.len() < lb.len() {
                            crate::wire::lemma_prefix_common(rest0, lb, v2.borrow_enc(c));
                            assert(strict_prefix_of(rest0, len_enc(c, v2@.len())));
                        } else {
                            crate::wire::lemma_prefix_common(lb, rest0, v2.borrow_enc(c));
                            assert(prefix_of(len_enc(c, v2@.len()), rest0));
                        }
                    };
                }
                return Err(e);
            },
        };
        let ghost rest1 = d.rest();
        proof {
            assert(rest1 =~= rest0.skip(len_enc(c, n as nat).len() as int));
            assert forall|v2: Vec<T>|
                v2.wf() && v2.borrow_enc(c).len() <= usize::MAX && #[trigger] prefix_of(v2.borrow_enc(c), rest0)
                implies v2@.len() == n as nat && prefix_of(borrow_elems_enc(v2@, c), rest1) && n as nat
                * vstd::layout::size_of::<T>() + borrow_seq_need(v2@, c) == v2.borrow_need(c) by {
                vstd::std_specs::vec::axiom_spec_len(&v2);
                crate::wire::lemma_prefix_concat_split(
                    len_enc(c, v2@.len()),
                    borrow_elems_enc(v2@, c),
                    rest0,
                );
            };
            assert forall|v2: Vec<T>|
                v2.wf() && v2.borrow_enc(c).len() <= usize::MAX && #[trigger] strict_prefix_of(
                    rest0,
                    v2.borrow_enc(c),
                ) implies v2@.len() == n as nat && strict_prefix_of(rest1, borrow_elems_enc(v2@, c))
                && n as nat * vstd::layout::size_of::<T>() + borrow_seq_need(v2@, c) == v2.borrow_need(c) by {
                vstd::std_specs::vec::axiom_spec_len(&v2);
                let lb = len_enc(c, v2@.len());
                crate::wire::lemma_prefix_refl(v2.borrow_enc(c));
                assert(v2.borrow_enc(c) == lb + borrow_elems_enc(v2@, c));
                crate::wire::lemma_prefix_concat_split(lb, borrow_elems_enc(v2@, c), v2.borrow_enc(c));
                if rest0.len() < lb.len() {
                    crate::wire::lemma_prefix_common(rest0, lb, v2.borrow_enc(c));
                    assert(strict_prefix_of(rest0, len_enc(c, v2@.len())));
                } else {
                    crate::wire::lemma_prefix_common(lb, rest0, v2.borrow_enc(c));
                    assert(prefix_of(len_enc(c, v2@.len()), rest0));
                    assert(v2@.len() == n as nat);
                    let k = lb.len() as int;
                    assert(prefix_of(rest1, v2.borrow_enc(c).skip(k))) by {
                        broadcast use lemma_prefix_index;

                        assert(rest1 =~= v2.borrow_enc(c).skip(k).take(rest0.len() - k));
                    };
                    assert(v2.borrow_enc(c).skip(k) =~= borrow_elems_enc(v2@, c));
                }
            };
        }
        match d.claim_container_read::<T>(n) {
            Ok(_) => (),
            Err(e) => {
                proof {
                    assert forall|v2: Vec<T>|
                        v2.wf() && v2.borrow_enc(c).len() <= usize::MAX && #[trigger] prefix_of(
                            v2.borrow_enc(c),
                            rest0,
                        ) && v2.borrow_need(c) <= b0 implies false by {
                        assert(prefix_of(v2.borrow_enc(c), rest0));
                        assert(v2@.len() == n as nat);
                        assert(n as nat * vstd::layout::size_of::<T>() + borrow_seq_need(v2@, c)
                            == v2.borrow_need(c));
                        assert(n * vstd::layout::size_of::<T>() > b0);
                    };
                    assert forall|v2: Vec<T>|
                        v2.wf() && v2.borrow_enc(c).len() <= usize::MAX && #[trigger] strict_prefix_of(
                            rest0,
                            v2.borrow_enc(c),
                        ) && v2.borrow_need(c) <= b0 implies false by {
                        assert(strict_prefix_of(rest0, v2.borrow_enc(c)));
                        assert(v2@.len() == n as nat);
                        assert(n as nat * vstd::layout::size_of::<T>() + borrow_seq_need(v2@, c)
                            == v2.borrow_need(c));
                        assert(n * vstd::layout::size_of::<T>() > b0);
                    };
                }
                return Err(e);
            },
        }
        let ghost b1 = d.budget();
        let ghost d_pre = *d;
        let out = match borrow_decode_elems::<T>(d, n) {
            Ok(out) => out,
            Err(e) => {
                proof {
                    assert forall|v2: Vec<T>|
                        v2.wf() && v2.borrow_enc(c).len() <= usize::MAX && #[trigger] prefix_of(
                            v2.borrow_enc(c),
                            rest0,
                        ) && v2.borrow_need(c) <= b0 implies false by {
                        assert(v2@.len() == n as nat);
                        assert(all_wf(v2@));
                        assert(borrow_elems_enc(v2@, d_pre.config()).len() <= usize::MAX);
                        assert(d_pre.rest() == rest1);
                        assert(prefix_of(borrow_elems_enc(v2@, d_pre.config()), d_pre.rest()));
                        assert(borrow_seq_need(v2@, d_pre.config()) <= d_pre.budget());
                    };
                    assert forall|v2: Vec<T>|
                        v2.wf() && v2.borrow_enc(c).len() <= usize::MAX && #[trigger] strict_prefix_of(
                            rest0,
                            v2.borrow_enc(c),
                        ) && v2.borrow_need(c) <= b0 implies e == DecodeError::UnexpectedEnd by {
                        assert(v2@.len() == n as nat);
                        assert(all_wf(v2@));
                        assert(borrow_elems_enc(v2@, d_pre.config()).len() <= usize::MAX);
                        assert(d_pre.rest() == rest1);
                        assert(strict_prefix_of(d_pre.rest(), borrow_elems_enc(v2@, d_pre.config())));
                        assert(borrow_seq_need(v2@, d_pre.config()) <= d_pre.budget());
                    };
                }
                return Err(e);
            },
        };
        proof {
            lemma_vec_deep_view(out@, &out);
            crate::wire::lemma_prefix_concat_join(len_enc(c, n as nat), borrow_elems_enc(out@, c), rest0);
            assert(out.borrow_enc(c) == len_enc(c, n as nat) + borrow_elems_enc(out@, c));
            assert(rest0.len() <= usize::MAX);
            assert forall|v2: Vec<T>|
                v2.wf() && v2.borrow_enc(c).len() <= usize::MAX && #[trigger] prefix_of(v2.borrow_enc(c), rest0)
                implies out.deep_view() == v2.deep_view() && out.borrow_enc(c) == v2.borrow_enc(c) by {
                lemma_vec_deep_view(v2@, &v2);
                assert(out.borrow_enc(c) =~= v2.borrow_enc(c));
            };
            assert forall|v2: Vec<T>|
                v2.wf() && v2.borrow_enc(c).len() <= usize::MAX && #[trigger] strict_prefix_of(
                    rest0,
                    v2.borrow_enc(c),
                ) implies false by {
                vstd::std_specs::vec::axiom_spec_len(&v2);
                let lb = len_enc(c, v2@.len());
                crate::wire::lemma_prefix_refl(v2.borrow_enc(c));
                assert(v2.borrow_enc(c) == lb + borrow_elems_enc(v2@, c));
                crate::wire::lemma_prefix_concat_split(lb, borrow_elems_enc(v2@, c), v2.borrow_enc(c));
                crate::wire::lemma_prefix_transitive(len_enc(c, n as nat), rest0, v2.borrow_enc(c));
                lemma_u64_enc_common_prefix(c, n as nat, v2@.len(), v2.borrow_enc(c));
                let k = lb.len() as int;
                assert(prefix_of(rest0.skip(k), v2.borrow_enc(c).skip(k))) by {
                    broadcast use lemma_prefix_index;

                    assert(rest0.skip(k) =~= v2.borrow_enc(c).skip(k).take(rest0.len() - k));
                };
                assert(v2.borrow_enc(c).skip(k) =~= borrow_elems_enc(v2@, c));
                assert(rest1 == rest0.skip(k));
                assert(strict_prefix_of(rest1, borrow_elems_enc(v2@, c)));
            };
        }
        Ok(out)
    }
}

impl<'de, A: BorrowDecode<'de>, B: BorrowDecode<'de>> BorrowDecode<'de> for (A, B) {
    open spec fn borrow_enc(&self, c: Configuration) -> Seq<u8> {
        self.0.borrow_enc(c) + self.1.borrow_enc(c)
    }

    open spec fn borrow_need(&self, c: Configuration) -> nat {
        if self.0.borrow_need(c) >= self.1.borrow_need(c) {
            self.0.borrow_need(c)
        } else {
            self.1.borrow_need(c)
        }
    }

    proof fn lemma_borrow_enc_no_confusion(&self, other: &Self, c: Configuration, s: Seq<u8>) {
        crate::wire::lemma_prefix_concat_split(self.0.borrow_enc(c), self.1.borrow_enc(c), s);
        crate::wire::lemma_prefix_concat_split(other.0.borrow_enc(c), other.1.borrow_enc(c), s);
        self.0.lemma_borrow_enc_no_confusion(&other.0, c, s);
        self.1.lemma_borrow_enc_no_confusion(&other.1, c, s.skip(self.0.borrow_enc(c).len() as int));
        assert(self.borrow_enc(c) =~= other.borrow_enc(c));
    }

    proof fn lemma_borrow_enc_no_truncation(&self, other: &Self, c: Configuration, s: Seq<u8>) {
        broadcast use crate::wire::lemma_prefix_refl, lemma_prefix_index;

        crate::wire::lemma_prefix_concat_split(self.0.borrow_enc(c), self.1.borrow_enc(c), s);
        crate::wire::lemma_prefix_concat_split(other.0.borrow_enc(c), other.1.borrow_enc(c), other.borrow_enc(c));
        if s.len() < other.0.borrow_enc(c).len() {
            crate::wire::lemma_prefix_common(s, other.0.borrow_enc(c), other.borrow_enc(c));
            self.0.lemma_borrow_enc_no_truncation(&other.0, c, s);
            assert(false);
        } else {
            crate::wire::lemma_prefix_common(other.0.borrow_enc(c), s, other.borrow_enc(c));
            self.0.lemma_borrow_enc_no_confusion(&other.0, c, s);
            let k = self.0.borrow_enc(c).len() as int;
            assert(prefix_of(s.skip(k), other.borrow_enc(c).skip(k))) by {
                assert(s.skip(k) =~= other.borrow_enc(c).skip(k).take(s.len() - k));
            };
            assert(other.borrow_enc(c).skip(k) =~= other.1.borrow_enc(c));
            self.1.lemma_borrow_enc_no_truncation(&other.1, c, s.skip(k));
            assert(s =~= other.borrow_enc(c)) by {
                assert forall|i: int| 0 <= i < s.len() implies s[i] == other.borrow_enc(c)[i] by {
                    if i >= k {
                        assert(s[i] == s.skip(k)[i - k]);
                        assert(other.borrow_enc(c)[i] == other.borrow_enc(c).skip(k)[i - k]);
                    }
                };
            };
        }
    }

    #[verifier::rlimit(60)]
    fn borrow_decode(d: &mut Decoder<'de>) -> (r: Result<Self, DecodeError>) {
        let ghost c = d.config();
        let ghost rest0 = d.rest();
        let ghost b0 = d.budget();
        proof {
            assert forall|v2: (A, B)|
                v2.wf() && v2.borrow_enc(c).len() <= usize::MAX && #[trigger] prefix_of(v2.borrow_enc(c), rest0)
                implies (v2.0.wf() && v2.0.borrow_enc(c).len() <= usize::MAX && prefix_of(
                v2.0.borrow_enc(c),
                rest0,
            ) && v2.0.borrow_need(c) <= v2.borrow_need(c)) by {
                crate::wire::lemma_prefix_concat_split(v2.0.borrow_enc(c), v2.1.borrow_enc(c), rest0);
            };
            assert forall|v2: (A, B)|
                v2.wf() && v2.borrow_enc(c).len() <= usize::MAX && #[trigger] strict_prefix_of(
                    rest0,
                    v2.borrow_enc(c),
                ) implies (v2.0.wf() && v2.0.borrow_enc(c).len() <= usize::MAX && v2.0.borrow_need(c) <= v2.borrow_need(
                c,
            ) && (prefix_of(v2.0.borrow_enc(c), rest0) || strict_prefix_of(rest0, v2.0.borrow_enc(c)))) by {
                crate::wire::lemma_prefix_refl(v2.borrow_enc(c));
                assert(v2.borrow_enc(c) == v2.0.borrow_enc(c) + v2.1.borrow_enc(c));
                crate::wire::lemma_prefix_concat_split(v2.0.borrow_enc(c), v2.1.borrow_enc(c), v2.borrow_enc(c));
                if rest0.len() < v2.0.borrow_enc(c).len() {
                    crate::wire::lemma_prefix_common(rest0, v2.0.borrow_enc(c), v2.borrow_enc(c));
                } else {
                    crate::wire::lemma_prefix_common(v2.0.borrow_enc(c), rest0, v2.borrow_enc(c));
                }
            };
        }
        let a = match A::borrow_decode(d) {
            Ok(a) => a,
            Err(e) => {
                proof {
                    assert forall|v2: (A, B)|
                        v2.wf() && v2.borrow_enc(c).len() <= usize::MAX && #[trigger] strict_prefix_of(
                            rest0,
                            v2.borrow_enc(c),
                        ) && v2.borrow_need(c) <= b0 implies e == DecodeError::UnexpectedEnd by {
                        assert(prefix_of(v2.0.borrow_enc(c), rest0) || strict_prefix_of(
                            rest0,
                            v2.0.borrow_enc(c),
                        ));
                    };
                }
                return Err(e);
            },
        };
        let ghost rest1 = d.rest();
        proof {
            assert(rest1 =~= rest0.skip(a.borrow_enc(c).len() as int));
            assert forall|v2: (A, B)|
                v2.wf() && v2.borrow_enc(c).len() <= usize::MAX && #[trigger] prefix_of(v2.borrow_enc(c), rest0)
                implies (v2.1.wf() && v2.1.borrow_enc(c).len() <= usize::MAX && prefix_of(
                v2.1.borrow_enc(c),
                rest1,
            ) && v2.1.borrow_need(c) <= v2.borrow_need(c) && v2.0.borrow_enc(c) == a.borrow_enc(c) && v2.0.deep_view()
                == a.deep_view()) by {
                crate::wire::lemma_prefix_concat_split(v2.0.borrow_enc(c), v2.1.borrow_enc(c), rest0);
            };
            assert forall|v2: (A, B)|
                v2.wf() && v2.borrow_enc(c).len() <= usize::MAX && #[trigger] strict_prefix_of(
                    rest0,
                    v2.borrow_enc(c),
                ) implies (v2.1.wf() && v2.1.borrow_enc(c).len() <= usize::MAX && v2.1.borrow_need(c)
                <= v2.borrow_need(c) && strict_prefix_of(rest1, v2.1.borrow_enc(c))) by {
                assert(prefix_of(v2.0.borrow_enc(c), rest0) || strict_prefix_of(rest0, v2.0.borrow_enc(c)));
                assert(prefix_of(v2.0.borrow_enc(c), rest0));
                assert(v2.0.borrow_enc(c) == a.borrow_enc(c));
                crate::wire::lemma_prefix_refl(v2.borrow_enc(c));
                assert(v2.borrow_enc(c) == v2.0.borrow_enc(c) + v2.1.borrow_enc(c));
                crate::wire::lemma_prefix_concat_split(v2.0.borrow_enc(c), v2.1.borrow_enc(c), v2.borrow_enc(c));
                let k = v2.0.borrow_enc(c).len() as int;
                assert(prefix_of(rest1, v2.borrow_enc(c).skip(k))) by {
                    broadcast use lemma_prefix_index;

                    assert(rest1 =~= v2.borrow_enc(c).skip(k).take(rest0.len() - k));
                };
                assert(v2.borrow_enc(c).skip(k) =~= v2.1.borrow_enc(c));
            };
        }
        let b = match B::borrow_decode(d) {
            Ok(b) => b,
            Err(e) => {
                proof {
                    assert forall|v2: (A, B)|
                        v2.wf() && v2.borrow_enc(c).len() <= usize::MAX && #[trigger] strict_prefix_of(
                            rest0,
                            v2.borrow_enc(c),
                        ) && v2.borrow_need(c) <= b0 implies e == DecodeError::UnexpectedEnd by {
                        assert(strict_prefix_of(rest1, v2.1.borrow_enc(c)));
                    };
                }
                return Err(e);
            },
        };
        let w = (a, b);
        proof {
            crate::wire::lemma_prefix_concat_join(w.0.borrow_enc(c), w.1.borrow_enc(c), rest0);
            assert(rest0.len() <= usize::MAX);
            assert forall|v2: (A, B)|
                v2.wf() && v2.borrow_enc(c).len() <= usize::MAX && #[trigger] prefix_of(
                    v2.borrow_enc(c),
                    rest0,
                ) implies (w.deep_view() == v2.deep_view() && w.borrow_enc(c) == v2.borrow_enc(
                c,
            )) by {
                w.lemma_borrow_enc_no_confusion(&v2, c, rest0);
            };
            assert forall|v2: (A, B)|
                v2.wf() && v2.borrow_enc(c).len() <= usize::MAX && #[trigger] strict_prefix_of(
                    rest0,
                    v2.borrow_enc(c),
                ) implies false by {
                w.lemma_borrow_enc_no_truncation(&v2, c, rest0);
            };
        }
        Ok(w)
    }
}

} // verus!
