//! The mathematical wire format: what byte sequence each integer shape
//! occupies, and the facts (lengths, injectivity, prefix-freedom) that
//! the codec's contracts are proved from.

use vstd::prelude::*;

use crate::config::{Configuration, Endianness, IntEncoding};

verus! {

/// `256 ^ n`.
pub open spec fn pow256(n: nat) -> nat
    decreases n,
{
    if n == 0 {
        1
    } else {
        256 * pow256((n - 1) as nat)
    }
}

/// The `n` little-endian bytes of `v`: least significant first.
/// Bits of `v` above `256 ^ n` are not represented.
pub open spec fn le_bytes(v: nat, n: nat) -> Seq<u8>
    decreases n,
{
    if n == 0 {
        Seq::empty()
    } else {
        seq![(v % 256) as u8] + le_bytes(v / 256, (n - 1) as nat)
    }
}

/// The value of a little-endian byte sequence.
pub open spec fn le_val(s: Seq<u8>) -> nat
    decreases s.len(),
{
    if s.len() == 0 {
        0
    } else {
        (s[0] + 256 * le_val(s.drop_first())) as nat
    }
}

/// The `n` bytes of `v` in the given byte order.
pub open spec fn uint_bytes(e: Endianness, v: nat, n: nat) -> Seq<u8> {
    match e {
        Endianness::Little => le_bytes(v, n),
        Endianness::Big => le_bytes(v, n).reverse(),
    }
}

/// `p` is an initial segment of `s`.
pub open spec fn prefix_of(p: Seq<u8>, s: Seq<u8>) -> bool {
    p.len() <= s.len() && p == s.take(p.len() as int)
}

/// `p` is an initial segment of `s` shorter than `s` itself.
pub open spec fn strict_prefix_of(p: Seq<u8>, s: Seq<u8>) -> bool {
    prefix_of(p, s) && p.len() < s.len()
}

pub broadcast proof fn lemma_le_bytes_len(v: nat, n: nat)
    ensures
        (#[trigger] le_bytes(v, n)).len() == n,
    decreases n,
{
    if n > 0 {
        lemma_le_bytes_len(v / 256, (n - 1) as nat);
    }
}

/// Reading back the bytes of `v` recovers `v`, as long as `v` fits.
pub proof fn lemma_le_val_le_bytes(v: nat, n: nat)
    requires
        v < pow256(n),
    ensures
        le_val(le_bytes(v, n)) == v,
    decreases n,
{
    broadcast use lemma_le_bytes_len;

    if n > 0 {
        assert(le_bytes(v, n).drop_first() =~= le_bytes(v / 256, (n - 1) as nat));
        assert(v / 256 < pow256((n - 1) as nat)) by {
            assert(v < 256 * pow256((n - 1) as nat));
        };
        lemma_le_val_le_bytes(v / 256, (n - 1) as nat);
        assert(v == (v % 256) + 256 * (v / 256));
    }
}

/// Every byte sequence is the little-endian image of its own value.
pub proof fn lemma_le_bytes_le_val(s: Seq<u8>)
    ensures
        le_bytes(le_val(s), s.len()) == s,
    decreases s.len(),
{
    broadcast use lemma_le_bytes_len;

    if s.len() > 0 {
        let v = le_val(s);
        assert(v == s[0] + 256 * le_val(s.drop_first()));
        assert(v % 256 == s[0] && v / 256 == le_val(s.drop_first())) by {
            assert(s[0] < 256);
        };
        lemma_le_bytes_le_val(s.drop_first());
        assert(le_bytes(v, s.len()) =~= s);
    }
}

pub proof fn lemma_le_val_bound(s: Seq<u8>)
    ensures
        le_val(s) < pow256(s.len()),
    decreases s.len(),
{
    if s.len() > 0 {
        lemma_le_val_bound(s.drop_first());
        assert(le_val(s) == s[0] + 256 * le_val(s.drop_first()));
        assert(s[0] < 256);
    }
}

pub broadcast proof fn lemma_uint_bytes_len(e: Endianness, v: nat, n: nat)
    ensures
        (#[trigger] uint_bytes(e, v, n)).len() == n,
{
    broadcast use lemma_le_bytes_len;

}

/// Two fitting values with the same byte image are the same value.
pub proof fn lemma_uint_bytes_injective(e: Endianness, v1: nat, v2: nat, n: nat)
    requires
        v1 < pow256(n),
        v2 < pow256(n),
        uint_bytes(e, v1, n) == uint_bytes(e, v2, n),
    ensures
        v1 == v2,
{
    broadcast use lemma_le_bytes_len;

    match e {
        Endianness::Little => {
            lemma_le_val_le_bytes(v1, n);
            lemma_le_val_le_bytes(v2, n);
        },
        Endianness::Big => {
            assert(le_bytes(v1, n) =~= le_bytes(v1, n).reverse().reverse());
            assert(le_bytes(v2, n) =~= le_bytes(v2, n).reverse().reverse());
            lemma_le_val_le_bytes(v1, n);
            lemma_le_val_le_bytes(v2, n);
        },
    }
}

/// Appending one more byte to a little-endian image.
pub proof fn lemma_le_bytes_snoc(v: nat, n: nat)
    ensures
        le_bytes(v, n + 1) == le_bytes(v, n).push(((v / pow256(n)) % 256) as u8),
    decreases n,
{
    broadcast use lemma_le_bytes_len;

    if n == 0 {
        assert(pow256(0) == 1);
        assert(v / 1 == v);
        assert(le_bytes(v, 1) =~= le_bytes(v, 0).push((v % 256) as u8));
    } else {
        lemma_le_bytes_snoc(v / 256, (n - 1) as nat);
        assert(v / 256 / pow256((n - 1) as nat) == v / pow256(n)) by {
            broadcast use lemma_pow256_pos;

            vstd::arithmetic::div_mod::lemma_div_denominator(
                v as int,
                256,
                pow256((n - 1) as nat) as int,
            );
        };
        assert(le_bytes(v, n + 1) == seq![(v % 256) as u8] + le_bytes(v / 256, n));
        assert(le_bytes(v, n) == seq![(v % 256) as u8] + le_bytes(v / 256, (n - 1) as nat));
        assert(le_bytes(v / 256, n) == le_bytes(v / 256, (n - 1) as nat).push(
            ((v / pow256(n)) % 256) as u8,
        ));
        assert(le_bytes(v, n + 1) =~= le_bytes(v, n).push(((v / pow256(n)) % 256) as u8));
    }
}

/// The one-byte-or-marker variable-length image of `v`.
///
/// Values up to 250 occupy a single byte. Larger values are a marker
/// byte (251 for two, 252 for four, 253 for eight following bytes)
/// followed by the value in the configured byte order at that width.
/// The encoder always emits the narrowest form, and the decoder rejects
/// any other, so the image of each value is unique.
pub open spec fn varint_bytes(e: Endianness, v: nat) -> Seq<u8> {
    if v <= 250 {
        seq![v as u8]
    } else if v < 0x10000 {
        seq![251u8] + uint_bytes(e, v, 2)
    } else if v < 0x100000000 {
        seq![252u8] + uint_bytes(e, v, 4)
    } else {
        seq![253u8] + uint_bytes(e, v, 8)
    }
}

/// The wire image of a 64-bit unsigned integer (and of every container
/// length prefix) under configuration `c`.
pub open spec fn u64_enc(c: Configuration, v: nat) -> Seq<u8> {
    match c.int_encoding {
        IntEncoding::Fixed => uint_bytes(c.endianness, v, 8),
        IntEncoding::Varint => varint_bytes(c.endianness, v),
    }
}

/// The wire image of a 32-bit unsigned integer under configuration `c`.
pub open spec fn u32_enc(c: Configuration, v: nat) -> Seq<u8> {
    match c.int_encoding {
        IntEncoding::Fixed => uint_bytes(c.endianness, v, 4),
        IntEncoding::Varint => varint_bytes(c.endianness, v),
    }
}

/// A length prefix is encoded exactly as a 64-bit unsigned integer.
pub open spec fn len_enc(c: Configuration, n: nat) -> Seq<u8> {
    u64_enc(c, n)
}

/// No two fitting values' `u64` images can begin the same byte stream.
/// This is what makes a stream position decodable without ambiguity.
pub proof fn lemma_u64_enc_common_prefix(c: Configuration, a: nat, b: nat, s: Seq<u8>)
    requires
        a < pow256(8),
        b < pow256(8),
        prefix_of(u64_enc(c, a), s),
        prefix_of(u64_enc(c, b), s),
    ensures
        a == b,
        u64_enc(c, a) == u64_enc(c, b),
{
    broadcast use lemma_uint_bytes_len;

    match c.int_encoding {
        IntEncoding::Fixed => {
            assert(uint_bytes(c.endianness, a, 8) =~= uint_bytes(c.endianness, b, 8));
            lemma_uint_bytes_injective(c.endianness, a, b, 8);
        },
        IntEncoding::Varint => {
            lemma_varint_common_prefix(c.endianness, a, b, s);
        },
    }
}

/// The first byte of a variable-length integer image determines its
/// total width, so two images that begin the same stream coincide.
pub proof fn lemma_varint_common_prefix(e: Endianness, a: nat, b: nat, s: Seq<u8>)
    requires
        a < pow256(8),
        b < pow256(8),
        prefix_of(varint_bytes(e, a), s),
        prefix_of(varint_bytes(e, b), s),
    ensures
        a == b,
{
    broadcast use lemma_uint_bytes_len, lemma_prefix_index;

    assert(pow256(2) == 0x10000 && pow256(4) == 0x100000000) by {
        reveal_with_fuel(pow256, 5);
    };
    let pa = varint_bytes(e, a);
    let pb = varint_bytes(e, b);
    assert(pa[0] == s[0] && pb[0] == s[0]);
    if a <= 250 {
        assert(s[0] == a);
        assert(b <= 250) by {
            if b > 250 {
                assert(s[0] == 251 || s[0] == 252 || s[0] == 253);
            }
        };
    } else if a < 0x10000 {
        assert(s[0] == 251);
        assert(250 < b < 0x10000);
        assert(uint_bytes(e, a, 2) =~= s.subrange(1, 3));
        assert(uint_bytes(e, b, 2) =~= s.subrange(1, 3));
        lemma_uint_bytes_injective(e, a, b, 2);
    } else if a < 0x100000000 {
        assert(s[0] == 252);
        assert(0x10000 <= b < 0x100000000);
        assert(uint_bytes(e, a, 4) =~= s.subrange(1, 5));
        assert(uint_bytes(e, b, 4) =~= s.subrange(1, 5));
        lemma_uint_bytes_injective(e, a, b, 4);
    } else {
        assert(s[0] == 253);
        assert(0x100000000 <= b);
        assert(uint_bytes(e, a, 8) =~= s.subrange(1, 9));
        assert(uint_bytes(e, b, 8) =~= s.subrange(1, 9));
        lemma_uint_bytes_injective(e, a, b, 8);
    }
}

/// A stream fragment that contains one complete `u64` image and sits
/// inside another `u64` image must be that whole image: truncating an
/// integer field can only ever look like truncation.
pub proof fn lemma_u64_enc_no_truncation(c: Configuration, a: nat, b: nat, s: Seq<u8>)
    requires
        a < pow256(8),
        b < pow256(8),
        prefix_of(u64_enc(c, a), s),
        prefix_of(s, u64_enc(c, b)),
    ensures
        a == b,
        s == u64_enc(c, b),
{
    broadcast use lemma_uint_bytes_len, lemma_prefix_refl;

    lemma_prefix_transitive(u64_enc(c, a), s, u64_enc(c, b));
    lemma_u64_enc_common_prefix(c, a, b, u64_enc(c, b));
    assert(s =~= u64_enc(c, b));
}

pub broadcast proof fn lemma_pow256_pos(n: nat)
    ensures
        #[trigger] pow256(n) >= 1,
    decreases n,
{
    if n > 0 {
        lemma_pow256_pos((n - 1) as nat);
    }
}

pub proof fn lemma_pow256_increases(m: nat, n: nat)
    requires
        m <= n,
    ensures
        pow256(m) <= pow256(n),
    decreases n,
{
    broadcast use lemma_pow256_pos;

    if m < n && n > 0 {
        lemma_pow256_increases(m, (n - 1) as nat);
    }
}

/// Every sequence is an initial segment of itself.
pub broadcast proof fn lemma_prefix_refl(s: Seq<u8>)
    ensures
        #[trigger] prefix_of(s, s),
{
    assert(s =~= s.take(s.len() as int));
}

/// An initial segment agrees with the whole sequence index by index.
pub broadcast proof fn lemma_prefix_index(p: Seq<u8>, s: Seq<u8>)
    requires
        #[trigger] prefix_of(p, s),
    ensures
        forall|i: int| 0 <= i < p.len() ==> p[i] == s[i],
{
    assert forall|i: int| 0 <= i < p.len() implies p[i] == s[i] by {
        assert(p[i] == s.take(p.len() as int)[i]);
    };
}

/// An initial segment of an initial segment is an initial segment.
pub proof fn lemma_prefix_transitive(a: Seq<u8>, b: Seq<u8>, s: Seq<u8>)
    requires
        prefix_of(a, b),
        prefix_of(b, s),
    ensures
        prefix_of(a, s),
{
    assert(a =~= s.take(a.len() as int)) by {
        assert forall|i: int| 0 <= i < a.len() implies a[i] == s[i] by {
            assert(a[i] == b.take(a.len() as int)[i]);
            assert(b[i] == s.take(b.len() as int)[i]);
        };
    };
}

/// An address-sized value always fits in the eight-byte integer field.
pub proof fn lemma_usize_fits_u64()
    ensures
        (usize::MAX as nat) < pow256(8),
{
    assert(pow256(8) == 0x10000000000000000) by {
        reveal_with_fuel(pow256, 9);
    };
    assert(usize::MAX <= u64::MAX);
}

/// Splitting a concatenated initial segment.
pub proof fn lemma_prefix_concat_split(a: Seq<u8>, b: Seq<u8>, s: Seq<u8>)
    requires
        prefix_of(a + b, s),
    ensures
        prefix_of(a, s),
        prefix_of(b, s.skip(a.len() as int)),
{
    broadcast use lemma_prefix_index;

    lemma_prefix_refl(a + b);
    assert(a =~= s.take(a.len() as int)) by {
        assert forall|i: int| 0 <= i < a.len() implies a[i] == s[i] by {
            assert(a[i] == (a + b)[i]);
        };
    };
    assert(b =~= s.skip(a.len() as int).take(b.len() as int)) by {
        assert forall|i: int| 0 <= i < b.len() implies b[i] == s.skip(a.len() as int)[i] by {
            assert(b[i] == (a + b)[a.len() + i]);
        };
    };
}

/// Joining two adjacent initial segments.
pub proof fn lemma_prefix_concat_join(a: Seq<u8>, b: Seq<u8>, s: Seq<u8>)
    requires
        prefix_of(a, s),
        prefix_of(b, s.skip(a.len() as int)),
    ensures
        prefix_of(a + b, s),
{
    broadcast use lemma_prefix_index;

    assert(a + b =~= s.take(a.len() as int + b.len() as int)) by {
        assert forall|i: int| 0 <= i < a.len() + b.len() implies (a + b)[i] == s[i] by {
            if i < a.len() {
            } else {
                assert((a + b)[i] == b[i - a.len()]);
                assert(b[i - a.len()] == s.skip(a.len() as int)[i - a.len()]);
            }
        };
    };
}

/// Of two initial segments of the same sequence, the shorter is an
/// initial segment of the longer.
pub proof fn lemma_prefix_common(p: Seq<u8>, q: Seq<u8>, s: Seq<u8>)
    requires
        prefix_of(p, s),
        prefix_of(q, s),
        p.len() <= q.len(),
    ensures
        prefix_of(p, q),
{
    broadcast use lemma_prefix_index;

    assert(p =~= q.take(p.len() as int)) by {
        assert forall|i: int| 0 <= i < p.len() implies p[i] == q[i] by {
            assert(q[i] == q.take(q.len() as int)[i]);
        };
    };
}

} // verus!
