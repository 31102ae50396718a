//! The mathematical model of bit streams.
//!
//! A bit stream is a `Seq<bool>` (`true` is a one bit). Bytes expose their
//! bits MSB-first, and a packed field of `n` bits carries the low `n` bits of
//! its value, most significant first. The lemmas here relate bit sequences to
//! the integer values they encode, in both directions.

use vstd::prelude::*;
use vstd::arithmetic::power2::*;
use vstd::arithmetic::div_mod::lemma_mod_breakdown;
use vstd::bits::{lemma_u64_shr_is_div, lemma_u64_low_bits_mask_is_mod, low_bits_mask};

verus! {

/// The eight bits of a byte, MSB-first.
pub open spec fn byte_bits(b: u8) -> Seq<bool> {
    Seq::new(8, |i: int| (b >> ((7 - i) as u8)) & 1 == 1)
}

/// The bits of a byte sequence, each byte MSB-first.
pub open spec fn bytes_bits(bs: Seq<u8>) -> Seq<bool> {
    Seq::new(bs.len() * 8, |i: int| byte_bits(bs[i / 8])[i % 8])
}

/// The low `n` bits of `v`, MSB-first (bit `n - 1` of `v` comes first).
pub open spec fn bits_of(v: u64, n: nat) -> Seq<bool> {
    Seq::new(n, |i: int| (v >> ((n - 1 - i) as u64)) & 1 == 1)
}

/// The value of an MSB-first bit sequence.
pub open spec fn bits_val(s: Seq<bool>) -> nat
    decreases s.len(),
{
    if s.len() == 0 {
        0
    } else {
        2 * bits_val(s.drop_last()) + if s.last() {
            1nat
        } else {
            0nat
        }
    }
}

/// The bytes that hold a bit sequence, the last byte zero-padded.
pub open spec fn bits_to_bytes(s: Seq<bool>) -> Seq<u8> {
    Seq::new(
        (s.len() + 7) / 8,
        |i: int| bits_val(Seq::new(8, |j: int| 0 <= 8 * i + j < s.len() && s[8 * i + j])) as u8,
    )
}

/// A bit sequence of length `n` encodes a value below `2^n`.
pub proof fn lemma_bits_val_bound(s: Seq<bool>)
    ensures
        bits_val(s) < pow2(s.len()),
    decreases s.len(),
{
    if s.len() == 0 {
        lemma2_to64();
    } else {
        lemma_bits_val_bound(s.drop_last());
        lemma_pow2_unfold(s.len());
    }
}

/// Extending a prefix by one bit doubles its value and adds the bit.
pub proof fn lemma_bits_val_take_step(s: Seq<bool>, i: int)
    requires
        0 <= i < s.len(),
    ensures
        bits_val(s.take(i + 1)) == 2 * bits_val(s.take(i)) + if s[i] {
            1nat
        } else {
            0nat
        },
{
    assert(s.take(i + 1).drop_last() =~= s.take(i));
    assert(s.take(i + 1).last() == s[i]);
}

/// The value packed into `bits_of(v, n)` is `v` modulo `2^n`.
pub proof fn lemma_bits_val_of_bits(v: u64, n: nat)
    requires
        n <= 64,
    ensures
        bits_val(bits_of(v, n)) == v as nat % pow2(n),
    decreases n,
{
    if n == 0 {
        lemma2_to64();
        assert(v as nat % 1 == 0);
    } else {
        let h = v >> 1;
        assert(bits_of(v, n).drop_last() =~= bits_of(h, (n - 1) as nat)) by {
            assert forall|i: int| 0 <= i < n - 1 implies #[trigger] bits_of(h, (n - 1) as nat)[i]
                == bits_of(v, n)[i] by {
                let k = (n - 2 - i) as u64;
                assert(k < 63 ==> ((v >> 1u64) >> k) & 1 == (v >> ((k + 1) as u64)) & 1)
                    by (bit_vector);
            }
        }
        lemma_bits_val_of_bits(h, (n - 1) as nat);
        assert(bits_of(v, n).last() == ((v >> 0u64) & 1 == 1));
        assert((v >> 0u64) & 1 == v % 2) by (bit_vector);
        lemma_u64_shr_is_div(v, 1);
        assert(pow2(1) == 2) by {
            lemma2_to64();
        }
        lemma_pow2_unfold(n);
        lemma_pow2_pos((n - 1) as nat);
        lemma_mod_breakdown(v as int, 2, pow2((n - 1) as nat) as int);
    }
}

/// If `v` fits in `n` bits, `bits_of(v, n)` encodes `v` exactly.
pub proof fn lemma_bits_val_of_bits_exact(v: u64, n: nat)
    requires
        n <= 64,
        v < pow2(n),
    ensures
        bits_val(bits_of(v, n)) == v,
{
    lemma_bits_val_of_bits(v, n);
    vstd::arithmetic::div_mod::lemma_small_mod(v as nat, pow2(n));
}

/// Bit `i` of a sequence is bit `len - 1 - i` of its value.
pub proof fn lemma_bits_val_index(s: Seq<bool>, i: int)
    requires
        s.len() <= 64,
        0 <= i < s.len(),
    ensures
        ((bits_val(s) as u64) >> ((s.len() - 1 - i) as u64)) & 1 == 1 <==> s[i],
    decreases s.len(),
{
    let x = bits_val(s) as u64;
    let p = bits_val(s.drop_last()) as u64;
    let c: u64 = if s.last() {
        1u64
    } else {
        0u64
    };
    lemma_bits_val_bound(s);
    lemma_bits_val_bound(s.drop_last());
    lemma2_to64_rest();
    if s.len() < 64 {
        lemma_pow2_strictly_increases(s.len(), 64);
    }
    if s.drop_last().len() < 63 {
        lemma_pow2_strictly_increases(s.drop_last().len(), 63);
    }
    assert(bits_val(s) < pow2(64) && bits_val(s.drop_last()) < pow2(63));
    assert(bits_val(s) == 2 * bits_val(s.drop_last()) + if s.last() {
        1nat
    } else {
        0nat
    });
    assert(x == 2 * p + c);
    if i == s.len() - 1 {
        assert(((x >> 0u64) & 1 == 1) == (x % 2 == 1)) by (bit_vector);
        assert(x % 2 == c);
        assert(((s.len() - 1 - i) as u64) == 0u64);
    } else {
        let k = (s.len() - 1 - i) as u64;
        assert((x >> k) & 1 == (p >> ((k - 1) as u64)) & 1) by (bit_vector)
            requires
                1 <= k < 64,
                x == 2 * p + c,
                c <= 1,
                p < 0x8000_0000_0000_0000u64,
        ;
        lemma_bits_val_index(s.drop_last(), i);
        assert(((s.drop_last().len() - 1 - i) as u64) == (k - 1) as u64);
        assert(s.drop_last()[i] == s[i]);
    }
}

/// Packing the value of a 64-bit-or-shorter sequence gives the sequence back.
pub proof fn lemma_bits_of_val(s: Seq<bool>)
    requires
        s.len() <= 64,
    ensures
        bits_of(bits_val(s) as u64, s.len()) == s,
{
    assert forall|i: int| 0 <= i < s.len() implies bits_of(bits_val(s) as u64, s.len())[i] == s[i] by {
        lemma_bits_val_index(s, i);
    }
    assert(bits_of(bits_val(s) as u64, s.len()) =~= s);
}

/// Bit `8i + j` of a byte sequence is bit `j` of byte `i`.
pub proof fn lemma_bytes_bits_at(bs: Seq<u8>, i: int, j: int)
    requires
        0 <= i < bs.len(),
        0 <= j < 8,
    ensures
        bytes_bits(bs)[8 * i + j] == byte_bits(bs[i])[j],
{
    vstd::arithmetic::div_mod::lemma_fundamental_div_mod_converse(8 * i + j, 8, i, j);
}

/// A byte's bits are the low eight bits of its value.
pub proof fn lemma_byte_bits_is_bits_of(b: u8)
    ensures
        byte_bits(b) == bits_of(b as u64, 8),
{
    assert forall|i: int| 0 <= i < 8 implies byte_bits(b)[i] == bits_of(b as u64, 8)[i] by {
        let k = (7 - i) as u64;
        assert(k < 8 ==> (((b as u64) >> k) & 1 == 1) == ((b >> (k as u8)) & 1 == 1))
            by (bit_vector);
    }
    assert(byte_bits(b) =~= bits_of(b as u64, 8));
}

/// Appending a byte appends its eight bits.
pub proof fn lemma_bytes_bits_push(bs: Seq<u8>, b: u8)
    ensures
        bytes_bits(bs.push(b)) == bytes_bits(bs) + byte_bits(b),
{
    assert(bytes_bits(bs.push(b)) =~= bytes_bits(bs) + byte_bits(b));
}

/// One bit of `bits_to_bytes(s)`: the bits of `s`, then zero padding.
pub proof fn lemma_bits_to_bytes_bit(s: Seq<bool>, i: int)
    requires
        0 <= i < 8 * ((s.len() + 7) as int / 8),
    ensures
        bytes_bits(bits_to_bytes(s))[i] == (i < s.len() && s[i]),
{
    let bs = bits_to_bytes(s);
    let w = Seq::new(8, |j: int| 0 <= 8 * (i / 8) + j < s.len() && s[8 * (i / 8) + j]);
    lemma_bits_val_bound(w);
    lemma2_to64();
    assert(bits_val(w) as u8 as u64 == bits_val(w) as u64);
    lemma_bits_val_of_bits_exact(bits_val(w) as u64, 8);
    lemma_byte_bits_is_bits_of(bs[i / 8]);
    lemma_bits_of_val(w);
    assert(byte_bits(bs[i / 8]) =~= w);
    assert(bytes_bits(bs)[i] == w[i % 8]);
    assert(8 * (i / 8) + i % 8 == i);
}

/// The bytes of a bit sequence hold that sequence, then zero padding.
pub proof fn lemma_bits_to_bytes_roundtrip(s: Seq<bool>)
    ensures
        bytes_bits(bits_to_bytes(s)).len() == 8 * ((s.len() + 7) as int / 8),
        bytes_bits(bits_to_bytes(s)).take(s.len() as int) == s,
        forall|i: int|
            s.len() <= i < bytes_bits(bits_to_bytes(s)).len() ==> !bytes_bits(bits_to_bytes(s))[i],
{
    let bs = bits_to_bytes(s);
    assert forall|i: int| 0 <= i < s.len() implies bytes_bits(bs).take(s.len() as int)[i]
        == s[i] by {
        lemma_bits_to_bytes_bit(s, i);
    }
    assert(bytes_bits(bs).take(s.len() as int) =~= s);
    assert forall|i: int| s.len() <= i < bytes_bits(bs).len() implies !bytes_bits(bs)[i] by {
        lemma_bits_to_bytes_bit(s, i);
    }
}

/// One bit read as a field has value 1 or 0.
pub proof fn lemma_bits_val_single(s: Seq<bool>, p: int)
    requires
        0 <= p < s.len(),
    ensures
        bits_val(s.subrange(p, p + 1)) == if s[p] {
            1nat
        } else {
            0nat
        },
{
    let q = s.subrange(p, p + 1);
    assert(q.drop_last() =~= Seq::<bool>::empty());
    assert(q.last() == s[p]);
    assert(bits_val(Seq::<bool>::empty()) == 0);
    assert(bits_val(q) == 2 * bits_val(q.drop_last()) + if q.last() {
        1nat
    } else {
        0nat
    });
}

/// A non-zero word has a one bit, so its leading and trailing zero counts
/// leave room for at least one significant bit.
pub proof fn lemma_nonzero_window(x: u64)
    requires
        x != 0,
    ensures
        0 <= vstd::std_specs::bits::u64_leading_zeros(x) < 64,
        0 <= vstd::std_specs::bits::u64_trailing_zeros(x) < 64,
        vstd::std_specs::bits::u64_leading_zeros(x) + vstd::std_specs::bits::u64_trailing_zeros(x)
            <= 63,
{
    vstd::std_specs::bits::axiom_u64_leading_zeros(x);
    vstd::std_specs::bits::axiom_u64_trailing_zeros(x);
    let lz = vstd::std_specs::bits::u64_leading_zeros(x);
    let tz = vstd::std_specs::bits::u64_trailing_zeros(x);
    if lz + tz > 63 {
        assert((x >> (tz as u64)) & 1u64 == 1u64);
        assert(64 - lz <= (tz as u64) && (tz as u64) < 64);
        assert((x >> (tz as u64)) & 1u64 == 0u64);
    }
}

} // verus!
