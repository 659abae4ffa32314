//! Bit-sequence model shared by the buffered bit streams: how backing words
//! map to a logical sequence of bits under each bit order, and how runs of
//! bits map to unsigned values.

use vstd::prelude::*;

verus! {

use vstd::arithmetic::power2::pow2;
use vstd::arithmetic::power2::lemma_pow2_unfold;
use vstd::arithmetic::power2::lemma_pow2_pos;
use vstd::arithmetic::div_mod::lemma_basic_div;
use vstd::bits::lemma_u64_shr_is_div;

/// Bit `i` of a 64-bit word, counting from the least significant bit.
pub open spec fn u64_bit(w: u64, i: u64) -> bool {
    (w >> i) & 1u64 == 1u64
}

/// Bit `i` of a 32-bit word, counting from the least significant bit.
pub open spec fn u32_bit(w: u32, i: u32) -> bool {
    (w >> i) & 1u32 == 1u32
}

/// Bit `i` of a 128-bit word, counting from the least significant bit.
pub open spec fn u128_bit(w: u128, i: u128) -> bool {
    (w >> i) & 1u128 == 1u128
}

/// The order in which the bits of each backing word enter the bit stream:
/// `M2L` consumes each word from its most significant bit down, `L2M` from
/// its least significant bit up.
#[derive(Clone, Copy, PartialEq, Eq, Structural, Debug)]
pub enum BitOrder {
    M2L,
    L2M,
}

/// The logical bit stream carried by a sequence of 64-bit words, least
/// significant bit first within each word.
pub open spec fn words64_bits(words: Seq<u64>) -> Seq<bool> {
    Seq::new(words.len() * 64, |j: int| u64_bit(words[j / 64], (j % 64) as u64))
}

/// Stream bit `k` (0-based within the word) of a 32-bit word under the given
/// bit order.
pub open spec fn word32_stream_bit(order: BitOrder, w: u32, k: int) -> bool {
    match order {
        BitOrder::M2L => u32_bit(w, (31 - k) as u32),
        BitOrder::L2M => u32_bit(w, k as u32),
    }
}

/// The logical bit stream carried by a sequence of 32-bit words under the
/// given bit order.
pub open spec fn words32_bits(order: BitOrder, words: Seq<u32>) -> Seq<bool> {
    Seq::new(words.len() * 32, |j: int| word32_stream_bit(order, words[j / 32], j % 32))
}

/// Value of a bit run read least-significant bit first.
pub open spec fn lsb_val(bs: Seq<bool>) -> nat
    decreases bs.len(),
{
    if bs.len() == 0 {
        0
    } else {
        (if bs[0] {
            1nat
        } else {
            0nat
        }) + 2 * lsb_val(bs.drop_first())
    }
}

/// Value of a bit run read most-significant bit first.
pub open spec fn msb_val(bs: Seq<bool>) -> nat
    decreases bs.len(),
{
    if bs.len() == 0 {
        0
    } else {
        2 * msb_val(bs.drop_last()) + (if bs.last() {
            1nat
        } else {
            0nat
        })
    }
}

/// Value of a bit run under a bit order: under `M2L` the first bit of the run
/// is the most significant one of the value, under `L2M` the least
/// significant one.
pub open spec fn stream_val(order: BitOrder, bs: Seq<bool>) -> nat {
    match order {
        BitOrder::M2L => msb_val(bs),
        BitOrder::L2M => lsb_val(bs),
    }
}

/// The `n` low bits of `v`, laid out in stream order for the given bit order.
pub open spec fn val_bits(order: BitOrder, v: u64, n: nat) -> Seq<bool> {
    Seq::new(
        n,
        |i: int|
            match order {
                BitOrder::M2L => u64_bit(v, (n - 1 - i) as u64),
                BitOrder::L2M => u64_bit(v, i as u64),
            },
    )
}

/// The bits of a unary code for `x`: that many clear bits, then a set bit.
pub open spec fn unary_bits(x: nat) -> Seq<bool> {
    Seq::new(x + 1, |i: int| i == x)
}

/// Offset, from `pos`, of the first set bit of `bs` at or after `pos`, if
/// any: the shape a unary code decoder looks for.
pub open spec fn first_one_from(bs: Seq<bool>, pos: int) -> Option<nat>
    decreases bs.len() - pos,
{
    if pos < 0 || pos >= bs.len() {
        None
    } else if bs[pos] {
        Some(0nat)
    } else {
        match first_one_from(bs, pos + 1) {
            None => None,
            Some(k) => Some((k + 1) as nat),
        }
    }
}

/// Shift facts about 64-bit words that the bit-run value lemmas rest on.
proof fn lemma_u64_shift_facts()
    by (bit_vector)
    ensures
        forall|v: u64| #[trigger] (v >> 0u64) == v,
        forall|v: u64| v == 2 * (#[trigger] (v >> 1u64)) + (v & 1u64),
        forall|v: u64| (v & 1u64) == 0u64 || (v & 1u64) == 1u64,
        forall|v: u64, s: u64|
            1 <= s <= 63 ==> #[trigger] ((v >> 1u64) >> (((s - 1) as u64))) == (v >> s),
        forall|v: u64| #[trigger] ((v >> 1u64) >> 63u64) == 0u64,
{
}

/// A 64-bit value with its bits listed least-significant first is the
/// `lsb_val` of that listing.
pub proof fn lemma_u64_lsb_val(v: u64, bs: Seq<bool>)
    requires
        bs.len() <= 64,
        forall|i: int| 0 <= i < bs.len() ==> bs[i] == u64_bit(v, i as u64),
        bs.len() < 64 ==> v >> (bs.len() as u64) == 0,
    ensures
        v as nat == lsb_val(bs),
    decreases bs.len(),
{
    lemma_u64_shift_facts();
    if bs.len() == 0 {
        assert(u64_bit(v, 0) == false || v >> 0u64 != 0);
        assert(v == 0);
    } else {
        let v1 = v >> 1u64;
        let bs1 = bs.drop_first();
        assert forall|i: int| 0 <= i < bs1.len() implies bs1[i] == u64_bit(v1, i as u64) by {
            let s = (i + 1) as u64;
            assert((v1 >> (((s - 1) as u64))) == (v >> s));
        }
        if bs1.len() < 64 {
            if bs.len() < 64 {
                let s = bs.len() as u64;
                assert((v1 >> (((s - 1) as u64))) == (v >> s));
            } else {
                assert(v1 >> 63u64 == 0);
            }
        }
        lemma_u64_lsb_val(v1, bs1);
        assert(v == 2 * v1 + (v & 1u64));
        assert(bs[0] == u64_bit(v, 0));
        assert(u64_bit(v, 0) == ((v & 1u64) == 1u64));
    }
}

/// A 64-bit value with its bits listed most-significant first is the
/// `msb_val` of that listing.
pub proof fn lemma_u64_msb_val(v: u64, bs: Seq<bool>)
    requires
        bs.len() <= 64,
        forall|i: int| 0 <= i < bs.len() ==> bs[i] == u64_bit(v, (bs.len() - 1 - i) as u64),
        bs.len() < 64 ==> v >> (bs.len() as u64) == 0,
    ensures
        v as nat == msb_val(bs),
    decreases bs.len(),
{
    lemma_u64_shift_facts();
    if bs.len() == 0 {
        assert(v == 0);
    } else {
        let v1 = v >> 1u64;
        let bs1 = bs.drop_last();
        assert forall|i: int| 0 <= i < bs1.len() implies bs1[i] == u64_bit(
            v1,
            (bs1.len() - 1 - i) as u64,
        ) by {
            let s = (bs.len() - 1 - i) as u64;
            assert((v1 >> (((s - 1) as u64))) == (v >> s));
        }
        if bs1.len() < 64 {
            if bs.len() < 64 {
                let s = bs.len() as u64;
                assert((v1 >> (((s - 1) as u64))) == (v >> s));
            } else {
                assert(v1 >> 63u64 == 0);
            }
        }
        lemma_u64_msb_val(v1, bs1);
        assert(v == 2 * v1 + (v & 1u64));
        assert(bs.last() == u64_bit(v, 0));
        assert(u64_bit(v, 0) == ((v & 1u64) == 1u64));
    }
}

/// The bits of a run's value are the run itself: the inverse direction of
/// the value lemmas.
pub proof fn lemma_val_bits_of_stream_val(order: BitOrder, bs: Seq<bool>)
    requires
        bs.len() <= 64,
    ensures
        stream_val(order, bs) < pow2(bs.len()),
        val_bits(order, (stream_val(order, bs)) as u64, bs.len()) == bs,
    decreases bs.len(),
{
    lemma_stream_val_bound_pre(order, bs);
    vstd::arithmetic::power2::lemma2_to64_rest();
    let n = bs.len();
    if n < 64 {
        lemma_pow2_strictly_increases_local(n, 64);
    }
    assert(pow2(64) == 0x10000000000000000);
    if n >= 1 {
        lemma_pow2_le_63((n - 1) as nat);
        lemma_stream_val_bound_pre(order, bs.drop_first());
        lemma_stream_val_bound_pre(order, bs.drop_last());
    }
    let v = stream_val(order, bs) as u64;
    if n == 0 {
        assert(val_bits(order, v, 0) =~= bs);
    } else {
        match order {
            BitOrder::L2M => {
                let rest = bs.drop_first();
                lemma_val_bits_of_stream_val(order, rest);
                let w = lsb_val(rest) as u64;
                let b: u64 = if bs[0] {
                    1
                } else {
                    0
                };
                assert(v == 2 * w + b);
                lemma_u64_halving(v, w, b, (n - 1) as nat);
                assert forall|i: int| 0 <= i < n implies val_bits(order, v, n)[i] == bs[i] by {
                    if i == 0 {
                        assert(u64_bit(v, 0) == (b == 1));
                    } else {
                        assert(u64_bit(v, i as u64) == u64_bit(w, (i - 1) as u64));
                        assert(val_bits(order, w, (n - 1) as nat)[i - 1] == rest[i - 1]);
                    }
                }
                assert(val_bits(order, v, n) =~= bs);
            },
            BitOrder::M2L => {
                let rest = bs.drop_last();
                lemma_val_bits_of_stream_val(order, rest);
                let w = msb_val(rest) as u64;
                let b: u64 = if bs.last() {
                    1
                } else {
                    0
                };
                assert(v == 2 * w + b);
                lemma_u64_halving(v, w, b, (n - 1) as nat);
                assert forall|i: int| 0 <= i < n implies val_bits(order, v, n)[i] == bs[i] by {
                    if i == n - 1 {
                        assert(u64_bit(v, 0) == (b == 1));
                    } else {
                        assert(u64_bit(v, (n - 1 - i) as u64) == u64_bit(w, (n - 2 - i) as u64));
                        assert(val_bits(order, w, (n - 1) as nat)[i] == rest[i]);
                    }
                }
                assert(val_bits(order, v, n) =~= bs);
            },
        }
    }
}

/// Doubling and adding a bit shifts every bit up by one.
proof fn lemma_u64_halving(v: u64, w: u64, b: u64, wn: nat)
    requires
        b <= 1,
        wn <= 63,
        (w as nat) < pow2(wn),
        v == 2 * w + b,
    ensures
        u64_bit(v, 0) == (b == 1),
        forall|i: u64| 1 <= i <= 63 ==> #[trigger] u64_bit(v, i) == u64_bit(w, (i - 1) as u64),
{
    lemma_pow2_le_63(wn);
    assert(u64_bit(v, 0) == (b == 1) && forall|i: u64|
        1 <= i <= 63 ==> #[trigger] u64_bit(v, i) == u64_bit(w, (i - 1) as u64)) by (bit_vector)
        requires
            b <= 1,
            w <= 0x7fff_ffff_ffff_ffffu64,
            v == 2 * w + b,
    ;
}

/// Small powers of two stay below the top bit.
proof fn lemma_pow2_le_63(wn: nat)
    requires
        wn <= 63,
    ensures
        pow2(wn) <= 0x8000_0000_0000_0000,
{
    if wn < 63 {
        lemma_pow2_strictly_increases_local(wn, 63);
    }
    vstd::arithmetic::power2::lemma2_to64_rest();
}

/// The power of two grows strictly.
proof fn lemma_pow2_strictly_increases_local(a: nat, b: nat)
    requires
        a < b,
    ensures
        pow2(a) < pow2(b),
{
    vstd::arithmetic::power2::lemma_pow2_strictly_increases(a, b);
}

/// A bound form usable before the main lemma recurses.
proof fn lemma_stream_val_bound_pre(order: BitOrder, bs: Seq<bool>)
    ensures
        stream_val(order, bs) < pow2(bs.len()),
{
    lemma_stream_val_bound(order, bs);
}

/// Writing the `n` low bits of a value below `2^n` and reading them back in
/// the same bit order returns the value.
pub proof fn lemma_stream_val_val_bits(order: BitOrder, v: u64, n: nat)
    requires
        n <= 64,
        (v as nat) < pow2(n),
    ensures
        stream_val(order, val_bits(order, v, n)) == v,
{
    let bs = val_bits(order, v, n);
    if n < 64 {
        lemma_u64_shr_is_div(v, n as u64);
        lemma_pow2_pos(n);
        lemma_basic_div(v as int, pow2(n) as int);
        assert(v >> (n as u64) == 0);
    }
    match order {
        BitOrder::M2L => lemma_u64_msb_val(v, bs),
        BitOrder::L2M => lemma_u64_lsb_val(v, bs),
    }
}

/// A run of `n` bits denotes a value below `2^n`.
pub proof fn lemma_stream_val_bound(order: BitOrder, bs: Seq<bool>)
    ensures
        stream_val(order, bs) < pow2(bs.len()),
    decreases bs.len(),
{
    if bs.len() == 0 {
        lemma_pow2_pos(0);
    } else {
        lemma_pow2_unfold(bs.len());
        match order {
            BitOrder::M2L => {
                lemma_stream_val_bound(order, bs.drop_last());
            },
            BitOrder::L2M => {
                lemma_stream_val_bound(order, bs.drop_first());
            },
        }
    }
}

/// Skipping a run of clear bits shifts the offset of the first set bit.
pub proof fn lemma_first_one_zeros(bs: Seq<bool>, pos: int, m: int)
    requires
        0 <= pos,
        0 <= m,
        pos + m <= bs.len(),
        forall|j: int| pos <= j < pos + m ==> !bs[j],
    ensures
        first_one_from(bs, pos) == match first_one_from(bs, pos + m) {
            None => None::<nat>,
            Some(k) => Some((k + m) as nat),
        },
    decreases m,
{
    if m > 0 {
        lemma_first_one_zeros(bs, pos + 1, m - 1);
    }
}

/// A set bit after a run of clear bits is the first set bit.
pub proof fn lemma_first_one_found(bs: Seq<bool>, pos: int, z: int)
    requires
        0 <= pos,
        0 <= z,
        pos + z < bs.len(),
        forall|j: int| pos <= j < pos + z ==> !bs[j],
        bs[pos + z],
    ensures
        first_one_from(bs, pos) == Some(z as nat),
    decreases z,
{
    if z > 0 {
        lemma_first_one_found(bs, pos + 1, z - 1);
    }
}

/// Past the end of the stream there is no set bit.
pub proof fn lemma_first_one_none(bs: Seq<bool>, pos: int)
    requires
        pos >= bs.len() || (pos >= 0 && forall|j: int| pos <= j < bs.len() ==> !bs[j]),
    ensures
        first_one_from(bs, pos) == None::<nat>,
    decreases bs.len() - pos,
{
    if 0 <= pos && pos < bs.len() {
        lemma_first_one_none(bs, pos + 1);
    }
}

} // verus!
