//! Variable-length integer codes over the buffered bit streams: unary, γ, δ
//! and ζ_k, each with a mathematical description of its bit shape, a writer,
//! a reader proved against the description, and round-trip laws.

use vstd::prelude::*;

verus! {

use crate::bit_reader::BufferedBitStreamRead;
use crate::bit_writer::BufferedBitStreamWrite;
use crate::bits::BitOrder;
use crate::bits::first_one_from;
use crate::bits::lemma_first_one_found;
use crate::bits::lemma_stream_val_bound;
use crate::bits::lemma_stream_val_val_bits;
use crate::bits::stream_val;
use crate::bits::u64_bit;
use crate::bits::unary_bits;
use crate::bits::val_bits;
use crate::utils::GraphError;
use vstd::arithmetic::div_mod::lemma_fundamental_div_mod;
use vstd::arithmetic::power2::lemma_pow2_adds;
use vstd::arithmetic::power2::lemma_pow2_pos;
use vstd::arithmetic::power2::lemma_pow2_strictly_increases;
use vstd::arithmetic::power2::lemma_pow2_unfold;
use vstd::arithmetic::power2::pow2;
use vstd::bits::lemma_u64_pow2_no_overflow;
use vstd::bits::lemma_u64_shl_is_mul;

/// The floor of the base-2 logarithm.
pub open spec fn floor_log2(n: nat) -> nat
    decreases n,
{
    if n <= 1 {
        0
    } else {
        1 + floor_log2(n / 2)
    }
}

/// The defining property of [`floor_log2`]: it names the unique power-of-two
/// window holding its argument.
pub proof fn lemma_floor_log2(n: nat)
    requires
        n >= 1,
    ensures
        pow2(floor_log2(n)) <= n < pow2(floor_log2(n) + 1),
    decreases n,
{
    if n <= 1 {
        vstd::arithmetic::power2::lemma2_to64();
    } else {
        lemma_floor_log2(n / 2);
        lemma_pow2_unfold(floor_log2(n));
        lemma_pow2_unfold(floor_log2(n) + 1);
    }
}

/// Every 64-bit value lies below `2^64`.
pub proof fn lemma_u64_below_pow2_64(v: u64)
    ensures
        (v as nat) < pow2(64),
{
    vstd::arithmetic::power2::lemma2_to64_rest();
}

/// The power of two is monotone in its exponent.
pub proof fn lemma_pow2_le_pub(a: nat, b: nat)
    requires
        a <= b,
    ensures
        pow2(a) <= pow2(b),
{
    if a < b {
        lemma_pow2_strictly_increases(a, b);
    }
}

/// Values below `2^64` have logarithm at most 63.
pub proof fn lemma_floor_log2_bound(n: nat)
    requires
        1 <= n < pow2(64),
    ensures
        floor_log2(n) <= 63,
{
    lemma_floor_log2(n);
    if floor_log2(n) > 63 {
        lemma_pow2_strictly_increases(64, floor_log2(n));
        assert(false);
    }
}

/// The bits of the γ code for `x`: the length of `x + 1` in unary, then its
/// low bits.
pub open spec fn gamma_bits(order: BitOrder, x: nat) -> Seq<bool> {
    let l = floor_log2(x + 1);
    unary_bits(l) + val_bits(order, (x + 1) as u64, l)
}

/// The bits of the δ code for `x`: the length of `x + 1` in γ, then its low
/// bits.
pub open spec fn delta_bits(order: BitOrder, x: nat) -> Seq<bool> {
    let l = floor_log2(x + 1);
    gamma_bits(order, l) + val_bits(order, (x + 1) as u64, l)
}

/// Decoding a unary code at `pos`: the count of clear bits before the next
/// set bit, and the position after that bit.
pub open spec fn spec_read_unary(bs: Seq<bool>, pos: int) -> Option<(nat, int)> {
    match first_one_from(bs, pos) {
        Some(k) => Some((k, pos + k + 1)),
        None => None,
    }
}

/// Decoding a fixed-width run of `n` bits at `pos` as a value in stream
/// order.
pub open spec fn spec_read_fixed(order: BitOrder, bs: Seq<bool>, pos: int, n: nat) -> Option<
    (nat, int),
> {
    if 0 <= pos && pos + n <= bs.len() {
        Some((stream_val(order, bs.subrange(pos, pos + n)), pos + n))
    } else {
        None
    }
}

/// Decoding a γ code at `pos`.
pub open spec fn spec_read_gamma(order: BitOrder, bs: Seq<bool>, pos: int) -> Option<(nat, int)> {
    match spec_read_unary(bs, pos) {
        None => None,
        Some((l, p1)) => if l <= 63 {
            match spec_read_fixed(order, bs, p1, l) {
                None => None,
                Some((low, p2)) => Some(((pow2(l) + low - 1) as nat, p2)),
            }
        } else {
            None
        },
    }
}

/// Decoding a δ code at `pos`.
pub open spec fn spec_read_delta(order: BitOrder, bs: Seq<bool>, pos: int) -> Option<(nat, int)> {
    match spec_read_gamma(order, bs, pos) {
        None => None,
        Some((l, p1)) => if l <= 63 {
            match spec_read_fixed(order, bs, p1, l as nat) {
                None => None,
                Some((low, p2)) => Some(((pow2(l as nat) + low - 1) as nat, p2)),
            }
        } else {
            None
        },
    }
}

/// The low `n` bits of a value, as laid out by `val_bits`, denote the value
/// reduced modulo `2^n`.
proof fn lemma_val_bits_mod(order: BitOrder, v: u64, n: nat)
    requires
        n <= 63,
    ensures
        stream_val(order, val_bits(order, v, n)) == (v as nat) % pow2(n),
{
    lemma_u64_pow2_no_overflow(n);
    let m = (v as nat % pow2(n)) as u64;
    lemma_pow2_pos(n);
    assert(v as nat % pow2(n) < pow2(n)) by {
        lemma_fundamental_div_mod(v as int, pow2(n) as int);
    }
    assert forall|i: u64| i < n implies u64_bit(m, i) == u64_bit(v, i) by {
        lemma_u64_mod_pow2_bits(v, m, n as u64, i);
    }
    assert(val_bits(order, v, n) =~= val_bits(order, m, n));
    lemma_stream_val_val_bits(order, m, n);
}

/// Reducing a value modulo a power of two keeps its low bits.
proof fn lemma_u64_mod_pow2_bits(v: u64, m: u64, n: u64, i: u64)
    requires
        n <= 63,
        i < n,
        m == (v as nat % pow2(n as nat)) as u64,
    ensures
        u64_bit(m, i) == u64_bit(v, i),
{
    lemma_u64_pow2_no_overflow(n as nat);
    let p = pow2(n as nat) as u64;
    assert(p == 1u64 << n) by {
        lemma_u64_shl_is_mul(1u64, n);
    }
    assert(m == v % p);
    assert(u64_bit(v % (1u64 << n), i) == u64_bit(v, i)) by (bit_vector)
        requires
            i < n,
            n <= 63,
    ;
}

/// Reading a unary code right after writing one returns the written value:
/// the unary round trip, stated on the bits themselves.
pub proof fn lemma_unary_round_trip(prefix: Seq<bool>, x: nat, rest: Seq<bool>)
    ensures
        spec_read_unary(prefix + unary_bits(x) + rest, prefix.len() as int) == Some(
            (x, (prefix.len() + x + 1) as int),
        ),
{
    let bs = prefix + unary_bits(x) + rest;
    let pos = prefix.len() as int;
    assert forall|j: int| pos <= j < pos + x implies !bs[j] by {
        assert(bs[j] == unary_bits(x)[j - pos]);
    }
    assert(bs[pos + x] == unary_bits(x)[x as int]);
    lemma_first_one_found(bs, pos, x as int);
}

/// Reading a γ code right after writing one returns the written value: the γ
/// round trip, stated on the bits themselves.
pub proof fn lemma_gamma_round_trip(order: BitOrder, prefix: Seq<bool>, x: nat, rest: Seq<bool>)
    requires
        x < pow2(63),
    ensures
        spec_read_gamma(order, prefix + gamma_bits(order, x) + rest, prefix.len() as int) == Some(
            (x, (prefix.len() + gamma_bits(order, x).len()) as int),
        ),
{
    let l = floor_log2(x + 1);
    let low = val_bits(order, (x + 1) as u64, l);
    let bs = prefix + gamma_bits(order, x) + rest;
    let pos = prefix.len() as int;
    lemma_floor_log2(x + 1);
    lemma_pow2_strictly_increases(63, 64);
    vstd::arithmetic::power2::lemma2_to64_rest();
    assert(x + 1 <= pow2(63));
    assert(((x + 1) as u64) as nat == x + 1);
    assert(l <= 63) by {
        lemma_floor_log2_bound(x + 1);
    }
    assert(bs =~= prefix + unary_bits(l) + (low + rest));
    lemma_unary_round_trip(prefix, l, low + rest);
    assert(spec_read_unary(bs, pos) == Some((l, pos + l + 1)));
    let p1 = pos + l + 1;
    assert(bs.subrange(p1, p1 + l) =~= low);
    lemma_val_bits_mod(order, (x + 1) as u64, l);
    assert(stream_val(order, low) == (x + 1) as nat % pow2(l));
    assert((x + 1) as nat % pow2(l) == x + 1 - pow2(l)) by {
        lemma_pow2_unfold(l + 1);
        lemma_pow2_pos(l);
        vstd::arithmetic::div_mod::lemma_mod_multiples_vanish(
            1,
            (x + 1 - pow2(l)) as int,
            pow2(l) as int,
        );
        vstd::arithmetic::div_mod::lemma_small_mod((x + 1 - pow2(l)) as nat, pow2(l));
    }
}

/// Reading a δ code right after writing one returns the written value: the δ
/// round trip, stated on the bits themselves.
pub proof fn lemma_delta_round_trip(order: BitOrder, prefix: Seq<bool>, x: nat, rest: Seq<bool>)
    requires
        x < pow2(63),
    ensures
        spec_read_delta(order, prefix + delta_bits(order, x) + rest, prefix.len() as int) == Some(
            (x, (prefix.len() + delta_bits(order, x).len()) as int),
        ),
{
    let l = floor_log2(x + 1);
    let low = val_bits(order, (x + 1) as u64, l);
    let bs = prefix + delta_bits(order, x) + rest;
    let pos = prefix.len() as int;
    lemma_floor_log2(x + 1);
    lemma_pow2_strictly_increases(63, 64);
    vstd::arithmetic::power2::lemma2_to64_rest();
    assert(x + 1 <= pow2(63));
    assert(((x + 1) as u64) as nat == x + 1);
    assert(l <= 63) by {
        lemma_floor_log2_bound(x + 1);
    }
    assert(l < pow2(63)) by {
        lemma_pow2_strictly_increases(6, 63);
        assert(pow2(6) == 64) by {
            vstd::arithmetic::power2::lemma2_to64();
        }
    }
    assert(bs =~= prefix + gamma_bits(order, l) + (low + rest));
    lemma_gamma_round_trip(order, prefix, l, low + rest);
    let p1 = pos + gamma_bits(order, l).len();
    assert(spec_read_gamma(order, bs, pos) == Some((l, p1)));
    assert(bs.subrange(p1 as int, p1 + l) =~= low);
    lemma_val_bits_mod(order, (x + 1) as u64, l);
    assert((x + 1) as nat % pow2(l) == x + 1 - pow2(l)) by {
        lemma_pow2_unfold(l + 1);
        lemma_pow2_pos(l);
        vstd::arithmetic::div_mod::lemma_mod_multiples_vanish(
            1,
            (x + 1 - pow2(l)) as int,
            pow2(l) as int,
        );
        vstd::arithmetic::div_mod::lemma_small_mod((x + 1 - pow2(l)) as nat, pow2(l));
    }
}

impl BufferedBitStreamWrite {
    /// Append the γ code for `value`, returning how many bits it took.
    pub fn write_gamma(&mut self, value: u64) -> (r: Result<usize, GraphError>)
        requires
            old(self).wf(),
            value < u64::MAX,
            old(self).bits().len() + 129 <= usize::MAX,
        ensures
            final(self).wf(),
            final(self).order() == old(self).order(),
            final(self).bits() == old(self).bits() + gamma_bits(old(self).order(), value as nat),
            r == Ok::<usize, GraphError>(gamma_bits(old(self).order(), value as nat).len() as usize),
    {
        let l = floor_log2_u64(value + 1);
        proof {
            lemma_u64_below_pow2_64((value + 1) as u64);
            lemma_floor_log2_bound((value + 1) as nat);
        }
        let r1 = self.write_unary(l);
        let r2 = self.write_bits(value + 1, l as usize);
        proof {
            assert(old(self).bits() + unary_bits(l as nat) + val_bits(
                old(self).order(),
                (value + 1) as u64,
                l as nat,
            ) =~= old(self).bits() + gamma_bits(old(self).order(), value as nat));
        }
        Ok((l as usize) + (l as usize) + 1)
    }

    /// Append the δ code for `value`, returning how many bits it took.
    pub fn write_delta(&mut self, value: u64) -> (r: Result<usize, GraphError>)
        requires
            old(self).wf(),
            value < u64::MAX,
            old(self).bits().len() + 256 <= usize::MAX,
        ensures
            final(self).wf(),
            final(self).order() == old(self).order(),
            final(self).bits() == old(self).bits() + delta_bits(old(self).order(), value as nat),
            r == Ok::<usize, GraphError>(delta_bits(old(self).order(), value as nat).len() as usize),
    {
        let l = floor_log2_u64(value + 1);
        proof {
            lemma_u64_below_pow2_64((value + 1) as u64);
            lemma_floor_log2_bound((value + 1) as nat);
            let f = floor_log2((l + 1) as nat);
            lemma_floor_log2((l + 1) as nat);
            vstd::arithmetic::power2::lemma2_to64();
            if f >= 7 {
                if f > 7 {
                    lemma_pow2_strictly_increases(7, f);
                }
                assert(false);
            }
            assert(gamma_bits(old(self).order(), l as nat).len() == 2 * f + 1);
        }
        let r1: usize;
        match self.write_gamma(l) {
            Ok(n) => {
                r1 = n;
            },
            Err(e) => {
                proof {
                    assert(false);
                }
                return Err(e);
            },
        }
        let r2 = self.write_bits(value + 1, l as usize);
        proof {
            assert(old(self).bits() + gamma_bits(old(self).order(), l as nat) + val_bits(
                old(self).order(),
                (value + 1) as u64,
                l as nat,
            ) =~= old(self).bits() + delta_bits(old(self).order(), value as nat));
        }
        Ok(r1 + (l as usize))
    }
}

impl BufferedBitStreamRead {
    /// Read a γ code.
    pub fn read_gamma(&mut self) -> (r: Result<u64, GraphError>)
        requires
            old(self).wf(),
        ensures
            final(self).wf(),
            final(self).order() == old(self).order(),
            final(self).bits() == old(self).bits(),
            match spec_read_gamma(old(self).order(), old(self).bits(), old(self).pos()) {
                Some((v, p)) => r == Ok::<u64, GraphError>(v as u64) && final(self).pos() == p && v
                    < pow2(64),
                None => r is Err,
            },
    {
        let l: u64;
        match self.read_unary() {
            Ok(v) => {
                l = v;
            },
            Err(e) => {
                return Err(e);
            },
        }
        if l > 63 {
            return Err(GraphError::MalformedStream);
        }
        let low: u64;
        match self.read_bits(l as usize) {
            Ok(v) => {
                low = v;
            },
            Err(e) => {
                return Err(e);
            },
        }
        proof {
            let ord = old(self).order();
            let bs = old(self).bits();
            let p0 = old(self).pos();
            let p1 = p0 + l + 1;
            lemma_u64_pow2_no_overflow(l as nat);
            lemma_u64_shl_is_mul(1u64, l);
            lemma_pow2_pos(l as nat);
            lemma_pow2_unfold(l as nat + 1);
            vstd::arithmetic::power2::lemma2_to64_rest();
            if (l as nat) + 1 < 64 {
                lemma_pow2_strictly_increases(l as nat + 1, 64);
            }
            if l == 0 {
                assert(bs.subrange(p1, p1) =~= Seq::<bool>::empty());
            } else {
                lemma_stream_val_bound(ord, bs.subrange(p1, p1 + l));
            }
        }
        let base = 1u64 << l;
        Ok(base + low - 1)
    }

    /// Read a δ code.
    pub fn read_delta(&mut self) -> (r: Result<u64, GraphError>)
        requires
            old(self).wf(),
        ensures
            final(self).wf(),
            final(self).order() == old(self).order(),
            final(self).bits() == old(self).bits(),
            match spec_read_delta(old(self).order(), old(self).bits(), old(self).pos()) {
                Some((v, p)) => r == Ok::<u64, GraphError>(v as u64) && final(self).pos() == p && v
                    < pow2(64),
                None => r is Err,
            },
    {
        let l: u64;
        match self.read_gamma() {
            Ok(v) => {
                l = v;
            },
            Err(e) => {
                return Err(e);
            },
        }
        if l > 63 {
            return Err(GraphError::MalformedStream);
        }
        let low: u64;
        match self.read_bits(l as usize) {
            Ok(v) => {
                low = v;
            },
            Err(e) => {
                return Err(e);
            },
        }
        proof {
            let ord = old(self).order();
            let bs = old(self).bits();
            let p1 = self.pos() - l;
            lemma_u64_pow2_no_overflow(l as nat);
            lemma_u64_shl_is_mul(1u64, l);
            lemma_pow2_pos(l as nat);
            lemma_pow2_unfold(l as nat + 1);
            vstd::arithmetic::power2::lemma2_to64_rest();
            if (l as nat) + 1 < 64 {
                lemma_pow2_strictly_increases(l as nat + 1, 64);
            }
            if l == 0 {
                assert(bs.subrange(p1, p1) =~= Seq::<bool>::empty());
            } else {
                lemma_stream_val_bound(ord, bs.subrange(p1, p1 + l));
            }
        }
        let base = 1u64 << l;
        Ok(base + low - 1)
    }
}

/// The bits of the minimal binary code for `v` in `[0, max)`: values below
/// the threshold take `floor_log2(max)` bits, the rest one bit more.
pub open spec fn min_bin_bits(order: BitOrder, v: nat, max: nat) -> Seq<bool> {
    let l = floor_log2(max);
    let limit = (pow2(l + 1) - max) as nat;
    if v < limit {
        val_bits(order, v as u64, l)
    } else {
        val_bits(order, (((v + limit) / 2) as nat) as u64, l) + val_bits(
            order,
            (((v + limit) % 2) as nat) as u64,
            1,
        )
    }
}

/// Decoding a minimal binary code for the range `[0, max)` at `pos`.
pub open spec fn spec_read_min_bin(order: BitOrder, bs: Seq<bool>, pos: int, max: nat) -> Option<
    (nat, int),
> {
    let l = floor_log2(max);
    let limit = (pow2(l + 1) - max) as nat;
    match spec_read_fixed(order, bs, pos, l) {
        None => None,
        Some((n, p1)) => if n < limit {
            Some((n, p1))
        } else {
            match spec_read_fixed(order, bs, p1, 1) {
                None => None,
                Some((b, p2)) => Some(((2 * n + b - limit) as nat, p2)),
            }
        },
    }
}

/// The bits of the ζ_k code for `x`: the bucket index in unary, then the
/// offset inside the bucket in minimal binary.
pub open spec fn zeta_bits(order: BitOrder, k: nat, x: nat) -> Seq<bool> {
    let h = floor_log2(x + 1) / k;
    let lo = pow2(h * k);
    let hi = pow2((h + 1) * k);
    unary_bits(h) + min_bin_bits(order, (x + 1 - lo) as nat, (hi - lo) as nat)
}

/// Decoding a ζ_k code at `pos`. Bucket indices whose range does not fit a
/// 64-bit value are malformed.
pub open spec fn spec_read_zeta(order: BitOrder, bs: Seq<bool>, pos: int, k: nat) -> Option<
    (nat, int),
> {
    match spec_read_unary(bs, pos) {
        None => None,
        Some((h, p1)) => if (h + 1) * k <= 63 {
            let lo = pow2(h * k);
            let hi = pow2((h + 1) * k);
            match spec_read_min_bin(order, bs, p1, (hi - lo) as nat) {
                None => None,
                Some((v, p2)) => Some(((lo + v - 1) as nat, p2)),
            }
        } else {
            None
        },
    }
}

/// The power of two is monotone in its exponent.
proof fn lemma_pow2_le(a: nat, b: nat)
    requires
        a <= b,
    ensures
        pow2(a) <= pow2(b),
{
    if a < b {
        lemma_pow2_strictly_increases(a, b);
    }
}

/// Reading a minimal binary code right after writing one returns the written
/// value: the minimal binary round trip, stated on the bits themselves.
pub proof fn lemma_min_bin_round_trip(
    order: BitOrder,
    prefix: Seq<bool>,
    v: nat,
    max: nat,
    rest: Seq<bool>,
)
    requires
        1 <= max <= pow2(63),
        v < max,
    ensures
        spec_read_min_bin(order, prefix + min_bin_bits(order, v, max) + rest, prefix.len() as int, max)
            == Some((v, (prefix.len() + min_bin_bits(order, v, max).len()) as int)),
{
    let l = floor_log2(max);
    let limit = (pow2(l + 1) - max) as nat;
    let bs = prefix + min_bin_bits(order, v, max) + rest;
    let pos = prefix.len() as int;
    lemma_pow2_strictly_increases(63, 64);
    vstd::arithmetic::power2::lemma2_to64_rest();
    lemma_floor_log2(max);
    lemma_floor_log2_bound(max);
    assert(l <= 63);
    lemma_pow2_unfold(l + 1);
    lemma_pow2_pos(l);
    assert(limit <= pow2(l));
    assert(pow2(l) <= pow2(63)) by {
        lemma_pow2_le(l, 63);
    }
    assert((v as u64) as nat == v);
    if v < limit {
        let vb = val_bits(order, v as u64, l);
        assert(bs.subrange(pos, pos + l) =~= vb);
        lemma_val_bits_mod(order, v as u64, l);
        vstd::arithmetic::div_mod::lemma_small_mod(v, pow2(l));
    } else {
        let w = v + limit;
        assert(w < 2 * pow2(l));
        let w1 = ((w / 2) as nat) as u64;
        let w2 = ((w % 2) as nat) as u64;
        vstd::arithmetic::div_mod::lemma_fundamental_div_mod(w as int, 2);
        assert(w1 as nat == w / 2 && w2 as nat == w % 2);
        let vb1 = val_bits(order, w1, l);
        let vb2 = val_bits(order, w2, 1);
        assert(bs.subrange(pos, pos + l) =~= vb1);
        lemma_val_bits_mod(order, w1, l);
        vstd::arithmetic::div_mod::lemma_small_mod((w / 2) as nat, pow2(l));
        let n = stream_val(order, bs.subrange(pos, pos + l));
        assert(n == w / 2);
        assert(n >= limit);
        let p1 = pos + l;
        assert(bs.subrange(p1, p1 + 1) =~= vb2);
        lemma_val_bits_mod(order, w2, 1);
        lemma_pow2_unfold(1);
        vstd::arithmetic::power2::lemma2_to64();
        vstd::arithmetic::div_mod::lemma_small_mod((w % 2) as nat, pow2(1));
        assert(stream_val(order, bs.subrange(p1, p1 + 1)) == w % 2);
        assert(2 * n + (w % 2) - limit == v);
    }
}

/// Reading a ζ_k code right after writing one returns the written value: the
/// ζ_k round trip, stated on the bits themselves.
pub proof fn lemma_zeta_round_trip(
    order: BitOrder,
    k: nat,
    prefix: Seq<bool>,
    x: nat,
    rest: Seq<bool>,
)
    requires
        k >= 1,
        floor_log2(x + 1) + k <= 63,
    ensures
        spec_read_zeta(order, prefix + zeta_bits(order, k, x) + rest, prefix.len() as int, k)
            == Some((x, (prefix.len() + zeta_bits(order, k, x).len()) as int)),
{
    let f = floor_log2(x + 1);
    let h = f / k;
    let lo = pow2(h * k);
    let hi = pow2((h + 1) * k);
    let bs = prefix + zeta_bits(order, k, x) + rest;
    let pos = prefix.len() as int;
    lemma_floor_log2(x + 1);
    vstd::arithmetic::div_mod::lemma_fundamental_div_mod(f as int, k as int);
    assert(h * k <= f && f < (h + 1) * k && (h + 1) * k <= f + k) by (nonlinear_arith)
        requires
            k >= 1,
            h == f / k,
            f == k * (f / k) + f % k,
            0 <= f % k < k,
    ;
    assert((h + 1) * k <= 63);
    lemma_pow2_le(h * k, f);
    lemma_pow2_le(f + 1, (h + 1) * k);
    assert(lo <= x + 1);
    assert(x + 1 < hi);
    lemma_pow2_le((h + 1) * k, 63);
    let v = (x + 1 - lo) as nat;
    let mx = (hi - lo) as nat;
    assert(v < mx);
    assert(1 <= mx <= pow2(63));
    let mb = min_bin_bits(order, v, mx);
    assert(bs =~= prefix + unary_bits(h) + (mb + rest));
    lemma_unary_round_trip(prefix, h, mb + rest);
    lemma_min_bin_round_trip(order, prefix + unary_bits(h), v, mx, rest);
    assert(prefix + unary_bits(h) + mb + rest =~= bs);
    assert((prefix + unary_bits(h)).len() as int == pos + h + 1);
}

impl BufferedBitStreamWrite {
    /// Append the minimal binary code for `value` in `[0, max)`, returning
    /// how many bits it took.
    pub fn write_minimal_binary(&mut self, value: u64, max: u64) -> (r: Result<usize, GraphError>)
        requires
            old(self).wf(),
            1 <= max,
            (max as nat) < pow2(63),
            value < max,
            old(self).bits().len() + 64 <= usize::MAX,
        ensures
            final(self).wf(),
            final(self).order() == old(self).order(),
            final(self).bits() == old(self).bits() + min_bin_bits(
                old(self).order(),
                value as nat,
                max as nat,
            ),
            r == Ok::<usize, GraphError>(
                min_bin_bits(old(self).order(), value as nat, max as nat).len() as usize,
            ),
    {
        let l = floor_log2_u64(max);
        proof {
            lemma_u64_below_pow2_64(max);
            lemma_floor_log2(max as nat);
            lemma_floor_log2_bound(max as nat);
            if l >= 63 {
                lemma_pow2_le(63, l as nat);
                assert(false);
            }
            lemma_u64_pow2_no_overflow((l + 1) as nat);
            lemma_u64_shl_is_mul(1u64, (l + 1) as u64);
            lemma_pow2_unfold((l + 1) as nat);
        }
        let limit = (1u64 << (l + 1)) - max;
        if value < limit {
            let r1 = self.write_bits(value, l as usize);
            Ok(l as usize)
        } else {
            let w = value + limit;
            let r1 = self.write_bits(w / 2, l as usize);
            let r2 = self.write_bits(w % 2, 1);
            proof {
                assert(old(self).bits() + val_bits(old(self).order(), w / 2, l as nat) + val_bits(
                    old(self).order(),
                    w % 2,
                    1,
                ) =~= old(self).bits() + min_bin_bits(old(self).order(), value as nat, max as nat));
            }
            Ok((l + 1) as usize)
        }
    }

    /// Append the ζ_k code for `value`, returning how many bits it took.
    pub fn write_zeta(&mut self, value: u64, k: u64) -> (r: Result<usize, GraphError>)
        requires
            old(self).wf(),
            k >= 1,
            value < u64::MAX,
            floor_log2((value + 1) as nat) + k <= 63,
            old(self).bits().len() + 129 <= usize::MAX,
        ensures
            final(self).wf(),
            final(self).order() == old(self).order(),
            final(self).bits() == old(self).bits() + zeta_bits(
                old(self).order(),
                k as nat,
                value as nat,
            ),
            r == Ok::<usize, GraphError>(
                zeta_bits(old(self).order(), k as nat, value as nat).len() as usize,
            ),
    {
        let f = floor_log2_u64(value + 1);
        let h = f / k;
        proof {
            vstd::arithmetic::div_mod::lemma_fundamental_div_mod(f as int, k as int);
            assert(h * k <= f && f < (h + 1) * k && (h + 1) * k <= f + k) by (nonlinear_arith)
                requires
                    k >= 1,
                    h == f / k,
                    f == k * (f / k) + f % k,
                    0 <= f % k < k,
            ;
            lemma_u64_pow2_no_overflow((h * k) as nat);
            lemma_u64_pow2_no_overflow(((h + 1) * k) as nat);
            lemma_u64_shl_is_mul(1u64, (h * k) as u64);
            lemma_u64_shl_is_mul(1u64, ((h + 1) * k) as u64);
            lemma_floor_log2((value + 1) as nat);
            lemma_pow2_le((h * k) as nat, f as nat);
            lemma_pow2_le((f + 1) as nat, ((h + 1) * k) as nat);
            lemma_pow2_le(((h + 1) * k) as nat, 63);
            lemma_pow2_strictly_increases(63, 64);
            vstd::arithmetic::power2::lemma2_to64_rest();
            lemma_pow2_pos((h * k) as nat);
            if (h + 1) * k == 63 {
                assert(pow2(63) == 0x8000000000000000);
            } else {
                lemma_pow2_strictly_increases(((h + 1) * k) as nat, 63);
            }
        }
        let lo = 1u64 << (h * k);
        let hi = 1u64 << ((h + 1) * k);
        let r1 = self.write_unary(h);
        let r2: usize;
        match self.write_minimal_binary(value + 1 - lo, hi - lo) {
            Ok(n) => {
                r2 = n;
            },
            Err(e) => {
                proof {
                    assert(false);
                }
                return Err(e);
            },
        }
        proof {
            assert(old(self).bits() + unary_bits(h as nat) + min_bin_bits(
                old(self).order(),
                (value + 1 - lo) as nat,
                (hi - lo) as nat,
            ) =~= old(self).bits() + zeta_bits(old(self).order(), k as nat, value as nat));
        }
        proof {
            let mx = (hi - lo) as nat;
            let mbl = floor_log2(mx);
            lemma_u64_below_pow2_64((hi - lo) as u64);
            lemma_floor_log2_bound(mx);
            assert(min_bin_bits(old(self).order(), (value + 1 - lo) as nat, mx).len() <= mbl + 1);
        }
        match r1 {
            Ok(n1) => Ok(n1 + r2),
            Err(_) => {
                proof {
                    assert(false);
                }
                Err(GraphError::BadArgument)
            },
        }
    }

    /// Append the ζ_3 code for `value`: the default residual code.
    pub fn write_zeta3(&mut self, value: u64) -> (r: Result<usize, GraphError>)
        requires
            old(self).wf(),
            value < u64::MAX,
            floor_log2((value + 1) as nat) <= 60,
            old(self).bits().len() + 129 <= usize::MAX,
        ensures
            final(self).wf(),
            final(self).order() == old(self).order(),
            final(self).bits() == old(self).bits() + zeta_bits(
                old(self).order(),
                3,
                value as nat,
            ),
            r == Ok::<usize, GraphError>(
                zeta_bits(old(self).order(), 3, value as nat).len() as usize,
            ),
    {
        self.write_zeta(value, 3)
    }
}

impl BufferedBitStreamRead {
    /// Read a minimal binary code for the range `[0, max)`.
    pub fn read_minimal_binary(&mut self, max: u64) -> (r: Result<u64, GraphError>)
        requires
            old(self).wf(),
            1 <= max,
            (max as nat) < pow2(63),
        ensures
            final(self).wf(),
            final(self).order() == old(self).order(),
            final(self).bits() == old(self).bits(),
            match spec_read_min_bin(old(self).order(), old(self).bits(), old(self).pos(), max as nat) {
                Some((v, p)) => r == Ok::<u64, GraphError>(v as u64) && final(self).pos() == p && v
                    < max,
                None => r is Err,
            },
    {
        let l = floor_log2_u64(max);
        proof {
            lemma_u64_below_pow2_64(max);
            lemma_floor_log2(max as nat);
            lemma_floor_log2_bound(max as nat);
            if l >= 63 {
                lemma_pow2_le(63, l as nat);
                assert(false);
            }
            lemma_u64_pow2_no_overflow((l + 1) as nat);
            lemma_u64_shl_is_mul(1u64, (l + 1) as u64);
            lemma_pow2_unfold((l + 1) as nat);
            lemma_pow2_pos(l as nat);
        }
        let limit = (1u64 << (l + 1)) - max;
        let n: u64;
        match self.read_bits(l as usize) {
            Ok(v) => {
                n = v;
            },
            Err(e) => {
                return Err(e);
            },
        }
        proof {
            old(self).lemma_pos_in_bounds();
            if l == 0 {
                assert(old(self).bits().subrange(old(self).pos(), old(self).pos())
                    =~= Seq::<bool>::empty());
            } else {
                lemma_stream_val_bound(
                    old(self).order(),
                    old(self).bits().subrange(old(self).pos(), old(self).pos() + l),
                );
            }
            lemma_pow2_le(l as nat, 62);
            vstd::arithmetic::power2::lemma2_to64_rest();
        }
        if n < limit {
            return Ok(n);
        }
        let b: u64;
        match self.read_bits(1) {
            Ok(v) => {
                b = v;
            },
            Err(e) => {
                return Err(e);
            },
        }
        proof {
            lemma_stream_val_bound(
                old(self).order(),
                old(self).bits().subrange(old(self).pos() + l, old(self).pos() + l + 1),
            );
            lemma_pow2_unfold(1);
            vstd::arithmetic::power2::lemma2_to64();
        }
        Ok(2 * n + b - limit)
    }

    /// Read a ζ_k code.
    pub fn read_zeta(&mut self, k: u64) -> (r: Result<u64, GraphError>)
        requires
            old(self).wf(),
            1 <= k <= 63,
        ensures
            final(self).wf(),
            final(self).order() == old(self).order(),
            final(self).bits() == old(self).bits(),
            match spec_read_zeta(old(self).order(), old(self).bits(), old(self).pos(), k as nat) {
                Some((v, p)) => r == Ok::<u64, GraphError>(v as u64) && final(self).pos() == p && v
                    < pow2(63),
                None => r is Err,
            },
    {
        let h: u64;
        match self.read_unary() {
            Ok(v) => {
                h = v;
            },
            Err(e) => {
                return Err(e);
            },
        }
        if h >= 64 {
            proof {
                assert((h + 1) * k >= h + 1) by (nonlinear_arith)
                    requires
                        k >= 1,
                        h >= 0,
                ;
            }
            return Err(GraphError::MalformedStream);
        }
        proof {
            assert((h + 1) * k <= 64 * 63) by (nonlinear_arith)
                requires
                    h <= 63,
                    1 <= k <= 63,
            ;
        }
        if (h + 1) * k > 63 {
            return Err(GraphError::MalformedStream);
        }
        proof {
            assert(h * k + k == (h + 1) * k) by (nonlinear_arith);
            assert(h * k <= 62);
            lemma_u64_pow2_no_overflow((h * k) as nat);
            lemma_u64_pow2_no_overflow(((h + 1) * k) as nat);
            lemma_u64_shl_is_mul(1u64, (h * k) as u64);
            lemma_u64_shl_is_mul(1u64, ((h + 1) * k) as u64);
            lemma_pow2_strictly_increases((h * k) as nat, ((h + 1) * k) as nat);
            lemma_pow2_pos((h * k) as nat);
            lemma_pow2_le(((h + 1) * k) as nat, 63);
            vstd::arithmetic::power2::lemma2_to64_rest();
            if (h + 1) * k < 63 {
                lemma_pow2_strictly_increases(((h + 1) * k) as nat, 63);
            }
        }
        let lo = 1u64 << (h * k);
        let hi = 1u64 << ((h + 1) * k);
        let v: u64;
        match self.read_minimal_binary(hi - lo) {
            Ok(x) => {
                v = x;
            },
            Err(e) => {
                return Err(e);
            },
        }
        proof {
            match spec_read_min_bin(
                old(self).order(),
                old(self).bits(),
                old(self).pos() + h + 1,
                (hi - lo) as nat,
            ) {
                Some((sv, sp)) => {
                    assert(v as nat == sv);
                },
                None => {
                    assert(false);
                },
            }
            match spec_read_zeta(old(self).order(), old(self).bits(), old(self).pos(), k as nat) {
                Some((vz, p)) => {
                    assert(self.pos() == p);
                    assert(vz == (lo + v - 1) as nat);
                    assert(vz < pow2(63));
                },
                None => {
                    assert(false);
                },
            }
        }
        Ok(lo + v - 1)
    }

    /// Read a ζ_3 code: the default residual code.
    pub fn read_zeta3(&mut self) -> (r: Result<u64, GraphError>)
        requires
            old(self).wf(),
        ensures
            final(self).wf(),
            final(self).order() == old(self).order(),
            final(self).bits() == old(self).bits(),
            match spec_read_zeta(old(self).order(), old(self).bits(), old(self).pos(), 3) {
                Some((v, p)) => r == Ok::<u64, GraphError>(v as u64) && final(self).pos() == p && v
                    < pow2(63),
                None => r is Err,
            },
    {
        self.read_zeta(3)
    }
}

/// The number of bits of the unary code for `value`.
pub fn len_unary(value: u64) -> (r: usize)
    requires
        value < usize::MAX,
    ensures
        r == unary_bits(value as nat).len(),
{
    (value as usize) + 1
}

/// The number of bits of the γ code for `value`, the same under either bit
/// order.
pub fn len_gamma(value: u64) -> (r: usize)
    requires
        value < u64::MAX,
    ensures
        forall|ord: BitOrder| #[trigger] gamma_bits(ord, value as nat).len() == r,
{
    let l = floor_log2_u64(value + 1);
    proof {
        lemma_u64_below_pow2_64((value + 1) as u64);
        lemma_floor_log2_bound((value + 1) as nat);
    }
    2 * (l as usize) + 1
}

/// The number of bits of the δ code for `value`, the same under either bit
/// order.
pub fn len_delta(value: u64) -> (r: usize)
    requires
        value < u64::MAX,
    ensures
        forall|ord: BitOrder| #[trigger] delta_bits(ord, value as nat).len() == r,
{
    let l = floor_log2_u64(value + 1);
    proof {
        lemma_u64_below_pow2_64((value + 1) as u64);
        lemma_floor_log2_bound((value + 1) as nat);
    }
    proof {
        lemma_u64_below_pow2_64((l + 1) as u64);
        lemma_floor_log2_bound((l + 1) as nat);
    }
    let lg = len_gamma(l);
    proof {
        assert(gamma_bits(BitOrder::M2L, l as nat).len() == 2 * floor_log2((l + 1) as nat) + 1);
    }
    lg + (l as usize)
}

/// The number of bits of the ζ_k code for `value`, the same under either bit
/// order.
pub fn len_zeta(value: u64, k: u64) -> (r: usize)
    requires
        k >= 1,
        value < u64::MAX,
        floor_log2((value + 1) as nat) + k <= 63,
    ensures
        forall|ord: BitOrder| #[trigger] zeta_bits(ord, k as nat, value as nat).len() == r,
{
    let f = floor_log2_u64(value + 1);
    let h = f / k;
    proof {
        vstd::arithmetic::div_mod::lemma_fundamental_div_mod(f as int, k as int);
        assert(h * k <= f && f < (h + 1) * k && (h + 1) * k <= f + k) by (nonlinear_arith)
            requires
                k >= 1,
                h == f / k,
                f == k * (f / k) + f % k,
                0 <= f % k < k,
        ;
        lemma_u64_pow2_no_overflow((h * k) as nat);
        lemma_u64_pow2_no_overflow(((h + 1) * k) as nat);
        lemma_u64_shl_is_mul(1u64, (h * k) as u64);
        lemma_u64_shl_is_mul(1u64, ((h + 1) * k) as u64);
        lemma_floor_log2((value + 1) as nat);
        lemma_pow2_le((h * k) as nat, f as nat);
        lemma_pow2_le((f + 1) as nat, ((h + 1) * k) as nat);
        lemma_pow2_pos((h * k) as nat);
        lemma_pow2_strictly_increases((h * k) as nat, ((h + 1) * k) as nat);
        lemma_pow2_le(((h + 1) * k) as nat, 63);
        vstd::arithmetic::power2::lemma2_to64_rest();
    }
    let lo = 1u64 << (h * k);
    let hi = 1u64 << ((h + 1) * k);
    let lm = len_minimal_binary(value + 1 - lo, hi - lo);
    proof {
        let mbl = floor_log2((hi - lo) as nat);
        lemma_u64_below_pow2_64((hi - lo) as u64);
        lemma_floor_log2_bound((hi - lo) as nat);
        assert(min_bin_bits(BitOrder::M2L, (value + 1 - lo) as nat, (hi - lo) as nat).len()
            <= mbl + 1);
    }
    (h as usize) + 1 + lm
}

/// The number of bits of the minimal binary code for `value` in `[0, max)`,
/// the same under either bit order.
pub fn len_minimal_binary(value: u64, max: u64) -> (r: usize)
    requires
        1 <= max,
        (max as nat) < pow2(63),
        value < max,
    ensures
        forall|ord: BitOrder| #[trigger] min_bin_bits(ord, value as nat, max as nat).len() == r,
{
    let l = floor_log2_u64(max);
    proof {
        lemma_u64_below_pow2_64(max);
        lemma_floor_log2(max as nat);
        lemma_floor_log2_bound(max as nat);
        if l >= 63 {
            lemma_pow2_le(63, l as nat);
            assert(false);
        }
        lemma_u64_pow2_no_overflow((l + 1) as nat);
        lemma_u64_shl_is_mul(1u64, (l + 1) as u64);
        lemma_pow2_unfold((l + 1) as nat);
    }
    let limit = (1u64 << (l + 1)) - max;
    if value < limit {
        l as usize
    } else {
        (l as usize) + 1
    }
}

/// The floor of the base-2 logarithm, computed by halving.


pub fn floor_log2_u64(y: u64) -> (r: u64)
    requires
        y >= 1,
    ensures
        r == floor_log2(y as nat),
        r <= 63,
{
    let mut t: u64 = y;
    let mut l: u64 = 0;
    proof {
        lemma_u64_below_pow2_64(y);
        lemma_floor_log2_bound(y as nat);
    }
    while t > 1
        invariant
            t >= 1,
            floor_log2(y as nat) == l + floor_log2(t as nat),
            l <= floor_log2(y as nat),
            floor_log2(y as nat) <= 63,
        decreases t,
    {
        t = t / 2;
        l = l + 1;
    }
    l
}

} // verus!
