//! An external-memory pair sorter: ingests `(src, dst, payload)` triples,
//! sorts them in batches of a fixed size, encodes each batch as a bit stream
//! of γ-coded gaps, and merges the batches back into one stream ordered by
//! `(src, dst)`.

use vstd::prelude::*;

verus! {

use crate::bit_reader::BufferedBitStreamRead;
use crate::bit_writer::BufferedBitStreamWrite;
use crate::bits::BitOrder;
use crate::bits::words32_bits;
use crate::codes::delta_bits;
use crate::codes::gamma_bits;
use crate::codes::lemma_delta_round_trip;
use crate::codes::lemma_gamma_round_trip;
use crate::codes::spec_read_delta;
use crate::codes::spec_read_gamma;
use crate::utils::GraphError;
use vstd::arithmetic::power2::pow2;
use vstd::multiset::Multiset;

/// Lexicographic order on `(src, dst)` keys.
pub open spec fn pair_le(a: (usize, usize), b: (usize, usize)) -> bool {
    a.0 < b.0 || (a.0 == b.0 && a.1 <= b.1)
}

/// The triples are non-decreasing by their `(src, dst)` key.
pub open spec fn sorted_triples<T>(s: Seq<(usize, usize, T)>) -> bool {
    forall|i: int, j: int|
        #![trigger s[i], s[j]]
        0 <= i < j < s.len() ==> pair_le((s[i].0, s[i].1), (s[j].0, s[j].1))
}

/// Node ids this sorter accepts: small enough that every γ-coded gap has an
/// exact round trip.
pub open spec fn node_bound() -> nat {
    pow2(62)
}

/// The triples continue a gap chain that last saw the key `(ps, pd)`: keys
/// are non-decreasing, in range, and every payload is serialisable.
pub open spec fn chain_ok<T: SortPairsPayload + Copy>(
    s: Seq<(usize, usize, T)>,
    ps: usize,
    pd: usize,
) -> bool
    decreases s.len(),
{
    s.len() == 0 || {
        &&& s[0].0 >= ps
        &&& (s[0].0 != ps || s[0].1 >= pd)
        &&& (s[0].0 as nat) < node_bound()
        &&& (s[0].1 as nat) < node_bound()
        &&& s[0].2.inv()
        &&& chain_ok(s.drop_first(), s[0].0, s[0].1)
    }
}

/// A payload that rides along with a pair of nodes through the sorter: it
/// serialises itself onto a bit stream and reads itself back.
pub trait SortPairsPayload: Sized {
    /// Payloads this type can serialise.
    spec fn inv(self) -> bool;

    /// The bits this payload serialises to under the given bit order.
    spec fn payload_bits(self, order: BitOrder) -> Seq<bool>;

    /// Decoding one payload at `pos`.
    spec fn spec_read_payload(order: BitOrder, bs: Seq<bool>, pos: int) -> Option<(Self, int)>;

    /// A serialised payload is bounded in size.
    proof fn lemma_payload_len(self, order: BitOrder)
        requires
            self.inv(),
        ensures
            self.payload_bits(order).len() <= 512,
    ;

    /// Reading a payload right after writing one returns the payload: the
    /// payload round trip, stated on the bits themselves.
    proof fn lemma_payload_round_trip(self, order: BitOrder, prefix: Seq<bool>, rest: Seq<bool>)
        requires
            self.inv(),
        ensures
            Self::spec_read_payload(
                order,
                prefix + self.payload_bits(order) + rest,
                prefix.len() as int,
            ) == Some((self, (prefix.len() + self.payload_bits(order).len()) as int)),
    ;

    /// Write this payload to the bit stream and return the number of bits
    /// written.
    fn to_bitstream(&self, b: &mut BufferedBitStreamWrite) -> (r: Result<usize, GraphError>)
        requires
            old(b).wf(),
            self.inv(),
            old(b).bits().len() + 512 <= usize::MAX,
        ensures
            final(b).wf(),
            final(b).order() == old(b).order(),
            final(b).bits() == old(b).bits() + self.payload_bits(old(b).order()),
            r == Ok::<usize, GraphError>(self.payload_bits(old(b).order()).len() as usize),
    ;

    /// Read one payload from the bit stream.
    fn from_bitstream(b: &mut BufferedBitStreamRead) -> (r: Result<Self, GraphError>)
        requires
            old(b).wf(),
        ensures
            final(b).wf(),
            final(b).order() == old(b).order(),
            final(b).bits() == old(b).bits(),
            match Self::spec_read_payload(old(b).order(), old(b).bits(), old(b).pos()) {
                Some((p, q)) => r == Ok::<Self, GraphError>(p) && final(b).pos() == q,
                None => r is Err,
            },
    ;
}

impl SortPairsPayload for () {
    /// The unit payload is always serialisable.
    open spec fn inv(self) -> bool {
        true
    }

    /// The unit payload takes no bits at all.
    open spec fn payload_bits(self, order: BitOrder) -> Seq<bool> {
        Seq::empty()
    }

    /// Reading a unit payload consumes nothing.
    open spec fn spec_read_payload(order: BitOrder, bs: Seq<bool>, pos: int) -> Option<((), int)> {
        Some(((), pos))
    }

    proof fn lemma_payload_len(self, order: BitOrder) {
    }

    proof fn lemma_payload_round_trip(self, order: BitOrder, prefix: Seq<bool>, rest: Seq<bool>) {
    }

    fn to_bitstream(&self, b: &mut BufferedBitStreamWrite) -> (r: Result<usize, GraphError>) {
        proof {
            assert(old(b).bits() + Seq::<bool>::empty() =~= old(b).bits());
        }
        Ok(0)
    }

    fn from_bitstream(b: &mut BufferedBitStreamRead) -> (r: Result<Self, GraphError>) {
        Ok(())
    }
}

/// A 64-bit payload serialised as one δ code.
#[derive(Clone, Copy, PartialEq, Eq, Structural, Debug)]
pub struct DeltaPayload(pub u64);

impl SortPairsPayload for DeltaPayload {
    /// The value must be small enough for an exact δ round trip.
    open spec fn inv(self) -> bool {
        (self.0 as nat) < pow2(63)
    }

    /// One δ code carries the value.
    open spec fn payload_bits(self, order: BitOrder) -> Seq<bool> {
        delta_bits(order, self.0 as nat)
    }

    /// Reading a δ code yields the value.
    open spec fn spec_read_payload(order: BitOrder, bs: Seq<bool>, pos: int) -> Option<
        (DeltaPayload, int),
    > {
        match spec_read_delta(order, bs, pos) {
            Some((v, p)) => Some((DeltaPayload(v as u64), p)),
            None => None,
        }
    }

    proof fn lemma_payload_len(self, order: BitOrder) {
        vstd::arithmetic::power2::lemma2_to64_rest();
        vstd::arithmetic::power2::lemma_pow2_strictly_increases(63, 64);
        crate::codes::lemma_floor_log2_bound((self.0 + 1) as nat);
        let l = crate::codes::floor_log2((self.0 + 1) as nat);
        crate::codes::lemma_floor_log2_bound((l + 1) as nat);
    }

    proof fn lemma_payload_round_trip(self, order: BitOrder, prefix: Seq<bool>, rest: Seq<bool>) {
        lemma_delta_round_trip(order, prefix, self.0 as nat, rest);
        vstd::arithmetic::power2::lemma2_to64_rest();
        vstd::arithmetic::power2::lemma_pow2_strictly_increases(63, 64);
    }

    fn to_bitstream(&self, b: &mut BufferedBitStreamWrite) -> (r: Result<usize, GraphError>) {
        proof {
            vstd::arithmetic::power2::lemma2_to64_rest();
            vstd::arithmetic::power2::lemma_pow2_strictly_increases(63, 64);
        }
        b.write_delta(self.0)
    }

    fn from_bitstream(b: &mut BufferedBitStreamRead) -> (r: Result<Self, GraphError>) {
        match b.read_delta() {
            Ok(v) => Ok(DeltaPayload(v)),
            Err(e) => Err(e),
        }
    }
}

/// The key `(ps, pd)` that a gap chain holds after the triples of `s` have
/// passed through it.
pub open spec fn prevs_after<T>(
    s: Seq<(usize, usize, T)>,
    ps: usize,
    pd: usize,
) -> (usize, usize) {
    if s.len() == 0 {
        (ps, pd)
    } else {
        (s.last().0, s.last().1)
    }
}

/// The bits of one triple in a batch: the γ-coded src gap (a positive gap
/// resets the dst chain), the γ-coded dst gap, then the payload.
pub open spec fn triple_bits<T: SortPairsPayload + Copy>(
    order: BitOrder,
    t: (usize, usize, T),
    ps: usize,
    pd: usize,
) -> Seq<bool> {
    let pd2: usize = if t.0 == ps {
        pd
    } else {
        0
    };
    gamma_bits(order, (t.0 - ps) as nat) + gamma_bits(order, (t.1 - pd2) as nat)
        + t.2.payload_bits(order)
}

/// The bits of a whole batch: each triple's bits in turn, chaining the gaps.
pub open spec fn batch_bits<T: SortPairsPayload + Copy>(
    order: BitOrder,
    s: Seq<(usize, usize, T)>,
    ps: usize,
    pd: usize,
) -> Seq<bool>
    decreases s.len(),
{
    if s.len() == 0 {
        Seq::empty()
    } else {
        triple_bits(order, s[0], ps, pd) + batch_bits(order, s.drop_first(), s[0].0, s[0].1)
    }
}

/// Decoding one triple at `pos`, given the chain key `(ps, pd)`.
pub open spec fn spec_read_triple<T: SortPairsPayload + Copy>(
    order: BitOrder,
    bs: Seq<bool>,
    pos: int,
    ps: usize,
    pd: usize,
) -> Option<((usize, usize, T), int)> {
    match spec_read_gamma(order, bs, pos) {
        None => None,
        Some((sg, p1)) => {
            let src = ps + sg;
            let pd2: nat = if sg > 0 {
                0
            } else {
                pd as nat
            };
            match spec_read_gamma(order, bs, p1) {
                None => None,
                Some((dg, p2)) => {
                    let dst = pd2 + dg;
                    if src <= usize::MAX && dst <= usize::MAX {
                        match T::spec_read_payload(order, bs, p2) {
                            None => None,
                            Some((t, p3)) => Some(((src as usize, dst as usize, t), p3)),
                        }
                    } else {
                        None
                    }
                },
            }
        },
    }
}

/// Decoding `count` chained triples at `pos`.
pub open spec fn spec_read_batch<T: SortPairsPayload + Copy>(
    order: BitOrder,
    bs: Seq<bool>,
    pos: int,
    count: nat,
    ps: usize,
    pd: usize,
) -> Option<(Seq<(usize, usize, T)>, int)>
    decreases count,
{
    if count == 0 {
        Some((Seq::empty(), pos))
    } else {
        match spec_read_triple::<T>(order, bs, pos, ps, pd) {
            None => None,
            Some((t, p1)) => match spec_read_batch::<T>(
                order,
                bs,
                p1,
                (count - 1) as nat,
                t.0,
                t.1,
            ) {
                None => None,
                Some((rest, pe)) => Some((seq![t] + rest, pe)),
            },
        }
    }
}

/// Appending one chain-consistent triple to a batch appends its bits.
pub proof fn lemma_batch_bits_snoc<T: SortPairsPayload + Copy>(
    order: BitOrder,
    s: Seq<(usize, usize, T)>,
    t: (usize, usize, T),
    ps: usize,
    pd: usize,
)
    ensures
        batch_bits(order, s + seq![t], ps, pd) == batch_bits(order, s, ps, pd) + triple_bits(
            order,
            t,
            prevs_after(s, ps, pd).0,
            prevs_after(s, ps, pd).1,
        ),
    decreases s.len(),
{
    if s.len() == 0 {
        assert((s + seq![t])[0] == t);
        let e = (s + seq![t]).drop_first();
        assert(e =~= Seq::<(usize, usize, T)>::empty());
        assert(batch_bits(order, e, t.0, t.1) =~= Seq::<bool>::empty());
        assert(batch_bits(order, s + seq![t], ps, pd) =~= triple_bits(order, t, ps, pd));
        assert(batch_bits(order, s, ps, pd) + triple_bits(order, t, ps, pd) =~= triple_bits(
            order,
            t,
            ps,
            pd,
        ));
    } else {
        assert((s + seq![t])[0] == s[0]);
        assert((s + seq![t]).drop_first() =~= s.drop_first() + seq![t]);
        lemma_batch_bits_snoc(order, s.drop_first(), t, s[0].0, s[0].1);
        assert(prevs_after(s.drop_first(), s[0].0, s[0].1) == prevs_after(s, ps, pd));
        assert(batch_bits(order, s + seq![t], ps, pd) =~= batch_bits(order, s, ps, pd)
            + triple_bits(order, t, prevs_after(s, ps, pd).0, prevs_after(s, ps, pd).1));
    }
}

/// Reassociating a two-segment run between a prefix and a suffix.
pub proof fn lemma_seq_assoc2(p: Seq<bool>, x: Seq<bool>, y: Seq<bool>, r: Seq<bool>)
    ensures
        p + (x + y) + r == p + x + (y + r),
        p + (x + y) + r == (p + x) + y + r,
{
    assert(p + (x + y) + r =~= p + x + (y + r));
    assert(p + (x + y) + r =~= (p + x) + y + r);
}

/// Reassociating a three-segment run between a prefix and a suffix.
pub proof fn lemma_seq_assoc3(p: Seq<bool>, a: Seq<bool>, b: Seq<bool>, c: Seq<bool>, r: Seq<bool>)
    ensures
        p + (a + b + c) + r == p + a + (b + c + r),
        p + (a + b + c) + r == (p + a) + b + (c + r),
        p + (a + b + c) + r == (p + a + b) + c + r,
{
    assert(p + (a + b + c) + r =~= p + a + (b + c + r));
    assert(p + (a + b + c) + r =~= (p + a) + b + (c + r));
    assert(p + (a + b + c) + r =~= (p + a + b) + c + r);
}

/// Reading one triple right after writing one returns the written triple:
/// the triple round trip, stated on the bits themselves.
#[verifier::rlimit(100)]
pub proof fn lemma_triple_round_trip<T: SortPairsPayload + Copy>(
    order: BitOrder,
    prefix: Seq<bool>,
    t: (usize, usize, T),
    ps: usize,
    pd: usize,
    rest: Seq<bool>,
)
    requires
        t.0 >= ps,
        t.0 != ps || t.1 >= pd,
        (t.0 as nat) < node_bound(),
        (t.1 as nat) < node_bound(),
        t.2.inv(),
        (ps as nat) < node_bound(),
        (pd as nat) < node_bound(),
    ensures
        spec_read_triple::<T>(
            order,
            prefix + triple_bits(order, t, ps, pd) + rest,
            prefix.len() as int,
            ps,
            pd,
        ) == Some((t, (prefix.len() + triple_bits(order, t, ps, pd).len()) as int)),
{
    vstd::arithmetic::power2::lemma_pow2_strictly_increases(62, 63);
    let pd2: usize = if t.0 == ps {
        pd
    } else {
        0
    };
    let sg = (t.0 - ps) as nat;
    let dg = (t.1 - pd2) as nat;
    let g1 = gamma_bits(order, sg);
    let g2 = gamma_bits(order, dg);
    let pb = t.2.payload_bits(order);
    let bs = prefix + triple_bits(order, t, ps, pd) + rest;
    lemma_seq_assoc3(prefix, g1, g2, pb, rest);
    assert(triple_bits(order, t, ps, pd) == g1 + g2 + pb);
    lemma_gamma_round_trip(order, prefix, sg, g2 + pb + rest);
    lemma_gamma_round_trip(order, prefix + g1, dg, pb + rest);
    t.2.lemma_payload_round_trip(order, prefix + g1 + g2, rest);
    let p0 = prefix.len() as int;
    assert(spec_read_gamma(order, bs, p0) == Some((sg, p0 + g1.len() as int)));
    let p1 = p0 + g1.len() as int;
    assert(spec_read_gamma(order, bs, p1) == Some((dg, p1 + g2.len() as int)));
    let p2 = p1 + g2.len() as int;
    assert(T::spec_read_payload(order, bs, p2) == Some((t.2, p2 + pb.len() as int)));
}

/// Reading a batch right after writing one returns the written triples: the
/// batch round trip, stated on the bits themselves.
#[verifier::rlimit(100)]
pub proof fn lemma_batch_round_trip<T: SortPairsPayload + Copy>(
    order: BitOrder,
    prefix: Seq<bool>,
    s: Seq<(usize, usize, T)>,
    ps: usize,
    pd: usize,
    rest: Seq<bool>,
)
    requires
        chain_ok(s, ps, pd),
        (ps as nat) < node_bound(),
        (pd as nat) < node_bound(),
    ensures
        spec_read_batch::<T>(
            order,
            prefix + batch_bits(order, s, ps, pd) + rest,
            prefix.len() as int,
            s.len(),
            ps,
            pd,
        ) == Some((s, (prefix.len() + batch_bits(order, s, ps, pd).len()) as int)),
    decreases s.len(),
{
    if s.len() == 0 {
        assert(prefix + batch_bits(order, s, ps, pd) + rest =~= prefix + rest);
    } else {
        let t = s[0];
        let tb = triple_bits(order, t, ps, pd);
        let tail = batch_bits(order, s.drop_first(), t.0, t.1);
        let bs = prefix + batch_bits(order, s, ps, pd) + rest;
        lemma_seq_assoc2(prefix, tb, tail, rest);
        assert(batch_bits(order, s, ps, pd) == tb + tail);
        lemma_triple_round_trip(order, prefix, t, ps, pd, tail + rest);
        lemma_batch_round_trip(order, prefix + tb, s.drop_first(), t.0, t.1, rest);
        let p0 = prefix.len() as int;
        let p3 = p0 + tb.len() as int;
        assert(spec_read_triple::<T>(order, bs, p0, ps, pd) == Some((t, p3)));
        assert(spec_read_batch::<T>(order, bs, p3, (s.len() - 1) as nat, t.0, t.1) == Some(
            (s.drop_first(), p3 + tail.len()),
        ));
        assert(seq![t] + s.drop_first() =~= s);
    }
}

/// Relies on rayon's `par_sort_unstable_by_key` over the `(src, dst)` key:
/// it reorders the batch into non-decreasing key order and keeps exactly the
/// same items.
#[verifier::external_body]
fn par_sort_triples<T: SortPairsPayload + Copy + Send>(v: &mut Vec<(usize, usize, T)>)
    ensures
        final(v)@.to_multiset() == old(v)@.to_multiset(),
        sorted_triples(final(v)@),
{
    rayon::slice::ParallelSliceMut::par_sort_unstable_by_key(
        v.as_mut_slice(),
        |t: &(usize, usize, T)| (t.0, t.1),
    );
}

/// Copy a word backend.
pub fn copy_words(v: &Vec<u32>) -> (r: Vec<u32>)
    ensures
        r@ == v@,
{
    let mut r: Vec<u32> = Vec::new();
    let mut i: usize = 0;
    while i < v.len()
        invariant
            i <= v.len(),
            r@ == v@.subrange(0, i as int),
        decreases v.len() - i,
    {
        r.push(v[i]);
        proof {
            assert(v@.subrange(0, i as int) + seq![v@[i as int]] =~= v@.subrange(0, i + 1));
        }
        i = i + 1;
    }
    proof {
        assert(v@.subrange(0, v@.len() as int) =~= v@);
    }
    r
}

/// A sorted triple chain starting at or after the key `(0, 0)` with bounded
/// members is a valid gap chain.
proof fn lemma_sorted_chain<T: SortPairsPayload + Copy>(s: Seq<(usize, usize, T)>, ps: usize, pd: usize)
    requires
        sorted_triples(s),
        forall|i: int|
            0 <= i < s.len() ==> ((#[trigger] s[i].0 as nat) < node_bound() && (s[i].1 as nat)
                < node_bound() && s[i].2.inv()),
        s.len() > 0 ==> (s[0].0 > ps || (s[0].0 == ps && s[0].1 >= pd)),
    ensures
        chain_ok(s, ps, pd),
    decreases s.len(),
{
    if s.len() > 0 {
        let s1 = s.drop_first();
        assert(forall|i: int|
            0 <= i < s1.len() ==> ((#[trigger] s1[i].0 as nat) < node_bound() && (s1[i].1 as nat)
                < node_bound() && s1[i].2.inv()));
        assert(s1.len() > 0 ==> pair_le((s[0].0, s[0].1), (s1[0].0, s1[0].1)));
        lemma_sorted_chain(s1, s[0].0, s[0].1);
    }
}

/// A valid chain has bounded keys and serialisable payloads throughout.
proof fn lemma_chain_bounds<T: SortPairsPayload + Copy>(
    s: Seq<(usize, usize, T)>,
    ps: usize,
    pd: usize,
)
    requires
        chain_ok(s, ps, pd),
    ensures
        forall|i: int|
            0 <= i < s.len() ==> ((#[trigger] s[i].0 as nat) < node_bound() && (s[i].1 as nat)
                < node_bound() && s[i].2.inv()),
    decreases s.len(),
{
    if s.len() > 0 {
        lemma_chain_bounds(s.drop_first(), s[0].0, s[0].1);
        assert forall|i: int|
            0 <= i < s.len() implies ((#[trigger] s[i].0 as nat) < node_bound() && (s[i].1 as nat)
            < node_bound() && s[i].2.inv()) by {
            if i > 0 {
                assert(s.drop_first()[i - 1] == s[i]);
            }
        }
    }
}

/// The γ code of a bounded value takes at most 127 bits, under either order.
proof fn lemma_gamma_len_bound(order: BitOrder, x: nat)
    requires
        x < pow2(63),
    ensures
        gamma_bits(order, x).len() <= 127,
{
    vstd::arithmetic::power2::lemma2_to64_rest();
    vstd::arithmetic::power2::lemma_pow2_strictly_increases(63, 64);
    crate::codes::lemma_floor_log2_bound(x + 1);
}

/// One encoded batch, with the triples it holds carried as a ghost
/// companion.
#[derive(Clone)]
pub struct EncodedBatch<T: SortPairsPayload> {
    /// The backing words of the encoded batch stream.
    words: Vec<u32>,
    /// How many triples the batch holds.
    len: usize,
    /// The triples themselves, for the specification.
    triples: Ghost<Seq<(usize, usize, T)>>,
}

impl<T: SortPairsPayload + Copy> EncodedBatch<T> {
    /// The words decode to exactly the recorded triples, which form a sorted
    /// chain of bounded keys.
    pub closed spec fn wf(&self) -> bool {
        &&& self.triples@.len() == self.len
        &&& sorted_triples(self.triples@)
        &&& chain_ok(self.triples@, 0, 0)
        &&& self.words@.len() * 32 <= usize::MAX
        &&& match spec_read_batch::<T>(
            BitOrder::L2M,
            words32_bits(BitOrder::L2M, self.words@),
            0,
            self.len as nat,
            0,
            0,
        ) {
            Some((sfx, pe)) => sfx == self.triples@,
            None => false,
        }
    }

    /// The triples the batch holds.
    pub closed spec fn triples(&self) -> Seq<(usize, usize, T)> {
        self.triples@
    }
}

/// The triples held by a sequence of encoded batches, as one multiset.
pub closed spec fn batches_multiset<T: SortPairsPayload + Copy>(bs: Seq<EncodedBatch<T>>) -> Multiset<
    (usize, usize, T),
>
    decreases bs.len(),
{
    if bs.len() == 0 {
        Multiset::empty()
    } else {
        batches_multiset(bs.drop_last()).add(bs.last().triples().to_multiset())
    }
}

/// Appending a batch adds its triples to the held multiset.
proof fn lemma_batches_multiset_snoc<T: SortPairsPayload + Copy>(
    bs: Seq<EncodedBatch<T>>,
    b: EncodedBatch<T>,
)
    ensures
        batches_multiset(bs.push(b)) == batches_multiset(bs).add(b.triples().to_multiset()),
{
    let e = bs.push(b);
    assert(e.drop_last() =~= bs);
    assert(e.last() == b);
}

/// Rearranging a three-way multiset sum.
proof fn lemma_multiset_add_comm3<V>(a: Multiset<V>, b: Multiset<V>, c: Multiset<V>)
    ensures
        a.add(b) == b.add(a),
        a.add(b).add(c) == a.add(c).add(b),
        a.add(b.add(c)) == a.add(b).add(c),
{
    assert(a.add(b) =~= b.add(a));
    assert(a.add(b).add(c) =~= a.add(c).add(b));
    assert(a.add(b.add(c)) =~= a.add(b).add(c));
}

/// Ingests `(src, dst, payload)` triples and sorts them in batches of
/// `batch_size`, each encoded as a γ-gap bit stream.
pub struct SortPairs<T: SortPairsPayload> {
    /// How many triples a batch holds before it is encoded.
    batch_size: usize,
    /// The triples of the batch currently being gathered.
    batch: Vec<(usize, usize, T)>,
    /// The encoded batches.
    batches: Vec<EncodedBatch<T>>,
}

impl<T: SortPairsPayload + Copy + Send> SortPairs<T> {
    /// All gathered triples are bounded and serialisable, and every encoded
    /// batch is intact.
    pub closed spec fn inv(self) -> bool {
        &&& 1 <= self.batch_size
        &&& self.batch_size <= usize::MAX / 1600
        &&& self.batch@.len() <= self.batch_size
        &&& forall|i: int|
            0 <= i < self.batch@.len() ==> ((#[trigger] self.batch@[i].0 as nat) < node_bound() && (
            self.batch@[i].1 as nat) < node_bound() && self.batch@[i].2.inv())
        &&& forall|i: int| 0 <= i < self.batches@.len() ==> (#[trigger] self.batches@[i]).wf()
    }

    /// Every triple pushed so far and not yet handed out.
    pub closed spec fn pushed(self) -> Multiset<(usize, usize, T)> {
        self.batch@.to_multiset().add(batches_multiset(self.batches@))
    }

    /// Create a new sorter with the given batch size.
    pub fn new(batch_size: usize) -> (r: Self)
        requires
            1 <= batch_size <= usize::MAX / 1600,
        ensures
            r.inv(),
            r.pushed() == Multiset::<(usize, usize, T)>::empty(),
    {
        let r = SortPairs { batch_size, batch: Vec::new(), batches: Vec::new() };
        proof {
            broadcast use vstd::seq_lib::group_to_multiset_ensures;

            assert(r.batch@.to_multiset().len() == 0);
            assert(r.pushed() =~= Multiset::<(usize, usize, T)>::empty());
        }
        r
    }

    /// Add a triple. When the batch is full it is sorted and encoded.
    pub fn push(&mut self, x: usize, y: usize, t: T) -> (r: Result<(), GraphError>)
        requires
            old(self).inv(),
            (x as nat) < node_bound(),
            (y as nat) < node_bound(),
            t.inv(),
        ensures
            final(self).inv(),
            r == Ok::<(), GraphError>(()),
            final(self).pushed() == old(self).pushed().insert((x, y, t)),
    {
        proof {
            broadcast use vstd::seq_lib::group_to_multiset_ensures;

        }
        self.batch.push((x, y, t));
        proof {
            lemma_multiset_add_comm3(
                old(self).batch@.to_multiset(),
                Multiset::singleton((x, y, t)),
                batches_multiset(self.batches@),
            );
            assert(old(self).batch@.to_multiset().insert((x, y, t)) == old(
                self,
            ).batch@.to_multiset().add(Multiset::singleton((x, y, t))));
        }
        if self.batch.len() >= self.batch_size {
            proof {
                assert forall|i: int| 0 <= i < self.batch@.len() implies ((
                #[trigger] self.batch@[i].0 as nat) < node_bound() && (self.batch@[i].1 as nat)
                    < node_bound() && self.batch@[i].2.inv()) by {
                    if i < old(self).batch@.len() {
                        assert(old(self).batch@[i] == self.batch@[i]);
                    }
                }
            }
            self.dump()
        } else {
            Ok(())
        }
    }

    /// Sort and encode the gathered batch, clearing it.
    fn dump(&mut self) -> (r: Result<(), GraphError>)
        requires
            old(self).inv() || (old(self).batch@.len() <= old(self).batch_size + 1 && {
                &&& 1 <= old(self).batch_size <= usize::MAX / 1600
                &&& forall|i: int|
                    0 <= i < old(self).batch@.len() ==> ((#[trigger] old(self).batch@[i].0 as nat)
                        < node_bound() && (old(self).batch@[i].1 as nat) < node_bound() && old(
                        self,
                    ).batch@[i].2.inv())
                &&& forall|i: int|
                    0 <= i < old(self).batches@.len() ==> (#[trigger] old(self).batches@[i]).wf()
            }),
        ensures
            final(self).inv(),
            r == Ok::<(), GraphError>(()),
            final(self).pushed() == old(self).pushed(),
            final(self).batch@.len() == 0,
    {
        proof {
            broadcast use vstd::seq_lib::group_to_multiset_ensures;

        }
        if self.batch.len() == 0 {
            proof {
                assert(self.batch@ =~= Seq::<(usize, usize, T)>::empty());
                assert(self.batch@.to_multiset().len() == 0);
                assert(self.pushed() =~= old(self).pushed());
            }
            return Ok(());
        }
        par_sort_triples(&mut self.batch);
        proof {
            assert forall|i: int| 0 <= i < self.batch@.len() implies ((
            #[trigger] self.batch@[i].0 as nat) < node_bound() && (self.batch@[i].1 as nat)
                < node_bound() && self.batch@[i].2.inv()) by {
                assert(self.batch@.to_multiset().contains(self.batch@[i]));
                assert(old(self).batch@.to_multiset().contains(self.batch@[i]));
                let j = choose|j: int|
                    0 <= j < old(self).batch@.len() && old(self).batch@[j] == self.batch@[i];
                assert((old(self).batch@[j].0 as nat) < node_bound());
            }
            lemma_sorted_chain(self.batch@, 0, 0);
            assert(self.batch@.to_multiset().len() == self.batch@.len());
            assert(old(self).batch@.to_multiset().len() == old(self).batch@.len());
            assert(self.batch@.subrange(0, self.batch@.len() as int) =~= self.batch@);
        }
        let mut w = BufferedBitStreamWrite::new(BitOrder::L2M);
        let mut i: usize = 0;
        let mut prev_src: usize = 0;
        let mut prev_dst: usize = 0;
        proof {
            assert(self.batch@.subrange(0, 0) =~= Seq::<(usize, usize, T)>::empty());
        }
        while i < self.batch.len()
            invariant
                w.wf(),
                w.order() == BitOrder::L2M,
                i <= self.batch@.len(),
                self.batch@.len() <= usize::MAX / 1600 + 1,
                sorted_triples(self.batch@),
                chain_ok(self.batch@, 0, 0),
                forall|q: int|
                    0 <= q < self.batch@.len() ==> ((#[trigger] self.batch@[q].0 as nat)
                        < node_bound() && (self.batch@[q].1 as nat) < node_bound()
                        && self.batch@[q].2.inv()),
                w.bits() == batch_bits(
                    BitOrder::L2M,
                    self.batch@.subrange(0, i as int),
                    0,
                    0,
                ),
                (prev_src, prev_dst) == prevs_after(self.batch@.subrange(0, i as int), 0usize, 0usize),
                w.bits().len() <= i * 800,
                chain_ok(self.batch@.subrange(i as int, self.batch@.len() as int), prev_src, prev_dst),
                (prev_src as nat) < node_bound(),
                (prev_dst as nat) < node_bound(),
            decreases self.batch@.len() - i,
        {
            let x = self.batch[i].0;
            let y = self.batch[i].1;
            let t = self.batch[i].2;
            let ghost pre_bits = w.bits();
            let ghost done = self.batch@.subrange(0, i as int);
            proof {
                assert(self.batch@.subrange(i as int, self.batch@.len() as int)[0]
                    == self.batch@[i as int]);
                vstd::arithmetic::power2::lemma_pow2_strictly_increases(62, 63);
                vstd::arithmetic::power2::lemma_pow2_strictly_increases(63, 64);
                vstd::arithmetic::power2::lemma2_to64_rest();
                lemma_gamma_len_bound(BitOrder::L2M, (x - prev_src) as nat);
            }
            let r1 = w.write_gamma((x - prev_src) as u64);
            if x != prev_src {
                prev_dst = 0;
            }
            proof {
                lemma_gamma_len_bound(BitOrder::L2M, (y - prev_dst) as nat);
            }
            let r2 = w.write_gamma((y - prev_dst) as u64);
            proof {
                t.lemma_payload_len(BitOrder::L2M);
            }
            let r3 = t.to_bitstream(&mut w);
            proof {
                let tb = triple_bits(BitOrder::L2M, self.batch@[i as int], prevs_after(done, 0usize, 0usize).0, prevs_after(done, 0usize, 0usize).1);
                assert(w.bits() =~= pre_bits + tb);
                lemma_batch_bits_snoc(
                    BitOrder::L2M,
                    done,
                    self.batch@[i as int],
                    0usize,
                    0usize,
                );
                assert(done + seq![self.batch@[i as int]] =~= self.batch@.subrange(0, i + 1));
                assert(w.bits() == batch_bits(BitOrder::L2M, self.batch@.subrange(0, i + 1), 0, 0));
                assert(prevs_after(self.batch@.subrange(0, i + 1), 0usize, 0usize) == (
                    self.batch@[i as int].0,
                    self.batch@[i as int].1,
                ));
                assert(self.batch@.subrange(i as int, self.batch@.len() as int).drop_first()
                    =~= self.batch@.subrange(i + 1, self.batch@.len() as int));
            }
            prev_src = x;
            prev_dst = y;
            i = i + 1;
        }
        proof {
            assert(self.batch@.subrange(0, self.batch@.len() as int) =~= self.batch@);
        }
        let len = self.batch.len();
        w.flush();
        proof {
            let bb = batch_bits(BitOrder::L2M, self.batch@, 0usize, 0usize);
            let pad = w.bits().subrange(bb.len() as int, w.bits().len() as int);
            assert(w.bits() =~= Seq::<bool>::empty() + bb + pad);
            lemma_batch_round_trip(BitOrder::L2M, Seq::<bool>::empty(), self.batch@, 0usize, 0usize, pad);
        }
        let words = w.into_words();
        let eb = EncodedBatch::<T> { words, len, triples: Ghost(self.batch@) };
        let ghost old_batches = self.batches@;
        let ghost moved = self.batch@;
        self.batches.push(eb);
        self.batch.clear();
        proof {
            lemma_batches_multiset_snoc(old_batches, eb);
            assert(self.batch@ =~= Seq::<(usize, usize, T)>::empty());
            assert(self.batch@.to_multiset().len() == 0);
            lemma_multiset_add_comm3(
                moved.to_multiset(),
                batches_multiset(old_batches),
                Multiset::empty(),
            );
            assert(self.pushed() =~= old(self).pushed());
        }
        Ok(())
    }

    /// Encode whatever is gathered, so that every pushed triple sits in an
    /// encoded batch.
    pub fn finish(&mut self) -> (r: Result<(), GraphError>)
        requires
            old(self).inv(),
        ensures
            final(self).inv(),
            r == Ok::<(), GraphError>(()),
            final(self).pushed() == old(self).pushed(),
    {
        self.dump()
    }

    /// Drop everything gathered or encoded so far.
    pub fn cancel_batches(&mut self) -> (r: Result<(), GraphError>)
        requires
            old(self).inv(),
        ensures
            final(self).inv(),
            r == Ok::<(), GraphError>(()),
            final(self).pushed() == Multiset::<(usize, usize, T)>::empty(),
    {
        self.batch.clear();
        self.batches.clear();
        proof {
            broadcast use vstd::seq_lib::group_to_multiset_ensures;

            assert(self.batch@ =~= Seq::<(usize, usize, T)>::empty());
            assert(self.batch@.to_multiset().len() == 0);
            assert(self.pushed() =~= Multiset::<(usize, usize, T)>::empty());
        }
        Ok(())
    }

    /// Encode the pending batch and return a merge iterator over every
    /// pushed triple, in non-decreasing `(src, dst)` order.
    pub fn iter(&mut self) -> (r: Result<KMergeIters<T>, GraphError>)
        requires
            old(self).inv(),
        ensures
            final(self).inv(),
            final(self).pushed() == old(self).pushed(),
            r matches Ok(m) && m.wf() && m.remaining() == old(self).pushed(),
    {
        let rd = self.dump();
        let mut its: Vec<BatchIterator<T>> = Vec::new();
        let mut i: usize = 0;
        proof {
            assert(iters_multiset(its@) =~= batches_multiset(self.batches@.subrange(0, 0)));
        }
        while i < self.batches.len()
            invariant
                self.inv(),
                i <= self.batches@.len(),
                forall|q: int| 0 <= q < its@.len() ==> (#[trigger] its@[q]).wf(),
                iters_multiset(its@) == batches_multiset(self.batches@.subrange(0, i as int)),
            decreases self.batches@.len() - i,
        {
            let ghost old_its = its@;
            let it = BatchIterator::new(&self.batches[i]);
            its.push(it);
            proof {
                lemma_iters_multiset_snoc(old_its, it);
                lemma_batches_multiset_snoc_prefix(self.batches@, i as int);
            }
            i = i + 1;
        }
        proof {
            assert(self.batches@.subrange(0, self.batches@.len() as int) =~= self.batches@);
            broadcast use vstd::seq_lib::group_to_multiset_ensures;

            assert(self.batch@.to_multiset().len() == 0);
            lemma_multiset_add_comm3(
                self.batch@.to_multiset(),
                batches_multiset(self.batches@),
                Multiset::empty(),
            );
        }
        let m = KMergeIters::new(its);
        Ok(m)
    }
}

/// The triples still to come from a sequence of batch iterators.
pub closed spec fn iters_multiset<T: SortPairsPayload + Copy>(its: Seq<BatchIterator<T>>) -> Multiset<
    (usize, usize, T),
>
    decreases its.len(),
{
    if its.len() == 0 {
        Multiset::empty()
    } else {
        iters_multiset(its.drop_last()).add(its.last().remaining().to_multiset())
    }
}

/// Appending an iterator adds its remaining triples to the pool.
proof fn lemma_iters_multiset_snoc<T: SortPairsPayload + Copy>(
    its: Seq<BatchIterator<T>>,
    it: BatchIterator<T>,
)
    ensures
        iters_multiset(its.push(it)) == iters_multiset(its).add(it.remaining().to_multiset()),
{
    let e = its.push(it);
    assert(e.drop_last() =~= its);
    assert(e.last() == it);
}

/// A prefix of batches grows by one batch at its end.
proof fn lemma_batches_multiset_snoc_prefix<T: SortPairsPayload + Copy>(
    bs: Seq<EncodedBatch<T>>,
    i: int,
)
    requires
        0 <= i < bs.len(),
    ensures
        batches_multiset(bs.subrange(0, i + 1)) == batches_multiset(bs.subrange(0, i)).add(
            bs[i].triples().to_multiset(),
        ),
{
    assert(bs.subrange(0, i + 1) =~= bs.subrange(0, i).push(bs[i]));
    lemma_batches_multiset_snoc(bs.subrange(0, i), bs[i]);
}

/// A cursor over one encoded batch, yielding its triples in order.
#[derive(Clone)]
pub struct BatchIterator<T: SortPairsPayload> {
    /// The bit stream holding the encoded batch.
    stream: BufferedBitStreamRead,
    /// How many triples the batch holds.
    len: usize,
    /// How many triples were already yielded.
    current: usize,
    /// The source of the last yielded triple.
    prev_src: usize,
    /// The destination of the last yielded triple.
    prev_dst: usize,
    /// The triples of the batch, for the specification.
    triples: Ghost<Seq<(usize, usize, T)>>,
}

impl<T: SortPairsPayload + Copy> BatchIterator<T> {
    /// The cursor is inside the batch and the stream decodes to the triples
    /// not yet yielded.
    pub closed spec fn wf(&self) -> bool {
        &&& self.stream.wf()
        &&& self.stream.order() == BitOrder::L2M
        &&& self.current <= self.len
        &&& self.triples@.len() == self.len
        &&& sorted_triples(self.triples@)
        &&& forall|i: int|
            0 <= i < self.triples@.len() ==> ((#[trigger] self.triples@[i].0 as nat) < node_bound()
                && (self.triples@[i].1 as nat) < node_bound() && self.triples@[i].2.inv())
        &&& match spec_read_batch::<T>(
            BitOrder::L2M,
            self.stream.bits(),
            self.stream.pos(),
            (self.len - self.current) as nat,
            self.prev_src,
            self.prev_dst,
        ) {
            Some((sfx, pe)) => sfx == self.triples@.subrange(
                self.current as int,
                self.len as int,
            ),
            None => false,
        }
    }

    /// The triples not yet yielded.
    pub closed spec fn remaining(&self) -> Seq<(usize, usize, T)> {
        self.triples@.subrange(self.current as int, self.len as int)
    }

    /// An independent cursor that will yield exactly the same remaining
    /// triples: advancing either afterwards leaves the other untouched.
    pub fn duplicate(&self) -> (r: Self)
        requires
            self.wf(),
        ensures
            r.wf(),
            r.remaining() == self.remaining(),
    {
        BatchIterator {
            stream: self.stream.duplicate(),
            len: self.len,
            current: self.current,
            prev_src: self.prev_src,
            prev_dst: self.prev_dst,
            triples: Ghost(self.triples@),
        }
    }

    /// Open a cursor over an encoded batch.
    pub fn new(batch: &EncodedBatch<T>) -> (r: Self)
        requires
            batch.wf(),
        ensures
            r.wf(),
            r.remaining() == batch.triples(),
    {
        let words = copy_words(&batch.words);
        let stream = BufferedBitStreamRead::new(BitOrder::L2M, words);
        let r = BatchIterator {
            stream,
            len: batch.len,
            current: 0,
            prev_src: 0,
            prev_dst: 0,
            triples: Ghost(batch.triples@),
        };
        proof {
            lemma_chain_bounds(batch.triples@, 0, 0);
            assert(r.triples@.subrange(0, r.len as int) =~= r.triples@);
        }
        r
    }

    /// Yield the next triple of the batch, if any.
    pub fn next(&mut self) -> (r: Option<(usize, usize, T)>)
        requires
            old(self).wf(),
        ensures
            final(self).wf(),
            old(self).remaining().len() == 0 ==> r == None::<(usize, usize, T)> && *final(self)
                == *old(self),
            old(self).remaining().len() > 0 ==> r == Some(old(self).remaining()[0])
                && final(self).remaining() == old(self).remaining().drop_first(),
    {
        if self.current == self.len {
            proof {
                assert(old(self).remaining().len() == 0);
            }
            return None;
        }
        let ghost rem = (self.len - self.current) as nat;
        let ghost t0 = self.triples@[self.current as int];
        let ghost bs0 = self.stream.bits();
        let ghost p0 = self.stream.pos();
        let ghost ps0 = self.prev_src;
        let ghost pd0 = self.prev_dst;
        proof {
            assert(old(self).remaining()[0] == t0);
            match spec_read_batch::<T>(BitOrder::L2M, bs0, p0, rem, ps0, pd0) {
                Some((sfx, pe)) => {
                    assert(sfx[0] == t0);
                    match spec_read_triple::<T>(BitOrder::L2M, bs0, p0, ps0, pd0) {
                        Some((tt, p1)) => {
                            assert(tt == t0);
                            match spec_read_gamma(BitOrder::L2M, bs0, p0) {
                                Some((sgs, pa)) => {
                                    assert(ps0 + sgs == t0.0 as nat);
                                },
                                None => {
                                    assert(false);
                                },
                            }
                        },
                        None => {
                            assert(false);
                        },
                    }
                },
                None => {
                    assert(false);
                },
            }
        }
        let sg: u64;
        match self.stream.read_gamma() {
            Ok(v) => {
                sg = v;
            },
            Err(_) => {
                proof {
                    assert(false);
                }
                return None;
            },
        }
        let dg: u64;
        match self.stream.read_gamma() {
            Ok(v) => {
                dg = v;
            },
            Err(_) => {
                proof {
                    assert(false);
                }
                return None;
            },
        }
        proof {
            vstd::arithmetic::power2::lemma_pow2_strictly_increases(62, 63);
            vstd::arithmetic::power2::lemma_pow2_strictly_increases(63, 64);
            vstd::arithmetic::power2::lemma2_to64_rest();
        }
        let src = self.prev_src + (sg as usize);
        let pd: usize = if sg > 0 {
            0
        } else {
            self.prev_dst
        };
        let dst = pd + (dg as usize);
        let t: T;
        match T::from_bitstream(&mut self.stream) {
            Ok(v) => {
                t = v;
            },
            Err(_) => {
                proof {
                    assert(false);
                }
                return None;
            },
        }
        proof {
            let p3 = self.stream.pos();
            match spec_read_batch::<T>(BitOrder::L2M, bs0, p0, rem, ps0, pd0) {
                Some((sfx, pe)) => {
                    match spec_read_triple::<T>(BitOrder::L2M, bs0, p0, ps0, pd0) {
                        Some((tt, p1)) => {
                            assert(tt == t0);
                            assert(p3 == p1);
                            assert(src == t0.0 && dst == t0.1);
                            match spec_read_batch::<T>(
                                BitOrder::L2M,
                                bs0,
                                p1,
                                (rem - 1) as nat,
                                tt.0,
                                tt.1,
                            ) {
                                Some((rest2, pe2)) => {
                                    assert(sfx == seq![tt] + rest2);
                                    assert(rest2 =~= sfx.drop_first());
                                    assert(rest2 =~= self.triples@.subrange(
                                        self.current + 1,
                                        self.len as int,
                                    ));
                                },
                                None => {
                                    assert(false);
                                },
                            }
                        },
                        None => {
                            assert(false);
                        },
                    }
                },
                None => {
                    assert(false);
                },
            }
        }
        self.prev_src = src;
        self.prev_dst = dst;
        self.current = self.current + 1;
        proof {
            assert(old(self).remaining().drop_first() =~= self.triples@.subrange(
                self.current as int,
                self.len as int,
            ));
        }
        Some((src, dst, t))
    }
}

/// The triples an active merge entry still holds: its head, then the rest
/// of its batch.
pub closed spec fn entry_rem<T: SortPairsPayload + Copy>(
    e: (usize, usize, T, BatchIterator<T>),
) -> Seq<(usize, usize, T)> {
    seq![(e.0, e.1, e.2)] + e.3.remaining()
}

/// The triples a sequence of merge entries still holds, as one multiset.
pub closed spec fn entries_multiset<T: SortPairsPayload + Copy>(
    es: Seq<(usize, usize, T, BatchIterator<T>)>,
) -> Multiset<(usize, usize, T)>
    decreases es.len(),
{
    if es.len() == 0 {
        Multiset::empty()
    } else {
        entries_multiset(es.drop_last()).add(entry_rem(es.last()).to_multiset())
    }
}

/// Two entry sequences whose entries hold the same triples hold the same
/// pool.
proof fn lemma_entries_multiset_pointwise<T: SortPairsPayload + Copy>(
    a: Seq<(usize, usize, T, BatchIterator<T>)>,
    b: Seq<(usize, usize, T, BatchIterator<T>)>,
)
    requires
        a.len() == b.len(),
        forall|i: int| 0 <= i < a.len() ==> entry_rem(#[trigger] a[i]) == entry_rem(b[i]),
    ensures
        entries_multiset(a) == entries_multiset(b),
    decreases a.len(),
{
    if a.len() > 0 {
        assert(forall|i: int|
            0 <= i < a.drop_last().len() ==> entry_rem(#[trigger] a.drop_last()[i]) == entry_rem(
                b.drop_last()[i],
            ));
        lemma_entries_multiset_pointwise(a.drop_last(), b.drop_last());
        assert(entry_rem(a.last()) == entry_rem(b.last()));
    }
}

/// Appending an entry adds its triples to the pool.
proof fn lemma_entries_multiset_snoc<T: SortPairsPayload + Copy>(
    es: Seq<(usize, usize, T, BatchIterator<T>)>,
    e: (usize, usize, T, BatchIterator<T>),
)
    ensures
        entries_multiset(es.push(e)) == entries_multiset(es).add(entry_rem(e).to_multiset()),
{
    let x = es.push(e);
    assert(x.drop_last() =~= es);
    assert(x.last() == e);
}

/// Removing an entry takes exactly its triples out of the pool.
proof fn lemma_entries_multiset_remove<T: SortPairsPayload + Copy>(
    es: Seq<(usize, usize, T, BatchIterator<T>)>,
    i: int,
)
    requires
        0 <= i < es.len(),
    ensures
        entries_multiset(es.remove(i)).add(entry_rem(es[i]).to_multiset()) == entries_multiset(es),
    decreases es.len(),
{
    if i == es.len() - 1 {
        assert(es.remove(i) =~= es.drop_last());
    } else {
        let r = es.remove(i);
        assert(r.drop_last() =~= es.drop_last().remove(i));
        assert(r.last() == es.last());
        assert(es.drop_last()[i] == es[i]);
        lemma_entries_multiset_remove(es.drop_last(), i);
        lemma_multiset_add_comm3(
            entries_multiset(es.drop_last().remove(i)),
            entry_rem(es.last()).to_multiset(),
            entry_rem(es[i]).to_multiset(),
        );
    }
}

/// Every triple in the pool sits in some entry.
proof fn lemma_entries_multiset_member<T: SortPairsPayload + Copy>(
    es: Seq<(usize, usize, T, BatchIterator<T>)>,
    u: (usize, usize, T),
)
    requires
        entries_multiset(es).count(u) > 0,
    ensures
        exists|j: int| 0 <= j < es.len() && (#[trigger] entry_rem(es[j])).contains(u),
    decreases es.len(),
{
    broadcast use vstd::seq_lib::group_to_multiset_ensures;

    if es.len() == 0 {
        assert(false);
    } else {
        if entry_rem(es.last()).to_multiset().count(u) > 0 {
            assert(entry_rem(es[es.len() - 1]).contains(u));
        } else {
            lemma_entries_multiset_member(es.drop_last(), u);
            let j = choose|j: int|
                0 <= j < es.drop_last().len() && (#[trigger] entry_rem(
                    es.drop_last()[j],
                )).contains(u);
            assert(es.drop_last()[j] == es[j]);
            assert(entry_rem(es[j]).contains(u));
        }
    }
}

/// Merge any number of batch cursors into one stream that is non-decreasing
/// by `(src, dst)`.
#[derive(Clone)]
pub struct KMergeIters<T: SortPairsPayload> {
    /// One entry per live cursor: the head triple and the cursor it came
    /// from.
    entries: Vec<(usize, usize, T, BatchIterator<T>)>,
}

impl<T: SortPairsPayload + Copy> KMergeIters<T> {
    /// Every entry holds a live cursor and its still-sorted remainder.
    pub closed spec fn wf(&self) -> bool {
        forall|i: int|
            0 <= i < self.entries@.len() ==> {
                &&& (#[trigger] self.entries@[i]).3.wf()
                &&& sorted_triples(entry_rem(self.entries@[i]))
                &&& (self.entries@[i].0 as nat) < node_bound()
                &&& (self.entries@[i].1 as nat) < node_bound()
                &&& self.entries@[i].2.inv()
            }
    }

    /// The triples not yet yielded by the merge.
    pub closed spec fn remaining(&self) -> Multiset<(usize, usize, T)> {
        entries_multiset(self.entries@)
    }

    /// An independent merge that will yield exactly the same remaining
    /// triples: advancing either afterwards leaves the other untouched.
    pub fn duplicate(&self) -> (r: Self)
        requires
            self.wf(),
        ensures
            r.wf(),
            r.remaining() == self.remaining(),
    {
        let mut entries: Vec<(usize, usize, T, BatchIterator<T>)> = Vec::new();
        let mut i: usize = 0;
        while i < self.entries.len()
            invariant
                self.wf(),
                i <= self.entries@.len(),
                entries@.len() == i,
                forall|q: int|
                    0 <= q < i ==> {
                        &&& (#[trigger] entries@[q]).0 == self.entries@[q].0
                        &&& entries@[q].1 == self.entries@[q].1
                        &&& entries@[q].2 == self.entries@[q].2
                        &&& entries@[q].3.wf()
                        &&& entries@[q].3.remaining() == self.entries@[q].3.remaining()
                    },
            decreases self.entries@.len() - i,
        {
            let e = &self.entries[i];
            entries.push((e.0, e.1, e.2, e.3.duplicate()));
            i = i + 1;
        }
        let r = KMergeIters { entries };
        proof {
            assert forall|q: int| 0 <= q < r.entries@.len() implies entry_rem(#[trigger] r.entries@[q])
                == entry_rem(self.entries@[q]) by {
                assert(entry_rem(r.entries@[q]) =~= entry_rem(self.entries@[q]));
            }
            lemma_entries_multiset_pointwise(r.entries@, self.entries@);
            assert forall|q: int|
                0 <= q < r.entries@.len() implies sorted_triples(
                entry_rem(#[trigger] r.entries@[q])) by {
                assert(entry_rem(r.entries@[q]) == entry_rem(self.entries@[q]));
            }
        }
        r
    }

    /// Build a merge over a set of batch cursors.
    pub fn new(iters: Vec<BatchIterator<T>>) -> (r: Self)
        requires
            forall|i: int| 0 <= i < iters@.len() ==> (#[trigger] iters@[i]).wf(),
        ensures
            r.wf(),
            r.remaining() == iters_multiset(iters@),
    {
        let mut m = KMergeIters { entries: Vec::new() };
        let mut src: Vec<BatchIterator<T>> = iters;
        let ghost all = src@;
        let mut i: usize = 0;
        proof {
            assert(entries_multiset(m.entries@)
                =~= Multiset::<(usize, usize, T)>::empty());
            assert(iters_multiset(all.subrange(0, 0))
                =~= Multiset::<(usize, usize, T)>::empty());
        }
        while i < src.len()
            invariant
                i <= src@.len(),
                src@.len() == all.len(),
                forall|q: int| i <= q < all.len() ==> src@[q] == all[q],
                forall|q: int| 0 <= q < all.len() ==> (#[trigger] all[q]).wf(),
                m.wf(),
                entries_multiset(m.entries@) == iters_multiset(all.subrange(0, i as int)),
            decreases src@.len() - i,
        {
            let ghost old_entries = m.entries@;
            let mut it = Self::take_iter(&mut src, i);
            proof {
                assert(it == all[i as int]);
                assert(all[i as int].wf());
            }
            let ghost it0 = it;
            let ghost pre_rem = it.remaining();
            let nxt = it.next();
            proof {
                assert(all.subrange(0, i + 1) =~= all.subrange(0, i as int).push(all[i as int]));
                lemma_iters_multiset_snoc_general(all.subrange(0, i as int), all[i as int]);
            }
            match nxt {
                Some(t) => {
                    let e = (t.0, t.1, t.2, it);
                    m.entries.push(e);
                    proof {
                        lemma_entries_multiset_snoc(old_entries, e);
                        assert(entry_rem(e) =~= pre_rem);
                        assert(sorted_triples(entry_rem(e)));
                        assert((t.0 as nat) < node_bound() && (t.1 as nat) < node_bound()
                            && t.2.inv());
                    }
                },
                None => {
                    proof {
                        broadcast use vstd::seq_lib::group_to_multiset_ensures;

                        assert(pre_rem.len() == 0);
                        assert(pre_rem.to_multiset().len() == 0);
                        assert(entries_multiset(m.entries@).add(pre_rem.to_multiset())
                            =~= entries_multiset(m.entries@));
                    }
                },
            }
            i = i + 1;
        }
        proof {
            assert(all.subrange(0, all.len() as int) =~= all);
        }
        m
    }

    /// Pull the cursor at `i` out of the vector, replacing it with an empty
    /// placeholder.
    fn take_iter(v: &mut Vec<BatchIterator<T>>, i: usize) -> (r: BatchIterator<T>)
        requires
            i < old(v)@.len(),
        ensures
            r == old(v)@[i as int],
            final(v)@.len() == old(v)@.len(),
            forall|q: int|
                0 <= q < old(v)@.len() && q != i ==> final(v)@[q] == #[trigger] old(v)@[q],
    {
        let placeholder = BatchIterator {
            stream: BufferedBitStreamRead::new(BitOrder::L2M, Vec::new()),
            len: 0,
            current: 0,
            prev_src: 0,
            prev_dst: 0,
            triples: Ghost(Seq::empty()),
        };
        let r = v.remove(i);
        v.insert(i, placeholder);
        r
    }

    /// Yield the smallest remaining triple by `(src, dst)`, advancing the
    /// cursor it came from.
    pub fn next(&mut self) -> (r: Option<(usize, usize, T)>)
        requires
            old(self).wf(),
        ensures
            final(self).wf(),
            old(self).remaining().len() == 0 ==> r == None::<(usize, usize, T)>
                && final(self).remaining() == old(self).remaining(),
            old(self).remaining().len() > 0 ==> (r matches Some(t) && {
                &&& old(self).remaining().count(t) > 0
                &&& final(self).remaining() == old(self).remaining().remove(t)
                &&& (t.0 as nat) < node_bound() && (t.1 as nat) < node_bound() && t.2.inv()
                &&& forall|u: (usize, usize, T)|
                    final(self).remaining().count(u) > 0 ==> pair_le((t.0, t.1), (u.0, u.1))
            }),
    {
        broadcast use vstd::seq_lib::group_to_multiset_ensures;

        if self.entries.len() == 0 {
            proof {
                assert(self.remaining() =~= Multiset::<(usize, usize, T)>::empty());
            }
            return None;
        }
        proof {
            assert(entry_rem(self.entries@[0]).to_multiset().count(
                (self.entries@[0].0, self.entries@[0].1, self.entries@[0].2),
            ) > 0) by {
                assert(entry_rem(self.entries@[0])[0] == (
                    self.entries@[0].0,
                    self.entries@[0].1,
                    self.entries@[0].2,
                ));
                assert(entry_rem(self.entries@[0]).contains(
                    (self.entries@[0].0, self.entries@[0].1, self.entries@[0].2),
                ));
            }
            lemma_entries_multiset_remove(self.entries@, 0);
        }
        let mut best: usize = 0;
        let mut j: usize = 1;
        while j < self.entries.len()
            invariant
                self.wf(),
                self.entries@.len() >= 1,
                best < j <= self.entries@.len(),
                forall|q: int|
                    0 <= q < j ==> pair_le(
                        (self.entries@[best as int].0, self.entries@[best as int].1),
                        ((#[trigger] self.entries@[q]).0, self.entries@[q].1),
                    ),
            decreases self.entries@.len() - j,
        {
            let hj0 = self.entries[j].0;
            let hj1 = self.entries[j].1;
            let hb0 = self.entries[best].0;
            let hb1 = self.entries[best].1;
            if hj0 < hb0 || (hj0 == hb0 && hj1 < hb1) {
                best = j;
            }
            j = j + 1;
        }
        let ghost es0 = self.entries@;
        let ghost be = es0[best as int];
        let e = self.entries.remove(best);
        let (hs, hd, hp, mut it) = e;
        let ghost tail_rem = it.remaining();
        let t = (hs, hd, hp);
        proof {
            lemma_entries_multiset_remove(es0, best as int);
            assert(entry_rem(be)[0] == t);
            assert(entry_rem(be).contains(t));
            assert(entries_multiset(es0).count(t) > 0);
        }
        let nxt = it.next();
        match nxt {
            Some(t2) => {
                let ghost mid_entries = self.entries@;
                let e2 = (t2.0, t2.1, t2.2, it);
                self.entries.push(e2);
                proof {
                    lemma_entries_multiset_snoc(mid_entries, e2);
                    assert((t2.0 as nat) < node_bound() && (t2.1 as nat) < node_bound()
                        && t2.2.inv());
                    assert(entry_rem(e2) =~= entry_rem(be).drop_first());
                    assert(sorted_triples(entry_rem(e2))) by {
                        assert(forall|a: int, b: int|
                            #![trigger entry_rem(e2)[a], entry_rem(e2)[b]]
                            0 <= a < b < entry_rem(e2).len() ==> pair_le(
                                (entry_rem(be)[a + 1].0, entry_rem(be)[a + 1].1),
                                (entry_rem(be)[b + 1].0, entry_rem(be)[b + 1].1),
                            ));
                    }
                    assert(entry_rem(be) =~= seq![t] + entry_rem(e2));
                    assert(entry_rem(be).to_multiset() =~= entry_rem(e2).to_multiset().insert(t))
                        by {
                        assert(entry_rem(be) =~= entry_rem(e2).insert(0, t));
                        lemma_to_multiset_insert_front(entry_rem(e2), t);
                    }
                    assert(entries_multiset(self.entries@) =~= entries_multiset(es0).remove(t));
                    assert forall|u: (usize, usize, T)|
                        self.remaining().count(u) > 0 implies entries_multiset(es0).count(u)
                        > 0 by {}
                    lemma_next_min(es0, best as int, t, *self);
                }
                Some(t)
            },
            None => {
                proof {
                    assert(tail_rem.len() == 0);
                    assert(entry_rem(be) =~= seq![t]);
                    assert(entry_rem(be).to_multiset() =~= Multiset::empty().insert(t)) by {
                        assert(entry_rem(be) =~= Seq::<(usize, usize, T)>::empty().push(t));
                    }
                    assert(entries_multiset(self.entries@).add(Multiset::empty().insert(t))
                        == entries_multiset(es0));
                    assert(entries_multiset(self.entries@) =~= entries_multiset(es0).remove(t));
                    assert forall|u: (usize, usize, T)|
                        self.remaining().count(u) > 0 implies entries_multiset(es0).count(u)
                        > 0 by {}
                    lemma_next_min(es0, best as int, t, *self);
                }
                Some(t)
            },
        }
    }
}

/// Putting a value at the front of a run inserts it into the run's multiset.
proof fn lemma_to_multiset_insert_front<A>(s: Seq<A>, a: A)
    ensures
        (seq![a] + s).to_multiset() == s.to_multiset().insert(a),
    decreases s.len(),
{
    broadcast use vstd::seq_lib::group_to_multiset_ensures;

    let w = seq![a] + s;
    if s.len() == 0 {
        assert(w =~= Seq::<A>::empty().push(a));
    } else {
        assert(w =~= (seq![a] + s.drop_last()).push(s.last()));
        lemma_to_multiset_insert_front(s.drop_last(), a);
        assert((seq![a] + s.drop_last()).to_multiset() == s.drop_last().to_multiset().insert(a));
        assert(s =~= s.drop_last().push(s.last()));
        assert(w.to_multiset() =~= s.to_multiset().insert(a));
    }
}

/// Appending a cursor adds its remaining triples to the pool (free-standing
/// form).
proof fn lemma_iters_multiset_snoc_general<T: SortPairsPayload + Copy>(
    its: Seq<BatchIterator<T>>,
    it: BatchIterator<T>,
)
    ensures
        iters_multiset(its.push(it)) == iters_multiset(its).add(it.remaining().to_multiset()),
{
    lemma_iters_multiset_snoc(its, it);
}

/// After the minimal head was yielded, it is at or below everything left.
proof fn lemma_next_min<T: SortPairsPayload + Copy>(
    es0: Seq<(usize, usize, T, BatchIterator<T>)>,
    best: int,
    t: (usize, usize, T),
    after: KMergeIters<T>,
)
    requires
        0 <= best < es0.len(),
        t == (es0[best].0, es0[best].1, es0[best].2),
        forall|q: int|
            0 <= q < es0.len() ==> pair_le(
                (es0[best].0, es0[best].1),
                ((#[trigger] es0[q]).0, es0[q].1),
            ),
        forall|q: int|
            0 <= q < es0.len() ==> sorted_triples(entry_rem(#[trigger] es0[q])),
        after.remaining() == entries_multiset(es0).remove(t),
        forall|u: (usize, usize, T)|
            after.remaining().count(u) > 0 ==> entries_multiset(es0).count(u) > 0,
    ensures
        forall|u: (usize, usize, T)|
            after.remaining().count(u) > 0 ==> pair_le((t.0, t.1), (u.0, u.1)),
{
    assert forall|u: (usize, usize, T)| after.remaining().count(u) > 0 implies pair_le(
        (t.0, t.1),
        (u.0, u.1),
    ) by {
        assert(entries_multiset(es0).count(u) > 0);
        lemma_entries_multiset_member(es0, u);
        let j = choose|j: int| 0 <= j < es0.len() && (#[trigger] entry_rem(es0[j])).contains(u);
        let er = entry_rem(es0[j]);
        let idx = choose|idx: int| 0 <= idx < er.len() && er[idx] == u;
        assert(er[0] == (es0[j].0, es0[j].1, es0[j].2));
        if idx > 0 {
            assert(pair_le((er[0].0, er[0].1), (er[idx].0, er[idx].1)));
        }
        assert(pair_le((t.0, t.1), (es0[j].0, es0[j].1)));
    }
}

} // verus!


