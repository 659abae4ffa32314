//! A bit stream writer that accumulates bits into 32-bit backing words under
//! either bit order, with an explicit flush that zero-pads the last partial
//! word.

use vstd::prelude::*;

verus! {

use crate::bits::BitOrder;
use crate::bits::u32_bit;
use crate::bits::u64_bit;
use crate::bits::unary_bits;
use crate::bits::val_bits;
use crate::bits::word32_stream_bit;
use crate::bits::words32_bits;
use crate::utils::GraphError;
use vstd::arithmetic::div_mod::lemma_fundamental_div_mod_converse;

/// Pushing one bit into a most-significant-first accumulator shifts the old
/// bits up and appends the new bit at the bottom.
proof fn lemma_u32_push_msb(cur: u32, bit: u32)
    by (bit_vector)
    requires
        bit <= 1,
        cur < 0x8000_0000u32,
    ensures
        u32_bit((cur << 1u32) | bit, 0) == (bit == 1u32),
        forall|i: u32| 1 <= i < 32 ==> #[trigger] u32_bit((cur << 1u32) | bit, i) == u32_bit(
            cur,
            (i - 1) as u32,
        ),
        forall|f: u32|
            f < 31 && cur >> f == 0 ==> #[trigger] (((cur << 1u32) | bit) >> ((f + 1) as u32)) == 0,
{
}

/// Pushing one bit into a least-significant-first accumulator keeps the old
/// bits in place and appends the new bit above them.
proof fn lemma_u32_push_lsb(cur: u32, bit: u32, fill: u32)
    by (bit_vector)
    requires
        bit <= 1,
        fill < 32,
        cur >> fill == 0,
    ensures
        forall|i: u32| i < fill ==> #[trigger] u32_bit(cur | (bit << fill), i) == u32_bit(cur, i),
        u32_bit(cur | (bit << fill), fill) == (bit == 1u32),
        fill + 1 < 32 ==> (cur | (bit << fill)) >> ((fill + 1) as u32) == 0,
{
}

/// Every bit above the filled region of the accumulator is clear, and
/// zero-padding a most-significant-first accumulator moves its bits to the
/// top of the word.
proof fn lemma_u32_flush(cur: u32, fill: u32)
    by (bit_vector)
    requires
        fill < 32,
        cur >> fill == 0,
    ensures
        forall|k: u32| fill <= k < 32 ==> !(#[trigger] u32_bit(cur, k)),
        forall|k: u32|
            k < fill ==> #[trigger] u32_bit(cur << ((32 - fill) as u32), (31 - k) as u32)
                == u32_bit(cur, ((fill - 1 - k)) as u32),
        forall|k: u32| fill <= k < 32 ==> !(#[trigger] u32_bit(cur << ((32 - fill) as u32), (31
            - k) as u32)),
{
}

/// A bit stream writer over 32-bit backing words: bits accumulate in a
/// partial word and completed words are appended to the backend.
pub struct BufferedBitStreamWrite {
    /// The bit order of the stream.
    order: BitOrder,
    /// The completed backing words.
    words: Vec<u32>,
    /// The partial word the next bits land in.
    cur: u32,
    /// Number of bits already in the partial word.
    fill: u32,
}

impl BufferedBitStreamWrite {
    /// The bit order of the stream.
    pub closed spec fn order(&self) -> BitOrder {
        self.order
    }

    /// All bits written so far, in stream order.
    pub closed spec fn bits(&self) -> Seq<bool> {
        words32_bits(self.order, self.words@) + Seq::new(
            self.fill as nat,
            |i: int|
                match self.order {
                    BitOrder::M2L => u32_bit(self.cur, (self.fill - 1 - i) as u32),
                    BitOrder::L2M => u32_bit(self.cur, i as u32),
                },
        )
    }

    /// The partial word is clear above its filled region.
    pub closed spec fn wf(&self) -> bool {
        &&& self.fill < 32
        &&& self.cur >> self.fill == 0
    }

    /// Create a new empty writer for the given bit order.
    pub fn new(order: BitOrder) -> (r: Self)
        ensures
            r.wf(),
            r.order() == order,
            r.bits() == Seq::<bool>::empty(),
    {
        let r = BufferedBitStreamWrite { order, words: Vec::new(), cur: 0, fill: 0 };
        proof {
            assert(0u32 >> 0u32 == 0u32) by (bit_vector);
            assert(r.bits() =~= Seq::<bool>::empty());
        }
        r
    }

    /// The bit order of the stream, as a value.
    pub fn bit_order(&self) -> (r: BitOrder)
        ensures
            r == self.order(),
    {
        self.order
    }

    /// The number of bits written so far.
    pub fn written_bits(&self) -> (r: usize)
        requires
            self.wf(),
            self.bits().len() <= usize::MAX,
        ensures
            r == self.bits().len(),
    {
        self.words.len() * 32 + (self.fill as usize)
    }

    /// Append one bit to the stream.
    fn push_bit(&mut self, b: bool)
        requires
            old(self).wf(),
            old(self).bits().len() < usize::MAX,
        ensures
            final(self).wf(),
            final(self).order() == old(self).order(),
            final(self).bits() == old(self).bits() + seq![b],
    {
        let ghost pre = *self;
        let bit: u32 = if b {
            1
        } else {
            0
        };
        match self.order {
            BitOrder::M2L => {
                proof {
                    let c = pre.cur;
                    let f = pre.fill;
                    assert(c < 0x8000_0000u32) by (bit_vector)
                        requires
                            c >> f == 0,
                            f < 32,
                    ;
                    lemma_u32_push_msb(pre.cur, bit);
                }
                self.cur = (self.cur << 1u32) | bit;
            },
            BitOrder::L2M => {
                proof {
                    lemma_u32_push_lsb(pre.cur, bit, pre.fill);
                }
                self.cur = self.cur | (bit << self.fill);
            },
        }
        self.fill = self.fill + 1;
        if self.fill == 32 {
            let ghost mid = *self;
            let w: u32 = self.cur;
            self.words.push(w);
            self.cur = 0;
            self.fill = 0;
            proof {
                assert(0u32 >> 0u32 == 0u32) by (bit_vector);
                assert forall|j: int| 0 <= j < self.bits().len() implies self.bits()[j] == (
                pre.bits() + seq![b])[j] by {
                    let lw = pre.words@.len() as int;
                    if j < lw * 32 {
                        lemma_fundamental_div_mod_converse(j, 32, j / 32, j % 32);
                    } else {
                        lemma_fundamental_div_mod_converse(j, 32, lw, j - lw * 32);
                        assert(self.bits()[j] == word32_stream_bit(self.order, w, j - lw * 32));
                    }
                }
                assert(self.bits() =~= pre.bits() + seq![b]);
            }
        } else {
            proof {
                assert(self.bits() =~= pre.bits() + seq![b]);
            }
        }
    }

    /// Append the `n_bits` low bits of `value` to the stream, in stream
    /// order, and return how many bits were written.
    pub fn write_bits(&mut self, value: u64, n_bits: usize) -> (r: Result<usize, GraphError>)
        requires
            old(self).wf(),
            old(self).bits().len() + n_bits <= usize::MAX,
        ensures
            final(self).wf(),
            final(self).order() == old(self).order(),
            n_bits > 64 ==> r == Err::<usize, GraphError>(GraphError::BadArgument) && *final(self)
                == *old(self),
            n_bits <= 64 ==> r == Ok::<usize, GraphError>(n_bits) && final(self).bits() == old(
                self,
            ).bits() + val_bits(old(self).order(), value, n_bits as nat),
    {
        if n_bits > 64 {
            return Err(GraphError::BadArgument);
        }
        let ghost pre = *self;
        let ghost vb = val_bits(pre.order, value, n_bits as nat);
        let mut k: usize = 0;
        proof {
            assert(pre.bits() + vb.subrange(0, 0) =~= pre.bits());
        }
        while k < n_bits
            invariant
                self.wf(),
                self.order() == pre.order,
                k <= n_bits,
                n_bits <= 64,
                vb == val_bits(pre.order, value, n_bits as nat),
                pre.bits().len() + n_bits <= usize::MAX,
                self.bits() == pre.bits() + vb.subrange(0, k as int),
            decreases n_bits - k,
        {
            let b: bool;
            match self.order {
                BitOrder::M2L => {
                    let sh = (n_bits - 1 - k) as u64;
                    b = ((value >> sh) & 1u64) == 1u64;
                    assert(b == u64_bit(value, ((n_bits as nat - 1 - k as nat)) as u64));
                },
                BitOrder::L2M => {
                    let sh = k as u64;
                    b = ((value >> sh) & 1u64) == 1u64;
                },
            }
            assert(b == vb[k as int]);
            self.push_bit(b);
            k = k + 1;
            proof {
                assert(pre.bits() + vb.subrange(0, k - 1) + seq![vb[k - 1]] =~= pre.bits()
                    + vb.subrange(0, k as int));
            }
        }
        proof {
            assert(vb.subrange(0, n_bits as int) =~= vb);
        }
        Ok(n_bits)
    }

    /// Append a unary code for `value`: that many clear bits, then a set
    /// bit. Returns how many bits were written.
    pub fn write_unary(&mut self, value: u64) -> (r: Result<usize, GraphError>)
        requires
            old(self).wf(),
            old(self).bits().len() + value + 1 <= usize::MAX,
        ensures
            final(self).wf(),
            final(self).order() == old(self).order(),
            r == Ok::<usize, GraphError>((value + 1) as usize),
            final(self).bits() == old(self).bits() + unary_bits(value as nat),
    {
        let ghost pre = *self;
        let ghost ub = unary_bits(value as nat);
        let mut k: u64 = 0;
        proof {
            assert(pre.bits() + ub.subrange(0, 0) =~= pre.bits());
        }
        while k < value
            invariant
                self.wf(),
                self.order() == pre.order,
                k <= value,
                ub == unary_bits(value as nat),
                pre.bits().len() + value + 1 <= usize::MAX,
                self.bits() == pre.bits() + ub.subrange(0, k as int),
            decreases value - k,
        {
            self.push_bit(false);
            k = k + 1;
            proof {
                assert(pre.bits() + ub.subrange(0, k - 1) + seq![ub[k - 1]] =~= pre.bits()
                    + ub.subrange(0, k as int));
            }
        }
        self.push_bit(true);
        proof {
            assert(pre.bits() + ub.subrange(0, value as int) + seq![ub[value as int]] =~= pre.bits()
                + ub);
        }
        Ok((value + 1) as usize)
    }

    /// Zero-pad the stream to the next word boundary, so every written bit
    /// sits in a completed backing word.
    pub fn flush(&mut self)
        requires
            old(self).wf(),
        ensures
            final(self).wf(),
            final(self).order() == old(self).order(),
            final(self).bits().len() % 32 == 0,
            final(self).bits() == old(self).bits() + Seq::new(
                ((32 - (old(self).bits().len() % 32)) % 32) as nat,
                |i: int| false,
            ),
    {
        let ghost pre = *self;
        let ghost lw = pre.words@.len() as int;
        proof {
            lemma_fundamental_div_mod_converse(pre.bits().len() as int, 32, lw, pre.fill as int);
        }
        if self.fill == 0 {
            proof {
                assert(pre.bits() + Seq::new(0, |i: int| false) =~= pre.bits());
            }
            return ;
        }
        let w: u32;
        match self.order {
            BitOrder::M2L => {
                w = self.cur << (32 - self.fill);
            },
            BitOrder::L2M => {
                w = self.cur;
            },
        }
        proof {
            lemma_u32_flush(pre.cur, pre.fill);
        }
        self.words.push(w);
        self.cur = 0;
        self.fill = 0;
        proof {
            assert(0u32 >> 0u32 == 0u32) by (bit_vector);
            let pad = Seq::new(((32 - (pre.bits().len() % 32)) % 32) as nat, |i: int| false);
            assert(pad.len() == 32 - pre.fill);
            assert forall|j: int| 0 <= j < self.bits().len() implies self.bits()[j] == (pre.bits()
                + pad)[j] by {
                if j < lw * 32 {
                    lemma_fundamental_div_mod_converse(j, 32, j / 32, j % 32);
                } else {
                    lemma_fundamental_div_mod_converse(j, 32, lw, j - lw * 32);
                    assert(self.bits()[j] == word32_stream_bit(self.order, w, j - lw * 32));
                }
            }
            assert(self.bits() =~= pre.bits() + pad);
            lemma_fundamental_div_mod_converse(self.bits().len() as int, 32, lw + 1, 0);
        }
    }

    /// Flush and hand out the backing words in one step.
    pub fn into_words_padded(self) -> (r: Vec<u32>)
        requires
            self.wf(),
        ensures
            ({
                let pad = Seq::new(((32 - (self.bits().len() % 32)) % 32) as nat, |i: int| false);
                words32_bits(self.order(), r@) == self.bits() + pad
            }),
    {
        let mut w = self;
        w.flush();
        w.into_words()
    }

    /// Hand out the backing words of a flushed stream.
    pub fn into_words(self) -> (r: Vec<u32>)
        requires
            self.wf(),
            self.bits().len() % 32 == 0,
        ensures
            words32_bits(self.order(), r@) == self.bits(),
            r@.len() * 32 == self.bits().len(),
    {
        proof {
            lemma_fundamental_div_mod_converse(
                self.bits().len() as int,
                32,
                self.words@.len() as int,
                self.fill as int,
            );
            assert(words32_bits(self.order, self.words@) =~= self.bits());
        }
        self.words
    }
}

} // verus!
