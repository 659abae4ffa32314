//! A bit stream over 64-bit backing words that caches unread bits in a
//! double-word buffer and hands them out least-significant bit first.

use vstd::prelude::*;

verus! {

use crate::bits::first_one_from;
use crate::bits::lemma_first_one_found;
use crate::bits::lemma_first_one_none;
use crate::bits::lemma_first_one_zeros;
use crate::bits::lemma_u64_lsb_val;
use crate::bits::lsb_val;
use crate::bits::u128_bit;
use crate::bits::u64_bit;
use crate::bits::words64_bits;
use crate::utils::GraphError;
use vstd::arithmetic::div_mod::lemma_fundamental_div_mod_converse;

/// Relies on `u128::trailing_zeros` of std: it returns the number of
/// consecutive clear bits at the least significant end of its argument.
pub assume_specification[ u128::trailing_zeros ](i: u128) -> (r: u32)
    ensures
        r <= 128,
        (r == 128) <==> (i == 0),
        r < 128 ==> (i >> (r as u128)) & 1u128 == 1u128,
        forall|j: u128| j < r ==> (i >> j) & 1u128 == 0u128,
;

/// Splicing a fresh word above `s` buffered bits leaves the low bits alone,
/// places the word's bits right after them, and keeps everything above clear.
proof fn lemma_u128_or_shl(buf: u128, w: u64, s: u64)
    by (bit_vector)
    requires
        s <= 64,
        buf >> (s as u128) == 0,
    ensures
        forall|i: u128|
            i < s ==> #[trigger] u128_bit(buf | ((w as u128) << (s as u128)), i) == u128_bit(buf, i),
        forall|i: u128|
            s <= i < s + 64 ==> #[trigger] u128_bit(buf | ((w as u128) << (s as u128)), i) == u64_bit(
                w,
                (i - s) as u64,
            ),
        s < 64 ==> (buf | ((w as u128) << (s as u128))) >> ((s + 64) as u128) == 0,
{
}

/// The low `n` bits of the buffer, taken through a mask, are the buffer's
/// bits, and nothing above them survives the mask.
proof fn lemma_u128_mask(buf: u128, n: u64)
    by (bit_vector)
    requires
        1 <= n <= 64,
    ensures
        forall|i: u64|
            i < n ==> #[trigger] u64_bit((buf as u64) & (u64::MAX >> ((64 - n) as u64)), i) == u128_bit(
                buf,
                i as u128,
            ),
        n < 64 ==> ((buf as u64) & (u64::MAX >> ((64 - n) as u64))) >> n == 0,
{
}

/// Shifting `n` consumed bits out of the buffer moves each remaining bit
/// down by `n`.
#[verifier::rlimit(100)]
proof fn lemma_u128_shr_bits(buf: u128, n: u64)
    by (bit_vector)
    requires
        1 <= n < 128,
    ensures
        forall|i: u128|
            i < 128 - n ==> #[trigger] u128_bit(buf >> (n as u128), i) == u128_bit(buf, (i + n) as u128),
{
}

/// Shifting out consumed bits keeps the region above the still-valid bits
/// clear.
#[verifier::rlimit(100)]
proof fn lemma_u128_shr_zero(buf: u128, n: u64, valid: u64)
    by (bit_vector)
    requires
        1 <= n <= valid,
        n < 128,
        valid <= 128,
        valid < 128 ==> buf >> (valid as u128) == 0,
    ensures
        (buf >> (n as u128)) >> ((valid - n) as u128) == 0,
{
}

/// A cleared buffer stays clear under any shift.
proof fn lemma_u128_zero_shr()
    by (bit_vector)
    ensures
        forall|s: u128| s < 128 ==> #[trigger] (0u128 >> s) == 0u128,
{
}

/// A bit stream that reads 64-bit words from an in-memory backend and serves
/// bit-level reads out of a 128-bit buffer, least-significant bit first.
pub struct BufferedBitStreamReader {
    /// The backing words that carry the stream.
    words: Vec<u64>,
    /// Index of the next backing word to fetch.
    word_pos: usize,
    /// The current cache of bits (at most 2 words) that reads are served
    /// from.
    buffer: u128,
    /// Number of valid bits left in the buffer.
    valid_bits: u64,
}

impl BufferedBitStreamReader {
    /// The whole logical bit stream this reader consumes.
    pub closed spec fn bits(&self) -> Seq<bool> {
        words64_bits(self.words@)
    }

    /// Bit position of the next unread bit.
    pub closed spec fn pos(&self) -> int {
        self.word_pos * 64 - self.valid_bits
    }

    /// The buffered bits agree with the stream at the cursor and the region
    /// above them is clear.
    pub closed spec fn wf(&self) -> bool {
        &&& self.word_pos <= self.words@.len()
        &&& self.words@.len() * 64 <= u64::MAX
        &&& self.valid_bits <= 128
        &&& self.valid_bits <= self.word_pos * 64
        &&& (self.valid_bits < 128 ==> self.buffer >> (self.valid_bits as u128) == 0)
        &&& forall|i: int|
            0 <= i < self.valid_bits ==> #[trigger] u128_bit(self.buffer, i as u128)
                == self.bits()[self.pos() + i]
    }

    /// The cursor always lies inside the stream.
    pub proof fn lemma_pos_in_bounds(&self)
        requires
            self.wf(),
        ensures
            0 <= self.pos() <= self.bits().len(),
    {
    }

    /// Create a new reader over a backend of words, positioned on the first
    /// bit.
    pub fn new(backend: Vec<u64>) -> (r: Self)
        requires
            backend@.len() * 64 <= u64::MAX,
        ensures
            r.wf(),
            r.pos() == 0,
            r.bits() == words64_bits(backend@),
    {
        proof {
            lemma_u128_zero_shr();
        }
        BufferedBitStreamReader { words: backend, word_pos: 0, buffer: 0, valid_bits: 0 }
    }

    /// Ensure that the buffer holds at least 64 readable bits, fetching one
    /// backing word if there is room for it.
    fn refill(&mut self) -> (r: Result<(), GraphError>)
        requires
            old(self).wf(),
        ensures
            final(self).wf(),
            final(self).words@ == old(self).words@,
            final(self).pos() == old(self).pos(),
            match r {
                Ok(()) => final(self).valid_bits >= 64 && final(self).valid_bits >= old(
                    self,
                ).valid_bits,
                Err(e) => {
                    &&& *final(self) == *old(self)
                    &&& e == GraphError::BackendIo
                    &&& old(self).valid_bits <= 64
                    &&& old(self).word_pos == old(self).words@.len()
                },
            },
    {
        // with more than 64 valid bits there is no space for a new word
        if self.valid_bits > 64 {
            return Ok(());
        }
        if self.word_pos == self.words.len() {
            return Err(GraphError::BackendIo);
        }
        let new_word: u64 = self.words[self.word_pos];
        let ghost old_self = *self;
        let ghost s = self.valid_bits;
        proof {
            lemma_u128_or_shl(self.buffer, new_word, self.valid_bits);
        }
        self.buffer = self.buffer | ((new_word as u128) << (self.valid_bits as u128));
        self.word_pos = self.word_pos + 1;
        self.valid_bits = self.valid_bits + 64;
        proof {
            assert forall|i: int| 0 <= i < self.valid_bits implies #[trigger] u128_bit(
                self.buffer,
                i as u128,
            ) == self.bits()[self.pos() + i] by {
                if i < s {
                    assert(u128_bit(self.buffer, i as u128) == u128_bit(old_self.buffer, i as u128));
                } else {
                    let j = old_self.word_pos * 64 + (i - s);
                    lemma_fundamental_div_mod_converse(j, 64, old_self.word_pos as int, i - s);
                    assert(u128_bit(self.buffer, i as u128) == u64_bit(new_word, (i - s) as u64));
                    assert(self.bits()[j] == u64_bit(
                        self.words@[old_self.word_pos as int],
                        (i - s) as u64,
                    ));
                }
            }
        }
        Ok(())
    }

    /// Read the next `n_bits` bits of the stream and return them in the low
    /// bits of the result, first bit read in the least significant position.
    pub fn read_bits(&mut self, n_bits: u64) -> (r: Result<u64, GraphError>)
        requires
            old(self).wf(),
            1 <= n_bits <= 64,
        ensures
            final(self).wf(),
            final(self).bits() == old(self).bits(),
            old(self).pos() + n_bits <= old(self).bits().len() ==> {
                &&& r matches Ok(v) && v as nat == lsb_val(
                    old(self).bits().subrange(old(self).pos(), old(self).pos() + n_bits),
                )
                &&& final(self).pos() == old(self).pos() + n_bits
            },
            old(self).pos() + n_bits > old(self).bits().len() ==> r == Err::<
                u64,
                GraphError,
            >(GraphError::BackendIo) && *final(self) == *old(self),
    {
        if n_bits > self.valid_bits {
            match self.refill() {
                Ok(()) => (),
                Err(e) => {
                    return Err(e);
                },
            }
        }
        let ghost pre = *self;
        // this is equivalent to `(1 << n_bits) - 1` but it does not overflow
        // for n_bits = 64
        let mask: u64 = u64::MAX >> (64 - n_bits);
        let result: u64 = (self.buffer as u64) & mask;
        proof {
            lemma_u128_mask(self.buffer, n_bits);
            lemma_u128_shr_bits(self.buffer, n_bits);
            lemma_u128_shr_zero(self.buffer, n_bits, self.valid_bits);
        }
        self.valid_bits = self.valid_bits - n_bits;
        self.buffer = self.buffer >> (n_bits as u128);
        proof {
            let bs = pre.bits().subrange(pre.pos(), pre.pos() + n_bits);
            assert forall|i: int| 0 <= i < bs.len() implies bs[i] == u64_bit(result, i as u64) by {
                assert(u128_bit(pre.buffer, i as u128) == pre.bits()[pre.pos() + i]);
            }
            lemma_u64_lsb_val(result, bs);
            assert forall|i: int| 0 <= i < self.valid_bits implies #[trigger] u128_bit(
                self.buffer,
                i as u128,
            ) == self.bits()[self.pos() + i] by {
                assert(u128_bit(self.buffer, i as u128) == u128_bit(
                    pre.buffer,
                    (i + n_bits) as u128,
                ));
            }
        }
        Ok(result)
    }

    /// Read a unary code: the count of clear bits before the next set bit,
    /// which is consumed as well.
    #[verifier::loop_isolation(false)]
    pub fn read_unary(&mut self) -> (r: Result<u64, GraphError>)
        requires
            old(self).wf(),
        ensures
            final(self).wf(),
            final(self).bits() == old(self).bits(),
            match first_one_from(old(self).bits(), old(self).pos()) {
                Some(k) => r == Ok::<u64, GraphError>(k as u64) && k <= u64::MAX
                    && final(self).pos() == old(self).pos() + k + 1,
                None => r == Err::<u64, GraphError>(GraphError::BackendIo),
            },
    {
        let ghost bs = self.bits();
        let ghost pos0 = self.pos();
        let mut result: u64 = 0;
        loop
            invariant
                self.wf(),
                self.bits() == bs,
                pos0 + result == self.pos(),
                0 <= pos0,
                forall|j: int| pos0 <= j < self.pos() ==> !bs[j],
            decreases self.words@.len() - self.word_pos,
        {
            let zeros: u64 = self.buffer.trailing_zeros() as u64;
            if zeros < self.valid_bits {
                let ghost pre = *self;
                proof {
                    assert forall|j: int| self.pos() <= j < self.pos() + zeros implies !bs[j] by {
                        let i = j - self.pos();
                        assert((pre.buffer >> (i as u128)) & 1u128 == 0u128);
                        assert(!u128_bit(pre.buffer, i as u128));
                    }
                    assert(u128_bit(pre.buffer, zeros as u128));
                    assert(bs[pre.pos() + zeros]);
                    lemma_first_one_found(bs, pre.pos(), zeros as int);
                    lemma_first_one_zeros(bs, pos0, pre.pos() - pos0);
                }
                result = result + zeros;
                self.valid_bits = self.valid_bits - (zeros + 1);
                if zeros >= 127 {
                    self.buffer = 0;
                    proof {
                        lemma_u128_zero_shr();
                    }
                } else {
                    proof {
                        lemma_u128_shr_bits(pre.buffer, (zeros + 1) as u64);
                        lemma_u128_shr_zero(pre.buffer, (zeros + 1) as u64, pre.valid_bits);
                    }
                    self.buffer = self.buffer >> ((zeros + 1) as u128);
                    proof {
                        assert forall|i: int| 0 <= i < self.valid_bits implies #[trigger] u128_bit(
                            self.buffer,
                            i as u128,
                        ) == self.bits()[self.pos() + i] by {
                            assert(u128_bit(self.buffer, i as u128) == u128_bit(
                                pre.buffer,
                                (i + zeros + 1) as u128,
                            ));
                        }
                    }
                }
                return Ok(result);
            }
            let ghost pre = *self;
            proof {
                assert forall|j: int| self.pos() <= j < self.pos() + self.valid_bits implies !bs[j]
                by {
                    let i = j - self.pos();
                    assert((pre.buffer >> (i as u128)) & 1u128 == 0u128);
                    assert(!u128_bit(pre.buffer, i as u128));
                }
            }
            result = result + self.valid_bits;
            self.valid_bits = 0;
            self.buffer = 0;
            proof {
                lemma_u128_zero_shr();
            }
            match self.refill() {
                Ok(()) => (),
                Err(e) => {
                    proof {
                        lemma_first_one_none(bs, self.pos());
                        lemma_first_one_zeros(bs, pos0, self.pos() - pos0);
                    }
                    return Err(e);
                },
            }
        }
    }
}

} // verus!
