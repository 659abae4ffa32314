//! A seekable bit stream over 32-bit backing words that caches unread bits
//! in a 64-bit buffer, parametric in the bit order: `M2L` streams serve each
//! word from its most significant bit down, `L2M` streams from its least
//! significant bit up.

use vstd::prelude::*;

verus! {

use crate::bits::BitOrder;
use crate::bits::first_one_from;
use crate::bits::lemma_first_one_found;
use crate::bits::lemma_first_one_none;
use crate::bits::lemma_first_one_zeros;
use crate::bits::lemma_u64_lsb_val;
use crate::bits::lemma_u64_msb_val;
use crate::bits::stream_val;
use crate::bits::u32_bit;
use crate::bits::u64_bit;
use crate::bits::word32_stream_bit;
use crate::bits::words32_bits;
use crate::utils::GraphError;
use vstd::arithmetic::div_mod::lemma_fundamental_div_mod_converse;

/// Merging a value of at most `s` bits with a second value shifted up by `s`
/// concatenates their bits, and the result is clear above the bits of both.
proof fn lemma_u64_or_shl(low: u64, high: u64, s: u64)
    by (bit_vector)
    requires
        s < 64,
        low >> s == 0,
    ensures
        forall|i: u64| i < s ==> #[trigger] u64_bit(low | (high << s), i) == u64_bit(low, i),
        forall|i: u64|
            s <= i < 64 ==> #[trigger] u64_bit(low | (high << s), i) == u64_bit(
                high,
                (i - s) as u64,
            ),
        forall|t: u64|
            s <= t < 64 && high >> ((t - s) as u64) == 0 ==> #[trigger] ((low | (high << s)) >> t)
                == 0,
{
}

/// Shifting `n` consumed bits out of a least-significant-first buffer moves
/// each remaining bit down by `n` and keeps the region above the still-valid
/// bits clear.
proof fn lemma_u64_shr_bits(buf: u64, n: u64, valid: u64)
    by (bit_vector)
    requires
        1 <= n <= valid,
        n < 64,
        valid <= 64,
        valid < 64 ==> buf >> valid == 0,
    ensures
        forall|i: u64| i < 64 - n ==> #[trigger] u64_bit(buf >> n, i) == u64_bit(buf, (i + n) as u64),
        (buf >> n) >> ((valid - n) as u64) == 0,
{
}

/// Shifting `n` consumed bits out of a most-significant-first buffer moves
/// each remaining bit up by `n` and keeps the region below the still-valid
/// bits clear.
proof fn lemma_u64_shl_bits(buf: u64, n: u64, valid: u64)
    by (bit_vector)
    requires
        1 <= n <= valid,
        n < 64,
        valid <= 64,
        valid < 64 ==> buf << valid == 0,
    ensures
        forall|i: u64|
            i < 64 - n ==> #[trigger] u64_bit(buf << n, (63 - i) as u64) == u64_bit(
                buf,
                (63 - i - n) as u64,
            ),
        (buf << n) << ((valid - n) as u64) == 0,
{
}

/// Taking the `n` most significant bits of the buffer yields a value whose
/// bit `i` is buffer bit `i + 64 - n`, with nothing above the `n` bits.
proof fn lemma_u64_take_high(buf: u64, n: u64)
    by (bit_vector)
    requires
        1 <= n <= 64,
    ensures
        forall|i: u64|
            i < n ==> #[trigger] u64_bit(buf >> ((64 - n) as u64), i) == u64_bit(
                buf,
                (i + 64 - n) as u64,
            ),
        n < 64 ==> (buf >> ((64 - n) as u64)) >> n == 0,
{
}

/// Taking the `n` least significant bits of the buffer through a pair of
/// shifts yields the same low bits, with nothing above them.
proof fn lemma_u64_take_low(buf: u64, n: u64)
    by (bit_vector)
    requires
        1 <= n <= 64,
    ensures
        forall|i: u64|
            i < n ==> #[trigger] u64_bit((buf << ((64 - n) as u64)) >> ((64 - n) as u64), i)
                == u64_bit(buf, i),
        n < 64 ==> ((buf << ((64 - n) as u64)) >> ((64 - n) as u64)) >> n == 0,
{
}

/// Splicing a fresh word below `valid` buffered bits of a
/// most-significant-first buffer: the old bits keep their places, the word's
/// bits follow them in stream order, and the region below stays clear.
proof fn lemma_u64_m2l_refill(buf: u64, w: u32, valid: u64)
    by (bit_vector)
    requires
        valid <= 32,
        buf << valid == 0,
    ensures
        forall|i: u64|
            i < valid ==> #[trigger] u64_bit(buf | ((w as u64) << ((32 - valid) as u64)), (63
                - i) as u64) == u64_bit(buf, (63 - i) as u64),
        forall|i: u64|
            valid <= i < valid + 32 ==> #[trigger] u64_bit(
                buf | ((w as u64) << ((32 - valid) as u64)),
                (63 - i) as u64,
            ) == u32_bit(w, (31 - (i - valid)) as u32),
        valid < 32 ==> (buf | ((w as u64) << ((32 - valid) as u64))) << ((valid + 32) as u64) == 0,
{
}

/// After a seek into the middle of a word of a most-significant-first
/// stream, the unconsumed low bits of the word sit at the top of the buffer.
proof fn lemma_u64_seek_m2l(w: u32, valid: u64)
    by (bit_vector)
    requires
        1 <= valid <= 32,
    ensures
        forall|i: u64|
            i < valid ==> #[trigger] u64_bit((w as u64) << ((64 - valid) as u64), (63 - i) as u64)
                == u32_bit(w, ((valid - 1 - i)) as u32),
        ((w as u64) << ((64 - valid) as u64)) << valid == 0,
{
}

/// After a seek into the middle of a word of a least-significant-first
/// stream, the unconsumed high bits of the word sit at the bottom of the
/// buffer.
proof fn lemma_u64_seek_l2m(w: u32, valid: u64)
    by (bit_vector)
    requires
        1 <= valid <= 32,
    ensures
        forall|i: u64|
            i < valid ==> #[trigger] u64_bit((w as u64) >> ((32 - valid) as u64), i) == u32_bit(
                w,
                ((32 - valid + i)) as u32,
            ),
        ((w as u64) >> ((32 - valid) as u64)) >> valid == 0,
{
}

/// Bit `i` (in stream order) of the valid region of the buffer.
pub open spec fn buf_bit(order: BitOrder, buf: u64, i: int) -> bool {
    match order {
        BitOrder::M2L => u64_bit(buf, (63 - i) as u64),
        BitOrder::L2M => u64_bit(buf, i as u64),
    }
}

/// The buffer region outside the `valid` bits is clear.
pub open spec fn buf_clear(order: BitOrder, buf: u64, valid: u64) -> bool {
    match order {
        BitOrder::M2L => valid < 64 ==> buf << valid == 0,
        BitOrder::L2M => valid < 64 ==> buf >> valid == 0,
    }
}

/// A seekable bit stream that reads 32-bit words from an in-memory backend
/// and serves bit-level reads out of a 64-bit buffer, under a bit order
/// fixed at construction.
#[derive(Clone)]
pub struct BufferedBitStreamRead {
    /// The bit order of the stream.
    order: BitOrder,
    /// The backing words that carry the stream.
    words: Vec<u32>,
    /// Index of the next backing word to fetch.
    word_pos: usize,
    /// The current cache of bits (at most 2 words) that reads are served
    /// from.
    buffer: u64,
    /// Number of valid bits left in the buffer.
    valid_bits: u64,
}

impl BufferedBitStreamRead {
    /// An independent reader over the same stream at the same position:
    /// advancing either afterwards leaves the other untouched.
    pub fn duplicate(&self) -> (r: Self)
        ensures
            r.order() == self.order(),
            r.bits() == self.bits(),
            r.pos() == self.pos(),
            self.wf() ==> r.wf(),
    {
        let mut words: Vec<u32> = Vec::new();
        let mut i: usize = 0;
        while i < self.words.len()
            invariant
                i <= self.words@.len(),
                words@ == self.words@.subrange(0, i as int),
            decreases self.words@.len() - i,
        {
            words.push(self.words[i]);
            proof {
                assert(words@ =~= self.words@.subrange(0, i + 1));
            }
            i = i + 1;
        }
        proof {
            assert(words@ =~= self.words@);
        }
        let r = BufferedBitStreamRead {
            order: self.order,
            words,
            word_pos: self.word_pos,
            buffer: self.buffer,
            valid_bits: self.valid_bits,
        };
        proof {
            assert(r.bits() =~= self.bits());
        }
        r
    }

    /// The bit order of the stream.
    pub closed spec fn order(&self) -> BitOrder {
        self.order
    }

    /// The whole logical bit stream this reader consumes.
    pub closed spec fn bits(&self) -> Seq<bool> {
        words32_bits(self.order, self.words@)
    }

    /// Bit position of the next unread bit.
    pub closed spec fn pos(&self) -> int {
        self.word_pos * 32 - self.valid_bits
    }

    /// The buffered bits agree with the stream at the cursor and the buffer
    /// outside them is clear.
    pub closed spec fn wf(&self) -> bool {
        &&& self.word_pos <= self.words@.len()
        &&& self.words@.len() * 32 <= usize::MAX
        &&& self.valid_bits <= 64
        &&& self.valid_bits <= self.word_pos * 32
        &&& buf_clear(self.order, self.buffer, self.valid_bits)
        &&& forall|i: int|
            0 <= i < self.valid_bits ==> #[trigger] buf_bit(self.order, self.buffer, i)
                == self.bits()[self.pos() + i]
    }

    /// The cursor always lies inside the stream.
    pub proof fn lemma_pos_in_bounds(&self)
        requires
            self.wf(),
        ensures
            0 <= self.pos() <= self.bits().len(),
    {
    }

    /// Create a new reader over a backend of words, positioned on the first
    /// bit.
    pub fn new(order: BitOrder, backend: Vec<u32>) -> (r: Self)
        requires
            backend@.len() * 32 <= usize::MAX,
        ensures
            r.wf(),
            r.order() == order,
            r.pos() == 0,
            r.bits() == words32_bits(order, backend@),
    {
        proof {
            lemma_u64_shift_zero();
        }
        BufferedBitStreamRead { order, words: backend, word_pos: 0, buffer: 0, valid_bits: 0 }
    }

    /// Ensure that the buffer holds at least 32 readable bits, fetching one
    /// backing word if there is room for it.
    fn refill(&mut self) -> (r: Result<(), GraphError>)
        requires
            old(self).wf(),
        ensures
            final(self).wf(),
            final(self).order == old(self).order,
            final(self).words@ == old(self).words@,
            final(self).pos() == old(self).pos(),
            match r {
                Ok(()) => final(self).valid_bits >= 32 && final(self).valid_bits >= old(
                    self,
                ).valid_bits,
                Err(e) => {
                    &&& *final(self) == *old(self)
                    &&& e == GraphError::BackendIo
                    &&& old(self).valid_bits <= 32
                    &&& old(self).word_pos == old(self).words@.len()
                },
            },
    {
        // with more than 32 valid bits there is no space for a new word
        if self.valid_bits > 32 {
            return Ok(());
        }
        if self.word_pos == self.words.len() {
            return Err(GraphError::BackendIo);
        }
        let new_word: u32 = self.words[self.word_pos];
        let ghost pre = *self;
        let ghost s = self.valid_bits as int;
        match self.order {
            BitOrder::M2L => {
                proof {
                    lemma_u64_m2l_refill(self.buffer, new_word, self.valid_bits);
                }
                self.buffer = self.buffer | ((new_word as u64) << (32 - self.valid_bits));
            },
            BitOrder::L2M => {
                proof {
                    lemma_u64_or_shl(self.buffer, new_word as u64, self.valid_bits);
                    assert((new_word as u64) >> 32u64 == 0) by (bit_vector);
                }
                self.buffer = self.buffer | ((new_word as u64) << self.valid_bits);
            },
        }
        self.word_pos = self.word_pos + 1;
        self.valid_bits = self.valid_bits + 32;
        proof {
            assert forall|i: int| 0 <= i < self.valid_bits implies #[trigger] buf_bit(
                self.order,
                self.buffer,
                i,
            ) == self.bits()[self.pos() + i] by {
                if i < s {
                    assert(buf_bit(self.order, self.buffer, i) == buf_bit(pre.order, pre.buffer, i));
                } else {
                    let j = pre.word_pos * 32 + (i - s);
                    lemma_fundamental_div_mod_converse(j, 32, pre.word_pos as int, i - s);
                    assert(buf_bit(self.order, self.buffer, i) == word32_stream_bit(
                        self.order,
                        new_word,
                        i - s,
                    ));
                    assert(self.bits()[j] == word32_stream_bit(
                        self.order,
                        self.words@[pre.word_pos as int],
                        i - s,
                    ));
                }
            }
        }
        Ok(())
    }

    /// Read the next `n_bits` bits of the stream and return them as an
    /// unsigned value composed in stream order.
    #[verifier::loop_isolation(false)]
    pub fn read_bits(&mut self, n_bits: usize) -> (r: Result<u64, GraphError>)
        requires
            old(self).wf(),
        ensures
            final(self).wf(),
            final(self).order() == old(self).order(),
            final(self).bits() == old(self).bits(),
            n_bits > 64 ==> r == Err::<u64, GraphError>(GraphError::BadArgument) && *final(self)
                == *old(self),
            n_bits == 0 ==> r == Ok::<u64, GraphError>(0) && *final(self) == *old(self),
            1 <= n_bits <= 64 ==> {
                if old(self).pos() + n_bits <= old(self).bits().len() {
                    &&& r matches Ok(v) && v as nat == stream_val(
                        old(self).order(),
                        old(self).bits().subrange(old(self).pos(), old(self).pos() + n_bits),
                    )
                    &&& final(self).pos() == old(self).pos() + n_bits
                } else {
                    r == Err::<u64, GraphError>(GraphError::BackendIo)
                }
            },
    {
        if n_bits > 64 {
            return Err(GraphError::BadArgument);
        }
        if n_bits == 0 {
            return Ok(0);
        }
        let n = n_bits as u64;
        if n < self.valid_bits {
            // most common path: the buffer alone serves the read
            let ghost pre = *self;
            let ghost bs = self.bits().subrange(self.pos(), self.pos() + n);
            let result: u64;
            match self.order {
                BitOrder::M2L => {
                    proof {
                        lemma_u64_take_high(self.buffer, n);
                        lemma_u64_shl_bits(self.buffer, n, self.valid_bits);
                    }
                    result = self.buffer >> (64 - n);
                    self.buffer = self.buffer << n;
                    proof {
                        assert forall|i: int| 0 <= i < bs.len() implies bs[i] == u64_bit(
                            result,
                            (bs.len() - 1 - i) as u64,
                        ) by {
                            assert(buf_bit(pre.order, pre.buffer, i) == pre.bits()[pre.pos() + i]);
                            assert(u64_bit(result, (n - 1 - i) as u64) == u64_bit(
                                pre.buffer,
                                (63 - i) as u64,
                            ));
                        }
                        lemma_u64_msb_val(result, bs);
                    }
                },
                BitOrder::L2M => {
                    proof {
                        lemma_u64_take_low(self.buffer, n);
                        lemma_u64_shr_bits(self.buffer, n, self.valid_bits);
                    }
                    let shamt = 64 - n;
                    result = (self.buffer << shamt) >> shamt;
                    self.buffer = self.buffer >> n;
                    proof {
                        assert forall|i: int| 0 <= i < bs.len() implies bs[i] == u64_bit(
                            result,
                            i as u64,
                        ) by {
                            assert(buf_bit(pre.order, pre.buffer, i) == pre.bits()[pre.pos() + i]);
                            assert(u64_bit(result, i as u64) == u64_bit(pre.buffer, i as u64));
                        }
                        lemma_u64_lsb_val(result, bs);
                    }
                },
            }
            self.valid_bits = self.valid_bits - n;
            proof {
                assert forall|i: int| 0 <= i < self.valid_bits implies #[trigger] buf_bit(
                    self.order,
                    self.buffer,
                    i,
                ) == self.bits()[self.pos() + i] by {
                    assert(buf_bit(pre.order, pre.buffer, i + n) == pre.bits()[pre.pos() + n + i]);
                }
            }
            return Ok(result);
        }
        // the buffer alone cannot serve the read: drain it, then read whole
        // words directly, then split a final word
        let ghost pre = *self;
        let mut result: u64 = 0;
        let mut got: u64 = self.valid_bits;
        proof {
            lemma_u64_shift_zero();
            lemma_u32_cast_bits();
        }
        match self.order {
            BitOrder::M2L => {
                if self.valid_bits > 0 {
                    proof {
                        lemma_u64_take_high(self.buffer, self.valid_bits);
                    }
                    result = self.buffer >> (64 - self.valid_bits);
                }
            },
            BitOrder::L2M => {
                result = self.buffer;
            },
        }
        proof {
            assert forall|i: int| 0 <= i < got implies #[trigger] read_run_bit(
                self.order,
                result,
                got as int,
                i,
            ) == pre.bits()[pre.pos() + i] by {
                assert(buf_bit(pre.order, pre.buffer, i) == pre.bits()[pre.pos() + i]);
            }
        }
        self.buffer = 0;
        self.valid_bits = 0;
        while got + 32 <= n
            invariant
                self.wf(),
                self.order == pre.order,
                self.words@ == pre.words@,
                self.valid_bits == 0,
                self.buffer == 0,
                got <= n,
                1 <= n <= 64,
                self.pos() == pre.pos() + got,
                got < 64 ==> result >> got == 0,
                forall|i: int|
                    0 <= i < got ==> #[trigger] read_run_bit(self.order, result, got as int, i)
                        == pre.bits()[pre.pos() + i],
            decreases n - got,
        {
            let w: u32;
            match self.read_word() {
                Ok(v) => {
                    w = v;
                },
                Err(_) => {
                    assert(pre.pos() + n > pre.bits().len());
                    return Err(GraphError::BackendIo);
                },
            }
            let ghost mid_result = result;
            let ghost mid_pos = self.pos() - 32;
            proof {
                lemma_u32_cast_bits();
            }
            match self.order {
                BitOrder::M2L => {
                    proof {
                        lemma_u64_or_shl(w as u64, mid_result, 32);
                    }
                    result = (w as u64) | (result << 32);
                },
                BitOrder::L2M => {
                    proof {
                        lemma_u64_or_shl(mid_result, w as u64, got);
                    }
                    result = result | ((w as u64) << got);
                },
            }
            got = got + 32;
            proof {
                assert forall|i: int| 0 <= i < got implies #[trigger] read_run_bit(
                    self.order,
                    result,
                    got as int,
                    i,
                ) == pre.bits()[pre.pos() + i] by {
                    if i < got - 32 {
                        assert(read_run_bit(self.order, mid_result, got - 32, i) == pre.bits()[
                            pre.pos() + i]);
                    } else {
                        assert(pre.bits()[mid_pos + (i - (got - 32))] == word32_stream_bit(
                            self.order,
                            w,
                            i - (got - 32),
                        ));
                    }
                }
            }
        }
        let ghost bs = pre.bits().subrange(pre.pos(), pre.pos() + n);
        if got == n {
            proof {
                assert forall|i: int| 0 <= i < bs.len() implies bs[i] == read_run_bit(
                    self.order,
                    result,
                    n as int,
                    i,
                ) by {}
                match self.order {
                    BitOrder::M2L => lemma_u64_msb_val(result, bs),
                    BitOrder::L2M => lemma_u64_lsb_val(result, bs),
                }
            }
            return Ok(result);
        }
        // final word: take its leading part, keep the rest buffered
        let rem: u64 = n - got;
        let w: u32;
        match self.read_word() {
            Ok(v) => {
                w = v;
            },
            Err(_) => {
                assert(pre.pos() + n > pre.bits().len());
                return Err(GraphError::BackendIo);
            },
        }
        let ghost mid_result = result;
        let ghost mid_pos = self.pos() - 32;
        let fb: u64;
        proof {
            lemma_u32_cast_bits();
            lemma_u64_shift_zero();
        }
        match self.order {
            BitOrder::M2L => {
                proof {
                    lemma_u64_take_high((w as u64) << 32, rem);
                }
                fb = ((w as u64) << 32) >> (64 - rem);
                proof {
                    lemma_u64_or_shl(fb, mid_result, rem);
                }
                result = fb | (result << rem);
                if rem < 32 {
                    proof {
                        lemma_u64_seek_m2l(w, (32 - rem) as u64);
                    }
                    self.buffer = (w as u64) << (32 + rem);
                } else {
                    self.buffer = 0;
                }
            },
            BitOrder::L2M => {
                proof {
                    lemma_u64_take_low(w as u64, rem);
                }
                let shamt = 64 - rem;
                fb = ((w as u64) << shamt) >> shamt;
                proof {
                    lemma_u64_or_shl(mid_result, fb, got);
                }
                result = result | (fb << got);
                if rem < 32 {
                    proof {
                        lemma_u64_seek_l2m(w, (32 - rem) as u64);
                    }
                    self.buffer = (w as u64) >> rem;
                } else {
                    self.buffer = 0;
                }
            },
        }
        self.valid_bits = 32 - rem;
        proof {
            assert forall|i: int| 0 <= i < bs.len() implies bs[i] == read_run_bit(
                self.order,
                result,
                n as int,
                i,
            ) by {
                if i < got {
                    assert(read_run_bit(self.order, mid_result, got as int, i) == pre.bits()[
                        pre.pos() + i]);
                } else {
                    assert(pre.bits()[mid_pos + (i - got)] == word32_stream_bit(
                        self.order,
                        w,
                        i - got,
                    ));
                }
            }
            match self.order {
                BitOrder::M2L => lemma_u64_msb_val(result, bs),
                BitOrder::L2M => lemma_u64_lsb_val(result, bs),
            }
            assert forall|i: int| 0 <= i < self.valid_bits implies #[trigger] buf_bit(
                self.order,
                self.buffer,
                i,
            ) == self.bits()[self.pos() + i] by {
                assert(pre.bits()[mid_pos + (rem + i)] == word32_stream_bit(
                    self.order,
                    w,
                    rem + i,
                ));
            }
        }
        Ok(result)
    }

    /// The bit position of the cursor, counted from the start of the stream.
    pub fn get_position(&self) -> (r: usize)
        requires
            self.wf(),
        ensures
            r == self.pos(),
    {
        self.word_pos * 32 - (self.valid_bits as usize)
    }

    /// Move the cursor to an absolute bit position, dropping the buffer and
    /// reloading the word the position falls into.
    pub fn seek_bit(&mut self, bit_index: usize) -> (r: Result<(), GraphError>)
        requires
            old(self).wf(),
            bit_index <= old(self).bits().len(),
        ensures
            final(self).wf(),
            final(self).order() == old(self).order(),
            final(self).bits() == old(self).bits(),
            r == Ok::<(), GraphError>(()),
            final(self).pos() == bit_index,
    {
        let word_index = bit_index / 32;
        let bit_offset = bit_index % 32;
        proof {
            lemma_u64_shift_zero();
            assert(word_index * 32 + bit_offset == bit_index) by (nonlinear_arith)
                requires
                    word_index == bit_index / 32,
                    bit_offset == bit_index % 32,
            ;
        }
        self.word_pos = word_index;
        self.buffer = 0;
        self.valid_bits = 0;
        if bit_offset != 0 {
            assert(word_index < self.words@.len());
            let w: u32 = self.words[self.word_pos];
            self.word_pos = self.word_pos + 1;
            self.valid_bits = (32 - bit_offset) as u64;
            match self.order {
                BitOrder::M2L => {
                    proof {
                        lemma_u64_seek_m2l(w, self.valid_bits);
                    }
                    self.buffer = (w as u64) << (64 - self.valid_bits);
                },
                BitOrder::L2M => {
                    proof {
                        lemma_u64_seek_l2m(w, self.valid_bits);
                    }
                    self.buffer = (w as u64) >> (32 - self.valid_bits);
                },
            }
            proof {
                assert forall|i: int| 0 <= i < self.valid_bits implies #[trigger] buf_bit(
                    self.order,
                    self.buffer,
                    i,
                ) == self.bits()[self.pos() + i] by {
                    let j = word_index * 32 + bit_offset + i;
                    lemma_fundamental_div_mod_converse(j, 32, word_index as int, bit_offset + i);
                    assert(self.bits()[j] == word32_stream_bit(self.order, w, bit_offset + i));
                }
            }
        }
        Ok(())
    }

    /// Advance the cursor by `n_bits` without handing the bits out.
    #[verifier::loop_isolation(false)]
    pub fn skip_bits(&mut self, n_bits: usize) -> (r: Result<(), GraphError>)
        requires
            old(self).wf(),
        ensures
            final(self).wf(),
            final(self).order() == old(self).order(),
            final(self).bits() == old(self).bits(),
            old(self).pos() + n_bits <= old(self).bits().len() ==> r == Ok::<(), GraphError>(())
                && final(self).pos() == old(self).pos() + n_bits,
            old(self).pos() + n_bits > old(self).bits().len() ==> r == Err::<(), GraphError>(
                GraphError::BackendIo,
            ),
    {
        let ghost pre = *self;
        if n_bits == 0 {
            return Ok(());
        }
        // happy case: the buffer covers the whole skip
        if (n_bits as u64) < self.valid_bits {
            let n = n_bits as u64;
            match self.order {
                BitOrder::M2L => {
                    proof {
                        lemma_u64_shl_bits(self.buffer, n, self.valid_bits);
                    }
                    self.buffer = self.buffer << n;
                },
                BitOrder::L2M => {
                    proof {
                        lemma_u64_shr_bits(self.buffer, n, self.valid_bits);
                    }
                    self.buffer = self.buffer >> n;
                },
            }
            self.valid_bits = self.valid_bits - n;
            proof {
                assert forall|i: int| 0 <= i < self.valid_bits implies #[trigger] buf_bit(
                    self.order,
                    self.buffer,
                    i,
                ) == self.bits()[self.pos() + i] by {
                    assert(buf_bit(pre.order, pre.buffer, i + n) == pre.bits()[pre.pos() + n + i]);
                }
            }
            return Ok(());
        }
        if (n_bits as u64) == self.valid_bits {
            self.buffer = 0;
            self.valid_bits = 0;
            proof {
                lemma_u64_shift_zero();
            }
            return Ok(());
        }
        // clean the buffer, then skip whole words, then consume the rest of
        // a freshly loaded word
        let mut n: usize = n_bits - (self.valid_bits as usize);
        self.buffer = 0;
        self.valid_bits = 0;
        proof {
            lemma_u64_shift_zero();
        }
        while n > 32
            invariant
                self.wf(),
                self.order == pre.order,
                self.words@ == pre.words@,
                self.valid_bits == 0,
                self.buffer == 0,
                1 <= n,
                self.pos() + n == pre.pos() + n_bits,
            decreases n,
        {
            match self.read_word() {
                Ok(_) => (),
                Err(_) => {
                    return Err(GraphError::BackendIo);
                },
            }
            n = n - 32;
        }
        match self.refill() {
            Ok(()) => (),
            Err(_) => {
                return Err(GraphError::BackendIo);
            },
        }
        let ghost mid = *self;
        let nn = n as u64;
        match self.order {
            BitOrder::M2L => {
                proof {
                    lemma_u64_shl_bits(self.buffer, nn, self.valid_bits);
                }
                self.buffer = self.buffer << nn;
            },
            BitOrder::L2M => {
                proof {
                    lemma_u64_shr_bits(self.buffer, nn, self.valid_bits);
                }
                self.buffer = self.buffer >> nn;
            },
        }
        self.valid_bits = self.valid_bits - nn;
        proof {
            assert forall|i: int| 0 <= i < self.valid_bits implies #[trigger] buf_bit(
                self.order,
                self.buffer,
                i,
            ) == self.bits()[self.pos() + i] by {
                assert(buf_bit(mid.order, mid.buffer, i + nn) == mid.bits()[mid.pos() + nn + i]);
            }
        }
        Ok(())
    }

    /// Return the next `n_bits` bits of the stream as a value composed in
    /// stream order, without consuming them.
    pub fn peek_bits(&mut self, n_bits: usize) -> (r: Result<u32, GraphError>)
        requires
            old(self).wf(),
        ensures
            final(self).wf(),
            final(self).order() == old(self).order(),
            final(self).bits() == old(self).bits(),
            final(self).pos() == old(self).pos(),
            n_bits > 32 ==> r == Err::<u32, GraphError>(GraphError::BadArgument) && *final(self)
                == *old(self),
            n_bits == 0 ==> r == Ok::<u32, GraphError>(0) && *final(self) == *old(self),
            1 <= n_bits <= 32 ==> {
                if old(self).pos() + n_bits <= old(self).bits().len() {
                    r matches Ok(v) && v as nat == stream_val(
                        old(self).order(),
                        old(self).bits().subrange(old(self).pos(), old(self).pos() + n_bits),
                    )
                } else {
                    r == Err::<u32, GraphError>(GraphError::BackendIo)
                }
            },
    {
        if n_bits > 32 {
            return Err(GraphError::BadArgument);
        }
        if n_bits == 0 {
            return Ok(0);
        }
        let n = n_bits as u64;
        // a peek can do at most one refill, otherwise it would lose data
        if n > self.valid_bits {
            match self.refill() {
                Ok(()) => (),
                Err(_) => {
                    return Err(GraphError::BackendIo);
                },
            }
        }
        let ghost cur = *self;
        let ghost bs = self.bits().subrange(self.pos(), self.pos() + n);
        let wide: u64;
        match self.order {
            BitOrder::M2L => {
                proof {
                    lemma_u64_take_high(self.buffer, n);
                }
                wide = self.buffer >> (64 - n);
                proof {
                    assert forall|i: int| 0 <= i < bs.len() implies bs[i] == u64_bit(
                        wide,
                        (bs.len() - 1 - i) as u64,
                    ) by {
                        assert(buf_bit(cur.order, cur.buffer, i) == cur.bits()[cur.pos() + i]);
                        assert(u64_bit(wide, (n - 1 - i) as u64) == u64_bit(
                            cur.buffer,
                            (63 - i) as u64,
                        ));
                    }
                    lemma_u64_msb_val(wide, bs);
                }
            },
            BitOrder::L2M => {
                proof {
                    lemma_u64_take_low(self.buffer, n);
                }
                let shamt = 64 - n;
                wide = (self.buffer << shamt) >> shamt;
                proof {
                    assert forall|i: int| 0 <= i < bs.len() implies bs[i] == u64_bit(
                        wide,
                        i as u64,
                    ) by {
                        assert(buf_bit(cur.order, cur.buffer, i) == cur.bits()[cur.pos() + i]);
                        assert(u64_bit(wide, i as u64) == u64_bit(cur.buffer, i as u64));
                    }
                    lemma_u64_lsb_val(wide, bs);
                }
            },
        }
        proof {
            assert(wide <= 0xffff_ffffu64) by (bit_vector)
                requires
                    wide >> n == 0 || n == 64,
                    1 <= n <= 32,
            ;
        }
        Ok(wide as u32)
    }

    /// Read a unary code: the count of clear bits before the next set bit,
    /// which is consumed as well.
    #[verifier::loop_isolation(false)]
    pub fn read_unary(&mut self) -> (r: Result<u64, GraphError>)
        requires
            old(self).wf(),
        ensures
            final(self).wf(),
            final(self).order() == old(self).order(),
            final(self).bits() == old(self).bits(),
            match first_one_from(old(self).bits(), old(self).pos()) {
                Some(k) => r == Ok::<u64, GraphError>(k as u64) && k <= u64::MAX
                    && final(self).pos() == old(self).pos() + k + 1,
                None => r == Err::<u64, GraphError>(GraphError::BackendIo),
            },
    {
        let ghost bs = self.bits();
        let ghost pos0 = self.pos();
        let mut result: u64 = 0;
        loop
            invariant
                self.wf(),
                self.order == old(self).order,
                self.bits() == bs,
                pos0 + result == self.pos(),
                0 <= pos0,
                forall|j: int| pos0 <= j < self.pos() ==> !bs[j],
            decreases self.words@.len() - self.word_pos,
        {
            let zeros: u64;
            match self.order {
                BitOrder::M2L => {
                    proof {
                        vstd::std_specs::bits::axiom_u64_leading_zeros(self.buffer);
                        assert(forall|v: u64|
                            ((#[trigger] (v & 1u64)) == 0u64) || ((v & 1u64) == 1u64))
                            by (bit_vector);
                    }
                    zeros = self.buffer.leading_zeros() as u64;
                },
                BitOrder::L2M => {
                    proof {
                        vstd::std_specs::bits::axiom_u64_trailing_zeros(self.buffer);
                    }
                    zeros = self.buffer.trailing_zeros() as u64;
                },
            }
            if zeros < self.valid_bits {
                let ghost pre = *self;
                proof {
                    assert forall|j: int| self.pos() <= j < self.pos() + zeros implies !bs[j] by {
                        let i = j - self.pos();
                        assert(!buf_bit(pre.order, pre.buffer, i));
                        assert(buf_bit(pre.order, pre.buffer, i) == bs[j]);
                    }
                    assert(buf_bit(pre.order, pre.buffer, zeros as int));
                    assert(bs[pre.pos() + zeros]);
                    lemma_first_one_found(bs, pre.pos(), zeros as int);
                    lemma_first_one_zeros(bs, pos0, pre.pos() - pos0);
                }
                result = result + zeros;
                self.valid_bits = self.valid_bits - (zeros + 1);
                if zeros >= 63 {
                    self.buffer = 0;
                    proof {
                        lemma_u64_shift_zero();
                    }
                } else {
                    let ghost nshift = (zeros + 1) as u64;
                    match self.order {
                        BitOrder::M2L => {
                            proof {
                                lemma_u64_shl_bits(pre.buffer, nshift, pre.valid_bits);
                            }
                            self.buffer = self.buffer << (zeros + 1);
                        },
                        BitOrder::L2M => {
                            proof {
                                lemma_u64_shr_bits(pre.buffer, nshift, pre.valid_bits);
                            }
                            self.buffer = self.buffer >> (zeros + 1);
                        },
                    }
                    proof {
                        assert forall|i: int| 0 <= i < self.valid_bits implies #[trigger] buf_bit(
                            self.order,
                            self.buffer,
                            i,
                        ) == self.bits()[self.pos() + i] by {
                            assert(buf_bit(pre.order, pre.buffer, i + nshift) == pre.bits()[
                                pre.pos() + nshift + i]);
                        }
                    }
                }
                return Ok(result);
            }
            let ghost pre = *self;
            proof {
                assert forall|j: int| self.pos() <= j < self.pos() + self.valid_bits implies !bs[j]
                by {
                    let i = j - self.pos();
                    assert(!buf_bit(pre.order, pre.buffer, i));
                    assert(buf_bit(pre.order, pre.buffer, i) == bs[j]);
                }
            }
            result = result + self.valid_bits;
            self.valid_bits = 0;
            self.buffer = 0;
            proof {
                lemma_u64_shift_zero();
            }
            match self.refill() {
                Ok(()) => (),
                Err(e) => {
                    proof {
                        lemma_first_one_none(bs, self.pos());
                        lemma_first_one_zeros(bs, pos0, self.pos() - pos0);
                    }
                    return Err(e);
                },
            }
        }
    }

    /// Read one whole backing word directly, bypassing the (empty) buffer.
    fn read_word(&mut self) -> (r: Result<u32, GraphError>)
        requires
            old(self).wf(),
            old(self).valid_bits == 0,
            old(self).buffer == 0,
        ensures
            final(self).wf(),
            final(self).order == old(self).order,
            final(self).words@ == old(self).words@,
            final(self).valid_bits == 0,
            final(self).buffer == 0,
            match r {
                Ok(w) => {
                    &&& final(self).pos() == old(self).pos() + 32
                    &&& forall|i: int|
                        0 <= i < 32 ==> old(self).bits()[old(self).pos() + i]
                            == word32_stream_bit(old(self).order, w, i)
                },
                Err(e) => {
                    &&& *final(self) == *old(self)
                    &&& e == GraphError::BackendIo
                    &&& old(self).pos() == old(self).bits().len()
                },
            },
    {
        if self.word_pos == self.words.len() {
            return Err(GraphError::BackendIo);
        }
        let w: u32 = self.words[self.word_pos];
        let ghost pre = *self;
        self.word_pos = self.word_pos + 1;
        proof {
            assert forall|i: int| 0 <= i < 32 implies pre.bits()[pre.pos() + i]
                == word32_stream_bit(pre.order, w, i) by {
                let j = pre.word_pos * 32 + i;
                lemma_fundamental_div_mod_converse(j, 32, pre.word_pos as int, i);
            }
        }
        Ok(w)
    }
}

/// Bits survive the cast from a 32-bit word into a 64-bit one, in the low
/// half directly and in the high half after a shift.
proof fn lemma_u32_cast_bits()
    by (bit_vector)
    ensures
        forall|w: u32, i: u64| i < 32 ==> #[trigger] u64_bit(w as u64, i) == u32_bit(w, i as u32),
        forall|w: u32| #[trigger] ((w as u64) >> 32u64) == 0,
        forall|w: u32, i: u64|
            32 <= i < 64 ==> #[trigger] u64_bit((w as u64) << 32u64, i) == u32_bit(
                w,
                (i - 32) as u32,
            ),
{
}

/// A cleared buffer stays clear under any shift, in both directions.
proof fn lemma_u64_shift_zero()
    by (bit_vector)
    ensures
        forall|s: u64| s < 64 ==> #[trigger] (0u64 >> s) == 0u64,
        forall|s: u64| s < 64 ==> #[trigger] (0u64 << s) == 0u64,
{
}

/// Bit `i` (in stream order) of a partial read result holding `got` bits.
pub open spec fn read_run_bit(order: BitOrder, result: u64, got: int, i: int) -> bool {
    match order {
        BitOrder::M2L => u64_bit(result, (got - 1 - i) as u64),
        BitOrder::L2M => u64_bit(result, i as u64),
    }
}

} // verus!
