//! The compression parameters of a graph file: which code each record field
//! uses, the reference window, and the interval threshold.

use vstd::prelude::*;

verus! {

use crate::bit_reader::BufferedBitStreamRead;
use crate::bit_writer::BufferedBitStreamWrite;
use crate::bits::BitOrder;
use crate::bits::unary_bits;
use crate::codes::delta_bits;
use crate::codes::floor_log2;
use crate::codes::gamma_bits;
use crate::codes::lemma_delta_round_trip;
use crate::codes::lemma_gamma_round_trip;
use crate::codes::lemma_unary_round_trip;
use crate::codes::lemma_zeta_round_trip;
use crate::codes::spec_read_delta;
use crate::codes::spec_read_gamma;
use crate::codes::spec_read_unary;
use crate::codes::spec_read_zeta;
use crate::codes::zeta_bits;
use crate::utils::GraphError;
use vstd::arithmetic::power2::pow2;

/// One of the instantaneous codes a record field can use.
#[derive(Clone, Copy, PartialEq, Eq, Structural, Debug)]
pub enum Code {
    /// A run of clear bits, then a set bit.
    Unary,
    /// The γ code.
    Gamma,
    /// The δ code.
    Delta,
    /// The ζ code with the given shrinking factor.
    Zeta { k: u64 },
}

impl Code {
    /// The code can be used: a ζ code needs a factor the decoder accepts.
    pub open spec fn ok(self) -> bool {
        match self {
            Code::Zeta { k } => 1 <= k <= 63,
            _ => true,
        }
    }

    /// `x` is small enough for an exact round trip under this code.
    pub open spec fn writable(self, x: nat) -> bool {
        match self {
            Code::Unary => x < pow2(62),
            Code::Gamma => x < pow2(62),
            Code::Delta => x < pow2(62),
            Code::Zeta { k } => floor_log2(x + 1) + k <= 63 && x < pow2(62),
        }
    }
}

/// The bits of `x` under the chosen code.
#[verifier::opaque]
pub open spec fn code_bits(order: BitOrder, c: Code, x: nat) -> Seq<bool> {
    match c {
        Code::Unary => unary_bits(x),
        Code::Gamma => gamma_bits(order, x),
        Code::Delta => delta_bits(order, x),
        Code::Zeta { k } => zeta_bits(order, k as nat, x),
    }
}

/// Decoding one value under the chosen code.
#[verifier::opaque]
pub open spec fn spec_read_code(order: BitOrder, c: Code, bs: Seq<bool>, pos: int) -> Option<
    (nat, int),
> {
    match c {
        Code::Unary => spec_read_unary(bs, pos),
        Code::Gamma => spec_read_gamma(order, bs, pos),
        Code::Delta => spec_read_delta(order, bs, pos),
        Code::Zeta { k } => spec_read_zeta(order, bs, pos, k as nat),
    }
}

/// Reading a code right after writing one returns the written value,
/// whichever code the field uses.
pub proof fn lemma_code_round_trip(
    order: BitOrder,
    c: Code,
    prefix: Seq<bool>,
    x: nat,
    rest: Seq<bool>,
)
    requires
        c.ok(),
        c.writable(x),
    ensures
        spec_read_code(order, c, prefix + code_bits(order, c, x) + rest, prefix.len() as int)
            == Some((x, (prefix.len() + code_bits(order, c, x).len()) as int)),
{
    reveal(code_bits);
    reveal(spec_read_code);
    vstd::arithmetic::power2::lemma_pow2_strictly_increases(62, 63);
    match c {
        Code::Unary => {
            lemma_unary_round_trip(prefix, x, rest);
        },
        Code::Gamma => {
            lemma_gamma_round_trip(order, prefix, x, rest);
        },
        Code::Delta => {
            lemma_delta_round_trip(order, prefix, x, rest);
        },
        Code::Zeta { k } => {
            lemma_zeta_round_trip(order, k as nat, prefix, x, rest);
        },
    }
}

/// The compression parameters of a graph file.
#[derive(Clone, Copy, PartialEq, Eq, Structural, Debug)]
pub struct CompFlags {
    /// The code of the outdegrees.
    pub outdegrees: Code,
    /// The code of the reference offsets.
    pub references: Code,
    /// The code of the block counts and block lengths.
    pub blocks: Code,
    /// The code of the interval counts, starts and lengths.
    pub intervals: Code,
    /// The code of the residual gaps.
    pub residuals: Code,
    /// How many earlier nodes a record may copy from.
    pub compression_window: usize,
    /// The longest allowed chain of references.
    pub max_ref_count: usize,
    /// The shortest run of consecutive successors written as an interval.
    pub min_interval_length: usize,
}

impl CompFlags {
    /// Every field code is usable and the interval threshold is meaningful.
    pub open spec fn ok(self) -> bool {
        &&& self.outdegrees.ok()
        &&& self.references.ok()
        &&& self.blocks.ok()
        &&& self.intervals.ok()
        &&& self.residuals.ok()
        &&& self.min_interval_length >= 2
    }

    /// The default parameters: γ outdegrees, unary references, γ blocks and
    /// intervals, ζ_3 residuals, a window of 7, chains up to 3, intervals
    /// from 4.
    pub fn standard() -> (r: Self)
        ensures
            r.ok(),
            r == (CompFlags {
                outdegrees: Code::Gamma,
                references: Code::Unary,
                blocks: Code::Gamma,
                intervals: Code::Gamma,
                residuals: (Code::Zeta { k: 3 }),
                compression_window: 7usize,
                max_ref_count: 3usize,
                min_interval_length: 4usize,
            }),
    {
        CompFlags {
            outdegrees: Code::Gamma,
            references: Code::Unary,
            blocks: Code::Gamma,
            intervals: Code::Gamma,
            residuals: Code::Zeta { k: 3 },
            compression_window: 7,
            max_ref_count: 3,
            min_interval_length: 4,
        }
    }
}

impl BufferedBitStreamWrite {
    /// Append `value` under the chosen code, returning how many bits it
    /// took.
    pub fn write_code(&mut self, c: Code, value: u64) -> (r: Result<usize, GraphError>)
        requires
            old(self).wf(),
            c.ok(),
            c.writable(value as nat),
            old(self).bits().len() + 256 <= usize::MAX,
            c == Code::Unary ==> old(self).bits().len() + value + 1 <= usize::MAX,
        ensures
            final(self).wf(),
            final(self).order() == old(self).order(),
            final(self).bits() == old(self).bits() + code_bits(old(self).order(), c, value as nat),
            r == Ok::<usize, GraphError>(
                code_bits(old(self).order(), c, value as nat).len() as usize,
            ),
    {
        proof {
            reveal(code_bits);
            vstd::arithmetic::power2::lemma_pow2_strictly_increases(62, 63);
            vstd::arithmetic::power2::lemma_pow2_strictly_increases(63, 64);
            vstd::arithmetic::power2::lemma2_to64_rest();
        }
        match c {
            Code::Unary => self.write_unary(value),
            Code::Gamma => self.write_gamma(value),
            Code::Delta => self.write_delta(value),
            Code::Zeta { k } => self.write_zeta(value, k),
        }
    }
}

impl BufferedBitStreamRead {
    /// Read one value under the chosen code.
    pub fn read_code(&mut self, c: Code) -> (r: Result<u64, GraphError>)
        requires
            old(self).wf(),
            c.ok(),
        ensures
            final(self).wf(),
            final(self).order() == old(self).order(),
            final(self).bits() == old(self).bits(),
            match spec_read_code(old(self).order(), c, old(self).bits(), old(self).pos()) {
                Some((v, p)) => v < pow2(64) && r == Ok::<u64, GraphError>(v as u64)
                    && final(self).pos() == p,
                None => r is Err,
            },
    {
        proof {
            reveal(spec_read_code);
        }
        match c {
            Code::Unary => {
                let rr = self.read_unary();
                proof {
                    match spec_read_unary(old(self).bits(), old(self).pos()) {
                        Some((v, p)) => {
                            assert(v <= u64::MAX);
                            crate::codes::lemma_u64_below_pow2_64(v as u64);
                        },
                        None => {},
                    }
                }
                rr
            },
            Code::Gamma => self.read_gamma(),
            Code::Delta => self.read_delta(),
            Code::Zeta { k } => {
                let rr = self.read_zeta(k);
                proof {
                    vstd::arithmetic::power2::lemma_pow2_strictly_increases(63, 64);
                }
                rr
            },
        }
    }
}

} // verus!
