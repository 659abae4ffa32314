//! The code-choice advisory: measure what each candidate code would spend
//! on the values of a record field, and name the cheapest. Reading a graph
//! gathers the values each field wrote; this module prices them.

use vstd::prelude::*;

verus! {

use crate::bits::BitOrder;
use crate::codes::floor_log2;
use crate::codes::len_delta;
use crate::codes::len_gamma;
use crate::codes::len_zeta;
use crate::codes::lemma_floor_log2;
use crate::codes::lemma_pow2_le_pub;
use crate::comp_flags::Code;
use crate::comp_flags::code_bits;
use vstd::arithmetic::power2::pow2;

/// The bits the code `c` would spend writing every value of `vals` in turn.
/// The count is the same under either bit order; the big-endian one names it.
pub open spec fn cost_of(c: Code, vals: Seq<u64>) -> nat
    decreases vals.len(),
{
    if vals.len() == 0 {
        0
    } else {
        cost_of(c, vals.drop_last()) + code_bits(BitOrder::M2L, c, vals.last() as nat).len()
    }
}

/// Every value is below `pow2(60)`, so each candidate code can write it.
pub open spec fn vals_small(vals: Seq<u64>) -> bool {
    forall|i: int| 0 <= i < vals.len() ==> vals[i] < pow2(60)
}

/// The four codes the advisory weighs against each other.
pub open spec fn advisory_candidate(c: Code) -> bool {
    ||| c == Code::Gamma
    ||| c == Code::Delta
    ||| c == (Code::Zeta { k: 2 })
    ||| c == (Code::Zeta { k: 3 })
}

/// The bits one candidate code spends on one value.
fn len_code(c: Code, v: u64) -> (r: usize)
    requires
        !(c matches Code::Unary),
        c matches Code::Zeta { k } ==> 1 <= k <= 3,
        v < pow2(60),
    ensures
        r == code_bits(BitOrder::M2L, c, v as nat).len(),
{
    proof {
        reveal(code_bits);
        lemma_pow2_le_pub(60, 63);
        assert(pow2(63) <= u64::MAX as nat) by {
            vstd::arithmetic::power2::lemma2_to64_rest();
        }
        lemma_floor_log2((v + 1) as nat);
        if floor_log2((v + 1) as nat) > 60 {
            lemma_pow2_le_pub(61, floor_log2((v + 1) as nat));
            lemma_pow2_le_pub(60, 61);
            assert(pow2(60) < pow2(61)) by {
                vstd::arithmetic::power2::lemma_pow2_strictly_increases(60, 61);
            }
            assert(false);
        }
    }
    match c {
        Code::Unary => {
            proof {
                assert(false);
            }
            0
        },
        Code::Gamma => len_gamma(v),
        Code::Delta => len_delta(v),
        Code::Zeta { k } => len_zeta(v, k),
    }
}

/// Price the values under γ, δ, ζ₂ and ζ₃ and return the cheapest code
/// with what it would spend: no candidate does better on these values.
#[verifier::loop_isolation(false)]
pub fn best_code(vals: &Vec<u64>) -> (r: (Code, u128))
    requires
        vals_small(vals@),
    ensures
        advisory_candidate(r.0),
        r.1 == cost_of(r.0, vals@),
        r.1 <= cost_of(Code::Gamma, vals@),
        r.1 <= cost_of(Code::Delta, vals@),
        r.1 <= cost_of(Code::Zeta { k: 2 }, vals@),
        r.1 <= cost_of(Code::Zeta { k: 3 }, vals@),
{
    let mut cg: u128 = 0;
    let mut cd: u128 = 0;
    let mut c2: u128 = 0;
    let mut c3: u128 = 0;
    let mut i: usize = 0;
    while i < vals.len()
        invariant
            i <= vals@.len(),
            cg == cost_of(Code::Gamma, vals@.subrange(0, i as int)),
            cd == cost_of(Code::Delta, vals@.subrange(0, i as int)),
            c2 == cost_of(Code::Zeta { k: 2 }, vals@.subrange(0, i as int)),
            c3 == cost_of(Code::Zeta { k: 3 }, vals@.subrange(0, i as int)),
            cg <= i * (usize::MAX as int),
            cd <= i * (usize::MAX as int),
            c2 <= i * (usize::MAX as int),
            c3 <= i * (usize::MAX as int),
        decreases vals@.len() - i,
    {
        let v = vals[i];
        let lg = len_code(Code::Gamma, v);
        let ld = len_code(Code::Delta, v);
        let l2 = len_code(Code::Zeta { k: 2 }, v);
        let l3 = len_code(Code::Zeta { k: 3 }, v);
        proof {
            let m = usize::MAX as int;
            assert((i + 1) * m == i * m + m) by (nonlinear_arith);
            assert((i + 1) * m < 0x100000000000000000000000000000000int) by (nonlinear_arith)
                requires
                    0 <= i + 1 <= 0x10000000000000000int,
                    0 <= m <= 0xffffffffffffffffint,
            ;
            assert(vals@.subrange(0, i + 1).drop_last() =~= vals@.subrange(0, i as int));
            assert(vals@.subrange(0, i + 1).last() == vals@[i as int]);
        }
        cg = cg + lg as u128;
        cd = cd + ld as u128;
        c2 = c2 + l2 as u128;
        c3 = c3 + l3 as u128;
        i = i + 1;
    }
    proof {
        assert(vals@.subrange(0, vals@.len() as int) =~= vals@);
    }
    let mut best: Code = Code::Gamma;
    let mut cost: u128 = cg;
    if cd < cost {
        best = Code::Delta;
        cost = cd;
    }
    if c2 < cost {
        best = Code::Zeta { k: 2 };
        cost = c2;
    }
    if c3 < cost {
        best = Code::Zeta { k: 3 };
        cost = c3;
    }
    (best, cost)
}

} // verus!
