//! The `.properties` companion file of a graph: a fixed layout of
//! `key=value` lines serialized and parsed as bytes, so that whatever the
//! parser accepts is exactly what the serializer would have written.

use vstd::prelude::*;

verus! {

use crate::bits::BitOrder;
use crate::comp_flags::Code;
use crate::comp_flags::CompFlags;
use crate::utils::GraphError;

/// The decimal digits of `n`, most significant first.
pub open spec fn dec_digits(n: nat) -> Seq<u8>
    decreases n,
{
    if n < 10 {
        seq![(48 + n) as u8]
    } else {
        dec_digits(n / 10) + seq![(48 + n % 10) as u8]
    }
}

/// The value a run of decimal digits denotes.
pub open spec fn dec_val(s: Seq<u8>) -> nat
    decreases s.len(),
{
    if s.len() == 0 {
        0
    } else {
        dec_val(s.drop_last()) * 10 + (if 48 <= s.last() <= 57 {
            (s.last() - 48) as nat
        } else {
            0
        })
    }
}

/// Decimal digits denote the number they were made from.
pub proof fn lemma_dec_round_trip(n: nat)
    ensures
        dec_val(dec_digits(n)) == n,
        dec_digits(n).len() >= 1,
        forall|i: int|
            0 <= i < dec_digits(n).len() ==> 48 <= #[trigger] dec_digits(n)[i] <= 57,
    decreases n,
{
    if n < 10 {
        assert(dec_digits(n) =~= seq![(48 + n) as u8]);
        assert(seq![(48 + n) as u8].drop_last() =~= Seq::<u8>::empty());
        assert(dec_val(Seq::<u8>::empty()) == 0);
        assert(dec_val(dec_digits(n)) == n);
    } else {
        lemma_dec_round_trip(n / 10);
        let s = dec_digits(n);
        assert(s =~= dec_digits(n / 10) + seq![(48 + n % 10) as u8]);
        assert(s.drop_last() =~= dec_digits(n / 10));
        assert(s.last() == (48 + n % 10) as u8);
        assert(dec_val(s) == (n / 10) * 10 + n % 10);
        assert((n / 10) * 10 + n % 10 == n) by {
            vstd::arithmetic::div_mod::lemma_fundamental_div_mod(n as int, 10);
        }
    }
}

/// The value of a digit run only grows as the run extends.
pub proof fn lemma_dec_val_prefix_le(s: Seq<u8>, k: int)
    requires
        0 <= k <= s.len(),
    ensures
        dec_val(s.subrange(0, k)) <= dec_val(s),
    decreases s.len(),
{
    if k < s.len() {
        if s.len() > 0 {
            assert(s.drop_last().subrange(0, k) =~= s.subrange(0, k));
            lemma_dec_val_prefix_le(s.drop_last(), k);
        }
    } else {
        assert(s.subrange(0, k) =~= s);
    }
}

/// Write `n` in decimal.
pub fn u64_to_dec(n: u64) -> (r: Vec<u8>)
    ensures
        r@ == dec_digits(n as nat),
    decreases n,
{
    if n < 10 {
        let mut v: Vec<u8> = Vec::new();
        v.push(48 + (n as u8));
        proof {
            assert(v@ =~= dec_digits(n as nat));
        }
        v
    } else {
        let mut v = u64_to_dec(n / 10);
        v.push(48 + ((n % 10) as u8));
        proof {
            assert(v@ =~= dec_digits(n as nat));
        }
        v
    }
}

/// The bytes of one `key=value` line holding a decimal.
pub open spec fn dec_line(key: Seq<u8>, n: nat) -> Seq<u8> {
    key + seq![61u8] + dec_digits(n) + seq![10u8]
}

/// The key bytes of each line, fixed once for the whole format.
#[verifier::opaque]
pub open spec fn key_nodes() -> Seq<u8> {
    seq![110u8, 111, 100, 101, 115]
}

/// The `arcs` key.
#[verifier::opaque]
pub open spec fn key_arcs() -> Seq<u8> {
    seq![97u8, 114, 99, 115]
}

/// The `windowsize` key.
#[verifier::opaque]
pub open spec fn key_window() -> Seq<u8> {
    seq![119u8, 105, 110, 100, 111, 119, 115, 105, 122, 101]
}

/// The `maxrefcount` key.
#[verifier::opaque]
pub open spec fn key_maxref() -> Seq<u8> {
    seq![109u8, 97, 120, 114, 101, 102, 99, 111, 117, 110, 116]
}

/// The `minintervallength` key.
#[verifier::opaque]
pub open spec fn key_minint() -> Seq<u8> {
    seq![
        109u8,
        105,
        110,
        105,
        110,
        116,
        101,
        114,
        118,
        97,
        108,
        108,
        101,
        110,
        103,
        116,
        104,
    ]
}

/// The `zetak` key.
#[verifier::opaque]
pub open spec fn key_zetak() -> Seq<u8> {
    seq![122u8, 101, 116, 97, 107]
}

/// The `endianness` key with its `=`.
#[verifier::opaque]
pub open spec fn endian_key() -> Seq<u8> {
    seq![101u8, 110, 100, 105, 97, 110, 110, 101, 115, 115, 61]
}

/// The value of the endianness line with its closing newline: `big` for
/// most-significant-first words, `little` for the other order.
#[verifier::opaque]
pub open spec fn endian_tail(order: BitOrder) -> Seq<u8> {
    match order {
        BitOrder::M2L => seq![98u8, 105, 103, 10],
        BitOrder::L2M => seq![108u8, 105, 116, 116, 108, 101, 10],
    }
}

/// The whole `endianness` line.
pub open spec fn endian_line(order: BitOrder) -> Seq<u8> {
    endian_key() + endian_tail(order)
}

/// A small discriminant for each code, naming the code family alone: the
/// factor of a ζ code is recorded separately, on the `zetak` line.
pub open spec fn disc_of(c: Code) -> u8 {
    match c {
        Code::Unary => 0u8,
        Code::Gamma => 1u8,
        Code::Delta => 2u8,
        Code::Zeta { .. } => 3u8,
    }
}

/// The name of each code family as it appears in `compressionflags`:
/// `UNARY`, `GAMMA`, `DELTA` or `ZETA`. Their first bytes all differ, so at
/// most one name can sit at a given position of the input.
#[verifier::opaque]
pub open spec fn cname(w: u8) -> Seq<u8> {
    if w == 0 {
        seq![85u8, 78, 65, 82, 89]
    } else if w == 1 {
        seq![71u8, 65, 77, 77, 65]
    } else if w == 2 {
        seq![68u8, 69, 76, 84, 65]
    } else {
        seq![90u8, 69, 84, 65]
    }
}

/// The name of a code.
pub open spec fn code_name(c: Code) -> Seq<u8> {
    cname(disc_of(c))
}

/// `compressionflags=OUTDEGREES_`, opening the flags line.
#[verifier::opaque]
pub open spec fn lit_cflags() -> Seq<u8> {
    seq![
        99u8,
        111,
        109,
        112,
        114,
        101,
        115,
        115,
        105,
        111,
        110,
        102,
        108,
        97,
        103,
        115,
        61,
        79,
        85,
        84,
        68,
        69,
        71,
        82,
        69,
        69,
        83,
        95,
    ]
}

/// `,REFERENCES_`.
#[verifier::opaque]
pub open spec fn lit_refs() -> Seq<u8> {
    seq![44u8, 82, 69, 70, 69, 82, 69, 78, 67, 69, 83, 95]
}

/// `,BLOCKS_`.
#[verifier::opaque]
pub open spec fn lit_blocks() -> Seq<u8> {
    seq![44u8, 66, 76, 79, 67, 75, 83, 95]
}

/// `,INTERVALS_`.
#[verifier::opaque]
pub open spec fn lit_ints() -> Seq<u8> {
    seq![44u8, 73, 78, 84, 69, 82, 86, 65, 76, 83, 95]
}

/// `,RESIDUALS_`.
#[verifier::opaque]
pub open spec fn lit_res() -> Seq<u8> {
    seq![44u8, 82, 69, 83, 73, 68, 85, 65, 76, 83, 95]
}

/// The `compressionflags` line over the five code discriminants.
pub open spec fn flags_bytes(w0: u8, w1: u8, w2: u8, w3: u8, w4: u8) -> Seq<u8> {
    lit_cflags() + cname(w0) + lit_refs() + cname(w1) + lit_blocks() + cname(w2) + lit_ints()
        + cname(w3) + lit_res() + cname(w4) + seq![10u8]
}

/// The `compressionflags` line of a parameter set.
pub open spec fn flags_line(f: CompFlags) -> Seq<u8> {
    flags_bytes(
        disc_of(f.outdegrees),
        disc_of(f.references),
        disc_of(f.blocks),
        disc_of(f.intervals),
        disc_of(f.residuals),
    )
}

/// The `zetak` line a residual code calls for: present exactly when the
/// code is ζ. The text records no factor for any other field, so a
/// parameter set is representable only when no other field uses ζ.
pub open spec fn res_suffix(c: Code) -> Seq<u8> {
    match c {
        Code::Zeta { k } => dec_line(key_zetak(), k as nat),
        _ => Seq::empty(),
    }
}

/// The `zetak` line of a parameter set.
pub open spec fn zeta_suffix(f: CompFlags) -> Seq<u8> {
    res_suffix(f.residuals)
}

/// The text can carry these parameters back faithfully: a ζ code, whose
/// factor only the `zetak` line records, may stand on the residuals alone.
pub open spec fn props_encodable(f: CompFlags) -> bool {
    &&& !(f.outdegrees matches Code::Zeta { .. })
    &&& !(f.references matches Code::Zeta { .. })
    &&& !(f.blocks matches Code::Zeta { .. })
    &&& !(f.intervals matches Code::Zeta { .. })
}

/// The whole `.properties` byte text: the counts, the code of each record
/// field, the window parameters, the ζ factor where one is used, and the
/// endianness.
pub open spec fn props_bytes(nodes: nat, arcs: nat, f: CompFlags, order: BitOrder) -> Seq<u8> {
    dec_line(key_nodes(), nodes) + dec_line(key_arcs(), arcs) + flags_line(f) + dec_line(
        key_window(),
        f.compression_window as nat,
    ) + dec_line(key_maxref(), f.max_ref_count as nat) + dec_line(
        key_minint(),
        f.min_interval_length as nat,
    ) + zeta_suffix(f) + endian_line(order)
}

/// The parameters can be recorded: no field but the residuals uses ζ.
pub fn check_props_encodable(f: &CompFlags) -> (r: bool)
    ensures
        r == props_encodable(*f),
{
    let z0 = match f.outdegrees {
        Code::Zeta { .. } => true,
        _ => false,
    };
    let z1 = match f.references {
        Code::Zeta { .. } => true,
        _ => false,
    };
    let z2 = match f.blocks {
        Code::Zeta { .. } => true,
        _ => false,
    };
    let z3 = match f.intervals {
        Code::Zeta { .. } => true,
        _ => false,
    };
    !(z0 || z1 || z2 || z3)
}

/// Append literal bytes onto the output.
fn push_bytes(out: &mut Vec<u8>, bytes: &Vec<u8>)
    ensures
        final(out)@ == old(out)@ + bytes@,
{
    let mut i: usize = 0;
    while i < bytes.len()
        invariant
            i <= bytes@.len(),
            out@ == old(out)@ + bytes@.subrange(0, i as int),
        decreases bytes@.len() - i,
    {
        out.push(bytes[i]);
        proof {
            assert(old(out)@ + bytes@.subrange(0, i as int) + seq![bytes@[i as int]] =~= old(out)@
                + bytes@.subrange(0, i + 1));
        }
        i = i + 1;
    }
    proof {
        assert(bytes@.subrange(0, bytes@.len() as int) =~= bytes@);
    }
}

/// One `key=value` line with a decimal value.
fn push_dec_line(out: &mut Vec<u8>, key: &Vec<u8>, n: u64)
    ensures
        final(out)@ == old(out)@ + dec_line(key@, n as nat),
{
    push_bytes(out, key);
    out.push(61);
    let digits = u64_to_dec(n);
    push_bytes(out, &digits);
    out.push(10);
    proof {
        assert(final(out)@ =~= old(out)@ + dec_line(key@, n as nat));
    }
}

/// The `nodes` key as bytes.
fn nodes_key() -> (r: Vec<u8>)
    ensures
        r@ == key_nodes(),
{
    let mut v: Vec<u8> = Vec::new();
    v.push(110);
    v.push(111);
    v.push(100);
    v.push(101);
    v.push(115);
    proof {
        reveal(key_nodes);
        assert(v@ =~= key_nodes());
    }
    v
}

/// The `arcs` key as bytes.
fn arcs_key() -> (r: Vec<u8>)
    ensures
        r@ == key_arcs(),
{
    let mut v: Vec<u8> = Vec::new();
    v.push(97);
    v.push(114);
    v.push(99);
    v.push(115);
    proof {
        reveal(key_arcs);
        assert(v@ =~= key_arcs());
    }
    v
}

/// The `windowsize` key as bytes.
fn window_key() -> (r: Vec<u8>)
    ensures
        r@ == key_window(),
{
    let mut v: Vec<u8> = Vec::new();
    v.push(119);
    v.push(105);
    v.push(110);
    v.push(100);
    v.push(111);
    v.push(119);
    v.push(115);
    v.push(105);
    v.push(122);
    v.push(101);
    proof {
        reveal(key_window);
        assert(v@ =~= key_window());
    }
    v
}

/// The `maxrefcount` key as bytes.
fn maxref_key() -> (r: Vec<u8>)
    ensures
        r@ == key_maxref(),
{
    let mut v: Vec<u8> = Vec::new();
    v.push(109);
    v.push(97);
    v.push(120);
    v.push(114);
    v.push(101);
    v.push(102);
    v.push(99);
    v.push(111);
    v.push(117);
    v.push(110);
    v.push(116);
    proof {
        reveal(key_maxref);
        assert(v@ =~= key_maxref());
    }
    v
}

/// The `minintervallength` key as bytes.
fn minint_key() -> (r: Vec<u8>)
    ensures
        r@ == key_minint(),
{
    let mut v: Vec<u8> = Vec::new();
    v.push(109);
    v.push(105);
    v.push(110);
    v.push(105);
    v.push(110);
    v.push(116);
    v.push(101);
    v.push(114);
    v.push(118);
    v.push(97);
    v.push(108);
    v.push(108);
    v.push(101);
    v.push(110);
    v.push(103);
    v.push(116);
    v.push(104);
    proof {
        reveal(key_minint);
        assert(v@ =~= key_minint());
    }
    v
}

/// The `zetak` key as bytes.
fn zetak_key() -> (r: Vec<u8>)
    ensures
        r@ == key_zetak(),
{
    let mut v: Vec<u8> = Vec::new();
    v.push(122);
    v.push(101);
    v.push(116);
    v.push(97);
    v.push(107);
    proof {
        reveal(key_zetak);
        assert(v@ =~= key_zetak());
    }
    v
}

/// Build a byte vector from pushed literals; each builder below states
/// which spec sequence it produces.
fn cflags_lit_vec() -> (r: Vec<u8>)
    ensures
        r@ == lit_cflags(),
{
    let mut v: Vec<u8> = Vec::new();
    v.push(99);
    v.push(111);
    v.push(109);
    v.push(112);
    v.push(114);
    v.push(101);
    v.push(115);
    v.push(115);
    v.push(105);
    v.push(111);
    v.push(110);
    v.push(102);
    v.push(108);
    v.push(97);
    v.push(103);
    v.push(115);
    v.push(61);
    v.push(79);
    v.push(85);
    v.push(84);
    v.push(68);
    v.push(69);
    v.push(71);
    v.push(82);
    v.push(69);
    v.push(69);
    v.push(83);
    v.push(95);
    proof {
        reveal(lit_cflags);
        assert(v@ =~= lit_cflags());
    }
    v
}

/// The `,REFERENCES_` literal.
fn refs_lit_vec() -> (r: Vec<u8>)
    ensures
        r@ == lit_refs(),
{
    let mut v: Vec<u8> = Vec::new();
    v.push(44);
    v.push(82);
    v.push(69);
    v.push(70);
    v.push(69);
    v.push(82);
    v.push(69);
    v.push(78);
    v.push(67);
    v.push(69);
    v.push(83);
    v.push(95);
    proof {
        reveal(lit_refs);
        assert(v@ =~= lit_refs());
    }
    v
}

/// The `,BLOCKS_` literal.
fn blocks_lit_vec() -> (r: Vec<u8>)
    ensures
        r@ == lit_blocks(),
{
    let mut v: Vec<u8> = Vec::new();
    v.push(44);
    v.push(66);
    v.push(76);
    v.push(79);
    v.push(67);
    v.push(75);
    v.push(83);
    v.push(95);
    proof {
        reveal(lit_blocks);
        assert(v@ =~= lit_blocks());
    }
    v
}

/// The `,INTERVALS_` literal.
fn ints_lit_vec() -> (r: Vec<u8>)
    ensures
        r@ == lit_ints(),
{
    let mut v: Vec<u8> = Vec::new();
    v.push(44);
    v.push(73);
    v.push(78);
    v.push(84);
    v.push(69);
    v.push(82);
    v.push(86);
    v.push(65);
    v.push(76);
    v.push(83);
    v.push(95);
    proof {
        reveal(lit_ints);
        assert(v@ =~= lit_ints());
    }
    v
}

/// The `,RESIDUALS_` literal.
fn res_lit_vec() -> (r: Vec<u8>)
    ensures
        r@ == lit_res(),
{
    let mut v: Vec<u8> = Vec::new();
    v.push(44);
    v.push(82);
    v.push(69);
    v.push(83);
    v.push(73);
    v.push(68);
    v.push(85);
    v.push(65);
    v.push(76);
    v.push(83);
    v.push(95);
    proof {
        reveal(lit_res);
        assert(v@ =~= lit_res());
    }
    v
}

/// The name of the code family with the given discriminant.
fn cname_vec(w: u8) -> (r: Vec<u8>)
    requires
        w <= 3,
    ensures
        r@ == cname(w),
{
    let mut v: Vec<u8> = Vec::new();
    if w == 0 {
        v.push(85);
        v.push(78);
        v.push(65);
        v.push(82);
        v.push(89);
    } else if w == 1 {
        v.push(71);
        v.push(65);
        v.push(77);
        v.push(77);
        v.push(65);
    } else if w == 2 {
        v.push(68);
        v.push(69);
        v.push(76);
        v.push(84);
        v.push(65);
    } else {
        v.push(90);
        v.push(69);
        v.push(84);
        v.push(65);
    }
    proof {
        reveal(cname);
        assert(v@ =~= cname(w));
    }
    v
}

/// The `endianness=` literal.
fn endian_key_vec() -> (r: Vec<u8>)
    ensures
        r@ == endian_key(),
{
    let mut v: Vec<u8> = Vec::new();
    v.push(101);
    v.push(110);
    v.push(100);
    v.push(105);
    v.push(97);
    v.push(110);
    v.push(110);
    v.push(101);
    v.push(115);
    v.push(115);
    v.push(61);
    proof {
        reveal(endian_key);
        assert(v@ =~= endian_key());
    }
    v
}

/// The value half of the endianness line, newline included.
fn endian_tail_vec(order: BitOrder) -> (r: Vec<u8>)
    ensures
        r@ == endian_tail(order),
{
    let mut v: Vec<u8> = Vec::new();
    match order {
        BitOrder::M2L => {
            v.push(98);
            v.push(105);
            v.push(103);
            v.push(10);
        },
        BitOrder::L2M => {
            v.push(108);
            v.push(105);
            v.push(116);
            v.push(116);
            v.push(108);
            v.push(101);
            v.push(10);
        },
    }
    proof {
        reveal(endian_tail);
        assert(v@ =~= endian_tail(order));
    }
    v
}

/// Concatenation of byte sequences reassociates.
proof fn lemma_u8_assoc(a: Seq<u8>, b: Seq<u8>, c: Seq<u8>)
    ensures
        (a + b) + c == a + (b + c),
{
    assert((a + b) + c =~= a + (b + c));
}

/// Write the name of a code family onto the output.
fn push_code_name(out: &mut Vec<u8>, c: Code)
    ensures
        final(out)@ == old(out)@ + code_name(c),
{
    let w: u8 = match c {
        Code::Unary => 0,
        Code::Gamma => 1,
        Code::Delta => 2,
        Code::Zeta { .. } => 3,
    };
    let name = cname_vec(w);
    push_bytes(out, &name);
}

/// Write the `compressionflags` line onto the output.
#[verifier::rlimit(100)]
#[verifier::spinoff_prover]
fn push_flags_line(out: &mut Vec<u8>, f: &CompFlags)
    ensures
        final(out)@ == old(out)@ + flags_line(*f),
{
    let l0 = cflags_lit_vec();
    push_bytes(out, &l0);
    push_code_name(out, f.outdegrees);
    let l1 = refs_lit_vec();
    push_bytes(out, &l1);
    push_code_name(out, f.references);
    let l2 = blocks_lit_vec();
    push_bytes(out, &l2);
    push_code_name(out, f.blocks);
    let l3 = ints_lit_vec();
    push_bytes(out, &l3);
    push_code_name(out, f.intervals);
    let l4 = res_lit_vec();
    push_bytes(out, &l4);
    push_code_name(out, f.residuals);
    out.push(10);
    proof {
        let o = old(out)@;
        let t0 = lit_cflags();
        let t1 = t0 + code_name(f.outdegrees);
        let t2 = t1 + lit_refs();
        let t3 = t2 + code_name(f.references);
        let t4 = t3 + lit_blocks();
        let t5 = t4 + code_name(f.blocks);
        let t6 = t5 + lit_ints();
        let t7 = t6 + code_name(f.intervals);
        let t8 = t7 + lit_res();
        let t9 = t8 + code_name(f.residuals);
        lemma_u8_assoc(o, t0, code_name(f.outdegrees));
        lemma_u8_assoc(o, t1, lit_refs());
        lemma_u8_assoc(o, t2, code_name(f.references));
        lemma_u8_assoc(o, t3, lit_blocks());
        lemma_u8_assoc(o, t4, code_name(f.blocks));
        lemma_u8_assoc(o, t5, lit_ints());
        lemma_u8_assoc(o, t6, code_name(f.intervals));
        lemma_u8_assoc(o, t7, lit_res());
        lemma_u8_assoc(o, t8, code_name(f.residuals));
        lemma_u8_assoc(o, t9, seq![10u8]);
        assert((o + t9).push(10u8) =~= (o + t9) + seq![10u8]);
        assert(final(out)@ == o + flags_line(*f));
    }
}

/// Serialize the properties of a graph file to its `.properties` bytes.
/// The text records the factor of a ζ code only for the residuals, so only
/// parameter sets with no other ζ field can be written back readably.
#[verifier::rlimit(100)]
#[verifier::spinoff_prover]
pub fn write_properties(nodes: u64, arcs: u64, f: &CompFlags, order: BitOrder) -> (r: Vec<u8>)
    requires
        props_encodable(*f),
    ensures
        r@ == props_bytes(nodes as nat, arcs as nat, *f, order),
{
    let mut out: Vec<u8> = Vec::new();
    let k1 = nodes_key();
    push_dec_line(&mut out, &k1, nodes);
    let k2 = arcs_key();
    push_dec_line(&mut out, &k2, arcs);
    push_flags_line(&mut out, f);
    let ghost with_flags = out@;
    let k3 = window_key();
    push_dec_line(&mut out, &k3, f.compression_window as u64);
    let k4 = maxref_key();
    push_dec_line(&mut out, &k4, f.max_ref_count as u64);
    let k5 = minint_key();
    push_dec_line(&mut out, &k5, f.min_interval_length as u64);
    match f.residuals {
        Code::Zeta { k } => {
            let k6 = zetak_key();
            push_dec_line(&mut out, &k6, k);
        },
        _ => {
            proof {
                assert(out@ =~= out@ + zeta_suffix(*f));
            }
        },
    }
    let ghost with_zeta = out@;
    let ek = endian_key_vec();
    push_bytes(&mut out, &ek);
    let et = endian_tail_vec(order);
    push_bytes(&mut out, &et);
    proof {
        assert(out@ =~= with_zeta + endian_line(order));
        assert(with_zeta =~= with_flags + dec_line(key_window(), f.compression_window as nat)
            + dec_line(key_maxref(), f.max_ref_count as nat) + dec_line(
            key_minint(),
            f.min_interval_length as nat,
        ) + zeta_suffix(*f));
        assert(out@ =~= props_bytes(nodes as nat, arcs as nat, *f, order));
    }
    out
}

/// The index of the first occurrence of `d`, or the length when absent.
pub open spec fn first_at(s: Seq<u8>, d: u8) -> int
    decreases s.len(),
{
    if s.len() == 0 {
        0
    } else if s[0] == d {
        0
    } else {
        1 + first_at(s.subrange(1, s.len() as int), d)
    }
}

/// Where the first occurrence sits: nothing before it matches, and it
/// matches unless the byte is absent.
pub proof fn lemma_first_at(s: Seq<u8>, d: u8)
    ensures
        0 <= first_at(s, d) <= s.len(),
        first_at(s, d) < s.len() ==> s[first_at(s, d)] == d,
        forall|k: int| 0 <= k < first_at(s, d) ==> s[k] != d,
    decreases s.len(),
{
    if s.len() > 0 && s[0] != d {
        let t = s.subrange(1, s.len() as int);
        lemma_first_at(t, d);
        assert forall|k: int| 0 <= k < first_at(s, d) implies s[k] != d by {
            if k > 0 {
                assert(t[k - 1] != d);
                assert(s[k] == t[k - 1]);
            }
        }
    }
}

/// A position with no match before it, itself a match or the end, is the
/// first occurrence.
pub proof fn lemma_first_at_is(s: Seq<u8>, d: u8, j: int)
    requires
        0 <= j <= s.len(),
        forall|k: int| 0 <= k < j ==> s[k] != d,
        j < s.len() ==> s[j] == d,
    ensures
        first_at(s, d) == j,
    decreases s.len(),
{
    if s.len() > 0 && s[0] != d {
        let t = s.subrange(1, s.len() as int);
        assert(forall|k: int| 0 <= k < j - 1 ==> t[k] != d);
        lemma_first_at_is(t, d, j - 1);
    }
}

/// The pieces of `s` between occurrences of `d`: a final piece without a
/// terminator still counts, and empty input has no pieces.
pub open spec fn split_at_byte(s: Seq<u8>, d: u8) -> Seq<Seq<u8>>
    decreases s.len(),
    via split_at_byte_dec
{
    if s.len() == 0 {
        Seq::empty()
    } else {
        let i = first_at(s, d);
        if i == s.len() {
            seq![s]
        } else {
            seq![s.subrange(0, i)] + split_at_byte(s.subrange(i + 1, s.len() as int), d)
        }
    }
}

#[via_fn]
proof fn split_at_byte_dec(s: Seq<u8>, d: u8) {
    lemma_first_at(s, d);
}

/// Find the first `d` at or after `pos`.
fn scan_to(data: &Vec<u8>, pos: usize, d: u8) -> (e: usize)
    requires
        pos <= data@.len(),
    ensures
        pos <= e <= data@.len(),
        e - pos == first_at(data@.subrange(pos as int, data@.len() as int), d),
        e < data@.len() ==> data@[e as int] == d,
        forall|k: int| pos <= k < e ==> data@[k] != d,
{
    let mut e = pos;
    while e < data.len() && data[e] != d
        invariant
            pos <= e <= data@.len(),
            forall|k: int| pos <= k < e ==> data@[k] != d,
        decreases data@.len() - e,
    {
        e = e + 1;
    }
    proof {
        let sfx = data@.subrange(pos as int, data@.len() as int);
        lemma_first_at_is(sfx, d, e - pos);
    }
    e
}

/// Copy a stretch of the input out as its own vector.
fn copy_range(data: &Vec<u8>, a: usize, b: usize) -> (r: Vec<u8>)
    requires
        a <= b <= data@.len(),
    ensures
        r@ == data@.subrange(a as int, b as int),
{
    let mut r: Vec<u8> = Vec::new();
    proof {
        assert(r@ =~= data@.subrange(a as int, a as int));
    }
    let mut i = a;
    while i < b
        invariant
            a <= i <= b,
            b <= data@.len(),
            r@ == data@.subrange(a as int, i as int),
        decreases b - i,
    {
        r.push(data[i]);
        proof {
            assert(r@ =~= data@.subrange(a as int, i + 1));
        }
        i = i + 1;
    }
    r
}

/// Whole-vector byte equality.
fn bytes_eq(a: &Vec<u8>, b: &Vec<u8>) -> (r: bool)
    ensures
        r == (a@ == b@),
{
    if a.len() != b.len() {
        proof {
            assert(a@ != b@);
        }
        return false;
    }
    let mut i: usize = 0;
    while i < a.len()
        invariant
            i <= a@.len(),
            a@.len() == b@.len(),
            forall|k: int| 0 <= k < i ==> a@[k] == b@[k],
        decreases a@.len() - i,
    {
        if a[i] != b[i] {
            return false;
        }
        i = i + 1;
    }
    proof {
        assert(a@ =~= b@);
    }
    true
}

/// Does `t` start with `p`?
fn has_prefix(t: &Vec<u8>, p: &Vec<u8>) -> (r: bool)
    ensures
        r == (t@.len() >= p@.len() && t@.subrange(0, p@.len() as int) == p@),
{
    if t.len() < p.len() {
        return false;
    }
    let mut i: usize = 0;
    while i < p.len()
        invariant
            i <= p@.len(),
            p@.len() <= t@.len(),
            forall|k: int| 0 <= k < i ==> t@[k] == p@[k],
        decreases p@.len() - i,
    {
        if t[i] != p[i] {
            proof {
                if t@.subrange(0, p@.len() as int) == p@ {
                    assert(t@.subrange(0, p@.len() as int)[i as int] == p@[i as int]);
                }
            }
            return false;
        }
        i = i + 1;
    }
    proof {
        assert(t@.subrange(0, p@.len() as int) =~= p@);
    }
    true
}

/// A line with a trailing carriage return loses it.
pub open spec fn strip_cr(l: Seq<u8>) -> Seq<u8> {
    if l.len() > 0 && l.last() == 13 {
        l.drop_last()
    } else {
        l
    }
}

/// Blank lines and `#` or `!` comment lines carry no key.
pub open spec fn skip_line(l: Seq<u8>) -> bool {
    l.len() == 0 || l[0] == 35 || l[0] == 33
}

/// The key of a line: what stands before the first `=`.
pub open spec fn line_key(l: Seq<u8>) -> Seq<u8> {
    l.subrange(0, first_at(l, 61))
}

/// The value of a line: what stands after the first `=`, empty when the
/// line has none.
pub open spec fn line_val(l: Seq<u8>) -> Seq<u8> {
    if first_at(l, 61) < l.len() {
        l.subrange(first_at(l, 61) + 1, l.len() as int)
    } else {
        Seq::empty()
    }
}

/// The value of `key` after reading these lines in turn, starting from
/// what earlier lines gave: a later line holding the key wins.
pub open spec fn lookup_from(lines: Seq<Seq<u8>>, key: Seq<u8>, acc: Option<Seq<u8>>) -> Option<
    Seq<u8>,
>
    decreases lines.len(),
{
    if lines.len() == 0 {
        acc
    } else {
        let l = strip_cr(lines[0]);
        let acc2 = if !skip_line(l) && line_key(l) == key {
            Some(line_val(l))
        } else {
            acc
        };
        lookup_from(lines.subrange(1, lines.len() as int), key, acc2)
    }
}

/// The recorded value of `key` in the text: that of the last line holding
/// it, with comment and blank lines passed over.
pub open spec fn lookup(data: Seq<u8>, key: Seq<u8>) -> Option<Seq<u8>> {
    lookup_from(split_at_byte(data, 10), key, None)
}

/// Fetch the recorded value of `key` from the text.
#[verifier::rlimit(100)]
#[verifier::spinoff_prover]
#[verifier::loop_isolation(false)]
fn lookup_exec(data: &Vec<u8>, key: &Vec<u8>) -> (r: Option<Vec<u8>>)
    ensures
        match r {
            Some(v) => lookup(data@, key@) == Some(v@),
            None => lookup(data@, key@) is None,
        },
{
    let ghost dl = data@.len() as int;
    let mut acc: Option<Vec<u8>> = None;
    let mut pos: usize = 0;
    proof {
        assert(data@.subrange(0, dl) =~= data@);
    }
    while pos < data.len()
        invariant
            pos <= data@.len(),
            lookup(data@, key@) == lookup_from(
                split_at_byte(data@.subrange(pos as int, data@.len() as int), 10),
                key@,
                match acc {
                    Some(v) => Some(v@),
                    None => None,
                },
            ),
        decreases data@.len() - pos,
    {
        let ghost acc0: Option<Seq<u8>> = match &acc {
            Some(v) => Some(v@),
            None => None,
        };
        let ghost sfx = data@.subrange(pos as int, dl);
        let e = scan_to(data, pos, 10);
        let mut line = copy_range(data, pos, e);
        let ghost l0 = sfx.subrange(0, e - pos);
        proof {
            assert(sfx.len() == dl - pos);
            assert(0 <= e - pos <= sfx.len());
            assert(l0.len() == e - pos);
            assert(line@.len() == e - pos);
            assert(l0 =~= line@) by {
                assert forall|k: int| 0 <= k < e - pos implies l0[k] == line@[k] by {
                    assert(l0[k] == sfx[k]);
                    assert(sfx[k] == data@[pos + k]);
                    assert(line@[k] == data@[pos + k]);
                }
            }
        }
        if line.len() > 0 && line[line.len() - 1] == 13 {
            line.pop();
        }
        proof {
            assert(line@ =~= strip_cr(l0));
        }
        let sk = line.len() == 0 || line[0] == 35 || line[0] == 33;
        if !sk {
            let fe = scan_to(&line, 0, 61);
            proof {
                assert(line@.subrange(0, line@.len() as int) =~= line@);
            }
            let k = copy_range(&line, 0, fe);
            proof {
                assert(k@ == line_key(line@));
            }
            if bytes_eq(&k, key) {
                let v = if fe < line.len() {
                    copy_range(&line, fe + 1, line.len())
                } else {
                    Vec::new()
                };
                proof {
                    assert(v@ =~= line_val(line@));
                }
                acc = Some(v);
            }
        }
        proof {
            let ghost acc2: Option<Seq<u8>> = match &acc {
                Some(v) => Some(v@),
                None => None,
            };
            let lines = split_at_byte(sfx, 10);
            if e - pos == sfx.len() {
                assert(lines == seq![sfx]);
                assert(l0 =~= sfx);
                assert(strip_cr(sfx) == line@);
                assert(seq![sfx].subrange(1, 1) =~= Seq::<Seq<u8>>::empty());
                assert(lookup_from(lines, key@, acc0) == acc2);
                assert(data@.subrange(e as int, dl) =~= Seq::<u8>::empty());
            } else {
                let rest = split_at_byte(sfx.subrange(e - pos + 1, sfx.len() as int), 10);
                assert(lines == seq![l0] + rest);
                assert((seq![l0] + rest)[0] == l0);
                assert((seq![l0] + rest).subrange(1, (seq![l0] + rest).len() as int) =~= rest);
                assert(lookup_from(lines, key@, acc0) == lookup_from(rest, key@, acc2));
                assert(sfx.subrange(e - pos + 1, sfx.len() as int) =~= data@.subrange(
                    e + 1,
                    dl,
                ));
            }
        }
        pos = if e < data.len() {
            e + 1
        } else {
            e
        };
    }
    proof {
        assert(data@.subrange(pos as int, dl) =~= Seq::<u8>::empty());
        assert(split_at_byte(Seq::<u8>::empty(), 10) == Seq::<Seq<u8>>::empty());
    }
    acc
}

/// Every byte is a decimal digit.
pub open spec fn all_digits(s: Seq<u8>) -> bool {
    forall|i: int| 0 <= i < s.len() ==> 48 <= #[trigger] s[i] <= 57
}

/// The number a recorded value denotes: digits only, any number of them,
/// rejected when empty, non-numeric or too large for 64 bits.
pub open spec fn spec_u64(s: Seq<u8>) -> Option<u64> {
    if s.len() >= 1 && all_digits(s) && dec_val(s) <= u64::MAX {
        Some(dec_val(s) as u64)
    } else {
        None
    }
}

/// Read a recorded decimal value.
#[verifier::loop_isolation(false)]
fn parse_u64_exec(v: &Vec<u8>) -> (r: Option<u64>)
    ensures
        r == spec_u64(v@),
{
    if v.len() == 0 {
        return None;
    }
    let mut acc: u64 = 0;
    let mut i: usize = 0;
    while i < v.len()
        invariant
            i <= v@.len(),
            v@.len() >= 1,
            all_digits(v@.subrange(0, i as int)),
            acc == dec_val(v@.subrange(0, i as int)),
        decreases v@.len() - i,
    {
        let b = v[i];
        if b < 48 || b > 57 {
            proof {
                assert(!all_digits(v@));
            }
            return None;
        }
        let d = (b - 48) as u64;
        proof {
            assert(v@.subrange(0, i + 1).drop_last() =~= v@.subrange(0, i as int));
            assert(v@.subrange(0, i + 1).last() == v@[i as int]);
        }
        let t: u128 = acc as u128 * 10 + d as u128;
        if t > u64::MAX as u128 {
            proof {
                assert(dec_val(v@.subrange(0, i + 1)) > u64::MAX);
                lemma_dec_val_prefix_le(v@, i + 1);
                assert(v@.subrange(0, v@.len() as int) =~= v@);
            }
            return None;
        }
        acc = t as u64;
        proof {
            assert(all_digits(v@.subrange(0, i + 1)));
        }
        i = i + 1;
    }
    proof {
        assert(v@.subrange(0, v@.len() as int) =~= v@);
    }
    Some(acc)
}

/// The field prefixes of the `compressionflags` tokens.
#[verifier::opaque]
pub open spec fn pre_out() -> Seq<u8> {
    seq![79u8, 85, 84, 68, 69, 71, 82, 69, 69, 83, 95]
}

/// `REFERENCES_`.
#[verifier::opaque]
pub open spec fn pre_refs() -> Seq<u8> {
    seq![82u8, 69, 70, 69, 82, 69, 78, 67, 69, 83, 95]
}

/// `BLOCKS_`.
#[verifier::opaque]
pub open spec fn pre_blocks() -> Seq<u8> {
    seq![66u8, 76, 79, 67, 75, 83, 95]
}

/// `INTERVALS_`.
#[verifier::opaque]
pub open spec fn pre_ints() -> Seq<u8> {
    seq![73u8, 78, 84, 69, 82, 86, 65, 76, 83, 95]
}

/// `RESIDUALS_`.
#[verifier::opaque]
pub open spec fn pre_res() -> Seq<u8> {
    seq![82u8, 69, 83, 73, 68, 85, 65, 76, 83, 95]
}

/// The key of the flags line.
#[verifier::opaque]
pub open spec fn cflags_name() -> Seq<u8> {
    seq![99u8, 111, 109, 112, 114, 101, 115, 115, 105, 111, 110, 102, 108, 97, 103, 115]
}

/// The bare `endianness` key.
#[verifier::opaque]
pub open spec fn endian_name() -> Seq<u8> {
    seq![101u8, 110, 100, 105, 97, 110, 110, 101, 115, 115]
}

/// The recorded big-endian value.
#[verifier::opaque]
pub open spec fn big_name() -> Seq<u8> {
    seq![98u8, 105, 103]
}

/// The recorded little-endian value.
#[verifier::opaque]
pub open spec fn little_name() -> Seq<u8> {
    seq![108u8, 105, 116, 116, 108, 101]
}

/// The discriminant a code name denotes, if any.
pub open spec fn code_disc_of(s: Seq<u8>) -> Option<u8> {
    if s == cname(0) {
        Some(0u8)
    } else if s == cname(1) {
        Some(1u8)
    } else if s == cname(2) {
        Some(2u8)
    } else if s == cname(3) {
        Some(3u8)
    } else {
        None
    }
}

/// Which field a token names and which code it assigns.
pub open spec fn token_slot(t: Seq<u8>) -> Option<(int, u8)> {
    if t.len() >= pre_out().len() && t.subrange(0, pre_out().len() as int) == pre_out() {
        match code_disc_of(t.subrange(pre_out().len() as int, t.len() as int)) {
            Some(w) => Some((0int, w)),
            None => None,
        }
    } else if t.len() >= pre_refs().len() && t.subrange(0, pre_refs().len() as int)
        == pre_refs() {
        match code_disc_of(t.subrange(pre_refs().len() as int, t.len() as int)) {
            Some(w) => Some((1int, w)),
            None => None,
        }
    } else if t.len() >= pre_blocks().len() && t.subrange(0, pre_blocks().len() as int)
        == pre_blocks() {
        match code_disc_of(t.subrange(pre_blocks().len() as int, t.len() as int)) {
            Some(w) => Some((2int, w)),
            None => None,
        }
    } else if t.len() >= pre_ints().len() && t.subrange(0, pre_ints().len() as int)
        == pre_ints() {
        match code_disc_of(t.subrange(pre_ints().len() as int, t.len() as int)) {
            Some(w) => Some((3int, w)),
            None => None,
        }
    } else if t.len() >= pre_res().len() && t.subrange(0, pre_res().len() as int) == pre_res() {
        match code_disc_of(t.subrange(pre_res().len() as int, t.len() as int)) {
            Some(w) => Some((4int, w)),
            None => None,
        }
    } else {
        None
    }
}

/// Assign a token's code to its field.
pub open spec fn apply_token(
    s: (Option<u8>, Option<u8>, Option<u8>, Option<u8>, Option<u8>),
    f: int,
    w: u8,
) -> (Option<u8>, Option<u8>, Option<u8>, Option<u8>, Option<u8>) {
    if f == 0 {
        (Some(w), s.1, s.2, s.3, s.4)
    } else if f == 1 {
        (s.0, Some(w), s.2, s.3, s.4)
    } else if f == 2 {
        (s.0, s.1, Some(w), s.3, s.4)
    } else if f == 3 {
        (s.0, s.1, s.2, Some(w), s.4)
    } else {
        (s.0, s.1, s.2, s.3, Some(w))
    }
}

/// Read the tokens in turn; a later token for the same field wins, and one
/// bad token refuses the whole value.
pub open spec fn fold_tokens(
    toks: Seq<Seq<u8>>,
    s: (Option<u8>, Option<u8>, Option<u8>, Option<u8>, Option<u8>),
) -> Option<(Option<u8>, Option<u8>, Option<u8>, Option<u8>, Option<u8>)>
    decreases toks.len(),
{
    if toks.len() == 0 {
        Some(s)
    } else {
        match token_slot(toks[0]) {
            Some((f, w)) => fold_tokens(toks.subrange(1, toks.len() as int), apply_token(s, f, w)),
            None => None,
        }
    }
}

/// What the `compressionflags` value assigns to each field: nothing, for a
/// field its comma-separated tokens never name.
pub open spec fn flag_slots(v: Seq<u8>) -> Option<
    (Option<u8>, Option<u8>, Option<u8>, Option<u8>, Option<u8>),
> {
    fold_tokens(split_at_byte(v, 44), (None, None, None, None, None))
}

/// The `pre_out` literal as bytes.
fn pre_out_vec() -> (r: Vec<u8>)
    ensures
        r@ == pre_out(),
{
    let mut v: Vec<u8> = Vec::new();
    v.push(79);
    v.push(85);
    v.push(84);
    v.push(68);
    v.push(69);
    v.push(71);
    v.push(82);
    v.push(69);
    v.push(69);
    v.push(83);
    v.push(95);
    proof {
        reveal(pre_out);
        assert(v@ =~= pre_out());
    }
    v
}

/// The `pre_refs` literal as bytes.
fn pre_refs_vec() -> (r: Vec<u8>)
    ensures
        r@ == pre_refs(),
{
    let mut v: Vec<u8> = Vec::new();
    v.push(82);
    v.push(69);
    v.push(70);
    v.push(69);
    v.push(82);
    v.push(69);
    v.push(78);
    v.push(67);
    v.push(69);
    v.push(83);
    v.push(95);
    proof {
        reveal(pre_refs);
        assert(v@ =~= pre_refs());
    }
    v
}

/// The `pre_blocks` literal as bytes.
fn pre_blocks_vec() -> (r: Vec<u8>)
    ensures
        r@ == pre_blocks(),
{
    let mut v: Vec<u8> = Vec::new();
    v.push(66);
    v.push(76);
    v.push(79);
    v.push(67);
    v.push(75);
    v.push(83);
    v.push(95);
    proof {
        reveal(pre_blocks);
        assert(v@ =~= pre_blocks());
    }
    v
}

/// The `pre_ints` literal as bytes.
fn pre_ints_vec() -> (r: Vec<u8>)
    ensures
        r@ == pre_ints(),
{
    let mut v: Vec<u8> = Vec::new();
    v.push(73);
    v.push(78);
    v.push(84);
    v.push(69);
    v.push(82);
    v.push(86);
    v.push(65);
    v.push(76);
    v.push(83);
    v.push(95);
    proof {
        reveal(pre_ints);
        assert(v@ =~= pre_ints());
    }
    v
}

/// The `pre_res` literal as bytes.
fn pre_res_vec() -> (r: Vec<u8>)
    ensures
        r@ == pre_res(),
{
    let mut v: Vec<u8> = Vec::new();
    v.push(82);
    v.push(69);
    v.push(83);
    v.push(73);
    v.push(68);
    v.push(85);
    v.push(65);
    v.push(76);
    v.push(83);
    v.push(95);
    proof {
        reveal(pre_res);
        assert(v@ =~= pre_res());
    }
    v
}

/// The `cflags_name` literal as bytes.
fn cflags_name_vec() -> (r: Vec<u8>)
    ensures
        r@ == cflags_name(),
{
    let mut v: Vec<u8> = Vec::new();
    v.push(99);
    v.push(111);
    v.push(109);
    v.push(112);
    v.push(114);
    v.push(101);
    v.push(115);
    v.push(115);
    v.push(105);
    v.push(111);
    v.push(110);
    v.push(102);
    v.push(108);
    v.push(97);
    v.push(103);
    v.push(115);
    proof {
        reveal(cflags_name);
        assert(v@ =~= cflags_name());
    }
    v
}

/// The `endian_name` literal as bytes.
fn endian_name_vec() -> (r: Vec<u8>)
    ensures
        r@ == endian_name(),
{
    let mut v: Vec<u8> = Vec::new();
    v.push(101);
    v.push(110);
    v.push(100);
    v.push(105);
    v.push(97);
    v.push(110);
    v.push(110);
    v.push(101);
    v.push(115);
    v.push(115);
    proof {
        reveal(endian_name);
        assert(v@ =~= endian_name());
    }
    v
}

/// The `big_name` literal as bytes.
fn big_name_vec() -> (r: Vec<u8>)
    ensures
        r@ == big_name(),
{
    let mut v: Vec<u8> = Vec::new();
    v.push(98);
    v.push(105);
    v.push(103);
    proof {
        reveal(big_name);
        assert(v@ =~= big_name());
    }
    v
}

/// The `little_name` literal as bytes.
fn little_name_vec() -> (r: Vec<u8>)
    ensures
        r@ == little_name(),
{
    let mut v: Vec<u8> = Vec::new();
    v.push(108);
    v.push(105);
    v.push(116);
    v.push(116);
    v.push(108);
    v.push(101);
    proof {
        reveal(little_name);
        assert(v@ =~= little_name());
    }
    v
}

/// Which code a name denotes.
fn code_disc_exec(s: &Vec<u8>) -> (r: Option<u8>)
    ensures
        r == code_disc_of(s@),
{
    let c0 = cname_vec(0);
    if bytes_eq(s, &c0) {
        return Some(0);
    }
    let c1 = cname_vec(1);
    if bytes_eq(s, &c1) {
        return Some(1);
    }
    let c2 = cname_vec(2);
    if bytes_eq(s, &c2) {
        return Some(2);
    }
    let c3 = cname_vec(3);
    if bytes_eq(s, &c3) {
        return Some(3);
    }
    None
}

/// Which field a token names and which code it assigns.
fn token_slot_exec(t: &Vec<u8>) -> (r: Option<(u8, u8)>)
    ensures
        match r {
            Some((f, w)) => token_slot(t@) == Some((f as int, w)),
            None => token_slot(t@) is None,
        },
{
    let po = pre_out_vec();
    if has_prefix(t, &po) {
        let suf = copy_range(t, po.len(), t.len());
        return match code_disc_exec(&suf) {
            Some(w) => Some((0, w)),
            None => None,
        };
    }
    let pr = pre_refs_vec();
    if has_prefix(t, &pr) {
        let suf = copy_range(t, pr.len(), t.len());
        return match code_disc_exec(&suf) {
            Some(w) => Some((1, w)),
            None => None,
        };
    }
    let pb = pre_blocks_vec();
    if has_prefix(t, &pb) {
        let suf = copy_range(t, pb.len(), t.len());
        return match code_disc_exec(&suf) {
            Some(w) => Some((2, w)),
            None => None,
        };
    }
    let pi = pre_ints_vec();
    if has_prefix(t, &pi) {
        let suf = copy_range(t, pi.len(), t.len());
        return match code_disc_exec(&suf) {
            Some(w) => Some((3, w)),
            None => None,
        };
    }
    let ps = pre_res_vec();
    if has_prefix(t, &ps) {
        let suf = copy_range(t, ps.len(), t.len());
        return match code_disc_exec(&suf) {
            Some(w) => Some((4, w)),
            None => None,
        };
    }
    None
}

/// Read a whole `compressionflags` value.
#[verifier::rlimit(100)]
#[verifier::spinoff_prover]
#[verifier::loop_isolation(false)]
fn parse_flags_value(v: &Vec<u8>) -> (r: Option<
    (Option<u8>, Option<u8>, Option<u8>, Option<u8>, Option<u8>),
>)
    ensures
        r == flag_slots(v@),
{
    let ghost dl = v@.len() as int;
    let mut slots: (Option<u8>, Option<u8>, Option<u8>, Option<u8>, Option<u8>) = (
        None,
        None,
        None,
        None,
        None,
    );
    let mut pos: usize = 0;
    proof {
        assert(v@.subrange(0, dl) =~= v@);
    }
    while pos < v.len()
        invariant
            pos <= v@.len(),
            flag_slots(v@) == fold_tokens(
                split_at_byte(v@.subrange(pos as int, v@.len() as int), 44),
                slots,
            ),
        decreases v@.len() - pos,
    {
        let ghost sfx = v@.subrange(pos as int, dl);
        let e = scan_to(v, pos, 44);
        let tok = copy_range(v, pos, e);
        let ghost t0 = sfx.subrange(0, e - pos);
        proof {
            assert(t0 =~= tok@);
        }
        let fw = match token_slot_exec(&tok) {
            Some(x) => x,
            None => {
                proof {
                    let lines = split_at_byte(sfx, 44);
                    if e - pos == sfx.len() {
                        assert(t0 =~= sfx);
                        assert(lines == seq![sfx]);
                        assert(lines[0] == sfx);
                    } else {
                        let rest = split_at_byte(sfx.subrange(e - pos + 1, sfx.len() as int), 44);
                        assert(lines == seq![t0] + rest);
                        assert((seq![t0] + rest)[0] == t0);
                    }
                }
                return None;
            },
        };
        slots = match fw.0 {
            0 => (Some(fw.1), slots.1, slots.2, slots.3, slots.4),
            1 => (slots.0, Some(fw.1), slots.2, slots.3, slots.4),
            2 => (slots.0, slots.1, Some(fw.1), slots.3, slots.4),
            3 => (slots.0, slots.1, slots.2, Some(fw.1), slots.4),
            _ => (slots.0, slots.1, slots.2, slots.3, Some(fw.1)),
        };
        proof {
            let lines = split_at_byte(sfx, 44);
            if e - pos == sfx.len() {
                assert(t0 =~= sfx);
                assert(lines == seq![sfx]);
                assert(lines[0] == sfx);
                assert(seq![sfx].subrange(1, 1) =~= Seq::<Seq<u8>>::empty());
                assert(v@.subrange(e as int, dl) =~= Seq::<u8>::empty());
            } else {
                let rest = split_at_byte(sfx.subrange(e - pos + 1, sfx.len() as int), 44);
                assert(lines == seq![t0] + rest);
                assert((seq![t0] + rest)[0] == t0);
                assert((seq![t0] + rest).subrange(1, (seq![t0] + rest).len() as int) =~= rest);
                assert(sfx.subrange(e - pos + 1, sfx.len() as int) =~= v@.subrange(e + 1, dl));
            }
        }
        pos = if e < v.len() {
            e + 1
        } else {
            e
        };
    }
    proof {
        assert(v@.subrange(pos as int, dl) =~= Seq::<u8>::empty());
    }
    Some(slots)
}

/// A required numeric key: absent or non-numeric refuses the text.
pub open spec fn req_u64(data: Seq<u8>, key: Seq<u8>) -> Option<u64> {
    match lookup(data, key) {
        None => None,
        Some(v) => spec_u64(v),
    }
}

/// An optional numeric key with its default.
pub open spec fn opt_u64_or(data: Seq<u8>, key: Seq<u8>, dflt: u64) -> Option<u64> {
    match lookup(data, key) {
        None => Some(dflt),
        Some(v) => spec_u64(v),
    }
}

/// The recorded endianness: `big` when the key is absent, refused on any
/// other value.
pub open spec fn spec_endian_of(data: Seq<u8>) -> Option<BitOrder> {
    match lookup(data, endian_name()) {
        None => Some(BitOrder::M2L),
        Some(v) => if v == big_name() {
            Some(BitOrder::M2L)
        } else if v == little_name() {
            Some(BitOrder::L2M)
        } else {
            None
        },
    }
}

/// What the `compressionflags` key assigns: nothing at all when absent.
pub open spec fn spec_slots_of(data: Seq<u8>) -> Option<
    (Option<u8>, Option<u8>, Option<u8>, Option<u8>, Option<u8>),
> {
    match lookup(data, cflags_name()) {
        None => Some((None, None, None, None, None)),
        Some(v) => flag_slots(v),
    }
}

/// A recorded discriminant, or the field's default.
pub open spec fn default_disc(o: Option<u8>, d: u8) -> u8 {
    match o {
        Some(x) => x,
        None => d,
    }
}

/// The code a discriminant denotes; a ζ code takes the recorded factor.
pub open spec fn code_from_disc(w: u8, zk: u64) -> Code {
    if w == 0 {
        Code::Unary
    } else if w == 1 {
        Code::Gamma
    } else if w == 2 {
        Code::Delta
    } else {
        Code::Zeta { k: zk }
    }
}

/// What a `.properties` text records, read as key/value lines in any
/// order: comment and blank lines are passed over, a later line for the
/// same key wins, `nodes` and `arcs` are required decimals, the window
/// parameters and the ζ factor take their defaults when absent, the
/// `compressionflags` tokens may come in any order with the unnamed fields
/// at their defaults, and a missing `endianness` means big-endian. `None`
/// refuses the text.
pub open spec fn spec_props(data: Seq<u8>) -> Option<(u64, u64, CompFlags, BitOrder)> {
    let nodes = req_u64(data, key_nodes());
    let arcs = req_u64(data, key_arcs());
    let slots = spec_slots_of(data);
    let zk = opt_u64_or(data, key_zetak(), 3);
    let vw = opt_u64_or(data, key_window(), 7);
    let vm = opt_u64_or(data, key_maxref(), 3);
    let vi = opt_u64_or(data, key_minint(), 4);
    let ord = spec_endian_of(data);
    match (nodes, arcs, slots, zk, vw, vm, vi, ord) {
        (
            Some(n),
            Some(a),
            Some(sl),
            Some(zkv),
            Some(vwv),
            Some(vmv),
            Some(viv),
            Some(o),
        ) => {
            if vwv <= usize::MAX && vmv <= usize::MAX && viv <= usize::MAX {
                Some(
                    (
                        n,
                        a,
                        CompFlags {
                            outdegrees: code_from_disc(default_disc(sl.0, 1), zkv),
                            references: code_from_disc(default_disc(sl.1, 0), zkv),
                            blocks: code_from_disc(default_disc(sl.2, 1), zkv),
                            intervals: code_from_disc(default_disc(sl.3, 1), zkv),
                            residuals: code_from_disc(default_disc(sl.4, 3), zkv),
                            compression_window: vwv as usize,
                            max_ref_count: vmv as usize,
                            min_interval_length: viv as usize,
                        },
                        o,
                    ),
                )
            } else {
                None
            }
        },
        _ => None,
    }
}

/// The code a discriminant denotes.
fn code_from_disc_exec(w: u8, zk: u64) -> (r: Code)
    ensures
        r == code_from_disc(w, zk),
{
    if w == 0 {
        Code::Unary
    } else if w == 1 {
        Code::Gamma
    } else if w == 2 {
        Code::Delta
    } else {
        Code::Zeta { k: zk }
    }
}

/// Read a required decimal key.
fn req_u64_exec(data: &Vec<u8>, key: &Vec<u8>) -> (r: Option<u64>)
    ensures
        r == req_u64(data@, key@),
{
    match lookup_exec(data, key) {
        None => None,
        Some(v) => parse_u64_exec(&v),
    }
}

/// Read an optional decimal key with its default.
fn opt_u64_exec(data: &Vec<u8>, key: &Vec<u8>, dflt: u64) -> (r: Option<u64>)
    ensures
        r == opt_u64_or(data@, key@, dflt),
{
    match lookup_exec(data, key) {
        None => Some(dflt),
        Some(v) => parse_u64_exec(&v),
    }
}

/// Read the recorded endianness alone, as the order it names: `big` when
/// the key is absent, an error on any other value.
pub fn parse_endianness(data: &Vec<u8>) -> (r: Result<BitOrder, GraphError>)
    ensures
        match r {
            Ok(o) => spec_endian_of(data@) == Some(o),
            Err(e) => spec_endian_of(data@) is None && e == GraphError::PropertyMismatch,
        },
{
    let ek = endian_name_vec();
    match lookup_exec(data, &ek) {
        None => Ok(BitOrder::M2L),
        Some(v) => {
            let b = big_name_vec();
            if bytes_eq(&v, &b) {
                return Ok(BitOrder::M2L);
            }
            let l = little_name_vec();
            if bytes_eq(&v, &l) {
                return Ok(BitOrder::L2M);
            }
            Err(GraphError::PropertyMismatch)
        },
    }
}

/// Parse a `.properties` byte text into the parameters it records, as
/// key/value lines in any order with comments, defaults and a big-endian
/// fallback: accepted exactly when `spec_props` accepts it, returning
/// exactly what it reads.
pub fn parse_properties(data: &Vec<u8>) -> (r: Result<(u64, u64, CompFlags, BitOrder), GraphError>)
    ensures
        match r {
            Ok(t) => spec_props(data@) == Some(t),
            Err(e) => spec_props(data@) is None && e == GraphError::PropertyMismatch,
        },
{
    let k1 = nodes_key();
    let nodes = match req_u64_exec(data, &k1) {
        Some(x) => x,
        None => {
            return Err(GraphError::PropertyMismatch);
        },
    };
    let k2 = arcs_key();
    let arcs = match req_u64_exec(data, &k2) {
        Some(x) => x,
        None => {
            return Err(GraphError::PropertyMismatch);
        },
    };
    let ck = cflags_name_vec();
    let slots = match lookup_exec(data, &ck) {
        None => (None, None, None, None, None),
        Some(v) => match parse_flags_value(&v) {
            Some(sl) => sl,
            None => {
                return Err(GraphError::PropertyMismatch);
            },
        },
    };
    let k6 = zetak_key();
    let zk = match opt_u64_exec(data, &k6, 3) {
        Some(x) => x,
        None => {
            return Err(GraphError::PropertyMismatch);
        },
    };
    let k3 = window_key();
    let vw = match opt_u64_exec(data, &k3, 7) {
        Some(x) => x,
        None => {
            return Err(GraphError::PropertyMismatch);
        },
    };
    let k4 = maxref_key();
    let vm = match opt_u64_exec(data, &k4, 3) {
        Some(x) => x,
        None => {
            return Err(GraphError::PropertyMismatch);
        },
    };
    let k5 = minint_key();
    let vi = match opt_u64_exec(data, &k5, 4) {
        Some(x) => x,
        None => {
            return Err(GraphError::PropertyMismatch);
        },
    };
    let order = match parse_endianness(data) {
        Ok(o) => o,
        Err(e) => {
            return Err(e);
        },
    };
    if vw as u128 > usize::MAX as u128 || vm as u128 > usize::MAX as u128 || vi as u128
        > usize::MAX as u128 {
        return Err(GraphError::PropertyMismatch);
    }
    let w0 = match slots.0 {
        Some(x) => x,
        None => 1,
    };
    let w1 = match slots.1 {
        Some(x) => x,
        None => 0,
    };
    let w2 = match slots.2 {
        Some(x) => x,
        None => 1,
    };
    let w3 = match slots.3 {
        Some(x) => x,
        None => 1,
    };
    let w4 = match slots.4 {
        Some(x) => x,
        None => 3,
    };
    let f = CompFlags {
        outdegrees: code_from_disc_exec(w0, zk),
        references: code_from_disc_exec(w1, zk),
        blocks: code_from_disc_exec(w2, zk),
        intervals: code_from_disc_exec(w3, zk),
        residuals: code_from_disc_exec(w4, zk),
        compression_window: vw as usize,
        max_ref_count: vm as usize,
        min_interval_length: vi as usize,
    };
    Ok((nodes, arcs, f, order))
}

} // verus!
