//! The adjacency record codec: each node's sorted successor list is split
//! into maximal runs of consecutive ids (intervals) and leftovers
//! (residuals), and written as one record of coded gaps. Reading a record
//! back yields exactly the list that was written.

use vstd::prelude::*;

verus! {

use crate::bits::BitOrder;
use crate::comp_flags::Code;
use crate::comp_flags::CompFlags;
use crate::comp_flags::code_bits;
use crate::comp_flags::spec_read_code;
use crate::utils::zigzag;
use vstd::arithmetic::power2::pow2;

/// The length of the run of consecutive ids starting at `i`.
pub open spec fn run_len_at(s: Seq<usize>, i: int) -> nat
    decreases s.len() - i,
{
    if 0 <= i < s.len() - 1 && s[i + 1] == s[i] + 1 {
        1 + run_len_at(s, i + 1)
    } else {
        1
    }
}

/// Split the tail of `s` from `i` into intervals (maximal runs of
/// consecutive ids at least `min_len` long) and residuals (the rest).
pub open spec fn split_ints(s: Seq<usize>, i: int, min_len: nat) -> (
    Seq<(usize, nat)>,
    Seq<usize>,
)
    decreases s.len() - i,
    via split_ints_decreases
{
    if i < 0 || i >= s.len() {
        (Seq::empty(), Seq::empty())
    } else {
        let rl = run_len_at(s, i);
        let rest = split_ints(s, i + rl, min_len);
        if rl >= min_len {
            (seq![(s[i], rl)] + rest.0, rest.1)
        } else {
            (rest.0, s.subrange(i, i + rl) + rest.1)
        }
    }
}

#[via_fn]
proof fn split_ints_decreases(s: Seq<usize>, i: int, min_len: nat) {
    if 0 <= i < s.len() {
        lemma_run_len_at_bounds(s, i);
    }
}

/// A run starting inside the row is at least one id long and stays inside
/// the row.
pub proof fn lemma_run_len_at_bounds(s: Seq<usize>, i: int)
    requires
        0 <= i < s.len(),
    ensures
        1 <= run_len_at(s, i) <= s.len() - i,
    decreases s.len() - i,
{
    if i < s.len() - 1 && s[i + 1] == s[i] + 1 {
        lemma_run_len_at_bounds(s, i + 1);
    }
}

/// The ids an interval list holds, in order.
pub open spec fn expand_ints(ivs: Seq<(usize, nat)>) -> Seq<usize>
    decreases ivs.len(),
{
    if ivs.len() == 0 {
        Seq::empty()
    } else {
        Seq::new(ivs[0].1, |q: int| (ivs[0].0 + q) as usize) + expand_ints(ivs.drop_first())
    }
}

/// Merging two sorted runs of ids.
pub open spec fn merge2(a: Seq<usize>, b: Seq<usize>) -> Seq<usize>
    decreases a.len() + b.len(),
{
    if a.len() == 0 {
        b
    } else if b.len() == 0 {
        a
    } else if a[0] <= b[0] {
        seq![a[0]] + merge2(a.drop_first(), b)
    } else {
        seq![b[0]] + merge2(a, b.drop_first())
    }
}

/// The bits of an interval list: the first start as a signed gap from the
/// node, later starts as gaps from the previous interval's end, lengths
/// shifted down by the threshold.
pub open spec fn ivs_bits(
    order: BitOrder,
    c: Code,
    ivs: Seq<(usize, nat)>,
    prev: int,
    first: bool,
    min_len: nat,
) -> Seq<bool>
    decreases ivs.len(),
{
    if ivs.len() == 0 {
        Seq::empty()
    } else {
        let st = ivs[0].0 as int;
        let l = ivs[0].1;
        let gap: nat = if first {
            zigzag(st - prev) as nat
        } else {
            (st - prev) as nat
        };
        code_bits(order, c, gap) + code_bits(order, c, (l - min_len) as nat) + ivs_bits(
            order,
            c,
            ivs.drop_first(),
            st + l,
            false,
            min_len,
        )
    }
}

/// The bits of a residual list: the first id as a signed gap from the node,
/// later ids as gaps from their predecessor.
pub open spec fn res_bits(
    order: BitOrder,
    c: Code,
    res: Seq<usize>,
    prev: int,
    first: bool,
) -> Seq<bool>
    decreases res.len(),
{
    if res.len() == 0 {
        Seq::empty()
    } else {
        let x = res[0] as int;
        let gap: nat = if first {
            zigzag(x - prev) as nat
        } else {
            (x - prev) as nat
        };
        code_bits(order, c, gap) + res_bits(order, c, res.drop_first(), x, false)
    }
}

/// The sum of the lengths of an interval list.
pub open spec fn ivs_total(ivs: Seq<(usize, nat)>) -> nat
    decreases ivs.len(),
{
    if ivs.len() == 0 {
        0
    } else {
        ivs[0].1 + ivs_total(ivs.drop_first())
    }
}

/// The bits of one adjacency record for node `v` with successor list `s`,
/// under a zero compression window: the outdegree, then the interval list,
/// then the residuals.
pub open spec fn record_bits(order: BitOrder, flags: CompFlags, v: usize, s: Seq<usize>) -> Seq<
    bool,
> {
    let parts = split_ints(s, 0, flags.min_interval_length as nat);
    code_bits(order, flags.outdegrees, s.len()) + if s.len() == 0 {
        Seq::empty()
    } else {
        code_bits(order, flags.intervals, parts.0.len()) + ivs_bits(
            order,
            flags.intervals,
            parts.0,
            v as int,
            true,
            flags.min_interval_length as nat,
        ) + res_bits(order, flags.residuals, parts.1, v as int, true)
    }
}

/// Decoding an interval list of `k` intervals at `pos`.
pub open spec fn spec_read_ivs(
    order: BitOrder,
    c: Code,
    bs: Seq<bool>,
    pos: int,
    k: nat,
    prev: int,
    first: bool,
    min_len: nat,
) -> Option<(Seq<(usize, nat)>, int)>
    decreases k,
{
    if k == 0 {
        Some((Seq::empty(), pos))
    } else {
        match spec_read_code(order, c, bs, pos) {
            None => None,
            Some((g, p1)) => {
                let st: int = if first {
                    prev + crate::utils::unzigzag(g as int)
                } else {
                    prev + g
                };
                match spec_read_code(order, c, bs, p1) {
                    None => None,
                    Some((lraw, p2)) => {
                        let l = lraw + min_len;
                        if 0 <= st && st + l <= usize::MAX {
                            match spec_read_ivs(
                                order,
                                c,
                                bs,
                                p2,
                                (k - 1) as nat,
                                st + l,
                                false,
                                min_len,
                            ) {
                                None => None,
                                Some((rest, pe)) => Some(
                                    (seq![(st as usize, l)] + rest, pe),
                                ),
                            }
                        } else {
                            None
                        }
                    },
                }
            },
        }
    }
}

/// Decoding `k` residuals at `pos`.
pub open spec fn spec_read_res(
    order: BitOrder,
    c: Code,
    bs: Seq<bool>,
    pos: int,
    k: nat,
    prev: int,
    first: bool,
) -> Option<(Seq<usize>, int)>
    decreases k,
{
    if k == 0 {
        Some((Seq::empty(), pos))
    } else {
        match spec_read_code(order, c, bs, pos) {
            None => None,
            Some((g, p1)) => {
                let x: int = if first {
                    prev + crate::utils::unzigzag(g as int)
                } else {
                    prev + g
                };
                if 0 <= x <= usize::MAX {
                    match spec_read_res(order, c, bs, p1, (k - 1) as nat, x, false) {
                        None => None,
                        Some((rest, pe)) => Some((seq![x as usize] + rest, pe)),
                    }
                } else {
                    None
                }
            },
        }
    }
}

/// Decoding one adjacency record for node `v` at `pos`, under a zero
/// compression window: yields the interval list and the residual list.
pub open spec fn spec_read_record(
    order: BitOrder,
    flags: CompFlags,
    bs: Seq<bool>,
    pos: int,
    v: usize,
) -> Option<((nat, Seq<(usize, nat)>, Seq<usize>), int)> {
    match spec_read_code(order, flags.outdegrees, bs, pos) {
        None => None,
        Some((d, p0)) => {
            if d == 0 {
                Some(((0, Seq::empty(), Seq::empty()), p0))
            } else {
                match spec_read_code(order, flags.intervals, bs, p0) {
                    None => None,
                    Some((k, p1)) => match spec_read_ivs(
                        order,
                        flags.intervals,
                        bs,
                        p1,
                        k,
                        v as int,
                        true,
                        flags.min_interval_length as nat,
                    ) {
                        None => None,
                        Some((ivs, p2)) => {
                            if ivs_total(ivs) <= d {
                                let rc = (d - ivs_total(ivs)) as nat;
                                match spec_read_res(
                                    order,
                                    flags.residuals,
                                    bs,
                                    p2,
                                    rc,
                                    v as int,
                                    true,
                                ) {
                                    None => None,
                                    Some((res, p3)) => Some(((d, ivs, res), p3)),
                                }
                            } else {
                                None
                            }
                        },
                    },
                }
            }
        },
    }
}

/// The values an interval list encodes are exactly representable.
pub open spec fn ivs_writable(
    c: Code,
    ivs: Seq<(usize, nat)>,
    prev: int,
    first: bool,
    min_len: nat,
) -> bool
    decreases ivs.len(),
{
    ivs.len() == 0 || {
        let st = ivs[0].0 as int;
        let l = ivs[0].1;
        &&& l >= min_len
        &&& st + l <= usize::MAX
        &&& (!first ==> st >= prev)
        &&& c.writable(
            if first {
                zigzag(st - prev) as nat
            } else {
                (st - prev) as nat
            },
        )
        &&& (first ==> zigzag(st - prev) >= 0)
        &&& c.writable((l - min_len) as nat)
        &&& ivs_writable(c, ivs.drop_first(), st + l, false, min_len)
    }
}

/// The values a residual list encodes are exactly representable.
pub open spec fn res_writable(c: Code, res: Seq<usize>, prev: int, first: bool) -> bool
    decreases res.len(),
{
    res.len() == 0 || {
        let x = res[0] as int;
        &&& (!first ==> x >= prev)
        &&& c.writable(
            if first {
                zigzag(x - prev) as nat
            } else {
                (x - prev) as nat
            },
        )
        &&& (first ==> zigzag(x - prev) >= 0)
        &&& res_writable(c, res.drop_first(), x, false)
    }
}

/// The whole record for `(v, s)` encodes exactly representable values.
pub open spec fn record_writable(flags: CompFlags, v: usize, s: Seq<usize>) -> bool {
    let parts = split_ints(s, 0, flags.min_interval_length as nat);
    &&& flags.ok()
    &&& flags.outdegrees.writable(s.len())
    &&& (s.len() > 0 ==> {
        &&& flags.intervals.writable(parts.0.len())
        &&& ivs_writable(
            flags.intervals,
            parts.0,
            v as int,
            true,
            flags.min_interval_length as nat,
        )
        &&& res_writable(flags.residuals, parts.1, v as int, true)
    })
}

/// Reading an interval list right after writing one returns the written
/// intervals.
#[verifier::rlimit(100)]
#[verifier::spinoff_prover]
pub proof fn lemma_ivs_round_trip(
    order: BitOrder,
    c: Code,
    prefix: Seq<bool>,
    ivs: Seq<(usize, nat)>,
    prev: int,
    first: bool,
    min_len: nat,
    rest: Seq<bool>,
)
    requires
        c.ok(),
        ivs_writable(c, ivs, prev, first, min_len),
        first ==> 0 <= prev <= usize::MAX,
    ensures
        spec_read_ivs(
            order,
            c,
            prefix + ivs_bits(order, c, ivs, prev, first, min_len) + rest,
            prefix.len() as int,
            ivs.len(),
            prev,
            first,
            min_len,
        ) == Some((ivs, (prefix.len() + ivs_bits(order, c, ivs, prev, first, min_len).len()) as int)),
    decreases ivs.len(),
{
    if ivs.len() == 0 {
        assert(prefix + ivs_bits(order, c, ivs, prev, first, min_len) + rest =~= prefix + rest);
    } else {
        let st = ivs[0].0 as int;
        let l = ivs[0].1;
        let gap: nat = if first {
            zigzag(st - prev) as nat
        } else {
            (st - prev) as nat
        };
        let g1 = code_bits(order, c, gap);
        let g2 = code_bits(order, c, (l - min_len) as nat);
        let tail = ivs_bits(order, c, ivs.drop_first(), st + l, false, min_len);
        let bs = prefix + ivs_bits(order, c, ivs, prev, first, min_len) + rest;
        crate::sort_pairs::lemma_seq_assoc3(prefix, g1, g2, tail, rest);
        assert(ivs_bits(order, c, ivs, prev, first, min_len) == g1 + g2 + tail);
        crate::comp_flags::lemma_code_round_trip(order, c, prefix, gap, g2 + tail + rest);
        assert(g2 + tail + rest =~= g2 + (tail + rest));
        assert(prefix + g1 + (g2 + tail + rest) =~= prefix + g1 + (g2 + (tail + rest)));
        crate::comp_flags::lemma_code_round_trip(
            order,
            c,
            prefix + g1,
            (l - min_len) as nat,
            tail + rest,
        );
        lemma_ivs_round_trip(
            order,
            c,
            prefix + g1 + g2,
            ivs.drop_first(),
            st + l,
            false,
            min_len,
            rest,
        );
        if first {
            crate::utils::lemma_zigzag_unzigzag(st - prev);
        }
        assert(seq![(st as usize, l)] + ivs.drop_first() =~= ivs);
        let bs = prefix + ivs_bits(order, c, ivs, prev, first, min_len) + rest;
        let p0 = prefix.len() as int;
        let p1 = p0 + g1.len() as int;
        let p2 = p1 + g2.len() as int;
        assert(spec_read_code(order, c, bs, p0) == Some((gap, p1)));
        assert(spec_read_code(order, c, bs, p1) == Some(((l - min_len) as nat, p2)));
        assert(spec_read_ivs(order, c, bs, p2, (ivs.len() - 1) as nat, st + l, false, min_len)
            == Some((ivs.drop_first(), p2 + tail.len())));
    }
}

/// Reading a residual list right after writing one returns the written
/// residuals.
#[verifier::rlimit(100)]
#[verifier::spinoff_prover]
pub proof fn lemma_res_round_trip(
    order: BitOrder,
    c: Code,
    prefix: Seq<bool>,
    res: Seq<usize>,
    prev: int,
    first: bool,
    rest: Seq<bool>,
)
    requires
        c.ok(),
        res_writable(c, res, prev, first),
        first ==> 0 <= prev <= usize::MAX,
    ensures
        spec_read_res(
            order,
            c,
            prefix + res_bits(order, c, res, prev, first) + rest,
            prefix.len() as int,
            res.len(),
            prev,
            first,
        ) == Some((res, (prefix.len() + res_bits(order, c, res, prev, first).len()) as int)),
    decreases res.len(),
{
    if res.len() == 0 {
        assert(prefix + res_bits(order, c, res, prev, first) + rest =~= prefix + rest);
    } else {
        let x = res[0] as int;
        let gap: nat = if first {
            zigzag(x - prev) as nat
        } else {
            (x - prev) as nat
        };
        let g1 = code_bits(order, c, gap);
        let tail = res_bits(order, c, res.drop_first(), x, false);
        let bs = prefix + res_bits(order, c, res, prev, first) + rest;
        crate::sort_pairs::lemma_seq_assoc2(prefix, g1, tail, rest);
        assert(res_bits(order, c, res, prev, first) == g1 + tail);
        crate::comp_flags::lemma_code_round_trip(order, c, prefix, gap, tail + rest);
        lemma_res_round_trip(order, c, prefix + g1, res.drop_first(), x, false, rest);
        if first {
            crate::utils::lemma_zigzag_unzigzag(x - prev);
        }
        assert(seq![x as usize] + res.drop_first() =~= res);
    }
}

/// The intervals and residuals of a split partition the row: their sizes
/// add up.
pub proof fn lemma_split_sizes(s: Seq<usize>, i: int, min_len: nat)
    requires
        0 <= i <= s.len(),
    ensures
        ivs_total(split_ints(s, i, min_len).0) + split_ints(s, i, min_len).1.len() == s.len() - i,
    decreases s.len() - i,
{
    if i < s.len() {
        lemma_run_len_at_bounds(s, i);
        let rl = run_len_at(s, i);
        lemma_split_sizes(s, i + rl, min_len);
        let rest = split_ints(s, i + rl, min_len);
        if rl >= min_len {
            assert((seq![(s[i], rl)] + rest.0).drop_first() =~= rest.0);
        }
    }
}

/// Everything from position `i` on is at least `s[i]`.
proof fn lemma_sorted_from(s: Seq<usize>, i: int, j: int)
    requires
        forall|a: int, b: int| #![trigger s[a], s[b]] 0 <= a < b < s.len() ==> s[a] < s[b],
        0 <= i <= j < s.len(),
    ensures
        s[i] <= s[j],
{
}

/// Merging the expanded intervals with the residuals of a split gives the
/// row back.
pub proof fn lemma_split_merge(s: Seq<usize>, i: int, min_len: nat)
    requires
        forall|a: int, b: int| #![trigger s[a], s[b]] 0 <= a < b < s.len() ==> s[a] < s[b],
        0 <= i <= s.len(),
    ensures
        merge2(
            expand_ints(split_ints(s, i, min_len).0),
            split_ints(s, i, min_len).1,
        ) == s.subrange(i, s.len() as int),
    decreases s.len() - i,
{
    if i >= s.len() {
        assert(s.subrange(i, s.len() as int) =~= Seq::<usize>::empty());
    } else {
        lemma_run_len_at_bounds(s, i);
        let rl = run_len_at(s, i);
        lemma_split_merge(s, i + rl, min_len);
        lemma_run_is_consecutive(s, i);
        let run = s.subrange(i, i + rl);
        let rest = split_ints(s, i + rl, min_len);
        let tail = s.subrange(i + rl, s.len() as int);
        assert(merge2(expand_ints(rest.0), rest.1) == tail);
        if rl >= min_len {
            let ivs = seq![(s[i], rl)] + rest.0;
            assert(ivs.drop_first() =~= rest.0);
            assert(expand_ints(ivs) =~= run + expand_ints(rest.0)) by {
                assert forall|q: int| 0 <= q < rl implies run[q] == (s[i] + q) as usize by {
                    assert(s[i + q] == s[i] + q);
                }
                assert(Seq::new(rl, |q: int| (s[i] + q) as usize) =~= run);
            }
            lemma_merge2_prefix(run, expand_ints(rest.0), rest.1, tail);
            assert(run + tail =~= s.subrange(i, s.len() as int));
        } else {
            lemma_merge2_prefix_right(run, expand_ints(rest.0), rest.1, tail);
            assert(run + tail =~= s.subrange(i, s.len() as int));
        }
    }
}

/// The elements of a run are consecutive ids.
proof fn lemma_run_is_consecutive(s: Seq<usize>, i: int)
    requires
        0 <= i < s.len(),
    ensures
        forall|q: int|
            0 <= q < run_len_at(s, i) ==> i + q < s.len() && #[trigger] s[i + q] == s[i] + q,
    decreases s.len() - i,
{
    lemma_run_len_at_bounds(s, i);
    if i < s.len() - 1 && s[i + 1] == s[i] + 1 {
        lemma_run_is_consecutive(s, i + 1);
        assert forall|q: int|
            0 <= q < run_len_at(s, i) implies i + q < s.len() && #[trigger] s[i + q] == s[i]
            + q by {
            if q > 0 {
                assert(s[i + 1 + (q - 1)] == s[i + 1] + (q - 1));
            }
        }
    }
}

/// A run of ids all below both merged tails can be pulled out of the merge,
/// feeding the left side.
proof fn lemma_merge2_prefix(x: Seq<usize>, a: Seq<usize>, b: Seq<usize>, t: Seq<usize>)
    requires
        merge2(a, b) == t,
        forall|q: int, w: int|
            0 <= q < x.len() && 0 <= w < t.len() ==> #[trigger] x[q] < #[trigger] t[w],
    ensures
        merge2(x + a, b) == x + t,
    decreases x.len(),
{
    if x.len() == 0 {
        assert(x + a =~= a);
        assert(x + t =~= t);
    } else {
        if b.len() > 0 {
            assert(b.len() == 0 || t.contains(b[0])) by {
                lemma_merge2_membership(a, b);
            }
            assert(x[0] < b[0]);
        }
        assert((x + a)[0] == x[0]);
        assert((x + a).drop_first() =~= x.drop_first() + a);
        lemma_merge2_prefix(x.drop_first(), a, b, t);
        if b.len() == 0 {
            assert(merge2(x + a, b) =~= x + a);
            assert(x + t =~= x + a);
        } else {
            assert(merge2(x + a, b) == seq![x[0]] + merge2(x.drop_first() + a, b));
            assert(seq![x[0]] + (x.drop_first() + t) =~= x + t);
        }
    }
}

/// A run of ids all below both merged tails can be pulled out of the merge,
/// feeding the right side.
proof fn lemma_merge2_prefix_right(x: Seq<usize>, a: Seq<usize>, b: Seq<usize>, t: Seq<usize>)
    requires
        merge2(a, b) == t,
        forall|q: int, w: int|
            0 <= q < x.len() && 0 <= w < t.len() ==> #[trigger] x[q] < #[trigger] t[w],
    ensures
        merge2(a, x + b) == x + t,
    decreases x.len(),
{
    if x.len() == 0 {
        assert(x + b =~= b);
        assert(x + t =~= t);
    } else {
        if a.len() > 0 {
            assert(t.contains(a[0])) by {
                lemma_merge2_membership(a, b);
            }
            assert(x[0] < a[0]);
        }
        assert((x + b)[0] == x[0]);
        assert((x + b).drop_first() =~= x.drop_first() + b);
        lemma_merge2_prefix_right(x.drop_first(), a, b, t);
        if a.len() == 0 {
            assert(merge2(a, x + b) =~= x + b);
            assert(x + t =~= x + b);
        } else {
            assert(merge2(a, x + b) == seq![x[0]] + merge2(a, x.drop_first() + b));
            assert(seq![x[0]] + (x.drop_first() + t) =~= x + t);
        }
    }
}

/// The heads of both runs appear in their merge.
proof fn lemma_merge2_membership(a: Seq<usize>, b: Seq<usize>)
    ensures
        a.len() > 0 ==> merge2(a, b).contains(a[0]),
        b.len() > 0 ==> merge2(a, b).contains(b[0]),
    decreases a.len() + b.len(),
{
    if a.len() > 0 && b.len() > 0 {
        if a[0] <= b[0] {
            lemma_merge2_membership(a.drop_first(), b);
            assert(merge2(a, b)[0] == a[0]);
            assert(merge2(a, b).contains(a[0]));
            let m1 = merge2(a.drop_first(), b);
            assert(m1.contains(b[0]));
            let q = choose|q: int| 0 <= q < m1.len() && m1[q] == b[0];
            assert(merge2(a, b)[q + 1] == b[0]);
            assert(merge2(a, b).contains(b[0]));
        } else {
            lemma_merge2_membership(a, b.drop_first());
            assert(merge2(a, b)[0] == b[0]);
            assert(merge2(a, b).contains(b[0]));
            let m1 = merge2(a, b.drop_first());
            assert(m1.contains(a[0]));
            let q = choose|q: int| 0 <= q < m1.len() && m1[q] == a[0];
            assert(merge2(a, b)[q + 1] == a[0]);
            assert(merge2(a, b).contains(a[0]));
        }
    } else if a.len() > 0 {
        assert(merge2(a, b) == a);
        assert(merge2(a, b)[0] == a[0]);
    } else if b.len() > 0 {
        assert(merge2(a, b) == b);
        assert(merge2(a, b)[0] == b[0]);
    }
}

/// Reading a record right after writing one returns the split that was
/// written: the record round trip, stated on the bits themselves.
#[verifier::rlimit(100)]
#[verifier::spinoff_prover]
pub proof fn lemma_record_round_trip(
    order: BitOrder,
    flags: CompFlags,
    prefix: Seq<bool>,
    v: usize,
    s: Seq<usize>,
    rest: Seq<bool>,
)
    requires
        record_writable(flags, v, s),
    ensures
        ({
            let parts = split_ints(s, 0, flags.min_interval_length as nat);
            spec_read_record(
                order,
                flags,
                prefix + record_bits(order, flags, v, s) + rest,
                prefix.len() as int,
                v,
            ) == Some(
                ((s.len(), parts.0, parts.1), (prefix.len() + record_bits(order, flags, v, s).len()) as int),
            )
        }),
{
    let parts = split_ints(s, 0, flags.min_interval_length as nat);
    let ml = flags.min_interval_length as nat;
    let g0 = code_bits(order, flags.outdegrees, s.len());
    let bs = prefix + record_bits(order, flags, v, s) + rest;
    if s.len() == 0 {
        assert(bs =~= prefix + g0 + rest);
        crate::comp_flags::lemma_code_round_trip(order, flags.outdegrees, prefix, s.len(), rest);
        assert(parts.0 =~= Seq::<(usize, nat)>::empty());
        assert(parts.1 =~= Seq::<usize>::empty());
    } else {
        let gk = code_bits(order, flags.intervals, parts.0.len());
        let gi = ivs_bits(order, flags.intervals, parts.0, v as int, true, ml);
        let gr = res_bits(order, flags.residuals, parts.1, v as int, true);
        assert(record_bits(order, flags, v, s) == g0 + (gk + gi + gr));
        assert(bs =~= prefix + g0 + ((gk + gi + gr) + rest));
        crate::comp_flags::lemma_code_round_trip(
            order,
            flags.outdegrees,
            prefix,
            s.len(),
            (gk + gi + gr) + rest,
        );
        let p0 = prefix.len() + g0.len();
        assert(bs =~= (prefix + g0) + gk + (gi + (gr + rest)));
        crate::comp_flags::lemma_code_round_trip(
            order,
            flags.intervals,
            prefix + g0,
            parts.0.len(),
            gi + (gr + rest),
        );
        assert(bs =~= ((prefix + g0) + gk) + gi + (gr + rest));
        lemma_ivs_round_trip(
            order,
            flags.intervals,
            (prefix + g0) + gk,
            parts.0,
            v as int,
            true,
            ml,
            gr + rest,
        );
        assert(bs =~= (((prefix + g0) + gk) + gi) + gr + rest);
        lemma_res_round_trip(
            order,
            flags.residuals,
            ((prefix + g0) + gk) + gi,
            parts.1,
            v as int,
            true,
            rest,
        );
        lemma_split_sizes(s, 0, ml);
    }
}

/// Consecutive steps extend a run.
proof fn lemma_run_len_shift(s: Seq<usize>, i: int, k: int)
    requires
        0 <= i,
        0 <= k,
        i + k < s.len(),
        forall|j: int| i <= j < i + k ==> j + 1 < s.len() && #[trigger] s[j + 1] == s[j] + 1,
    ensures
        run_len_at(s, i) == k + run_len_at(s, i + k),
    decreases k,
{
    if k > 0 {
        assert(s[i + 1] == s[i] + 1);
        lemma_run_len_shift(s, i + 1, k - 1);
    }
}

/// The interval list and residual list of a row, computed as vectors: the
/// executable face of the split.
#[verifier::loop_isolation(false)]
pub fn split_row(row: &Vec<usize>, min_len: usize) -> (r: (Vec<(usize, usize)>, Vec<usize>))
    requires
        min_len >= 1,
    ensures
        ({
            let parts = split_ints(row@, 0, min_len as nat);
            &&& r.0@.map_values(|p: (usize, usize)| (p.0, p.1 as nat)) == parts.0
            &&& r.1@ == parts.1
        }),
{
    let ghost s = row@;
    let ghost ml = min_len as nat;
    let mut ivs: Vec<(usize, usize)> = Vec::new();
    let mut res: Vec<usize> = Vec::new();
    let mut i: usize = 0;
    while i < row.len()
        invariant
            i <= s.len(),
            split_ints(s, 0, ml).0 =~= ivs@.map_values(|p: (usize, usize)| (p.0, p.1 as nat))
                + split_ints(s, i as int, ml).0,
            split_ints(s, 0, ml).1 =~= res@ + split_ints(s, i as int, ml).1,
        decreases s.len() - i,
    {
        let start = row[i];
        let mut rl: usize = 1;
        while i + rl < row.len() && row[i + rl - 1] < usize::MAX && row[i + rl] == row[i + rl - 1]
            + 1
            invariant
                1 <= rl,
                i + rl <= s.len(),
                forall|j: int| i <= j < i + rl - 1 ==> j + 1 < s.len() && #[trigger] s[j + 1] == s[j] + 1,
            decreases s.len() - i - rl,
        {
            rl = rl + 1;
        }
        proof {
            lemma_run_len_shift(s, i as int, rl - 1);
            assert(run_len_at(s, i + rl - 1) == 1);
            assert(run_len_at(s, i as int) == rl);
            lemma_run_len_at_bounds(s, i as int);
        }
        if rl >= min_len {
            let ghost pre = ivs@;
            ivs.push((start, rl));
            proof {
                assert(ivs@.map_values(|p: (usize, usize)| (p.0, p.1 as nat)) =~= pre.map_values(
                    |p: (usize, usize)| (p.0, p.1 as nat),
                ).push((start, rl as nat)));
                assert(seq![(s[i as int], rl as nat)] + split_ints(s, i + rl, ml).0
                    =~= split_ints(s, i as int, ml).0);
            }
        } else {
            let mut q: usize = 0;
            let ghost pre = res@;
            while q < rl
                invariant
                    q <= rl,
                    i + rl <= s.len(),
                    res@ =~= pre + s.subrange(i as int, i + q),
                decreases rl - q,
            {
                res.push(row[i + q]);
                proof {
                    assert(pre + s.subrange(i as int, i + q) + seq![s[i + q]] =~= pre + s.subrange(
                        i as int,
                        i + q + 1,
                    ));
                }
                q = q + 1;
            }
            proof {
                assert(s.subrange(i as int, i + rl) + split_ints(s, i + rl, ml).1 =~= split_ints(
                    s,
                    i as int,
                    ml,
                ).1);
                assert(res@ =~= pre + s.subrange(i as int, i + rl));
            }
        }
        i = i + rl;
    }
    proof {
        assert(split_ints(s, s.len() as int, ml).0 =~= Seq::<(usize, nat)>::empty());
        assert(split_ints(s, s.len() as int, ml).1 =~= Seq::<usize>::empty());
        assert(split_ints(s, 0, ml).0 =~= ivs@.map_values(|p: (usize, usize)| (p.0, p.1 as nat)));
        assert(split_ints(s, 0, ml).1 =~= res@);
    }
    (ivs, res)
}

/// The largest node count the codec accepts.
pub open spec fn node_limit() -> nat {
    pow2(59)
}

/// A code whose values stay exactly representable for every quantity a
/// record of a bounded graph encodes.
pub open spec fn tame_code(c: Code) -> bool {
    match c {
        Code::Unary => false,
        Code::Gamma => true,
        Code::Delta => true,
        Code::Zeta { k } => 1 <= k <= 3,
    }
}

/// Parameters the codec can honour for every bounded graph: the codec
/// writes and reads the window-free record layout.
pub open spec fn flags_tame(f: CompFlags) -> bool {
    &&& f.ok()
    &&& f.compression_window == 0
    &&& tame_code(f.outdegrees)
    &&& tame_code(f.intervals)
    &&& tame_code(f.residuals)
}

/// Every value below `2^60` is exactly representable under a tame code.
proof fn lemma_writable_small(c: Code, x: nat)
    requires
        tame_code(c),
        x < pow2(60),
    ensures
        c.writable(x),
{
    vstd::arithmetic::power2::lemma_pow2_strictly_increases(60, 62);
    match c {
        Code::Zeta { k } => {
            crate::codes::lemma_floor_log2(x + 1);
            if crate::codes::floor_log2(x + 1) > 60 {
                vstd::arithmetic::power2::lemma_pow2_strictly_increases(
                    60,
                    crate::codes::floor_log2(x + 1),
                );
            }
        },
        _ => {},
    }
}

/// A residual chain over sorted ids within bounds is exactly representable.
proof fn lemma_res_writable_concat(
    c: Code,
    run: Seq<usize>,
    rest: Seq<usize>,
    prev: int,
    first: bool,
    n: nat,
)
    requires
        tame_code(c),
        n <= usize::MAX,
        n < node_limit(),
        forall|q: int| 0 <= q < run.len() ==> (#[trigger] run[q] as nat) < n,
        forall|q: int, w: int| #![trigger run[q], run[w]] 0 <= q < w < run.len() ==> run[q] < run[w],
        run.len() > 0 ==> (!first ==> prev <= run[0] as int),
        !first ==> prev >= 0,
        first ==> 0 <= prev <= n,
        run.len() > 0 ==> res_writable(c, rest, run.last() as int, false),
        run.len() == 0 ==> res_writable(c, rest, prev, first),
    ensures
        res_writable(c, run + rest, prev, first),
    decreases run.len(),
{
    vstd::arithmetic::power2::lemma_pow2_strictly_increases(59, 60);
    if run.len() == 0 {
        assert(run + rest =~= rest);
    } else {
        let x = run[0] as int;
        let gap: nat = if first {
            crate::utils::zigzag(x - prev) as nat
        } else {
            (x - prev) as nat
        };
        assert(gap < pow2(60)) by {
            vstd::arithmetic::power2::lemma_pow2_unfold(60);
        }
        lemma_writable_small(c, gap);
        if run.len() == 1 {
            assert(run.drop_first() =~= Seq::<usize>::empty());
            assert(run.drop_first() + rest =~= rest);
            lemma_res_writable_concat(c, run.drop_first(), rest, x, false, n);
        } else {
            assert(run.drop_first()[0] == run[1]);
            assert(run.drop_first().last() == run.last());
            lemma_res_writable_concat(c, run.drop_first(), rest, x, false, n);
        }
        assert((run + rest)[0] == run[0]);
        assert((run + rest).drop_first() =~= run.drop_first() + rest);
    }
}

/// Every record of a sorted row inside the node bound is exactly
/// representable under tame parameters.
pub proof fn lemma_record_writable_of_bounds(flags: CompFlags, v: usize, s: Seq<usize>, n: nat)
    requires
        flags_tame(flags),
        n <= usize::MAX,
        n < node_limit(),
        (v as nat) < n,
        s.len() <= n,
        forall|q: int| 0 <= q < s.len() ==> (#[trigger] s[q] as nat) < n,
        forall|q: int, w: int| #![trigger s[q], s[w]] 0 <= q < w < s.len() ==> s[q] < s[w],
    ensures
        record_writable(flags, v, s),
{
    vstd::arithmetic::power2::lemma_pow2_strictly_increases(59, 60);
    lemma_writable_small(flags.outdegrees, s.len());
    if s.len() > 0 {
        lemma_split_sizes(s, 0, flags.min_interval_length as nat);
        let parts = split_ints(s, 0, flags.min_interval_length as nat);
        assert(parts.0.len() <= s.len()) by {
            lemma_split_count(s, 0, flags.min_interval_length as nat);
        }
        lemma_writable_small(flags.intervals, parts.0.len());
        lemma_split_writable(flags, s, 0, v as int, true, v as int, true, n);
    }
}

/// A split never yields more pieces than the row has ids.
proof fn lemma_split_count(s: Seq<usize>, i: int, min_len: nat)
    requires
        0 <= i <= s.len(),
    ensures
        split_ints(s, i, min_len).0.len() + split_ints(s, i, min_len).1.len() <= s.len() - i,
    decreases s.len() - i,
{
    if i < s.len() {
        lemma_run_len_at_bounds(s, i);
        let rl = run_len_at(s, i);
        lemma_split_count(s, i + rl, min_len);
        let rest = split_ints(s, i + rl, min_len);
        if rl >= min_len {
            assert((seq![(s[i], rl)] + rest.0).len() == 1 + rest.0.len());
        }
    }
}

/// The split of a sorted bounded row yields representable intervals and
/// residuals, whatever chain state it continues.
#[verifier::rlimit(100)]
proof fn lemma_split_writable(
    flags: CompFlags,
    s: Seq<usize>,
    i: int,
    prev_iv: int,
    first_iv: bool,
    prev_res: int,
    first_res: bool,
    n: nat,
)
    requires
        flags_tame(flags),
        flags.min_interval_length >= 2,
        n <= usize::MAX,
        n < node_limit(),
        0 <= i <= s.len(),
        forall|q: int| 0 <= q < s.len() ==> (#[trigger] s[q] as nat) < n,
        forall|q: int, w: int| #![trigger s[q], s[w]] 0 <= q < w < s.len() ==> s[q] < s[w],
        i < s.len() ==> (!first_iv ==> 0 <= prev_iv <= s[i] as int),
        first_iv ==> 0 <= prev_iv <= n,
        i < s.len() ==> (!first_res ==> 0 <= prev_res <= s[i] as int),
        first_res ==> 0 <= prev_res <= n,
    ensures
        ivs_writable(
            flags.intervals,
            split_ints(s, i, flags.min_interval_length as nat).0,
            prev_iv,
            first_iv,
            flags.min_interval_length as nat,
        ),
        res_writable(
            flags.residuals,
            split_ints(s, i, flags.min_interval_length as nat).1,
            prev_res,
            first_res,
        ),
    decreases s.len() - i,
{
    vstd::arithmetic::power2::lemma_pow2_strictly_increases(59, 60);
    let ml = flags.min_interval_length as nat;
    if i < s.len() {
        lemma_run_len_at_bounds(s, i);
        lemma_run_is_consecutive(s, i);
        let rl = run_len_at(s, i);
        let last = s[i + rl - 1] as int;
        assert(s[i + (rl - 1)] == s[i] + (rl - 1));
        assert(last == s[i] + rl - 1);
        if rl >= ml {
            let st = s[i] as int;
            lemma_split_writable(flags, s, i + rl, st + rl, false, prev_res, first_res, n);
            let gap: nat = if first_iv {
                crate::utils::zigzag(st - prev_iv) as nat
            } else {
                (st - prev_iv) as nat
            };
            assert(gap < pow2(60)) by {
                vstd::arithmetic::power2::lemma_pow2_unfold(60);
            }
            lemma_writable_small(flags.intervals, gap);
            lemma_writable_small(flags.intervals, (rl - ml) as nat);
            let parts = split_ints(s, i, ml);
            assert(parts.0[0] == (s[i], rl));
            assert(parts.0.drop_first() =~= split_ints(s, i + rl, ml).0);
        } else {
            lemma_split_writable(flags, s, i + rl, prev_iv, first_iv, last, false, n);
            let run = s.subrange(i, i + rl);
            assert(run.last() == s[i + rl - 1]);
            lemma_res_writable_concat(
                flags.residuals,
                run,
                split_ints(s, i + rl, ml).1,
                prev_res,
                first_res,
                n,
            );
        }
    }
}

/// The pieces of a split stay inside the row's bound.
pub proof fn lemma_split_bounds(s: Seq<usize>, i: int, ml: nat, n: nat)
    requires
        0 <= i <= s.len(),
        forall|q: int| 0 <= q < s.len() ==> (#[trigger] s[q] as nat) < n,
        forall|q: int, w: int| #![trigger s[q], s[w]] 0 <= q < w < s.len() ==> s[q] < s[w],
    ensures
        forall|q: int|
            0 <= q < split_ints(s, i, ml).0.len() ==> ((#[trigger] split_ints(s, i, ml).0[q].0
                as nat) < n && split_ints(s, i, ml).0[q].0 + split_ints(s, i, ml).0[q].1 <= n),
        forall|q: int|
            0 <= q < split_ints(s, i, ml).1.len() ==> (#[trigger] split_ints(s, i, ml).1[q] as nat)
                < n,
    decreases s.len() - i,
{
    if i < s.len() {
        lemma_run_len_at_bounds(s, i);
        lemma_run_is_consecutive(s, i);
        let rl = run_len_at(s, i);
        lemma_split_bounds(s, i + rl, ml, n);
        let rest = split_ints(s, i + rl, ml);
        assert(s[i + (rl - 1)] == s[i] + (rl - 1));
        if rl >= ml {
            let full = split_ints(s, i, ml).0;
            assert forall|q: int|
                0 <= q < full.len() implies ((#[trigger] full[q].0 as nat) < n && full[q].0
                + full[q].1 <= n) by {
                if q > 0 {
                    assert(full[q] == rest.0[q - 1]);
                }
            }
        } else {
            let full = split_ints(s, i, ml).1;
            let run = s.subrange(i, i + rl);
            assert forall|q: int| 0 <= q < full.len() implies (#[trigger] full[q] as nat)
                < n by {
                if q < rl {
                    assert(full[q] == s[i + q]);
                } else {
                    assert(full[q] == rest.1[q - rl]);
                }
            }
        }
    }
}

/// Append one adjacency record for node `v` with sorted successor row
/// `row`.
#[verifier::loop_isolation(false)]
#[verifier::rlimit(100)]
#[verifier::spinoff_prover]
pub fn encode_record(
    w: &mut crate::code_readers::ConstCodesWriter,
    v: usize,
    row: &Vec<usize>,
) -> (r: Result<(), crate::utils::GraphError>)
    requires
        old(w).wf(),
        flags_tame(old(w).flags()),
        record_writable(old(w).flags(), v, row@),
        (v as nat) < node_limit(),
        forall|q: int| 0 <= q < row@.len() ==> (#[trigger] row@[q] as nat) < node_limit(),
        forall|q: int, w2: int|
            #![trigger row@[q], row@[w2]]
            0 <= q < w2 < row@.len() ==> row@[q] < row@[w2],
        old(w).bits().len() + record_bits(old(w).order(), old(w).flags(), v, row@).len() + 256
            <= usize::MAX,
    ensures
        final(w).wf(),
        final(w).flags() == old(w).flags(),
        final(w).order() == old(w).order(),
        r == Ok::<(), crate::utils::GraphError>(()),
        final(w).bits() == old(w).bits() + record_bits(old(w).order(), old(w).flags(), v, row@),
    {
    let ghost flags = old(w).flags();
    let ghost ord = old(w).order();
    let ghost s = row@;
    let ghost ml = flags.min_interval_length as nat;
    let ghost rb = record_bits(ord, flags, v, s);
    let ghost parts = split_ints(s, 0, ml);
    let ghost b0 = old(w).bits();
    proof {
        vstd::arithmetic::power2::lemma_pow2_strictly_increases(59, 60);
        vstd::arithmetic::power2::lemma_pow2_strictly_increases(60, 62);
        vstd::arithmetic::power2::lemma2_to64_rest();
    }
    let d = row.len();
    let r0 = w.write_outdegree(d as u64);
    if d == 0 {
        proof {
            assert(rb =~= crate::comp_flags::code_bits(ord, flags.outdegrees, s.len()));
        }
        return Ok(());
    }
    let fl = w.get_flags();
    let (ivs, res) = split_row(row, fl.min_interval_length);
    proof {
        assert(ivs@.map_values(|p: (usize, usize)| (p.0, p.1 as nat)) == parts.0);
        assert(ivs@.len() == parts.0.len());
        assert(res@ == parts.1);
    }
    let ghost g0 = crate::comp_flags::code_bits(ord, flags.outdegrees, s.len());
    let ghost gk = crate::comp_flags::code_bits(ord, flags.intervals, parts.0.len());
    let ghost gi = ivs_bits(ord, flags.intervals, parts.0, v as int, true, ml);
    let ghost gr = res_bits(ord, flags.residuals, parts.1, v as int, true);
    proof {
        assert(rb == g0 + (gk + gi + gr));
        assert(gi.len() + gr.len() + gk.len() + g0.len() == rb.len()) by {
            assert(rb =~= g0 + gk + gi + gr);
        }
    }
    let rk = w.write_interval_count(ivs.len() as u64);
    proof {
        lemma_split_bounds(s, 0, ml, node_limit());
        assert(parts.0.subrange(0, parts.0.len() as int) =~= parts.0);
        assert(parts.0.subrange(0, 0) =~= Seq::<(usize, nat)>::empty());
        assert(ivs_bits(ord, flags.intervals, Seq::<(usize, nat)>::empty(), v as int, true, ml)
            =~= Seq::<bool>::empty());
        assert(gi =~= Seq::<bool>::empty() + gi);
        assert(w.bits() =~= b0 + g0 + gk + Seq::<bool>::empty());
    }
    let mut q: usize = 0;
    let mut prev_end: usize = 0;
    while q < ivs.len()
        invariant
            w.wf(),
            w.flags() == flags,
            w.order() == ord,
            ivs_writable(
                flags.intervals,
                parts.0.subrange(q as int, parts.0.len() as int),
                if q == 0 {
                    v as int
                } else {
                    prev_end as int
                },
                q == 0,
                ml,
            ),
            q <= ivs@.len(),
            gi =~= ivs_bits(
                ord,
                flags.intervals,
                parts.0.subrange(0, q as int),
                v as int,
                true,
                ml,
            ) + ivs_bits(
                ord,
                flags.intervals,
                parts.0.subrange(q as int, parts.0.len() as int),
                if q == 0 {
                    v as int
                } else {
                    prev_end as int
                },
                q == 0,
                ml,
            ),
            w.bits() =~= b0 + g0 + gk + ivs_bits(
                ord,
                flags.intervals,
                parts.0.subrange(0, q as int),
                v as int,
                true,
                ml,
            ),
            (prev_end as nat) <= node_limit(),
            q > 0 ==> prev_end as int == parts.0[q - 1].0 + parts.0[q - 1].1,
            forall|t: int|
                0 <= t < parts.0.len() ==> ((#[trigger] parts.0[t].0 as nat) < node_limit()
                    && parts.0[t].0 + parts.0[t].1 <= node_limit()),
        decreases ivs@.len() - q,
    {
        let (st, l) = ivs[q];
        let ghost sfx = parts.0.subrange(q as int, parts.0.len() as int);
        let ghost prevq: int = if q == 0 {
            v as int
        } else {
            prev_end as int
        };
        proof {
            assert(sfx[0] == (st, l as nat));
            assert(sfx.drop_first() =~= parts.0.subrange(q + 1, parts.0.len() as int));
            assert((st as nat) < node_limit() && st + l <= node_limit());
        }
        let gapv: u64;
        if q == 0 {
            gapv = crate::utils::int2nat((st as i64) - (v as i64));
        } else {
            gapv = (st - prev_end) as u64;
        }
        let r1 = w.write_interval_start(gapv);
        let r2 = w.write_interval_len((l - fl.min_interval_length) as u64);
        proof {
            let done = parts.0.subrange(0, q as int);
            let ci = flags.intervals;
            let gapn: nat = if q == 0 {
                zigzag(st - v) as nat
            } else {
                (st - prevq) as nat
            };
            let c1 = crate::comp_flags::code_bits(ord, ci, gapn);
            let c2 = crate::comp_flags::code_bits(ord, ci, (l - ml) as nat);
            let tail2 = ivs_bits(ord, ci, sfx.drop_first(), st + l, false, ml);
            assert(gapv as nat == gapn);
            assert(done.push(sfx[0]) =~= parts.0.subrange(0, q + 1));
            lemma_ivs_bits_snoc(ord, ci, done, sfx[0], v as int, ml);
            assert(ivs_prev_after(done, v as int) == prevq);
            assert(ivs_bits(ord, ci, seq![sfx[0]], prevq, q == 0, ml) =~= c1 + c2) by {
                assert(seq![sfx[0]][0] == sfx[0]);
                assert(seq![sfx[0]].drop_first() =~= Seq::<(usize, nat)>::empty());
                assert(ivs_bits(
                    ord,
                    ci,
                    Seq::<(usize, nat)>::empty(),
                    st + l,
                    false,
                    ml,
                ) =~= Seq::<bool>::empty());
            }
            assert(ivs_bits(ord, ci, sfx, prevq, q == 0, ml) =~= c1 + c2 + tail2);
            assert(ivs_bits(ord, ci, parts.0.subrange(0, q + 1), v as int, true, ml)
                =~= ivs_bits(ord, ci, done, v as int, true, ml) + (c1 + c2));
            assert(gi =~= ivs_bits(ord, ci, done, v as int, true, ml) + (c1 + c2 + tail2));
            assert(gi =~= ivs_bits(ord, ci, parts.0.subrange(0, q + 1), v as int, true, ml)
                + tail2);
            assert(w.bits() =~= b0 + g0 + gk + ivs_bits(ord, ci, done, v as int, true, ml) + c1
                + c2);
            assert(w.bits() =~= b0 + g0 + gk + ivs_bits(
                ord,
                ci,
                parts.0.subrange(0, q + 1),
                v as int,
                true,
                ml,
            ));
        }
        prev_end = st + l;
        q = q + 1;
    }
    proof {
        assert(parts.0.subrange(0, parts.0.len() as int) =~= parts.0);
        assert(parts.0.subrange(parts.0.len() as int, parts.0.len() as int)
            =~= Seq::<(usize, nat)>::empty());
        assert(ivs_bits(
            ord,
            flags.intervals,
            Seq::<(usize, nat)>::empty(),
            if ivs@.len() == 0 {
                v as int
            } else {
                prev_end as int
            },
            ivs@.len() == 0,
            ml,
        ) =~= Seq::<bool>::empty());
        assert(w.bits() =~= b0 + g0 + gk + gi);
    }
    proof {
        assert(parts.1.subrange(0, parts.1.len() as int) =~= parts.1);
        assert(parts.1.subrange(0, 0) =~= Seq::<usize>::empty());
        assert(res_bits(ord, flags.residuals, Seq::<usize>::empty(), v as int, true)
            =~= Seq::<bool>::empty());
        assert(gr =~= Seq::<bool>::empty() + gr);
        assert(w.bits() =~= b0 + g0 + gk + gi + Seq::<bool>::empty());
    }
    let mut q2: usize = 0;
    let mut prev_res: usize = 0;
    while q2 < res.len()
        invariant
            w.wf(),
            w.flags() == flags,
            w.order() == ord,
            res_writable(
                flags.residuals,
                parts.1.subrange(q2 as int, parts.1.len() as int),
                if q2 == 0 {
                    v as int
                } else {
                    prev_res as int
                },
                q2 == 0,
            ),
            q2 <= res@.len(),
            gr =~= res_bits(
                ord,
                flags.residuals,
                parts.1.subrange(0, q2 as int),
                v as int,
                true,
            ) + res_bits(
                ord,
                flags.residuals,
                parts.1.subrange(q2 as int, parts.1.len() as int),
                if q2 == 0 {
                    v as int
                } else {
                    prev_res as int
                },
                q2 == 0,
            ),
            w.bits() =~= b0 + g0 + gk + gi + res_bits(
                ord,
                flags.residuals,
                parts.1.subrange(0, q2 as int),
                v as int,
                true,
            ),
            (prev_res as nat) <= node_limit(),
            q2 > 0 ==> prev_res == parts.1[q2 - 1],
            forall|t: int|
                0 <= t < parts.1.len() ==> (#[trigger] parts.1[t] as nat) < node_limit(),
        decreases res@.len() - q2,
    {
        let x = res[q2];
        let ghost sfx = parts.1.subrange(q2 as int, parts.1.len() as int);
        let ghost prevq: int = if q2 == 0 {
            v as int
        } else {
            prev_res as int
        };
        proof {
            assert(sfx[0] == x);
            assert(sfx.drop_first() =~= parts.1.subrange(q2 + 1, parts.1.len() as int));
            assert((x as nat) < node_limit());
        }
        let gapv: u64;
        if q2 == 0 {
            gapv = crate::utils::int2nat((x as i64) - (v as i64));
        } else {
            gapv = (x - prev_res) as u64;
        }
        let r1 = w.write_residual(gapv);
        proof {
            let done = parts.1.subrange(0, q2 as int);
            let cr = flags.residuals;
            let gapn: nat = if q2 == 0 {
                zigzag(x - v) as nat
            } else {
                (x - prevq) as nat
            };
            let c1 = crate::comp_flags::code_bits(ord, cr, gapn);
            let tail2 = res_bits(ord, cr, sfx.drop_first(), x as int, false);
            assert(gapv as nat == gapn);
            assert(done.push(x) =~= parts.1.subrange(0, q2 + 1));
            lemma_res_bits_snoc(ord, cr, done, x, v as int);
            assert(res_bits(ord, cr, seq![x], prevq, q2 == 0) =~= c1) by {
                assert(seq![x][0] == x);
                assert(seq![x].drop_first() =~= Seq::<usize>::empty());
                assert(res_bits(ord, cr, Seq::<usize>::empty(), x as int, false)
                    =~= Seq::<bool>::empty());
            }
            assert(res_bits(ord, cr, sfx, prevq, q2 == 0) =~= c1 + tail2);
            assert(res_bits(ord, cr, parts.1.subrange(0, q2 + 1), v as int, true) =~= res_bits(
                ord,
                cr,
                done,
                v as int,
                true,
            ) + c1);
            assert(gr =~= res_bits(ord, cr, done, v as int, true) + (c1 + tail2));
            assert(gr =~= res_bits(ord, cr, parts.1.subrange(0, q2 + 1), v as int, true) + tail2);
            assert(w.bits() =~= b0 + g0 + gk + gi + res_bits(ord, cr, done, v as int, true) + c1);
            assert(w.bits() =~= b0 + g0 + gk + gi + res_bits(
                ord,
                cr,
                parts.1.subrange(0, q2 + 1),
                v as int,
                true,
            ));
        }
        prev_res = x;
        q2 = q2 + 1;
    }
    proof {
        assert(parts.1.subrange(0, parts.1.len() as int) =~= parts.1);
        assert(parts.1.subrange(parts.1.len() as int, parts.1.len() as int)
            =~= Seq::<usize>::empty());
        assert(res_bits(
            ord,
            flags.residuals,
            Seq::<usize>::empty(),
            if res@.len() == 0 {
                v as int
            } else {
                prev_res as int
            },
            res@.len() == 0,
        ) =~= Seq::<bool>::empty());
        assert(w.bits() =~= b0 + g0 + gk + gi + gr);
        assert(w.bits() =~= b0 + rb);
    }
    Ok(())
}

/// Appending one interval to an encoded list appends its bits.
proof fn lemma_ivs_bits_snoc(
    order: BitOrder,
    c: Code,
    done: Seq<(usize, nat)>,
    iv: (usize, nat),
    v: int,
    ml: nat,
)
    ensures
        ivs_bits(order, c, done.push(iv), v, true, ml) == ivs_bits(order, c, done, v, true, ml)
            + ivs_bits(order, c, seq![iv], ivs_prev_after(done, v), done.len() == 0, ml),
    decreases done.len(),
{
    lemma_ivs_bits_snoc_from(order, c, done, iv, v, true, ml);
}

/// The chain state after an encoded interval list.
pub open spec fn ivs_prev_after(done: Seq<(usize, nat)>, v: int) -> int {
    if done.len() == 0 {
        v
    } else {
        done.last().0 + done.last().1
    }
}

/// Appending one interval to an encoded list appends its bits, from any
/// chain state.
proof fn lemma_ivs_bits_snoc_from(
    order: BitOrder,
    c: Code,
    done: Seq<(usize, nat)>,
    iv: (usize, nat),
    prev: int,
    first: bool,
    ml: nat,
)
    ensures
        ivs_bits(order, c, done.push(iv), prev, first, ml) == ivs_bits(order, c, done, prev, first, ml)
            + ivs_bits(
            order,
            c,
            seq![iv],
            if done.len() == 0 {
                prev
            } else {
                done.last().0 + done.last().1
            },
            done.len() == 0 && first,
            ml,
        ),
    decreases done.len(),
{
    let e = done.push(iv);
    if done.len() == 0 {
        assert(e[0] == iv);
        assert(e.drop_first() =~= Seq::<(usize, nat)>::empty());
        assert(seq![iv][0] == iv);
        assert(seq![iv].drop_first() =~= Seq::<(usize, nat)>::empty());
        assert(ivs_bits(order, c, e, prev, first, ml) =~= ivs_bits(
            order,
            c,
            seq![iv],
            prev,
            first,
            ml,
        ));
        assert(ivs_bits(order, c, done, prev, first, ml) =~= Seq::<bool>::empty());
    } else {
        assert(e[0] == done[0]);
        assert(e.drop_first() =~= done.drop_first().push(iv));
        lemma_ivs_bits_snoc_from(
            order,
            c,
            done.drop_first(),
            iv,
            done[0].0 + done[0].1,
            false,
            ml,
        );
        if done.len() == 1 {
            assert(done.drop_first().len() == 0);
            assert(done.last() == done[0]);
        } else {
            assert(done.drop_first().last() == done.last());
        }
        crate::sort_pairs::lemma_seq_assoc2(
            Seq::<bool>::empty(),
            crate::comp_flags::code_bits(
                order,
                c,
                if first {
                    zigzag(done[0].0 - prev) as nat
                } else {
                    (done[0].0 - prev) as nat
                },
            ) + crate::comp_flags::code_bits(order, c, (done[0].1 - ml) as nat),
            ivs_bits(order, c, done.drop_first(), done[0].0 + done[0].1, false, ml),
            ivs_bits(
                order,
                c,
                seq![iv],
                if done.len() == 1 {
                    done[0].0 + done[0].1
                } else {
                    done.last().0 + done.last().1
                },
                false,
                ml,
            ),
        );
        assert(ivs_bits(order, c, e, prev, first, ml) =~= ivs_bits(order, c, done, prev, first, ml)
            + ivs_bits(
            order,
            c,
            seq![iv],
            done.last().0 + done.last().1,
            false,
            ml,
        ));
    }
}

/// Appending one residual to an encoded list appends its bits.
proof fn lemma_res_bits_snoc(order: BitOrder, c: Code, done: Seq<usize>, x: usize, v: int)
    ensures
        res_bits(order, c, done.push(x), v, true) == res_bits(order, c, done, v, true) + res_bits(
            order,
            c,
            seq![x],
            if done.len() == 0 {
                v
            } else {
                done.last() as int
            },
            done.len() == 0,
        ),
    decreases done.len(),
{
    lemma_res_bits_snoc_from(order, c, done, x, v, true);
}

/// Appending one residual to an encoded list appends its bits, from any
/// chain state.
proof fn lemma_res_bits_snoc_from(
    order: BitOrder,
    c: Code,
    done: Seq<usize>,
    x: usize,
    prev: int,
    first: bool,
)
    ensures
        res_bits(order, c, done.push(x), prev, first) == res_bits(order, c, done, prev, first)
            + res_bits(
            order,
            c,
            seq![x],
            if done.len() == 0 {
                prev
            } else {
                done.last() as int
            },
            done.len() == 0 && first,
        ),
    decreases done.len(),
{
    let e = done.push(x);
    if done.len() == 0 {
        assert(e[0] == x);
        assert(e.drop_first() =~= Seq::<usize>::empty());
        assert(seq![x][0] == x);
        assert(seq![x].drop_first() =~= Seq::<usize>::empty());
        assert(res_bits(order, c, e, prev, first) =~= res_bits(order, c, seq![x], prev, first));
        assert(res_bits(order, c, done, prev, first) =~= Seq::<bool>::empty());
    } else {
        assert(e[0] == done[0]);
        assert(e.drop_first() =~= done.drop_first().push(x));
        lemma_res_bits_snoc_from(order, c, done.drop_first(), x, done[0] as int, false);
        if done.len() == 1 {
            assert(done.drop_first().len() == 0);
            assert(done.last() == done[0]);
        } else {
            assert(done.drop_first().last() == done.last());
        }
        assert(res_bits(order, c, e, prev, first) =~= res_bits(order, c, done, prev, first)
            + res_bits(
            order,
            c,
            seq![x],
            done.last() as int,
            false,
        ));
    }
}

/// The number of ids an interval list expands to.
proof fn lemma_expand_len(ivs: Seq<(usize, nat)>)
    ensures
        expand_ints(ivs).len() == ivs_total(ivs),
    decreases ivs.len(),
{
    if ivs.len() > 0 {
        lemma_expand_len(ivs.drop_first());
    }
}

/// A merge holds the ids of both sides.
proof fn lemma_merge2_len(a: Seq<usize>, b: Seq<usize>)
    ensures
        merge2(a, b).len() == a.len() + b.len(),
    decreases a.len() + b.len(),
{
    if a.len() > 0 && b.len() > 0 {
        if a[0] <= b[0] {
            lemma_merge2_len(a.drop_first(), b);
        } else {
            lemma_merge2_len(a, b.drop_first());
        }
    }
}

/// Read `k` chained intervals for node `v`, also totalling their lengths
/// and refusing totals beyond `d`.
#[verifier::loop_isolation(false)]
#[verifier::rlimit(100)]
#[verifier::spinoff_prover]
fn read_intervals(
    rd: &mut crate::code_readers::ConstCodesReader,
    v: usize,
    k: u64,
    d: u64,
) -> (res: Result<(Vec<(usize, usize)>, u64), crate::utils::GraphError>)
    requires
        old(rd).wf(),
    ensures
        final(rd).wf(),
        final(rd).flags() == old(rd).flags(),
        final(rd).order() == old(rd).order(),
        final(rd).bits() == old(rd).bits(),
        match spec_read_ivs(
            old(rd).order(),
            old(rd).flags().intervals,
            old(rd).bits(),
            old(rd).pos(),
            k as nat,
            v as int,
            true,
            old(rd).flags().min_interval_length as nat,
        ) {
            Some((sivs, pe)) => {
                if ivs_total(sivs) <= d {
                    res matches Ok(pair) && pair.0@.map_values(
                        |p: (usize, usize)| (p.0, p.1 as nat),
                    ) == sivs && pair.1 == ivs_total(sivs) && final(rd).pos() == pe && (forall|
                        t: int,
                    |
                        0 <= t < pair.0@.len() ==> (#[trigger] pair.0@[t]).0 + pair.0@[t].1
                            <= usize::MAX)
                } else {
                    res is Err
                }
            },
            None => res is Err,
        },
{
    let ghost ord = old(rd).order();
    let ghost flags = old(rd).flags();
    let ghost bs = old(rd).bits();
    let fl = rd.get_flags();
    let ghost ml = flags.min_interval_length as nat;
    let ghost fi = flags.intervals;
    proof {
        vstd::arithmetic::power2::lemma2_to64_rest();
        vstd::arithmetic::power2::lemma_pow2_strictly_increases(63, 64);
    }
    let mut ivs: Vec<(usize, usize)> = Vec::new();
    let mut cnt: u64 = 0;
    let mut prev: usize = 0;
    let mut total: u64 = 0;
    let ghost p1 = rd.pos();
    let ghost sivs_r = spec_read_ivs(ord, fi, bs, p1, k as nat, v as int, true, ml);
    proof {
        if sivs_r is Some {
            lemma_spec_read_ivs_len(ord, fi, bs, p1, k as nat, v as int, true, ml);
        }
        assert(ivs@.map_values(|p: (usize, usize)| (p.0, p.1 as nat))
            =~= Seq::<(usize, nat)>::empty());
        match sivs_r {
            Some((sivs0, pe)) => {
                assert(sivs0.subrange(0, 0) =~= Seq::<(usize, nat)>::empty());
                assert(sivs0.subrange(0, k as int) =~= sivs0);
            },
            None => {},
        }
    }
    while cnt < k
        invariant
            rd.wf(),
            rd.flags() == flags,
            rd.order() == ord,
            rd.bits() == bs,
            cnt <= k,
            total == ivs_total(ivs@.map_values(|p: (usize, usize)| (p.0, p.1 as nat))),
            total <= d,
            ivs@.len() == cnt,
            cnt > 0 ==> prev as int == ivs@.last().0 + ivs@.last().1,
            forall|t: int|
                0 <= t < ivs@.len() ==> (#[trigger] ivs@[t]).0 + ivs@[t].1 <= usize::MAX,
            match sivs_r {
                Some((sivs, pe)) => {
                    &&& sivs.len() == k
                    &&& sivs.subrange(0, cnt as int) =~= ivs@.map_values(
                        |p: (usize, usize)| (p.0, p.1 as nat),
                    )
                    &&& spec_read_ivs(
                        ord,
                        fi,
                        bs,
                        rd.pos(),
                        (k - cnt) as nat,
                        if cnt == 0 {
                            v as int
                        } else {
                            prev as int
                        },
                        cnt == 0,
                        ml,
                    ) == Some((sivs.subrange(cnt as int, k as int), pe))
                },
                None => spec_read_ivs(
                    ord,
                    fi,
                    bs,
                    rd.pos(),
                    (k - cnt) as nat,
                    if cnt == 0 {
                        v as int
                    } else {
                        prev as int
                    },
                    cnt == 0,
                    ml,
                ) is None,
            },
        decreases k - cnt,
    {
        let ghost pre_pos = rd.pos();
        let ghost prevq: int = if cnt == 0 {
            v as int
        } else {
            prev as int
        };
        let ghost firstq = cnt == 0;
        let ghost rem = (k - cnt) as nat;
        let g: u64;
        match rd.read_interval_start() {
            Ok(x) => {
                g = x;
            },
            Err(e) => {
                proof {
                    if spec_read_ivs(ord, fi, bs, pre_pos, rem, prevq, firstq, ml) is Some {
                        assert(spec_read_code(ord, fi, bs, pre_pos) is Some);
                        assert(false);
                    }
                }
                return Err(e);
            },
        }
        let st128: i128;
        if cnt == 0 {
            st128 = (v as i128) + (crate::utils::nat2int(g) as i128);
        } else {
            st128 = (prev as i128) + (g as i128);
        }
        let lraw: u64;
        match rd.read_interval_len() {
            Ok(x) => {
                lraw = x;
            },
            Err(e) => {
                proof {
                    if spec_read_ivs(ord, fi, bs, pre_pos, rem, prevq, firstq, ml) is Some {
                        assert(false);
                    }
                }
                return Err(e);
            },
        }
        let l128: i128 = (lraw as i128) + (fl.min_interval_length as i128);
        let ghost st_spec: int = if firstq {
            prevq + crate::utils::unzigzag(g as int)
        } else {
            prevq + g
        };
        proof {
            assert(st128 == st_spec);
            assert(l128 == lraw + ml);
        }
        if st128 < 0 || st128 + l128 > (usize::MAX as i128) {
            proof {
                if spec_read_ivs(ord, fi, bs, pre_pos, rem, prevq, firstq, ml) is Some {
                    assert(false);
                }
            }
            return Err(crate::utils::GraphError::MalformedStream);
        }
        let st = st128 as usize;
        let l = l128 as usize;
        let ghost sfx_r = spec_read_ivs(ord, fi, bs, pre_pos, rem, prevq, firstq, ml);
        proof {
            if sfx_r is Some {
                match sfx_r {
                    Some((sfx, pe2)) => {
                        assert(sfx[0] == (st, l as nat));
                        assert(sfx.drop_first() =~= sfx.subrange(1, sfx.len() as int));
                        assert(spec_read_ivs(
                            ord,
                            fi,
                            bs,
                            rd.pos(),
                            (rem - 1) as nat,
                            st as int + l as nat,
                            false,
                            ml,
                        ) == Some((sfx.drop_first(), pe2)));
                    },
                    None => {},
                }
            }
        }
        if (l as u64) > d || total > d - (l as u64) {
            proof {
                if sivs_r is Some {
                    match sivs_r {
                        Some((sivs, pe)) => {
                            lemma_ivs_total_concat(
                                sivs.subrange(0, cnt as int),
                                sivs.subrange(cnt as int, k as int),
                            );
                            assert(sivs.subrange(0, cnt as int) + sivs.subrange(
                                cnt as int,
                                k as int,
                            ) =~= sivs);
                            match sfx_r {
                                Some((sfx, pe2)) => {
                                    lemma_ivs_total_nonneg(sfx.drop_first());
                                    assert(ivs_total(sfx) == l + ivs_total(sfx.drop_first()));
                                    assert(ivs_total(sivs) > d);
                                },
                                None => {},
                            }
                        },
                        None => {},
                    }
                }
            }
            return Err(crate::utils::GraphError::MalformedStream);
        }
        total = total + (l as u64);
        let ghost pre_ivs = ivs@;
        ivs.push((st, l));
        proof {
            let m = ivs@.map_values(|p: (usize, usize)| (p.0, p.1 as nat));
            let mp = pre_ivs.map_values(|p: (usize, usize)| (p.0, p.1 as nat));
            assert(m =~= mp.push((st, l as nat)));
            lemma_ivs_total_snoc(mp, (st, l as nat));
            match sivs_r {
                Some((sivs, pe)) => {
                    match sfx_r {
                        Some((sfx, pe2)) => {
                            assert(sivs.subrange(cnt as int, k as int)[0] == (st, l as nat));
                            assert(sivs[cnt as int] == (st, l as nat));
                            assert(sivs.subrange(0, cnt + 1) =~= sivs.subrange(
                                0,
                                cnt as int,
                            ).push((st, l as nat)));
                            assert(sivs.subrange(cnt as int, k as int).drop_first()
                                =~= sivs.subrange(cnt + 1, k as int));
                        },
                        None => {
                            assert(false);
                        },
                    }
                },
                None => {},
            }
        }
        prev = st + l;
        cnt = cnt + 1;
    }
    proof {
        match sivs_r {
            Some((sivs, pe)) => {
                assert(sivs.subrange(0, k as int) =~= sivs);
                assert(spec_read_ivs(
                    ord,
                    fi,
                    bs,
                    rd.pos(),
                    0,
                    if cnt == 0 {
                        v as int
                    } else {
                        prev as int
                    },
                    cnt == 0,
                    ml,
                ) == Some((sivs.subrange(k as int, k as int), pe)));
                assert(sivs.subrange(k as int, k as int) =~= Seq::<(usize, nat)>::empty());
                assert(rd.pos() == pe);
            },
            None => {},
        }
    }
    Ok((ivs, total))
}

/// Read `rc` chained residuals for node `v`.
#[verifier::loop_isolation(false)]
#[verifier::rlimit(100)]
#[verifier::spinoff_prover]
fn read_residuals(
    rd: &mut crate::code_readers::ConstCodesReader,
    v: usize,
    rc: u64,
) -> (res: Result<Vec<usize>, crate::utils::GraphError>)
    requires
        old(rd).wf(),
    ensures
        final(rd).wf(),
        final(rd).flags() == old(rd).flags(),
        final(rd).order() == old(rd).order(),
        final(rd).bits() == old(rd).bits(),
        match spec_read_res(
            old(rd).order(),
            old(rd).flags().residuals,
            old(rd).bits(),
            old(rd).pos(),
            rc as nat,
            v as int,
            true,
        ) {
            Some((srs, pe)) => res matches Ok(rv) && rv@ == srs && final(rd).pos() == pe,
            None => res is Err,
        },
{
    let ghost ord = old(rd).order();
    let ghost flags = old(rd).flags();
    let ghost bs = old(rd).bits();
    let ghost fr = flags.residuals;
    proof {
        vstd::arithmetic::power2::lemma2_to64_rest();
        vstd::arithmetic::power2::lemma_pow2_strictly_increases(63, 64);
    }
    let mut resv: Vec<usize> = Vec::new();
    let mut cnt2: u64 = 0;
    let mut prev2: usize = 0;
    let ghost p2 = rd.pos();
    let ghost sres_r = spec_read_res(ord, fr, bs, p2, rc as nat, v as int, true);
    proof {
        if sres_r is Some {
            lemma_spec_read_res_len(ord, fr, bs, p2, rc as nat, v as int, true);
        }
        match sres_r {
            Some((srs0, pe)) => {
                assert(srs0.subrange(0, 0) =~= Seq::<usize>::empty());
                assert(srs0.subrange(0, rc as int) =~= srs0);
            },
            None => {},
        }
    }
    proof {
        if sres_r is Some {
            lemma_spec_read_res_len(ord, fr, bs, p2, rc as nat, v as int, true);
        }
    }
    while cnt2 < rc
        invariant
            rd.wf(),
            rd.flags() == flags,
            rd.order() == ord,
            rd.bits() == bs,
            cnt2 <= rc,
            resv@.len() == cnt2,
            cnt2 > 0 ==> prev2 == resv@.last(),
            match sres_r {
                Some((srs, pe)) => {
                    &&& srs.len() == rc
                    &&& srs.subrange(0, cnt2 as int) =~= resv@
                    &&& spec_read_res(
                        ord,
                        fr,
                        bs,
                        rd.pos(),
                        (rc - cnt2) as nat,
                        if cnt2 == 0 {
                            v as int
                        } else {
                            prev2 as int
                        },
                        cnt2 == 0,
                    ) == Some((srs.subrange(cnt2 as int, rc as int), pe))
                },
                None => spec_read_res(
                    ord,
                    fr,
                    bs,
                    rd.pos(),
                    (rc - cnt2) as nat,
                    if cnt2 == 0 {
                        v as int
                    } else {
                        prev2 as int
                    },
                    cnt2 == 0,
                ) is None,
            },
        decreases rc - cnt2,
    {
        let ghost pre_pos = rd.pos();
        let ghost prevq: int = if cnt2 == 0 {
            v as int
        } else {
            prev2 as int
        };
        let ghost firstq = cnt2 == 0;
        let ghost rem = (rc - cnt2) as nat;
        let ghost sfx_r = spec_read_res(ord, fr, bs, pre_pos, rem, prevq, firstq);
        let g: u64;
        match rd.read_residual() {
            Ok(x) => {
                g = x;
            },
            Err(e) => {
                proof {
                    if sfx_r is Some {
                        assert(spec_read_code(ord, fr, bs, pre_pos) is Some);
                        assert(false);
                    }
                }
                return Err(e);
            },
        }
        let x128: i128;
        if cnt2 == 0 {
            x128 = (v as i128) + (crate::utils::nat2int(g) as i128);
        } else {
            x128 = (prev2 as i128) + (g as i128);
        }
        let ghost x_spec: int = if firstq {
            prevq + crate::utils::unzigzag(g as int)
        } else {
            prevq + g
        };
        proof {
            assert(x128 == x_spec);
        }
        if x128 < 0 || x128 > (usize::MAX as i128) {
            proof {
                if sfx_r is Some {
                    assert(false);
                }
            }
            return Err(crate::utils::GraphError::MalformedStream);
        }
        let x = x128 as usize;
        let ghost pre_res = resv@;
        resv.push(x);
        proof {
            match sres_r {
                Some((srs, pe)) => {
                    match sfx_r {
                        Some((sfx, pe2)) => {
                            assert(sfx[0] == x);
                            assert(srs[cnt2 as int] == x);
                            assert(srs.subrange(0, cnt2 + 1) =~= srs.subrange(
                                0,
                                cnt2 as int,
                            ).push(x));
                            assert(resv@ =~= pre_res.push(x));
                            assert(sfx.drop_first() =~= srs.subrange(cnt2 + 1, rc as int));
                            assert(spec_read_res(
                                ord,
                                fr,
                                bs,
                                rd.pos(),
                                (rem - 1) as nat,
                                x as int,
                                false,
                            ) == Some((sfx.drop_first(), pe2)));
                        },
                        None => {
                            assert(false);
                        },
                    }
                },
                None => {},
            }
        }
        prev2 = x;
        cnt2 = cnt2 + 1;
    }
    proof {
        match sres_r {
            Some((srs, pe)) => {
                assert(srs.subrange(0, rc as int) =~= srs);
                assert(srs.subrange(rc as int, rc as int) =~= Seq::<usize>::empty());
                assert(rd.pos() == pe);
            },
            None => {},
        }
    }
    Ok(resv)
}

/// Expand an interval list and merge it with a residual list into one
/// sorted row.
#[verifier::loop_isolation(false)]
#[verifier::rlimit(100)]
#[verifier::spinoff_prover]
fn rebuild_row(ivs: &Vec<(usize, usize)>, resv: &Vec<usize>) -> (out: Vec<usize>)
    requires
        forall|t: int| 0 <= t < ivs@.len() ==> (#[trigger] ivs@[t]).0 + ivs@[t].1 <= usize::MAX,
    ensures
        out@ == merge2(
            expand_ints(ivs@.map_values(|p: (usize, usize)| (p.0, p.1 as nat))),
            resv@,
        ),
{
    let ghost sivs = ivs@.map_values(|p: (usize, usize)| (p.0, p.1 as nat));
    let mut exp: Vec<usize> = Vec::new();
    let mut q: usize = 0;
    proof {
        assert(sivs.subrange(0, 0) =~= Seq::<(usize, nat)>::empty());
        assert(expand_ints(Seq::<(usize, nat)>::empty()) =~= Seq::<usize>::empty());
    }
    while q < ivs.len()
        invariant
            q <= ivs@.len(),
            exp@ =~= expand_ints(sivs.subrange(0, q as int)),
        decreases ivs@.len() - q,
    {
        let (st, l) = ivs[q];
        let mut t: usize = 0;
        let ghost pre = exp@;
        while t < l
            invariant
                t <= l,
                st + l <= usize::MAX,
                exp@ =~= pre + Seq::new(t as nat, |w: int| (st + w) as usize),
            decreases l - t,
        {
            exp.push(st + t);
            proof {
                assert(pre + Seq::new(t as nat, |w: int| (st + w) as usize) + seq![(st
                    + t) as usize] =~= pre + Seq::new((t + 1) as nat, |w: int| (st + w) as usize));
            }
            t = t + 1;
        }
        proof {
            lemma_expand_snoc(sivs.subrange(0, q as int), (st, l as nat));
            assert(sivs.subrange(0, q as int).push((st, l as nat)) =~= sivs.subrange(0, q + 1));
            assert(exp@ =~= expand_ints(sivs.subrange(0, q + 1)));
        }
        q = q + 1;
    }
    proof {
        assert(sivs.subrange(0, sivs.len() as int) =~= sivs);
    }
    let mut out: Vec<usize> = Vec::new();
    let mut a: usize = 0;
    let mut b: usize = 0;
    proof {
        assert(exp@.subrange(0, exp@.len() as int) =~= exp@);
        assert(resv@.subrange(0, resv@.len() as int) =~= resv@);
        assert(Seq::<usize>::empty() + merge2(exp@, resv@) =~= merge2(exp@, resv@));
    }
    while a < exp.len() || b < resv.len()
        invariant
            a <= exp@.len(),
            b <= resv@.len(),
            merge2(exp@, resv@) =~= out@ + merge2(
                exp@.subrange(a as int, exp@.len() as int),
                resv@.subrange(b as int, resv@.len() as int),
            ),
        decreases exp@.len() - a + resv@.len() - b,
    {
        let ghost suf_a = exp@.subrange(a as int, exp@.len() as int);
        let ghost suf_b = resv@.subrange(b as int, resv@.len() as int);
        if b >= resv.len() || (a < exp.len() && exp[a] <= resv[b]) {
            out.push(exp[a]);
            proof {
                assert(suf_a[0] == exp@[a as int]);
                assert(suf_a.drop_first() =~= exp@.subrange(a + 1, exp@.len() as int));
                if suf_b.len() == 0 {
                    assert(merge2(suf_a, suf_b) == suf_a);
                    assert(suf_a =~= seq![suf_a[0]] + suf_a.drop_first());
                    assert(merge2(suf_a.drop_first(), suf_b) == suf_a.drop_first());
                }
                assert(merge2(suf_a, suf_b) =~= seq![exp@[a as int]] + merge2(
                    suf_a.drop_first(),
                    suf_b,
                ));
            }
            a = a + 1;
        } else {
            out.push(resv[b]);
            proof {
                assert(suf_b[0] == resv@[b as int]);
                assert(suf_b.drop_first() =~= resv@.subrange(b + 1, resv@.len() as int));
                if suf_a.len() == 0 {
                    assert(merge2(suf_a, suf_b) == suf_b);
                    assert(suf_b =~= seq![suf_b[0]] + suf_b.drop_first());
                    assert(merge2(suf_a, suf_b.drop_first()) == suf_b.drop_first());
                }
                assert(merge2(suf_a, suf_b) =~= seq![resv@[b as int]] + merge2(
                    suf_a,
                    suf_b.drop_first(),
                ));
            }
            b = b + 1;
        }
    }
    proof {
        assert(exp@.subrange(exp@.len() as int, exp@.len() as int) =~= Seq::<usize>::empty());
        assert(resv@.subrange(resv@.len() as int, resv@.len() as int) =~= Seq::<usize>::empty());
        assert(merge2(Seq::<usize>::empty(), Seq::<usize>::empty()) =~= Seq::<usize>::empty());
        assert(out@ + Seq::<usize>::empty() =~= out@);
        assert(out@ =~= merge2(exp@, resv@));
    }
    out
}

/// Read one adjacency record for node `v` and hand back its sorted
/// successor row.
#[verifier::loop_isolation(false)]
#[verifier::rlimit(100)]
#[verifier::spinoff_prover]
pub fn decode_record(
    rd: &mut crate::code_readers::ConstCodesReader,
    v: usize,
) -> (res: Result<Vec<usize>, crate::utils::GraphError>)
    requires
        old(rd).wf(),
    ensures
        final(rd).wf(),
        final(rd).flags() == old(rd).flags(),
        final(rd).order() == old(rd).order(),
        final(rd).bits() == old(rd).bits(),
        match spec_read_record(
            old(rd).order(),
            old(rd).flags(),
            old(rd).bits(),
            old(rd).pos(),
            v,
        ) {
            Some(((d, ivs, rs), p)) => res matches Ok(row) && row@ == merge2(
                expand_ints(ivs),
                rs,
            ) && row@.len() == d && final(rd).pos() == p,
            None => res is Err,
        },
{
    let ghost ord = old(rd).order();
    let ghost flags = old(rd).flags();
    let ghost bs = old(rd).bits();
    let ghost p00 = old(rd).pos();
    let ghost sr = spec_read_record(ord, flags, bs, p00, v);
    proof {
        vstd::arithmetic::power2::lemma2_to64_rest();
        vstd::arithmetic::power2::lemma_pow2_strictly_increases(63, 64);
    }
    let d: u64;
    match rd.read_outdegree() {
        Ok(x) => {
            d = x;
        },
        Err(e) => {
            return Err(e);
        },
    }
    if d == 0 {
        let out: Vec<usize> = Vec::new();
        proof {
            assert(expand_ints(Seq::<(usize, nat)>::empty()) =~= Seq::<usize>::empty());
            assert(merge2(Seq::<usize>::empty(), Seq::<usize>::empty()) =~= Seq::<usize>::empty());
            assert(out@ =~= Seq::<usize>::empty());
            match spec_read_code(ord, flags.outdegrees, bs, p00) {
                Some((dv, pv)) => {
                    assert(dv == 0);
                    assert(rd.pos() == pv);
                },
                None => {
                    assert(false);
                },
            }
        }
        return Ok(out);
    }
    let k: u64;
    match rd.read_interval_count() {
        Ok(x) => {
            k = x;
        },
        Err(e) => {
            return Err(e);
        },
    }
    let ivs: Vec<(usize, usize)>;
    let total: u64;
    let ghost p1 = rd.pos();
    let ghost fi = flags.intervals;
    let ghost fr = flags.residuals;
    let ghost ml = flags.min_interval_length as nat;
    let ghost sivs_r = spec_read_ivs(ord, fi, bs, p1, k as nat, v as int, true, ml);
    match read_intervals(rd, v, k, d) {
        Ok(pair) => {
            ivs = pair.0;
            total = pair.1;
        },
        Err(e) => {
            return Err(e);
        },
    }
    let rc = d - total;
    let resv: Vec<usize>;
    let ghost p2 = rd.pos();
    let ghost sres_r = spec_read_res(ord, fr, bs, p2, rc as nat, v as int, true);
    match read_residuals(rd, v, rc) {
        Ok(rv) => {
            resv = rv;
        },
        Err(e) => {
            return Err(e);
        },
    }
    let out = rebuild_row(&ivs, &resv);
    proof {
        let sivs = ivs@.map_values(|p: (usize, usize)| (p.0, p.1 as nat));
        lemma_expand_len(sivs);
        lemma_merge2_len(expand_ints(sivs), resv@);
        match sivs_r {
            Some((sv, pe)) => {
                assert(sv =~= sivs);
                assert(total == ivs_total(sivs));
                match sres_r {
                    Some((srs, per)) => {
                        lemma_spec_read_res_len(ord, fr, bs, p2, rc as nat, v as int, true);
                        assert(srs =~= resv@);
                        assert(resv@.len() == rc);
                        assert(out@.len() == d);
                    },
                    None => {
                        assert(false);
                    },
                }
            },
            None => {
                assert(false);
            },
        }
    }
    Ok(out)
}

/// A decoded interval list holds as many intervals as were asked for.
proof fn lemma_spec_read_ivs_len(
    order: BitOrder,
    c: Code,
    bs: Seq<bool>,
    pos: int,
    k: nat,
    prev: int,
    first: bool,
    ml: nat,
)
    ensures
        match spec_read_ivs(order, c, bs, pos, k, prev, first, ml) {
            Some((ivs, pe)) => ivs.len() == k,
            None => true,
        },
    decreases k,
{
    if k > 0 {
        match spec_read_code(order, c, bs, pos) {
            None => {},
            Some((g, p1)) => {
                match spec_read_code(order, c, bs, p1) {
                    None => {},
                    Some((lraw, p2)) => {
                        let st: int = if first {
                            prev + crate::utils::unzigzag(g as int)
                        } else {
                            prev + g
                        };
                        lemma_spec_read_ivs_len(
                            order,
                            c,
                            bs,
                            p2,
                            (k - 1) as nat,
                            st + (lraw + ml),
                            false,
                            ml,
                        );
                    },
                }
            },
        }
    }
}

/// A decoded residual list holds as many ids as were asked for.
proof fn lemma_spec_read_res_len(
    order: BitOrder,
    c: Code,
    bs: Seq<bool>,
    pos: int,
    k: nat,
    prev: int,
    first: bool,
)
    ensures
        match spec_read_res(order, c, bs, pos, k, prev, first) {
            Some((rs, pe)) => rs.len() == k,
            None => true,
        },
    decreases k,
{
    if k > 0 {
        match spec_read_code(order, c, bs, pos) {
            None => {},
            Some((g, p1)) => {
                let x: int = if first {
                    prev + crate::utils::unzigzag(g as int)
                } else {
                    prev + g
                };
                lemma_spec_read_res_len(order, c, bs, p1, (k - 1) as nat, x, false);
            },
        }
    }
}

/// Interval totals add over concatenation.
proof fn lemma_ivs_total_concat(a: Seq<(usize, nat)>, b: Seq<(usize, nat)>)
    ensures
        ivs_total(a + b) == ivs_total(a) + ivs_total(b),
    decreases a.len(),
{
    if a.len() == 0 {
        assert(a + b =~= b);
    } else {
        assert((a + b)[0] == a[0]);
        assert((a + b).drop_first() =~= a.drop_first() + b);
        lemma_ivs_total_concat(a.drop_first(), b);
    }
}

/// Interval totals are never negative.
proof fn lemma_ivs_total_nonneg(a: Seq<(usize, nat)>)
    ensures
        ivs_total(a) >= 0,
{
}

/// Appending an interval appends its expansion.
proof fn lemma_expand_snoc(done: Seq<(usize, nat)>, iv: (usize, nat))
    ensures
        expand_ints(done.push(iv)) == expand_ints(done) + Seq::new(
            iv.1,
            |w: int| (iv.0 + w) as usize,
        ),
    decreases done.len(),
{
    let e = done.push(iv);
    if done.len() == 0 {
        assert(e[0] == iv);
        assert(e.drop_first() =~= Seq::<(usize, nat)>::empty());
        assert(expand_ints(e.drop_first()) =~= Seq::<usize>::empty());
        assert(expand_ints(e) =~= expand_ints(done) + Seq::new(iv.1, |w: int| (iv.0 + w) as usize));
    } else {
        assert(e[0] == done[0]);
        assert(e.drop_first() =~= done.drop_first().push(iv));
        lemma_expand_snoc(done.drop_first(), iv);
        assert(expand_ints(e) =~= expand_ints(done) + Seq::new(iv.1, |w: int| (iv.0 + w) as usize));
    }
}

/// The total of an interval list grows by the last length.
proof fn lemma_ivs_total_snoc(done: Seq<(usize, nat)>, iv: (usize, nat))
    ensures
        ivs_total(done.push(iv)) == ivs_total(done) + iv.1,
    decreases done.len(),
{
    let e = done.push(iv);
    assert(ivs_total(Seq::<(usize, nat)>::empty()) == 0);
    if done.len() == 0 {
        assert(e[0] == iv);
        assert(e.drop_first() =~= Seq::<(usize, nat)>::empty());
        assert(ivs_total(e) == iv.1 + ivs_total(e.drop_first()));
    } else {
        assert(e[0] == done[0]);
        assert(e.drop_first() =~= done.drop_first().push(iv));
        lemma_ivs_total_snoc(done.drop_first(), iv);
        assert(ivs_total(e) == e[0].1 + ivs_total(e.drop_first()));
        assert(ivs_total(done) == done[0].1 + ivs_total(done.drop_first()));
    }
}

/// one of its interval lengths.
proof fn lemma_ivs_total_suffix(
    order: BitOrder,
    c: Code,
    bs: Seq<bool>,
    pos: int,
    k: nat,
    prev: int,
    first: bool,
    ml: nat,
)
    ensures
        match spec_read_ivs(order, c, bs, pos, k, prev, first, ml) {
            Some((rest, pe)) => ivs_total(rest) >= (if k == 0 {
                0
            } else {
                ml
            }),
            None => true,
        },
    decreases k,
{
    if k > 0 {
        match spec_read_code(order, c, bs, pos) {
            None => {},
            Some((g, pg1)) => {
                match spec_read_code(order, c, bs, pg1) {
                    None => {},
                    Some((lraw, pg2)) => {},
                }
            },
        }
    }
}

/// The bits of the records of nodes `from` (inclusive) to `to`
/// (exclusive).
pub open spec fn graph_bits(
    order: BitOrder,
    flags: CompFlags,
    g: Seq<Seq<usize>>,
    from: int,
    to: int,
) -> Seq<bool>
    decreases to - from,
{
    if from < 0 || from >= to || to > g.len() {
        Seq::empty()
    } else {
        record_bits(order, flags, from as usize, g[from]) + graph_bits(order, flags, g, from + 1, to)
    }
}

/// Consecutive node ranges concatenate their bits.
pub proof fn lemma_graph_bits_split(
    order: BitOrder,
    flags: CompFlags,
    g: Seq<Seq<usize>>,
    a: int,
    b: int,
    c: int,
)
    requires
        0 <= a <= b <= c <= g.len(),
    ensures
        graph_bits(order, flags, g, a, c) == graph_bits(order, flags, g, a, b) + graph_bits(
            order,
            flags,
            g,
            b,
            c,
        ),
    decreases b - a,
{
    if a == b {
        assert(graph_bits(order, flags, g, a, b) =~= Seq::<bool>::empty());
        assert(Seq::<bool>::empty() + graph_bits(order, flags, g, b, c) =~= graph_bits(
            order,
            flags,
            g,
            b,
            c,
        ));
    } else {
        lemma_graph_bits_split(order, flags, g, a + 1, b, c);
        if a + 1 <= c {
            assert(graph_bits(order, flags, g, a, c) == record_bits(order, flags, a as usize, g[a])
                + graph_bits(order, flags, g, a + 1, c));
        }
        assert(record_bits(order, flags, a as usize, g[a]) + (graph_bits(order, flags, g, a + 1, b)
            + graph_bits(order, flags, g, b, c)) =~= (record_bits(order, flags, a as usize, g[a])
            + graph_bits(order, flags, g, a + 1, b)) + graph_bits(order, flags, g, b, c));
    }
}

/// Decoding `count` records starting at node `v`.
pub open spec fn spec_decode_rows(
    order: BitOrder,
    flags: CompFlags,
    bs: Seq<bool>,
    pos: int,
    v: usize,
    count: nat,
) -> Option<(Seq<Seq<usize>>, int)>
    decreases count,
{
    if count == 0 {
        Some((Seq::empty(), pos))
    } else if v == usize::MAX {
        None
    } else {
        match spec_read_record(order, flags, bs, pos, v) {
            None => None,
            Some(((d, ivs, rs), p1)) => {
                let row = merge2(expand_ints(ivs), rs);
                match spec_decode_rows(order, flags, bs, p1, (v + 1) as usize, (count - 1) as nat) {
                    None => None,
                    Some((rest, pe)) => Some((seq![row] + rest, pe)),
                }
            },
        }
    }
}

/// Append the records of nodes `a` (inclusive) to `b` (exclusive) of the
/// graph.
#[verifier::loop_isolation(false)]
#[verifier::rlimit(100)]
#[verifier::spinoff_prover]
pub fn encode_range(
    w: &mut crate::code_readers::ConstCodesWriter,
    graph: &crate::vec_graph::VecGraph,
    a: usize,
    b: usize,
) -> (r: Result<usize, crate::utils::GraphError>)
    requires
        old(w).wf(),
        flags_tame(old(w).flags()),
        graph.wf(),
        a <= b <= graph.rows().len(),
        (graph.rows().len() as nat) < node_limit(),
        old(w).bits().len() + 512 * (b - a) + 512 * crate::vec_graph::arcs_count(graph.rows())
            + 1024 <= usize::MAX,
    ensures
        final(w).wf(),
        final(w).flags() == old(w).flags(),
        final(w).order() == old(w).order(),
        r matches Ok(arcs) && {
            &&& final(w).bits() == old(w).bits() + graph_bits(
                old(w).order(),
                old(w).flags(),
                graph.rows(),
                a as int,
                b as int,
            )
            &&& arcs == crate::vec_graph::arcs_count_prefix(graph.rows(), b as int)
                - crate::vec_graph::arcs_count_prefix(graph.rows(), a as int)
            &&& final(w).bits().len() <= old(w).bits().len() + 512 * (b - a) + 512 * (
            crate::vec_graph::arcs_count_prefix(graph.rows(), b as int)
                - crate::vec_graph::arcs_count_prefix(graph.rows(), a as int))
        },
{
    let ghost ord = old(w).order();
    let ghost flags = old(w).flags();
    let ghost g = graph.rows();
    let ghost b0 = old(w).bits();
    let nn = graph.num_nodes();
    proof {
        assert(g.len() == nn);
    }
    let mut v: usize = a;
    let mut arcs: usize = 0;
    proof {
        assert(graph_bits(ord, flags, g, a as int, a as int) =~= Seq::<bool>::empty());
        assert(b0 + Seq::<bool>::empty() =~= b0);
        lemma_arcs_prefix_range(g, a as int, b as int);
    }
    while v < b
        invariant
            w.wf(),
            w.flags() == flags,
            w.order() == ord,
            a <= v <= b,
            w.bits() =~= b0 + graph_bits(ord, flags, g, a as int, v as int),
            arcs == crate::vec_graph::arcs_count_prefix(g, v as int)
                - crate::vec_graph::arcs_count_prefix(g, a as int),
            w.bits().len() <= b0.len() + 512 * (v - a) + 512 * arcs,
        decreases b - v,
    {
        let row = match graph.successors(v) {
            Ok(x) => x,
            Err(_) => {
                proof {
                    assert(false);
                }
                return Err(crate::utils::GraphError::BadArgument);
            },
        };
        proof {
            assert(crate::vec_graph::row_ok(g[v as int], g.len()));
            assert(g.len() <= usize::MAX);
            if row@.len() > 0 {
                lemma_sorted_ge(row@, row@.len() - 1);
            }
            lemma_record_writable_of_bounds(flags, v, row@, g.len() as nat);
            lemma_record_len_bound(ord, flags, v, row@);
            lemma_arcs_prefix_range(g, a as int, v + 1);
            assert(crate::vec_graph::arcs_count_prefix(g, v + 1)
                == crate::vec_graph::arcs_count_prefix(g, v as int) + g[v as int].len());
        }
        let rr = encode_record(w, v, &row);
        proof {
            lemma_graph_bits_split(ord, flags, g, a as int, v as int, v + 1);
            assert(graph_bits(ord, flags, g, v as int, v + 1) =~= record_bits(
                ord,
                flags,
                v,
                g[v as int],
            )) by {
                assert(graph_bits(ord, flags, g, v + 1, v + 1) =~= Seq::<bool>::empty());
                assert(record_bits(ord, flags, v, g[v as int]) + Seq::<bool>::empty()
                    =~= record_bits(ord, flags, v, g[v as int]));
            }
            assert(w.bits() =~= b0 + graph_bits(ord, flags, g, a as int, v + 1));
        }
        arcs = arcs + row.len();
        v = v + 1;
    }
    Ok(arcs)
}

/// In a strictly increasing row, the id at position `i` is at least `i`.
proof fn lemma_sorted_ge(row: Seq<usize>, i: int)
    requires
        forall|x: int, y: int| #![trigger row[x], row[y]] 0 <= x < y < row.len() ==> row[x] < row[y],
        0 <= i < row.len(),
    ensures
        row[i] >= i,
    decreases i,
{
    if i > 0 {
        lemma_sorted_ge(row, i - 1);
        assert(row[i - 1] < row[i]);
    }
}

/// Arc counts over a node range never exceed the whole graph's.
proof fn lemma_arcs_prefix_range(g: Seq<Seq<usize>>, a: int, b: int)
    requires
        0 <= a <= b <= g.len(),
    ensures
        crate::vec_graph::arcs_count_prefix(g, a) <= crate::vec_graph::arcs_count_prefix(g, b),
        crate::vec_graph::arcs_count_prefix(g, b) <= crate::vec_graph::arcs_count(g),
    decreases 2 * g.len() - a - b,
{
    if a < b {
        lemma_arcs_prefix_range(g, a + 1, b);
    } else if b < g.len() {
        lemma_arcs_prefix_range(g, a, b + 1);
    }
}

/// A record of a bounded row under tame parameters takes a bounded number
/// of bits.
pub proof fn lemma_record_len_bound(order: BitOrder, flags: CompFlags, v: usize, s: Seq<usize>)
    requires
        flags_tame(flags),
        record_writable(flags, v, s),
    ensures
        record_bits(order, flags, v, s).len() <= 512 + 512 * s.len(),
{
    let ml = flags.min_interval_length as nat;
    let parts = split_ints(s, 0, ml);
    lemma_code_len_le(order, flags.outdegrees, s.len());
    if s.len() > 0 {
        lemma_code_len_le(order, flags.intervals, parts.0.len());
        lemma_split_sizes(s, 0, ml);
        lemma_split_count(s, 0, ml);
        lemma_ivs_bits_len(order, flags.intervals, parts.0, v as int, true, ml);
        lemma_res_bits_len(order, flags.residuals, parts.1, v as int, true);
        assert(record_bits(order, flags, v, s).len() <= 256 + 256 + 512 * parts.0.len() + 256
            * parts.1.len());
    } else {
        assert(record_bits(order, flags, v, s) =~= crate::comp_flags::code_bits(
            order,
            flags.outdegrees,
            s.len(),
        ));
    }
}

/// A tame code never takes more than 256 bits for a representable value.
proof fn lemma_code_len_le(order: BitOrder, c: Code, x: nat)
    requires
        tame_code(c),
        c.writable(x),
    ensures
        crate::comp_flags::code_bits(order, c, x).len() <= 256,
{
    reveal(crate::comp_flags::code_bits);
    vstd::arithmetic::power2::lemma2_to64_rest();
    vstd::arithmetic::power2::lemma_pow2_strictly_increases(62, 64);
    crate::codes::lemma_floor_log2_bound(x + 1);
    let f = crate::codes::floor_log2(x + 1);
    match c {
        Code::Unary => {},
        Code::Gamma => {},
        Code::Delta => {
            crate::codes::lemma_floor_log2_bound((f + 1) as nat);
        },
        Code::Zeta { k } => {
            let h = f / (k as nat);
            vstd::arithmetic::div_mod::lemma_fundamental_div_mod(f as int, k as int);
            assert(h <= f) by (nonlinear_arith)
                requires
                    k >= 1,
                    h == f / (k as nat),
                    f == (k as nat) * (f / (k as nat)) + f % (k as nat),
                    0 <= f % (k as nat),
            ;
            let lo = pow2(h * (k as nat));
            let hi = pow2((h + 1) * (k as nat));
            let mbl = crate::codes::floor_log2((hi - lo) as nat);
            assert(h * (k as nat) < (h + 1) * (k as nat)) by (nonlinear_arith)
                requires
                    k >= 1,
            ;
            vstd::arithmetic::power2::lemma_pow2_strictly_increases(
                h * (k as nat),
                (h + 1) * (k as nat),
            );
            assert((h + 1) * (k as nat) <= f + (k as nat)) by (nonlinear_arith)
                requires
                    k >= 1,
                    h == f / (k as nat),
                    f == (k as nat) * (f / (k as nat)) + f % (k as nat),
                    0 <= f % (k as nat) < (k as nat),
            ;
            assert(f + (k as nat) <= 63);
            crate::codes::lemma_pow2_le_pub((h + 1) * (k as nat), 63);
            vstd::arithmetic::power2::lemma_pow2_strictly_increases(63, 64);
            vstd::arithmetic::power2::lemma_pow2_pos(h * (k as nat));
            crate::codes::lemma_floor_log2_bound((hi - lo) as nat);
        },
    }
}

/// An encoded interval list takes at most 512 bits per interval.
proof fn lemma_ivs_bits_len(
    order: BitOrder,
    c: Code,
    ivs: Seq<(usize, nat)>,
    prev: int,
    first: bool,
    ml: nat,
)
    requires
        tame_code(c),
        ivs_writable(c, ivs, prev, first, ml),
    ensures
        ivs_bits(order, c, ivs, prev, first, ml).len() <= 512 * ivs.len(),
    decreases ivs.len(),
{
    if ivs.len() > 0 {
        let st = ivs[0].0 as int;
        let l = ivs[0].1;
        let gap: nat = if first {
            zigzag(st - prev) as nat
        } else {
            (st - prev) as nat
        };
        lemma_code_len_le(order, c, gap);
        lemma_code_len_le(order, c, (l - ml) as nat);
        lemma_ivs_bits_len(order, c, ivs.drop_first(), st + l, false, ml);
    }
}

/// An encoded residual list takes at most 256 bits per id.
proof fn lemma_res_bits_len(order: BitOrder, c: Code, res: Seq<usize>, prev: int, first: bool)
    requires
        tame_code(c),
        res_writable(c, res, prev, first),
    ensures
        res_bits(order, c, res, prev, first).len() <= 256 * res.len(),
    decreases res.len(),
{
    if res.len() > 0 {
        let x = res[0] as int;
        let gap: nat = if first {
            zigzag(x - prev) as nat
        } else {
            (x - prev) as nat
        };
        lemma_code_len_le(order, c, gap);
        lemma_res_bits_len(order, c, res.drop_first(), x, false);
    }
}

/// Compress a whole graph into one flushed bit stream: the records of
/// every node in order, then zero padding to a word boundary. Returns the
/// backing words, the number of record bits, and the arc count. An empty
/// graph takes zero record bits.
pub fn compress_graph(
    graph: &crate::vec_graph::VecGraph,
    flags: &CompFlags,
    order: BitOrder,
) -> (r: Result<(Vec<u32>, usize, usize), crate::utils::GraphError>)
    requires
        flags_tame(*flags),
        graph.wf(),
        (graph.rows().len() as nat) < node_limit(),
        512 * graph.rows().len() + 512 * crate::vec_graph::arcs_count(graph.rows()) + 2048
            <= usize::MAX,
    ensures
        r matches Ok(t) && {
            &&& ({
                let gb = graph_bits(order, *flags, graph.rows(), 0, graph.rows().len() as int);
                let pad = Seq::new(((32 - (gb.len() % 32)) % 32) as nat, |i: int| false);
                crate::bits::words32_bits(order, t.0@) == gb + pad && t.1 == gb.len()
            })
            &&& t.2 == crate::vec_graph::arcs_count(graph.rows())
        },
{
    let w = crate::bit_writer::BufferedBitStreamWrite::new(order);
    let mut cw = match crate::code_readers::ConstCodesWriter::new(w, flags) {
        Ok(x) => x,
        Err(_) => {
            proof {
                assert(false);
            }
            return Err(crate::utils::GraphError::PropertyMismatch);
        },
    };
    let n = graph.num_nodes();
    let arcs: usize;
    match encode_range(&mut cw, graph, 0, n) {
        Ok(a) => {
            arcs = a;
        },
        Err(_) => {
            proof {
                assert(false);
            }
            return Err(crate::utils::GraphError::BadArgument);
        },
    }
    proof {
        assert(Seq::<bool>::empty() + graph_bits(order, *flags, graph.rows(), 0, n as int)
            =~= graph_bits(order, *flags, graph.rows(), 0, n as int));
    }
    let bits = cw.written_bits();
    let words = cw.flush();
    Ok((words, bits, arcs))
}

/// Append the first `nbits` bits of a flushed stream onto a writer, reading
/// them back word group by word group.
#[verifier::loop_isolation(false)]
#[verifier::rlimit(100)]
pub fn copy_stream(
    w: &mut crate::bit_writer::BufferedBitStreamWrite,
    words: &Vec<u32>,
    nbits: usize,
) -> (r: Result<(), crate::utils::GraphError>)
    requires
        old(w).wf(),
        words@.len() * 32 <= usize::MAX,
        nbits <= words@.len() * 32,
        old(w).bits().len() + nbits + 64 <= usize::MAX,
    ensures
        final(w).wf(),
        final(w).order() == old(w).order(),
        r == Ok::<(), crate::utils::GraphError>(()),
        final(w).bits() == old(w).bits() + crate::bits::words32_bits(
            old(w).order(),
            words@,
        ).subrange(0, nbits as int),
    {
    let ghost ord = old(w).order();
    let ghost b0 = old(w).bits();
    let ghost src = crate::bits::words32_bits(ord, words@);
    let rord = w.bit_order();
    let mut rdr = crate::bit_reader::BufferedBitStreamRead::new(
        rord,
        crate::sort_pairs::copy_words(words),
    );
    let mut copied: usize = 0;
    proof {
        assert(b0 + src.subrange(0, 0) =~= b0);
    }
    while copied < nbits
        invariant
            w.wf(),
            w.order() == ord,
            rdr.wf(),
            rdr.order() == ord,
            rdr.bits() == src,
            rdr.pos() == copied,
            copied <= nbits,
            w.bits() =~= b0 + src.subrange(0, copied as int),
        decreases nbits - copied,
    {
        let nb: usize = if nbits - copied < 64 {
            nbits - copied
        } else {
            64
        };
        let v: u64;
        match rdr.read_bits(nb) {
            Ok(x) => {
                v = x;
            },
            Err(_) => {
                proof {
                    assert(false);
                }
                return Err(crate::utils::GraphError::BackendIo);
            },
        }
        let rw = w.write_bits(v, nb);
        proof {
            let piece = src.subrange(copied as int, copied + nb);
            crate::bits::lemma_val_bits_of_stream_val(ord, piece);
            assert(v as nat == crate::bits::stream_val(ord, piece));
            assert(crate::bits::val_bits(ord, v, nb as nat) == piece);
            assert(b0 + src.subrange(0, copied as int) + piece =~= b0 + src.subrange(
                0,
                copied + nb,
            ));
        }
        copied = copied + nb;
    }
    Ok(())
}

/// Compress a graph in node chunks, each encoded independently, and
/// concatenate the chunk streams at bit granularity: the result is the very
/// same stream the whole-graph compressor produces.
#[verifier::loop_isolation(false)]
#[verifier::rlimit(100)]
#[verifier::spinoff_prover]
pub fn compress_graph_chunked(
    graph: &crate::vec_graph::VecGraph,
    flags: &CompFlags,
    order: BitOrder,
    num_chunks: usize,
) -> (r: Result<(Vec<u32>, usize, usize), crate::utils::GraphError>)
    requires
        flags_tame(*flags),
        graph.wf(),
        1 <= num_chunks,
        (graph.rows().len() as nat) < node_limit(),
        512 * graph.rows().len() + 512 * crate::vec_graph::arcs_count(graph.rows()) + 2048
            <= usize::MAX,
    ensures
        r matches Ok(t) && {
            &&& ({
                let gb = graph_bits(order, *flags, graph.rows(), 0, graph.rows().len() as int);
                let pad = Seq::new(((32 - (gb.len() % 32)) % 32) as nat, |i: int| false);
                crate::bits::words32_bits(order, t.0@) == gb + pad && t.1 == gb.len()
            })
            &&& t.2 == crate::vec_graph::arcs_count(graph.rows())
        },
{
    let ghost g = graph.rows();
    let n = graph.num_nodes();
    let mut chunk_size: usize = if n % num_chunks == 0 {
        n / num_chunks
    } else {
        n / num_chunks + 1
    };
    if chunk_size == 0 {
        chunk_size = 1;
    }
    let w = crate::bit_writer::BufferedBitStreamWrite::new(order);
    let mut out = w;
    let mut from: usize = 0;
    let mut arcs: usize = 0;
    proof {
        assert(graph_bits(order, *flags, g, 0, 0) =~= Seq::<bool>::empty());
        assert(Seq::<bool>::empty() + Seq::<bool>::empty() =~= Seq::<bool>::empty());
        assert(out.bits() =~= Seq::<bool>::empty() + graph_bits(order, *flags, g, 0, 0));
        lemma_arcs_prefix_range(g, 0, 0);
    }
    while from < n
        invariant
            out.wf(),
            out.order() == order,
            from <= n,
            n == g.len(),
            chunk_size >= 1,
            out.bits() =~= graph_bits(order, *flags, g, 0, from as int),
            arcs == crate::vec_graph::arcs_count_prefix(g, from as int),
            out.bits().len() <= 512 * from + 512 * crate::vec_graph::arcs_count_prefix(
                g,
                from as int,
            ),
        decreases n - from,
    {
        let to: usize = if n - from < chunk_size {
            n
        } else {
            from + chunk_size
        };
        let cw = crate::bit_writer::BufferedBitStreamWrite::new(order);
        let mut ccw = match crate::code_readers::ConstCodesWriter::new(cw, flags) {
            Ok(x) => x,
            Err(_) => {
                proof {
                    assert(false);
                }
                return Err(crate::utils::GraphError::PropertyMismatch);
            },
        };
        proof {
            lemma_arcs_prefix_range(g, from as int, to as int);
            lemma_arcs_prefix_range(g, to as int, g.len() as int);
        }
        let chunk_arcs: usize;
        match encode_range(&mut ccw, graph, from, to) {
            Ok(a) => {
                chunk_arcs = a;
            },
            Err(_) => {
                proof {
                    assert(false);
                }
                return Err(crate::utils::GraphError::BadArgument);
            },
        }
        proof {
            assert(Seq::<bool>::empty() + graph_bits(order, *flags, g, from as int, to as int)
                =~= graph_bits(order, *flags, g, from as int, to as int));
        }
        let cbits = ccw.written_bits();
        let cwords = ccw.flush();
        proof {
            let cb = graph_bits(order, *flags, g, from as int, to as int);
            let pad = Seq::new(((32 - (cb.len() % 32)) % 32) as nat, |i: int| false);
            assert(crate::bits::words32_bits(order, cwords@).len() == cwords@.len() * 32);
            assert(cwords@.len() * 32 == cb.len() + pad.len());
            lemma_arcs_prefix_range(g, 0, from as int);
            assert(cb.len() <= 512 * (to - from) + 512 * (crate::vec_graph::arcs_count_prefix(
                g,
                to as int,
            ) - crate::vec_graph::arcs_count_prefix(g, from as int)));
        }
        match copy_stream(&mut out, &cwords, cbits) {
            Ok(()) => (),
            Err(_) => {
                proof {
                    assert(false);
                }
                return Err(crate::utils::GraphError::BackendIo);
            },
        }
        proof {
            let cb = graph_bits(order, *flags, g, from as int, to as int);
            let pad = Seq::new(((32 - (cb.len() % 32)) % 32) as nat, |i: int| false);
            assert((cb + pad).subrange(0, cb.len() as int) =~= cb);
            lemma_graph_bits_split(order, *flags, g, 0, from as int, to as int);
            assert(out.bits() =~= graph_bits(order, *flags, g, 0, to as int));
            lemma_arcs_prefix_range(g, 0, from as int);
        }
        arcs = arcs + chunk_arcs;
        from = to;
    }
    proof {
        assert(out.bits() =~= graph_bits(order, *flags, g, 0, n as int));
    }
    let bits = out.written_bits();
    let words = out.into_words_padded();
    Ok((words, bits, arcs))
}

/// Decode a stream of `n` records into a graph, refusing rows that do not
/// form a well-formed graph.
#[verifier::loop_isolation(false)]
#[verifier::rlimit(100)]
#[verifier::spinoff_prover]
pub fn decode_graph(
    words: Vec<u32>,
    order: BitOrder,
    flags: &CompFlags,
    n: usize,
) -> (r: Result<crate::vec_graph::VecGraph, crate::utils::GraphError>)
    requires
        flags.ok(),
        words@.len() * 32 <= usize::MAX,
        n < usize::MAX,
    ensures
        flags.compression_window != 0 ==> r == Err::<crate::vec_graph::VecGraph,
            crate::utils::GraphError,
        >(crate::utils::GraphError::PropertyMismatch),
        flags.compression_window == 0 ==> ({
            let bs = crate::bits::words32_bits(order, words@);
            match spec_decode_rows(order, *flags, bs, 0, 0, n as nat) {
                Some((rows, pe)) => {
                    &&& (crate::vec_graph::succs_wf(rows) ==> (r matches Ok(t) && t.rows()
                        == rows))
                    &&& (r matches Ok(t) ==> t.rows() == rows && t.wf())
                },
                None => r is Err,
            }
        }),
{
    // this decoder reads only the window-free record layout: a file that
    // was written with reference copying cannot be decoded here
    if flags.compression_window != 0 {
        return Err(crate::utils::GraphError::PropertyMismatch);
    }
    let ghost bs = crate::bits::words32_bits(order, words@);
    let rd0 = crate::bit_reader::BufferedBitStreamRead::new(order, words);
    let mut rd = match crate::code_readers::ConstCodesReader::new(rd0, flags) {
        Ok(x) => x,
        Err(_) => {
            proof {
                assert(false);
            }
            return Err(crate::utils::GraphError::PropertyMismatch);
        },
    };
    let mut rows: Vec<Vec<usize>> = Vec::new();
    let mut v: usize = 0;
    let ghost sd = spec_decode_rows(order, *flags, bs, 0, 0, n as nat);
    proof {
        match sd {
            Some((srows, pe)) => {
                lemma_spec_decode_rows_len(order, *flags, bs, 0, 0, n as nat);
                assert(srows.subrange(0, 0) =~= Seq::<Seq<usize>>::empty());
                assert(srows.subrange(0, n as int) =~= srows);
            },
            None => {},
        }
    }
    while v < n
        invariant
            rd.wf(),
            rd.flags() == *flags,
            rd.order() == order,
            rd.bits() == bs,
            v <= n,
            n < usize::MAX,
            rows@.len() == v,
            match sd {
                Some((srows, pe)) => {
                    &&& srows.len() == n
                    &&& rows@.map_values(|rv: Vec<usize>| rv@) =~= srows.subrange(0, v as int)
                    &&& spec_decode_rows(order, *flags, bs, rd.pos(), v, (n - v) as nat) == Some(
                        (srows.subrange(v as int, n as int), pe),
                    )
                },
                None => spec_decode_rows(order, *flags, bs, rd.pos(), v, (n - v) as nat) is None,
            },
        decreases n - v,
    {
        let ghost pre_pos = rd.pos();
        let ghost sfx_r = spec_decode_rows(order, *flags, bs, pre_pos, v, (n - v) as nat);
        let row: Vec<usize>;
        match decode_record(&mut rd, v) {
            Ok(x) => {
                row = x;
            },
            Err(e) => {
                proof {
                    if sfx_r is Some {
                        assert(spec_read_record(order, *flags, bs, pre_pos, v) is Some);
                        assert(false);
                    }
                }
                return Err(e);
            },
        }
        let ghost pre_rows = rows@;
        rows.push(row);
        proof {
            assert(rows@.map_values(|rv: Vec<usize>| rv@) =~= pre_rows.map_values(
                |rv: Vec<usize>| rv@,
            ).push(row@));
            match sd {
                Some((srows, pe)) => {
                    match sfx_r {
                        Some((sfx, pe2)) => {
                            match spec_read_record(order, *flags, bs, pre_pos, v) {
                                Some(((d, ivsx, rsx), p1)) => {
                                    assert(sfx[0] == merge2(expand_ints(ivsx), rsx));
                                    assert(srows[v as int] == sfx[0]);
                                    assert(srows.subrange(0, v + 1) =~= srows.subrange(
                                        0,
                                        v as int,
                                    ).push(sfx[0]));
                                    assert(sfx.drop_first() =~= srows.subrange(v + 1, n as int));
                                    assert(spec_decode_rows(
                                        order,
                                        *flags,
                                        bs,
                                        rd.pos(),
                                        (v + 1) as usize,
                                        (n - v - 1) as nat,
                                    ) == Some((sfx.drop_first(), pe2)));
                                },
                                None => {
                                    assert(false);
                                },
                            }
                        },
                        None => {
                            assert(false);
                        },
                    }
                },
                None => {},
            }
        }
        v = v + 1;
    }
    proof {
        match sd {
            Some((srows, pe)) => {
                assert(rows@.map_values(|rv: Vec<usize>| rv@) =~= srows);
            },
            None => {},
        }
    }
    match crate::vec_graph::VecGraph::from_sorted_rows(rows) {
        Ok(t) => Ok(t),
        Err(e) => {
            proof {
                match sd {
                    Some((srows, pe)) => {},
                    None => {
                        assert(false);
                    },
                }
            }
            Err(e)
        },
    }
}

/// A decoded row sequence holds one row per requested node.
proof fn lemma_spec_decode_rows_len(
    order: BitOrder,
    flags: CompFlags,
    bs: Seq<bool>,
    pos: int,
    v: usize,
    count: nat,
)
    ensures
        match spec_decode_rows(order, flags, bs, pos, v, count) {
            Some((rows, pe)) => rows.len() == count,
            None => true,
        },
    decreases count,
{
    if count > 0 && v < usize::MAX {
        match spec_read_record(order, flags, bs, pos, v) {
            None => {},
            Some(((d, ivs, rs), p1)) => {
                lemma_spec_decode_rows_len(
                    order,
                    flags,
                    bs,
                    p1,
                    (v + 1) as usize,
                    (count - 1) as nat,
                );
            },
        }
    }
}

/// Compress a sequentially walked graph in parallel-ready chunks and
/// return the length in bits of the produced stream: the chunked compressor
/// under the name the command-line tools call it by.
pub fn parallel_compress_sequential_iter(
    graph: &crate::vec_graph::VecGraph,
    flags: &CompFlags,
    order: BitOrder,
    num_chunks: usize,
) -> (r: Result<(Vec<u32>, usize, usize), crate::utils::GraphError>)
    requires
        flags_tame(*flags),
        graph.wf(),
        1 <= num_chunks,
        (graph.rows().len() as nat) < node_limit(),
        512 * graph.rows().len() + 512 * crate::vec_graph::arcs_count(graph.rows()) + 2048
            <= usize::MAX,
    ensures
        r matches Ok(t) && {
            &&& ({
                let gb = graph_bits(order, *flags, graph.rows(), 0, graph.rows().len() as int);
                let pad = Seq::new(((32 - (gb.len() % 32)) % 32) as nat, |i: int| false);
                crate::bits::words32_bits(order, t.0@) == gb + pad && t.1 == gb.len()
            })
            &&& t.2 == crate::vec_graph::arcs_count(graph.rows())
        },
{
    compress_graph_chunked(graph, flags, order, num_chunks)
}

/// Decoding a compressed graph gives back exactly its rows, node by node:
/// the record streams of the whole-graph and the chunked compressor both
/// decode to the graph they were built from.
#[verifier::rlimit(100)]
#[verifier::spinoff_prover]
pub proof fn lemma_graph_round_trip(
    order: BitOrder,
    flags: CompFlags,
    g: Seq<Seq<usize>>,
    prefix: Seq<bool>,
    from: usize,
    rest: Seq<bool>,
)
    requires
        flags_tame(flags),
        crate::vec_graph::succs_wf(g),
        g.len() <= usize::MAX,
        (g.len() as nat) < node_limit(),
        from <= g.len(),
    ensures
        spec_decode_rows(
            order,
            flags,
            prefix + graph_bits(order, flags, g, from as int, g.len() as int) + rest,
            prefix.len() as int,
            from,
            (g.len() - from) as nat,
        ) == Some(
            (
                g.subrange(from as int, g.len() as int),
                (prefix.len() + graph_bits(order, flags, g, from as int, g.len() as int).len()) as int,
            ),
        ),
    decreases g.len() - from,
{
    let n = g.len() as int;
    if from as int == n {
        assert(graph_bits(order, flags, g, n, n) =~= Seq::<bool>::empty());
        assert(prefix + Seq::<bool>::empty() + rest =~= prefix + rest);
        assert(g.subrange(n, n) =~= Seq::<Seq<usize>>::empty());
    } else {
        let row = g[from as int];
        let rb = record_bits(order, flags, from, row);
        let tail = graph_bits(order, flags, g, from as int + 1, n);
        assert(graph_bits(order, flags, g, from as int, n) == rb + tail);
        let bs = prefix + graph_bits(order, flags, g, from as int, n) + rest;
        crate::sort_pairs::lemma_seq_assoc2(prefix, rb, tail, rest);
        assert(crate::vec_graph::row_ok(row, g.len()));
        if row.len() > 0 {
            lemma_sorted_ge(row, row.len() - 1);
        }
        lemma_record_writable_of_bounds(flags, from, row, g.len() as nat);
        lemma_record_round_trip(order, flags, prefix, from, row, tail + rest);
        let parts = split_ints(row, 0, flags.min_interval_length as nat);
        lemma_split_merge(row, 0, flags.min_interval_length as nat);
        assert(row.subrange(0, row.len() as int) =~= row);
        assert(merge2(expand_ints(parts.0), parts.1) == row);
        lemma_graph_round_trip(order, flags, g, prefix + rb, (from + 1) as usize, rest);
        assert(spec_read_record(order, flags, bs, prefix.len() as int, from) == Some(
            ((row.len(), parts.0, parts.1), (prefix.len() + rb.len()) as int),
        ));
        assert(spec_decode_rows(
            order,
            flags,
            bs,
            (prefix.len() + rb.len()) as int,
            (from + 1) as usize,
            (g.len() - from - 1) as nat,
        ) == Some(
            (g.subrange(from + 1, n), (prefix.len() + rb.len() + tail.len()) as int),
        ));
        assert(seq![row] + g.subrange(from + 1, n) =~= g.subrange(from as int, n));
    }
}

/// A record holds no interval exactly when no run of consecutive ids in the
/// row reaches the threshold; the whole row is then carried by residuals
/// alone.
pub proof fn lemma_no_intervals_iff(s: Seq<usize>, ml: nat)
    requires
        forall|x: int, y: int| #![trigger s[x], s[y]] 0 <= x < y < s.len() ==> s[x] < s[y],
    ensures
        (split_ints(s, 0, ml).0.len() == 0) <==> (forall|i: int|
            0 <= i < s.len() ==> #[trigger] run_len_at(s, i) < ml),
        split_ints(s, 0, ml).0.len() == 0 ==> split_ints(s, 0, ml).1 == s,
{
    lemma_no_intervals_from(s, 0, ml);
    if split_ints(s, 0, ml).0.len() == 0 {
        lemma_split_merge(s, 0, ml);
        assert(expand_ints(split_ints(s, 0, ml).0) =~= Seq::<usize>::empty());
        assert(merge2(Seq::<usize>::empty(), split_ints(s, 0, ml).1) == split_ints(s, 0, ml).1);
        assert(s.subrange(0, s.len() as int) =~= s);
    }
}

/// No interval is cut from position `i` on exactly when no run from there
/// reaches the threshold.
proof fn lemma_no_intervals_from(s: Seq<usize>, i: int, ml: nat)
    requires
        0 <= i <= s.len(),
    ensures
        (split_ints(s, i, ml).0.len() == 0) <==> (forall|q: int|
            i <= q < s.len() ==> #[trigger] run_len_at(s, q) < ml),
    decreases s.len() - i,
{
    if i < s.len() {
        lemma_run_len_at_bounds(s, i);
        let rl = run_len_at(s, i);
        lemma_no_intervals_from(s, i + rl, ml);
        if rl >= ml {
            assert(run_len_at(s, i) >= ml);
        } else {
            if split_ints(s, i, ml).0.len() == 0 {
                assert forall|q: int| i <= q < s.len() implies #[trigger] run_len_at(s, q)
                    < ml by {
                    if q < i + rl {
                        lemma_run_len_within(s, i, q);
                    } else {
                        assert(run_len_at(s, q) < ml);
                    }
                }
            }
        }
    }
}

/// A run's tail is still a run: the run length from inside a run stays
/// below the full run's remaining length.
proof fn lemma_run_len_within(s: Seq<usize>, i: int, q: int)
    requires
        0 <= i <= q,
        q < i + run_len_at(s, i),
        i < s.len(),
    ensures
        q < s.len(),
        run_len_at(s, q) == run_len_at(s, i) - (q - i),
    decreases q - i,
{
    lemma_run_len_at_bounds(s, i);
    if q > i {
        assert(s[i + 1] == s[i] + 1);
        lemma_run_len_within(s, i + 1, q);
    }
}

} // verus!
