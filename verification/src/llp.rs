//! Layered label propagation: every node carries a label, and repeated
//! passes move each node to the label that scores best among its successors,
//! with ties broken at random. The nodes are then ordered by label, giving a
//! permutation that clusters related nodes.

use vstd::prelude::*;

verus! {

use crate::sort_pairs::pair_le;
use crate::utils::GraphError;
use crate::vec_graph::VecGraph;
use crate::vec_graph::row_ok;
use vstd::multiset::Multiset;

#[verifier::external_type_specification]
#[verifier::external_body]
pub struct ExSmallRng(rand::rngs::SmallRng);

/// Relies on rand's `SeedableRng::seed_from_u64` for `SmallRng`: it builds a
/// generator from the seed.
#[verifier::external_body]
fn new_rng(seed: u64) -> (r: rand::rngs::SmallRng) {
    <rand::rngs::SmallRng as rand::SeedableRng>::seed_from_u64(seed)
}

/// Relies on rand's `Rng::gen_range`: the result lies in the half-open range
/// it is given.
#[verifier::external_body]
fn rng_below(rng: &mut rand::rngs::SmallRng, n: usize) -> (r: usize)
    requires
        n >= 1,
    ensures
        r < n,
{
    rand::Rng::gen_range(rng, 0..n)
}

/// Relies on rand's `SliceRandom::shuffle`: it permutes the slice in place,
/// so the values of the shuffled span are kept and everything else is
/// untouched.
#[verifier::external_body]
fn shuffle_range(v: &mut Vec<usize>, start: usize, end: usize, rng: &mut rand::rngs::SmallRng)
    requires
        start <= end <= old(v)@.len(),
    ensures
        final(v)@.len() == old(v)@.len(),
        final(v)@.subrange(start as int, end as int).to_multiset() == old(v)@.subrange(
            start as int,
            end as int,
        ).to_multiset(),
        forall|i: int|
            0 <= i < old(v)@.len() && !(start <= i < end) ==> final(v)@[i] == old(v)@[i],
{
    rand::seq::SliceRandom::shuffle(&mut v.as_mut_slice()[start..end], rng);
}

/// The sort key of a node when the permutation is ordered by label.
pub fn label_key(labels: &Vec<usize>, node: usize) -> (r: (usize, usize))
    requires
        node < labels@.len(),
    ensures
        r == (labels@[node as int], node),
{
    (labels[node], node)
}

/// Relies on rayon's `par_sort_unstable_by_key` keyed through [`label_key`]:
/// it reorders the permutation into non-decreasing `(label, node)` order and
/// keeps exactly the same nodes.
#[verifier::external_body]
fn sort_perm_by_label(perm: &mut Vec<usize>, labels: &Vec<usize>)
    requires
        forall|i: int| 0 <= i < old(perm)@.len() ==> (#[trigger] old(perm)@[i]) < labels@.len(),
    ensures
        final(perm)@.len() == old(perm)@.len(),
        final(perm)@.to_multiset() == old(perm)@.to_multiset(),
        forall|i: int, j: int|
            #![trigger final(perm)@[i], final(perm)@[j]]
            0 <= i < j < final(perm)@.len() ==> pair_le(
                (labels@[final(perm)@[i] as int], final(perm)@[i]),
                (labels@[final(perm)@[j] as int], final(perm)@[j]),
            ),
{
    rayon::slice::ParallelSliceMut::par_sort_unstable_by_key(
        perm.as_mut_slice(),
        |v: &usize| label_key(labels, *v),
    );
}

/// The identity permutation of `n` nodes, as a sequence.
pub open spec fn ident_seq(n: nat) -> Seq<usize> {
    Seq::new(n, |i: int| i as usize)
}

/// Replacing one element of a run swaps its contribution in the multiset.
proof fn lemma_to_multiset_update<A>(s: Seq<A>, i: int, y: A)
    requires
        0 <= i < s.len(),
    ensures
        s.update(i, y).to_multiset() == s.to_multiset().remove(s[i]).insert(y),
{
    broadcast use vstd::seq_lib::group_to_multiset_ensures;

    let a = s.subrange(0, i);
    let b = s.subrange(i + 1, s.len() as int);
    let u = s.update(i, y);
    assert(s =~= (a + seq![s[i]]) + b);
    assert(u =~= (a + seq![y]) + b);
    vstd::seq_lib::lemma_multiset_commutative(a + seq![s[i]], b);
    vstd::seq_lib::lemma_multiset_commutative(a + seq![y], b);
    vstd::seq_lib::lemma_multiset_commutative(a, seq![s[i]]);
    vstd::seq_lib::lemma_multiset_commutative(a, seq![y]);
    assert(seq![s[i]] =~= Seq::<A>::empty().push(s[i]));
    assert(seq![y] =~= Seq::<A>::empty().push(y));
    assert(seq![s[i]].to_multiset() =~= Multiset::<A>::empty().insert(s[i]));
    assert(seq![y].to_multiset() =~= Multiset::<A>::empty().insert(y));
    assert(u.to_multiset() =~= s.to_multiset().remove(s[i]).insert(y));
}

/// A node's label store: one label per node and, per label, exactly how many
/// nodes carry it.
pub struct LabelStore {
    /// The label of each node.
    labels: Vec<usize>,
    /// The number of nodes per label: the label census.
    volumes: Vec<usize>,
}

impl LabelStore {
    /// One slot per node, every label a node id, and the volumes are the
    /// exact census of the labels.
    pub closed spec fn wf(&self) -> bool {
        &&& self.labels@.len() == self.volumes@.len()
        &&& forall|i: int|
            0 <= i < self.labels@.len() ==> (#[trigger] self.labels@[i]) < self.labels@.len()
        &&& forall|l: int|
            0 <= l < self.volumes@.len() ==> (#[trigger] self.volumes@[l])
                == self.labels@.to_multiset().count(l as usize)
    }

    /// How many nodes the store covers.
    pub closed spec fn len(&self) -> nat {
        self.labels@.len()
    }

    /// The label sequence.
    pub closed spec fn view_labels(&self) -> Seq<usize> {
        self.labels@
    }

    /// The label sequence has one entry per node the store covers.
    pub proof fn lemma_len_labels(&self)
        ensures
            self.len() == self.view_labels().len(),
    {
    }

    /// Every node starts in its own singleton label.
    #[verifier::loop_isolation(false)]
    pub fn new(n: usize) -> (r: Self)
        ensures
            r.wf(),
            r.len() == n,
            r.view_labels() == ident_seq(n as nat),
    {
        broadcast use vstd::seq_lib::group_to_multiset_ensures;

        let mut labels: Vec<usize> = Vec::new();
        let mut volumes: Vec<usize> = Vec::new();
        let mut l: usize = 0;
        while l < n
            invariant
                l <= n,
                labels@.len() == l,
                volumes@.len() == l,
                forall|i: int| 0 <= i < l ==> (#[trigger] labels@[i]) == i,
                forall|q: int|
                    0 <= q < l ==> (#[trigger] volumes@[q]) == labels@.to_multiset().count(
                        q as usize,
                    ),
            decreases n - l,
        {
            let ghost pre = labels@;
            labels.push(l);
            volumes.push(1);
            proof {
                assert(labels@.to_multiset() =~= pre.to_multiset().insert(l));
                assert(!pre.contains(l)) by {
                    if pre.contains(l) {
                        let i = choose|i: int| 0 <= i < pre.len() && pre[i] == l;
                    }
                }
                assert(pre.to_multiset().count(l) == 0);
                assert forall|q: int|
                    0 <= q < l + 1 implies (#[trigger] volumes@[q]) == labels@.to_multiset().count(
                    q as usize,
                ) by {
                    if q < l {
                        assert(volumes@[q] == pre.to_multiset().count(q as usize));
                    }
                }
            }
            l = l + 1;
        }
        proof {
            assert(labels@ =~= ident_seq(n as nat));
        }
        LabelStore { labels, volumes }
    }

    /// Move a node to a new label: one unit of volume leaves the old label
    /// and joins the new one, so the census stays exact.
    pub fn set(&mut self, node: usize, new_label: usize)
        requires
            old(self).wf(),
            node < old(self).len(),
            new_label < old(self).len(),
        ensures
            final(self).wf(),
            final(self).len() == old(self).len(),
            final(self).view_labels() == old(self).view_labels().update(
                node as int,
                new_label,
            ),
    {
        broadcast use vstd::multiset::group_multiset_axioms;

        let ghost pre = self.labels@;
        let nlen = self.labels.len();
        let old_label = self.labels[node];
        proof {
            assert(pre.to_multiset().count(old_label) >= 1) by {
                broadcast use vstd::seq_lib::group_to_multiset_ensures;

                assert(pre.contains(old_label));
            }
            assert(pre.to_multiset().count(new_label) <= pre.to_multiset().len()) by {
                vstd::multiset::axiom_count_le_len(pre.to_multiset(), new_label);
            }
            assert(pre.to_multiset().len() == pre.len()) by {
                broadcast use vstd::seq_lib::group_to_multiset_ensures;

            }
            lemma_to_multiset_update(pre, node as int, new_label);
        }
        if old_label != new_label {
            let ghost cold = pre.to_multiset().count(old_label);
            let ghost cnew = pre.to_multiset().count(new_label);
            proof {
                let m2 = pre.to_multiset().remove(old_label);
                assert(Multiset::singleton(old_label).subset_of(pre.to_multiset())) by {
                    assert(Multiset::singleton(old_label).count(old_label) == 1);
                    assert forall|x: usize|
                        #[trigger] Multiset::singleton(old_label).count(x) <= pre.to_multiset()
                            .count(x) by {
                        if x != old_label {
                            assert(Multiset::singleton(old_label).count(x) == 0);
                        }
                    }
                }
                vstd::multiset::axiom_len_sub(
                    pre.to_multiset(),
                    Multiset::singleton(old_label),
                );
                vstd::multiset::axiom_count_le_len(m2, new_label);
                assert(m2.count(new_label) == cnew);
                assert(cnew <= pre.len() - 1);
                assert(pre.len() == nlen);
                assert(self.volumes@[old_label as int] == cold);
                assert(self.volumes@[new_label as int] == cnew);
            }
            let ov = self.volumes[old_label];
            self.volumes.set(old_label, ov - 1);
            let nv = self.volumes[new_label];
            proof {
                assert(nv == cnew);
            }
            self.volumes.set(new_label, nv + 1);
        }
        self.labels.set(node, new_label);
        proof {
            let post = self.labels@;
            assert(post == pre.update(node as int, new_label));
            assert(post.to_multiset() == pre.to_multiset().remove(old_label).insert(new_label));
            assert forall|l: int|
                0 <= l < self.volumes@.len() implies (#[trigger] self.volumes@[l])
                == post.to_multiset().count(l as usize) by {
                let lu = l as usize;
                if old_label == new_label {
                    assert(post.to_multiset().count(lu) == pre.to_multiset().count(lu));
                    assert(self.volumes@[l] == old(self).volumes@[l]);
                } else {
                    if lu == new_label {
                        assert(post.to_multiset().count(lu) == pre.to_multiset().count(lu) + 1);
                    } else if lu == old_label {
                        assert(post.to_multiset().count(lu) == pre.to_multiset().count(lu) - 1);
                    } else {
                        assert(post.to_multiset().count(lu) == pre.to_multiset().count(lu));
                        assert(self.volumes@[l] == old(self).volumes@[l]);
                    }
                }
            }
        }
    }

    /// The label of a node.
    pub fn label(&self, node: usize) -> (r: usize)
        requires
            self.wf(),
            node < self.len(),
        ensures
            r == self.view_labels()[node as int],
            r < self.len(),
    {
        self.labels[node]
    }

    /// The volume of a label: exactly how many nodes carry it.
    pub fn volume(&self, label: usize) -> (r: usize)
        requires
            self.wf(),
            label < self.len(),
        ensures
            r == self.view_labels().to_multiset().count(label),
    {
        self.volumes[label]
    }
}

/// A shuffled span keeps the whole vector a permutation of what it was.
proof fn lemma_shuffle_multiset(a: Seq<usize>, b: Seq<usize>, start: int, end: int)
    requires
        a.len() == b.len(),
        0 <= start <= end <= a.len(),
        b.subrange(start, end).to_multiset() == a.subrange(start, end).to_multiset(),
        forall|i: int| 0 <= i < a.len() && !(start <= i < end) ==> b[i] == a[i],
    ensures
        b.to_multiset() == a.to_multiset(),
{
    broadcast use vstd::seq_lib::group_to_multiset_ensures;

    assert(a =~= a.subrange(0, start) + a.subrange(start, end) + a.subrange(end, a.len() as int));
    assert(b =~= b.subrange(0, start) + b.subrange(start, end) + b.subrange(end, b.len() as int));
    assert(b.subrange(0, start) =~= a.subrange(0, start));
    assert(b.subrange(end, b.len() as int) =~= a.subrange(end, a.len() as int));
    vstd::seq_lib::lemma_multiset_commutative(
        a.subrange(0, start) + a.subrange(start, end),
        a.subrange(end, a.len() as int),
    );
    vstd::seq_lib::lemma_multiset_commutative(a.subrange(0, start), a.subrange(start, end));
    vstd::seq_lib::lemma_multiset_commutative(
        b.subrange(0, start) + b.subrange(start, end),
        b.subrange(end, b.len() as int),
    );
    vstd::seq_lib::lemma_multiset_commutative(b.subrange(0, start), b.subrange(start, end));
}

/// A sequence whose multiset is the identity's holds every node below `n`.
proof fn lemma_perm_elements(p: Seq<usize>, n: nat)
    requires
        p.to_multiset() == ident_seq(n).to_multiset(),
    ensures
        p.len() == n,
        forall|i: int| 0 <= i < p.len() ==> (#[trigger] p[i]) < n,
{
    broadcast use vstd::seq_lib::group_to_multiset_ensures;

    assert(ident_seq(n).to_multiset().len() == ident_seq(n).len());
    assert(p.to_multiset().len() == p.len());
    assert forall|i: int| 0 <= i < p.len() implies (#[trigger] p[i]) < n by {
        assert(p.to_multiset().contains(p[i]));
        assert(ident_seq(n).to_multiset().contains(p[i]));
        assert(ident_seq(n).contains(p[i]));
        let j = choose|j: int| 0 <= j < n && ident_seq(n)[j] == p[i];
    }
}

/// One pass of label updates over a granule of the permutation: each node
/// moves to the best-scoring label among its successors, ties broken at
/// random. Returns how many labels changed.
#[verifier::loop_isolation(false)]
fn update_granule(
    graph: &VecGraph,
    perm: &Vec<usize>,
    from: usize,
    to: usize,
    store: &mut LabelStore,
    can_change: &mut Vec<bool>,
    rng: &mut rand::rngs::SmallRng,
    gamma_num: u64,
    gamma_den: u64,
) -> (modified: usize)
    requires
        graph.wf(),
        old(store).wf(),
        old(store).len() == graph.rows().len(),
        old(can_change)@.len() == graph.rows().len(),
        perm@.len() == graph.rows().len(),
        forall|i: int| 0 <= i < perm@.len() ==> (#[trigger] perm@[i]) < graph.rows().len(),
        from <= to <= perm@.len(),
        gamma_num <= 0x1_0000_0000,
        1 <= gamma_den <= 0x1_0000_0000,
        to - from <= usize::MAX,
    ensures
        final(store).wf(),
        final(store).len() == old(store).len(),
        final(can_change)@.len() == old(can_change)@.len(),
        forall|v: int|
            0 <= v < graph.rows().len() && graph.rows()[v].len() == 0
                ==> final(store).view_labels()[v] == old(store).view_labels()[v],
{
    let ghost n = graph.rows().len();
    let mut idx: usize = from;
    let mut modified: usize = 0;
    while idx < to
        invariant
            store.wf(),
            store.len() == n,
            can_change@.len() == n,
            from <= idx <= to,
            modified <= idx - from,
            forall|v: int|
                0 <= v < n && graph.rows()[v].len() == 0 ==> store.view_labels()[v] == old(
                    store,
                ).view_labels()[v],
        decreases to - idx,
    {
        let node = perm[idx];
        if can_change[node] {
            can_change.set(node, false);
            let succ = match graph.successors(node) {
                Ok(s) => s,
                Err(_) => {
                    proof {
                        assert(false);
                    }
                    return modified;
                },
            };
            if succ.len() > 0 {
                proof {
                    assert(row_ok(graph.rows()[node as int], n));
                }
                let curr_label = store.label(node);
                // tally how often each label occurs among the successors
                let mut cand: Vec<(usize, usize)> = Vec::new();
                let mut j: usize = 0;
                while j < succ.len()
                    invariant
                        store.wf(),
                        store.len() == n,
                        j <= succ@.len(),
                        forall|q: int|
                            0 <= q < succ@.len() ==> (#[trigger] succ@[q]) < n,
                        forall|q: int|
                            0 <= q < cand@.len() ==> ((#[trigger] cand@[q]).0 < n && cand@[q].1
                                >= 1 && cand@[q].1 <= succ@.len()),
                    decreases succ@.len() - j,
                {
                    let l = store.label(succ[j]);
                    let mut found = false;
                    let mut t: usize = 0;
                    while t < cand.len()
                        invariant
                            t <= cand@.len(),
                            store.wf(),
                            store.len() == n,
                            l < n,
                            j < succ@.len(),
                            forall|q: int|
                                0 <= q < cand@.len() ==> ((#[trigger] cand@[q]).0 < n && cand@[q].1
                                    >= 1 && cand@[q].1 <= succ@.len()),
                        decreases cand@.len() - t,
                    {
                        if cand[t].0 == l {
                            if cand[t].1 < succ.len() {
                                let c = cand[t].1;
                                cand.set(t, (l, c + 1));
                            }
                            found = true;
                            break ;
                        }
                        t = t + 1;
                    }
                    if !found {
                        cand.push((l, 1));
                    }
                    j = j + 1;
                }
                // pick the best-scoring labels: higher (1+g)c - g(V+1) wins
                let mut majorities: Vec<usize> = Vec::new();
                let mut best_c: u128 = 0;
                let mut best_pen: u128 = 0;
                let mut t2: usize = 0;
                while t2 < cand.len()
                    invariant
                        t2 <= cand@.len(),
                        store.wf(),
                        store.len() == n,
                        majorities@.len() >= 1 || t2 == 0,
                        best_c <= 0x2_0000_0000u128 * 0xffff_ffff_ffff_ffffu128,
                        best_pen <= 0x1_0000_0000u128 * 0x1_0000_0000_0000_0000u128,
                        forall|q: int|
                            0 <= q < majorities@.len() ==> (#[trigger] majorities@[q]) < n,
                        forall|q: int|
                            0 <= q < cand@.len() ==> ((#[trigger] cand@[q]).0 < n),
                    decreases cand@.len() - t2,
                {
                    let (l, c) = cand[t2];
                    let vol = store.volume(l);
                    // score comparison, cross-multiplied to stay integral:
                    // (den+num)*c - num*(V+1) against the best so far
                    proof {
                        assert(((gamma_den as u128) + (gamma_num as u128)) * (c as u128)
                            <= 0x2_0000_0000u128 * 0xffff_ffff_ffff_ffffu128) by (nonlinear_arith)
                            requires
                                gamma_den <= 0x1_0000_0000,
                                gamma_num <= 0x1_0000_0000,
                                c <= 0xffff_ffff_ffff_ffffu64 as usize || c <= usize::MAX,
                        ;
                        assert((gamma_num as u128) * ((vol as u128) + 1) <= 0x1_0000_0000u128 * (
                        0xffff_ffff_ffff_ffffu128 + 1)) by (nonlinear_arith)
                            requires
                                gamma_num <= 0x1_0000_0000,
                                vol <= usize::MAX,
                        ;
                    }
                    let sc: u128 = ((gamma_den as u128) + (gamma_num as u128)) * (c as u128);
                    let pen: u128 = (gamma_num as u128) * ((vol as u128) + 1);
                    let better: bool;
                    let equal: bool;
                    if t2 == 0 {
                        better = true;
                        equal = false;
                    } else {
                        better = sc + best_pen > best_c + pen;
                        equal = sc + best_pen == best_c + pen;
                    }
                    if better {
                        majorities.clear();
                        majorities.push(l);
                        best_c = sc;
                        best_pen = pen;
                    } else if equal {
                        majorities.push(l);
                    }
                    t2 = t2 + 1;
                }
                if majorities.len() > 0 {
                    let pick = rng_below(rng, majorities.len());
                    let next_label = majorities[pick];
                    if next_label != curr_label {
                        if modified < to - from {
                            modified = modified + 1;
                        }
                        let mut j2: usize = 0;
                        while j2 < succ.len()
                            invariant
                                j2 <= succ@.len(),
                                can_change@.len() == n,
                                forall|q: int|
                                    0 <= q < succ@.len() ==> (#[trigger] succ@[q]) < n,
                            decreases succ@.len() - j2,
                        {
                            can_change.set(succ[j2], true);
                            j2 = j2 + 1;
                        }
                        store.set(node, next_label);
                    }
                }
            }
        }
        idx = idx + 1;
    }
    modified
}

/// Compute a clustering permutation by layered label propagation: after the
/// label passes converge (or `max_iters` passes), the permutation holds
/// every node exactly once, ordered by `(label, node)`, and the final label
/// of every node is returned alongside.
#[verifier::loop_isolation(false)]
pub fn layered_label_propagation(
    graph: &VecGraph,
    perm: &mut Vec<usize>,
    gamma_num: u64,
    gamma_den: u64,
    max_iters: usize,
    chunk_size: usize,
    granularity: usize,
    seed: u64,
) -> (r: Result<Vec<usize>, GraphError>)
    requires
        graph.wf(),
        gamma_num <= 0x1_0000_0000,
        1 <= gamma_den <= 0x1_0000_0000,
        chunk_size >= 1,
        granularity >= 1,
    ensures
        old(perm)@.len() != graph.rows().len() ==> r == Err::<Vec<usize>, GraphError>(
            GraphError::BadArgument,
        ) && final(perm)@ == old(perm)@,
        old(perm)@.len() == graph.rows().len() ==> (r matches Ok(labels) && {
            &&& final(perm)@.to_multiset() == ident_seq(graph.rows().len()).to_multiset()
            &&& final(perm)@.len() == graph.rows().len()
            &&& labels@.len() == graph.rows().len()
            &&& forall|i: int| 0 <= i < labels@.len() ==> (#[trigger] labels@[i]) < labels@.len()
            &&& (max_iters == 0 ==> labels@ == ident_seq(graph.rows().len()))
            &&& forall|v: int|
                0 <= v < graph.rows().len() && (#[trigger] graph.rows()[v]).len() == 0
                    ==> labels@[v] == v
            &&& forall|i: int, j: int|
                #![trigger final(perm)@[i], final(perm)@[j]]
                0 <= i < j < final(perm)@.len() ==> pair_le(
                    (labels@[final(perm)@[i] as int], final(perm)@[i]),
                    (labels@[final(perm)@[j] as int], final(perm)@[j]),
                )
        }),
{
    let n = graph.num_nodes();
    if perm.len() != n {
        return Err(GraphError::BadArgument);
    }
    // start from the identity permutation
    perm.clear();
    let mut i: usize = 0;
    while i < n
        invariant
            i <= n,
            perm@ =~= ident_seq(i as nat),
        decreases n - i,
    {
        perm.push(i);
        proof {
            assert(perm@ =~= ident_seq((i + 1) as nat));
        }
        i = i + 1;
    }
    let mut can_change: Vec<bool> = Vec::new();
    let mut i2: usize = 0;
    while i2 < n
        invariant
            i2 <= n,
            can_change@.len() == i2,
        decreases n - i2,
    {
        can_change.push(true);
        i2 = i2 + 1;
    }
    let mut store = LabelStore::new(n);
    let mut rng = new_rng(seed);
    let mut it: usize = 0;
    while it < max_iters
        invariant
            store.wf(),
            store.len() == n,
            can_change@.len() == n,
            n == graph.rows().len(),
            graph.wf(),
            perm@.len() == n,
            perm@.to_multiset() == ident_seq(n as nat).to_multiset(),
            max_iters == 0 ==> store.view_labels() == ident_seq(n as nat),
            forall|v: int|
                0 <= v < n && (#[trigger] graph.rows()[v]).len() == 0 ==> store.view_labels()[v]
                    == v,
        decreases max_iters - it,
    {
        // shuffle the processing order in chunks
        let mut pos: usize = 0;
        while pos < n
            invariant
                pos <= n,
                chunk_size >= 1,
                perm@.len() == n,
                perm@.to_multiset() == ident_seq(n as nat).to_multiset(),
            decreases n - pos,
        {
            let end: usize = if n - pos < chunk_size {
                n
            } else {
                pos + chunk_size
            };
            let ghost pre = perm@;
            shuffle_range(perm, pos, end, &mut rng);
            proof {
                lemma_shuffle_multiset(pre, perm@, pos as int, end as int);
            }
            pos = end;
        }
        // walk the granules, updating labels
        let mut modified: usize = 0;
        let mut pos2: usize = 0;
        while pos2 < n
            invariant
                pos2 <= n,
                granularity >= 1,
                store.wf(),
                store.len() == n,
                can_change@.len() == n,
                n == graph.rows().len(),
                graph.wf(),
                perm@.len() == n,
                perm@.to_multiset() == ident_seq(n as nat).to_multiset(),
                forall|v: int|
                    0 <= v < n && (#[trigger] graph.rows()[v]).len() == 0
                        ==> store.view_labels()[v] == v,
            decreases n - pos2,
        {
            let end: usize = if n - pos2 < granularity {
                n
            } else {
                pos2 + granularity
            };
            proof {
                lemma_perm_elements(perm@, n as nat);
            }
            let m = update_granule(
                graph,
                perm,
                pos2,
                end,
                &mut store,
                &mut can_change,
                &mut rng,
                gamma_num,
                gamma_den,
            );
            if modified <= usize::MAX - m {
                modified = modified + m;
            }
            pos2 = end;
        }
        if modified == 0 {
            break ;
        }
        it = it + 1;
    }
    // order the permutation by label, nodes of one label staying together
    let labels = store.into_labels();
    proof {
        lemma_perm_elements(perm@, n as nat);
    }
    sort_perm_by_label(perm, &labels);
    proof {
        broadcast use vstd::seq_lib::group_to_multiset_ensures;

        assert(ident_seq(n as nat).to_multiset().len() == ident_seq(n as nat).len());
    }
    Ok(labels)
}

impl LabelStore {
    /// Hand the final labels out.
    pub fn into_labels(self) -> (r: Vec<usize>)
        requires
            self.wf(),
        ensures
            r@ == self.view_labels(),
            r@.len() == self.len(),
            forall|i: int| 0 <= i < r@.len() ==> (#[trigger] r@[i]) < r@.len(),
    {
        self.labels
    }
}

} // verus!
