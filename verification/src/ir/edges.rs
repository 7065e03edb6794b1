//! Downstream edges: who uses a node's value.
//!
//! A node uses its inputs, once per occurrence, and a gate also uses its
//! condition where that is not among its inputs already. The edges are held
//! as a list per node (`downstreams`) or flattened (`downstream_csr_*`).

use vstd::prelude::*;

use crate::ir::graph::DataFlowGraph;
use crate::ir::types::NodeId;

verus! {

/// How often `p` occurs among the ids.
pub open spec fn occurrences(ids: Seq<NodeId>, p: int) -> nat
    decreases ids.len(),
{
    if ids.len() == 0 {
        0
    } else {
        occurrences(ids.drop_last(), p) + if ids.last().0 == p {
            1nat
        } else {
            0nat
        }
    }
}

/// The id of node `k`, `n` times.
pub open spec fn repeated(k: int, n: nat) -> Seq<NodeId> {
    Seq::new(n, |_i: int| NodeId(k as u32))
}

/// Whether the ids hold this one.
fn ids_contain(ids: &[NodeId], id: NodeId) -> (r: bool)
    ensures
        r == ids@.contains(id),
{
    let mut i: usize = 0;
    while i < ids.len()
        invariant
            i <= ids.len(),
            forall|k: int| 0 <= k < i ==> ids@[k] != id,
        decreases ids.len() - i,
    {
        if ids[i] == id {
            assert(ids@[i as int] == id);
            return true;
        }
        i = i + 1;
    }
    false
}

impl DataFlowGraph {
    /// Whether node `k` is a gate that uses `p` as a condition which is not
    /// among its inputs.
    pub open spec fn gate_edge(&self, p: int, k: int) -> bool {
        match self.meta@[k].gate_branches {
            None => false,
            Some(gb) => gb.condition_input.0 == p && !self.inputs_of(k).contains(
                gb.condition_input,
            ),
        }
    }

    /// Uses of `p` as an input by the first `n` nodes.
    pub open spec fn input_users(&self, p: int, n: int) -> Seq<NodeId>
        decreases n,
    {
        if n <= 0 {
            Seq::empty()
        } else {
            self.input_users(p, n - 1) + repeated(n - 1, occurrences(self.inputs_of(n - 1), p))
        }
    }

    /// Uses of `p` as a gate condition by the first `n` nodes.
    pub open spec fn gate_users(&self, p: int, n: int) -> Seq<NodeId>
        decreases n,
    {
        if n <= 0 {
            Seq::empty()
        } else {
            self.gate_users(p, n - 1) + repeated(
                n - 1,
                if self.gate_edge(p, n - 1) {
                    1
                } else {
                    0
                },
            )
        }
    }

    /// All uses of `p` by the first `n` nodes, node by node.
    pub open spec fn users(&self, p: int, n: int) -> Seq<NodeId>
        decreases n,
    {
        if n <= 0 {
            Seq::empty()
        } else {
            self.users(p, n - 1) + repeated(n - 1, occurrences(self.inputs_of(n - 1), p))
                + repeated(
                n - 1,
                if self.gate_edge(p, n - 1) {
                    1
                } else {
                    0
                },
            )
        }
    }

    /// Number of uses of the first `p` nodes.
    pub open spec fn users_total(&self, p: int) -> nat
        decreases p,
    {
        if p <= 0 {
            0
        } else {
            self.users_total(p - 1) + self.users(p - 1, self.nodes@.len() as int).len()
        }
    }

    /// Every gate condition is a node.
    pub open spec fn conditions_wf(&self) -> bool {
        forall|i: int| #![trigger self.meta@[i]]
            0 <= i < self.meta@.len() && self.meta@[i].gate_branches is Some
                ==> self.meta@[i].gate_branches->0.condition_input.0 < self.nodes@.len()
    }

    /// The downstream lists are those of the inputs and gate conditions.
    pub open spec fn downstreams_current(&self) -> bool {
        &&& self.downstreams@.len() == self.nodes@.len()
        &&& forall|p: int|
            0 <= p < self.nodes@.len() ==> (#[trigger] self.downstreams@[p])@ == self.input_users(
                p,
                self.nodes@.len() as int,
            ) + self.gate_users(p, self.nodes@.len() as int)
    }

    /// Computes the downstream list of every node: first the uses as an
    /// input, then those as a gate condition.
    pub fn compute_downstreams(&mut self)
        requires
            old(self).wf(),
            old(self).inputs_wf(),
            old(self).conditions_wf(),
        ensures
            final(self).downstreams_current(),
            *final(self) == (DataFlowGraph { downstreams: final(self).downstreams, ..*old(self) }),
    {
        let n = self.nodes.len();
        let mut ds: Vec<Vec<NodeId>> = Vec::new();
        let mut p: usize = 0;
        while p < n
            invariant
                p <= n,
                ds@.len() == p,
                forall|q: int| 0 <= q < p ==> (#[trigger] ds@[q])@ == Seq::<NodeId>::empty(),
            decreases n - p,
        {
            ds.push(Vec::new());
            p = p + 1;
        }
        let mut k: usize = 0;
        while k < n
            invariant
                k <= n == self.nodes@.len(),
                self.wf(),
                self.inputs_wf(),
                ds@.len() == n,
                forall|q: int|
                    0 <= q < n ==> (#[trigger] ds@[q])@ == self.input_users(q, k as int),
            decreases n - k,
        {
            let inputs = self.inputs(k);
            let ghost before = ds@;
            let mut j: usize = 0;
            assert forall|q: int| 0 <= q < n implies (#[trigger] ds@[q])@ == before[q]@ + repeated(
                k as int,
                occurrences(inputs@.take(0), q),
            ) by {
                assert(before[q]@ + repeated(k as int, 0) =~= before[q]@);
            }
            while j < inputs.len()
                invariant
                    k < n == self.nodes@.len() <= u32::MAX,
                    inputs@ == self.inputs_of(k as int),
                    self.inputs_wf(),
                    j <= inputs.len(),
                    ds@.len() == n == before.len(),
                    forall|q: int|
                        0 <= q < n ==> (#[trigger] ds@[q])@ == before[q]@ + repeated(
                            k as int,
                            occurrences(inputs@.take(j as int), q),
                        ),
                decreases inputs.len() - j,
            {
                let input = inputs[j];
                assert(self.inputs_of(k as int)[j as int].0 < self.nodes@.len());
                let ghost prev = ds@;
                ds[input.0 as usize].push(NodeId(k as u32));
                assert(inputs@.take(j + 1).drop_last() =~= inputs@.take(j as int));
                assert forall|q: int| 0 <= q < n implies (#[trigger] ds@[q])@ == before[q]@
                    + repeated(k as int, occurrences(inputs@.take(j + 1), q)) by {
                    assert(prev[q]@ == before[q]@ + repeated(
                        k as int,
                        occurrences(inputs@.take(j as int), q),
                    ));
                    assert(ds@[q]@ =~= before[q]@ + repeated(
                        k as int,
                        occurrences(inputs@.take(j + 1), q),
                    ));
                }
                j = j + 1;
            }
            assert(inputs@.take(inputs@.len() as int) =~= inputs@);
            assert forall|q: int| 0 <= q < n implies (#[trigger] ds@[q])@ == self.input_users(
                q,
                k + 1,
            ) by {
                assert(ds@[q]@ == before[q]@ + repeated(k as int, occurrences(inputs@, q)));
            }
            k = k + 1;
        }
        let mut g: usize = 0;
        assert forall|q: int| 0 <= q < n implies (#[trigger] ds@[q])@ == self.input_users(
            q,
            n as int,
        ) + self.gate_users(q, 0) by {
            assert(self.input_users(q, n as int) + self.gate_users(q, 0) =~= self.input_users(
                q,
                n as int,
            ));
        }
        while g < n
            invariant
                g <= n == self.nodes@.len(),
                self.wf(),
                self.conditions_wf(),
                ds@.len() == n,
                forall|q: int|
                    0 <= q < n ==> (#[trigger] ds@[q])@ == self.input_users(q, n as int)
                        + self.gate_users(q, g as int),
            decreases n - g,
        {
            let ghost prev = ds@;
            if let Some(gb) = &self.meta[g].gate_branches {
                let inputs = self.inputs(g);
                if !ids_contain(inputs, gb.condition_input) {
                    assert(self.meta@[g as int].gate_branches is Some);
                    ds[gb.condition_input.0 as usize].push(NodeId(g as u32));
                }
            }
            assert forall|q: int| 0 <= q < n implies (#[trigger] ds@[q])@ == self.input_users(
                q,
                n as int,
            ) + self.gate_users(q, g + 1) by {
                assert(prev[q]@ == self.input_users(q, n as int) + self.gate_users(q, g as int));
                assert(ds@[q]@ =~= self.input_users(q, n as int) + self.gate_users(q, g + 1));
            }
            g = g + 1;
        }
        let ghost was = *self;
        self.downstreams = ds;
        assert forall|q: int| 0 <= q < n implies (#[trigger] self.downstreams@[q])@
            == self.input_users(q, n as int) + self.gate_users(q, n as int) by {
            lemma_users_frame(&was, self, q, n as int);
        }
    }
}

proof fn lemma_users_frame(a: &DataFlowGraph, b: &DataFlowGraph, p: int, n: int)
    requires
        a.nodes@ == b.nodes@,
        a.meta@ == b.meta@,
        a.inputs_pool@ == b.inputs_pool@,
        n <= a.nodes@.len(),
    ensures
        a.input_users(p, n) == b.input_users(p, n),
        a.gate_users(p, n) == b.gate_users(p, n),
        a.users(p, n) == b.users(p, n),
    decreases n,
{
    if n > 0 {
        lemma_users_frame(a, b, p, n - 1);
        assert(a.inputs_of(n - 1) == b.inputs_of(n - 1));
        assert(a.gate_edge(p, n - 1) == b.gate_edge(p, n - 1));
    }
}

proof fn lemma_users_grow(g: &DataFlowGraph, p: int, m: int, n: int)
    requires
        0 <= m <= n,
    ensures
        g.users(p, m).len() <= g.users(p, n).len(),
    decreases n - m,
{
    if m < n {
        lemma_users_grow(g, p, m, n - 1);
    }
}

proof fn lemma_totals_grow(g: &DataFlowGraph, p: int, q: int)
    requires
        0 <= p <= q,
    ensures
        g.users_total(p) <= g.users_total(q),
    decreases q - p,
{
    if p < q {
        lemma_totals_grow(g, p, q - 1);
    }
}

proof fn lemma_users_fit(g: &DataFlowGraph, p: int, m: int)
    requires
        0 <= p < g.nodes@.len(),
        0 <= m <= g.nodes@.len(),
    ensures
        g.users(p, m).len() <= g.users_total(g.nodes@.len() as int),
        g.users_total(p) + g.users(p, m).len() <= g.users_total(p + 1),
        g.users_total(p + 1) <= g.users_total(g.nodes@.len() as int),
{
    lemma_users_grow(g, p, m, g.nodes@.len() as int);
    lemma_totals_grow(g, p + 1, g.nodes@.len() as int);
}

/// The uses of `p` after the first `j` inputs of node `k` are counted in.
spec fn users_mid(g: &DataFlowGraph, p: int, k: int, j: int) -> Seq<NodeId> {
    g.users(p, k) + repeated(k, occurrences(g.inputs_of(k).take(j), p))
}

proof fn lemma_occurrences_grow(ids: Seq<NodeId>, p: int, j: int)
    requires
        0 <= j <= ids.len(),
    ensures
        occurrences(ids.take(j), p) <= occurrences(ids, p),
    decreases ids.len() - j,
{
    if j == ids.len() {
        assert(ids.take(j) =~= ids);
    } else {
        lemma_occurrences_grow(ids, p, j + 1);
        assert(ids.take(j + 1).drop_last() =~= ids.take(j));
    }
}

proof fn lemma_mid_len(g: &DataFlowGraph, p: int, k: int, j: int)
    requires
        0 <= k < g.nodes@.len(),
        0 <= j <= g.inputs_of(k).len(),
    ensures
        users_mid(g, p, k, j).len() <= g.users(p, k + 1).len(),
{
    lemma_occurrences_grow(g.inputs_of(k), p, j);
}

impl DataFlowGraph {
    /// The flat table holds every node's uses, one slice after the other.
    pub open spec fn csr_current(&self) -> bool {
        let n = self.nodes@.len() as int;
        &&& self.downstream_csr_offsets@.len() == n + 1
        &&& self.downstream_csr_flat@.len() == self.users_total(n)
        &&& forall|p: int|
            0 <= p <= n ==> #[trigger] self.downstream_csr_offsets@[p] == self.users_total(p)
        &&& forall|p: int, t: int|
            0 <= p < n && 0 <= t < self.users(p, n).len()
                ==> self.downstream_csr_flat@[self.users_total(p) + t] == #[trigger] self.users(
                p,
                n,
            )[t]
    }

    /// Computes the flat downstream table.
    #[verifier::spinoff_prover]
    pub fn compute_downstream_csr(&mut self)
        requires
            old(self).wf(),
            old(self).inputs_wf(),
            old(self).conditions_wf(),
            old(self).users_total(old(self).nodes@.len() as int) <= u32::MAX,
        ensures
            final(self).csr_current(),
            *final(self) == (DataFlowGraph {
                downstream_csr_offsets: final(self).downstream_csr_offsets,
                downstream_csr_flat: final(self).downstream_csr_flat,
                ..*old(self)
            }),
    {
        let n = self.nodes.len();
        let degrees = self.downstream_degrees();
        let mut offsets: Vec<u32> = Vec::new();
        let mut acc: u32 = 0;
        offsets.push(0);
        let mut p: usize = 0;
        while p < n
            invariant
                n == self.nodes@.len(),
                self.users_total(n as int) <= u32::MAX,
                p <= n,
                degrees@.len() == n,
                forall|q: int|
                    0 <= q < n ==> #[trigger] degrees@[q] == self.users(q, n as int).len(),
                acc == self.users_total(p as int),
                offsets@.len() == p + 1,
                forall|q: int|
                    0 <= q <= p ==> #[trigger] offsets@[q] == self.users_total(q),
            decreases n - p,
        {
            proof {
                lemma_users_fit(self, p as int, n as int);
            }
            acc = acc + degrees[p];
            offsets.push(acc);
            p = p + 1;
        }
        let mut flat: Vec<NodeId> = Vec::new();
        let mut z: u32 = 0;
        while z < acc
            invariant
                z <= acc,
                flat@.len() == z,
            decreases acc - z,
        {
            flat.push(NodeId(0));
            z = z + 1;
        }
        self.scatter_users(&offsets, &mut flat);
        let ghost was = *self;
        self.downstream_csr_offsets = offsets;
        self.downstream_csr_flat = flat;
        proof {
            assert forall|q: int| 0 <= q < n implies was.users(q, n as int) == #[trigger] self.users(
                q,
                n as int,
            ) by {
                lemma_users_frame(&was, self, q, n as int);
            }
            assert forall|q: int| 0 <= q <= n implies was.users_total(q)
                == #[trigger] self.users_total(q) by {
                lemma_totals_frame(&was, self, q);
            }
            assert forall|p: int, t: int| 0 <= p < n && 0 <= t < self.users(p, n as int).len() implies
                self.downstream_csr_flat@[self.users_total(p) + t] == #[trigger] self.users(
                p,
                n as int,
            )[t] by {
                assert(was.users(p, n as int)[t] == flat@[was.users_total(p) + t]);
            }
        }
    }

    /// Number of uses of each node.
    fn downstream_degrees(&self) -> (degrees: Vec<u32>)
        requires
            self.wf(),
            self.inputs_wf(),
            self.conditions_wf(),
            self.users_total(self.nodes@.len() as int) <= u32::MAX,
        ensures
            degrees@.len() == self.nodes@.len(),
            forall|q: int|
                0 <= q < self.nodes@.len() ==> #[trigger] degrees@[q] == self.users(
                    q,
                    self.nodes@.len() as int,
                ).len(),
    {
        let n = self.nodes.len();
        let mut degrees: Vec<u32> = Vec::new();
        let mut p: usize = 0;
        while p < n
            invariant
                p <= n,
                degrees@.len() == p,
                forall|q: int| 0 <= q < p ==> #[trigger] degrees@[q] == 0,
            decreases n - p,
        {
            degrees.push(0);
            p = p + 1;
        }
        let mut k: usize = 0;
        while k < n
            invariant
                k <= n == self.nodes@.len(),
                self.wf(),
                self.inputs_wf(),
                self.conditions_wf(),
                self.users_total(n as int) <= u32::MAX,
                degrees@.len() == n,
                forall|q: int|
                    0 <= q < n ==> #[trigger] degrees@[q] == self.users(q, k as int).len(),
            decreases n - k,
        {
            let inputs = self.inputs(k);
            let mut j: usize = 0;
            assert forall|q: int| 0 <= q < n implies #[trigger] degrees@[q] == users_mid(
                self,
                q,
                k as int,
                0,
            ).len() by {
                assert(inputs@.take(0).len() == 0);
            }
            while j < inputs.len()
                invariant
                    k < n == self.nodes@.len() <= u32::MAX,
                    inputs@ == self.inputs_of(k as int),
                    self.inputs_wf(),
                    self.users_total(n as int) <= u32::MAX,
                    j <= inputs.len(),
                    degrees@.len() == n,
                    forall|q: int|
                        0 <= q < n ==> #[trigger] degrees@[q] == users_mid(
                            self,
                            q,
                            k as int,
                            j as int,
                        ).len(),
                decreases inputs.len() - j,
            {
                let p = inputs[j].0 as usize;
                assert(self.inputs_of(k as int)[j as int].0 < self.nodes@.len());
                assert(inputs@.take(j + 1).drop_last() =~= inputs@.take(j as int));
                proof {
                    lemma_mid_len(self, p as int, k as int, j + 1);
                    lemma_users_fit(self, p as int, k + 1);
                }
                assert(users_mid(self, p as int, k as int, j + 1).len() == users_mid(
                    self,
                    p as int,
                    k as int,
                    j as int,
                ).len() + 1);
                degrees.set(p, degrees[p] + 1);
                assert forall|q: int| 0 <= q < n implies #[trigger] degrees@[q] == users_mid(
                    self,
                    q,
                    k as int,
                    j + 1,
                ).len() by {
                    assert(users_mid(self, q, k as int, j + 1).len() == self.users(
                        q,
                        k as int,
                    ).len() + occurrences(inputs@.take(j + 1), q));
                }
                j = j + 1;
            }
            assert(inputs@.take(inputs@.len() as int) =~= inputs@);
            if let Some(gb) = &self.meta[k].gate_branches {
                if !ids_contain(inputs, gb.condition_input) {
                    assert(self.meta@[k as int].gate_branches is Some);
                    let p = gb.condition_input.0 as usize;
                    proof {
                        lemma_users_fit(self, p as int, k + 1);
                    }
                    degrees.set(p, degrees[p] + 1);
                }
            }
            assert forall|q: int| 0 <= q < n implies #[trigger] degrees@[q] == self.users(
                q,
                k + 1,
            ).len() by {
                assert(users_mid(self, q, k as int, inputs@.len() as int).len() == self.users(
                    q,
                    k as int,
                ).len() + occurrences(inputs@, q));
            }
            k = k + 1;
        }
        degrees
    }

    /// Writes every use to its place in the flat table.
    #[verifier::rlimit(40)]
    fn scatter_users(&self, offsets: &Vec<u32>, flat: &mut Vec<NodeId>)
        requires
            self.wf(),
            self.inputs_wf(),
            self.conditions_wf(),
            self.users_total(self.nodes@.len() as int) <= u32::MAX,
            offsets@.len() == self.nodes@.len() + 1,
            forall|q: int|
                0 <= q <= self.nodes@.len() ==> #[trigger] offsets@[q] == self.users_total(q),
            old(flat)@.len() == self.users_total(self.nodes@.len() as int),
        ensures
            final(flat)@.len() == old(flat)@.len(),
            forall|q: int, t: int|
                0 <= q < self.nodes@.len() && 0 <= t < self.users(q, self.nodes@.len() as int).len()
                    ==> final(flat)@[self.users_total(q) + t] == #[trigger] self.users(
                    q,
                    self.nodes@.len() as int,
                )[t],
    {
        let n = self.nodes.len();
        let mut cursor: Vec<u32> = Vec::new();
        let mut p: usize = 0;
        while p < n
            invariant
                p <= n,
                n == self.nodes@.len(),
                offsets@.len() == n + 1,
                forall|q: int| 0 <= q <= n ==> #[trigger] offsets@[q] == self.users_total(q),
                cursor@.len() == p,
                forall|q: int| 0 <= q < p ==> #[trigger] cursor@[q] == self.users_total(q),
            decreases n - p,
        {
            cursor.push(offsets[p]);
            p = p + 1;
        }
        let mut k: usize = 0;
        while k < n
            invariant
                k <= n == self.nodes@.len(),
                self.wf(),
                self.inputs_wf(),
                self.conditions_wf(),
                self.users_total(n as int) <= u32::MAX,
                cursor@.len() == n,
                flat@.len() == old(flat)@.len() == self.users_total(n as int),
                forall|q: int|
                    0 <= q < n ==> #[trigger] cursor@[q] == self.users_total(q) + self.users(
                        q,
                        k as int,
                    ).len(),
                forall|q: int, t: int|
                    0 <= q < n && 0 <= t < self.users(q, k as int).len()
                        ==> flat@[self.users_total(q) + t] == #[trigger] self.users(
                        q,
                        k as int,
                    )[t],
            decreases n - k,
        {
            let inputs = self.inputs(k);
            let mut j: usize = 0;
            assert forall|q: int| 0 <= q < n implies users_mid(self, q, k as int, 0)
                == #[trigger] self.users(q, k as int) by {
                assert(inputs@.take(0).len() == 0);
                assert(users_mid(self, q, k as int, 0) =~= self.users(q, k as int));
            }
            while j < inputs.len()
                invariant
                    k < n == self.nodes@.len() <= u32::MAX,
                    inputs@ == self.inputs_of(k as int),
                    self.inputs_wf(),
                    self.users_total(n as int) <= u32::MAX,
                    j <= inputs.len(),
                    cursor@.len() == n,
                    flat@.len() == old(flat)@.len() == self.users_total(n as int),
                    forall|q: int|
                        0 <= q < n ==> #[trigger] cursor@[q] == self.users_total(q) + users_mid(
                            self,
                            q,
                            k as int,
                            j as int,
                        ).len(),
                    forall|q: int, t: int|
                        0 <= q < n && 0 <= t < users_mid(self, q, k as int, j as int).len()
                            ==> flat@[self.users_total(q) + t] == #[trigger] users_mid(
                            self,
                            q,
                            k as int,
                            j as int,
                        )[t],
                decreases inputs.len() - j,
            {
                let p = inputs[j].0 as usize;
                assert(self.inputs_of(k as int)[j as int].0 < self.nodes@.len());
                let ghost before = flat@;
                assert(inputs@.take(j + 1).drop_last() =~= inputs@.take(j as int));
                proof {
                    lemma_mid_len(self, p as int, k as int, j + 1);
                    lemma_users_fit(self, p as int, k + 1);
                }
                assert(users_mid(self, p as int, k as int, j + 1) =~= users_mid(
                    self,
                    p as int,
                    k as int,
                    j as int,
                ).push(NodeId(k as u32)));
                let at = cursor[p];
                flat.set(at as usize, NodeId(k as u32));
                cursor.set(p, at + 1);
                assert forall|q: int, t: int|
                    0 <= q < n && 0 <= t < users_mid(self, q, k as int, j + 1).len() implies flat@[
                    self.users_total(q) + t] == #[trigger] users_mid(self, q, k as int, j + 1)[t] by {
                    lemma_mid_len(self, q, k as int, j + 1);
                    lemma_users_fit(self, q, k + 1);
                    if q == p {
                        if t < users_mid(self, q, k as int, j as int).len() {
                            assert(before[self.users_total(q) + t] == users_mid(
                                self,
                                q,
                                k as int,
                                j as int,
                            )[t]);
                        }
                    } else {
                        assert(users_mid(self, q, k as int, j + 1) =~= users_mid(
                            self,
                            q,
                            k as int,
                            j as int,
                        ));
                        if q < p {
                            lemma_totals_grow(self, q + 1, p as int);
                        } else {
                            lemma_totals_grow(self, p + 1, q);
                        }
                        assert(before[self.users_total(q) + t] == users_mid(
                            self,
                            q,
                            k as int,
                            j as int,
                        )[t]);
                    }
                }
                assert forall|q: int| 0 <= q < n && q != p implies users_mid(
                    self,
                    q,
                    k as int,
                    j + 1,
                ).len() == #[trigger] users_mid(self, q, k as int, j as int).len() by {
                }
                j = j + 1;
            }
            assert(inputs@.take(inputs@.len() as int) =~= inputs@);
            let ghost before = flat@;
            let ghost done = inputs@.len() as int;
            let mut hit: Option<usize> = None;
            if let Some(gb) = &self.meta[k].gate_branches {
                if !ids_contain(inputs, gb.condition_input) {
                    assert(self.meta@[k as int].gate_branches is Some);
                    hit = Some(gb.condition_input.0 as usize);
                }
            }
            assert forall|q: int| 0 <= q < n implies self.users(q, k + 1) == #[trigger] users_mid(
                self,
                q,
                k as int,
                done,
            ) + repeated(
                k as int,
                if hit == Some(q as usize) {
                    1
                } else {
                    0
                },
            ) by {
                assert(self.gate_edge(q, k as int) == (hit == Some(q as usize)));
            }
            if let Some(p) = hit {
                proof {
                    lemma_users_fit(self, p as int, k + 1);
                }
                assert(self.users(p as int, k + 1).len() == users_mid(
                    self,
                    p as int,
                    k as int,
                    done,
                ).len() + 1);
                let at = cursor[p];
                flat.set(at as usize, NodeId(k as u32));
                cursor.set(p, at + 1);
            }
            assert forall|q: int, t: int| 0 <= q < n && 0 <= t < self.users(q, k + 1).len() implies flat@[
            self.users_total(q) + t] == #[trigger] self.users(q, k + 1)[t] by {
                lemma_users_fit(self, q, k + 1);
                let mid = users_mid(self, q, k as int, done);
                if t < mid.len() {
                    assert(before[self.users_total(q) + t] == mid[t]);
                    if let Some(p) = hit {
                        lemma_users_fit(self, p as int, k + 1);
                        if q < p {
                            lemma_totals_grow(self, q + 1, p as int);
                        } else if p < q {
                            lemma_totals_grow(self, p + 1, q);
                        }
                    }
                }
            }
            k = k + 1;
        }
    }
}

proof fn lemma_totals_frame(a: &DataFlowGraph, b: &DataFlowGraph, p: int)
    requires
        a.nodes@ == b.nodes@,
        a.meta@ == b.meta@,
        a.inputs_pool@ == b.inputs_pool@,
    ensures
        a.users_total(p) == b.users_total(p),
    decreases p,
{
    if p > 0 {
        lemma_totals_frame(a, b, p - 1);
        lemma_users_frame(a, b, p - 1, a.nodes@.len() as int);
    }
}

/// The list form and the flat form hold the same uses of a node, each as
/// often.
pub proof fn law_flat_table_has_the_same_edges(g: &DataFlowGraph, p: int, n: int)
    ensures
        g.users(p, n).to_multiset() == (g.input_users(p, n) + g.gate_users(p, n)).to_multiset(),
    decreases n,
{
    if n > 0 {
        law_flat_table_has_the_same_edges(g, p, n - 1);
        let a = g.input_users(p, n - 1);
        let b = g.gate_users(p, n - 1);
        let u = g.users(p, n - 1);
        let x = repeated(n - 1, occurrences(g.inputs_of(n - 1), p));
        let y = repeated(
            n - 1,
            if g.gate_edge(p, n - 1) {
                1
            } else {
                0
            },
        );
        vstd::seq_lib::lemma_multiset_commutative(u + x, y);
        vstd::seq_lib::lemma_multiset_commutative(u, x);
        vstd::seq_lib::lemma_multiset_commutative(a + x, b + y);
        vstd::seq_lib::lemma_multiset_commutative(a, x);
        vstd::seq_lib::lemma_multiset_commutative(b, y);
        vstd::seq_lib::lemma_multiset_commutative(a, b);
        assert(g.users(p, n).to_multiset() =~= (g.input_users(p, n) + g.gate_users(
            p,
            n,
        )).to_multiset());
    } else {
        assert(g.users(p, n) =~= g.input_users(p, n) + g.gate_users(p, n));
    }
}

proof fn lemma_occurs(ids: Seq<NodeId>, p: int)
    ensures
        occurrences(ids, p) > 0 <==> exists|j: int| 0 <= j < ids.len() && (#[trigger] ids[j]).0 == p,
    decreases ids.len(),
{
    if ids.len() > 0 {
        let r = ids.drop_last();
        lemma_occurs(r, p);
        if ids.last().0 == p {
            assert(ids[ids.len() - 1].0 == p);
        }
        if occurrences(r, p) > 0 {
            let j = choose|j: int| 0 <= j < r.len() && (#[trigger] r[j]).0 == p;
            assert(ids[j].0 == p);
        }
        if exists|j: int| 0 <= j < ids.len() && (#[trigger] ids[j]).0 == p {
            let j = choose|j: int| 0 <= j < ids.len() && (#[trigger] ids[j]).0 == p;
            if j < r.len() {
                assert(r[j].0 == p);
            }
        }
    }
}

proof fn lemma_users_are_those(g: &DataFlowGraph, p: int, n: int, k: u32)
    requires
        n <= u32::MAX,
    ensures
        g.input_users(p, n).contains(NodeId(k)) <==> k < n && occurrences(g.inputs_of(k as int), p) > 0,
        g.gate_users(p, n).contains(NodeId(k)) <==> k < n && g.gate_edge(p, k as int),
    decreases n,
{
    if n > 0 {
        lemma_users_are_those(g, p, n - 1, k);
        let a = repeated(n - 1, occurrences(g.inputs_of(n - 1), p));
        let b = repeated(
            n - 1,
            if g.gate_edge(p, n - 1) {
                1
            } else {
                0
            },
        );
        crate::ir::sg_refs::lemma_either_part_holds(g.input_users(p, n - 1), a, NodeId(k));
        crate::ir::sg_refs::lemma_either_part_holds(g.gate_users(p, n - 1), b, NodeId(k));
        if k == n - 1 {
            if a.len() > 0 {
                assert(a[0] == NodeId(k));
            }
            if b.len() > 0 {
                assert(b[0] == NodeId(k));
            }
        }
    }
}

/// A node's downstream list names exactly the nodes that take it as an input or
/// as the condition of their gate.
pub proof fn law_downstreams_are_the_users(g: &DataFlowGraph, p: int, k: u32)
    requires
        g.downstreams_current(),
        g.nodes@.len() <= u32::MAX,
        0 <= p < g.nodes@.len(),
        k < g.nodes@.len(),
    ensures
        g.downstreams@[p]@.contains(NodeId(k)) <==> {
            ||| exists|j: int| 0 <= j < g.inputs_of(k as int).len() && (#[trigger] g.inputs_of(k as int)[j]).0 == p
            ||| g.meta@[k as int].gate_branches is Some && g.meta@[k as int].gate_branches->0.condition_input.0 == p
        },
{
    let n = g.nodes@.len() as int;
    assert(g.downstreams@[p]@ == g.input_users(p, n) + g.gate_users(p, n));
    crate::ir::sg_refs::lemma_either_part_holds(g.input_users(p, n), g.gate_users(p, n), NodeId(k));
    lemma_users_are_those(g, p, n, k);
    let ids = g.inputs_of(k as int);
    lemma_occurs(ids, p);
    if g.meta@[k as int].gate_branches is Some && g.meta@[k as int].gate_branches->0.condition_input.0 == p {
        let c = g.meta@[k as int].gate_branches->0.condition_input;
        if ids.contains(c) {
            let j = choose|j: int| 0 <= j < ids.len() && ids[j] == c;
            assert(ids[j].0 == p);
        }
    }
}

} // verus!
