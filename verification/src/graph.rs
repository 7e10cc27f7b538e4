//! The dataflow graph: an arena of nodes addressed by stable integer
//! indices, each node holding an operator, input edges into earlier nodes,
//! and the tensor fact of its single output slot.
use vstd::prelude::*;
use crate::axes::{AxesMapping, AxisV};
use crate::einsum::EinSumOp;
use crate::matmul::BasicMatMul;
use crate::tensor::{DatumType, TensorFact};

verus! {

/// The closed set of operators this pass meets: inputs, the generic
/// contraction, its lowering target, and the two axis adapters.
#[derive(Clone, Debug)]
pub enum Operator {
    /// A graph input carrying a declared fact.
    Source,
    /// A generic contraction.
    EinSum(EinSumOp),
    /// A lowered batched matrix multiply.
    MatMul(BasicMatMul),
    /// Insert an extent-1 axis at the given position.
    AxisInsert(usize),
    /// Remove the extent-1 axis at the given position.
    AxisRemove(usize),
}

impl Operator {
    /// Number of inputs a node with this operator owns.
    pub open spec fn arity(self) -> int {
        match self {
            Operator::Source => 0,
            Operator::EinSum(e) => e.spec_input_count(),
            Operator::MatMul(_) => 2,
            Operator::AxisInsert(_) => 1,
            Operator::AxisRemove(_) => 1,
        }
    }

    pub open spec fn is_einsum(self) -> bool {
        self is EinSum
    }

    /// A contraction this pass is asked to lower: one without quantization
    /// parameters, which are preserved untouched.
    pub open spec fn is_plain_einsum(self) -> bool {
        self is EinSum && self->EinSum_0.q_params is None
    }
}

/// One graph node.
#[derive(Clone, Debug)]
pub struct Node {
    pub name: String,
    pub op: Operator,
    pub inputs: Vec<usize>,
    pub fact: TensorFact,
}

/// Every recorded occurrence position lies inside the rank of its tensor.
pub open spec fn map_positions_wf(s: Seq<AxisV>, ra: int, rb: int, rc: int) -> bool {
    &&& forall|i: int, x: int|
        0 <= i < s.len() && 0 <= x < s[i].a.len() ==> (#[trigger] s[i].a[x]) < ra
    &&& forall|i: int, x: int|
        0 <= i < s.len() && 0 <= x < s[i].b.len() ==> (#[trigger] s[i].b[x]) < rb
    &&& forall|i: int, x: int|
        0 <= i < s.len() && 0 <= x < s[i].o.len() ==> (#[trigger] s[i].o[x]) < rc
}

/// The contraction of an einsum node as the classifier sees it: the axis
/// mapping and the ranks of the two operands and the output.
pub ghost struct EinView {
    pub s: Seq<AxisV>,
    pub ra: int,
    pub rb: int,
    pub rc: int,
}

/// The view of the einsum node at index `n`.
pub open spec fn ein_view(nodes: Seq<Node>, n: int) -> EinView {
    EinView {
        s: nodes[n].op->EinSum_0.axes@,
        ra: nodes[nodes[n].inputs@[0] as int].fact.shape@.len() as int,
        rb: nodes[nodes[n].inputs@[1] as int].fact.shape@.len() as int,
        rc: nodes[n].fact.shape@.len() as int,
    }
}

/// The facts of a contraction as the lowering meets them: the shapes of
/// the two operand facts and of the node's preserved output fact, and the
/// datum types of operand 0 and of the output.
pub ghost struct FactsV {
    pub sa: Seq<usize>,
    pub sb: Seq<usize>,
    pub sc: Seq<usize>,
    pub da: DatumType,
    pub dc: DatumType,
}

/// The facts around the einsum node at index `n`.
pub open spec fn facts_view(nodes: Seq<Node>, n: int) -> FactsV {
    FactsV {
        sa: nodes[nodes[n].inputs@[0] as int].fact.shape@,
        sb: nodes[nodes[n].inputs@[1] as int].fact.shape@,
        sc: nodes[n].fact.shape@,
        da: nodes[nodes[n].inputs@[0] as int].fact.datum_type,
        dc: nodes[n].fact.datum_type,
    }
}

/// Well-formedness of the node at index `n`: input edges point at earlier
/// nodes, the input count matches the operator, and an einsum's mapping
/// records positions inside the ranks of the facts it meets.
pub open spec fn node_wf(nodes: Seq<Node>, n: int) -> bool {
    let node = nodes[n];
    &&& node.inputs@.len() == node.op.arity()
    &&& forall|x: int| 0 <= x < node.inputs@.len() ==> (#[trigger] node.inputs@[x]) < n
    &&& (node.op is EinSum ==> {
        let v = ein_view(nodes, n);
        &&& node.op->EinSum_0.axes.wf()
        &&& map_positions_wf(v.s, v.ra, v.rb, v.rc)
    })
}

/// The graph: nodes in an order every edge respects, so that the node
/// order itself is an evaluation (topological) order.
#[derive(Clone, Debug)]
pub struct Graph {
    pub nodes: Vec<Node>,
}

impl Graph {
    pub open spec fn wf(&self) -> bool {
        forall|n: int| 0 <= n < self.nodes@.len() ==> #[trigger] node_wf(self.nodes@, n)
    }

    /// Append a source node carrying a declared fact.
    pub fn add_source(&mut self, name: String, fact: TensorFact) -> (r: usize)
        requires
            old(self).wf(),
        ensures
            final(self).wf(),
            r == old(self).nodes@.len(),
            final(self).nodes@.len() == old(self).nodes@.len() + 1,
            final(self).nodes@[r as int].op == Operator::Source,
            final(self).nodes@[r as int].fact == fact,
            final(self).nodes@[r as int].inputs@.len() == 0,
            forall|j: int| 0 <= j < r ==> final(self).nodes@[j] == old(self).nodes@[j],
    {
        let r = self.nodes.len();
        let node = Node { name, op: Operator::Source, inputs: Vec::new(), fact };
        let ghost old_nodes = self.nodes@;
        self.nodes.push(node);
        proof {
            lemma_push_preserves_node_wf(old_nodes, self.nodes@);
            assert(node_wf(self.nodes@, old_nodes.len() as int));
        }
        r
    }

    /// The evaluation order of the graph: by construction, node order.
    pub fn eval_order(&self) -> (r: Vec<usize>)
        ensures
            r@.len() == self.nodes@.len(),
            forall|i: int| 0 <= i < r@.len() ==> #[trigger] r@[i] == i,
    {
        let mut r: Vec<usize> = Vec::new();
        let mut i: usize = 0;
        while i < self.nodes.len()
            invariant
                i <= self.nodes@.len(),
                r@.len() == i,
                forall|l: int| 0 <= l < i ==> #[trigger] r@[l] == l,
            decreases self.nodes@.len() - i,
        {
            r.push(i);
            i += 1;
        }
        r
    }
}

/// Well-formedness of an existing node survives appending nodes: it reads
/// only the node itself and nodes before it.
pub proof fn lemma_node_wf_prefix(s1: Seq<Node>, s2: Seq<Node>, n: int)
    requires
        0 <= n < s1.len(),
        n < s2.len(),
        s1[n] == s2[n],
        forall|j: int| 0 <= j < n ==> s1[j].fact == s2[j].fact,
        node_wf(s1, n),
    ensures
        node_wf(s2, n),
{
    let node = s1[n];
    if node.op is EinSum {
        assert(node.inputs@[0] < n);
        assert(node.inputs@[1] < n);
        assert(ein_view(s2, n).s == ein_view(s1, n).s);
        assert(ein_view(s2, n).ra == ein_view(s1, n).ra);
        assert(ein_view(s2, n).rb == ein_view(s1, n).rb);
        assert(ein_view(s2, n).rc == ein_view(s1, n).rc);
    }
}

/// Every node of a well-formed prefix stays well formed after a push.
pub proof fn lemma_push_preserves_node_wf(s1: Seq<Node>, s2: Seq<Node>)
    requires
        s2.len() == s1.len() + 1,
        forall|j: int| 0 <= j < s1.len() ==> s1[j] == s2[j],
        forall|n: int| 0 <= n < s1.len() ==> #[trigger] node_wf(s1, n),
    ensures
        forall|n: int| 0 <= n < s1.len() ==> #[trigger] node_wf(s2, n),
{
    assert forall|n: int| 0 <= n < s1.len() implies #[trigger] node_wf(s2, n) by {
        lemma_node_wf_prefix(s1, s2, n);
    }
}

} // verus!
