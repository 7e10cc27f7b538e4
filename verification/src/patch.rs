//! Atomic, deferred graph edits: substituting one node's operator in
//! place, or growing a contraction by a synthetic unit axis through
//! adapter nodes inserted before the node.
use vstd::prelude::*;
use crate::einsum::EinSumOp;
use crate::graph::{ein_view, facts_view, map_positions_wf, node_wf, EinView, FactsV, Graph, Node, Operator};
use crate::tensor::TensorFact;

verus! {

/// An unapplied, self-contained graph edit.
pub enum Patch {
    /// Substitute the operator of one node; identity, inputs and output
    /// references are preserved, so consumers observe the new operator.
    Replace { node: usize, op: Operator },
    /// Insert an extent-1 axis into one operand of a contraction (and into
    /// its output where no output-only axis absorbs it), rewiring through
    /// an axis-insertion adapter, a replacement contraction, and an
    /// axis-removal adapter, so observed shapes are unchanged.
    Inject {
        node: usize,
        fix_input: usize,
        input_pos: usize,
        output_pos: Option<usize>,
        new_op: EinSumOp,
    },
}

/// New index of the node formerly at `i` after `nn` nodes entered at `t`.
pub open spec fn remap_idx(i: int, t: int, nn: int) -> int {
    if i < t {
        i
    } else {
        i + nn
    }
}

impl Patch {
    /// How many nodes applying this patch adds.
    pub open spec fn added(self) -> int {
        match self {
            Patch::Replace { .. } => 0,
            Patch::Inject { output_pos, .. } => if output_pos is Some {
                2
            } else {
                1
            },
        }
    }

    /// The patch can be applied to the graph.
    pub open spec fn valid_for(self, g: Graph) -> bool {
        match self {
            Patch::Replace { node, op } => {
                &&& node < g.nodes@.len()
                &&& op.arity() == g.nodes@[node as int].inputs@.len()
                &&& !(op is EinSum)
            },
            Patch::Inject { node, fix_input, input_pos, output_pos, new_op } => {
                let v = ein_view(g.nodes@, node as int);
                &&& node < g.nodes@.len()
                &&& g.nodes@[node as int].op is EinSum
                &&& fix_input < 2
                &&& new_op.spec_input_count() == g.nodes@[node as int].op.arity()
                &&& new_op.axes.wf()
                &&& input_pos <= (if fix_input == 0 {
                    v.ra
                } else {
                    v.rb
                })
                &&& (output_pos matches Some(po) ==> po <= v.rc)
                &&& map_positions_wf(
                    new_op.axes@,
                    v.ra + if fix_input == 0 { 1int } else { 0 },
                    v.rb + if fix_input == 1 { 1int } else { 0 },
                    v.rc + if output_pos is Some { 1int } else { 0 },
                )
            },
        }
    }
}

/// The relation between a graph and its state after an injection patch at
/// node `t` with `nn` added nodes: the prefix is untouched, an adapter
/// stands at `t`, the replacement contraction at `t + 1`, the axis-removal
/// adapter (if the output grew) at `t + 2`, and every later node keeps its
/// operator and fact with its input edges renumbered.
pub open spec fn inject_result(
    olds: Seq<Node>,
    news: Seq<Node>,
    t: int,
    fix: int,
    ipos: usize,
    opos: Option<usize>,
    new_op: EinSumOp,
    nn: int,
) -> bool {
    let src = olds[t].inputs@[fix] as int;
    &&& nn == (if opos is Some { 2int } else { 1 })
    &&& news.len() == olds.len() + nn
    &&& forall|j: int| 0 <= j < t ==> news[j] == olds[j]
    // the axis-insertion adapter
    &&& news[t].op == Operator::AxisInsert(ipos)
    &&& news[t].inputs@.len() == 1
    &&& news[t].inputs@[0] as int == src
    &&& news[t].fact.datum_type == olds[src].fact.datum_type
    &&& news[t].fact.shape@ == olds[src].fact.shape@.insert(ipos as int, 1usize)
    // the replacement contraction
    &&& news[t + 1].op == Operator::EinSum(new_op)
    &&& news[t + 1].inputs@.len() == olds[t].inputs@.len()
    &&& news[t + 1].inputs@[fix] as int == t
    &&& forall|x: int|
        0 <= x < news[t + 1].inputs@.len() && x != fix ==> news[t + 1].inputs@[x]
            == olds[t].inputs@[x]
    &&& news[t + 1].fact.datum_type == olds[t].fact.datum_type
    &&& news[t + 1].fact.shape@ == (match opos {
        Some(po) => olds[t].fact.shape@.insert(po as int, 1usize),
        None => olds[t].fact.shape@,
    })
    // the axis-removal adapter, where the output grew
    &&& (opos matches Some(po) ==> {
        &&& news[t + 2].op == Operator::AxisRemove(po)
        &&& news[t + 2].inputs@.len() == 1
        &&& news[t + 2].inputs@[0] as int == t + 1
        &&& news[t + 2].fact.datum_type == olds[t].fact.datum_type
        &&& news[t + 2].fact.shape@ == olds[t].fact.shape@
    })
    // the renumbered suffix
    &&& forall|d: int|
        0 <= d < olds.len() - t - 1 ==> {
            &&& (#[trigger] news[t + nn + 1 + d]).op == olds[t + 1 + d].op
            &&& news[t + nn + 1 + d].fact == olds[t + 1 + d].fact
            &&& news[t + nn + 1 + d].name == olds[t + 1 + d].name
            &&& news[t + nn + 1 + d].inputs@.len() == olds[t + 1 + d].inputs@.len()
            &&& forall|x: int|
                0 <= x < news[t + nn + 1 + d].inputs@.len() ==> (#[trigger] news[t + nn + 1
                    + d].inputs@[x]) as int == remap_idx(olds[t + 1 + d].inputs@[x] as int, t, nn)
        }
}

impl Patch {
    /// Apply the edit to the graph. The only way topology changes; it is
    /// all-or-nothing, and a traversal holding node indices stays valid
    /// for replace patches while insertion patches renumber later nodes.
    #[verifier::rlimit(80)]
    pub fn apply(self, model: &mut Graph)
        requires
            old(model).wf(),
            self.valid_for(*old(model)),
        ensures
            final(model).wf(),
            final(model).nodes@.len() == old(model).nodes@.len() + self.added(),
            self matches Patch::Replace { node, op } ==> {
                &&& forall|j: int|
                    0 <= j < old(model).nodes@.len() && j != node ==> final(model).nodes@[j] == old(
                        model,
                    ).nodes@[j]
                &&& final(model).nodes@[node as int].op == op
                &&& final(model).nodes@[node as int].inputs@ == old(model).nodes@[node as int].inputs@
                &&& final(model).nodes@[node as int].fact == old(model).nodes@[node as int].fact
                &&& final(model).nodes@[node as int].name == old(model).nodes@[node as int].name
                &&& forall|j: int|
                    0 <= j < old(model).nodes@.len() && j != node && (#[trigger] old(
                        model,
                    ).nodes@[j].op) is EinSum ==> ein_view(final(model).nodes@, j) == ein_view(
                        old(model).nodes@,
                        j,
                    ) && facts_view(final(model).nodes@, j) == facts_view(old(model).nodes@, j)
            },
            self matches Patch::Inject { node, fix_input, input_pos, output_pos, new_op }
                ==> inject_result(
                old(model).nodes@,
                final(model).nodes@,
                node as int,
                fix_input as int,
                input_pos,
                output_pos,
                new_op,
                if output_pos is Some { 2int } else { 1 },
            ),
            self matches Patch::Inject { node, fix_input, input_pos, output_pos, new_op } ==> ({
                let t = node as int;
                let nn = if output_pos is Some { 2int } else { 1 };
                let olds = old(model).nodes@;
                let news = final(model).nodes@;
                &&& forall|j: int|
                    0 <= j < t && (#[trigger] olds[j].op) is EinSum ==> ein_view(news, j)
                        == ein_view(olds, j) && facts_view(news, j) == facts_view(olds, j)
                &&& forall|d: int|
                    0 <= d < olds.len() - t - 1 && (#[trigger] olds[t + 1 + d].op) is EinSum
                        ==> ein_view(news, t + nn + 1 + d) == ein_view(olds, t + 1 + d)
                            && facts_view(news, t + nn + 1 + d) == facts_view(olds, t + 1 + d)
                &&& facts_view(news, t + 1) == (FactsV {
                    sa: if fix_input == 0 {
                        facts_view(olds, t).sa.insert(input_pos as int, 1usize)
                    } else {
                        facts_view(olds, t).sa
                    },
                    sb: if fix_input == 1 {
                        facts_view(olds, t).sb.insert(input_pos as int, 1usize)
                    } else {
                        facts_view(olds, t).sb
                    },
                    sc: match output_pos {
                        Some(po) => facts_view(olds, t).sc.insert(po as int, 1usize),
                        None => facts_view(olds, t).sc,
                    },
                    da: facts_view(olds, t).da,
                    dc: facts_view(olds, t).dc,
                })
                &&& ein_view(news, t + 1) == (EinView {
                    s: new_op.axes@,
                    ra: ein_view(olds, t).ra + if fix_input == 0 { 1int } else { 0 },
                    rb: ein_view(olds, t).rb + if fix_input == 1 { 1int } else { 0 },
                    rc: ein_view(olds, t).rc + if output_pos is Some { 1int } else { 0 },
                })
            }),
    {
        match self {
            Patch::Replace { node, op } => {
                model.nodes[node].op = op;
                proof {
                    let olds = old(model).nodes@;
                    let news = model.nodes@;
                    assert forall|n: int| 0 <= n < news.len() implies #[trigger] node_wf(news, n) by {
                        assert(node_wf(olds, n));
                        if n == node {
                        } else {
                            assert(news[n] == olds[n]);
                            if news[n].op is EinSum {
                                assert(news[n].inputs@[0] < n);
                                assert(news[n].inputs@[1] < n);
                                assert(olds[news[n].inputs@[0] as int].fact == news[news[n].inputs@[0] as int].fact);
                                assert(olds[news[n].inputs@[1] as int].fact == news[news[n].inputs@[1] as int].fact);
                                assert(ein_view(news, n) == ein_view(olds, n));
                            }
                        }
                    }
                    assert forall|j: int|
                        0 <= j < olds.len() && j != node && (#[trigger] olds[j].op) is EinSum implies ein_view(
                        news,
                        j,
                    ) == ein_view(olds, j) && facts_view(news, j) == facts_view(olds, j) by {
                        assert(node_wf(olds, j));
                        assert(news[j] == olds[j]);
                        assert(olds[news[j].inputs@[0] as int].fact == news[news[j].inputs@[0] as int].fact);
                        assert(olds[news[j].inputs@[1] as int].fact == news[news[j].inputs@[1] as int].fact);
                    }
                }
            },
            Patch::Inject { node: t, fix_input, input_pos, output_pos, new_op } => {
                let ghost olds = old(model).nodes@;
                proof {
                    assert(node_wf(olds, t as int));
                    assert(olds[t as int].inputs@.len() >= 2);
                    assert(olds[t as int].inputs@[fix_input as int] < t);
                }
                let src = model.nodes[t].inputs[fix_input];
                let src_dt = model.nodes[src].fact.datum_type;
                let mut ashape = copy_usizes(&model.nodes[src].fact.shape);
                ashape.insert(input_pos, 1);
                let mut a_inputs: Vec<usize> = Vec::new();
                a_inputs.push(src);
                let adapter = Node {
                    name: "axis_adapter".to_owned(),
                    op: Operator::AxisInsert(input_pos),
                    inputs: a_inputs,
                    fact: TensorFact { datum_type: src_dt, shape: ashape },
                };
                model.nodes.insert(t, adapter);
                let len_after_first = model.nodes.len();
                proof {
                    assert(len_after_first == olds.len() + 1);
                }
                model.nodes[t + 1].op = Operator::EinSum(new_op);
                model.nodes[t + 1].inputs[fix_input] = t;
                let mut nn: usize = 1;
                match output_pos {
                    None => {},
                    Some(po) => {
                        nn = 2;
                        let dt = model.nodes[t + 1].fact.datum_type;
                        let orig_shape = copy_usizes(&model.nodes[t + 1].fact.shape);
                        let mut eshape = copy_usizes(&orig_shape);
                        eshape.insert(po, 1);
                        model.nodes[t + 1].fact = TensorFact { datum_type: dt, shape: eshape };
                        let mut r_inputs: Vec<usize> = Vec::new();
                        r_inputs.push(t + 1);
                        let rm = Node {
                            name: "axis_restore".to_owned(),
                            op: Operator::AxisRemove(po),
                            inputs: r_inputs,
                            fact: TensorFact { datum_type: dt, shape: orig_shape },
                        };
                        model.nodes.insert(t + 2, rm);
                        let len_after_second = model.nodes.len();
                        proof {
                            assert(len_after_second == olds.len() + 2);
                        }
                    },
                }
                // renumber the input edges of every node behind the patch
                let mut j = t + nn + 1;
                while j < model.nodes.len()
                    invariant
                        old(model).wf(),
                        self.valid_for(*old(model)),
                        self == (Patch::Inject { node: t, fix_input, input_pos, output_pos, new_op }),
                        olds == old(model).nodes@,
                        nn as int == self.added(),
                        t + nn <= j <= model.nodes@.len(),
                        model.nodes@.len() == olds.len() + nn,
                        forall|l: int| 0 <= l < t ==> model.nodes@[l] == olds[l],
                        model.nodes@[t as int].op == Operator::AxisInsert(input_pos),
                        model.nodes@[t as int].inputs@.len() == 1,
                        model.nodes@[t as int].inputs@[0] == olds[t as int].inputs@[fix_input as int],
                        model.nodes@[t as int].fact.datum_type == olds[olds[t as int].inputs@[fix_input as int] as int].fact.datum_type,
                        model.nodes@[t as int].fact.shape@ == olds[olds[t as int].inputs@[fix_input as int] as int].fact.shape@.insert(input_pos as int, 1usize),
                        model.nodes@[t + 1].op == Operator::EinSum(new_op),
                        model.nodes@[t + 1].inputs@.len() == olds[t as int].inputs@.len(),
                        model.nodes@[t + 1].inputs@[fix_input as int] as int == t,
                        forall|x: int|
                            0 <= x < model.nodes@[t + 1].inputs@.len() && x != fix_input ==> model.nodes@[t
                                + 1].inputs@[x] == olds[t as int].inputs@[x],
                        model.nodes@[t + 1].fact.datum_type == olds[t as int].fact.datum_type,
                        model.nodes@[t + 1].fact.shape@ == (match output_pos {
                            Some(po) => olds[t as int].fact.shape@.insert(po as int, 1usize),
                            None => olds[t as int].fact.shape@,
                        }),
                        (output_pos matches Some(po) ==> {
                            &&& model.nodes@[t + 2].op == Operator::AxisRemove(po)
                            &&& model.nodes@[t + 2].inputs@.len() == 1
                            &&& model.nodes@[t + 2].inputs@[0] as int == t + 1
                            &&& model.nodes@[t + 2].fact.datum_type == olds[t as int].fact.datum_type
                            &&& model.nodes@[t + 2].fact.shape@ == olds[t as int].fact.shape@
                        }),
                        forall|l: int|
                            t + nn + 1 <= l < model.nodes@.len() ==> {
                                &&& (#[trigger] model.nodes@[l]).op == olds[l - nn].op
                                &&& model.nodes@[l].fact == olds[l - nn].fact
                                &&& model.nodes@[l].name == olds[l - nn].name
                                &&& model.nodes@[l].inputs@.len() == olds[l - nn].inputs@.len()
                            },
                        forall|l: int, x: int|
                            t + nn + 1 <= l < j && 0 <= x < model.nodes@[l].inputs@.len() ==> (
                            #[trigger] model.nodes@[l].inputs@[x]) as int == remap_idx(
                                olds[l - nn].inputs@[x] as int,
                                t as int,
                                nn as int,
                            ),
                        forall|l: int, x: int|
                            j <= l < model.nodes@.len() && 0 <= x < model.nodes@[l].inputs@.len()
                                ==> (#[trigger] model.nodes@[l].inputs@[x]) == olds[l
                                - nn].inputs@[x],
                    decreases model.nodes@.len() - j,
                {
                    proof {
                        assert(node_wf(olds, j - nn));
                        assert forall|x: int| 0 <= x < model.nodes@[j as int].inputs@.len() implies (
                        #[trigger] model.nodes@[j as int].inputs@[x]) as int + nn as int
                            <= usize::MAX as int by {
                            assert(model.nodes@[j as int].inputs@[x] == olds[j - nn].inputs@[x]);
                            assert(olds[j - nn].inputs@[x] < j - nn);
                        }
                    }
                    remap_inputs(&mut model.nodes[j].inputs, t, nn);
                    j += 1;
                }
                proof {
                    let news = model.nodes@;
                    let ti = t as int;
                    let nni = nn as int;
                    assert(inject_result(olds, news, ti, fix_input as int, input_pos, output_pos, new_op, nni));
                    lemma_inject_wf(olds, news, ti, fix_input as int, input_pos, output_pos, new_op);
                    assert forall|j: int|
                        0 <= j < ti && (#[trigger] olds[j].op) is EinSum implies ein_view(news, j)
                        == ein_view(olds, j) && facts_view(news, j) == facts_view(olds, j) by {
                        assert(node_wf(olds, j));
                        assert(news[j] == olds[j]);
                        assert(olds[j].inputs@[0] < j);
                        assert(olds[j].inputs@[1] < j);
                        assert(news[olds[j].inputs@[0] as int] == olds[olds[j].inputs@[0] as int]);
                        assert(news[olds[j].inputs@[1] as int] == olds[olds[j].inputs@[1] as int]);
                    }
                    assert forall|d: int|
                        0 <= d < olds.len() - ti - 1 && (#[trigger] olds[ti + 1 + d].op) is EinSum implies ein_view(
                        news,
                        ti + nni + 1 + d,
                    ) == ein_view(olds, ti + 1 + d) && facts_view(news, ti + nni + 1 + d)
                        == facts_view(olds, ti + 1 + d) by {
                        let jo = ti + 1 + d;
                        let jn = ti + nni + 1 + d;
                        assert(node_wf(olds, jo));
                        assert((news[ti + nni + 1 + d]).op == olds[ti + 1 + d].op);
                        let i0 = olds[jo].inputs@[0] as int;
                        let i1 = olds[jo].inputs@[1] as int;
                        assert(news[jn].inputs@[0] as int == remap_idx(i0, ti, nni));
                        assert(news[jn].inputs@[1] as int == remap_idx(i1, ti, nni));
                        lemma_remap_fact_len(olds, news, ti, fix_input as int, input_pos, output_pos, new_op, nni, i0);
                        lemma_remap_fact_len(olds, news, ti, fix_input as int, input_pos, output_pos, new_op, nni, i1);
                    }
                    assert(node_wf(olds, ti));
                    assert({
                        let fo = facts_view(olds, ti);
                        let fn_ = facts_view(news, ti + 1);
                        &&& fn_.sa == (if fix_input == 0 {
                            fo.sa.insert(input_pos as int, 1usize)
                        } else {
                            fo.sa
                        })
                        &&& fn_.sb == (if fix_input == 1 {
                            fo.sb.insert(input_pos as int, 1usize)
                        } else {
                            fo.sb
                        })
                        &&& fn_.sc == (match output_pos {
                            Some(po) => fo.sc.insert(po as int, 1usize),
                            None => fo.sc,
                        })
                        &&& fn_.da == fo.da
                        &&& fn_.dc == fo.dc
                    }) by {
                        if fix_input == 0 {
                            assert(news[ti + 1].inputs@[0] as int == ti);
                            assert(news[ti + 1].inputs@[1] == olds[ti].inputs@[1]);
                            assert(news[olds[ti].inputs@[1] as int] == olds[olds[ti].inputs@[1] as int]);
                        } else {
                            assert(news[ti + 1].inputs@[1] as int == ti);
                            assert(news[ti + 1].inputs@[0] == olds[ti].inputs@[0]);
                            assert(news[olds[ti].inputs@[0] as int] == olds[olds[ti].inputs@[0] as int]);
                        }
                    }
                    assert({
                        let vo = ein_view(olds, ti);
                        let vn = ein_view(news, ti + 1);
                        &&& vn.s == new_op.axes@
                        &&& vn.ra == vo.ra + if fix_input == 0 { 1int } else { 0 }
                        &&& vn.rb == vo.rb + if fix_input == 1 { 1int } else { 0 }
                        &&& vn.rc == vo.rc + if output_pos is Some { 1int } else { 0 }
                    }) by {
                        let vo = ein_view(olds, ti);
                        if fix_input == 0 {
                            assert(news[ti + 1].inputs@[0] as int == ti);
                            assert(news[ti].fact.shape@.len() == olds[olds[ti].inputs@[0] as int].fact.shape@.len() + 1);
                            assert(news[ti + 1].inputs@[1] == olds[ti].inputs@[1]);
                            assert(news[olds[ti].inputs@[1] as int] == olds[olds[ti].inputs@[1] as int]);
                        } else {
                            assert(news[ti + 1].inputs@[1] as int == ti);
                            assert(news[ti].fact.shape@.len() == olds[olds[ti].inputs@[1] as int].fact.shape@.len() + 1);
                            assert(news[ti + 1].inputs@[0] == olds[ti].inputs@[0]);
                            assert(news[olds[ti].inputs@[0] as int] == olds[olds[ti].inputs@[0] as int]);
                        }
                    }
                }
            },
        }
    }
}

/// Renumber input edges after `nn` nodes entered at index `t`.
fn remap_inputs(v: &mut Vec<usize>, t: usize, nn: usize)
    requires
        forall|x: int|
            0 <= x < old(v)@.len() ==> (#[trigger] old(v)@[x]) as int + nn as int <= usize::MAX
                as int,
    ensures
        final(v)@.len() == old(v)@.len(),
        forall|x: int|
            0 <= x < old(v)@.len() ==> (#[trigger] final(v)@[x]) as int == remap_idx(
                old(v)@[x] as int,
                t as int,
                nn as int,
            ),
{
    let mut x: usize = 0;
    while x < v.len()
        invariant
            v@.len() == old(v)@.len(),
            x <= v@.len(),
            forall|y: int|
                0 <= y < old(v)@.len() ==> (#[trigger] old(v)@[y]) as int + nn as int <= usize::MAX
                    as int,
            forall|y: int|
                0 <= y < x ==> (#[trigger] v@[y]) as int == remap_idx(
                    old(v)@[y] as int,
                    t as int,
                    nn as int,
                ),
            forall|y: int| x <= y < v@.len() ==> (#[trigger] v@[y]) == old(v)@[y],
        decreases v@.len() - x,
    {
        let val = v[x];
        if val >= t {
            v[x] = val + nn;
        }
        x += 1;
    }
}

/// A copy of a vector of extents.
fn copy_usizes(v: &Vec<usize>) -> (r: Vec<usize>)
    ensures
        r@ == v@,
{
    let mut r: Vec<usize> = Vec::new();
    let mut i: usize = 0;
    while i < v.len()
        invariant
            i <= v@.len(),
            r@ == v@.take(i as int),
        decreases v@.len() - i,
    {
        proof {
            assert(v@.take(i as int + 1) =~= v@.take(i as int).push(v@[i as int]));
        }
        r.push(v[i]);
        i += 1;
    }
    proof {
        assert(v@.take(v@.len() as int) =~= v@);
    }
    r
}

/// A node referenced from behind an injection patch keeps the shape and
/// datum type of its fact at its renumbered index.
pub proof fn lemma_remap_fact_len(
    olds: Seq<Node>,
    news: Seq<Node>,
    t: int,
    fix: int,
    ipos: usize,
    opos: Option<usize>,
    new_op: EinSumOp,
    nn: int,
    i: int,
)
    requires
        inject_result(olds, news, t, fix, ipos, opos, new_op, nn),
        0 <= t < olds.len(),
        0 <= i < olds.len(),
    ensures
        news[remap_idx(i, t, nn)].fact.shape@ == olds[i].fact.shape@,
        news[remap_idx(i, t, nn)].fact.datum_type == olds[i].fact.datum_type,
{
    if i < t {
        assert(news[i] == olds[i]);
    } else if i == t {
        assert(remap_idx(i, t, nn) == t + nn);
        if opos is Some {
        } else {
            assert(news[t + 1].fact.shape@ == olds[t].fact.shape@);
        }
    } else {
        let d = i - t - 1;
        assert(0 <= d < olds.len() - t - 1);
        assert((news[t + nn + 1 + d]).op == olds[t + 1 + d].op);
        assert(news[t + nn + 1 + d].fact == olds[t + 1 + d].fact);
    }
}

/// A graph standing in the injection relation to a well-formed one is well
/// formed.
pub proof fn lemma_inject_wf(
    olds: Seq<Node>,
    news: Seq<Node>,
    t: int,
    fix: int,
    ipos: usize,
    opos: Option<usize>,
    new_op: EinSumOp,
)
    requires
        forall|n: int| 0 <= n < olds.len() ==> #[trigger] node_wf(olds, n),
        0 <= t < olds.len(),
        0 <= fix < 2,
        olds[t].op is EinSum,
        new_op.spec_input_count() == olds[t].op.arity(),
        new_op.axes.wf(),
        ipos as int <= (if fix == 0 {
            ein_view(olds, t).ra
        } else {
            ein_view(olds, t).rb
        }),
        (opos matches Some(po) ==> po as int <= ein_view(olds, t).rc),
        map_positions_wf(
            new_op.axes@,
            ein_view(olds, t).ra + if fix == 0 { 1int } else { 0 },
            ein_view(olds, t).rb + if fix == 1 { 1int } else { 0 },
            ein_view(olds, t).rc + if opos is Some { 1int } else { 0 },
        ),
        inject_result(olds, news, t, fix, ipos, opos, new_op, if opos is Some { 2int } else { 1 }),
    ensures
        forall|n: int| 0 <= n < news.len() ==> #[trigger] node_wf(news, n),
{
    let nn = if opos is Some { 2int } else { 1 };
    assert(node_wf(olds, t));
    assert(olds[t].inputs@.len() >= 2);
    let src = olds[t].inputs@[fix] as int;
    assert(src < t);
    assert(olds[src].fact.shape@.insert(ipos as int, 1usize).len() == olds[src].fact.shape@.len()
        + 1);
    assert forall|n: int| 0 <= n < news.len() implies #[trigger] node_wf(news, n) by {
        if n < t {
            assert(node_wf(olds, n));
            crate::graph::lemma_node_wf_prefix(olds, news, n);
        } else if n == t {
            // the adapter: one input, pointing before the patch
            assert(news[n].inputs@[0] < n);
        } else if n == t + 1 {
            // the replacement contraction
            assert(news[n].inputs@[fix] as int == t);
            assert forall|x: int| 0 <= x < news[n].inputs@.len() implies (#[trigger] news[n].inputs@[x]) < n by {
                if x != fix {
                    assert(news[n].inputs@[x] == olds[t].inputs@[x]);
                    assert(olds[t].inputs@[x] < t);
                }
            }
            let v_new = ein_view(news, n);
            let v_old = ein_view(olds, t);
            if fix == 0 {
                assert(news[n].inputs@[0] as int == t);
                assert(v_new.ra == news[t].fact.shape@.len() as int);
                assert(news[t].fact.shape@.len() == olds[src].fact.shape@.len() + 1);
                assert(news[n].inputs@[1] == olds[t].inputs@[1]);
                assert(news[olds[t].inputs@[1] as int].fact == olds[olds[t].inputs@[1] as int].fact);
                assert(v_new.rb == v_old.rb);
            } else {
                assert(news[n].inputs@[1] as int == t);
                assert(news[n].inputs@[0] == olds[t].inputs@[0]);
                assert(news[olds[t].inputs@[0] as int].fact == olds[olds[t].inputs@[0] as int].fact);
                assert(v_new.ra == v_old.ra);
                assert(news[t].fact.shape@.len() == olds[src].fact.shape@.len() + 1);
            }
            assert(map_positions_wf(v_new.s, v_new.ra, v_new.rb, v_new.rc));
        } else if opos is Some && n == t + 2 {
            assert(news[n].inputs@[0] as int == t + 1);
        } else {
            // a renumbered suffix node
            let jo = n - nn;
            let d = n - t - nn - 1;
            assert(0 <= d < olds.len() - t - 1);
            assert((news[t + nn + 1 + d]).op == olds[t + 1 + d].op);
            assert(node_wf(olds, jo));
            assert(news[n].op == olds[jo].op);
            assert(news[n].inputs@.len() == olds[jo].inputs@.len());
            assert forall|x: int| 0 <= x < news[n].inputs@.len() implies (#[trigger] news[n].inputs@[x]) < n by {
                assert(news[n].inputs@[x] as int == remap_idx(olds[jo].inputs@[x] as int, t, nn));
                assert(olds[jo].inputs@[x] < jo);
            }
            if news[n].op is EinSum {
                let i0 = olds[jo].inputs@[0] as int;
                let i1 = olds[jo].inputs@[1] as int;
                assert(news[n].inputs@[0] as int == remap_idx(i0, t, nn));
                assert(news[n].inputs@[1] as int == remap_idx(i1, t, nn));
                lemma_remap_fact_len(olds, news, t, fix, ipos, opos, new_op, nn, i0);
                lemma_remap_fact_len(olds, news, t, fix, ipos, opos, new_op, nn, i1);
                assert(ein_view(news, n).s == ein_view(olds, jo).s);
                assert(ein_view(news, n).ra == ein_view(olds, jo).ra);
                assert(ein_view(news, n).rb == ein_view(olds, jo).rb);
                assert(ein_view(news, n).rc == ein_view(olds, jo).rc);
            }
        }
    }
}

} // verus!
