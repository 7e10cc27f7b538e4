//! Laws of the lowering: the lowered batched matrix multiply computes, cell
//! for cell, the value of the generic contraction it replaced.
use vstd::prelude::*;
use crate::axes::{m_index, n_index, AxisV};
use crate::driver::{direct_ok, k_apos, k_bpos, lower_op};
use crate::graph::{map_positions_wf, EinView};
use crate::matmul::{
    a_k_pos, a_m_pos, b_k_pos, b_n_pos, mm_a_coord, mm_b_coord, mm_batch_coord, mm_output_shape,
    mm_sum, mm_value,
};
use crate::shape::in_range;
use crate::tensor::Tensor;

verus! {

/// Position of the left-free axis in operand 0.
pub open spec fn m_apos(s: Seq<AxisV>) -> int {
    s[m_index(s)].a[0] as int
}

/// Position of the left-free axis in the output.
pub open spec fn m_opos(s: Seq<AxisV>) -> int {
    s[m_index(s)].o[0] as int
}

/// Position of the right-free axis in operand 1.
pub open spec fn n_bpos(s: Seq<AxisV>) -> int {
    s[n_index(s)].b[0] as int
}

/// Position of the right-free axis in the output.
pub open spec fn n_opos(s: Seq<AxisV>) -> int {
    s[n_index(s)].o[0] as int
}

/// Operand 0 coordinate of one contraction term, as the axis mapping of a
/// rank-2 contraction places it: the left-free value where the left-free
/// axis occurs, the summation value at the contracted position.
pub open spec fn einsum_a_coord(s: Seq<AxisV>, c: Seq<int>, kv: int) -> Seq<int> {
    Seq::new(
        2,
        |q: int|
            if q == m_apos(s) {
                c[m_opos(s)]
            } else {
                kv
            },
    )
}

/// Operand 1 coordinate of one contraction term.
pub open spec fn einsum_b_coord(s: Seq<AxisV>, c: Seq<int>, kv: int) -> Seq<int> {
    Seq::new(
        2,
        |q: int|
            if q == n_bpos(s) {
                c[n_opos(s)]
            } else {
                kv
            },
    )
}

/// The first `k` terms of the contraction sum at output coordinate `c`.
pub open spec fn einsum_sum(s: Seq<AxisV>, a: Tensor, b: Tensor, c: Seq<int>, k: nat) -> int
    decreases k,
{
    if k == 0 {
        0
    } else {
        einsum_sum(s, a, b, c, (k - 1) as nat) + a.at(einsum_a_coord(s, c, k - 1)) * b.at(
            einsum_b_coord(s, c, k - 1),
        )
    }
}

/// Reference semantics of a rank-2 generic contraction with all three roles
/// classified: the sum over the contracted extent of the products of the
/// elements each named axis selects.
pub open spec fn einsum_value(s: Seq<AxisV>, a: Tensor, b: Tensor, c: Seq<int>) -> int {
    einsum_sum(s, a, b, c, a.shape@[k_apos(s)] as nat)
}

/// Output shape of the contraction: the left-free extent at the left-free
/// axis's output position, the right-free extent at the other.
pub open spec fn einsum_out_shape(s: Seq<AxisV>, sa: Seq<usize>, sb: Seq<usize>) -> Seq<usize> {
    Seq::new(
        2,
        |p: int|
            if p == m_opos(s) {
                sa[m_apos(s)]
            } else {
                sb[n_bpos(s)]
            },
    )
}

/// Round-trip equivalence of the lowering, for a contraction over rank-2
/// operands: the batched matrix multiply the classifier produces has the
/// contraction's output shape, and computes, at every output coordinate,
/// exactly the contraction's value.
pub proof fn lemma_round_trip(v: EinView, a: Tensor, b: Tensor, c: Seq<int>)
    requires
        direct_ok(v),
        map_positions_wf(v.s, v.ra, v.rb, v.rc),
        v.ra == 2,
        a.shape@.len() == 2,
        b.shape@.len() == 2,
        a.shape@[k_apos(v.s)] == b.shape@[k_bpos(v.s)],
        in_range(
            mm_output_shape(
                lower_op(v).transpose_a,
                lower_op(v).transpose_b,
                lower_op(v).transpose_c,
                a.shape@,
                b.shape@,
            ),
            c,
        ),
    ensures
        mm_output_shape(
            lower_op(v).transpose_a,
            lower_op(v).transpose_b,
            lower_op(v).transpose_c,
            a.shape@,
            b.shape@,
        ) == einsum_out_shape(v.s, a.shape@, b.shape@),
        mm_value(
            lower_op(v).transpose_a,
            lower_op(v).transpose_b,
            lower_op(v).transpose_c,
            a,
            b,
            c,
        ) == einsum_value(v.s, a, b, c),
{
    let s = v.s;
    let ta = lower_op(v).transpose_a;
    let tb = lower_op(v).transpose_b;
    let tc = lower_op(v).transpose_c;
    let am = m_apos(s);
    let ak = k_apos(s);
    let bk = k_bpos(s);
    let bn = n_bpos(s);
    let cm = m_opos(s);
    let cn = n_opos(s);
    assert(0 <= am < 2 && 0 <= ak < 2 && 0 <= bk < 2 && 0 <= bn < 2 && 0 <= cm < 2 && 0 <= cn
        < 2);
    assert(am != ak && bk != bn && cm != cn);
    assert(ak == a_k_pos(ta, 2));
    assert(am == a_m_pos(ta, 2));
    assert(bk == b_k_pos(tb, 2));
    assert(bn == b_n_pos(tb, 2));
    assert(mm_output_shape(ta, tb, tc, a.shape@, b.shape@) =~= einsum_out_shape(
        s,
        a.shape@,
        b.shape@,
    ));
    let i = if tc { c[1] } else { c[0] };
    let j = if tc { c[0] } else { c[1] };
    assert(i == c[cm]);
    assert(j == c[cn]);
    lemma_sums_agree(v, a, b, c, a.shape@[ak] as nat);
}

/// The partial sums of the lowered product and of the contraction agree,
/// term for term: each term selects the same two elements.
proof fn lemma_sums_agree(v: EinView, a: Tensor, b: Tensor, c: Seq<int>, k: nat)
    requires
        direct_ok(v),
        map_positions_wf(v.s, v.ra, v.rb, v.rc),
        v.ra == 2,
        a.shape@.len() == 2,
        b.shape@.len() == 2,
        c.len() == 2,
    ensures
        mm_sum(
            lower_op(v).transpose_a,
            lower_op(v).transpose_b,
            a,
            b,
            c,
            if lower_op(v).transpose_c {
                c[1]
            } else {
                c[0]
            },
            if lower_op(v).transpose_c {
                c[0]
            } else {
                c[1]
            },
            k,
        ) == einsum_sum(v.s, a, b, c, k),
    decreases k,
{
    let s = v.s;
    let ta = lower_op(v).transpose_a;
    let tb = lower_op(v).transpose_b;
    let tc = lower_op(v).transpose_c;
    let i = if tc { c[1] } else { c[0] };
    let j = if tc { c[0] } else { c[1] };
    if k > 0 {
        lemma_sums_agree(v, a, b, c, (k - 1) as nat);
        let kv = k - 1;
        assert(i == c[m_opos(s)]);
        assert(j == c[n_opos(s)]);
        assert(mm_batch_coord(a.shape@, c) =~= Seq::<int>::empty());
        assert(mm_batch_coord(b.shape@, c) =~= Seq::<int>::empty());
        assert(mm_a_coord(ta, a.shape@, c, i, kv) =~= einsum_a_coord(s, c, kv));
        assert(mm_b_coord(tb, b.shape@, c, j, kv) =~= einsum_b_coord(s, c, kv));
    }
}

} // verus!
