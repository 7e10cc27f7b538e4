//! The lowering target: a batched dense matrix-multiply operator over the
//! two trailing dimensions, with per-operand and output transpose flags and
//! one-directional size-1 broadcasting over the leading (batch) dimensions.
use vstd::prelude::*;
use crate::CoreError;
use crate::shape::{
    product, ints, in_range, coords_of, flatten_coords, unflatten_index, lemma_flat_index_bounds,
    lemma_flat_roundtrip,
};
use crate::tensor::{DatumType, Tensor, TensorFact, elems_bounded, ELEM_BOUND};

verus! {

/// Magnitude bound of one product of two bounded elements.
pub const TERM_BOUND: i64 = 0x100_0000_0000;

/// Position of the left-free (M) dimension in operand 0.
pub open spec fn a_m_pos(ta: bool, r: int) -> int {
    if ta { r - 1 } else { r - 2 }
}

/// Position of the contracted (K) dimension in operand 0.
pub open spec fn a_k_pos(ta: bool, r: int) -> int {
    if ta { r - 2 } else { r - 1 }
}

/// Position of the contracted (K) dimension in operand 1.
pub open spec fn b_k_pos(tb: bool, r: int) -> int {
    if tb { r - 1 } else { r - 2 }
}

/// Position of the right-free (N) dimension in operand 1.
pub open spec fn b_n_pos(tb: bool, r: int) -> int {
    if tb { r - 2 } else { r - 1 }
}

/// The inferred output shape: broadcast batch extents, then the two free
/// dimensions, in the order asked by the output-transpose flag.
pub open spec fn mm_output_shape(
    ta: bool,
    tb: bool,
    tc: bool,
    a: Seq<usize>,
    b: Seq<usize>,
) -> Seq<usize> {
    let r = a.len() as int;
    let batch = Seq::new((r - 2) as nat, |d: int| if a[d] == 1 { b[d] } else { a[d] });
    let m = a[a_m_pos(ta, r)];
    let n = b[b_n_pos(tb, r)];
    if tc {
        batch.push(n).push(m)
    } else {
        batch.push(m).push(n)
    }
}

/// Static shape admissibility: equal ranks of at least 2 and an exactly
/// matching contracted extent.
pub open spec fn mm_facts_ok(ta: bool, tb: bool, sa: Seq<usize>, sb: Seq<usize>) -> bool {
    &&& sa.len() == sb.len()
    &&& sa.len() >= 2
    &&& sa[a_k_pos(ta, sa.len() as int)] == sb[b_k_pos(tb, sb.len() as int)]
}

/// Runtime batch compatibility: where extents differ, the smaller is 1 and
/// only operand 0 broadcasts towards operand 1 or the reverse as the
/// one-directional rule admits.
pub open spec fn mm_batch_compat(sa: Seq<usize>, sb: Seq<usize>) -> bool {
    forall|d: int|
        0 <= d < sa.len() - 2 ==> (#[trigger] sb[d] == 1 || sa[d] == 1 || sa[d] == sb[d])
}

/// The batch part of an operand coordinate, clamped where the operand
/// broadcasts with extent 1.
pub open spec fn mm_batch_coord(shape: Seq<usize>, c: Seq<int>) -> Seq<int> {
    Seq::new((shape.len() - 2) as nat, |d: int| if shape[d] == 1 { 0 } else { c[d] })
}

/// Operand 0 coordinate of the term (i, kv) of an output cell.
pub open spec fn mm_a_coord(ta: bool, sa: Seq<usize>, c: Seq<int>, i: int, kv: int) -> Seq<int> {
    if ta {
        mm_batch_coord(sa, c).push(kv).push(i)
    } else {
        mm_batch_coord(sa, c).push(i).push(kv)
    }
}

/// Operand 1 coordinate of the term (kv, j) of an output cell.
pub open spec fn mm_b_coord(tb: bool, sb: Seq<usize>, c: Seq<int>, j: int, kv: int) -> Seq<int> {
    if tb {
        mm_batch_coord(sb, c).push(j).push(kv)
    } else {
        mm_batch_coord(sb, c).push(kv).push(j)
    }
}

/// Partial dot product of the first `k` contracted terms of an output cell.
pub open spec fn mm_sum(
    ta: bool,
    tb: bool,
    a: Tensor,
    b: Tensor,
    c: Seq<int>,
    i: int,
    j: int,
    k: nat,
) -> int
    decreases k,
{
    if k == 0 {
        0
    } else {
        mm_sum(ta, tb, a, b, c, i, j, (k - 1) as nat) + a.at(
            mm_a_coord(ta, a.shape@, c, i, k - 1),
        ) * b.at(mm_b_coord(tb, b.shape@, c, j, k - 1))
    }
}

/// The value of the output cell at coordinate `c`: the dot product of the
/// selected row of operand 0 and column of operand 1.
pub open spec fn mm_value(
    ta: bool,
    tb: bool,
    tc: bool,
    a: Tensor,
    b: Tensor,
    c: Seq<int>,
) -> int {
    let r = a.shape@.len() as int;
    let i = if tc { c[r - 1] } else { c[r - 2] };
    let j = if tc { c[r - 2] } else { c[r - 1] };
    mm_sum(ta, tb, a, b, c, i, j, a.shape@[a_k_pos(ta, r)] as nat)
}

/// Inputs that shape inference or runtime shape checking rejects.
pub open spec fn mm_malformed(ta: bool, tb: bool, a: Tensor, b: Tensor) -> bool {
    ||| !mm_facts_ok(ta, tb, a.shape@, b.shape@)
    ||| a.datum_type != b.datum_type
    ||| !mm_batch_compat(a.shape@, b.shape@)
}

/// Inputs beyond what the machine arithmetic of evaluation covers.
pub open spec fn mm_out_of_range(ta: bool, tb: bool, tc: bool, a: Tensor, b: Tensor) -> bool {
    ||| !elems_bounded(a.data@)
    ||| !elems_bounded(b.data@)
    ||| a.shape@[a_k_pos(ta, a.shape@.len() as int)] > ELEM_BOUND
    ||| product(mm_output_shape(ta, tb, tc, a.shape@, b.shape@)) > usize::MAX
}

/// The batched matrix-multiply operator: three transpose flags relative to
/// treating each operand's two trailing dimensions as a matrix. Stateless.
#[derive(Clone, Copy, Debug)]
pub struct BasicMatMul {
    pub transpose_a: bool,
    pub transpose_b: bool,
    pub transpose_c: bool,
}

impl BasicMatMul {
    /// Human-readable name of the operator.
    pub fn name(&self) -> (r: &'static str)
        ensures
            r@ == "MatMul"@,
    {
        "MatMul"
    }

    /// Evaluation depends only on the inputs, never on prior calls.
    pub fn is_stateless(&self) -> (r: bool)
        ensures
            r,
    {
        true
    }

    /// The output shape rule: batch extents broadcast one-directionally
    /// from operand 0 towards operand 1, then the two free dimensions.
    pub fn output_shape(&self, a: &Vec<usize>, b: &Vec<usize>) -> (r: Vec<usize>)
        requires
            a@.len() == b@.len(),
            a@.len() >= 2,
        ensures
            r@ == mm_output_shape(self.transpose_a, self.transpose_b, self.transpose_c, a@, b@),
    {
        let rank = a.len();
        let mut out: Vec<usize> = Vec::new();
        let mut d: usize = 0;
        while d < rank - 2
            invariant
                rank == a@.len(),
                a@.len() == b@.len(),
                a@.len() >= 2,
                d <= rank - 2,
                out@.len() == d,
                forall|l: int|
                    0 <= l < d ==> #[trigger] out@[l] == (if a@[l] == 1 {
                        b@[l]
                    } else {
                        a@[l]
                    }),
            decreases rank - 2 - d,
        {
            if a[d] == 1 {
                out.push(b[d]);
            } else {
                out.push(a[d]);
            }
            d += 1;
        }
        let m = if self.transpose_a { a[rank - 1] } else { a[rank - 2] };
        let n = if self.transpose_b { b[rank - 2] } else { b[rank - 1] };
        if self.transpose_c {
            out.push(n);
            out.push(m);
        } else {
            out.push(m);
            out.push(n);
        }
        proof {
            assert(out@ =~= mm_output_shape(
                self.transpose_a,
                self.transpose_b,
                self.transpose_c,
                a@,
                b@,
            ));
        }
        out
    }

    /// Shape inference: the output fact of the operator on two input facts,
    /// or the malformed-input error exactly when ranks differ, are below 2,
    /// or the contracted extents mismatch.
    pub fn output_facts(&self, a: &TensorFact, b: &TensorFact) -> (r: Result<TensorFact, CoreError>)
        ensures
            r is Ok <==> mm_facts_ok(self.transpose_a, self.transpose_b, a.shape@, b.shape@),
            r matches Ok(f) ==> {
                &&& f.datum_type == a.datum_type
                &&& f.shape@ == mm_output_shape(
                    self.transpose_a,
                    self.transpose_b,
                    self.transpose_c,
                    a.shape@,
                    b.shape@,
                )
            },
            r is Err ==> r == Result::<TensorFact, CoreError>::Err(CoreError::MalformedInput),
    {
        let rank = a.shape.len();
        if b.shape.len() != rank || rank < 2 {
            return Err(CoreError::MalformedInput);
        }
        let a_k = if self.transpose_a { a.shape[rank - 2] } else { a.shape[rank - 1] };
        let b_k = if self.transpose_b { b.shape[rank - 1] } else { b.shape[rank - 2] };
        if a_k != b_k {
            return Err(CoreError::MalformedInput);
        }
        Ok(TensorFact {
            datum_type: a.datum_type,
            shape: self.output_shape(&a.shape, &b.shape),
        })
    }

    /// Evaluate the operator: a zero-rank-2-slice-wise dense matrix product
    /// per batch coordinate of the output, with the one-directional
    /// broadcast rule selecting operand slices.
    #[verifier::loop_isolation(false)]
    pub fn eval(&self, a: &Tensor, b: &Tensor) -> (r: Result<Tensor, CoreError>)
        requires
            a.wf(),
            b.wf(),
        ensures
            r is Err ==> (r->Err_0 == CoreError::MalformedInput || r->Err_0
                == CoreError::UnsupportedDatumType || r->Err_0 == CoreError::ValueOutOfRange),
            r == Result::<Tensor, CoreError>::Err(CoreError::MalformedInput) <==> mm_malformed(
                self.transpose_a,
                self.transpose_b,
                *a,
                *b,
            ),
            !mm_malformed(self.transpose_a, self.transpose_b, *a, *b) ==> (r == Result::<
                Tensor,
                CoreError,
            >::Err(CoreError::UnsupportedDatumType) <==> !a.datum_type.is_number()),
            (!mm_malformed(self.transpose_a, self.transpose_b, *a, *b)
                && a.datum_type.is_number()) ==> (r == Result::<Tensor, CoreError>::Err(
                CoreError::ValueOutOfRange,
            ) <==> mm_out_of_range(self.transpose_a, self.transpose_b, self.transpose_c, *a, *b)),
            r matches Ok(c) ==> {
                &&& c.wf()
                &&& c.datum_type == a.datum_type
                &&& c.shape@ == mm_output_shape(
                    self.transpose_a,
                    self.transpose_b,
                    self.transpose_c,
                    a.shape@,
                    b.shape@,
                )
                &&& forall|cd: Seq<int>|
                    in_range(c.shape@, cd) ==> #[trigger] c.at(cd) == mm_value(
                        self.transpose_a,
                        self.transpose_b,
                        self.transpose_c,
                        *a,
                        *b,
                        cd,
                    )
            },
    {
        let ta = self.transpose_a;
        let tb = self.transpose_b;
        let tc = self.transpose_c;
        let rank = a.shape.len();
        if b.shape.len() != rank || rank < 2 {
            return Err(CoreError::MalformedInput);
        }
        let a_k = if ta { a.shape[rank - 2] } else { a.shape[rank - 1] };
        let b_k = if tb { b.shape[rank - 1] } else { b.shape[rank - 2] };
        if a_k != b_k {
            return Err(CoreError::MalformedInput);
        }
        if a.datum_type != b.datum_type {
            return Err(CoreError::MalformedInput);
        }
        let mut d: usize = 0;
        while d < rank - 2
            invariant
                rank == a.shape@.len(),
                a.shape@.len() == b.shape@.len(),
                rank >= 2,
                d <= rank - 2,
                forall|l: int|
                    0 <= l < d ==> (#[trigger] b.shape@[l] == 1 || a.shape@[l] == 1 || a.shape@[l]
                        == b.shape@[l]),
            decreases rank - 2 - d,
        {
            let ad = a.shape[d];
            let bd = b.shape[d];
            if bd != 1 && ad != 1 && ad != bd {
                return Err(CoreError::MalformedInput);
            }
            d += 1;
        }
        if !a.datum_type.is_number() {
            return Err(CoreError::UnsupportedDatumType);
        }
        if !a.check_bounded() || !b.check_bounded() {
            return Err(CoreError::ValueOutOfRange);
        }
        if a_k > (ELEM_BOUND as usize) {
            return Err(CoreError::ValueOutOfRange);
        }
        let a_total = a.data.len();
        let b_total = b.data.len();
        let out_shape = self.output_shape(&a.shape, &b.shape);
        let ghost oshape = out_shape@;
        proof {
            assert(oshape.len() == rank);
        }
        let mut any_zero = false;
        let mut d: usize = 0;
        while d < out_shape.len()
            invariant
                d <= oshape.len(),
                out_shape@ == oshape,
                any_zero <==> exists|l: int| 0 <= l < d && #[trigger] oshape[l] == 0,
            decreases oshape.len() - d,
        {
            if out_shape[d] == 0 {
                any_zero = true;
            }
            d += 1;
        }
        let mut out_len: usize = 0;
        if any_zero {
            proof {
                crate::shape::lemma_product_zero(oshape);
            }
        } else {
            assert(forall|l: int| 0 <= l < oshape.len() ==> #[trigger] oshape[l] >= 1);
            out_len = 1;
            let mut d: usize = 0;
            proof {
                assert(oshape.take(0) =~= Seq::<usize>::empty());
            }
            while d < out_shape.len()
                invariant
                    d <= oshape.len(),
                    out_shape@ == oshape,
                    forall|l: int| 0 <= l < oshape.len() ==> #[trigger] oshape[l] >= 1,
                    out_len == product(oshape.take(d as int)),
                decreases oshape.len() - d,
            {
                proof {
                    crate::shape::lemma_product_take_succ(oshape, d as int);
                }
                match out_len.checked_mul(out_shape[d]) {
                    Some(l) => {
                        out_len = l;
                    },
                    None => {
                        proof {
                            crate::shape::lemma_product_prefix_le(oshape, d as int + 1);
                        }
                        return Err(CoreError::ValueOutOfRange);
                    },
                }
                d += 1;
            }
            proof {
                assert(oshape.take(oshape.len() as int) =~= oshape);
            }
        }
        let mut data: Vec<i64> = Vec::new();
        let mut fi: usize = 0;
        while fi < out_len
            invariant
                a.wf(),
                b.wf(),
                rank == a.shape@.len(),
                a.shape@.len() == b.shape@.len(),
                rank >= 2,
                elems_bounded(a.data@),
                elems_bounded(b.data@),
                mm_batch_compat(a.shape@, b.shape@),
                a_k == a.shape@[a_k_pos(ta, rank as int)],
                a_k <= ELEM_BOUND,
                mm_facts_ok(ta, tb, a.shape@, b.shape@),
                oshape == mm_output_shape(ta, tb, tc, a.shape@, b.shape@),
                out_len == product(oshape),
                fi <= out_len,
                data@.len() == fi,
                forall|f: int|
                    0 <= f < fi ==> #[trigger] data@[f] == mm_value(
                        ta,
                        tb,
                        tc,
                        *a,
                        *b,
                        coords_of(oshape, f),
                    ),
            decreases out_len - fi,
        {
            let c = unflatten_index(&out_shape, fi);
            let ghost cs = ints(c@);
            let i_co = if tc { c[rank - 1] } else { c[rank - 2] };
            let j_co = if tc { c[rank - 2] } else { c[rank - 1] };
            let mut acc: i64 = 0;
            let mut kv: usize = 0;
            while kv < a_k
                invariant
                    a.wf(),
                    b.wf(),
                    rank == a.shape@.len(),
                    a.shape@.len() == b.shape@.len(),
                    rank >= 2,
                    elems_bounded(a.data@),
                    elems_bounded(b.data@),
                    mm_batch_compat(a.shape@, b.shape@),
                    a_k == a.shape@[a_k_pos(ta, rank as int)],
                    a_k <= ELEM_BOUND,
                    mm_facts_ok(ta, tb, a.shape@, b.shape@),
                    oshape == mm_output_shape(ta, tb, tc, a.shape@, b.shape@),
                    cs == ints(c@),
                    in_range(oshape, cs),
                    c@.len() == rank,
                    i_co as int == (if tc { cs[rank - 1] } else { cs[rank - 2] }),
                    j_co as int == (if tc { cs[rank - 2] } else { cs[rank - 1] }),
                    kv <= a_k,
                    acc == mm_sum(ta, tb, *a, *b, cs, i_co as int, j_co as int, kv as nat),
                    -(kv as i64 * TERM_BOUND) <= acc <= kv as i64 * TERM_BOUND,
                decreases a_k - kv,
            {
                let ac = clamped_coord(&a.shape, &c, if ta { kv } else { i_co }, if ta { i_co } else { kv });
                let bc = clamped_coord(&b.shape, &c, if tb { j_co } else { kv }, if tb { kv } else { j_co });
                proof {
                    assert(ints(ac@) == mm_a_coord(ta, a.shape@, cs, i_co as int, kv as int));
                    assert(ints(bc@) == mm_b_coord(tb, b.shape@, cs, j_co as int, kv as int));
                    lemma_operand_in_range(ta, tb, tc, a.shape@, b.shape@, cs, i_co as int, j_co as int, kv as int);
                    lemma_flat_index_bounds(a.shape@, ints(ac@));
                    lemma_flat_index_bounds(b.shape@, ints(bc@));
                }
                let ai = flatten_coords(&a.shape, &ac);
                let bi = flatten_coords(&b.shape, &bc);
                let av = a.data[ai];
                let bv = b.data[bi];
                proof {
                    assert(av == a.at(mm_a_coord(ta, a.shape@, cs, i_co as int, kv as int)));
                    assert(bv == b.at(mm_b_coord(tb, b.shape@, cs, j_co as int, kv as int)));
                    assert(-ELEM_BOUND <= av <= ELEM_BOUND);
                    assert(-ELEM_BOUND <= bv <= ELEM_BOUND);
                    assert(-TERM_BOUND <= av * bv <= TERM_BOUND) by (nonlinear_arith)
                        requires -ELEM_BOUND <= av <= ELEM_BOUND, -ELEM_BOUND <= bv <= ELEM_BOUND;
                    assert((kv as i64 + 1) * TERM_BOUND == kv as i64 * TERM_BOUND + TERM_BOUND)
                        by (nonlinear_arith);
                    assert(kv as i64 * TERM_BOUND <= 0x10_0000 * TERM_BOUND) by (nonlinear_arith)
                        requires 0 <= kv as i64 <= 0x10_0000;
                }
                acc = acc + av * bv;
                kv += 1;
            }
            data.push(acc);
            proof {
                assert(coords_of(oshape, fi as int) == cs);
                assert(data@[fi as int] == mm_value(ta, tb, tc, *a, *b, cs));
            }
            fi += 1;
        }
        let result = Tensor { datum_type: a.datum_type, shape: out_shape, data };
        proof {
            assert(result.wf());
            assert forall|cd: Seq<int>| in_range(result.shape@, cd) implies #[trigger] result.at(cd)
                == mm_value(ta, tb, tc, *a, *b, cd) by {
                lemma_flat_index_bounds(oshape, cd);
                lemma_flat_roundtrip(oshape, cd);
            }
        }
        Ok(result)
    }
}

/// Build an operand coordinate: the output's batch coordinate clamped by
/// the operand's extent-1 axes, then the two trailing matrix coordinates.
fn clamped_coord(shape: &Vec<usize>, c: &Vec<usize>, p0: usize, p1: usize) -> (r: Vec<usize>)
    requires
        shape@.len() >= 2,
        c@.len() >= shape@.len(),
    ensures
        ints(r@) == mm_batch_coord(shape@, ints(c@)).push(p0 as int).push(p1 as int),
{
    let rank = shape.len();
    let mut r: Vec<usize> = Vec::new();
    let mut d: usize = 0;
    while d < rank - 2
        invariant
            rank == shape@.len(),
            c@.len() >= shape@.len(),
            rank >= 2,
            d <= rank - 2,
            r@.len() == d,
            forall|l: int|
                0 <= l < d ==> #[trigger] r@[l] == (if shape@[l] == 1 {
                    0usize
                } else {
                    c@[l]
                }),
        decreases rank - 2 - d,
    {
        if shape[d] == 1 {
            r.push(0);
        } else {
            r.push(c[d]);
        }
        d += 1;
    }
    r.push(p0);
    r.push(p1);
    proof {
        assert(ints(r@) =~= mm_batch_coord(shape@, ints(c@)).push(p0 as int).push(p1 as int));
    }
    r
}

/// The operand coordinates of every term of an in-range output cell lie
/// inside their operands.
proof fn lemma_operand_in_range(
    ta: bool,
    tb: bool,
    tc: bool,
    sa: Seq<usize>,
    sb: Seq<usize>,
    c: Seq<int>,
    i: int,
    j: int,
    kv: int,
)
    requires
        sa.len() == sb.len(),
        sa.len() >= 2,
        mm_facts_ok(ta, tb, sa, sb),
        mm_batch_compat(sa, sb),
        in_range(mm_output_shape(ta, tb, tc, sa, sb), c),
        i == (if tc { c[sa.len() - 1] } else { c[sa.len() - 2] }),
        j == (if tc { c[sa.len() - 2] } else { c[sa.len() - 1] }),
        0 <= kv < sa[a_k_pos(ta, sa.len() as int)],
    ensures
        in_range(sa, mm_a_coord(ta, sa, c, i, kv)),
        in_range(sb, mm_b_coord(tb, sb, c, j, kv)),
{
    let r = sa.len() as int;
    let o = mm_output_shape(ta, tb, tc, sa, sb);
    assert(o.len() == r);
    assert(0 <= i < sa[a_m_pos(ta, r)]);
    assert(0 <= j < sb[b_n_pos(tb, r)]);
    let ca = mm_a_coord(ta, sa, c, i, kv);
    let cb = mm_b_coord(tb, sb, c, j, kv);
    assert forall|d: int| 0 <= d < ca.len() implies 0 <= #[trigger] ca[d] < sa[d] by {
        if d < r - 2 {
            assert(ca[d] == (if sa[d] == 1 { 0int } else { c[d] }));
            if sa[d] != 1 {
                assert(o[d] == sa[d]);
                assert(0 <= c[d] < o[d]);
            }
        }
    }
    assert forall|d: int| 0 <= d < cb.len() implies 0 <= #[trigger] cb[d] < sb[d] by {
        if d < r - 2 {
            assert(cb[d] == (if sb[d] == 1 { 0int } else { c[d] }));
            if sb[d] != 1 {
                assert(sb[d] == 1 || sa[d] == 1 || sa[d] == sb[d]);
                assert(o[d] == sb[d]);
                assert(0 <= c[d] < o[d]);
            }
        }
    }
    assert(ca.len() == sa.len());
    assert(cb.len() == sb.len());
}

} // verus!
