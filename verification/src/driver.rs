//! The decomposition pass: classify each generic contraction, lower it to
//! the batched matrix multiply when all three roles are present, and grow
//! degenerate contractions by a synthetic unit axis until they classify.
use vstd::prelude::*;
use crate::CoreError;
use crate::axes::{
    has_k, k_cand, k_good, k_index, m_cand, m_good, m_index, m_missing, n_cand, n_good, n_index,
    n_missing, roles_ok, choose_mkn_axes, Axis, AxesMapping, AxisV,
};
use crate::einsum::EinSumOp;
use crate::graph::{ein_view, facts_view, map_positions_wf, node_wf, EinView, FactsV, Graph, Node, Operator};
use crate::matmul::{mm_facts_ok, mm_output_shape, BasicMatMul};
use crate::patch::{inject_result, remap_idx, Patch};
use crate::tensor::TensorFact;

verus! {

/// An output-only axis: a candidate to absorb a missing free axis.
pub open spec fn quasi(ax: AxisV) -> bool {
    ax.a.len() == 0 && ax.b.len() == 0 && ax.o.len() == 1
}

/// Index of the first output-only axis, or -1.
pub open spec fn find_quasi_from(s: Seq<AxisV>, i: int) -> int
    decreases s.len() - i,
{
    if i < 0 || i >= s.len() {
        -1
    } else if quasi(s[i]) {
        i
    } else {
        find_quasi_from(s, i + 1)
    }
}

pub open spec fn find_quasi(s: Seq<AxisV>) -> int {
    find_quasi_from(s, 0)
}

/// Occurrence positions after an axis entered at position `at`.
pub open spec fn shift_at(ps: Seq<usize>, at: int) -> Seq<usize> {
    ps.map_values(
        |p: usize|
            if p as int >= at {
                (p as int + 1) as usize
            } else {
                p
            },
    )
}

/// The mapping after a unit left-free axis entered operand 0 at the
/// contraction position `apos`: either the first output-only axis absorbs
/// it, or a fresh axis enters the output second-to-last.
pub open spec fn inj_m_map(s: Seq<AxisV>, apos: int, rc: int) -> Seq<AxisV> {
    let shifted = Seq::new(
        s.len(),
        |i: int|
            AxisV { label: s[i].label, a: shift_at(s[i].a, apos), b: s[i].b, o: s[i].o },
    );
    let qi = find_quasi(s);
    if qi >= 0 {
        shifted.update(
            qi,
            AxisV { label: s[qi].label, a: seq![apos as usize], b: s[qi].b, o: s[qi].o },
        )
    } else {
        let po = if rc == 0 {
            0int
        } else {
            rc - 1
        };
        Seq::new(
            s.len(),
            |i: int|
                AxisV {
                    label: shifted[i].label,
                    a: shifted[i].a,
                    b: shifted[i].b,
                    o: shift_at(shifted[i].o, po),
                },
        ).push(AxisV { label: 109u8, a: seq![apos as usize], b: Seq::empty(), o: seq![po as usize] })
    }
}

/// The mapping after a unit right-free axis entered operand 1 just behind
/// the contraction position `bpos`: an output-only axis absorbs it, or a
/// fresh axis enters the output last.
pub open spec fn inj_n_map(s: Seq<AxisV>, bpos: int, rc: int) -> Seq<AxisV> {
    let at = bpos + 1;
    let shifted = Seq::new(
        s.len(),
        |i: int|
            AxisV { label: s[i].label, a: s[i].a, b: shift_at(s[i].b, at), o: s[i].o },
    );
    let qi = find_quasi(s);
    if qi >= 0 {
        shifted.update(
            qi,
            AxisV { label: s[qi].label, a: s[qi].a, b: seq![at as usize], o: s[qi].o },
        )
    } else {
        shifted.push(
            AxisV { label: 110u8, a: Seq::empty(), b: seq![at as usize], o: seq![rc as usize] },
        )
    }
}

/// Contraction position in operand 0.
pub open spec fn k_apos(s: Seq<AxisV>) -> int {
    s[k_index(s)].a[0] as int
}

/// Contraction position in operand 1.
pub open spec fn k_bpos(s: Seq<AxisV>) -> int {
    s[k_index(s)].b[0] as int
}

/// The contraction after one axis injection.
pub open spec fn inj_view(v: EinView, is_n: bool) -> EinView {
    let grew = find_quasi(v.s) < 0;
    if is_n {
        EinView {
            s: inj_n_map(v.s, k_bpos(v.s), v.rc),
            ra: v.ra,
            rb: v.rb + 1,
            rc: v.rc + if grew {
                1int
            } else {
                0
            },
        }
    } else {
        EinView {
            s: inj_m_map(v.s, k_apos(v.s), v.rc),
            ra: v.ra + 1,
            rb: v.rb,
            rc: v.rc + if grew {
                1int
            } else {
                0
            },
        }
    }
}

/// A contraction that lowers directly: all three roles present and unique,
/// equal ranks, every involved position among the two trailing dimensions,
/// and the two positions within each tensor distinct.
pub open spec fn direct_ok(v: EinView) -> bool {
    let s = v.s;
    &&& roles_ok(s)
    &&& has_k(s)
    &&& !m_missing(s)
    &&& !n_missing(s)
    &&& {
        let am = s[m_index(s)].a[0] as int;
        let ak = s[k_index(s)].a[0] as int;
        let bk = s[k_index(s)].b[0] as int;
        let bn = s[n_index(s)].b[0] as int;
        let cm = s[m_index(s)].o[0] as int;
        let cn = s[n_index(s)].o[0] as int;
        &&& v.ra == v.rb
        &&& v.ra == v.rc
        &&& am >= v.ra - 2
        &&& ak >= v.ra - 2
        &&& bk >= v.rb - 2
        &&& bn >= v.rb - 2
        &&& cm >= v.rc - 2
        &&& cn >= v.rc - 2
        &&& am != ak
        &&& bk != bn
        &&& cm != cn
    }
}

/// The lowered operator of a directly classifiable contraction: each flag
/// says whether that tensor's two trailing dimensions are swapped.
pub open spec fn lower_op(v: EinView) -> BasicMatMul {
    let s = v.s;
    BasicMatMul {
        transpose_a: s[m_index(s)].a[0] > s[k_index(s)].a[0],
        transpose_b: s[k_index(s)].b[0] > s[n_index(s)].b[0],
        transpose_c: s[m_index(s)].o[0] > s[n_index(s)].o[0],
    }
}

/// The contraction decomposes: a unique contraction axis exists, roles are
/// unique, and after injecting whichever free axes are missing (left one
/// first) the result lowers directly.
pub open spec fn dec(v: EinView) -> bool {
    &&& roles_ok(v.s)
    &&& has_k(v.s)
    &&& {
        let v1 = if m_missing(v.s) {
            inj_view(v, false)
        } else {
            v
        };
        let v2 = if n_missing(v1.s) {
            inj_view(v1, true)
        } else {
            v1
        };
        direct_ok(v2)
    }
}

/// The facts after one axis injection: a unit extent enters the grown
/// operand at the insertion position, and the output where no output-only
/// axis absorbs the new axis.
pub open spec fn inj_facts(f: FactsV, v: EinView, is_n: bool) -> FactsV {
    let grew = find_quasi(v.s) < 0;
    if is_n {
        FactsV {
            sa: f.sa,
            sb: f.sb.insert(k_bpos(v.s) + 1, 1usize),
            sc: if grew {
                f.sc.insert(f.sc.len() as int, 1usize)
            } else {
                f.sc
            },
            da: f.da,
            dc: f.dc,
        }
    } else {
        let po = if v.rc == 0 {
            0int
        } else {
            v.rc - 1
        };
        FactsV {
            sa: f.sa.insert(k_apos(v.s), 1usize),
            sb: f.sb,
            sc: if grew {
                f.sc.insert(po, 1usize)
            } else {
                f.sc
            },
            da: f.da,
            dc: f.dc,
        }
    }
}

/// The lowered operator agrees with the preserved fact: its shape inference
/// on the operand facts accepts them and returns exactly the node's stored
/// output shape and datum type, so the replace-operator rewrite preserves
/// what every downstream consumer observes.
pub open spec fn facts_aligned(v: EinView, f: FactsV) -> bool {
    &&& mm_facts_ok(lower_op(v).transpose_a, lower_op(v).transpose_b, f.sa, f.sb)
    &&& f.sc == mm_output_shape(
        lower_op(v).transpose_a,
        lower_op(v).transpose_b,
        lower_op(v).transpose_c,
        f.sa,
        f.sb,
    )
    &&& f.dc == f.da
}

/// After injecting whichever free axes are missing, the facts of the final
/// contraction agree with the lowered operator.
pub open spec fn dec_aligned(v: EinView, f: FactsV) -> bool {
    let v1 = if m_missing(v.s) {
        inj_view(v, false)
    } else {
        v
    };
    let f1 = if m_missing(v.s) {
        inj_facts(f, v, false)
    } else {
        f
    };
    let v2 = if n_missing(v1.s) {
        inj_view(v1, true)
    } else {
        v1
    };
    let f2 = if n_missing(v1.s) {
        inj_facts(f1, v1, true)
    } else {
        f1
    };
    facts_aligned(v2, f2)
}

/// The pass can fully lower the einsum node at index `n`: its contraction
/// decomposes and the facts along the injection chain stay consistent with
/// the lowering.
pub open spec fn lowerable(nodes: Seq<Node>, n: int) -> bool {
    dec(ein_view(nodes, n)) && dec_aligned(ein_view(nodes, n), facts_view(nodes, n))
}

/// How many of the two free axes are missing.
pub open spec fn missing_count(s: Seq<AxisV>) -> int {
    (if m_missing(s) {
        1int
    } else {
        0
    }) + (if n_missing(s) {
        1int
    } else {
        0
    })
}

/// Whatever the index, the first output-only axis is output-only, and
/// nothing before it is.
pub proof fn lemma_find_quasi_props(s: Seq<AxisV>, i: int)
    requires
        0 <= i <= s.len(),
    ensures
        find_quasi_from(s, i) == -1 ==> forall|j: int| i <= j < s.len() ==> !(#[trigger] quasi(s[j])),
        find_quasi_from(s, i) != -1 ==> i <= find_quasi_from(s, i) < s.len() && quasi(
            s[find_quasi_from(s, i)],
        ),
    decreases s.len() - i,
{
    if i < s.len() && !quasi(s[i]) {
        lemma_find_quasi_props(s, i + 1);
    }
}

/// Injecting the missing left-free axis adds exactly that axis: roles stay
/// unique, the contraction axis survives, and the right-free status is
/// untouched.
pub proof fn lemma_inj_m_props(s: Seq<AxisV>, apos: int, rc: int)
    requires
        roles_ok(s),
        has_k(s),
        m_missing(s),
    ensures
        roles_ok(inj_m_map(s, apos, rc)),
        has_k(inj_m_map(s, apos, rc)),
        !m_missing(inj_m_map(s, apos, rc)),
        n_missing(inj_m_map(s, apos, rc)) == n_missing(s),
        k_cand(inj_m_map(s, apos, rc)[k_index(inj_m_map(s, apos, rc))]),
{
    let s1 = inj_m_map(s, apos, rc);
    let qi = find_quasi(s);
    lemma_find_quasi_props(s, 0);
    if qi >= 0 {
        assert(quasi(s[qi]));
        assert(s1.len() == s.len());
        assert forall|i: int| 0 <= i < s.len() && i != qi implies same_lens(s1[i], s[i]) by {}
        assert(m_cand(s1[qi]) && m_good(s1[qi]));
        assert(!k_cand(s1[qi]) && !n_cand(s1[qi]));
        assert(!m_cand(s[qi]) && !k_cand(s[qi]) && !n_cand(s[qi]));
    } else {
        assert(s1.len() == s.len() + 1);
        assert forall|i: int| 0 <= i < s.len() implies same_lens(s1[i], s[i]) by {}
        assert(m_cand(s1[s.len() as int]) && m_good(s1[s.len() as int]));
        assert(!k_cand(s1[s.len() as int]) && !n_cand(s1[s.len() as int]));
    }
    lemma_roles_after(s, s1, if qi >= 0 { qi } else { s.len() as int });
}

/// Injecting the missing right-free axis, symmetrically.
pub proof fn lemma_inj_n_props(s: Seq<AxisV>, bpos: int, rc: int)
    requires
        roles_ok(s),
        has_k(s),
        n_missing(s),
    ensures
        roles_ok(inj_n_map(s, bpos, rc)),
        has_k(inj_n_map(s, bpos, rc)),
        !n_missing(inj_n_map(s, bpos, rc)),
        m_missing(inj_n_map(s, bpos, rc)) == m_missing(s),
        k_cand(inj_n_map(s, bpos, rc)[k_index(inj_n_map(s, bpos, rc))]),
{
    let s1 = inj_n_map(s, bpos, rc);
    let qi = find_quasi(s);
    lemma_find_quasi_props(s, 0);
    if qi >= 0 {
        assert(quasi(s[qi]));
        assert(s1.len() == s.len());
        assert forall|i: int| 0 <= i < s.len() && i != qi implies same_lens(s1[i], s[i]) by {}
        assert(n_cand(s1[qi]) && n_good(s1[qi]));
        assert(!k_cand(s1[qi]) && !m_cand(s1[qi]));
        assert(!m_cand(s[qi]) && !k_cand(s[qi]) && !n_cand(s[qi]));
    } else {
        assert(s1.len() == s.len() + 1);
        assert forall|i: int| 0 <= i < s.len() implies same_lens(s1[i], s[i]) by {}
        assert(n_cand(s1[s.len() as int]) && n_good(s1[s.len() as int]));
        assert(!k_cand(s1[s.len() as int]) && !m_cand(s1[s.len() as int]));
    }
    lemma_roles_after_n(s, s1, if qi >= 0 { qi } else { s.len() as int });
}

/// Two axes with the same occurrence counts fall into the same roles.
pub open spec fn same_lens(x: AxisV, y: AxisV) -> bool {
    x.a.len() == y.a.len() && x.b.len() == y.b.len() && x.o.len() == y.o.len()
}

/// Role bookkeeping for a mapping that equals the old one in occurrence
/// counts everywhere but at one index, where a left-free axis now stands.
proof fn lemma_roles_after(s: Seq<AxisV>, s1: Seq<AxisV>, ni: int)
    requires
        roles_ok(s),
        has_k(s),
        m_missing(s),
        s1.len() == s.len() || s1.len() == s.len() + 1,
        0 <= ni < s1.len(),
        forall|i: int| 0 <= i < s1.len() && i < s.len() && i != ni ==> same_lens(s1[i], s[i]),
        ni < s.len() ==> !m_cand(s[ni]) && !k_cand(s[ni]) && !n_cand(s[ni]),
        ni == s.len() ==> s1.len() == s.len() + 1,
        s1.len() == s.len() + 1 ==> ni == s.len(),
        m_cand(s1[ni]) && m_good(s1[ni]) && !k_cand(s1[ni]) && !n_cand(s1[ni]),
    ensures
        roles_ok(s1),
        has_k(s1),
        !m_missing(s1),
        n_missing(s1) == n_missing(s),
        k_cand(s1[k_index(s1)]),
{
    lemma_roles_common(s, s1, ni);
}

/// The same bookkeeping where a right-free axis now stands.
proof fn lemma_roles_after_n(s: Seq<AxisV>, s1: Seq<AxisV>, ni: int)
    requires
        roles_ok(s),
        has_k(s),
        n_missing(s),
        s1.len() == s.len() || s1.len() == s.len() + 1,
        0 <= ni < s1.len(),
        forall|i: int| 0 <= i < s1.len() && i < s.len() && i != ni ==> same_lens(s1[i], s[i]),
        ni < s.len() ==> !m_cand(s[ni]) && !k_cand(s[ni]) && !n_cand(s[ni]),
        ni == s.len() ==> s1.len() == s.len() + 1,
        s1.len() == s.len() + 1 ==> ni == s.len(),
        n_cand(s1[ni]) && n_good(s1[ni]) && !k_cand(s1[ni]) && !m_cand(s1[ni]),
    ensures
        roles_ok(s1),
        has_k(s1),
        !n_missing(s1),
        m_missing(s1) == m_missing(s),
        k_cand(s1[k_index(s1)]),
{
    lemma_roles_common(s, s1, ni);
}

/// Shared role bookkeeping: candidacy depends only on occurrence counts,
/// so it transfers index by index away from the one changed entry.
proof fn lemma_roles_common(s: Seq<AxisV>, s1: Seq<AxisV>, ni: int)
    requires
        roles_ok(s),
        has_k(s),
        s1.len() == s.len() || s1.len() == s.len() + 1,
        0 <= ni < s1.len(),
        forall|i: int| 0 <= i < s1.len() && i < s.len() && i != ni ==> same_lens(s1[i], s[i]),
        ni < s.len() ==> !m_cand(s[ni]) && !k_cand(s[ni]) && !n_cand(s[ni]),
        ni == s.len() ==> s1.len() == s.len() + 1,
        s1.len() == s.len() + 1 ==> ni == s.len(),
        !k_cand(s1[ni]),
        (m_cand(s1[ni]) ==> m_good(s1[ni]) && m_missing(s)),
        (n_cand(s1[ni]) ==> n_good(s1[ni]) && n_missing(s)),
    ensures
        roles_ok(s1),
        has_k(s1),
        (m_cand(s1[ni]) ==> !m_missing(s1)),
        (n_cand(s1[ni]) ==> !n_missing(s1)),
        (!m_cand(s1[ni]) ==> m_missing(s1) == m_missing(s)),
        (!n_cand(s1[ni]) ==> n_missing(s1) == n_missing(s)),
        k_cand(s1[k_index(s1)]),
{
    assert forall|i: int|
        0 <= i < s1.len() && i != ni implies (i < s.len() && k_cand(s1[i]) == k_cand(s[i])
        && m_cand(s1[i]) == m_cand(s[i]) && n_cand(s1[i]) == n_cand(s[i]) && same_lens(
        s1[i],
        s[i],
    )) by {
        assert(i < s.len());
        assert(same_lens(s1[i], s[i]));
    }
    let kw = choose|i: int| 0 <= i < s.len() && #[trigger] k_cand(s[i]);
    assert(k_cand(s[kw]));
    assert(kw != ni);
    assert(k_cand(s1[kw]));
    assert(has_k(s1));
    assert(k_cand(s1[k_index(s1)]));
    assert forall|i: int| 0 <= i < s1.len() && #[trigger] k_cand(s1[i]) implies k_good(s1[i]) by {
        assert(i != ni);
        assert(k_cand(s[i]));
        assert(same_lens(s1[i], s[i]));
    }
    assert forall|i: int| 0 <= i < s1.len() && #[trigger] m_cand(s1[i]) implies m_good(s1[i]) by {
        if i != ni {
            assert(m_cand(s[i]));
            assert(same_lens(s1[i], s[i]));
        }
    }
    assert forall|i: int| 0 <= i < s1.len() && #[trigger] n_cand(s1[i]) implies n_good(s1[i]) by {
        if i != ni {
            assert(n_cand(s[i]));
            assert(same_lens(s1[i], s[i]));
        }
    }
    assert forall|i: int, j: int|
        0 <= i < s1.len() && 0 <= j < s1.len() && #[trigger] k_cand(s1[i]) && #[trigger] k_cand(
            s1[j],
        ) implies i == j by {
        assert(i != ni && j != ni);
        assert(k_cand(s[i]) && k_cand(s[j]));
    }
    assert forall|i: int, j: int|
        0 <= i < s1.len() && 0 <= j < s1.len() && #[trigger] m_cand(s1[i]) && #[trigger] m_cand(
            s1[j],
        ) implies i == j by {
        if i != ni && j != ni {
            assert(m_cand(s[i]) && m_cand(s[j]));
        } else if i == ni && j != ni {
            assert(m_cand(s[j]));
            assert(m_missing(s));
            assert(false);
        } else if j == ni && i != ni {
            assert(m_cand(s[i]));
            assert(m_missing(s));
            assert(false);
        }
    }
    assert forall|i: int, j: int|
        0 <= i < s1.len() && 0 <= j < s1.len() && #[trigger] n_cand(s1[i]) && #[trigger] n_cand(
            s1[j],
        ) implies i == j by {
        if i != ni && j != ni {
            assert(n_cand(s[i]) && n_cand(s[j]));
        } else if i == ni && j != ni {
            assert(n_cand(s[j]));
            assert(n_missing(s));
            assert(false);
        } else if j == ni && i != ni {
            assert(n_cand(s[i]));
            assert(n_missing(s));
            assert(false);
        }
    }
}

/// After injecting the missing left-free axis, the contraction decomposes
/// exactly when it did before, and one fewer free axis is missing.
pub proof fn lemma_dec_inj_m(v: EinView, f: FactsV)
    requires
        roles_ok(v.s),
        has_k(v.s),
        m_missing(v.s),
    ensures
        dec(inj_view(v, false)) == dec(v),
        dec_aligned(inj_view(v, false), inj_facts(f, v, false)) == dec_aligned(v, f),
        missing_count(inj_view(v, false).s) == missing_count(v.s) - 1,
{
    let v1 = inj_view(v, false);
    lemma_inj_m_props(v.s, k_apos(v.s), v.rc);
}

/// After injecting the missing right-free axis (the left one present), the
/// contraction decomposes exactly when it did before, with one fewer
/// missing free axis.
pub proof fn lemma_dec_inj_n(v: EinView, f: FactsV)
    requires
        roles_ok(v.s),
        has_k(v.s),
        !m_missing(v.s),
        n_missing(v.s),
    ensures
        dec(inj_view(v, true)) == dec(v),
        dec_aligned(inj_view(v, true), inj_facts(f, v, true)) == dec_aligned(v, f),
        missing_count(inj_view(v, true).s) == missing_count(v.s) - 1,
{
    let v1 = inj_view(v, true);
    lemma_inj_n_props(v.s, k_bpos(v.s), v.rc);
}

/// Positions stay inside the grown ranks after a left-free injection.
pub proof fn lemma_inj_m_positions(s: Seq<AxisV>, apos: int, ra: int, rb: int, rc: int)
    requires
        map_positions_wf(s, ra, rb, rc),
        0 <= apos < ra,
        rc >= 0,
    ensures
        map_positions_wf(
            inj_m_map(s, apos, rc),
            ra + 1,
            rb,
            rc + if find_quasi(s) < 0 {
                1int
            } else {
                0
            },
        ),
{
    let s1 = inj_m_map(s, apos, rc);
    let qi = find_quasi(s);
    lemma_find_quasi_props(s, 0);
    let rc1 = rc + if qi < 0 { 1int } else { 0 };
    assert forall|i: int, x: int|
        0 <= i < s1.len() && 0 <= x < s1[i].a.len() implies (#[trigger] s1[i].a[x]) < ra + 1 by {
        if qi >= 0 && i == qi {
        } else if i < s.len() {
            assert(s1[i].a == shift_at(s[i].a, apos));
            assert(s[i].a[x] < ra);
        }
    }
    assert forall|i: int, x: int|
        0 <= i < s1.len() && 0 <= x < s1[i].b.len() implies (#[trigger] s1[i].b[x]) < rb by {
        if i < s.len() {
            assert(s1[i].b == s[i].b);
            assert(s[i].b[x] < rb);
        }
    }
    assert forall|i: int, x: int|
        0 <= i < s1.len() && 0 <= x < s1[i].o.len() implies (#[trigger] s1[i].o[x]) < rc1 by {
        if qi >= 0 {
            assert(s1[i].o == s[i].o);
            assert(s[i].o[x] < rc);
        } else {
            let po = if rc == 0 { 0int } else { rc - 1 };
            if i < s.len() {
                assert(s1[i].o == shift_at(s[i].o, po));
                assert(s[i].o[x] < rc);
            }
        }
    }
}

/// Positions stay inside the grown ranks after a right-free injection.
pub proof fn lemma_inj_n_positions(s: Seq<AxisV>, bpos: int, ra: int, rb: int, rc: int)
    requires
        map_positions_wf(s, ra, rb, rc),
        0 <= bpos < rb,
        rc >= 0,
    ensures
        map_positions_wf(
            inj_n_map(s, bpos, rc),
            ra,
            rb + 1,
            rc + if find_quasi(s) < 0 {
                1int
            } else {
                0
            },
        ),
{
    let s1 = inj_n_map(s, bpos, rc);
    let qi = find_quasi(s);
    lemma_find_quasi_props(s, 0);
    let rc1 = rc + if qi < 0 { 1int } else { 0 };
    assert forall|i: int, x: int|
        0 <= i < s1.len() && 0 <= x < s1[i].a.len() implies (#[trigger] s1[i].a[x]) < ra by {
        if i < s.len() {
            assert(s1[i].a == s[i].a);
            assert(s[i].a[x] < ra);
        }
    }
    assert forall|i: int, x: int|
        0 <= i < s1.len() && 0 <= x < s1[i].b.len() implies (#[trigger] s1[i].b[x]) < rb + 1 by {
        if qi >= 0 && i == qi {
        } else if i < s.len() {
            assert(s1[i].b == shift_at(s[i].b, bpos + 1));
            assert(s[i].b[x] < rb);
        }
    }
    assert forall|i: int, x: int|
        0 <= i < s1.len() && 0 <= x < s1[i].o.len() implies (#[trigger] s1[i].o[x]) < rc1 by {
        if i < s.len() {
            assert(s1[i].o == s[i].o);
            assert(s[i].o[x] < rc);
        }
    }
}


/// A one-position occurrence list.
fn single_pos(p: usize) -> (r: Vec<usize>)
    ensures
        r@ == seq![p],
{
    let mut r: Vec<usize> = Vec::new();
    r.push(p);
    proof {
        assert(r@ =~= seq![p]);
    }
    r
}

/// A copy of an occurrence list.
fn copy_positions(v: &Vec<usize>) -> (r: Vec<usize>)
    ensures
        r@ == v@,
{
    let mut r: Vec<usize> = Vec::new();
    let mut i: usize = 0;
    while i < v.len()
        invariant
            i <= v@.len(),
            r@ == v@.take(i as int),
        decreases v@.len() - i,
    {
        proof {
            assert(v@.take(i as int + 1) =~= v@.take(i as int).push(v@[i as int]));
        }
        r.push(v[i]);
        i += 1;
    }
    proof {
        assert(v@.take(v@.len() as int) =~= v@);
    }
    r
}

/// An occurrence list with every position at or behind `at` moved up one.
fn shift_positions(v: &Vec<usize>, at: usize) -> (r: Vec<usize>)
    requires
        forall|x: int| 0 <= x < v@.len() ==> (#[trigger] v@[x]) < usize::MAX,
    ensures
        r@ == shift_at(v@, at as int),
{
    let mut r: Vec<usize> = Vec::new();
    let mut i: usize = 0;
    while i < v.len()
        invariant
            i <= v@.len(),
            forall|x: int| 0 <= x < v@.len() ==> (#[trigger] v@[x]) < usize::MAX,
            r@.len() == i,
            forall|x: int| 0 <= x < i ==> (#[trigger] r@[x]) == shift_at(v@, at as int)[x],
        decreases v@.len() - i,
    {
        let p = v[i];
        if p >= at {
            r.push(p + 1);
        } else {
            r.push(p);
        }
        i += 1;
    }
    proof {
        assert(r@ =~= shift_at(v@, at as int));
    }
    r
}

/// Index of the unique contraction axis.
fn find_k_axis(m: &AxesMapping) -> (r: usize)
    requires
        m.wf(),
        roles_ok(m@),
        has_k(m@),
    ensures
        r < m@.len(),
        r as int == k_index(m@),
        k_cand(m@[r as int]),
        k_good(m@[r as int]),
{
    let ghost s = m@;
    let mut i: usize = 0;
    while i < m.axes.len()
        invariant
            m.wf(),
            s == m@,
            i <= s.len(),
            roles_ok(s),
            has_k(s),
            forall|l: int| 0 <= l < i ==> !(#[trigger] k_cand(s[l])),
        decreases s.len() - i,
    {
        let ax = &m.axes[i];
        proof {
            assert(m.axes@[i as int].wf());
            assert(s[i as int] == m.axes@[i as int]@);
        }
        if ax.inputs[0].len() >= 1 && ax.inputs[1].len() >= 1 && ax.outputs.len() == 0 {
            proof {
                assert(k_cand(s[i as int]));
                assert(k_index(s) == i as int);
            }
            return i;
        }
        i += 1;
    }
    proof {
        let w = choose|l: int| 0 <= l < s.len() && #[trigger] k_cand(s[l]);
        assert(false);
    }
    0
}

/// Index of the first output-only axis, if any.
fn find_quasi_axis(m: &AxesMapping) -> (r: Option<usize>)
    requires
        m.wf(),
    ensures
        r matches Some(q) ==> q < m@.len() && q as int == find_quasi(m@) && quasi(m@[q as int]),
        r is None ==> find_quasi(m@) == -1,
{
    let ghost s = m@;
    let mut i: usize = 0;
    while i < m.axes.len()
        invariant
            m.wf(),
            s == m@,
            i <= s.len(),
            find_quasi(s) == find_quasi_from(s, i as int),
        decreases s.len() - i,
    {
        let ax = &m.axes[i];
        proof {
            assert(m.axes@[i as int].wf());
            assert(s[i as int] == m.axes@[i as int]@);
        }
        if ax.inputs[0].len() == 0 && ax.inputs[1].len() == 0 && ax.outputs.len() == 1 {
            proof {
                assert(quasi(s[i as int]));
                assert(find_quasi_from(s, i as int) == i as int);
            }
            return Some(i);
        }
        proof {
            assert(!quasi(s[i as int]));
            assert(find_quasi_from(s, i as int) == find_quasi_from(s, i as int + 1));
        }
        i += 1;
    }
    proof {
        assert(find_quasi_from(s, s.len() as int) == -1);
    }
    None
}

/// Whether the patch of an injection call is the one the specification
/// functions describe for this contraction.
pub open spec fn inject_patch_ok(r: Patch, v: EinView, node: usize, is_n: bool, op: EinSumOp) -> bool {
    &&& r matches Patch::Inject { node: nd, fix_input, input_pos, output_pos, new_op } && ({
        &&& nd == node
        &&& fix_input == (if is_n { 1int } else { 0 })
        &&& input_pos as int == (if is_n { k_bpos(v.s) + 1 } else { k_apos(v.s) })
        &&& (output_pos is None <==> find_quasi(v.s) >= 0)
        &&& (output_pos matches Some(po) ==> po as int == (if is_n { v.rc } else if v.rc == 0 { 0int } else { v.rc - 1 }))
        &&& new_op.axes@ == (if is_n { inj_n_map(v.s, k_bpos(v.s), v.rc) } else { inj_m_map(v.s, k_apos(v.s), v.rc) })
        &&& new_op.axes.wf()
        &&& new_op.q_params == op.q_params
        &&& new_op.operating_dt == op.operating_dt
    })
}

/// When the classifier finds no left-free or right-free axis, grow the
/// contraction: a synthetic unit axis enters the operand that misses it
/// (and the output, unless an output-only axis absorbs it), wired through
/// adapter nodes so the observed shapes do not change.
pub fn inject_m_or_n_axis(op: &EinSumOp, model: &Graph, node: usize, is_n: bool) -> (r: Patch)
    requires
        model.wf(),
        node < model.nodes@.len(),
        model.nodes@[node as int].op == Operator::EinSum(*op),
        roles_ok(op.axes@),
        has_k(op.axes@),
        !is_n ==> m_missing(op.axes@),
        is_n ==> n_missing(op.axes@),
    ensures
        inject_patch_ok(r, ein_view(model.nodes@, node as int), node, is_n, *op),
        r.valid_for(*model),
{
    let ghost v = ein_view(model.nodes@, node as int);
    let ghost s = op.axes@;
    proof {
        assert(node_wf(model.nodes@, node as int));
        assert(v.s == s);
        assert(map_positions_wf(s, v.ra, v.rb, v.rc));
    }
    let a_id = model.nodes[node].inputs[0];
    let b_id = model.nodes[node].inputs[1];
    let ra_len = model.nodes[a_id].fact.shape.len();
    let rb_len = model.nodes[b_id].fact.shape.len();
    let rc_len = model.nodes[node].fact.shape.len();
    let ki = find_k_axis(&op.axes);
    proof {
        assert(op.axes.axes@[ki as int].wf());
        assert(s[ki as int] == op.axes.axes@[ki as int]@);
        assert(k_good(s[ki as int]));
    }
    let kx = &op.axes.axes[ki];
    let pos: usize = if is_n {
        kx.inputs[1][0]
    } else {
        kx.inputs[0][0]
    };
    proof {
        if is_n {
            assert(pos as int == k_bpos(s));
            assert(pos < rb_len);
        } else {
            assert(pos as int == k_apos(s));
            assert(pos < ra_len);
        }
    }
    let at: usize = if is_n {
        pos + 1
    } else {
        pos
    };
    let qopt = find_quasi_axis(&op.axes);
    let po: usize = if is_n {
        rc_len
    } else if rc_len == 0 {
        0
    } else {
        rc_len - 1
    };
    let ghost target: Seq<AxisV> = if is_n {
        inj_n_map(s, pos as int, rc_len as int)
    } else {
        inj_m_map(s, pos as int, rc_len as int)
    };
    let mut new_axes: Vec<Axis> = Vec::new();
    let mut i: usize = 0;
    while i < op.axes.axes.len()
        invariant
            model.wf(),
            node < model.nodes@.len(),
            model.nodes@[node as int].op == Operator::EinSum(*op),
            s == op.axes@,
            v == ein_view(model.nodes@, node as int),
            map_positions_wf(s, v.ra, v.rb, v.rc),
            v.ra == ra_len && v.rb == rb_len && v.rc == rc_len,
            op.axes.wf(),
            at as int == (if is_n { k_bpos(s) + 1 } else { k_apos(s) }),
            pos as int == (if is_n { k_bpos(s) } else { k_apos(s) }),
            po as int == (if is_n { v.rc } else if v.rc == 0 { 0int } else { v.rc - 1 }),
            (qopt matches Some(q) ==> q < s.len() && q as int == find_quasi(s) && quasi(s[q as int])),
            (qopt is None ==> find_quasi(s) == -1),
            target == (if is_n { inj_n_map(s, pos as int, rc_len as int) } else { inj_m_map(s, pos as int, rc_len as int) }),
            i <= s.len(),
            new_axes@.len() == i,
            forall|l: int| 0 <= l < i ==> (#[trigger] new_axes@[l])@ == target[l],
            forall|l: int| 0 <= l < i ==> (#[trigger] new_axes@[l]).wf(),
        decreases s.len() - i,
    {
        let ax = &op.axes.axes[i];
        proof {
            assert(op.axes.axes@[i as int].wf());
            assert(s[i as int] == op.axes.axes@[i as int]@);
            assert forall|x: int| 0 <= x < ax.inputs@[0]@.len() implies (#[trigger] ax.inputs@[0]@[x]) < usize::MAX by {
                assert(s[i as int].a[x] < v.ra);
            }
            assert forall|x: int| 0 <= x < ax.inputs@[1]@.len() implies (#[trigger] ax.inputs@[1]@[x]) < usize::MAX by {
                assert(s[i as int].b[x] < v.rb);
            }
            assert forall|x: int| 0 <= x < ax.outputs@.len() implies (#[trigger] ax.outputs@[x]) < usize::MAX by {
                assert(s[i as int].o[x] < v.rc);
            }
        }
        let linked = match qopt {
            Some(q) => q == i,
            None => false,
        };
        let a_new: Vec<usize>;
        let b_new: Vec<usize>;
        let o_new: Vec<usize>;
        if is_n {
            a_new = copy_positions(&ax.inputs[0]);
            b_new = if linked {
                single_pos(at)
            } else {
                shift_positions(&ax.inputs[1], at)
            };
            o_new = copy_positions(&ax.outputs);
        } else {
            a_new = if linked {
                single_pos(pos)
            } else {
                shift_positions(&ax.inputs[0], pos)
            };
            b_new = copy_positions(&ax.inputs[1]);
            o_new = if qopt.is_some() {
                copy_positions(&ax.outputs)
            } else {
                shift_positions(&ax.outputs, po)
            };
        }
        let mut ins: Vec<Vec<usize>> = Vec::new();
        ins.push(a_new);
        ins.push(b_new);
        let na = Axis { label: ax.label, inputs: ins, outputs: o_new };
        proof {
            assert(na.wf());
            assert(na@ == target[i as int]) by {
                assert(na@.a =~= target[i as int].a);
                assert(na@.b =~= target[i as int].b);
                assert(na@.o =~= target[i as int].o);
            }
        }
        new_axes.push(na);
        i += 1;
    }
    if qopt.is_none() {
        let fresh_label: u8 = if is_n {
            110
        } else {
            109
        };
        let a_new: Vec<usize> = if is_n {
            Vec::new()
        } else {
            single_pos(pos)
        };
        let b_new: Vec<usize> = if is_n {
            single_pos(at)
        } else {
            Vec::new()
        };
        let o_new: Vec<usize> = single_pos(po);
        let mut ins: Vec<Vec<usize>> = Vec::new();
        ins.push(a_new);
        ins.push(b_new);
        let na = Axis { label: fresh_label, inputs: ins, outputs: o_new };
        proof {
            assert(na.wf());
            assert(target.len() == s.len() + 1);
            assert(na@ == target[s.len() as int]) by {
                assert(na@.a =~= target[s.len() as int].a);
                assert(na@.b =~= target[s.len() as int].b);
                assert(na@.o =~= target[s.len() as int].o);
            }
        }
        new_axes.push(na);
    }
    let new_mapping = AxesMapping { axes: new_axes };
    proof {
        assert(new_mapping@ =~= target);
        assert(new_mapping.wf());
        if is_n {
            lemma_inj_n_positions(s, pos as int, v.ra, v.rb, v.rc);
        } else {
            lemma_inj_m_positions(s, pos as int, v.ra, v.rb, v.rc);
        }
    }
    let new_op = EinSumOp {
        axes: new_mapping,
        operating_dt: op.operating_dt,
        q_params: op.q_params,
    };
    let r = Patch::Inject {
        node,
        fix_input: if is_n {
            1
        } else {
            0
        },
        input_pos: at,
        output_pos: if qopt.is_some() {
            None
        } else {
            Some(po)
        },
        new_op,
    };
    proof {
        assert(r.valid_for(*model));
    }
    r
}


/// One rewriting decision for an einsum node: preserve it when quantization
/// parameters are present; otherwise classify its axes and produce either
/// the direct lowering patch or an axis-injection patch, or the error the
/// classification outcome dictates.
pub fn step(op: &EinSumOp, model: &Graph, node: usize) -> (r: Result<Option<Patch>, CoreError>)
    requires
        model.wf(),
        node < model.nodes@.len(),
        model.nodes@[node as int].op == Operator::EinSum(*op),
    ensures
        ({
            let v = ein_view(model.nodes@, node as int);
            &&& (op.q_params is Some ==> r == Ok::<Option<Patch>, CoreError>(None))
            &&& (op.q_params is None ==> {
                &&& (!(roles_ok(v.s) && has_k(v.s)) <==> r == Result::<
                    Option<Patch>,
                    CoreError,
                >::Err(CoreError::UnsupportedContraction))
                &&& (roles_ok(v.s) && has_k(v.s) && m_missing(v.s) ==> (r matches Ok(p) && p
                    matches Some(q) && inject_patch_ok(q, v, node, false, *op) && q.valid_for(
                    *model,
                )))
                &&& (roles_ok(v.s) && has_k(v.s) && !m_missing(v.s) && n_missing(v.s) ==> (r
                    matches Ok(p) && p matches Some(q) && inject_patch_ok(q, v, node, true, *op)
                    && q.valid_for(*model)))
                &&& (roles_ok(v.s) && has_k(v.s) && !m_missing(v.s) && !n_missing(v.s) ==> {
                    if direct_ok(v) && facts_aligned(v, facts_view(model.nodes@, node as int)) {
                        r == Ok::<Option<Patch>, CoreError>(
                            Some(
                                Patch::Replace {
                                    node,
                                    op: Operator::MatMul(lower_op(v)),
                                },
                            ),
                        )
                    } else {
                        r == Result::<Option<Patch>, CoreError>::Err(CoreError::InternalConsistency)
                    }
                })
            })
            &&& (r is Err ==> (r->Err_0 == CoreError::UnsupportedContraction || r->Err_0
                == CoreError::InternalConsistency))
        }),
{
    let ghost v = ein_view(model.nodes@, node as int);
    let ghost s = op.axes@;
    if op.q_params.is_some() {
        return Ok(None);
    }
    proof {
        assert(node_wf(model.nodes@, node as int));
        assert(v.s == s);
    }
    let (m_ax, k_ax, n_ax) = match choose_mkn_axes(&op.axes) {
        Ok(t) => t,
        Err(e) => {
            return Err(e);
        },
    };
    let k_i = match k_ax {
        Some(k) => k,
        None => {
            return Err(CoreError::UnsupportedContraction);
        },
    };
    let m_i = match m_ax {
        Some(m) => m,
        None => {
            return Ok(Some(inject_m_or_n_axis(op, model, node, false)));
        },
    };
    let n_i = match n_ax {
        Some(n) => n,
        None => {
            return Ok(Some(inject_m_or_n_axis(op, model, node, true)));
        },
    };
    let a_id = model.nodes[node].inputs[0];
    let b_id = model.nodes[node].inputs[1];
    let rank = model.nodes[a_id].fact.shape.len();
    let rb = model.nodes[b_id].fact.shape.len();
    let rc = model.nodes[node].fact.shape.len();
    if rb != rank || rc != rank {
        return Err(CoreError::InternalConsistency);
    }
    proof {
        assert(op.axes.axes@[m_i as int].wf());
        assert(s[m_i as int] == op.axes.axes@[m_i as int]@);
        assert(m_good(s[m_i as int]));
        assert(op.axes.axes@[k_i as int].wf());
        assert(s[k_i as int] == op.axes.axes@[k_i as int]@);
        assert(k_good(s[k_i as int]));
        assert(op.axes.axes@[n_i as int].wf());
        assert(s[n_i as int] == op.axes.axes@[n_i as int]@);
        assert(n_good(s[n_i as int]));
    }
    let a_m = op.axes.axes[m_i].inputs[0][0];
    let a_k = op.axes.axes[k_i].inputs[0][0];
    let b_k = op.axes.axes[k_i].inputs[1][0];
    let b_n = op.axes.axes[n_i].inputs[1][0];
    let c_m = op.axes.axes[m_i].outputs[0];
    let c_n = op.axes.axes[n_i].outputs[0];
    let lim = if rank >= 2 {
        rank - 2
    } else {
        0
    };
    if a_m < lim || a_k < lim || b_k < lim || b_n < lim || c_m < lim || c_n < lim {
        return Err(CoreError::InternalConsistency);
    }
    if a_m == a_k || b_k == b_n || c_m == c_n {
        return Err(CoreError::InternalConsistency);
    }
    let mm = BasicMatMul { transpose_a: a_m > a_k, transpose_b: b_k > b_n, transpose_c: c_m > c_n };
    let ghost fv = facts_view(model.nodes@, node as int);
    proof {
        assert(direct_ok(v));
        assert(mm == lower_op(v));
        assert(fv.sa == model.nodes@[a_id as int].fact.shape@);
        assert(fv.sb == model.nodes@[b_id as int].fact.shape@);
        assert(fv.sc == model.nodes@[node as int].fact.shape@);
        // the two involved positions per tensor are exactly the trailing two
        assert(s[k_i as int].a[0] < v.ra);
        assert(s[m_i as int].a[0] < v.ra);
        assert(s[k_i as int].b[0] < v.rb);
        assert(s[n_i as int].b[0] < v.rb);
        assert(a_k as int == crate::matmul::a_k_pos(mm.transpose_a, rank as int));
        assert(b_k as int == crate::matmul::b_k_pos(mm.transpose_b, rank as int));
    }
    if model.nodes[a_id].fact.shape[a_k] != model.nodes[b_id].fact.shape[b_k] {
        proof {
            assert(!mm_facts_ok(mm.transpose_a, mm.transpose_b, fv.sa, fv.sb));
            assert(!facts_aligned(v, fv));
        }
        return Err(CoreError::InternalConsistency);
    }
    if model.nodes[node].fact.datum_type != model.nodes[a_id].fact.datum_type {
        proof {
            assert(!facts_aligned(v, fv));
        }
        return Err(CoreError::InternalConsistency);
    }
    let expected = mm.output_shape(&model.nodes[a_id].fact.shape, &model.nodes[b_id].fact.shape);
    if !same_extents(&expected, &model.nodes[node].fact.shape) {
        proof {
            assert(expected@ == mm_output_shape(mm.transpose_a, mm.transpose_b, mm.transpose_c, fv.sa, fv.sb));
            assert(!facts_aligned(v, fv));
        }
        return Err(CoreError::InternalConsistency);
    }
    proof {
        assert(mm_facts_ok(mm.transpose_a, mm.transpose_b, fv.sa, fv.sb));
        assert(facts_aligned(v, fv));
    }
    Ok(Some(Patch::Replace { node, op: Operator::MatMul(mm) }))
}

/// Whether two extent lists are equal.
fn same_extents(x: &Vec<usize>, y: &Vec<usize>) -> (r: bool)
    ensures
        r == (x@ == y@),
{
    if x.len() != y.len() {
        proof {
            assert(x@.len() != y@.len());
        }
        return false;
    }
    let mut i: usize = 0;
    while i < x.len()
        invariant
            x@.len() == y@.len(),
            i <= x@.len(),
            forall|l: int| 0 <= l < i ==> #[trigger] x@[l] == y@[l],
        decreases x@.len() - i,
    {
        if x[i] != y[i] {
            return false;
        }
        i += 1;
    }
    proof {
        assert(x@ =~= y@);
    }
    true
}

/// The rewriting work an operator still asks for: one step for the lowering
/// itself and one for each missing free axis.
pub open spec fn op_weight(op: Operator) -> int {
    match op {
        Operator::EinSum(e) => 1 + missing_count(e.axes@),
        _ => 0,
    }
}

/// Total weight of the nodes from index `i` on.
pub open spec fn measure_from(nodes: Seq<Node>, i: int) -> int
    decreases nodes.len() - i,
{
    if 0 <= i < nodes.len() {
        op_weight(nodes[i].op) + measure_from(nodes, i + 1)
    } else {
        0
    }
}

/// Weights are nonnegative, and so is every suffix total.
pub proof fn lemma_measure_nonneg(nodes: Seq<Node>, i: int)
    ensures
        measure_from(nodes, i) >= 0,
    decreases nodes.len() - i,
{
    if 0 <= i < nodes.len() {
        lemma_measure_nonneg(nodes, i + 1);
    }
}

/// Two suffixes of equal length and equal per-node weights have one total.
pub proof fn lemma_measure_shift(s1: Seq<Node>, i1: int, s2: Seq<Node>, i2: int)
    requires
        0 <= i1 <= s1.len(),
        0 <= i2 <= s2.len(),
        s1.len() - i1 == s2.len() - i2,
        forall|d: int|
            0 <= d < s1.len() - i1 ==> op_weight((#[trigger] s1[i1 + d]).op) == op_weight(
                s2[i2 + d].op,
            ),
    ensures
        measure_from(s1, i1) == measure_from(s2, i2),
    decreases s1.len() - i1,
{
    if i1 < s1.len() {
        assert(op_weight(s1[i1 + 0].op) == op_weight(s2[i2 + 0].op));
        assert forall|d: int|
            0 <= d < s1.len() - (i1 + 1) implies op_weight((#[trigger] s1[i1 + 1 + d]).op)
            == op_weight(s2[i2 + 1 + d].op) by {
            assert(op_weight(s1[i1 + (d + 1)].op) == op_weight(s2[i2 + (d + 1)].op));
        }
        lemma_measure_shift(s1, i1 + 1, s2, i2 + 1);
    }
}


/// One old node's correspondent in a rewritten graph: its fact survives,
/// and a node that is not an unquantized contraction keeps its operator,
/// name and input edges, the edges renumbered through the map.
pub open spec fn node_preserved(olds: Seq<Node>, news: Seq<Node>, f: Seq<int>, j: int) -> bool {
    &&& 0 <= f[j] < news.len()
    &&& news[f[j]].fact.shape@ == olds[j].fact.shape@
    &&& news[f[j]].fact.datum_type == olds[j].fact.datum_type
    &&& (!olds[j].op.is_plain_einsum() ==> {
        &&& news[f[j]].op == olds[j].op
        &&& news[f[j]].name == olds[j].name
        &&& news[f[j]].inputs@.len() == olds[j].inputs@.len()
        &&& forall|x: int|
            0 <= x < olds[j].inputs@.len() ==> (#[trigger] news[f[j]].inputs@[x]) as int
                == f[olds[j].inputs@[x] as int]
    })
}

/// An order-preserving correspondence from the nodes of one graph into a
/// rewrite of it: every node's identity survives at its mapped index with
/// its output fact, every node that is not an unquantized contraction
/// survives whole, and the last node maps to the last node.
pub open spec fn preserved_map(olds: Seq<Node>, news: Seq<Node>, f: Seq<int>) -> bool {
    &&& f.len() == olds.len()
    &&& forall|j1: int, j2: int| 0 <= j1 < j2 < olds.len() ==> #[trigger] f[j1] < #[trigger] f[j2]
    &&& (olds.len() > 0 ==> f[olds.len() - 1] == news.len() - 1)
    &&& forall|j: int| 0 <= j < olds.len() ==> #[trigger] node_preserved(olds, news, f, j)
}

/// The identity correspondence.
pub open spec fn ident_map(n: int) -> Seq<int> {
    Seq::new(n as nat, |j: int| j)
}

/// The correspondence after `nn` nodes entered at index `t`.
pub open spec fn remap_map(f: Seq<int>, t: int, nn: int) -> Seq<int> {
    f.map_values(|i: int| remap_idx(i, t, nn))
}

/// A graph corresponds to itself by the identity.
proof fn lemma_preserved_refl(nodes: Seq<Node>)
    requires
        forall|n: int| 0 <= n < nodes.len() ==> #[trigger] node_wf(nodes, n),
    ensures
        preserved_map(nodes, nodes, ident_map(nodes.len() as int)),
{
    let f = ident_map(nodes.len() as int);
    assert forall|j: int| 0 <= j < nodes.len() implies #[trigger] node_preserved(
        nodes,
        nodes,
        f,
        j,
    ) by {
        assert(node_wf(nodes, j));
        assert(f[j] == j);
        if !nodes[j].op.is_plain_einsum() {
            assert forall|x: int| 0 <= x < nodes[j].inputs@.len() implies (#[trigger] nodes[f[j]].inputs@[x])
                as int == f[nodes[j].inputs@[x] as int] by {
                assert(nodes[j].inputs@[x] < j);
                assert(f[nodes[j].inputs@[x] as int] == nodes[j].inputs@[x] as int);
            }
        }
    }
}

/// Substituting the operator of a corresponded contraction keeps the
/// correspondence.
proof fn lemma_preserved_replace(
    olds: Seq<Node>,
    cur: Seq<Node>,
    news: Seq<Node>,
    f: Seq<int>,
    t: int,
)
    requires
        preserved_map(olds, cur, f),
        0 <= t < cur.len(),
        cur[t].op.is_plain_einsum(),
        news.len() == cur.len(),
        forall|j: int| 0 <= j < cur.len() && j != t ==> news[j] == cur[j],
        news[t].fact == cur[t].fact,
    ensures
        preserved_map(olds, news, f),
{
    assert forall|j: int| 0 <= j < olds.len() implies #[trigger] node_preserved(
        olds,
        news,
        f,
        j,
    ) by {
        assert(node_preserved(olds, cur, f, j));
        if f[j] == t {
            if !olds[j].op.is_plain_einsum() {
                assert(cur[t].op == olds[j].op);
                assert(false);
            }
        } else {
            assert(news[f[j]] == cur[f[j]]);
        }
    }
}

/// An injection patch keeps the correspondence, renumbered.
proof fn lemma_preserved_inject(
    olds: Seq<Node>,
    cur: Seq<Node>,
    news: Seq<Node>,
    f: Seq<int>,
    t: int,
    fix: int,
    ipos: usize,
    opos: Option<usize>,
    new_op: EinSumOp,
    nn: int,
)
    requires
        preserved_map(olds, cur, f),
        inject_result(cur, news, t, fix, ipos, opos, new_op, nn),
        0 <= t < cur.len(),
        cur[t].op.is_plain_einsum(),
        forall|n: int| 0 <= n < olds.len() ==> #[trigger] node_wf(olds, n),
    ensures
        preserved_map(olds, news, remap_map(f, t, nn)),
{
    let f1 = remap_map(f, t, nn);
    assert(nn == 1 || nn == 2);
    assert forall|j1: int, j2: int| 0 <= j1 < j2 < olds.len() implies #[trigger] f1[j1]
        < #[trigger] f1[j2] by {
        assert(f[j1] < f[j2]);
    }
    if olds.len() > 0 {
        assert(f[olds.len() - 1] == cur.len() - 1);
        assert(f1[olds.len() - 1] == news.len() - 1);
    }
    assert forall|j: int| 0 <= j < olds.len() implies #[trigger] node_preserved(
        olds,
        news,
        f1,
        j,
    ) by {
        assert(node_preserved(olds, cur, f, j));
        if f[j] < t {
            assert(news[f[j]] == cur[f[j]]);
            assert(f1[j] == f[j]);
            if !olds[j].op.is_plain_einsum() {
                assert forall|x: int| 0 <= x < olds[j].inputs@.len() implies (#[trigger] news[f1[j]].inputs@[x])
                    as int == f1[olds[j].inputs@[x] as int] by {
                    let i = olds[j].inputs@[x] as int;
                    assert(node_wf(olds, j));
                    assert(0 <= i < j);
                    assert(cur[f[j]].inputs@[x] as int == f[i]);
                    assert(f[i] < f[j]);
                    assert(f1[i] == remap_idx(f[i], t, nn));
                }
            }
        } else if f[j] == t {
            assert(f1[j] == t + nn);
            if opos is Some {
                assert(news[t + 2].fact.shape@ == cur[t].fact.shape@);
            } else {
                assert(news[t + 1].fact.shape@ == cur[t].fact.shape@);
            }
            if !olds[j].op.is_plain_einsum() {
                assert(cur[t].op == olds[j].op);
                assert(false);
            }
        } else {
            let d = f[j] - t - 1;
            assert(0 <= d < cur.len() - t - 1);
            assert((news[t + nn + 1 + d]).op == cur[t + 1 + d].op);
            assert(f1[j] == t + nn + 1 + d);
            assert(news[f1[j]].fact == cur[f[j]].fact);
            if !olds[j].op.is_plain_einsum() {
                assert forall|x: int| 0 <= x < olds[j].inputs@.len() implies (#[trigger] news[f1[j]].inputs@[x])
                    as int == f1[olds[j].inputs@[x] as int] by {
                    let i = olds[j].inputs@[x] as int;
                    assert(node_wf(olds, j));
                    assert(0 <= i < j);
                    assert(cur[f[j]].inputs@[x] as int == f[i]);
                    assert(news[t + nn + 1 + d].inputs@[x] as int == remap_idx(
                        cur[t + 1 + d].inputs@[x] as int,
                        t,
                        nn,
                    ));
                    assert(f1[i] == remap_idx(f[i], t, nn));
                }
            }
        }
    }
}

/// The correspondent of the mapped node never stands before it.
proof fn lemma_preserved_map_ge(olds: Seq<Node>, news: Seq<Node>, f: Seq<int>, j: int)
    requires
        preserved_map(olds, news, f),
        0 <= j < olds.len(),
    ensures
        f[j] >= j,
    decreases j,
{
    if j > 0 {
        lemma_preserved_map_ge(olds, news, f, j - 1);
        assert(f[j - 1] < f[j]);
    } else {
        assert(node_preserved(olds, news, f, 0));
    }
}

/// A rewrite at an unquantized contraction's index leaves every node of
/// the leading contraction-free region alone: that region lies strictly
/// before the rewritten index.
proof fn lemma_prefix_kept(base: Seq<Node>, cur: Seq<Node>, news: Seq<Node>, t: int)
    requires
        0 <= t < cur.len(),
        cur[t].op.is_plain_einsum(),
        forall|j: int|
            0 <= j < base.len() && #[trigger] einsum_free_prefix(base, j) ==> j < cur.len()
                && cur[j] == base[j],
        forall|j: int| 0 <= j < t ==> news[j] == cur[j],
        news.len() >= cur.len(),
    ensures
        forall|j: int|
            0 <= j < base.len() && #[trigger] einsum_free_prefix(base, j) ==> j < news.len()
                && news[j] == base[j],
{
    assert forall|j: int|
        0 <= j < base.len() && #[trigger] einsum_free_prefix(base, j) implies j < news.len()
        && news[j] == base[j] by {
        assert(cur[j] == base[j]);
        if j >= t {
            assert(einsum_free_prefix(base, t)) by {
                assert forall|l: int| 0 <= l <= t implies !(#[trigger] base[l].op).is_plain_einsum() by {
                    assert(0 <= l <= j);
                }
            }
            assert(cur[t] == base[t]);
            assert(!base[t].op.is_plain_einsum());
            assert(false);
        }
        assert(news[j] == cur[j]);
    }
}

/// Nothing before the first unquantized contraction of a graph.
pub open spec fn einsum_free_prefix(nodes: Seq<Node>, j: int) -> bool {
    forall|l: int| 0 <= l <= j ==> !(#[trigger] nodes[l].op).is_plain_einsum()
}

/// Every unquantized contraction in the graph can be fully lowered.
pub open spec fn all_plain_lowerable(g: Graph) -> bool {
    forall|n: int|
        0 <= n < g.nodes@.len() && (#[trigger] g.nodes@[n].op).is_plain_einsum() ==> lowerable(
            g.nodes@,
            n,
        )
}

/// Rewrite the graph in place until no unquantized generic contraction
/// survives: scan the evaluation order; lower each classifiable einsum to
/// the batched matrix multiply; grow degenerate ones by a unit axis and
/// rescan them. Succeeds exactly when every unquantized contraction
/// decomposes; contractions with quantization parameters are preserved.
#[verifier::rlimit(100)]
pub fn decompose_einsums_in_place(model: &mut Graph) -> (r: Result<(), CoreError>)
    requires
        old(model).wf(),
    ensures
        final(model).wf(),
        r is Ok <==> all_plain_lowerable(*old(model)),
        r is Ok ==> forall|j: int|
            0 <= j < final(model).nodes@.len() ==> !(#[trigger] final(model).nodes@[j].op).is_plain_einsum(),
        exists|f: Seq<int>| preserved_map(old(model).nodes@, final(model).nodes@, f),
        forall|j: int|
            0 <= j < old(model).nodes@.len() && #[trigger] einsum_free_prefix(
                old(model).nodes@,
                j,
            ) ==> j < final(model).nodes@.len() && final(model).nodes@[j] == old(model).nodes@[j],
        r is Err ==> (r->Err_0 == CoreError::UnsupportedContraction || r->Err_0
            == CoreError::InternalConsistency),
{
    proof {
        lemma_preserved_refl(model.nodes@);
    }
    let mut n: usize = 0;
    while n < model.nodes.len()
        invariant
            old(model).wf(),
            model.wf(),
            n <= model.nodes@.len(),
            forall|j: int| 0 <= j < n ==> !(#[trigger] model.nodes@[j].op).is_plain_einsum(),
            all_plain_lowerable(*model) == all_plain_lowerable(*old(model)),
            exists|f: Seq<int>| preserved_map(old(model).nodes@, model.nodes@, f),
            forall|j: int|
                0 <= j < old(model).nodes@.len() && #[trigger] einsum_free_prefix(
                    old(model).nodes@,
                    j,
                ) ==> j < model.nodes@.len() && model.nodes@[j] == old(model).nodes@[j],
        decreases measure_from(model.nodes@, n as int), model.nodes@.len() - n,
    {
        let ghost pre = *model;
        let ghost v = ein_view(model.nodes@, n as int);
        let do_step = match &model.nodes[n].op {
            Operator::EinSum(e) => Some(step(e, model, n)),
            _ => None,
        };
        match do_step {
            None => {
                proof {
                    assert(op_weight(model.nodes@[n as int].op) == 0);
                    assert(measure_from(model.nodes@, n as int) == measure_from(
                        model.nodes@,
                        n as int + 1,
                    ));
                    lemma_measure_nonneg(model.nodes@, n as int + 1);
                }
                n += 1;
            },
            Some(Err(e)) => {
                proof {
                    assert(model.nodes@[n as int].op.is_plain_einsum());
                    assert(!lowerable(model.nodes@, n as int)) by {
                        if roles_ok(v.s) && has_k(v.s) {
                            assert(!m_missing(v.s) && !n_missing(v.s));
                            if direct_ok(v) {
                                assert(!facts_aligned(v, facts_view(model.nodes@, n as int)));
                                assert(!dec_aligned(v, facts_view(model.nodes@, n as int)));
                            } else {
                                assert(!dec(v));
                            }
                        }
                    }
                    assert(!all_plain_lowerable(*model));
                    assert(!all_plain_lowerable(*old(model)));
                }
                return Err(e);
            },
            Some(Ok(None)) => {
                proof {
                    assert(!model.nodes@[n as int].op.is_plain_einsum());
                    lemma_measure_nonneg(model.nodes@, n as int + 1);
                    assert(measure_from(model.nodes@, n as int) >= measure_from(
                        model.nodes@,
                        n as int + 1,
                    ));
                }
                n += 1;
            },
            Some(Ok(Some(p))) => {
                let is_replace = matches!(p, Patch::Replace { .. });
                let ghost patch = p;
                proof {
                    assert(node_wf(pre.nodes@, n as int));
                    if is_replace {
                        assert(patch == (Patch::Replace {
                            node: n,
                            op: Operator::MatMul(lower_op(v)),
                        }));
                        assert(pre.nodes@[n as int].op.arity() == 2);
                        assert(patch.valid_for(pre));
                        assert(direct_ok(v));
                        assert(dec(v));
                        assert(facts_aligned(v, facts_view(pre.nodes@, n as int)));
                        assert(dec_aligned(v, facts_view(pre.nodes@, n as int)));
                        assert(lowerable(pre.nodes@, n as int));
                    }
                }
                p.apply(model);
                proof {
                    let news = model.nodes@;
                    let olds = pre.nodes@;
                    if is_replace {
                        // every other contraction is untouched; this one was
                        // decomposable and is now lowered
                        assert forall|j: int|
                            0 <= j < news.len() && (#[trigger] news[j].op).is_plain_einsum()
                                implies (j != n && olds[j].op.is_plain_einsum() && ein_view(news, j)
                            == ein_view(olds, j) && facts_view(news, j) == facts_view(olds, j)) by {
                            assert(news[j] == olds[j]);
                        }
                        assert(all_plain_lowerable(*model) == all_plain_lowerable(pre)) by {
                            if all_plain_lowerable(pre) {
                                assert forall|j: int|
                                    0 <= j < news.len() && (#[trigger] news[j].op).is_plain_einsum()
                                        implies lowerable(news, j) by {
                                    assert(lowerable(olds, j));
                                }
                            }
                            if all_plain_lowerable(*model) {
                                assert forall|j: int|
                                    0 <= j < olds.len() && (#[trigger] olds[j].op).is_plain_einsum()
                                        implies lowerable(olds, j) by {
                                    if j != n {
                                        assert(news[j].op.is_plain_einsum());
                                        assert(lowerable(news, j));
                                        assert(ein_view(news, j) == ein_view(olds, j));
                                        assert(facts_view(news, j) == facts_view(olds, j));
                                    }
                                }
                            }
                        }
                        // the suffix weights agree and this node's weight fell
                        assert forall|d: int|
                            0 <= d < news.len() - (n + 1) implies op_weight(
                            (#[trigger] news[n + 1 + d]).op,
                        ) == op_weight(olds[n + 1 + d].op) by {
                            assert(news[n + 1 + d] == olds[n + 1 + d]);
                        }
                        lemma_measure_shift(news, n as int + 1, olds, n as int + 1);
                        assert(op_weight(olds[n as int].op) >= 1);
                        lemma_measure_nonneg(news, n as int + 1);
                        assert(measure_from(news, n as int + 1) < measure_from(olds, n as int));
                        // identity of every node survives the in-place substitution
                        let f0 = choose|f: Seq<int>|
                            preserved_map(old(model).nodes@, olds, f);
                        lemma_preserved_replace(old(model).nodes@, olds, news, f0, n as int);
                        assert(preserved_map(old(model).nodes@, news, f0));
                        lemma_prefix_kept(old(model).nodes@, olds, news, n as int);
                    } else {
                        let is_n_inj = !m_missing(v.s);
                        assert(roles_ok(v.s) && has_k(v.s));
                        assert(inject_patch_ok(patch, v, n, is_n_inj, olds[n as int].op->EinSum_0));
                        let nn = patch.added();
                        let v1 = ein_view(news, n as int + 1);
                        assert(v1 == inj_view(v, is_n_inj));
                        let fo = facts_view(olds, n as int);
                        let f1 = facts_view(news, n as int + 1);
                        assert(f1 == inj_facts(fo, v, is_n_inj)) by {
                            assert(f1.sa =~= inj_facts(fo, v, is_n_inj).sa);
                            assert(f1.sb =~= inj_facts(fo, v, is_n_inj).sb);
                            assert(f1.sc =~= inj_facts(fo, v, is_n_inj).sc);
                        }
                        if is_n_inj {
                            lemma_dec_inj_n(v, fo);
                        } else {
                            lemma_dec_inj_m(v, fo);
                        }
                        assert(dec(v1) == dec(v));
                        assert(dec_aligned(v1, f1) == dec_aligned(v, fo));
                        assert(lowerable(news, n as int + 1) == lowerable(olds, n as int));
                        assert(missing_count(v1.s) == missing_count(v.s) - 1);
                        assert(news[n as int + 1].op.is_plain_einsum());
                        assert(op_weight(news[n as int + 1].op) == op_weight(olds[n as int].op)
                            - 1);
                        // decomposability is preserved node for node
                        assert(all_plain_lowerable(*model) == all_plain_lowerable(pre)) by {
                            if all_plain_lowerable(pre) {
                                assert forall|j: int|
                                    0 <= j < news.len() && (#[trigger] news[j].op).is_plain_einsum()
                                        implies lowerable(news, j) by {
                                    if j < n {
                                        assert(news[j] == olds[j]);
                                        assert(lowerable(olds, j));
                                        assert(ein_view(news, j) == ein_view(olds, j));
                                        assert(facts_view(news, j) == facts_view(olds, j));
                                    } else if j == n as int + 1 {
                                        assert(lowerable(olds, n as int));
                                    } else if j >= n + nn + 1 {
                                        let d = j - n - nn - 1;
                                        assert((news[n + nn + 1 + d]).op == olds[n + 1 + d].op);
                                        assert(olds[n + 1 + d].op.is_plain_einsum());
                                        assert(lowerable(olds, n + 1 + d));
                                        assert(ein_view(news, n + nn + 1 + d) == ein_view(
                                            olds,
                                            n + 1 + d,
                                        ));
                                        assert(facts_view(news, n + nn + 1 + d) == facts_view(
                                            olds,
                                            n + 1 + d,
                                        ));
                                    } else {
                                        assert(j == n || (patch.added() == 2 && j == n as int
                                            + 2));
                                        assert(!news[j].op.is_plain_einsum());
                                    }
                                }
                            }
                            if all_plain_lowerable(*model) {
                                assert forall|j: int|
                                    0 <= j < olds.len() && (#[trigger] olds[j].op).is_plain_einsum()
                                        implies lowerable(olds, j) by {
                                    if j < n {
                                        assert(news[j] == olds[j]);
                                        assert(news[j].op.is_plain_einsum());
                                        assert(lowerable(news, j));
                                        assert(ein_view(news, j) == ein_view(olds, j));
                                        assert(facts_view(news, j) == facts_view(olds, j));
                                    } else if j == n {
                                        assert(news[n as int + 1].op.is_plain_einsum());
                                        assert(lowerable(news, n as int + 1));
                                    } else {
                                        let d = j - n - 1;
                                        assert((news[n + nn + 1 + d]).op == olds[n + 1 + d].op);
                                        assert(news[n + nn + 1 + d].op.is_plain_einsum());
                                        assert(lowerable(news, n + nn + 1 + d));
                                        assert(ein_view(news, n + nn + 1 + d) == ein_view(
                                            olds,
                                            n + 1 + d,
                                        ));
                                        assert(facts_view(news, n + nn + 1 + d) == facts_view(
                                            olds,
                                            n + 1 + d,
                                        ));
                                    }
                                }
                            }
                        }
                        // the total work strictly fell: the adapters weigh
                        // nothing and the contraction lost a missing axis
                        assert forall|d: int|
                            0 <= d < news.len() - (n + nn + 1) implies op_weight(
                            (#[trigger] news[n + nn + 1 + d]).op,
                        ) == op_weight(olds[n + 1 + d].op) by {}
                        lemma_measure_shift(news, n as int + nn + 1, olds, n as int + 1);
                        assert(op_weight(news[n as int].op) == 0);
                        if nn == 2 {
                            assert(op_weight(news[n as int + 2].op) == 0);
                            assert(measure_from(news, n as int) == op_weight(news[n as int].op)
                                + measure_from(news, n as int + 1));
                            assert(measure_from(news, n as int + 1) == op_weight(
                                news[n as int + 1].op,
                            ) + measure_from(news, n as int + 2));
                            assert(measure_from(news, n as int + 2) == op_weight(
                                news[n as int + 2].op,
                            ) + measure_from(news, n as int + 3));
                        } else {
                            assert(measure_from(news, n as int) == op_weight(news[n as int].op)
                                + measure_from(news, n as int + 1));
                            assert(measure_from(news, n as int + 1) == op_weight(
                                news[n as int + 1].op,
                            ) + measure_from(news, n as int + 2));
                        }
                        assert(measure_from(olds, n as int) == op_weight(olds[n as int].op)
                            + measure_from(olds, n as int + 1));
                        assert(measure_from(news, n as int) == measure_from(olds, n as int) - 1);
                        lemma_measure_nonneg(news, n as int);
                        // identity of every node survives, renumbered past the
                        // inserted adapters
                        let f0 = choose|f: Seq<int>|
                            preserved_map(old(model).nodes@, olds, f);
                        lemma_preserved_inject(
                            old(model).nodes@,
                            olds,
                            news,
                            f0,
                            n as int,
                            patch->Inject_fix_input as int,
                            patch->Inject_input_pos,
                            patch->Inject_output_pos,
                            patch->Inject_new_op,
                            nn,
                        );
                        assert(preserved_map(
                            old(model).nodes@,
                            news,
                            remap_map(f0, n as int, nn),
                        ));
                        lemma_prefix_kept(old(model).nodes@, olds, news, n as int);
                    }
                }
                if is_replace {
                    n += 1;
                }
            },
        }
    }
    proof {
        assert(all_plain_lowerable(*model));
    }
    Ok(())
}


/// A deep copy of an axis mapping.
fn clone_axes(m: &AxesMapping) -> (r: AxesMapping)
    requires
        m.wf(),
    ensures
        r@ == m@,
        r.wf(),
{
    let mut axes: Vec<Axis> = Vec::new();
    let mut i: usize = 0;
    while i < m.axes.len()
        invariant
            m.wf(),
            i <= m.axes@.len(),
            axes@.len() == i,
            forall|l: int| 0 <= l < i ==> (#[trigger] axes@[l])@ == m@[l],
            forall|l: int| 0 <= l < i ==> (#[trigger] axes@[l]).wf(),
        decreases m.axes@.len() - i,
    {
        let ax = &m.axes[i];
        proof {
            assert(m.axes@[i as int].wf());
            assert(m@[i as int] == m.axes@[i as int]@);
        }
        let a_new = copy_positions(&ax.inputs[0]);
        let b_new = copy_positions(&ax.inputs[1]);
        let o_new = copy_positions(&ax.outputs);
        let mut ins: Vec<Vec<usize>> = Vec::new();
        ins.push(a_new);
        ins.push(b_new);
        let na = Axis { label: ax.label, inputs: ins, outputs: o_new };
        proof {
            assert(na@ == m@[i as int]) by {
                assert(na@.a =~= m@[i as int].a);
                assert(na@.b =~= m@[i as int].b);
                assert(na@.o =~= m@[i as int].o);
            }
        }
        axes.push(na);
        i += 1;
    }
    let r = AxesMapping { axes };
    proof {
        assert(r@ =~= m@);
    }
    r
}

/// A copy of a fact.
fn clone_fact(f: &TensorFact) -> (r: TensorFact)
    ensures
        r.datum_type == f.datum_type,
        r.shape@ == f.shape@,
{
    TensorFact { datum_type: f.datum_type, shape: copy_positions(&f.shape) }
}

/// Lower one contraction independently of its surrounding graph: build a
/// minimal substitute graph of fresh placeholder sources (facts preserved,
/// values discarded) wired into a copy of the node's operator, run the
/// in-place pass on it, and return it.
pub fn decompose(op: &EinSumOp, model: &Graph, node: usize) -> (r: Result<Graph, CoreError>)
    requires
        model.wf(),
        node < model.nodes@.len(),
        model.nodes@[node as int].op == Operator::EinSum(*op),
    ensures
        r is Ok <==> (op.q_params is Some || lowerable(model.nodes@, node as int)),
        r matches Ok(g) ==> {
            &&& g.wf()
            &&& forall|j: int|
                0 <= j < g.nodes@.len() ==> !(#[trigger] g.nodes@[j].op).is_plain_einsum()
        },
        r matches Ok(g) ==> ({
            let k = model.nodes@[node as int].inputs@.len() as int;
            &&& g.nodes@.len() > k
            &&& forall|l: int|
                0 <= l < k ==> {
                    &&& (#[trigger] g.nodes@[l]).op == Operator::Source
                    &&& g.nodes@[l].inputs@.len() == 0
                    &&& g.nodes@[l].fact.shape@ == model.nodes@[model.nodes@[node as int].inputs@[l] as int].fact.shape@
                    &&& g.nodes@[l].fact.datum_type == model.nodes@[model.nodes@[node as int].inputs@[l] as int].fact.datum_type
                }
            &&& g.nodes@[g.nodes@.len() - 1].fact.shape@ == model.nodes@[node as int].fact.shape@
            &&& g.nodes@[g.nodes@.len() - 1].fact.datum_type == model.nodes@[node as int].fact.datum_type
        }),
{
    proof {
        assert(node_wf(model.nodes@, node as int));
    }
    let mut substitute = Graph { nodes: Vec::new() };
    let arity = model.nodes[node].inputs.len();
    let mut inputs: Vec<usize> = Vec::new();
    let mut ix: usize = 0;
    while ix < arity
        invariant
            model.wf(),
            node < model.nodes@.len(),
            model.nodes@[node as int].op == Operator::EinSum(*op),
            arity == model.nodes@[node as int].inputs@.len(),
            node_wf(model.nodes@, node as int),
            ix <= arity,
            substitute.wf(),
            substitute.nodes@.len() == ix,
            inputs@.len() == ix,
            forall|l: int| 0 <= l < ix ==> (#[trigger] inputs@[l]) == l,
            forall|l: int|
                0 <= l < ix ==> (#[trigger] substitute.nodes@[l]).op == Operator::Source,
            forall|l: int|
                0 <= l < ix ==> (#[trigger] substitute.nodes@[l]).fact.shape@
                    == model.nodes@[model.nodes@[node as int].inputs@[l] as int].fact.shape@,
            forall|l: int|
                0 <= l < ix ==> (#[trigger] substitute.nodes@[l]).fact.datum_type
                    == model.nodes@[model.nodes@[node as int].inputs@[l] as int].fact.datum_type,
        decreases arity - ix,
    {
        let src = model.nodes[node].inputs[ix];
        let fact = clone_fact(&model.nodes[src].fact);
        let id = substitute.add_source("adhoc_source".to_owned(), fact);
        inputs.push(id);
        ix += 1;
    }
    let e_op = EinSumOp {
        axes: clone_axes(&op.axes),
        operating_dt: op.operating_dt,
        q_params: op.q_params,
    };
    let e_fact = clone_fact(&model.nodes[node].fact);
    let e_node = Node {
        name: model.nodes[node].name.clone(),
        op: Operator::EinSum(e_op),
        inputs,
        fact: e_fact,
    };
    let ghost before = substitute.nodes@;
    substitute.nodes.push(e_node);
    proof {
        crate::graph::lemma_push_preserves_node_wf(before, substitute.nodes@);
        let nodes = substitute.nodes@;
        let ei = arity as int;
        assert(node_wf(nodes, ei)) by {
            assert(nodes[ei].inputs@.len() == nodes[ei].op.arity());
            assert(forall|x: int|
                0 <= x < nodes[ei].inputs@.len() ==> (#[trigger] nodes[ei].inputs@[x]) < ei);
            let vs = ein_view(nodes, ei);
            let vo = ein_view(model.nodes@, node as int);
            assert(vs.s == vo.s);
            assert(vs.ra == vo.ra);
            assert(vs.rb == vo.rb);
            assert(vs.rc == vo.rc);
        }
        assert(substitute.wf());
        assert(ein_view(substitute.nodes@, arity as int).s == ein_view(
            model.nodes@,
            node as int,
        ).s);
        assert(ein_view(substitute.nodes@, arity as int) == ein_view(model.nodes@, node as int));
        assert(facts_view(substitute.nodes@, arity as int) == facts_view(model.nodes@, node as int))
            by {
            assert(facts_view(substitute.nodes@, arity as int).sa == facts_view(
                model.nodes@,
                node as int,
            ).sa);
            assert(facts_view(substitute.nodes@, arity as int).sb == facts_view(
                model.nodes@,
                node as int,
            ).sb);
        }
        assert(lowerable(substitute.nodes@, arity as int) == lowerable(model.nodes@, node as int));
        assert(all_plain_lowerable(substitute) <==> (op.q_params is Some || lowerable(
            model.nodes@,
            node as int,
        ))) by {
            if op.q_params is Some {
                assert forall|j: int|
                    0 <= j < substitute.nodes@.len() implies !(#[trigger] substitute.nodes@[j].op).is_plain_einsum() by {}
            } else {
                assert(substitute.nodes@[arity as int].op.is_plain_einsum());
                if lowerable(model.nodes@, node as int) {
                    assert forall|j: int|
                        0 <= j < substitute.nodes@.len() && (#[trigger] substitute.nodes@[j].op).is_plain_einsum()
                            implies lowerable(substitute.nodes@, j) by {
                        assert(j == arity as int);
                    }
                }
            }
        }
    }
    let ghost pre_nodes = substitute.nodes@;
    proof {
        assert(forall|j: int| 0 <= j < pre_nodes.len() ==> #[trigger] node_wf(pre_nodes, j));
        assert(pre_nodes.len() == arity + 1);
    }
    match decompose_einsums_in_place(&mut substitute) {
        Ok(()) => {
            proof {
                let k = arity as int;
                assert forall|l: int| 0 <= l < k implies #[trigger] einsum_free_prefix(
                    pre_nodes,
                    l,
                ) by {
                    assert forall|ll: int| 0 <= ll <= l implies !(#[trigger] pre_nodes[ll].op).is_plain_einsum() by {
                        assert(pre_nodes[ll].op == Operator::Source);
                    }
                }
                assert forall|l: int| 0 <= l < k implies (#[trigger] substitute.nodes@[l])
                    == pre_nodes[l] by {
                    assert(einsum_free_prefix(pre_nodes, l));
                }
                let f = choose|f: Seq<int>| preserved_map(pre_nodes, substitute.nodes@, f);
                assert(preserved_map(pre_nodes, substitute.nodes@, f));
                lemma_preserved_map_ge(pre_nodes, substitute.nodes@, f, k);
                assert(f[k] == substitute.nodes@.len() - 1);
                assert(substitute.nodes@.len() > k);
                assert(node_preserved(pre_nodes, substitute.nodes@, f, k));
                assert(pre_nodes[k].fact.shape@ == model.nodes@[node as int].fact.shape@);
                assert forall|l: int| 0 <= l < k implies (#[trigger] substitute.nodes@[l]).inputs@.len()
                    == 0 by {
                    assert(node_wf(pre_nodes, l));
                    assert(pre_nodes[l].op == Operator::Source);
                }
            }
            Ok(substitute)
        },
        Err(e) => Err(e),
    }
}

/// Injection terminates: a contraction missing both free axes reaches a
/// state with both free axes present after exactly two injection rewrites,
/// and one missing only one after a single rewrite.
pub proof fn lemma_injection_termination(v: EinView)
    requires
        roles_ok(v.s),
        has_k(v.s),
    ensures
        m_missing(v.s) && n_missing(v.s) ==> {
            let v1 = inj_view(v, false);
            let v2 = inj_view(v1, true);
            &&& roles_ok(v2.s)
            &&& has_k(v2.s)
            &&& !m_missing(v2.s)
            &&& !n_missing(v2.s)
            &&& v1.ra == v.ra + 1
            &&& v2.rb == v1.rb + 1
        },
        m_missing(v.s) && !n_missing(v.s) ==> {
            let v1 = inj_view(v, false);
            &&& roles_ok(v1.s)
            &&& has_k(v1.s)
            &&& !m_missing(v1.s)
            &&& !n_missing(v1.s)
            &&& v1.ra == v.ra + 1
        },
        !m_missing(v.s) && n_missing(v.s) ==> {
            let v1 = inj_view(v, true);
            &&& roles_ok(v1.s)
            &&& has_k(v1.s)
            &&& !m_missing(v1.s)
            &&& !n_missing(v1.s)
            &&& v1.rb == v.rb + 1
        },
{
    if m_missing(v.s) {
        lemma_inj_m_props(v.s, k_apos(v.s), v.rc);
        let v1 = inj_view(v, false);
        if n_missing(v1.s) {
            lemma_inj_n_props(v1.s, k_bpos(v1.s), v1.rc);
        }
    } else if n_missing(v.s) {
        lemma_inj_n_props(v.s, k_bpos(v.s), v.rc);
    }
}

} // verus!
