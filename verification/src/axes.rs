//! The algebraic model of a named-axis contraction expression, and the
//! classifier that finds the contracted, left-free and right-free axes.
use vstd::prelude::*;
use crate::CoreError;

verus! {

/// One named axis: the dimension positions at which it occurs in each of
/// the two operands and in the output.
#[derive(Clone, Debug)]
pub struct Axis {
    pub label: u8,
    pub inputs: Vec<Vec<usize>>,
    pub outputs: Vec<usize>,
}

/// Mathematical image of an axis: its occurrence positions per tensor.
pub ghost struct AxisV {
    pub label: u8,
    pub a: Seq<usize>,
    pub b: Seq<usize>,
    pub o: Seq<usize>,
}

impl View for Axis {
    type V = AxisV;

    open spec fn view(&self) -> AxisV {
        AxisV {
            label: self.label,
            a: self.inputs@[0]@,
            b: self.inputs@[1]@,
            o: self.outputs@,
        }
    }
}

impl Axis {
    /// An axis records positions for exactly the two operands.
    pub open spec fn wf(&self) -> bool {
        self.inputs@.len() == 2
    }
}

/// The mapping of a two-operand, one-output contraction.
#[derive(Clone, Debug)]
pub struct AxesMapping {
    pub axes: Vec<Axis>,
}

impl View for AxesMapping {
    type V = Seq<AxisV>;

    open spec fn view(&self) -> Seq<AxisV> {
        self.axes@.map_values(|ax: Axis| ax@)
    }
}

impl AxesMapping {
    /// Every axis of the mapping is well formed.
    pub open spec fn wf(&self) -> bool {
        forall|i: int| 0 <= i < self.axes@.len() ==> (#[trigger] self.axes@[i]).wf()
    }
}

/// Contraction-axis candidate: occurs in both operands, not in the output.
pub open spec fn k_cand(ax: AxisV) -> bool {
    ax.a.len() >= 1 && ax.b.len() >= 1 && ax.o.len() == 0
}

/// Left-free-axis candidate: occurs in operand 0 and the output only.
pub open spec fn m_cand(ax: AxisV) -> bool {
    ax.a.len() >= 1 && ax.b.len() == 0 && ax.o.len() >= 1
}

/// Right-free-axis candidate: occurs in operand 1 and the output only.
pub open spec fn n_cand(ax: AxisV) -> bool {
    ax.a.len() == 0 && ax.b.len() >= 1 && ax.o.len() >= 1
}

/// A candidate with a single occurrence per tensor it occurs in; repeated
/// occurrences are the unimplemented diagonal case.
pub open spec fn k_good(ax: AxisV) -> bool {
    ax.a.len() == 1 && ax.b.len() == 1 && ax.o.len() == 0
}

pub open spec fn m_good(ax: AxisV) -> bool {
    ax.a.len() == 1 && ax.b.len() == 0 && ax.o.len() == 1
}

pub open spec fn n_good(ax: AxisV) -> bool {
    ax.a.len() == 0 && ax.b.len() == 1 && ax.o.len() == 1
}

/// At most one axis falls into each role, and each has single occurrences.
pub open spec fn roles_ok(s: Seq<AxisV>) -> bool {
    &&& forall|i: int, j: int|
        0 <= i < s.len() && 0 <= j < s.len() && #[trigger] k_cand(s[i]) && #[trigger] k_cand(s[j])
            ==> i == j
    &&& forall|i: int, j: int|
        0 <= i < s.len() && 0 <= j < s.len() && #[trigger] m_cand(s[i]) && #[trigger] m_cand(s[j])
            ==> i == j
    &&& forall|i: int, j: int|
        0 <= i < s.len() && 0 <= j < s.len() && #[trigger] n_cand(s[i]) && #[trigger] n_cand(s[j])
            ==> i == j
    &&& forall|i: int| 0 <= i < s.len() && #[trigger] k_cand(s[i]) ==> k_good(s[i])
    &&& forall|i: int| 0 <= i < s.len() && #[trigger] m_cand(s[i]) ==> m_good(s[i])
    &&& forall|i: int| 0 <= i < s.len() && #[trigger] n_cand(s[i]) ==> n_good(s[i])
}

/// There is a contraction axis.
pub open spec fn has_k(s: Seq<AxisV>) -> bool {
    exists|i: int| 0 <= i < s.len() && #[trigger] k_cand(s[i])
}

/// No left-free axis exists.
pub open spec fn m_missing(s: Seq<AxisV>) -> bool {
    forall|i: int| 0 <= i < s.len() ==> !(#[trigger] m_cand(s[i]))
}

/// No right-free axis exists.
pub open spec fn n_missing(s: Seq<AxisV>) -> bool {
    forall|i: int| 0 <= i < s.len() ==> !(#[trigger] n_cand(s[i]))
}

/// The index of the axis in the given role (meaningful under `roles_ok`).
pub open spec fn k_index(s: Seq<AxisV>) -> int {
    choose|i: int| 0 <= i < s.len() && #[trigger] k_cand(s[i])
}

pub open spec fn m_index(s: Seq<AxisV>) -> int {
    choose|i: int| 0 <= i < s.len() && #[trigger] m_cand(s[i])
}

pub open spec fn n_index(s: Seq<AxisV>) -> int {
    choose|i: int| 0 <= i < s.len() && #[trigger] n_cand(s[i])
}

/// Classify the axes of a mapping into the three algebraic roles of a
/// matrix product: left-free (M), contracted (K) and right-free (N).
/// Each is either the index of its unique axis or absent; a duplicated
/// role or a repeated occurrence is the unsupported-contraction case.
pub fn choose_mkn_axes(mapping: &AxesMapping) -> (r: Result<
    (Option<usize>, Option<usize>, Option<usize>),
    CoreError,
>)
    requires
        mapping.wf(),
    ensures
        r is Ok <==> roles_ok(mapping@),
        r is Err ==> r == Result::<(Option<usize>, Option<usize>, Option<usize>), CoreError>::Err(
            CoreError::UnsupportedContraction,
        ),
        r matches Ok(t) ==> {
            &&& (t.0 matches Some(i) ==> i < mapping@.len() && m_cand(mapping@[i as int]) && i
                as int == m_index(mapping@))
            &&& (t.0 is None <==> m_missing(mapping@))
            &&& (t.1 matches Some(i) ==> i < mapping@.len() && k_cand(mapping@[i as int]) && i
                as int == k_index(mapping@))
            &&& (t.1 is None <==> !has_k(mapping@))
            &&& (t.2 matches Some(i) ==> i < mapping@.len() && n_cand(mapping@[i as int]) && i
                as int == n_index(mapping@))
            &&& (t.2 is None <==> n_missing(mapping@))
        },
{
    let ghost s = mapping@;
    let mut m_found: Option<usize> = None;
    let mut k_found: Option<usize> = None;
    let mut n_found: Option<usize> = None;
    let mut i: usize = 0;
    while i < mapping.axes.len()
        invariant
            mapping.wf(),
            s == mapping@,
            i <= s.len(),
            m_found matches Some(j) ==> j < i && m_cand(s[j as int]) && m_good(s[j as int]),
            m_found matches Some(j) ==> forall|l: int|
                0 <= l < i && l != j as int ==> !(#[trigger] m_cand(s[l])),
            m_found is None ==> forall|l: int| 0 <= l < i ==> !(#[trigger] m_cand(s[l])),
            k_found matches Some(j) ==> j < i && k_cand(s[j as int]) && k_good(s[j as int]),
            k_found matches Some(j) ==> forall|l: int|
                0 <= l < i && l != j as int ==> !(#[trigger] k_cand(s[l])),
            k_found is None ==> forall|l: int| 0 <= l < i ==> !(#[trigger] k_cand(s[l])),
            n_found matches Some(j) ==> j < i && n_cand(s[j as int]) && n_good(s[j as int]),
            n_found matches Some(j) ==> forall|l: int|
                0 <= l < i && l != j as int ==> !(#[trigger] n_cand(s[l])),
            n_found is None ==> forall|l: int| 0 <= l < i ==> !(#[trigger] n_cand(s[l])),
        decreases s.len() - i,
    {
        let ax = &mapping.axes[i];
        proof {
            assert(mapping.axes@[i as int].wf());
            assert(s[i as int] == mapping.axes@[i as int]@);
        }
        let a_len = ax.inputs[0].len();
        let b_len = ax.inputs[1].len();
        let o_len = ax.outputs.len();
        if a_len >= 1 && b_len >= 1 && o_len == 0 {
            if k_found.is_some() || a_len != 1 || b_len != 1 {
                proof {
                    assert(k_cand(s[i as int]));
                    match k_found {
                        Some(j) => {
                            assert(k_cand(s[j as int]));
                            assert(j as int != i as int);
                        },
                        None => {
                            assert(!k_good(s[i as int]));
                        },
                    }
                    assert(!roles_ok(s));
                }
                return Err(CoreError::UnsupportedContraction);
            }
            k_found = Some(i);
        } else if a_len >= 1 && b_len == 0 && o_len >= 1 {
            if m_found.is_some() || a_len != 1 || o_len != 1 {
                proof {
                    assert(m_cand(s[i as int]));
                    match m_found {
                        Some(j) => {
                            assert(m_cand(s[j as int]));
                            assert(j as int != i as int);
                        },
                        None => {
                            assert(!m_good(s[i as int]));
                        },
                    }
                    assert(!roles_ok(s));
                }
                return Err(CoreError::UnsupportedContraction);
            }
            m_found = Some(i);
        } else if a_len == 0 && b_len >= 1 && o_len >= 1 {
            if n_found.is_some() || b_len != 1 || o_len != 1 {
                proof {
                    assert(n_cand(s[i as int]));
                    match n_found {
                        Some(j) => {
                            assert(n_cand(s[j as int]));
                            assert(j as int != i as int);
                        },
                        None => {
                            assert(!n_good(s[i as int]));
                        },
                    }
                    assert(!roles_ok(s));
                }
                return Err(CoreError::UnsupportedContraction);
            }
            n_found = Some(i);
        }
        i += 1;
    }
    proof {
        match m_found {
            Some(j) => {
                assert(m_cand(s[j as int]));
                assert(m_index(s) == j as int);
            },
            None => {},
        }
        match k_found {
            Some(j) => {
                assert(k_cand(s[j as int]));
                assert(k_index(s) == j as int);
            },
            None => {},
        }
        match n_found {
            Some(j) => {
                assert(n_cand(s[j as int]));
                assert(n_index(s) == j as int);
            },
            None => {},
        }
    }
    Ok((m_found, k_found, n_found))
}

} // verus!
