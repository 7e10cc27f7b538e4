//! Concrete tensors and compile-time tensor facts: a datum type together
//! with a shape, and for tensors a row-major element store.
use vstd::prelude::*;
use crate::shape::{product, flat_index};

verus! {

/// Datum types an edge can carry. Only the integer type has a dense
/// matrix product defined on it.
#[derive(Clone, Copy, Debug, PartialEq, Eq, Structural)]
pub enum DatumType {
    I64,
    Bool,
}

impl DatumType {
    /// The datum type supports a dense matrix product.
    pub open spec fn spec_is_number(&self) -> bool {
        *self is I64
    }

    #[verifier::when_used_as_spec(spec_is_number)]
    pub fn is_number(&self) -> (r: bool)
        ensures
            r == self.spec_is_number(),
    {
        match self {
            DatumType::I64 => true,
            DatumType::Bool => false,
        }
    }
}

/// A compile-time (datum type, shape) pair attached to a graph edge.
#[derive(Clone, Debug)]
pub struct TensorFact {
    pub datum_type: DatumType,
    pub shape: Vec<usize>,
}

impl TensorFact {
    pub open spec fn spec_rank(&self) -> int {
        self.shape@.len() as int
    }

    pub fn rank(&self) -> (r: usize)
        ensures
            r as int == self.spec_rank(),
    {
        self.shape.len()
    }
}

/// A concrete tensor: a fact together with its row-major elements.
#[derive(Clone, Debug)]
pub struct Tensor {
    pub datum_type: DatumType,
    pub shape: Vec<usize>,
    pub data: Vec<i64>,
}

/// Magnitude bound on elements taking part in a matrix product; with the
/// contracted extent also bounded by it, every dot product fits in an i64.
pub const ELEM_BOUND: i64 = 0x10_0000;

/// Every element lies within the supported magnitude.
pub open spec fn elems_bounded(data: Seq<i64>) -> bool {
    forall|i: int| 0 <= i < data.len() ==> -ELEM_BOUND <= #[trigger] data[i] <= ELEM_BOUND
}

impl Tensor {
    /// The element store matches the shape.
    pub open spec fn wf(&self) -> bool {
        self.data@.len() == product(self.shape@)
    }

    pub open spec fn spec_rank(&self) -> int {
        self.shape@.len() as int
    }

    pub fn rank(&self) -> (r: usize)
        ensures
            r as int == self.spec_rank(),
    {
        self.shape.len()
    }

    /// The element addressed by an in-range coordinate.
    pub open spec fn at(&self, c: Seq<int>) -> i64 {
        self.data@[flat_index(self.shape@, c)]
    }

    /// The fact this tensor conforms to.
    pub fn fact(&self) -> (r: TensorFact)
        ensures
            r.datum_type == self.datum_type,
            r.shape@ == self.shape@,
    {
        TensorFact { datum_type: self.datum_type, shape: self.shape.clone() }
    }

    /// Whether every element lies within the supported magnitude.
    pub fn check_bounded(&self) -> (r: bool)
        ensures
            r == elems_bounded(self.data@),
    {
        let mut i: usize = 0;
        while i < self.data.len()
            invariant
                i <= self.data@.len(),
                forall|j: int| 0 <= j < i ==> -ELEM_BOUND <= #[trigger] self.data@[j] <= ELEM_BOUND,
            decreases self.data@.len() - i,
        {
            let v = self.data[i];
            if v < -ELEM_BOUND || v > ELEM_BOUND {
                return false;
            }
            i += 1;
        }
        true
    }
}


/// A unit extent anywhere leaves the element count alone.
pub proof fn lemma_product_insert_one(s: Seq<usize>, i: int)
    requires
        0 <= i <= s.len(),
    ensures
        product(s.insert(i, 1usize)) == product(s),
    decreases s.len(),
{
    let t = s.insert(i, 1usize);
    if i == s.len() {
        assert(t.drop_last() =~= s);
        assert(t.last() == 1usize);
    } else {
        assert(t.drop_last() =~= s.drop_last().insert(i, 1usize));
        assert(t.last() == s.last());
        lemma_product_insert_one(s.drop_last(), i);
    }
}

/// A copy of the elements.
fn copy_elems(v: &Vec<i64>) -> (r: Vec<i64>)
    ensures
        r@ == v@,
{
    let mut r: Vec<i64> = Vec::new();
    let mut i: usize = 0;
    while i < v.len()
        invariant
            i <= v@.len(),
            r@ == v@.take(i as int),
        decreases v@.len() - i,
    {
        proof {
            assert(v@.take(i as int + 1) =~= v@.take(i as int).push(v@[i as int]));
        }
        r.push(v[i]);
        i += 1;
    }
    proof {
        assert(v@.take(v@.len() as int) =~= v@);
    }
    r
}

/// A copy of the extents.
fn copy_dims(v: &Vec<usize>) -> (r: Vec<usize>)
    ensures
        r@ == v@,
{
    let mut r: Vec<usize> = Vec::new();
    let mut i: usize = 0;
    while i < v.len()
        invariant
            i <= v@.len(),
            r@ == v@.take(i as int),
        decreases v@.len() - i,
    {
        proof {
            assert(v@.take(i as int + 1) =~= v@.take(i as int).push(v@[i as int]));
        }
        r.push(v[i]);
        i += 1;
    }
    proof {
        assert(v@.take(v@.len() as int) =~= v@);
    }
    r
}

/// Evaluation of the axis-insertion adapter: the same elements under a
/// shape with one more unit extent.
pub fn insert_unit_axis(t: &Tensor, pos: usize) -> (r: Tensor)
    requires
        t.wf(),
        pos <= t.shape@.len(),
    ensures
        r.wf(),
        r.datum_type == t.datum_type,
        r.shape@ == t.shape@.insert(pos as int, 1usize),
        r.data@ == t.data@,
{
    let mut shape = copy_dims(&t.shape);
    shape.insert(pos, 1);
    proof {
        lemma_product_insert_one(t.shape@, pos as int);
    }
    Tensor { datum_type: t.datum_type, shape, data: copy_elems(&t.data) }
}

/// Evaluation of the axis-removal adapter: the same elements under a shape
/// with one unit extent fewer.
pub fn remove_unit_axis(t: &Tensor, pos: usize) -> (r: Tensor)
    requires
        t.wf(),
        pos < t.shape@.len(),
        t.shape@[pos as int] == 1,
    ensures
        r.wf(),
        r.datum_type == t.datum_type,
        r.shape@ == t.shape@.remove(pos as int),
        r.data@ == t.data@,
{
    let mut shape = copy_dims(&t.shape);
    shape.remove(pos);
    proof {
        assert(t.shape@.remove(pos as int).insert(pos as int, 1usize) =~= t.shape@);
        lemma_product_insert_one(t.shape@.remove(pos as int), pos as int);
    }
    Tensor { datum_type: t.datum_type, shape, data: copy_elems(&t.data) }
}

} // verus!
