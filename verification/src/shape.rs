//! Row-major indexing of multi-dimensional extents: the product of a shape,
//! the flat offset of a coordinate, and the coordinate of a flat offset.
use vstd::prelude::*;
use vstd::arithmetic::div_mod::{lemma_fundamental_div_mod, lemma_fundamental_div_mod_converse};

verus! {

/// Number of elements held by a tensor of the given extents.
pub open spec fn product(s: Seq<usize>) -> int
    decreases s.len(),
{
    if s.len() == 0 {
        1
    } else {
        product(s.drop_last()) * s.last()
    }
}

/// The views of exec coordinates, as mathematical integers.
pub open spec fn ints(s: Seq<usize>) -> Seq<int> {
    s.map_values(|x: usize| x as int)
}

/// The coordinate addresses a cell of a tensor with the given extents.
pub open spec fn in_range(shape: Seq<usize>, c: Seq<int>) -> bool {
    c.len() == shape.len() && forall|i: int| 0 <= i < c.len() ==> 0 <= #[trigger] c[i] < shape[i]
}

/// Row-major flat offset of a coordinate.
pub open spec fn flat_index(shape: Seq<usize>, c: Seq<int>) -> int
    decreases shape.len(),
{
    if shape.len() == 0 {
        0
    } else {
        flat_index(shape.drop_last(), c.drop_last()) * shape.last() + c.last()
    }
}

/// Coordinate of a row-major flat offset.
pub open spec fn coords_of(shape: Seq<usize>, fi: int) -> Seq<int>
    decreases shape.len(),
{
    if shape.len() == 0 {
        Seq::empty()
    } else {
        coords_of(shape.drop_last(), fi / (shape.last() as int)).push(fi % (shape.last() as int))
    }
}

/// An in-range coordinate forces every extent on its path to be positive.
pub proof fn lemma_in_range_dims_pos(shape: Seq<usize>, c: Seq<int>)
    requires
        in_range(shape, c),
    ensures
        forall|i: int| 0 <= i < shape.len() ==> #[trigger] shape[i] >= 1,
{
    assert forall|i: int| 0 <= i < shape.len() implies #[trigger] shape[i] >= 1 by {
        assert(0 <= c[i] < shape[i]);
    }
}

/// A positive product forces every extent to be positive.
pub proof fn lemma_product_pos(s: Seq<usize>)
    requires
        product(s) > 0,
    ensures
        forall|i: int| 0 <= i < s.len() ==> #[trigger] s[i] >= 1,
    decreases s.len(),
{
    if s.len() > 0 {
        assert(product(s) == product(s.drop_last()) * (s.last() as int));
        if s.last() == 0 {
            assert(product(s.drop_last()) * (s.last() as int) == 0) by (nonlinear_arith)
                requires s.last() as int == 0;
            assert(false);
        }
        if product(s.drop_last()) <= 0 {
            assert(product(s.drop_last()) * (s.last() as int) <= 0) by (nonlinear_arith)
                requires product(s.drop_last()) <= 0, s.last() as int >= 0;
            assert(false);
        }
        lemma_product_pos(s.drop_last());
        assert forall|i: int| 0 <= i < s.len() implies #[trigger] s[i] >= 1 by {
            if i < s.len() - 1 {
                assert(s[i] == s.drop_last()[i]);
            }
        }
    }
}

/// All extents positive forces a positive product.
pub proof fn lemma_product_pos_of_dims(s: Seq<usize>)
    requires
        forall|i: int| 0 <= i < s.len() ==> #[trigger] s[i] >= 1,
    ensures
        product(s) >= 1,
    decreases s.len(),
{
    if s.len() > 0 {
        assert(forall|i: int| 0 <= i < s.drop_last().len() ==> s.drop_last()[i] >= 1);
        lemma_product_pos_of_dims(s.drop_last());
        assert(product(s.drop_last()) * (s.last() as int) >= 1) by (nonlinear_arith)
            requires product(s.drop_last()) >= 1, s.last() as int >= 1;
    }
}

/// The flat offset of an in-range coordinate lies inside the tensor.
pub proof fn lemma_flat_index_bounds(shape: Seq<usize>, c: Seq<int>)
    requires
        in_range(shape, c),
    ensures
        0 <= flat_index(shape, c) < product(shape),
    decreases shape.len(),
{
    if shape.len() == 0 {
    } else {
        let sf = shape.drop_last();
        let cf = c.drop_last();
        assert(in_range(sf, cf));
        lemma_flat_index_bounds(sf, cf);
        let fp = flat_index(sf, cf);
        let pp = product(sf);
        let l = shape.last() as int;
        let cl = c.last();
        assert(0 <= cl < l);
        assert(fp * l + cl < pp * l) by (nonlinear_arith)
            requires 0 <= fp, fp < pp, 0 <= cl < l;
        assert(fp * l + cl >= 0) by (nonlinear_arith)
            requires 0 <= fp, 0 <= cl, l >= 1;
    }
}

/// Decoding a flat offset yields the in-range coordinate it encodes.
pub proof fn lemma_coords_roundtrip(shape: Seq<usize>, fi: int)
    requires
        0 <= fi < product(shape),
    ensures
        in_range(shape, coords_of(shape, fi)),
        flat_index(shape, coords_of(shape, fi)) == fi,
    decreases shape.len(),
{
    if shape.len() == 0 {
        assert(coords_of(shape, fi) =~= Seq::<int>::empty());
    } else {
        lemma_product_pos(shape);
        let sf = shape.drop_last();
        let l = shape.last() as int;
        assert(l >= 1);
        let q = fi / l;
        let r = fi % l;
        lemma_fundamental_div_mod(fi, l);
        assert(fi == l * q + r);
        assert(0 <= r < l);
        if q < 0 {
            assert(l * q <= -l) by (nonlinear_arith)
                requires l >= 1, q <= -1;
            assert(false);
        }
        let pp = product(sf);
        assert(product(shape) == pp * l);
        if q >= pp {
            assert(l * q >= pp * l) by (nonlinear_arith)
                requires l >= 1, q >= pp;
            assert(false);
        }
        lemma_coords_roundtrip(sf, q);
        let cf = coords_of(sf, q);
        let c = coords_of(shape, fi);
        assert(c == cf.push(r));
        assert(c.drop_last() =~= cf);
        assert(c.last() == r);
        assert(in_range(shape, c)) by {
            assert forall|i: int| 0 <= i < c.len() implies 0 <= #[trigger] c[i] < shape[i] by {
                if i < c.len() - 1 {
                    assert(c[i] == cf[i]);
                    assert(shape[i] == sf[i]);
                }
            }
        }
        assert(flat_index(shape, c) == flat_index(sf, cf) * l + r);
        assert(flat_index(sf, cf) == q);
        assert(q * l == l * q) by (nonlinear_arith);
    }
}

/// A zero extent forces a zero product.
pub proof fn lemma_product_zero(s: Seq<usize>)
    requires
        exists|i: int| 0 <= i < s.len() && #[trigger] s[i] == 0,
    ensures
        product(s) == 0,
    decreases s.len(),
{
    let i = choose|i: int| 0 <= i < s.len() && #[trigger] s[i] == 0;
    if i == s.len() - 1 {
        assert(product(s.drop_last()) * (s.last() as int) == 0) by (nonlinear_arith)
            requires s.last() as int == 0;
    } else {
        assert(s.drop_last()[i] == 0);
        lemma_product_zero(s.drop_last());
        assert(product(s.drop_last()) * (s.last() as int) == 0) by (nonlinear_arith)
            requires product(s.drop_last()) == 0;
    }
}

/// Encoding a coordinate and decoding the offset gives the coordinate back.
pub proof fn lemma_flat_roundtrip(shape: Seq<usize>, c: Seq<int>)
    requires
        in_range(shape, c),
    ensures
        coords_of(shape, flat_index(shape, c)) == c,
    decreases shape.len(),
{
    if shape.len() == 0 {
        assert(c =~= Seq::<int>::empty());
        assert(coords_of(shape, flat_index(shape, c)) =~= Seq::<int>::empty());
    } else {
        let sf = shape.drop_last();
        let cf = c.drop_last();
        let l = shape.last() as int;
        let cl = c.last();
        assert(in_range(sf, cf));
        lemma_flat_index_bounds(sf, cf);
        let ff = flat_index(sf, cf);
        let f = ff * l + cl;
        lemma_fundamental_div_mod_converse(f, l, ff, cl);
        lemma_flat_roundtrip(sf, cf);
        assert(coords_of(shape, f) == coords_of(sf, f / l).push(f % l));
        assert(coords_of(shape, f) =~= c);
    }
}

/// The product of a prefix of extents never exceeds the whole product
/// when every extent is positive.
pub proof fn lemma_product_take_succ(s: Seq<usize>, i: int)
    requires
        0 <= i < s.len(),
    ensures
        product(s.take(i + 1)) == product(s.take(i)) * (s[i] as int),
{
    assert(s.take(i + 1).drop_last() =~= s.take(i));
    assert(s.take(i + 1).last() == s[i]);
}

/// Row-major flat offset of a coordinate, as executable code.
pub fn flatten_coords(shape: &Vec<usize>, c: &Vec<usize>) -> (r: usize)
    requires
        in_range(shape@, ints(c@)),
        product(shape@) <= usize::MAX as int + 1,
    ensures
        r == flat_index(shape@, ints(c@)),
{
    let ghost cs = ints(c@);
    let mut idx: usize = 0;
    let mut d: usize = 0;
    proof {
        assert(shape@.take(0) =~= Seq::<usize>::empty());
        assert(ints(c@).take(0) =~= Seq::<int>::empty());
    }
    while d < shape.len()
        invariant
            d <= shape.len(),
            c@.len() == shape@.len(),
            in_range(shape@, ints(c@)),
            product(shape@) <= usize::MAX as int + 1,
            idx == flat_index(shape@.take(d as int), ints(c@).take(d as int)),
        decreases shape.len() - d,
    {
        let ghost sp = shape@.take(d as int + 1);
        let ghost cp = ints(c@).take(d as int + 1);
        proof {
            assert(sp.drop_last() =~= shape@.take(d as int));
            assert(cp.drop_last() =~= ints(c@).take(d as int));
            assert(in_range(sp, cp)) by {
                assert(forall|i: int| 0 <= i < cp.len() ==> cp[i] == ints(c@)[i]);
            }
            lemma_flat_index_bounds(sp, cp);
            // the partial offset stays below the whole product
            lemma_in_range_dims_pos(shape@, ints(c@));
            lemma_product_prefix_le(shape@, d as int + 1);
            assert(flat_index(sp, cp) < product(sp));
        }
        idx = idx * shape[d] + c[d];
        d += 1;
    }
    proof {
        assert(shape@.take(shape@.len() as int) =~= shape@);
        assert(ints(c@).take(shape@.len() as int) =~= ints(c@));
    }
    idx
}

/// The product of a prefix of positive extents never exceeds the whole.
pub proof fn lemma_product_prefix_le(s: Seq<usize>, i: int)
    requires
        0 <= i <= s.len(),
        forall|j: int| 0 <= j < s.len() ==> #[trigger] s[j] >= 1,
    ensures
        product(s.take(i)) <= product(s),
    decreases s.len() - i,
{
    if i == s.len() {
        assert(s.take(i) =~= s);
    } else {
        lemma_product_prefix_le(s, i + 1);
        lemma_product_take_succ(s, i);
        assert(forall|j: int| 0 <= j < s.take(i).len() ==> s.take(i)[j] >= 1);
        lemma_product_pos_of_dims(s.take(i));
        assert(product(s.take(i)) * (s[i] as int) >= product(s.take(i))) by (nonlinear_arith)
            requires product(s.take(i)) >= 1, s[i] as int >= 1;
    }
}

/// Coordinate of a row-major flat offset, as executable code.
pub fn unflatten_index(shape: &Vec<usize>, fi: usize) -> (r: Vec<usize>)
    requires
        fi < product(shape@),
    ensures
        ints(r@) == coords_of(shape@, fi as int),
        in_range(shape@, ints(r@)),
        flat_index(shape@, ints(r@)) == fi,
{
    proof {
        assert(shape@.take(shape@.len() as int) =~= shape@);
    }
    let r = unflatten_rec(shape, shape.len(), fi);
    proof {
        lemma_coords_roundtrip(shape@, fi as int);
    }
    r
}

fn unflatten_rec(shape: &Vec<usize>, upto: usize, fi: usize) -> (r: Vec<usize>)
    requires
        upto <= shape.len(),
        fi < product(shape@.take(upto as int)),
    ensures
        ints(r@) == coords_of(shape@.take(upto as int), fi as int),
    decreases upto,
{
    if upto == 0 {
        let r: Vec<usize> = Vec::new();
        proof {
            assert(ints(r@) =~= Seq::<int>::empty());
            assert(coords_of(shape@.take(0), fi as int) =~= Seq::<int>::empty());
        }
        r
    } else {
        let ghost sp = shape@.take(upto as int);
        proof {
            lemma_product_pos(sp);
            assert(sp[upto as int - 1] == shape@[upto as int - 1]);
        }
        let l = shape[upto - 1];
        let q = fi / l;
        let rm = fi % l;
        proof {
            assert(sp.drop_last() =~= shape@.take(upto as int - 1));
            assert(sp.last() == l);
            lemma_fundamental_div_mod(fi as int, l as int);
            let pp = product(shape@.take(upto as int - 1));
            if q as int >= pp {
                assert((l as int) * (q as int) >= pp * (l as int)) by (nonlinear_arith)
                    requires l as int >= 1, q as int >= pp;
                assert(false);
            }
        }
        let mut r = unflatten_rec(shape, upto - 1, q);
        r.push(rm);
        proof {
            assert(ints(r@) =~= coords_of(shape@.take(upto as int - 1), q as int).push(rm as int));
            assert(coords_of(sp, fi as int) == coords_of(sp.drop_last(), fi as int / (l as int)).push(fi as int % (l as int)));
            assert(q as int == fi as int / (l as int));
            assert(rm as int == fi as int % (l as int));
        }
        r
    }
}

} // verus!
