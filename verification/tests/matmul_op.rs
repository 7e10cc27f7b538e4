//! Tests of the batched matrix-multiply operator: shape inference, the
//! one-directional broadcast rule, transposes, evaluation, and its errors.
use einsum_matmul::matmul::BasicMatMul;
use einsum_matmul::tensor::{DatumType, Tensor, TensorFact};
use einsum_matmul::CoreError;

fn mm(ta: bool, tb: bool, tc: bool) -> BasicMatMul {
    BasicMatMul { transpose_a: ta, transpose_b: tb, transpose_c: tc }
}

fn fact(shape: Vec<usize>) -> TensorFact {
    TensorFact { datum_type: DatumType::I64, shape }
}

fn tensor(shape: Vec<usize>, data: Vec<i64>) -> Tensor {
    assert_eq!(shape.iter().product::<usize>(), data.len());
    Tensor { datum_type: DatumType::I64, shape, data }
}

#[test]
fn output_facts_standard() {
    let f = mm(false, false, false).output_facts(&fact(vec![2, 3]), &fact(vec![3, 4])).unwrap();
    assert_eq!(f.shape, vec![2, 4]);
    assert_eq!(f.datum_type, DatumType::I64);
}

#[test]
fn output_facts_transposed() {
    // a stored as [k, m], b stored as [n, k], output as [n, m]
    let f = mm(true, true, true).output_facts(&fact(vec![3, 2]), &fact(vec![4, 3])).unwrap();
    assert_eq!(f.shape, vec![4, 2]);
}

#[test]
fn output_facts_rejects_contracted_mismatch() {
    let r = mm(false, false, false).output_facts(&fact(vec![2, 3]), &fact(vec![4, 4]));
    assert!(matches!(r, Err(CoreError::MalformedInput)));
}

#[test]
fn output_facts_rejects_rank_mismatch() {
    let r = mm(false, false, false).output_facts(&fact(vec![2, 3]), &fact(vec![1, 3, 4]));
    assert!(matches!(r, Err(CoreError::MalformedInput)));
    let r = mm(false, false, false).output_facts(&fact(vec![3]), &fact(vec![3]));
    assert!(matches!(r, Err(CoreError::MalformedInput)));
}

#[test]
fn eval_standard_product() {
    let a = tensor(vec![2, 3], (1..=6).collect());
    let b = tensor(vec![3, 4], (1..=12).collect());
    let c = mm(false, false, false).eval(&a, &b).unwrap();
    assert_eq!(c.shape, vec![2, 4]);
    assert_eq!(c.data, vec![38, 44, 50, 56, 83, 98, 113, 128]);
}

#[test]
fn eval_transpose_flags() {
    // the same product with every tensor stored swapped
    let a = tensor(vec![3, 2], vec![1, 4, 2, 5, 3, 6]);
    let b = tensor(vec![4, 3], vec![1, 5, 9, 2, 6, 10, 3, 7, 11, 4, 8, 12]);
    let c = mm(true, true, true).eval(&a, &b).unwrap();
    assert_eq!(c.shape, vec![4, 2]);
    assert_eq!(c.data, vec![38, 83, 44, 98, 50, 113, 56, 128]);
}

#[test]
fn eval_broadcasts_operand_0_towards_1() {
    // operand 0 with leading batch extent 1, operand 1 with extent 5
    let a = tensor(vec![1, 2, 3], (1..=6).collect());
    let mut bdata = Vec::new();
    for batch in 0..5i64 {
        for x in 1..=12i64 {
            bdata.push(x + batch);
        }
    }
    let b = tensor(vec![5, 3, 4], bdata);
    let c = mm(false, false, false).eval(&a, &b).unwrap();
    assert_eq!(c.shape, vec![5, 2, 4]);
    // first batch slice equals the plain product
    assert_eq!(&c.data[0..8], &[38, 44, 50, 56, 83, 98, 113, 128]);
    // later slices use the same operand 0 against the shifted operand 1
    assert_eq!(c.data[8], 38 + 6);
}

#[test]
fn eval_broadcasts_operand_1_towards_0() {
    // the reverse direction must be exercised: the rule is not symmetric
    let mut adata = Vec::new();
    for batch in 0..5i64 {
        for x in 1..=6i64 {
            adata.push(x + batch);
        }
    }
    let a = tensor(vec![5, 2, 3], adata);
    let b = tensor(vec![1, 3, 4], (1..=12).collect());
    let c = mm(false, false, false).eval(&a, &b).unwrap();
    assert_eq!(c.shape, vec![5, 2, 4]);
    assert_eq!(&c.data[0..8], &[38, 44, 50, 56, 83, 98, 113, 128]);
}

#[test]
fn eval_rejects_incompatible_batch() {
    let a = tensor(vec![2, 2, 2], vec![0; 8]);
    let b = tensor(vec![3, 2, 2], vec![0; 12]);
    assert!(matches!(mm(false, false, false).eval(&a, &b), Err(CoreError::MalformedInput)));
}

#[test]
fn eval_rejects_unsupported_datum_type() {
    let a = Tensor { datum_type: DatumType::Bool, shape: vec![2, 2], data: vec![0, 1, 1, 0] };
    let b = Tensor { datum_type: DatumType::Bool, shape: vec![2, 2], data: vec![1, 0, 0, 1] };
    assert!(matches!(
        mm(false, false, false).eval(&a, &b),
        Err(CoreError::UnsupportedDatumType)
    ));
}

#[test]
fn eval_rejects_values_out_of_range() {
    let big = 0x10_0001i64;
    let a = tensor(vec![1, 2], vec![big, 0]);
    let b = tensor(vec![2, 1], vec![1, 1]);
    assert!(matches!(mm(false, false, false).eval(&a, &b), Err(CoreError::ValueOutOfRange)));
}

#[test]
fn operator_reports_itself() {
    assert_eq!(mm(false, false, false).name(), "MatMul");
    assert!(mm(false, false, false).is_stateless());
}
