//! End-to-end tests of the decomposition pass: the graph after the pass
//! holds no generic contraction and computes the same values.
use einsum_matmul::axes::{Axis, AxesMapping};
use einsum_matmul::driver::{decompose, decompose_einsums_in_place, step};
use einsum_matmul::einsum::EinSumOp;
use einsum_matmul::graph::{Graph, Node, Operator};
use einsum_matmul::tensor::{insert_unit_axis, remove_unit_axis, DatumType, Tensor, TensorFact};
use einsum_matmul::CoreError;

fn ax(label: u8, a: Vec<usize>, b: Vec<usize>, o: Vec<usize>) -> Axis {
    Axis { label, inputs: vec![a, b], outputs: o }
}

fn fact(shape: Vec<usize>) -> TensorFact {
    TensorFact { datum_type: DatumType::I64, shape }
}

fn tensor(shape: Vec<usize>, data: Vec<i64>) -> Tensor {
    assert_eq!(shape.iter().product::<usize>(), data.len());
    Tensor { datum_type: DatumType::I64, shape, data }
}

fn source(name: &str, shape: Vec<usize>) -> Node {
    Node { name: name.to_string(), op: Operator::Source, inputs: vec![], fact: fact(shape) }
}

fn einsum_node(axes: Vec<Axis>, inputs: Vec<usize>, out_shape: Vec<usize>) -> Node {
    Node {
        name: "einsum".to_string(),
        op: Operator::EinSum(EinSumOp {
            axes: AxesMapping { axes },
            operating_dt: DatumType::I64,
            q_params: None,
        }),
        inputs,
        fact: fact(out_shape),
    }
}

/// Evaluate a decomposed graph node by node, in node order.
fn run(graph: &Graph, mut inputs: Vec<Tensor>) -> Tensor {
    inputs.reverse();
    let mut values: Vec<Tensor> = Vec::new();
    for node in &graph.nodes {
        let v = match &node.op {
            Operator::Source => inputs.pop().expect("missing graph input"),
            Operator::MatMul(mm) => {
                let a = &values[node.inputs[0]];
                let b = &values[node.inputs[1]];
                mm.eval(a, b).expect("matmul evaluation failed")
            }
            Operator::AxisInsert(p) => insert_unit_axis(&values[node.inputs[0]], *p),
            Operator::AxisRemove(p) => remove_unit_axis(&values[node.inputs[0]], *p),
            Operator::EinSum(_) => panic!("generic contraction survived the pass"),
        };
        values.push(v);
    }
    values.pop().expect("empty graph")
}

fn mk_kn_mn_graph() -> Graph {
    // "mk,kn->mn": m in a and the output, k in both operands, n in b and
    // the output.
    let axes = vec![
        ax(b'm', vec![0], vec![], vec![0]),
        ax(b'k', vec![1], vec![0], vec![]),
        ax(b'n', vec![], vec![1], vec![1]),
    ];
    Graph {
        nodes: vec![
            source("a", vec![2, 3]),
            source("b", vec![3, 4]),
            einsum_node(axes, vec![0, 1], vec![2, 4]),
        ],
    }
}

#[test]
fn mk_kn_mn() {
    let mut model = mk_kn_mn_graph();
    decompose_einsums_in_place(&mut model).unwrap();
    // fixpoint: no generic contraction survives
    assert!(model.nodes.iter().all(|n| !matches!(n.op, Operator::EinSum(_))));
    // the node was replaced in place by the lowered operator
    match &model.nodes[2].op {
        Operator::MatMul(mm) => {
            assert!(!mm.transpose_a && !mm.transpose_b && !mm.transpose_c);
        }
        other => panic!("expected the lowered operator, got {:?}", other),
    }
    let a = tensor(vec![2, 3], (1..=6).collect());
    let b = tensor(vec![3, 4], (1..=12).collect());
    let c = run(&model, vec![a, b]);
    assert_eq!(c.shape, vec![2, 4]);
    assert_eq!(c.data, vec![38, 44, 50, 56, 83, 98, 113, 128]);
}

#[test]
fn k_kn_mn() {
    // "k,kn->mn": no left-free axis; decomposition succeeds through axis
    // injection before lowering.
    let axes = vec![
        ax(b'm', vec![], vec![], vec![0]),
        ax(b'k', vec![0], vec![0], vec![]),
        ax(b'n', vec![], vec![1], vec![1]),
    ];
    let mut model = Graph {
        nodes: vec![
            source("a", vec![3]),
            source("b", vec![3, 4]),
            einsum_node(axes, vec![0, 1], vec![1, 4]),
        ],
    };
    decompose_einsums_in_place(&mut model).unwrap();
    assert!(model.nodes.iter().all(|n| !matches!(n.op, Operator::EinSum(_))));
    // an axis-insertion adapter entered the graph before the contraction
    assert!(matches!(model.nodes[2].op, Operator::AxisInsert(0)));
    let a = tensor(vec![3], vec![1, 2, 3]);
    let b = tensor(vec![3, 4], (1..=12).collect());
    let c = run(&model, vec![a, b]);
    assert_eq!(c.shape, vec![1, 4]);
    assert_eq!(c.data, vec![38, 44, 50, 56]);
}

#[test]
fn missing_both_free_axes_two_injections() {
    // "k,k->": a dot product; both free axes are injected, at most two
    // rewrites, and the result keeps the declared output shape.
    let axes = vec![ax(b'k', vec![0], vec![0], vec![])];
    let mut model = Graph {
        nodes: vec![
            source("a", vec![3]),
            source("b", vec![3]),
            einsum_node(axes, vec![0, 1], vec![]),
        ],
    };
    decompose_einsums_in_place(&mut model).unwrap();
    assert!(model.nodes.iter().all(|n| !matches!(n.op, Operator::EinSum(_))));
    let a = tensor(vec![3], vec![1, 2, 3]);
    let b = tensor(vec![3], vec![4, 5, 6]);
    let c = run(&model, vec![a, b]);
    assert_eq!(c.shape, Vec::<usize>::new());
    assert_eq!(c.data, vec![4 + 10 + 18]);
}

#[test]
fn step_no_contraction_axis_is_unsupported() {
    let axes = vec![
        ax(b'm', vec![0], vec![], vec![0]),
        ax(b'n', vec![], vec![0], vec![1]),
    ];
    let model = Graph {
        nodes: vec![
            source("a", vec![2]),
            source("b", vec![3]),
            einsum_node(axes, vec![0, 1], vec![2, 3]),
        ],
    };
    match &model.nodes[2].op {
        Operator::EinSum(op) => {
            assert!(matches!(step(op, &model, 2), Err(CoreError::UnsupportedContraction)));
        }
        _ => unreachable!(),
    }
}

#[test]
fn step_duplicate_role_is_unsupported() {
    // two left-free axes fall into the same role
    let axes = vec![
        ax(b'm', vec![0], vec![], vec![0]),
        ax(b'p', vec![1], vec![], vec![1]),
        ax(b'k', vec![2], vec![0], vec![]),
        ax(b'n', vec![], vec![1], vec![2]),
    ];
    let model = Graph {
        nodes: vec![
            source("a", vec![2, 2, 3]),
            source("b", vec![3, 4]),
            einsum_node(axes, vec![0, 1], vec![2, 2, 4]),
        ],
    };
    match &model.nodes[2].op {
        Operator::EinSum(op) => {
            assert!(matches!(step(op, &model, 2), Err(CoreError::UnsupportedContraction)));
        }
        _ => unreachable!(),
    }
}

#[test]
fn step_rank_mismatch_is_internal_error() {
    // classification succeeds, but the output fact has the wrong rank
    let axes = vec![
        ax(b'm', vec![0], vec![], vec![0]),
        ax(b'k', vec![1], vec![0], vec![]),
        ax(b'n', vec![], vec![1], vec![1]),
    ];
    let model = Graph {
        nodes: vec![
            source("a", vec![2, 3]),
            source("b", vec![3, 4]),
            einsum_node(axes, vec![0, 1], vec![2, 4, 1]),
        ],
    };
    match &model.nodes[2].op {
        Operator::EinSum(op) => {
            assert!(matches!(step(op, &model, 2), Err(CoreError::InternalConsistency)));
        }
        _ => unreachable!(),
    }
}

#[test]
fn quantized_contraction_is_preserved() {
    // nine inputs with quantization parameters: the pass leaves the node
    // unchanged rather than dropping its parameters.
    let axes = vec![
        ax(b'm', vec![0], vec![], vec![0]),
        ax(b'k', vec![1], vec![0], vec![]),
        ax(b'n', vec![], vec![1], vec![1]),
    ];
    let mut nodes = vec![source("a", vec![2, 3]), source("b", vec![3, 4])];
    for i in 0..7 {
        nodes.push(source(&format!("q{}", i), vec![1]));
    }
    nodes.push(Node {
        name: "einsum".to_string(),
        op: Operator::EinSum(EinSumOp {
            axes: AxesMapping { axes },
            operating_dt: DatumType::I64,
            q_params: Some(DatumType::I64),
        }),
        inputs: vec![0, 1, 2, 3, 4, 5, 6, 7, 8],
        fact: fact(vec![2, 4]),
    });
    let mut model = Graph { nodes };
    decompose_einsums_in_place(&mut model).unwrap();
    assert!(matches!(model.nodes[9].op, Operator::EinSum(_)));
}

#[test]
fn decompose_standalone_builds_minimal_graph() {
    let model = mk_kn_mn_graph();
    let sub = match &model.nodes[2].op {
        Operator::EinSum(op) => decompose(op, &model, 2).unwrap(),
        _ => unreachable!(),
    };
    // fresh placeholder sources with the facts preserved, then the lowering
    assert!(matches!(sub.nodes[0].op, Operator::Source));
    assert!(matches!(sub.nodes[1].op, Operator::Source));
    assert_eq!(sub.nodes[0].fact.shape, vec![2, 3]);
    assert_eq!(sub.nodes[1].fact.shape, vec![3, 4]);
    assert!(sub.nodes.iter().all(|n| !matches!(n.op, Operator::EinSum(_))));
    let a = tensor(vec![2, 3], (1..=6).collect());
    let b = tensor(vec![3, 4], (1..=12).collect());
    let c = run(&sub, vec![a, b]);
    assert_eq!(c.data, vec![38, 44, 50, 56, 83, 98, 113, 128]);
}

#[test]
fn eval_order_is_node_order() {
    let model = mk_kn_mn_graph();
    assert_eq!(model.eval_order(), vec![0, 1, 2]);
}

#[test]
fn add_source_appends() {
    let mut model = Graph { nodes: vec![] };
    let id = model.add_source("a".to_string(), fact(vec![2]));
    assert_eq!(id, 0);
    assert_eq!(model.nodes.len(), 1);
    assert!(matches!(model.nodes[0].op, Operator::Source));
}

#[test]
fn step_fact_extent_mismatch_is_internal_error() {
    // classification succeeds, but the stored output fact disagrees with
    // the lowered operator's inferred shape
    let axes = vec![
        ax(b'm', vec![0], vec![], vec![0]),
        ax(b'k', vec![1], vec![0], vec![]),
        ax(b'n', vec![], vec![1], vec![1]),
    ];
    let model = Graph {
        nodes: vec![
            source("a", vec![2, 3]),
            source("b", vec![3, 4]),
            einsum_node(axes, vec![0, 1], vec![2, 5]),
        ],
    };
    match &model.nodes[2].op {
        Operator::EinSum(op) => {
            assert!(matches!(step(op, &model, 2), Err(CoreError::InternalConsistency)));
        }
        _ => unreachable!(),
    }
}
