// Tests for problem assembly: variable resolution, dense gradients,
// coordinate matrices, Hessian combination, and the linear problem type.

use optmodel::node::Node;
use optmodel::problem::{AssembleError, CooMat, ProblemLp, combine_h, dense_gradient,
    variable_index};

const X: u64 = 1;
const Y: u64 = 2;

fn value_at(m: &CooMat, r: usize, c: usize) -> i64 {
    m.triplets
        .iter()
        .filter(|t| t.0 == r && t.1 == c)
        .map(|t| t.2)
        .sum()
}

#[test]
fn resolution_finds_first_position() {
    let order = vec![7u64, 3, 9];
    assert_eq!(variable_index(&order, 3).unwrap(), 1);
    assert_eq!(variable_index(&order, 7).unwrap(), 0);
    assert!(matches!(
        variable_index(&order, 4),
        Err(AssembleError::UnknownVariable(4))
    ));
}

#[test]
fn dense_gradient_of_affine_expression() {
    // 7*x + 10*y + 5 over the ordering [y, x]
    let z = Node::add(
        Node::add(
            Node::multiply(Node::constant(7), Node::variable(X)),
            Node::multiply(Node::constant(10), Node::variable(Y)),
        ),
        Node::constant(5),
    );
    let p = z.properties();
    let g = dense_gradient(&p, &vec![Y, X]).unwrap();
    assert_eq!(g, vec![10, 7]);
}

#[test]
fn missing_variable_fails_fast() {
    // an ordering omitting a variable appearing in the expression is an
    // error, never a silently dropped coefficient
    let z = Node::add(Node::variable(X), Node::variable(Y));
    let p = z.properties();
    match dense_gradient(&p, &vec![X]) {
        Err(AssembleError::UnknownVariable(v)) => assert_eq!(v, Y),
        _ => panic!("expected a resolution error"),
    }
}

#[test]
fn combine_h_merges_coordinates() {
    // objective entry (x,x,3), constraint entry (x,x,2), multiplier 4:
    // combined entry (x,x, 3 + 4*2) = (x,x,11)
    let obj = CooMat::new(2, 2, vec![(0, 0, 3)]);
    let cons = vec![CooMat::new(2, 2, vec![(0, 0, 2)])];
    let combined = combine_h(&obj, &cons, &vec![4]);
    assert_eq!(value_at(&combined, 0, 0), 11);
    // merged: the position is named at most once
    let hits = combined
        .triplets
        .iter()
        .filter(|t| t.0 == 0 && t.1 == 0)
        .count();
    assert_eq!(hits, 1);
}

#[test]
fn combine_h_keeps_distinct_positions() {
    let obj = CooMat::new(3, 3, vec![(0, 0, 1), (1, 2, 5)]);
    let cons = vec![
        CooMat::new(3, 3, vec![(1, 2, 2), (2, 2, 7)]),
        CooMat::new(3, 3, vec![(0, 0, 10)]),
    ];
    let combined = combine_h(&obj, &cons, &vec![3, -1]);
    assert_eq!(value_at(&combined, 0, 0), 1 - 10);
    assert_eq!(value_at(&combined, 1, 2), 5 + 6);
    assert_eq!(value_at(&combined, 2, 2), 21);
    assert_eq!(value_at(&combined, 1, 1), 0);
}

#[test]
fn problem_lp_evaluate() {
    // minimize c^T x with A the identity-like coordinate matrix
    let c = vec![1, 2, 3];
    let a = CooMat::new(2, 3, vec![(0, 0, 1), (0, 2, 4), (1, 1, 1)]);
    let b = vec![0, 0];
    let l = vec![-10, -10, -10];
    let u = vec![10, 10, 10];
    let mut p = ProblemLp::new(c, a, b, l, u, Some(vec![0, 0, 0]));
    assert_eq!(p.nx(), 3);
    assert_eq!(p.na(), 2);
    assert_eq!(p.gphi(), &vec![1, 2, 3]);
    p.evaluate(&vec![5, 6, 7]);
    assert_eq!(p.phi, 1 * 5 + 2 * 6 + 3 * 7);
    assert_eq!(p.f, vec![5 + 4 * 7, 6]);
}
