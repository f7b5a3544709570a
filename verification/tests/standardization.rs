// Tests for the expression core: construction, differentiation, affine
// classification, and standardized components.

use optmodel::node::Node;

const X: u64 = 1;
const Y: u64 = 2;

fn var(id: u64) -> Node {
    Node::variable(id)
}

fn con(v: i64) -> Node {
    Node::constant(v)
}

// Numeric evaluation of an expression at a two-variable point; the
// floating-point reading of expressions lives outside the verified core.
fn eval_f64(n: &Node, x: f64, y: f64) -> f64 {
    match n {
        Node::Constant(c) => *c as f64,
        Node::Variable(v) => {
            if *v == X {
                x
            } else if *v == Y {
                y
            } else {
                panic!("invalid variable");
            }
        }
        Node::Add(cs) => cs.iter().map(|c| eval_f64(c, x, y)).sum(),
        Node::Mul(cs) => cs.iter().map(|c| eval_f64(c, x, y)).product(),
        Node::Div(a, b) => eval_f64(a, x, y) / eval_f64(b, x, y),
        Node::Sin(a) => eval_f64(a, x, y).sin(),
        Node::Cos(a) => eval_f64(a, x, y).cos(),
    }
}

// expr = 7*x + 10*y + 5
fn affine_expr() -> Node {
    Node::add(
        Node::add(
            Node::multiply(con(7), var(X)),
            Node::multiply(con(10), var(Y)),
        ),
        con(5),
    )
}

// expr = 7*cos(x) + 10*y*x + 5
fn nonaffine_expr() -> Node {
    Node::add(
        Node::add(
            Node::multiply(con(7), Node::cosine(var(X))),
            Node::multiply(Node::multiply(con(10), var(Y)), var(X)),
        ),
        con(5),
    )
}

#[test]
fn components_affine() {
    let z1 = affine_expr();
    let c1 = z1.components();

    assert!(c1.prop.affine);
    assert_eq!(c1.phi, z1);
    assert_eq!(c1.gphi.len(), 2);
    for (v, e) in c1.gphi.iter() {
        if *v == X {
            assert!(e.is_constant_with_value(7));
        } else if *v == Y {
            assert!(e.is_constant_with_value(10));
        } else {
            panic!("invalid variable");
        }
    }
    assert_eq!(c1.hphi.len(), 0);
}

#[test]
fn components_not_affine() {
    let z2 = nonaffine_expr();
    let c2 = z2.components();

    assert!(!c2.prop.affine);
    assert_eq!(c2.phi, z2);
    assert_eq!(c2.gphi.len(), 2);
    for (v, e) in c2.gphi.iter() {
        if *v == X {
            // 10*y - 7*sin(x), numerically 0 at the origin
            assert_eq!(eval_f64(e, 0.0, 0.0), 0.0);
            assert_eq!(eval_f64(e, 0.0, 3.0), 30.0);
        } else if *v == Y {
            // 10*x, numerically 0 at the origin
            assert_eq!(eval_f64(e, 0.0, 0.0), 0.0);
            assert_eq!(eval_f64(e, 2.0, 0.0), 20.0);
        } else {
            panic!("invalid variable");
        }
    }
    assert_eq!(c2.hphi.len(), 2);
    for (v1, v2, e) in c2.hphi.iter() {
        if *v1 == X && *v2 == X {
            // -7*cos(x), numerically -7 at the origin
            assert_eq!(eval_f64(e, 0.0, 0.0), -7.0);
        } else if *v1 == X && *v2 == Y {
            assert_eq!(eval_f64(e, 0.0, 0.0), 10.0);
        } else {
            // in particular no (y, x) entry: upper triangle only
            panic!("invalid variable");
        }
    }
}

#[test]
fn affine_value_matches_expression() {
    let z = affine_expr();
    let p = z.properties();
    assert!(p.affine);
    assert_eq!(p.b, 5);
    // constant_term + sum of coefficient * value equals direct evaluation
    for &(xv, yv) in &[(0i64, 0i64), (3, -2), (-11, 7)] {
        let direct = 7 * xv + 10 * yv + 5;
        let mut from_props = p.b;
        for (k, c) in p.a.iter() {
            let v = if *k == X { xv } else { yv };
            from_props += c * v;
        }
        assert_eq!(from_props, direct);
    }
}

#[test]
fn gradient_matches_finite_difference() {
    let z = nonaffine_expr();
    let c = z.components();
    let (x0, y0) = (0.3, -0.7);
    let h = 1e-6;
    let tol = 1e-4;
    for (v, e) in c.gphi.iter() {
        let symbolic = eval_f64(e, x0, y0);
        let fd = if *v == X {
            (eval_f64(&z, x0 + h, y0) - eval_f64(&z, x0 - h, y0)) / (2.0 * h)
        } else {
            (eval_f64(&z, x0, y0 + h) - eval_f64(&z, x0, y0 - h)) / (2.0 * h)
        };
        assert!((symbolic - fd).abs() < tol);
    }
}

#[test]
fn hessian_upper_triangle_and_nonzero() {
    let c = nonaffine_expr().components();
    for (i, (a1, b1, e1)) in c.hphi.iter().enumerate() {
        assert!(!e1.is_constant_with_value(0));
        for (j, (a2, b2, _)) in c.hphi.iter().enumerate() {
            if i != j && a1 != b1 {
                assert!(!(a2 == b1 && b2 == a1));
            }
        }
    }
}

#[test]
fn zero_pruning() {
    // differentiating a constant yields the zero constant
    assert!(con(42).derivative(X).is_constant_with_value(0));
    // a coefficient that folds to zero never reaches the gradient
    let z = Node::add(var(X), Node::multiply(con(-1), var(X)));
    let c = z.components();
    assert!(c.prop.affine);
    assert_eq!(c.gphi.len(), 0);
    assert_eq!(c.hphi.len(), 0);
}

#[test]
fn properties_idempotent() {
    let z = nonaffine_expr();
    let p1 = z.properties();
    let p2 = z.properties();
    assert_eq!(p1.affine, p2.affine);
    assert_eq!(p1.a, p2.a);
    assert_eq!(p1.b, p2.b);

    let w = affine_expr();
    let q1 = w.properties();
    let q2 = w.properties();
    assert_eq!(q1.affine, q2.affine);
    assert_eq!(q1.a, q2.a);
    assert_eq!(q1.b, q2.b);
}

#[test]
fn derivative_rules_structural() {
    // sine: chain rule with the unit inner derivative pruned
    assert_eq!(Node::sine(var(X)).derivative(X), Node::cosine(var(X)));
    // cosine: -1 * sin(x)
    assert_eq!(
        Node::cosine(var(X)).derivative(X),
        Node::multiply(con(-1), Node::sine(var(X)))
    );
    // variable against itself and against another
    assert!(var(X).derivative(X).is_constant_with_value(1));
    assert!(var(X).derivative(Y).is_constant_with_value(0));
}

#[test]
fn derivatives_requested_order() {
    let z = nonaffine_expr();
    let ds = z.derivatives(&vec![Y, X]);
    assert_eq!(ds.len(), 2);
    assert_eq!(ds[0].0, Y);
    assert_eq!(ds[1].0, X);
    assert_eq!(eval_f64(&ds[0].1, 2.0, 0.0), 20.0);
    assert_eq!(eval_f64(&ds[1].1, 0.0, 3.0), 30.0);
}

#[test]
fn quotient_rule_numeric() {
    // z = x / y, dz/dx = 1/y, dz/dy = -x/y^2
    let z = Node::divide(var(X), var(Y));
    let dx = z.derivative(X);
    let dy = z.derivative(Y);
    let (x0, y0) = (3.0, 2.0);
    assert!((eval_f64(&dx, x0, y0) - 0.5).abs() < 1e-12);
    assert!((eval_f64(&dy, x0, y0) + 0.75).abs() < 1e-12);
}

#[test]
fn structural_equality_and_clone() {
    let a = nonaffine_expr();
    let b = nonaffine_expr();
    assert_eq!(a, b);
    assert_eq!(a.clone(), a);
    assert!(a != affine_expr());
    assert!(a.node_eq(&b));
    // constants compare by value, variables by identity
    assert_eq!(con(3), con(3));
    assert!(con(3) != con(4));
    assert!(var(X) != var(Y));
    assert!(var(X) != con(1));
}

#[test]
fn simplification_folds_literals() {
    // additions of literal zero collapse
    assert_eq!(Node::add(con(0), var(X)), var(X));
    assert_eq!(Node::add(var(X), con(0)), var(X));
    // multiplication by literal zero collapses, by literal one is dropped
    assert!(Node::multiply(con(0), var(X)).is_constant_with_value(0));
    assert!(Node::multiply(var(X), con(0)).is_constant_with_value(0));
    assert_eq!(Node::multiply(con(1), var(X)), var(X));
    assert_eq!(Node::multiply(var(X), con(1)), var(X));
}
