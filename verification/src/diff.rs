//! The differentiation engine: for an expression and a variable, the
//! symbolic first partial derivative, built by recursive rule dispatch with
//! algebraic simplification (literal zero and one pruning) through the
//! combinators.
//!
//! The exact tree every rule builds is the spec function [`sderiv`]; on the
//! polynomial fragment the engine is also proved sound against the
//! mathematical derivative value [`deval`].

use vstd::prelude::*;
use crate::node::{Node, Expr, expr_seq, esize, esize_seq, sadd, smul};
use crate::node::{lemma_expr_seq, lemma_esize_seq_elem};
use crate::sem::{varset, varset_seq, polynomial, poly_seq, peval, pprod, deval, dsum, dprod};

verus! {

/// The product of a sequence of children, folded through `smul`.
pub open spec fn sprod(cs: Seq<Expr>) -> Expr
    decreases cs,
{
    if cs.len() == 0 {
        Expr::Constant(1)
    } else {
        smul(cs[0], sprod(cs.drop_first()))
    }
}

/// The symbolic derivative of an expression with respect to `v`:
/// - a constant differentiates to zero;
/// - a variable differentiates to one against itself, zero otherwise;
/// - a sum differentiates childwise, zero terms dropped;
/// - a product follows the product rule in recursive Leibniz form;
/// - a quotient follows the quotient rule, with the squared denominator
///   built as a product and the negation as multiplication by minus one;
/// - sine and cosine follow the chain rule.
pub open spec fn sderiv(e: Expr, v: u64) -> Expr
    decreases e,
{
    match e {
        Expr::Constant(_) => Expr::Constant(0),
        Expr::Variable(w) => if w == v {
            Expr::Constant(1)
        } else {
            Expr::Constant(0)
        },
        Expr::Add(cs) => sdsum(cs, v),
        Expr::Mul(cs) => sdprod(cs, v),
        Expr::Div(n, d) => Expr::Div(
            Box::new(
                sadd(
                    smul(sderiv(*n, v), *d),
                    smul(Expr::Constant(-1i64), smul(*n, sderiv(*d, v))),
                ),
            ),
            Box::new(smul(*d, *d)),
        ),
        Expr::Sin(a) => smul(Expr::Cos(a), sderiv(*a, v)),
        Expr::Cos(a) => smul(Expr::Constant(-1i64), smul(Expr::Sin(a), sderiv(*a, v))),
    }
}

/// Symbolic derivative of a sum of children.
pub open spec fn sdsum(cs: Seq<Expr>, v: u64) -> Expr
    decreases cs,
{
    if cs.len() == 0 {
        Expr::Constant(0)
    } else {
        sadd(sderiv(cs[0], v), sdsum(cs.drop_first(), v))
    }
}

/// Symbolic derivative of a product of children, by the Leibniz rule.
pub open spec fn sdprod(cs: Seq<Expr>, v: u64) -> Expr
    decreases cs,
{
    if cs.len() == 0 {
        Expr::Constant(0)
    } else {
        sadd(
            smul(sderiv(cs[0], v), sprod(cs.drop_first())),
            smul(cs[0], sdprod(cs.drop_first(), v)),
        )
    }
}

impl Node {
    /// The symbolic first partial derivative of this expression with
    /// respect to the variable `v`: exactly the tree `sderiv` describes.
    /// It mentions no variable the expression does not, and on the
    /// polynomial fragment its value at every point is the mathematical
    /// derivative value `deval`.
    pub fn derivative(&self, v: u64) -> (r: Node)
        ensures
            r@ == sderiv(self@, v),
            polynomial(self@) ==> polynomial(r@),
            varset(r@).subset_of(varset(self@)),
            forall|p: Map<u64, i64>|
                polynomial(self@) ==> #[trigger] peval(r@, p) == deval(self@, v, p),
        decreases esize(self@), 1int, 0int,
    {
        match self {
            Node::Constant(_) => Node::Constant(0),
            Node::Variable(w) => {
                if *w == v {
                    Node::Constant(1)
                } else {
                    Node::Constant(0)
                }
            },
            Node::Add(cs) => {
                proof {
                    assert(esize(self@) == 1 + esize_seq(expr_seq(cs@)));
                    assert(expr_seq(cs@).skip(0) =~= expr_seq(cs@));
                }
                deriv_sum_from(cs, v, 0, Ghost(self@))
            },
            Node::Mul(cs) => {
                proof {
                    assert(esize(self@) == 1 + esize_seq(expr_seq(cs@)));
                    assert(expr_seq(cs@).skip(0) =~= expr_seq(cs@));
                }
                deriv_prod_from(cs, v, 0, Ghost(self@))
            },
            Node::Div(n, d) => {
                proof {
                    assert(esize(self@) == 1 + esize((**n)@) + esize((**d)@));
                }
                let dn = n.derivative(v);
                let dd = d.derivative(v);
                let num = Node::add(
                    Node::multiply(dn, d.deep_clone()),
                    Node::multiply(Node::constant(-1), Node::multiply(n.deep_clone(), dd)),
                );
                let den = Node::multiply(d.deep_clone(), d.deep_clone());
                Node::divide(num, den)
            },
            Node::Sin(a) => Node::multiply(Node::cosine(a.deep_clone()), a.derivative(v)),
            Node::Cos(a) => Node::multiply(
                Node::constant(-1),
                Node::multiply(Node::sine(a.deep_clone()), a.derivative(v)),
            ),
        }
    }

    /// The symbolic first partial derivatives of this expression with
    /// respect to each requested variable, in the requested order.
    pub fn derivatives(&self, vars: &Vec<u64>) -> (r: Vec<(u64, Node)>)
        ensures
            r@.len() == vars@.len(),
            forall|j: int|
                0 <= j < vars@.len() ==> (#[trigger] r@[j]).0 == vars@[j] && r@[j].1@ == sderiv(
                    self@,
                    vars@[j],
                ),
            forall|j: int, p: Map<u64, i64>|
                0 <= j < vars@.len() && polynomial(self@) ==> #[trigger] peval(r@[j].1@, p)
                    == deval(self@, vars@[j], p),
            forall|j: int|
                0 <= j < vars@.len() ==> (#[trigger] varset(r@[j].1@)).subset_of(varset(self@)),
    {
        let mut r: Vec<(u64, Node)> = Vec::new();
        let mut i: usize = 0;
        while i < vars.len()
            invariant
                i <= vars.len(),
                r@.len() == i,
                forall|j: int|
                    0 <= j < i ==> (#[trigger] r@[j]).0 == vars@[j] && r@[j].1@ == sderiv(
                        self@,
                        vars@[j],
                    ),
                forall|j: int, p: Map<u64, i64>|
                    0 <= j < i && polynomial(self@) ==> #[trigger] peval(r@[j].1@, p) == deval(
                        self@,
                        vars@[j],
                        p,
                    ),
                forall|j: int|
                    0 <= j < i ==> (#[trigger] varset(r@[j].1@)).subset_of(varset(self@)),
            decreases vars.len() - i,
        {
            r.push((vars[i], self.derivative(vars[i])));
            i += 1;
        }
        r
    }
}

/// Derivative of the sum of the children from position `i` on; a helper
/// for `Node::derivative`.
fn deriv_sum_from(cs: &Vec<Node>, v: u64, i: usize, parent: Ghost<Expr>) -> (r: Node)
    requires
        i <= cs.len(),
        esize_seq(expr_seq(cs@)) < esize(parent@),
    ensures
        r@ == sdsum(expr_seq(cs@).skip(i as int), v),
        poly_seq(expr_seq(cs@).skip(i as int)) ==> polynomial(r@),
        varset(r@).subset_of(varset_seq(expr_seq(cs@).skip(i as int))),
        forall|p: Map<u64, i64>|
            poly_seq(expr_seq(cs@).skip(i as int)) ==> #[trigger] peval(r@, p) == dsum(
                expr_seq(cs@).skip(i as int),
                v,
                p,
            ),
    decreases esize(parent@), 0int, cs.len() - i,
{
    proof {
        lemma_expr_seq(cs@);
    }
    let ghost t = expr_seq(cs@).skip(i as int);
    if i == cs.len() {
        proof {
            assert(t =~= Seq::<Expr>::empty());
        }
        Node::constant(0)
    } else {
        proof {
            lemma_esize_seq_elem(expr_seq(cs@), i as int);
            assert(t[0] == cs@[i as int]@);
            assert(t.drop_first() =~= expr_seq(cs@).skip(i as int + 1));
        }
        let d = cs[i].derivative(v);
        let rest = deriv_sum_from(cs, v, i + 1, parent);
        let r = Node::add(d, rest);
        proof {
            assert(r@ == sadd(sderiv(t[0], v), sdsum(t.drop_first(), v)));
            assert forall|p: Map<u64, i64>| poly_seq(t) implies #[trigger] peval(r@, p) == dsum(
                t,
                v,
                p,
            ) by {}
        }
        r
    }
}

/// The product of the children from position `i` on, as an expression; a
/// helper for the product rule.
fn prod_from(cs: &Vec<Node>, i: usize, parent: Ghost<Expr>) -> (r: Node)
    requires
        i <= cs.len(),
        esize_seq(expr_seq(cs@)) < esize(parent@),
    ensures
        r@ == sprod(expr_seq(cs@).skip(i as int)),
        poly_seq(expr_seq(cs@).skip(i as int)) ==> polynomial(r@),
        varset(r@).subset_of(varset_seq(expr_seq(cs@).skip(i as int))),
        forall|p: Map<u64, i64>|
            poly_seq(expr_seq(cs@).skip(i as int)) ==> #[trigger] peval(r@, p) == pprod(
                expr_seq(cs@).skip(i as int),
                p,
            ),
    decreases esize(parent@), 0int, cs.len() - i,
{
    proof {
        lemma_expr_seq(cs@);
    }
    let ghost t = expr_seq(cs@).skip(i as int);
    if i == cs.len() {
        proof {
            assert(t =~= Seq::<Expr>::empty());
        }
        Node::constant(1)
    } else {
        proof {
            lemma_esize_seq_elem(expr_seq(cs@), i as int);
            assert(t[0] == cs@[i as int]@);
            assert(t.drop_first() =~= expr_seq(cs@).skip(i as int + 1));
        }
        let r = Node::multiply(cs[i].deep_clone(), prod_from(cs, i + 1, parent));
        r
    }
}

/// Derivative of the product of the children from position `i` on, by the
/// Leibniz rule; a helper for `Node::derivative`.
fn deriv_prod_from(cs: &Vec<Node>, v: u64, i: usize, parent: Ghost<Expr>) -> (r: Node)
    requires
        i <= cs.len(),
        esize_seq(expr_seq(cs@)) < esize(parent@),
    ensures
        r@ == sdprod(expr_seq(cs@).skip(i as int), v),
        poly_seq(expr_seq(cs@).skip(i as int)) ==> polynomial(r@),
        varset(r@).subset_of(varset_seq(expr_seq(cs@).skip(i as int))),
        forall|p: Map<u64, i64>|
            poly_seq(expr_seq(cs@).skip(i as int)) ==> #[trigger] peval(r@, p) == dprod(
                expr_seq(cs@).skip(i as int),
                v,
                p,
            ),
    decreases esize(parent@), 0int, cs.len() - i,
{
    proof {
        lemma_expr_seq(cs@);
    }
    let ghost t = expr_seq(cs@).skip(i as int);
    if i == cs.len() {
        proof {
            assert(t =~= Seq::<Expr>::empty());
        }
        Node::constant(0)
    } else {
        proof {
            lemma_esize_seq_elem(expr_seq(cs@), i as int);
            assert(t[0] == cs@[i as int]@);
            assert(t.drop_first() =~= expr_seq(cs@).skip(i as int + 1));
        }
        let t1 = Node::multiply(cs[i].derivative(v), prod_from(cs, i + 1, parent));
        let t2 = Node::multiply(cs[i].deep_clone(), deriv_prod_from(cs, v, i + 1, parent));
        let r = Node::add(t1, t2);
        r
    }
}

} // verus!
