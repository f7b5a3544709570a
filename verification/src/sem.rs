//! Mathematical model of expressions: the set of variables an expression
//! mentions, and an exact evaluation semantics over the scalar ring for the
//! polynomial fragment (constants, variables, sums, products). Quotients and
//! the trigonometric kinds have no semantics in the scalar ring; claims about
//! them in this library are structural, not numeric.

use vstd::prelude::*;
use crate::node::Expr;
use crate::scalar::{wadd, wmul};

verus! {

/// The set of variable identities appearing in the expression.
pub open spec fn varset(e: Expr) -> Set<u64>
    decreases e,
{
    match e {
        Expr::Constant(_) => Set::empty(),
        Expr::Variable(v) => Set::empty().insert(v),
        Expr::Add(cs) => varset_seq(cs),
        Expr::Mul(cs) => varset_seq(cs),
        Expr::Div(n, d) => varset(*n).union(varset(*d)),
        Expr::Sin(a) => varset(*a),
        Expr::Cos(a) => varset(*a),
    }
}

/// The set of variable identities appearing in any of the children.
pub open spec fn varset_seq(cs: Seq<Expr>) -> Set<u64>
    decreases cs,
{
    if cs.len() == 0 {
        Set::empty()
    } else {
        varset(cs[0]).union(varset_seq(cs.drop_first()))
    }
}

/// True iff the expression is built from constants, variables, sums and
/// products alone: the fragment whose value at a point lies in the scalar
/// ring.
pub open spec fn polynomial(e: Expr) -> bool
    decreases e,
{
    match e {
        Expr::Constant(_) => true,
        Expr::Variable(_) => true,
        Expr::Add(cs) => poly_seq(cs),
        Expr::Mul(cs) => poly_seq(cs),
        Expr::Div(n, d) => false,
        Expr::Sin(a) => false,
        Expr::Cos(a) => false,
    }
}

/// True iff every child is polynomial.
pub open spec fn poly_seq(cs: Seq<Expr>) -> bool
    decreases cs,
{
    if cs.len() == 0 {
        true
    } else {
        polynomial(cs[0]) && poly_seq(cs.drop_first())
    }
}

/// The value of a polynomial expression at the point `p`, which assigns a
/// scalar to every variable identity. On the non-polynomial kinds the result
/// is a placeholder; every claim over this function is guarded by
/// `polynomial`.
pub open spec fn peval(e: Expr, p: Map<u64, i64>) -> i64
    decreases e,
{
    match e {
        Expr::Constant(c) => c,
        Expr::Variable(v) => p[v],
        Expr::Add(cs) => psum(cs, p),
        Expr::Mul(cs) => pprod(cs, p),
        Expr::Div(n, d) => 0,
        Expr::Sin(a) => 0,
        Expr::Cos(a) => 0,
    }
}

/// The wrapping sum of the children's values.
pub open spec fn psum(cs: Seq<Expr>, p: Map<u64, i64>) -> i64
    decreases cs,
{
    if cs.len() == 0 {
        0
    } else {
        wadd(peval(cs[0], p), psum(cs.drop_first(), p))
    }
}

/// The wrapping product of the children's values.
pub open spec fn pprod(cs: Seq<Expr>, p: Map<u64, i64>) -> i64
    decreases cs,
{
    if cs.len() == 0 {
        1
    } else {
        wmul(peval(cs[0], p), pprod(cs.drop_first(), p))
    }
}

/// The value at `p` of the partial derivative of a polynomial expression
/// with respect to the variable `v`: the textbook rules, with the product
/// rule in its recursive (Leibniz) form. As with `peval`, the result on the
/// non-polynomial kinds is a placeholder.
pub open spec fn deval(e: Expr, v: u64, p: Map<u64, i64>) -> i64
    decreases e,
{
    match e {
        Expr::Constant(_) => 0,
        Expr::Variable(w) => if w == v { 1 } else { 0 },
        Expr::Add(cs) => dsum(cs, v, p),
        Expr::Mul(cs) => dprod(cs, v, p),
        Expr::Div(n, d) => 0,
        Expr::Sin(a) => 0,
        Expr::Cos(a) => 0,
    }
}

/// Derivative value of a sum: the sum of the children's derivative values.
pub open spec fn dsum(cs: Seq<Expr>, v: u64, p: Map<u64, i64>) -> i64
    decreases cs,
{
    if cs.len() == 0 {
        0
    } else {
        wadd(deval(cs[0], v, p), dsum(cs.drop_first(), v, p))
    }
}

/// Derivative value of a product, by the Leibniz rule:
/// `(c0 * rest)' = c0' * rest + c0 * rest'`.
pub open spec fn dprod(cs: Seq<Expr>, v: u64, p: Map<u64, i64>) -> i64
    decreases cs,
{
    if cs.len() == 0 {
        0
    } else {
        wadd(
            wmul(deval(cs[0], v, p), pprod(cs.drop_first(), p)),
            wmul(peval(cs[0], p), dprod(cs.drop_first(), v, p)),
        )
    }
}

} // verus!

verus! {

/// Facts about two-child sequences, the shape the combinators build:
/// variable set, membership in the polynomial fragment, value, and
/// derivative value.
pub proof fn lemma_pair(x: Expr, y: Expr)
    ensures
        varset_seq(seq![x, y]) == varset(x).union(varset(y)),
        poly_seq(seq![x, y]) == (polynomial(x) && polynomial(y)),
{
    reveal_with_fuel(varset_seq, 3);
    reveal_with_fuel(poly_seq, 3);
    let s = seq![x, y];
    assert(s.drop_first() =~= seq![y]);
    assert(seq![y].drop_first() =~= Seq::<Expr>::empty());
    assert(varset_seq(s) =~= varset(x).union(varset(y)));
}

/// Value of a two-child sum and product.
pub proof fn lemma_pair_eval(x: Expr, y: Expr, p: Map<u64, i64>)
    ensures
        psum(seq![x, y], p) == wadd(peval(x, p), peval(y, p)),
        pprod(seq![x, y], p) == wmul(peval(x, p), peval(y, p)),
{
    reveal_with_fuel(psum, 3);
    reveal_with_fuel(pprod, 3);
    let s = seq![x, y];
    assert(s.drop_first() =~= seq![y]);
    assert(seq![y].drop_first() =~= Seq::<Expr>::empty());
    crate::scalar::lemma_wadd_zero(peval(y, p));
    crate::scalar::lemma_wmul_unit(peval(y, p));
}

/// Derivative value of a two-child sum and product: the binary sum and
/// Leibniz rules.
pub proof fn lemma_pair_deriv(x: Expr, y: Expr, v: u64, p: Map<u64, i64>)
    ensures
        dsum(seq![x, y], v, p) == wadd(deval(x, v, p), deval(y, v, p)),
        dprod(seq![x, y], v, p) == wadd(
            wmul(deval(x, v, p), peval(y, p)),
            wmul(peval(x, p), deval(y, v, p)),
        ),
{
    reveal_with_fuel(psum, 3);
    reveal_with_fuel(pprod, 3);
    reveal_with_fuel(dsum, 3);
    reveal_with_fuel(dprod, 3);
    let s = seq![x, y];
    assert(s.drop_first() =~= seq![y]);
    assert(seq![y].drop_first() =~= Seq::<Expr>::empty());
    crate::scalar::lemma_wadd_zero(deval(y, v, p));
    crate::scalar::lemma_wmul_unit(peval(y, p));
    crate::scalar::lemma_wmul_unit(deval(y, v, p));
    crate::scalar::lemma_wmul_unit(peval(x, p));
    crate::scalar::lemma_wadd_zero(wadd(
        wmul(deval(x, v, p), peval(y, p)),
        wmul(peval(x, p), deval(y, v, p)),
    ));
}

} // verus!
