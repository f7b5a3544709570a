//! The standardization engine: classifies an expression as affine or not,
//! extracts its coefficient mapping and constant term, and assembles the
//! standardized components — value, gradient, and sparse upper-triangular
//! Hessian — that the problem layer consumes.

use vstd::prelude::*;
use crate::node::{Node, Expr, expr_seq, esize, esize_seq, lemma_expr_seq, lemma_esize_seq_elem};
use crate::sem::{peval, psum, pprod, varset, varset_seq};
use crate::coeffs::{key_seq, distinct, list_dot, merge_keys, merge_add, scale_list};
use crate::scalar::{wadd, wmul, lemma_wadd_zero, lemma_wmul_unit, lemma_wadd_assoc,
    lemma_wmul_assoc, lemma_wadd4, lemma_bilinear};
use crate::diff::sderiv;

verus! {

/// The variable support of an expression: every variable identity that
/// appears in it, in first-appearance order (children visited in order,
/// keys of earlier children keeping their positions).
pub open spec fn support(e: Expr) -> Seq<u64>
    decreases e,
{
    match e {
        Expr::Constant(_) => Seq::empty(),
        Expr::Variable(v) => seq![v],
        Expr::Add(cs) => support_fold(Seq::empty(), cs),
        Expr::Mul(cs) => support_fold(Seq::empty(), cs),
        Expr::Div(n, d) => merge_keys(support(*n), support(*d)),
        Expr::Sin(a) => support(*a),
        Expr::Cos(a) => support(*a),
    }
}

/// Folds the children's supports together, left to right.
pub open spec fn support_fold(acc: Seq<u64>, cs: Seq<Expr>) -> Seq<u64>
    decreases cs,
{
    if cs.len() == 0 {
        acc
    } else {
        support_fold(merge_keys(acc, support(cs[0])), cs.drop_first())
    }
}

/// The constant term of an expression under the affine reading: sums fold
/// by wrapping addition, products by wrapping multiplication. It is
/// meaningful where the expression is affine.
pub open spec fn bconst(e: Expr) -> i64
    decreases e,
{
    match e {
        Expr::Constant(c) => c,
        Expr::Variable(_) => 0,
        Expr::Add(cs) => bsum(cs),
        Expr::Mul(cs) => bprod(cs),
        Expr::Div(n, d) => 0,
        Expr::Sin(a) => 0,
        Expr::Cos(a) => 0,
    }
}

/// Wrapping sum of the children's constant terms.
pub open spec fn bsum(cs: Seq<Expr>) -> i64
    decreases cs,
{
    if cs.len() == 0 {
        0
    } else {
        wadd(bconst(cs[0]), bsum(cs.drop_first()))
    }
}

/// Wrapping product of the children's constant terms.
pub open spec fn bprod(cs: Seq<Expr>) -> i64
    decreases cs,
{
    if cs.len() == 0 {
        1
    } else {
        wmul(bconst(cs[0]), bprod(cs.drop_first()))
    }
}

/// True iff the expression is affine: a constant plus a linear combination
/// of variables with constant coefficients. Constants and variables are
/// affine; a sum of affine children is affine; a product is affine while
/// at most one factor mentions a variable; quotients and the trigonometric
/// kinds are not affine.
pub open spec fn is_affine(e: Expr) -> bool
    decreases e,
{
    match e {
        Expr::Constant(_) => true,
        Expr::Variable(_) => true,
        Expr::Add(cs) => affine_seq(cs),
        Expr::Mul(cs) => aff_mul_fold(true, Seq::empty(), cs),
        Expr::Div(n, d) => false,
        Expr::Sin(a) => false,
        Expr::Cos(a) => false,
    }
}

/// True iff every child is affine.
pub open spec fn affine_seq(cs: Seq<Expr>) -> bool
    decreases cs,
{
    if cs.len() == 0 {
        true
    } else {
        is_affine(cs[0]) && affine_seq(cs.drop_first())
    }
}

/// Affinity of a product, folded left to right: every factor must be
/// affine, and no factor may mention a variable once one already has.
pub open spec fn aff_mul_fold(aff: bool, ks: Seq<u64>, cs: Seq<Expr>) -> bool
    decreases cs,
{
    if cs.len() == 0 {
        aff
    } else {
        aff_mul_fold(
            aff && is_affine(cs[0]) && (ks.len() == 0 || support(cs[0]).len() == 0),
            merge_keys(ks, support(cs[0])),
            cs.drop_first(),
        )
    }
}

/// The affine properties of an expression: whether it is affine, its
/// coefficient list (keys are the expression's variable support, in
/// first-appearance order), and its constant term. Produced fresh per
/// call; nothing is cached in the node.
pub struct NodeStdProp {
    /// Whether the expression is affine.
    pub affine: bool,
    /// The coefficient list, one entry per variable of the support.
    pub a: Vec<(u64, i64)>,
    /// The constant term.
    pub b: i64,
}

impl Node {
    /// Derives the affine properties of this expression. The affine flag,
    /// the keys and their order, and the constant term are each a function
    /// of the expression alone; where the expression is affine, its value
    /// at every point is the constant term plus the coefficient list's dot
    /// product with the point.
    #[verifier::rlimit(100)]
    pub fn properties(&self) -> (r: NodeStdProp)
        ensures
            r.affine == is_affine(self@),
            distinct(key_seq(r.a@)),
            key_seq(r.a@) == support(self@),
            r.b == bconst(self@),
            r.affine ==> forall|p: Map<u64, i64>| #[trigger] peval(self@, p) == wadd(
                r.b,
                list_dot(r.a@, p),
            ),
        decreases esize(self@), 1int, 0int,
    {
        match self {
            Node::Constant(c) => {
                let r = NodeStdProp { affine: true, a: Vec::new(), b: *c };
                proof {
                    assert(key_seq(r.a@) =~= support(self@));
                    assert forall|p: Map<u64, i64>| #[trigger] peval(self@, p) == wadd(
                        r.b,
                        list_dot(r.a@, p),
                    ) by {
                        lemma_wadd_zero(r.b);
                    }
                }
                r
            },
            Node::Variable(v) => {
                let r = NodeStdProp { affine: true, a: vec![(*v, 1i64)], b: 0 };
                proof {
                    assert(key_seq(r.a@) =~= support(self@));
                    assert forall|p: Map<u64, i64>| #[trigger] peval(self@, p) == wadd(
                        r.b,
                        list_dot(r.a@, p),
                    ) by {
                        assert(r.a@.drop_first() =~= Seq::<(u64, i64)>::empty());
                        assert(r.a@[0] == (*v, 1i64));
                        assert(list_dot(Seq::<(u64, i64)>::empty(), p) == 0);
                        lemma_wmul_unit(p[*v]);
                        lemma_wadd_zero(wmul(1, p[*v]));
                        lemma_wadd_zero(p[*v]);
                        lemma_wadd_zero(wadd(wmul(1, p[*v]), 0));
                    }
                }
                r
            },
            Node::Add(cs) => {
                proof {
                    assert(esize(self@) == 1 + esize_seq(expr_seq(cs@)));
                    lemma_expr_seq(cs@);
                }
                let ghost t = expr_seq(cs@);
                let mut affine = true;
                let mut a: Vec<(u64, i64)> = Vec::new();
                let mut b: i64 = 0;
                proof {
                    assert(t.skip(0) =~= t);
                    assert(key_seq(a@) =~= Seq::<u64>::empty());
                    assert(support(self@) == support_fold(Seq::empty(), t));
                    assert forall|p: Map<u64, i64>| #[trigger] wadd(
                        wadd(b, list_dot(a@, p)),
                        psum(t.skip(0), p),
                    ) == peval(self@, p) by {
                        lemma_wadd_zero(0);
                        lemma_wadd_zero(psum(t, p));
                    }
                }
                let mut i: usize = 0;
                while i < cs.len()
                    invariant
                        i <= cs@.len(),
                        t == expr_seq(cs@),
                        self@ == Expr::Add(t),
                        t.len() == cs@.len(),
                        forall|j: int| 0 <= j < cs@.len() ==> t[j] == cs@[j]@,
                        esize(self@) == 1 + esize_seq(t),
                        distinct(key_seq(a@)),
                        support_fold(key_seq(a@), t.skip(i as int)) == support(self@),
                        (affine && affine_seq(t.skip(i as int))) == is_affine(self@),
                        wadd(b, bsum(t.skip(i as int))) == bconst(self@),
                        affine ==> forall|p: Map<u64, i64>| #[trigger] wadd(
                            wadd(b, list_dot(a@, p)),
                            psum(t.skip(i as int), p),
                        ) == peval(self@, p),
                    decreases cs@.len() - i,
                {
                    proof {
                        lemma_esize_seq_elem(t, i as int);
                        assert(t.skip(i as int)[0] == t[i as int]);
                        assert(t.skip(i as int).drop_first() =~= t.skip(i as int + 1));
                        assert(t.skip(i as int).len() > 0);
                    }
                    let ghost pre_a = a@;
                    let ghost pre_b = b;
                    let ghost pre_aff = affine;
                    let q = cs[i].properties();
                    affine = affine && q.affine;
                    merge_add(&mut a, &q.a);
                    b = b.wrapping_add(q.b);
                    proof {
                        let ti = t[i as int];
                        assert(support_fold(key_seq(pre_a), t.skip(i as int)) == support_fold(
                            merge_keys(key_seq(pre_a), support(ti)),
                            t.skip(i as int + 1),
                        ));
                        assert(bsum(t.skip(i as int)) == wadd(bconst(ti), bsum(t.skip(i as int + 1))));
                        lemma_wadd_assoc(pre_b, q.b, bsum(t.skip(i as int + 1)));
                        assert(affine_seq(t.skip(i as int)) == (is_affine(ti) && affine_seq(
                            t.skip(i as int + 1),
                        )));
                        if affine {
                            assert forall|p: Map<u64, i64>| #[trigger] wadd(
                                wadd(b, list_dot(a@, p)),
                                psum(t.skip(i as int + 1), p),
                            ) == peval(self@, p) by {
                                assert(wadd(
                                    wadd(pre_b, list_dot(pre_a, p)),
                                    psum(t.skip(i as int), p),
                                ) == peval(self@, p));
                                assert(peval(ti, p) == wadd(q.b, list_dot(q.a@, p)));
                                assert(psum(t.skip(i as int), p) == wadd(
                                    peval(ti, p),
                                    psum(t.skip(i as int + 1), p),
                                ));
                                lemma_wadd4(pre_b, q.b, list_dot(pre_a, p), list_dot(q.a@, p));
                                lemma_wadd_assoc(
                                    wadd(pre_b, list_dot(pre_a, p)),
                                    wadd(q.b, list_dot(q.a@, p)),
                                    psum(t.skip(i as int + 1), p),
                                );
                            }
                        }
                    }
                    i += 1;
                }
                proof {
                    assert(t.skip(cs@.len() as int) =~= Seq::<Expr>::empty());
                    assert(support_fold(key_seq(a@), Seq::<Expr>::empty()) == key_seq(a@));
                    lemma_wadd_zero(b);
                    if affine {
                        assert forall|p: Map<u64, i64>| #[trigger] peval(self@, p) == wadd(
                            b,
                            list_dot(a@, p),
                        ) by {
                            assert(wadd(
                                wadd(b, list_dot(a@, p)),
                                psum(t.skip(i as int), p),
                            ) == peval(self@, p));
                            lemma_wadd_zero(wadd(b, list_dot(a@, p)));
                        }
                    }
                }
                NodeStdProp { affine, a, b }
            },
            Node::Mul(cs) => {
                proof {
                    assert(esize(self@) == 1 + esize_seq(expr_seq(cs@)));
                    lemma_expr_seq(cs@);
                }
                let ghost t = expr_seq(cs@);
                let mut affine = true;
                let mut a: Vec<(u64, i64)> = Vec::new();
                let mut b: i64 = 1;
                proof {
                    assert(t.skip(0) =~= t);
                    assert(key_seq(a@) =~= Seq::<u64>::empty());
                    assert(support(self@) == support_fold(Seq::empty(), t));
                    assert(is_affine(self@) == aff_mul_fold(true, Seq::empty(), t));
                    lemma_wmul_unit(bprod(t));
                    assert forall|p: Map<u64, i64>| #[trigger] wmul(
                        wadd(b, list_dot(a@, p)),
                        pprod(t.skip(0), p),
                    ) == peval(self@, p) by {
                        lemma_wadd_zero(1);
                        lemma_wmul_unit(pprod(t, p));
                    }
                }
                let mut i: usize = 0;
                while i < cs.len()
                    invariant
                        i <= cs@.len(),
                        t == expr_seq(cs@),
                        self@ == Expr::Mul(t),
                        t.len() == cs@.len(),
                        forall|j: int| 0 <= j < cs@.len() ==> t[j] == cs@[j]@,
                        esize(self@) == 1 + esize_seq(t),
                        distinct(key_seq(a@)),
                        support_fold(key_seq(a@), t.skip(i as int)) == support(self@),
                        aff_mul_fold(affine, key_seq(a@), t.skip(i as int)) == is_affine(self@),
                        wmul(b, bprod(t.skip(i as int))) == bconst(self@),
                        affine ==> forall|p: Map<u64, i64>| #[trigger] wmul(
                            wadd(b, list_dot(a@, p)),
                            pprod(t.skip(i as int), p),
                        ) == peval(self@, p),
                    decreases cs@.len() - i,
                {
                    proof {
                        lemma_esize_seq_elem(t, i as int);
                        assert(t.skip(i as int)[0] == t[i as int]);
                        assert(t.skip(i as int).drop_first() =~= t.skip(i as int + 1));
                        assert(t.skip(i as int).len() > 0);
                    }
                    let ghost pre_a = a@;
                    let ghost pre_b = b;
                    let ghost pre_aff = affine;
                    let q = cs[i].properties();
                    let new_affine = affine && q.affine && (a.len() == 0 || q.a.len() == 0);
                    let mut merged = scale_list(&a, q.b);
                    let sq = scale_list(&q.a, b);
                    merge_add(&mut merged, &sq);
                    a = merged;
                    b = b.wrapping_mul(q.b);
                    affine = new_affine;
                    proof {
                        let ti = t[i as int];
                        assert(key_seq(pre_a).len() == pre_a.len());
                        assert(key_seq(q.a@).len() == q.a@.len());
                        assert(key_seq(a@) == merge_keys(key_seq(pre_a), support(ti)));
                        assert(support_fold(key_seq(pre_a), t.skip(i as int)) == support_fold(
                            merge_keys(key_seq(pre_a), support(ti)),
                            t.skip(i as int + 1),
                        ));
                        assert(aff_mul_fold(pre_aff, key_seq(pre_a), t.skip(i as int))
                            == aff_mul_fold(
                            pre_aff && is_affine(ti) && (key_seq(pre_a).len() == 0 || support(
                                ti,
                            ).len() == 0),
                            merge_keys(key_seq(pre_a), support(ti)),
                            t.skip(i as int + 1),
                        ));
                        assert(bprod(t.skip(i as int)) == wmul(bconst(ti), bprod(t.skip(i as int + 1))));
                        lemma_wmul_assoc(pre_b, q.b, bprod(t.skip(i as int + 1)));
                        assert(wmul(q.b, bprod(t.skip(i as int + 1))) == wmul(
                            bconst(ti),
                            bprod(t.skip(i as int + 1)),
                        ));
                        if affine {
                            assert forall|p: Map<u64, i64>| #[trigger] wmul(
                                wadd(b, list_dot(a@, p)),
                                pprod(t.skip(i as int + 1), p),
                            ) == peval(self@, p) by {
                                assert(wmul(
                                    wadd(pre_b, list_dot(pre_a, p)),
                                    pprod(t.skip(i as int), p),
                                ) == peval(self@, p));
                                assert(peval(ti, p) == wadd(q.b, list_dot(q.a@, p)));
                                assert(pprod(t.skip(i as int), p) == wmul(
                                    peval(ti, p),
                                    pprod(t.skip(i as int + 1), p),
                                ));
                                assert(list_dot(a@, p) == wadd(
                                    wmul(q.b, list_dot(pre_a, p)),
                                    wmul(pre_b, list_dot(q.a@, p)),
                                ));
                                if pre_a.len() == 0 {
                                    assert(list_dot(pre_a, p) == 0);
                                } else {
                                    assert(q.a@.len() == 0);
                                    assert(list_dot(q.a@, p) == 0);
                                }
                                lemma_bilinear(pre_b, q.b, list_dot(pre_a, p), list_dot(q.a@, p));
                                lemma_wmul_assoc(
                                    wadd(pre_b, list_dot(pre_a, p)),
                                    wadd(q.b, list_dot(q.a@, p)),
                                    pprod(t.skip(i as int + 1), p),
                                );
                            }
                        }
                    }
                    i += 1;
                }
                proof {
                    assert(t.skip(cs@.len() as int) =~= Seq::<Expr>::empty());
                    assert(support_fold(key_seq(a@), Seq::<Expr>::empty()) == key_seq(a@));
                    assert(aff_mul_fold(affine, key_seq(a@), Seq::<Expr>::empty()) == affine);
                    lemma_wmul_unit(b);
                    if affine {
                        assert forall|p: Map<u64, i64>| #[trigger] peval(self@, p) == wadd(
                            b,
                            list_dot(a@, p),
                        ) by {
                            assert(wmul(
                                wadd(b, list_dot(a@, p)),
                                pprod(t.skip(i as int), p),
                            ) == peval(self@, p));
                            lemma_wmul_unit(wadd(b, list_dot(a@, p)));
                        }
                    }
                }
                NodeStdProp { affine, a, b }
            },
            Node::Div(n, d) => {
                proof {
                    assert(esize(self@) == 1 + esize((**n)@) + esize((**d)@));
                }
                let np = n.properties();
                let dp = d.properties();
                let mut a = np.a;
                merge_add(&mut a, &dp.a);
                NodeStdProp { affine: false, a, b: 0 }
            },
            Node::Sin(arg) => {
                let ap = arg.properties();
                NodeStdProp { affine: false, a: ap.a, b: 0 }
            },
            Node::Cos(arg) => {
                let ap = arg.properties();
                NodeStdProp { affine: false, a: ap.a, b: 0 }
            },
        }
    }
}

/// The nonzero entries of a coefficient list, in order.
pub open spec fn grad_affine(a: Seq<(u64, i64)>) -> Seq<(u64, i64)>
    decreases a,
{
    if a.len() == 0 {
        Seq::empty()
    } else if a[0].1 == 0 {
        grad_affine(a.drop_first())
    } else {
        seq![a[0]] + grad_affine(a.drop_first())
    }
}

/// A coefficient list read as gradient entries: each coefficient becomes a
/// constant expression.
pub open spec fn cmap(a: Seq<(u64, i64)>) -> Seq<(u64, Expr)> {
    a.map_values(|kv: (u64, i64)| (kv.0, Expr::Constant(kv.1)))
}

/// The gradient of a non-affine expression over the variables `ks`: one
/// entry per variable whose symbolic derivative is not the zero constant,
/// in the variables' order.
pub open spec fn grad_general(e: Expr, ks: Seq<u64>) -> Seq<(u64, Expr)>
    decreases ks,
{
    if ks.len() == 0 {
        Seq::empty()
    } else if sderiv(e, ks[0]) == Expr::Constant(0) {
        grad_general(e, ks.drop_first())
    } else {
        seq![(ks[0], sderiv(e, ks[0]))] + grad_general(e, ks.drop_first())
    }
}

/// One Hessian row: the second derivatives of the first derivative `d`
/// (taken with respect to `vi`) against each variable of `ks`, the zero
/// constants pruned.
pub open spec fn hess_row(d: Expr, vi: u64, ks: Seq<u64>) -> Seq<(u64, u64, Expr)>
    decreases ks,
{
    if ks.len() == 0 {
        Seq::empty()
    } else if sderiv(d, ks[0]) == Expr::Constant(0) {
        hess_row(d, vi, ks.drop_first())
    } else {
        seq![(vi, ks[0], sderiv(d, ks[0]))] + hess_row(d, vi, ks.drop_first())
    }
}

/// The upper triangle of the Hessian over the variables `ks`: the row of
/// each variable ranges only over the variables at its position or later,
/// so a mixed second derivative appears once.
pub open spec fn hess_rows(e: Expr, ks: Seq<u64>) -> Seq<(u64, u64, Expr)>
    decreases ks,
{
    if ks.len() == 0 {
        Seq::empty()
    } else {
        hess_row(sderiv(e, ks[0]), ks[0], ks) + hess_rows(e, ks.drop_first())
    }
}

/// The views of gradient entries.
pub open spec fn gview(g: Seq<(u64, Node)>) -> Seq<(u64, Expr)> {
    g.map_values(|kv: (u64, Node)| (kv.0, kv.1@))
}

/// The views of Hessian entries.
pub open spec fn hview(h: Seq<(u64, u64, Node)>) -> Seq<(u64, u64, Expr)> {
    h.map_values(|kv: (u64, u64, Node)| (kv.0, kv.1, kv.2@))
}

/// The standardized components of an expression: the expression itself,
/// its gradient as `(variable, expression)` pairs, its Hessian as sparse
/// upper-triangular `(variable, variable, expression)` triplets, and its
/// affine properties.
pub struct NodeStdComp {
    /// The expression the components were derived from, unchanged.
    pub phi: Node,
    /// The gradient: one entry per support variable with nonzero
    /// coefficient or derivative, in support order.
    pub gphi: Vec<(u64, Node)>,
    /// The Hessian upper triangle, zero entries pruned.
    pub hphi: Vec<(u64, u64, Node)>,
    /// The affine properties.
    pub prop: NodeStdProp,
}

impl Node {
    /// Derives the standardized components of this expression. For an
    /// affine expression the gradient is read directly off the
    /// coefficient list — no differentiation — and the Hessian is empty;
    /// otherwise the gradient holds the nonzero symbolic first
    /// derivatives over the support, and the Hessian the nonzero second
    /// derivatives of the upper triangle.
    #[verifier::rlimit(100)]
    pub fn components(&self) -> (r: NodeStdComp)
        ensures
            r.phi@ == self@,
            r.prop.affine == is_affine(self@),
            distinct(key_seq(r.prop.a@)),
            key_seq(r.prop.a@) == support(self@),
            r.prop.b == bconst(self@),
            r.prop.affine ==> forall|p: Map<u64, i64>| #[trigger] peval(self@, p) == wadd(
                r.prop.b,
                list_dot(r.prop.a@, p),
            ),
            is_affine(self@) ==> gview(r.gphi@) == cmap(grad_affine(r.prop.a@)),
            is_affine(self@) ==> r.hphi@.len() == 0,
            !is_affine(self@) ==> gview(r.gphi@) == grad_general(self@, support(self@)),
            !is_affine(self@) ==> hview(r.hphi@) == hess_rows(self@, support(self@)),
    {
        let prop = self.properties();
        let phi = self.deep_clone();
        let mut gphi: Vec<(u64, Node)> = Vec::new();
        let mut hphi: Vec<(u64, u64, Node)> = Vec::new();
        if prop.affine {
            let ghost a0 = prop.a@;
            proof {
                assert(a0.skip(0) =~= a0);
                assert(gview(gphi@) =~= Seq::<(u64, Expr)>::empty());
                assert(gview(gphi@) + cmap(grad_affine(a0.skip(0))) =~= cmap(grad_affine(a0)));
            }
            let mut i: usize = 0;
            while i < prop.a.len()
                invariant
                    i <= a0.len(),
                    a0 == prop.a@,
                    gview(gphi@) + cmap(grad_affine(a0.skip(i as int))) == cmap(grad_affine(a0)),
                decreases a0.len() - i,
            {
                let (k, v) = prop.a[i];
                proof {
                    assert(a0.skip(i as int)[0] == (k, v));
                    assert(a0.skip(i as int).drop_first() =~= a0.skip(i as int + 1));
                    assert(a0.skip(i as int).len() > 0);
                }
                if v != 0 {
                    let ghost pre = gphi@;
                    gphi.push((k, Node::constant(v)));
                    proof {
                        assert(grad_affine(a0.skip(i as int)) == seq![(k, v)] + grad_affine(
                            a0.skip(i as int + 1),
                        ));
                        assert(cmap(seq![(k, v)] + grad_affine(a0.skip(i as int + 1))) =~= seq![
                            (k, Expr::Constant(v)),
                        ] + cmap(grad_affine(a0.skip(i as int + 1))));
                        assert(gview(gphi@) =~= gview(pre) + seq![(k, Expr::Constant(v))]);
                        assert(gview(gphi@) + cmap(grad_affine(a0.skip(i as int + 1))) =~= gview(
                            pre,
                        ) + cmap(grad_affine(a0.skip(i as int))));
                    }
                }
                i += 1;
            }
            proof {
                assert(a0.skip(a0.len() as int) =~= Seq::<(u64, i64)>::empty());
                assert(cmap(grad_affine(a0.skip(a0.len() as int))) =~= Seq::<(u64, Expr)>::empty());
                assert(gview(gphi@) =~= gview(gphi@) + Seq::<(u64, Expr)>::empty());
            }
            NodeStdComp { phi, gphi, hphi, prop }
        } else {
            let ghost ks = key_seq(prop.a@);
            let ghost ev = self@;
            proof {
                assert(ks.skip(0) =~= ks);
                assert(gview(gphi@) =~= Seq::<(u64, Expr)>::empty());
                assert(gview(gphi@) + grad_general(ev, ks.skip(0)) =~= grad_general(ev, ks));
                assert(hview(hphi@) =~= Seq::<(u64, u64, Expr)>::empty());
                assert(hview(hphi@) + hess_rows(ev, ks.skip(0)) =~= hess_rows(ev, ks));
                assert(ks.len() == prop.a@.len());
                assert(forall|j: int| 0 <= j < ks.len() ==> ks[j] == prop.a@[j].0);
            }
            let mut i: usize = 0;
            while i < prop.a.len()
                invariant
                    i <= prop.a@.len(),
                    ev == self@,
                    ks == key_seq(prop.a@),
                    ks.len() == prop.a@.len(),
                    forall|j: int| 0 <= j < ks.len() ==> ks[j] == prop.a@[j].0,
                    gview(gphi@) + grad_general(ev, ks.skip(i as int)) == grad_general(ev, ks),
                    hview(hphi@) + hess_rows(ev, ks.skip(i as int)) == hess_rows(ev, ks),
                decreases prop.a@.len() - i,
            {
                let vi = prop.a[i].0;
                let d = self.derivative(vi);
                proof {
                    assert(ks.skip(i as int)[0] == ks[i as int]);
                    assert(ks.skip(i as int).drop_first() =~= ks.skip(i as int + 1));
                    assert(ks.skip(i as int).len() > 0);
                    assert(hess_rows(ev, ks.skip(i as int)) == hess_row(
                        sderiv(ev, vi),
                        vi,
                        ks.skip(i as int),
                    ) + hess_rows(ev, ks.skip(i as int + 1)));
                    assert(hview(hphi@) + (hess_row(d@, vi, ks.skip(i as int)) + hess_rows(
                        ev,
                        ks.skip(i as int + 1),
                    )) =~= (hview(hphi@) + hess_row(d@, vi, ks.skip(i as int))) + hess_rows(
                        ev,
                        ks.skip(i as int + 1),
                    ));
                }
                let mut j: usize = i;
                while j < prop.a.len()
                    invariant
                        i <= j <= prop.a@.len(),
                        ev == self@,
                        ks == key_seq(prop.a@),
                        ks.len() == prop.a@.len(),
                        forall|m: int| 0 <= m < ks.len() ==> ks[m] == prop.a@[m].0,
                        i < ks.len(),
                        vi == ks[i as int],
                        d@ == sderiv(ev, vi),
                        (hview(hphi@) + hess_row(d@, vi, ks.skip(j as int))) + hess_rows(
                            ev,
                            ks.skip(i as int + 1),
                        ) == hess_rows(ev, ks),
                    decreases prop.a@.len() - j,
                {
                    let vj = prop.a[j].0;
                    let dd = d.derivative(vj);
                    proof {
                        assert(ks.skip(j as int)[0] == ks[j as int]);
                        assert(ks.skip(j as int).drop_first() =~= ks.skip(j as int + 1));
                        assert(ks.skip(j as int).len() > 0);
                    }
                    if !dd.is_constant_with_value(0) {
                        let ghost pre = hphi@;
                        hphi.push((vi, vj, dd));
                        proof {
                            assert(hess_row(d@, vi, ks.skip(j as int)) == seq![(vi, vj, dd@)]
                                + hess_row(d@, vi, ks.skip(j as int + 1)));
                            assert(hview(hphi@) =~= hview(pre) + seq![(vi, vj, dd@)]);
                            assert((hview(hphi@) + hess_row(d@, vi, ks.skip(j as int + 1)))
                                =~= (hview(pre) + hess_row(d@, vi, ks.skip(j as int))));
                        }
                    }
                    j += 1;
                }
                proof {
                    assert(ks.skip(prop.a@.len() as int) =~= Seq::<u64>::empty());
                    assert(hess_row(d@, vi, Seq::<u64>::empty()) =~= Seq::<(u64, u64, Expr)>::empty());
                    assert(hview(hphi@) + Seq::<(u64, u64, Expr)>::empty() =~= hview(hphi@));
                    assert(hview(hphi@) + hess_rows(ev, ks.skip(i as int + 1)) == hess_rows(ev, ks));
                    assert(grad_general(ev, ks.skip(i as int)) == (if sderiv(ev, vi)
                        == Expr::Constant(0) {
                        grad_general(ev, ks.skip(i as int + 1))
                    } else {
                        seq![(vi, sderiv(ev, vi))] + grad_general(ev, ks.skip(i as int + 1))
                    }));
                }
                if !d.is_constant_with_value(0) {
                    let ghost pre = gphi@;
                    gphi.push((vi, d));
                    proof {
                        assert(gview(gphi@) =~= gview(pre) + seq![(vi, sderiv(ev, vi))]);
                        assert(gview(gphi@) + grad_general(ev, ks.skip(i as int + 1)) =~= gview(
                            pre,
                        ) + grad_general(ev, ks.skip(i as int)));
                    }
                }
                i += 1;
            }
            proof {
                assert(ks.skip(prop.a@.len() as int) =~= Seq::<u64>::empty());
                assert(grad_general(ev, Seq::<u64>::empty()) =~= Seq::<(u64, Expr)>::empty());
                assert(hess_rows(ev, Seq::<u64>::empty()) =~= Seq::<(u64, u64, Expr)>::empty());
                assert(gview(gphi@) =~= gview(gphi@) + Seq::<(u64, Expr)>::empty());
                assert(hview(hphi@) =~= hview(hphi@) + Seq::<(u64, u64, Expr)>::empty());
            }
            NodeStdComp { phi, gphi, hphi, prop }
        }
    }
}

/// A key stands in the merged order exactly where it stands in one of the
/// two orders merged.
proof fn lemma_merge_keys_contains(k1: Seq<u64>, k2: Seq<u64>)
    ensures
        forall|v: u64| #[trigger] merge_keys(k1, k2).contains(v) == (k1.contains(v)
            || k2.contains(v)),
    decreases k2,
{
    broadcast use vstd::seq_lib::lemma_seq_contains_after_push;

    if k2.len() != 0 {
        let x = k2[0];
        let k1x = if k1.contains(x) {
            k1
        } else {
            k1.push(x)
        };
        lemma_merge_keys_contains(k1x, k2.drop_first());
        assert forall|v: u64| #[trigger] merge_keys(k1, k2).contains(v) == (k1.contains(v)
            || k2.contains(v)) by {
            assert(merge_keys(k1, k2) == merge_keys(k1x, k2.drop_first()));
            assert(k2.drop_first().contains(v) ==> k2.contains(v)) by {
                if k2.drop_first().contains(v) {
                    let i = choose|i: int|
                        0 <= i < k2.drop_first().len() && k2.drop_first()[i] == v;
                    assert(k2[i + 1] == v);
                }
            }
            assert(k2.contains(v) && v != x ==> k2.drop_first().contains(v)) by {
                if k2.contains(v) && v != x {
                    let i = choose|i: int| 0 <= i < k2.len() && k2[i] == v;
                    assert(k2.drop_first()[i - 1] == v);
                }
            }
            assert(k2.contains(x)) by {
                assert(k2[0] == x);
            }
        }
    }
}

/// A variable identity stands in the support exactly where it appears in
/// the expression: the coefficient keys that `properties` produces are the
/// expression's variables and no others.
pub proof fn lemma_support_varset(e: Expr)
    ensures
        forall|v: u64| #[trigger] support(e).contains(v) == varset(e).contains(v),
    decreases e, 1int,
{
    broadcast use vstd::seq_lib::lemma_seq_contains_after_push;
    broadcast use vstd::seq_lib::lemma_seq_empty_contains_nothing;

    match e {
        Expr::Constant(_) => {
            assert(support(e) =~= Seq::<u64>::empty());
        },
        Expr::Variable(w) => {
            assert forall|v: u64| #[trigger] support(e).contains(v) == varset(e).contains(
                v,
            ) by {
                if v == w {
                    assert(seq![w][0] == v);
                }
                if support(e).contains(v) {
                    let i = choose|i: int| 0 <= i < seq![w].len() && seq![w][i] == v;
                    assert(v == w);
                }
            }
        },
        Expr::Add(cs) => {
            lemma_support_fold_varset(Seq::empty(), cs);
            assert forall|v: u64| #[trigger] support(e).contains(v) == varset(e).contains(
                v,
            ) by {
                assert(support(e) == support_fold(Seq::empty(), cs));
                assert(varset(e) == varset_seq(cs));
            }
        },
        Expr::Mul(cs) => {
            lemma_support_fold_varset(Seq::empty(), cs);
            assert forall|v: u64| #[trigger] support(e).contains(v) == varset(e).contains(
                v,
            ) by {
                assert(support(e) == support_fold(Seq::empty(), cs));
                assert(varset(e) == varset_seq(cs));
            }
        },
        Expr::Div(n, d) => {
            lemma_merge_keys_contains(support(*n), support(*d));
            lemma_support_varset(*n);
            lemma_support_varset(*d);
            assert forall|v: u64| #[trigger] support(e).contains(v) == varset(e).contains(
                v,
            ) by {
                assert(support(e) == merge_keys(support(*n), support(*d)));
                assert(merge_keys(support(*n), support(*d)).contains(v) == (support(
                    *n,
                ).contains(v) || support(*d).contains(v)));
            }
        },
        Expr::Sin(a) => {
            lemma_support_varset(*a);
            assert forall|v: u64| #[trigger] support(e).contains(v) == varset(e).contains(
                v,
            ) by {
                assert(support(e).contains(v) == support(*a).contains(v));
            }
        },
        Expr::Cos(a) => {
            lemma_support_varset(*a);
            assert forall|v: u64| #[trigger] support(e).contains(v) == varset(e).contains(
                v,
            ) by {
                assert(support(e).contains(v) == support(*a).contains(v));
            }
        },
    }
}

/// Helper for `lemma_support_varset`: the folded support of a child list.
proof fn lemma_support_fold_varset(acc: Seq<u64>, cs: Seq<Expr>)
    ensures
        forall|v: u64| #[trigger] support_fold(acc, cs).contains(v) == (acc.contains(v)
            || varset_seq(cs).contains(v)),
    decreases cs, 0int,
{
    if cs.len() == 0 {
        assert forall|v: u64| #[trigger] support_fold(acc, cs).contains(v) == (acc.contains(v)
            || varset_seq(cs).contains(v)) by {
            assert(support_fold(acc, cs) == acc);
            assert(!varset_seq(cs).contains(v));
        }
    } else {
        lemma_support_varset(cs[0]);
        lemma_merge_keys_contains(acc, support(cs[0]));
        lemma_support_fold_varset(merge_keys(acc, support(cs[0])), cs.drop_first());
        assert forall|v: u64| #[trigger] support_fold(acc, cs).contains(v) == (acc.contains(v)
            || varset_seq(cs).contains(v)) by {
            assert(support_fold(acc, cs) == support_fold(
                merge_keys(acc, support(cs[0])),
                cs.drop_first(),
            ));
            assert(support_fold(merge_keys(acc, support(cs[0])), cs.drop_first()).contains(v) == (
            merge_keys(acc, support(cs[0])).contains(v) || varset_seq(cs.drop_first()).contains(
                v,
            )));
            assert(merge_keys(acc, support(cs[0])).contains(v) == (acc.contains(v) || support(
                cs[0],
            ).contains(v)));
            assert(varset_seq(cs) == varset(cs[0]).union(varset_seq(cs.drop_first())));
        }
    }
}

/// Differentiating a constant with respect to any variable yields the
/// zero constant.
pub proof fn lemma_constant_derivative(c: i64, v: u64)
    ensures
        sderiv(Expr::Constant(c), v) == Expr::Constant(0),
{
}

/// Every gradient entry of a non-affine expression carries a derivative
/// that is not syntactically the zero constant: structural zeros are
/// omitted, never stored.
pub proof fn lemma_gradient_nonzero(e: Expr, ks: Seq<u64>)
    ensures
        forall|k: int|
            0 <= k < grad_general(e, ks).len() ==> (#[trigger] grad_general(e, ks)[k]).1
                != Expr::Constant(0),
    decreases ks,
{
    if ks.len() != 0 {
        lemma_gradient_nonzero(e, ks.drop_first());
        assert forall|k: int|
            0 <= k < grad_general(e, ks).len() implies (#[trigger] grad_general(e, ks)[k]).1
            != Expr::Constant(0) by {
            let rest = grad_general(e, ks.drop_first());
            if sderiv(e, ks[0]) == Expr::Constant(0) {
                assert(grad_general(e, ks)[k] == rest[k]);
            } else if k > 0 {
                assert(grad_general(e, ks)[k] == rest[k - 1]);
            }
        }
    }
}

/// Every affine gradient entry carries a nonzero coefficient.
pub proof fn lemma_gradient_affine_nonzero(a: Seq<(u64, i64)>)
    ensures
        forall|k: int|
            0 <= k < grad_affine(a).len() ==> (#[trigger] grad_affine(a)[k]).1 != 0,
    decreases a,
{
    if a.len() != 0 {
        lemma_gradient_affine_nonzero(a.drop_first());
        assert forall|k: int|
            0 <= k < grad_affine(a).len() implies (#[trigger] grad_affine(a)[k]).1 != 0 by {
            let rest = grad_affine(a.drop_first());
            if a[0].1 == 0 {
                assert(grad_affine(a)[k] == rest[k]);
            } else if k > 0 {
                assert(grad_affine(a)[k] == rest[k - 1]);
            }
        }
    }
}

/// True iff `a` and `b` stand at positions `i <= j` of `ks`: the shape of
/// an upper-triangle Hessian coordinate.
pub open spec fn upper_pair(ks: Seq<u64>, a: u64, b: u64) -> bool {
    exists|i: int, j: int| #![auto] 0 <= i <= j < ks.len() && ks[i] == a && ks[j] == b
}

/// Shape of one Hessian row: every entry's first variable is the row's,
/// its second is drawn from `ks`, and its value is not the zero constant.
proof fn lemma_hess_row_shape(d: Expr, vi: u64, ks: Seq<u64>)
    ensures
        forall|k: int|
            0 <= k < hess_row(d, vi, ks).len() ==> {
                let en = #[trigger] hess_row(d, vi, ks)[k];
                en.0 == vi && ks.contains(en.1) && en.2 != Expr::Constant(0)
            },
    decreases ks,
{
    if ks.len() != 0 {
        lemma_hess_row_shape(d, vi, ks.drop_first());
        assert forall|k: int| 0 <= k < hess_row(d, vi, ks).len() implies {
            let en = #[trigger] hess_row(d, vi, ks)[k];
            en.0 == vi && ks.contains(en.1) && en.2 != Expr::Constant(0)
        } by {
            let hd = hess_row(d, vi, ks);
            let rest = hess_row(d, vi, ks.drop_first());
            if sderiv(d, ks[0]) == Expr::Constant(0) {
                assert(hd[k] == rest[k]);
                let m = choose|m: int| 0 <= m < ks.drop_first().len() && ks.drop_first()[m] == rest[k].1;
                assert(ks[m + 1] == hd[k].1);
            } else {
                if k == 0 {
                    assert(hd[0] == (vi, ks[0], sderiv(d, ks[0])));
                    assert(ks[0] == hd[0].1);
                } else {
                    assert(hd[k] == rest[k - 1]);
                    let m = choose|m: int|
                        0 <= m < ks.drop_first().len() && ks.drop_first()[m] == rest[k - 1].1;
                    assert(ks[m + 1] == hd[k].1);
                }
            }
        }
    }
}

/// Shape of the assembled Hessian: every entry's value is not the zero
/// constant, and its coordinates stand at positions `i <= j` of `ks`.
pub proof fn lemma_hess_rows_shape(e: Expr, ks: Seq<u64>)
    ensures
        forall|k: int|
            0 <= k < hess_rows(e, ks).len() ==> {
                let en = #[trigger] hess_rows(e, ks)[k];
                en.2 != Expr::Constant(0) && upper_pair(ks, en.0, en.1)
            },
    decreases ks,
{
    if ks.len() != 0 {
        let row = hess_row(sderiv(e, ks[0]), ks[0], ks);
        let rest = hess_rows(e, ks.drop_first());
        lemma_hess_row_shape(sderiv(e, ks[0]), ks[0], ks);
        lemma_hess_rows_shape(e, ks.drop_first());
        assert forall|k: int| 0 <= k < hess_rows(e, ks).len() implies {
            let en = #[trigger] hess_rows(e, ks)[k];
            en.2 != Expr::Constant(0) && upper_pair(ks, en.0, en.1)
        } by {
            let hd = hess_rows(e, ks);
            if k < row.len() {
                assert(hd[k] == row[k]);
                let m = choose|m: int| 0 <= m < ks.len() && ks[m] == row[k].1;
                assert(0 <= 0 <= m < ks.len() && ks[0] == hd[k].0 && ks[m] == hd[k].1);
            } else {
                assert(hd[k] == rest[k - row.len()]);
                let en = rest[k - row.len()];
                let (m, n): (int, int) = choose|m: int, n: int|
                    #![auto]
                    0 <= m <= n < ks.drop_first().len() && ks.drop_first()[m] == en.0
                        && ks.drop_first()[n] == en.1;
                assert(ks[m + 1] == en.0 && ks[n + 1] == en.1);
            }
        }
    }
}

/// The Hessian holds the upper triangle only: over distinct variables it
/// never contains both `(a, b, _)` and `(b, a, _)` for `a != b`, and no
/// entry's value is syntactically the zero constant.
pub proof fn lemma_hessian_symmetry_sparsity(e: Expr, ks: Seq<u64>)
    requires
        distinct(ks),
    ensures
        forall|k: int|
            0 <= k < hess_rows(e, ks).len() ==> (#[trigger] hess_rows(e, ks)[k]).2
                != Expr::Constant(0),
        forall|k1: int, k2: int|
            0 <= k1 < hess_rows(e, ks).len() && 0 <= k2 < hess_rows(e, ks).len()
                && (#[trigger] hess_rows(e, ks)[k1]).0 != hess_rows(e, ks)[k1].1 ==> !((
            #[trigger] hess_rows(e, ks)[k2]).0 == hess_rows(e, ks)[k1].1 && hess_rows(e, ks)[k2].1
                == hess_rows(e, ks)[k1].0),
{
    lemma_hess_rows_shape(e, ks);
    let hd = hess_rows(e, ks);
    assert forall|k1: int, k2: int|
        0 <= k1 < hd.len() && 0 <= k2 < hd.len() && (#[trigger] hd[k1]).0 != hd[k1].1 implies !((
    #[trigger] hd[k2]).0 == hd[k1].1 && hd[k2].1 == hd[k1].0) by {
        if hd[k2].0 == hd[k1].1 && hd[k2].1 == hd[k1].0 {
            assert(upper_pair(ks, hd[k1].0, hd[k1].1));
            assert(upper_pair(ks, hd[k2].0, hd[k2].1));
            let (i1, j1): (int, int) = choose|i: int, j: int|
                #![auto]
                0 <= i <= j < ks.len() && ks[i] == hd[k1].0 && ks[j] == hd[k1].1;
            let (i2, j2): (int, int) = choose|i: int, j: int|
                #![auto]
                0 <= i <= j < ks.len() && ks[i] == hd[k2].0 && ks[j] == hd[k2].1;
            assert(ks[i2] == ks[j1]);
            assert(i2 == j1) by {
                if i2 < j1 {
                    assert(ks[i2] != ks[j1]);
                } else if j1 < i2 {
                    assert(ks[j1] != ks[i2]);
                }
            }
            assert(ks[j2] == ks[i1]);
            assert(j2 == i1) by {
                if j2 < i1 {
                    assert(ks[j2] != ks[i1]);
                } else if i1 < j2 {
                    assert(ks[i1] != ks[j2]);
                }
            }
            assert(i1 <= j1 && i2 <= j2);
            assert(i1 == j1);
            assert(hd[k1].0 == hd[k1].1);
        }
    }
}

} // verus!
