//! The expression node: an immutable scalar expression that is a constant,
//! a reference to a decision variable, or a function application over child
//! expressions. Add and Mul are variadic; Div, Sin and Cos are fixed-arity.
//!
//! Every node is a value owned by its parents; transformations build new
//! nodes and never mutate, so the graph is acyclic by construction. The
//! mathematical view of a node is the ghost type [`Expr`], whose children
//! are sequences; all contracts speak of that view.

use vstd::prelude::*;
use crate::sem::{varset, polynomial, peval};
use crate::scalar::{wadd, wmul};

verus! {

/// The mathematical view of an expression: the same tree, with ghost
/// sequences for children. Two nodes are structurally equal iff their views
/// are equal: constants by value, variables by identity, applications by
/// kind and recursively equal children.
#[verifier::ext_equal]
pub ghost enum Expr {
    /// A fixed scalar.
    Constant(i64),
    /// A reference to a decision variable, by identity.
    Variable(u64),
    /// A variadic sum.
    Add(Seq<Expr>),
    /// A variadic product.
    Mul(Seq<Expr>),
    /// A quotient: numerator, denominator.
    Div(Box<Expr>, Box<Expr>),
    /// The sine of the argument.
    Sin(Box<Expr>),
    /// The cosine of the argument.
    Cos(Box<Expr>),
}

/// An immutable scalar expression.
///
/// Variable identities are supplied by the caller as plain integers; the
/// decision-variable subsystem that names them is outside this core.
#[derive(Debug, Hash)]
pub enum Node {
    /// A fixed scalar.
    Constant(i64),
    /// A reference to a decision variable, by identity.
    Variable(u64),
    /// A variadic sum of the children.
    Add(Vec<Node>),
    /// A variadic product of the children.
    Mul(Vec<Node>),
    /// A quotient: numerator, denominator.
    Div(Box<Node>, Box<Node>),
    /// The sine of the argument.
    Sin(Box<Node>),
    /// The cosine of the argument.
    Cos(Box<Node>),
}

/// The views of a sequence of child nodes.
pub open spec fn expr_seq(cs: Seq<Node>) -> Seq<Expr>
    decreases cs,
{
    if cs.len() == 0 {
        Seq::empty()
    } else {
        seq![cs[0]@] + expr_seq(cs.drop_first())
    }
}

impl View for Node {
    type V = Expr;

    open spec fn view(&self) -> Expr
        decreases self,
    {
        match self {
            Node::Constant(c) => Expr::Constant(*c),
            Node::Variable(v) => Expr::Variable(*v),
            Node::Add(cs) => Expr::Add(expr_seq(cs@)),
            Node::Mul(cs) => Expr::Mul(expr_seq(cs@)),
            Node::Div(n, d) => Expr::Div(Box::new((**n)@), Box::new((**d)@)),
            Node::Sin(a) => Expr::Sin(Box::new((**a)@)),
            Node::Cos(a) => Expr::Cos(Box::new((**a)@)),
        }
    }
}

/// The view of a child sequence is the sequence of the children's views.
pub broadcast proof fn lemma_expr_seq(cs: Seq<Node>)
    ensures
        (#[trigger] expr_seq(cs)).len() == cs.len(),
        forall|i: int| 0 <= i < cs.len() ==> expr_seq(cs)[i] == cs[i]@,
    decreases cs,
{
    if cs.len() != 0 {
        lemma_expr_seq(cs.drop_first());
        let t = seq![cs[0]@] + expr_seq(cs.drop_first());
        assert(expr_seq(cs) == t);
        assert(t.len() == 1 + expr_seq(cs.drop_first()).len());
        assert forall|i: int| 0 <= i < cs.len() implies expr_seq(cs)[i] == cs[i]@ by {
            if i > 0 {
                assert(t[i] == expr_seq(cs.drop_first())[i - 1]);
                assert(cs.drop_first()[i - 1] == cs[i]);
            }
        }
    }
}

/// The view of the two-child sequence the combinators build.
pub proof fn lemma_expr_pair(a: Node, b: Node)
    ensures
        expr_seq(seq![a, b]) == seq![a@, b@],
{
    lemma_expr_seq(seq![a, b]);
    assert(expr_seq(seq![a, b]) =~= seq![a@, b@]);
}

/// Number of nodes in an expression tree; a termination measure for
/// recursion that rebuilds subtrees.
pub open spec fn esize(e: Expr) -> nat
    decreases e,
{
    match e {
        Expr::Constant(_) => 1,
        Expr::Variable(_) => 1,
        Expr::Add(cs) => 1 + esize_seq(cs),
        Expr::Mul(cs) => 1 + esize_seq(cs),
        Expr::Div(n, d) => 1 + esize(*n) + esize(*d),
        Expr::Sin(a) => 1 + esize(*a),
        Expr::Cos(a) => 1 + esize(*a),
    }
}

/// Total size of a sequence of children.
pub open spec fn esize_seq(cs: Seq<Expr>) -> nat
    decreases cs,
{
    if cs.len() == 0 {
        0
    } else {
        esize(cs[0]) + esize_seq(cs.drop_first())
    }
}

/// Each child is no larger than the whole sequence.
pub proof fn lemma_esize_seq_elem(cs: Seq<Expr>, i: int)
    requires
        0 <= i < cs.len(),
    ensures
        esize(cs[i]) <= esize_seq(cs),
    decreases cs,
{
    if i > 0 {
        lemma_esize_seq_elem(cs.drop_first(), i - 1);
    }
}

/// The view that `Node::add` builds: a literal zero operand is dropped.
pub open spec fn sadd(a: Expr, b: Expr) -> Expr {
    if a == Expr::Constant(0) {
        b
    } else if b == Expr::Constant(0) {
        a
    } else {
        Expr::Add(seq![a, b])
    }
}

/// The view that `Node::multiply` builds: a literal zero operand collapses
/// the product to zero, a literal one operand is dropped.
pub open spec fn smul(a: Expr, b: Expr) -> Expr {
    if a == Expr::Constant(0) || b == Expr::Constant(0) {
        Expr::Constant(0)
    } else if a == Expr::Constant(1) {
        b
    } else if b == Expr::Constant(1) {
        a
    } else {
        Expr::Mul(seq![a, b])
    }
}

impl Node {
    /// Builds the fixed scalar `v`.
    pub fn constant(v: i64) -> (r: Node)
        ensures
            r@ == Expr::Constant(v),
    {
        Node::Constant(v)
    }

    /// Builds a reference to the decision variable with identity `id`.
    pub fn variable(id: u64) -> (r: Node)
        ensures
            r@ == Expr::Variable(id),
    {
        Node::Variable(id)
    }

    /// True iff the node is syntactically the constant `v`. No numeric
    /// evaluation of non-constant subtrees is performed.
    pub fn is_constant_with_value(&self, v: i64) -> (r: bool)
        ensures
            r == (self@ == Expr::Constant(v)),
    {
        match self {
            Node::Constant(c) => *c == v,
            Node::Variable(_) => false,
            Node::Add(_) => false,
            Node::Mul(_) => false,
            Node::Div(_, _) => false,
            Node::Sin(_) => false,
            Node::Cos(_) => false,
        }
    }

    /// Builds the sum of two expressions. A literal zero operand is
    /// dropped, so a sum in which every term folded to zero collapses to
    /// the zero constant; otherwise the result is the two-child sum, and
    /// its value at every point is the wrapping sum of the operands'
    /// values.
    pub fn add(a: Node, b: Node) -> (r: Node)
        ensures
            r@ == sadd(a@, b@),
            polynomial(a@) && polynomial(b@) ==> polynomial(r@),
            varset(r@).subset_of(varset(a@).union(varset(b@))),
            forall|p: Map<u64, i64>|
                polynomial(a@) && polynomial(b@) ==> #[trigger] peval(r@, p) == wadd(
                    peval(a@, p),
                    peval(b@, p),
                ),
    {
        let ghost av = a@;
        let ghost bv = b@;
        if a.is_constant_with_value(0) {
            proof {
                assert forall|p: Map<u64, i64>| peval(bv, p) == wadd(peval(av, p), peval(bv, p)) by {
                    crate::scalar::lemma_wadd_zero(peval(bv, p));
                }
            }
            b
        } else if b.is_constant_with_value(0) {
            proof {
                assert forall|p: Map<u64, i64>| peval(av, p) == wadd(peval(av, p), peval(bv, p)) by {
                    crate::scalar::lemma_wadd_zero(peval(av, p));
                }
            }
            a
        } else {
            let ghost s = seq![av, bv];
            proof {
                lemma_expr_pair(a, b);
            }
            let r = Node::Add(vec![a, b]);
            proof {
                assert(r@ == Expr::Add(s));
                crate::sem::lemma_pair(av, bv);
                assert forall|p: Map<u64, i64>| #[trigger] peval(Expr::Add(s), p)
                    == wadd(peval(av, p), peval(bv, p)) by {
                    crate::sem::lemma_pair_eval(av, bv, p);
                }
            }
            r
        }
    }

    /// Builds the product of two expressions. A literal zero operand
    /// collapses the product to the zero constant and a literal one
    /// operand is dropped; otherwise the result is the two-child product,
    /// and its value at every point is the wrapping product of the
    /// operands' values.
    pub fn multiply(a: Node, b: Node) -> (r: Node)
        ensures
            r@ == smul(a@, b@),
            polynomial(a@) && polynomial(b@) ==> polynomial(r@),
            varset(r@).subset_of(varset(a@).union(varset(b@))),
            forall|p: Map<u64, i64>|
                polynomial(a@) && polynomial(b@) ==> #[trigger] peval(r@, p) == wmul(
                    peval(a@, p),
                    peval(b@, p),
                ),
    {
        let ghost av = a@;
        let ghost bv = b@;
        if a.is_constant_with_value(0) || b.is_constant_with_value(0) {
            proof {
                assert forall|p: Map<u64, i64>|
                    peval(Expr::Constant(0), p) == wmul(peval(av, p), peval(bv, p)) by {
                    crate::scalar::lemma_wmul_unit(peval(av, p));
                    crate::scalar::lemma_wmul_unit(peval(bv, p));
                }
            }
            Node::Constant(0)
        } else if a.is_constant_with_value(1) {
            proof {
                assert forall|p: Map<u64, i64>| peval(bv, p) == wmul(peval(av, p), peval(bv, p)) by {
                    crate::scalar::lemma_wmul_unit(peval(bv, p));
                }
            }
            b
        } else if b.is_constant_with_value(1) {
            proof {
                assert forall|p: Map<u64, i64>| peval(av, p) == wmul(peval(av, p), peval(bv, p)) by {
                    crate::scalar::lemma_wmul_unit(peval(av, p));
                }
            }
            a
        } else {
            let ghost s = seq![av, bv];
            proof {
                lemma_expr_pair(a, b);
            }
            let r = Node::Mul(vec![a, b]);
            proof {
                assert(r@ == Expr::Mul(s));
                crate::sem::lemma_pair(av, bv);
                assert forall|p: Map<u64, i64>| #[trigger] peval(Expr::Mul(s), p)
                    == wmul(peval(av, p), peval(bv, p)) by {
                    crate::sem::lemma_pair_eval(av, bv, p);
                }
            }
            r
        }
    }

    /// Builds the quotient of two expressions. A literal zero denominator
    /// is representable and not rejected here; evaluating such a quotient
    /// is a concern of the numeric layer outside this core.
    pub fn divide(a: Node, b: Node) -> (r: Node)
        ensures
            r@ == Expr::Div(Box::new(a@), Box::new(b@)),
    {
        Node::Div(Box::new(a), Box::new(b))
    }

    /// Builds the sine of an expression.
    pub fn sine(a: Node) -> (r: Node)
        ensures
            r@ == Expr::Sin(Box::new(a@)),
    {
        Node::Sin(Box::new(a))
    }

    /// Builds the cosine of an expression.
    pub fn cosine(a: Node) -> (r: Node)
        ensures
            r@ == Expr::Cos(Box::new(a@)),
    {
        Node::Cos(Box::new(a))
    }

    /// Structural deep copy: the copy has the same view as the original.
    pub fn deep_clone(&self) -> (r: Node)
        ensures
            r@ == self@,
        decreases esize(self@), 1int,
    {
        match self {
            Node::Constant(c) => Node::Constant(*c),
            Node::Variable(v) => Node::Variable(*v),
            Node::Add(cs) => {
                proof {
                    assert(esize(self@) == 1 + esize_seq(expr_seq(cs@)));
                }
                Node::Add(clone_children(cs, Ghost(self@)))
            },
            Node::Mul(cs) => {
                proof {
                    assert(esize(self@) == 1 + esize_seq(expr_seq(cs@)));
                }
                Node::Mul(clone_children(cs, Ghost(self@)))
            },
            Node::Div(n, d) => {
                proof {
                    assert(esize(self@) == 1 + esize((**n)@) + esize((**d)@));
                }
                Node::Div(Box::new(n.deep_clone()), Box::new(d.deep_clone()))
            },
            Node::Sin(a) => Node::Sin(Box::new(a.deep_clone())),
            Node::Cos(a) => Node::Cos(Box::new(a.deep_clone())),
        }
    }

    /// Structural equality of two expressions: same kind, and recursively
    /// equal children; constants compare by value, variables by identity.
    pub fn node_eq(&self, other: &Node) -> (r: bool)
        ensures
            r == (self@ == other@),
        decreases esize(self@), 1int,
    {
        match (self, other) {
            (Node::Constant(x), Node::Constant(y)) => *x == *y,
            (Node::Variable(x), Node::Variable(y)) => *x == *y,
            (Node::Add(xs), Node::Add(ys)) => {
                proof {
                    assert(esize(self@) == 1 + esize_seq(expr_seq(xs@)));
                }
                children_eq(xs, ys, Ghost(self@))
            },
            (Node::Mul(xs), Node::Mul(ys)) => {
                proof {
                    assert(esize(self@) == 1 + esize_seq(expr_seq(xs@)));
                }
                children_eq(xs, ys, Ghost(self@))
            },
            (Node::Div(n1, d1), Node::Div(n2, d2)) => {
                proof {
                    assert(esize(self@) == 1 + esize((**n1)@) + esize((**d1)@));
                }
                n1.node_eq(n2) && d1.node_eq(d2)
            },
            (Node::Sin(a1), Node::Sin(a2)) => a1.node_eq(a2),
            (Node::Cos(a1), Node::Cos(a2)) => a1.node_eq(a2),
            _ => false,
        }
    }
}

/// Deep copy of a child sequence; a helper for `Node::deep_clone`.
fn clone_children(cs: &Vec<Node>, parent: Ghost<Expr>) -> (r: Vec<Node>)
    requires
        esize_seq(expr_seq(cs@)) < esize(parent@),
    ensures
        expr_seq(r@) == expr_seq(cs@),
    decreases esize(parent@), 0int,
{
    let mut out: Vec<Node> = Vec::new();
    let mut i: usize = 0;
    while i < cs.len()
        invariant
            i <= cs.len(),
            out@.len() == i,
            forall|j: int| 0 <= j < i ==> (#[trigger] out@[j])@ == cs@[j]@,
            esize_seq(expr_seq(cs@)) < esize(parent@),
        decreases cs.len() - i,
    {
        proof {
            lemma_expr_seq(cs@);
            lemma_esize_seq_elem(expr_seq(cs@), i as int);
        }
        out.push(cs[i].deep_clone());
        i += 1;
    }
    proof {
        lemma_expr_seq(cs@);
        lemma_expr_seq(out@);
        assert(expr_seq(out@) =~= expr_seq(cs@));
    }
    out
}

/// Structural equality of two child sequences; a helper for `Node::node_eq`.
fn children_eq(xs: &Vec<Node>, ys: &Vec<Node>, parent: Ghost<Expr>) -> (r: bool)
    requires
        esize_seq(expr_seq(xs@)) < esize(parent@),
    ensures
        r == (expr_seq(xs@) == expr_seq(ys@)),
    decreases esize(parent@), 0int,
{
    if xs.len() != ys.len() {
        proof {
            lemma_expr_seq(xs@);
            lemma_expr_seq(ys@);
        }
        return false;
    }
    let mut i: usize = 0;
    while i < xs.len()
        invariant
            i <= xs.len(),
            xs@.len() == ys@.len(),
            forall|j: int| 0 <= j < i ==> expr_seq(xs@)[j] == expr_seq(ys@)[j],
            esize_seq(expr_seq(xs@)) < esize(parent@),
        decreases xs.len() - i,
    {
        proof {
            lemma_expr_seq(xs@);
            lemma_expr_seq(ys@);
            lemma_esize_seq_elem(expr_seq(xs@), i as int);
        }
        if !xs[i].node_eq(&ys[i]) {
            proof {
                assert(expr_seq(xs@)[i as int] != expr_seq(ys@)[i as int]);
            }
            return false;
        }
        i += 1;
    }
    proof {
        lemma_expr_seq(xs@);
        lemma_expr_seq(ys@);
        assert(expr_seq(xs@) =~= expr_seq(ys@));
    }
    true
}

impl Clone for Node {
    /// Cloning is the structural deep copy.
    fn clone(&self) -> (r: Node)
        ensures
            r@ == self@,
    {
        self.deep_clone()
    }
}

impl PartialEq for Node {
    /// `==` is structural equality: equality of the views.
    fn eq(&self, other: &Node) -> (r: bool) {
        self.node_eq(other)
    }
}

impl Eq for Node {}

impl vstd::std_specs::cmp::PartialEqSpecImpl for Node {
    open spec fn obeys_eq_spec() -> bool {
        true
    }

    open spec fn eq_spec(&self, other: &Node) -> bool {
        self@ == other@
    }
}

} // verus!
