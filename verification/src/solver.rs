//! Optimization solver interface: solver status, named solver parameters
//! with typed updates, and the trait a solver adapter implements. Solvers
//! themselves are external collaborators; this module only fixes the
//! contract they are driven through.

use vstd::prelude::*;
use simple_error::SimpleError;

verus! {

/// Declares simple_error's error type so signatures may carry it; its
/// content is opaque here.
#[verifier::external_type_specification]
#[verifier::external_body]
pub struct ExSimpleError(SimpleError);

/// Relies on simple_error::SimpleError::new, which builds the error
/// carrying the given message.
#[verifier::external_body]
fn simple_error_new(msg: &str) -> SimpleError {
    SimpleError::new(msg)
}

/// Optimization solver status.
#[derive(Clone, Copy, Debug, PartialEq, Eq, Structural)]
pub enum SolverStatus {
    /// The solver solved the problem to the specified accuracy.
    Solved,
    /// The solver status is unknown.
    Unknown,
    /// The solver terminated with an error.
    Error,
}

/// The display name of a solver status.
pub open spec fn status_str(s: SolverStatus) -> Seq<char> {
    match s {
        SolverStatus::Solved => "solved"@,
        SolverStatus::Unknown => "unknown"@,
        SolverStatus::Error => "error"@,
    }
}

impl SolverStatus {
    /// The display name of this status.
    pub fn as_str(&self) -> (r: &'static str)
        ensures
            r@ == status_str(*self),
    {
        match self {
            SolverStatus::Solved => "solved",
            SolverStatus::Unknown => "unknown",
            SolverStatus::Error => "error",
        }
    }
}

/// Optimization solver parameter value. A floating-point parameter is
/// carried as its bit pattern: this core never computes with it, only
/// stores and hands it on, and the numeric reading lives with the caller.
#[derive(Clone, Debug)]
pub enum SolverParam {
    /// Integer solver parameter.
    IntParam(i32),
    /// Floating-point solver parameter, as its bit pattern.
    FloatParam(u64),
    /// String solver parameter.
    StrParam(String),
}

/// True iff the two parameter values are of the same kind.
pub open spec fn same_kind(a: SolverParam, b: SolverParam) -> bool {
    match (a, b) {
        (SolverParam::IntParam(_), SolverParam::IntParam(_)) => true,
        (SolverParam::FloatParam(_), SolverParam::FloatParam(_)) => true,
        (SolverParam::StrParam(_), SolverParam::StrParam(_)) => true,
        _ => false,
    }
}

/// The first value stored under `name`, if any.
pub open spec fn param_lookup(ps: Seq<(String, SolverParam)>, name: Seq<char>) -> Option<
    SolverParam,
>
    decreases ps,
{
    if ps.len() == 0 {
        Option::None
    } else if ps[0].0@ == name {
        Option::Some(ps[0].1)
    } else {
        param_lookup(ps.drop_first(), name)
    }
}

/// A first match determines the lookup.
proof fn lemma_param_lookup_at(ps: Seq<(String, SolverParam)>, name: Seq<char>, i: int)
    requires
        0 <= i < ps.len(),
        ps[i].0@ == name,
        forall|j: int| 0 <= j < i ==> (#[trigger] ps[j]).0@ != name,
    ensures
        param_lookup(ps, name) == Option::Some(ps[i].1),
    decreases i,
{
    if i > 0 {
        assert(ps.drop_first()[i - 1] == ps[i]);
        assert forall|j: int| 0 <= j < i - 1 implies (#[trigger] ps.drop_first()[j]).0@
            != name by {
            assert(ps.drop_first()[j] == ps[j + 1]);
        }
        lemma_param_lookup_at(ps.drop_first(), name, i - 1);
    }
}

/// No match anywhere means no lookup result.
proof fn lemma_param_lookup_none(ps: Seq<(String, SolverParam)>, name: Seq<char>)
    requires
        forall|j: int| 0 <= j < ps.len() ==> (#[trigger] ps[j]).0@ != name,
    ensures
        param_lookup(ps, name) is None,
    decreases ps,
{
    if ps.len() != 0 {
        let rest = ps.drop_first();
        assert forall|j: int| 0 <= j < rest.len() implies (#[trigger] rest[j]).0@ != name by {
            assert(rest[j] == ps[j + 1]);
        }
        lemma_param_lookup_none(ps.drop_first(), name);
    }
}

/// The named parameters of a solver.
pub struct SolverParams {
    /// The `(name, value)` pairs, in definition order.
    pub params: Vec<(String, SolverParam)>,
}

impl SolverParams {
    /// An empty parameter store.
    pub fn new() -> (r: SolverParams)
        ensures
            r.params@.len() == 0,
    {
        SolverParams { params: Vec::new() }
    }

    /// Defines a parameter by appending it; callers define each name once.
    pub fn define(&mut self, name: String, value: SolverParam)
        ensures
            final(self).params@ == old(self).params@.push((name, value)),
    {
        self.params.push((name, value));
    }

    /// The value stored under `name`, if any.
    pub fn get_param(&self, name: &str) -> (r: Option<&SolverParam>)
        ensures
            match r {
                Some(p) => param_lookup(self.params@, name@) == Option::Some(*p),
                None => param_lookup(self.params@, name@) is None,
            },
    {
        let name_s: String = name.to_owned();
        let mut i: usize = 0;
        while i < self.params.len()
            invariant
                i <= self.params@.len(),
                name_s@ == name@,
                forall|j: int| 0 <= j < i ==> (#[trigger] self.params@[j]).0@ != name@,
            decreases self.params@.len() - i,
        {
            if self.params[i].0 == name_s {
                proof {
                    lemma_param_lookup_at(self.params@, name@, i as int);
                }
                return Some(&self.params[i].1);
            }
            i += 1;
        }
        proof {
            lemma_param_lookup_none(self.params@, name@);
        }
        None
    }

    /// Replaces the value stored under `name` with `value`. The update is
    /// rejected — and the store left unchanged — where no parameter of
    /// that name exists, or where the new value's kind differs from the
    /// stored one's.
    pub fn set_param(&mut self, name: &str, value: SolverParam) -> (r: Result<(), SimpleError>)
        ensures
            param_lookup(old(self).params@, name@) is None ==> r is Err && final(self).params@
                == old(self).params@,
            (match param_lookup(old(self).params@, name@) {
                Option::Some(x) => !same_kind(x, value),
                Option::None => false,
            }) ==> r is Err && final(self).params@ == old(self).params@,
            (match param_lookup(old(self).params@, name@) {
                Option::Some(x) => same_kind(x, value),
                Option::None => false,
            }) ==> r is Ok && param_lookup(final(self).params@, name@) == Option::Some(value)
                && final(self).params@.len() == old(self).params@.len() && (forall|j: int|
                0 <= j < old(self).params@.len() && (#[trigger] old(self).params@[j]).0@ != name@
                    ==> final(self).params@[j] == old(self).params@[j]),
    {
        let ghost ps0 = self.params@;
        let name_s: String = name.to_owned();
        let mut i: usize = 0;
        while i < self.params.len()
            invariant
                i <= self.params@.len(),
                self.params@ == ps0,
                ps0 == old(self).params@,
                name_s@ == name@,
                forall|j: int| 0 <= j < i ==> (#[trigger] ps0[j]).0@ != name@,
            decreases self.params@.len() - i,
        {
            if self.params[i].0 == name_s {
                proof {
                    lemma_param_lookup_at(ps0, name@, i as int);
                }
                let matches_kind = match (&self.params[i].1, &value) {
                    (SolverParam::IntParam(_), SolverParam::IntParam(_)) => true,
                    (SolverParam::FloatParam(_), SolverParam::FloatParam(_)) => true,
                    (SolverParam::StrParam(_), SolverParam::StrParam(_)) => true,
                    _ => false,
                };
                if !matches_kind {
                    return Err(simple_error_new("invalid parameter type"));
                }
                let nm = self.params[i].0.clone();
                self.params[i] = (nm, value);
                proof {
                    assert(self.params@ == ps0.update(i as int, (ps0[i as int].0, value)));
                    assert(self.params@[i as int].0@ == name@);
                    assert forall|j: int| 0 <= j < i implies (#[trigger] self.params@[j]).0@
                        != name@ by {
                        assert(self.params@[j] == ps0[j]);
                    }
                    lemma_param_lookup_at(self.params@, name@, i as int);
                }
                return Ok(());
            }
            i += 1;
        }
        proof {
            lemma_param_lookup_none(ps0, name@);
        }
        Err(simple_error_new("unknown parameter"))
    }
}

/// A trait for optimization solvers: the solver adapters that drive an
/// external solver implement it; nothing in this core does.
pub trait Solver<T>: Sized {
    /// The parameter store's contents, as the implementer models them.
    spec fn params_view(&self) -> Seq<(String, SolverParam)>;

    /// Creates a new optimization solver for a problem.
    fn new(p: &T) -> Self;

    /// The solver's parameters.
    fn get_params(&self) -> (r: &SolverParams)
        ensures
            r.params@ == self.params_view(),
    ;

    /// The solver's status.
    fn status(&self) -> &SolverStatus;

    /// Solves the optimization problem.
    fn solve(&mut self, p: &mut T) -> Result<(), SimpleError>;

    /// The value of the named parameter, if any.
    fn get_param(&self, name: &str) -> (r: Option<&SolverParam>)
        ensures
            match r {
                Some(p) => param_lookup(self.params_view(), name@) == Option::Some(*p),
                None => param_lookup(self.params_view(), name@) is None,
            },
    {
        self.get_params().get_param(name)
    }
}

} // verus!
