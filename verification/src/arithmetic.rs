use vstd::prelude::*;
use crate::scalar::Scalar;

verus! {

/// One request to an arithmetic unit.
///
/// The operands and the answer are binary64 patterns. `FromInt` asks for the
/// value nearest to an unsigned integer; the angles of `Sin` and `Cos`, and
/// the answers to `Asin` and `Acos`, are in radians.
#[derive(Clone, Copy, Debug)]
pub enum Op {
    Add(Scalar, Scalar),
    Sub(Scalar, Scalar),
    Mul(Scalar, Scalar),
    Div(Scalar, Scalar),
    Sqrt(Scalar),
    Sin(Scalar),
    Cos(Scalar),
    Asin(Scalar),
    Acos(Scalar),
    FromInt(u64),
}

/// Whether `unit` answers every request, and the same request always with the
/// same answer.
pub open spec fn is_function<F: Fn(Op) -> Scalar>(unit: F) -> bool {
    &&& forall|op: Op| #[trigger] unit.requires((op,))
    &&& forall|op: Op, r1: Scalar, r2: Scalar|
        #[trigger] unit.ensures((op,), r1) && #[trigger] unit.ensures((op,), r2) ==> r1 == r2
}

/// An arithmetic unit: the one place where numbers are computed.
///
/// The unit is a function from requests to answers. What the library
/// computes is stated over that function, `answers()`: contracts say which
/// requests are put to the unit and in what order, not what the unit makes of
/// them.
pub struct Arithmetic<F: Fn(Op) -> Scalar> {
    unit: F,
    answers: Ghost<spec_fn(Op) -> Scalar>,
}

impl<F: Fn(Op) -> Scalar> Arithmetic<F> {
    #[verifier::type_invariant]
    spec fn agrees(self) -> bool {
        &&& forall|op: Op| #[trigger] self.unit.requires((op,))
        &&& forall|op: Op, r: Scalar| #[trigger] self.unit.ensures((op,), r) ==> r == (self.answers@)(op)
    }

    /// The answer of the unit to every request.
    pub closed spec fn answers(&self) -> spec_fn(Op) -> Scalar {
        self.answers@
    }

    /// An arithmetic unit that computes by `unit`.
    pub fn new(unit: F) -> (r: Self)
        requires
            is_function(unit),
        ensures
            forall|op: Op, x: Scalar| #[trigger] unit.ensures((op,), x) ==> r.answers()(op) == x,
    {
        let ghost answers = |op: Op| choose|r: Scalar| unit.ensures((op,), r);
        Arithmetic { unit, answers: Ghost(answers) }
    }

    /// An arithmetic unit that computes by `unit`, of which the caller knows
    /// that it answers as `answers` says.
    pub fn with_answers(unit: F, Ghost(answers): Ghost<spec_fn(Op) -> Scalar>) -> (r: Self)
        requires
            forall|op: Op| #[trigger] unit.requires((op,)),
            forall|op: Op, x: Scalar| #[trigger] unit.ensures((op,), x) ==> x == answers(op),
        ensures
            r.answers() == answers,
    {
        Arithmetic { unit, answers: Ghost(answers) }
    }

    /// Puts `op` to the unit and hands back its answer.
    pub fn apply(&self, op: Op) -> (r: Scalar)
        ensures
            r == self.answers()(op),
    {
        proof {
            use_type_invariant(self);
        }
        (self.unit)(op)
    }
}

/// `a + b`, as the unit answers.
pub open spec fn sum(unit: spec_fn(Op) -> Scalar, a: Scalar, b: Scalar) -> Scalar {
    unit(Op::Add(a, b))
}

/// `a - b`, as the unit answers.
pub open spec fn difference(unit: spec_fn(Op) -> Scalar, a: Scalar, b: Scalar) -> Scalar {
    unit(Op::Sub(a, b))
}

/// `a * b`, as the unit answers.
pub open spec fn product(unit: spec_fn(Op) -> Scalar, a: Scalar, b: Scalar) -> Scalar {
    unit(Op::Mul(a, b))
}

/// `a / b`, as the unit answers.
pub open spec fn quotient(unit: spec_fn(Op) -> Scalar, a: Scalar, b: Scalar) -> Scalar {
    unit(Op::Div(a, b))
}

/// `a * a`, as the unit answers.
pub open spec fn square(unit: spec_fn(Op) -> Scalar, a: Scalar) -> Scalar {
    unit(Op::Mul(a, a))
}

/// The square root of `a`, as the unit answers.
pub open spec fn root(unit: spec_fn(Op) -> Scalar, a: Scalar) -> Scalar {
    unit(Op::Sqrt(a))
}

/// The sine of `a`, as the unit answers.
pub open spec fn sine(unit: spec_fn(Op) -> Scalar, a: Scalar) -> Scalar {
    unit(Op::Sin(a))
}

/// The cosine of `a`, as the unit answers.
pub open spec fn cosine(unit: spec_fn(Op) -> Scalar, a: Scalar) -> Scalar {
    unit(Op::Cos(a))
}

/// The arc sine of `a`, as the unit answers.
pub open spec fn arcsine(unit: spec_fn(Op) -> Scalar, a: Scalar) -> Scalar {
    unit(Op::Asin(a))
}

/// The arc cosine of `a`, as the unit answers.
pub open spec fn arccosine(unit: spec_fn(Op) -> Scalar, a: Scalar) -> Scalar {
    unit(Op::Acos(a))
}

/// The value nearest to `n`, as the unit answers.
pub open spec fn from_int(unit: spec_fn(Op) -> Scalar, n: u64) -> Scalar {
    unit(Op::FromInt(n))
}

} // verus!
