//! Literals: a variable index and a polarity packed into one machine word.

use vstd::prelude::*;
use vstd::std_specs::ops::NotSpecImpl;

verus! {

/// A literal, packed as `index * 2 + (0 if positive, 1 if negative)`, so that
/// negation flips the lowest bit. Literals are ordered by this encoding.
#[derive(Clone, Copy, PartialEq, Eq, Structural, PartialOrd, Ord, Hash, Debug)]
pub struct Lit(pub(crate) usize);

impl Lit {
    /// The largest variable index a literal can carry.
    pub open spec fn max_index() -> int {
        (usize::MAX / 4) as int
    }

    /// The packed encoding.
    pub open(crate) spec fn spec_code(self) -> usize {
        self.0
    }

    /// The one-based number of the literal's variable.
    pub open spec fn number(self) -> int {
        self.var() + 1
    }

    /// The zero-based index of the literal's variable.
    pub open spec fn var(self) -> int {
        self.spec_code() as int / 2
    }

    /// Whether the literal is the variable itself rather than its negation.
    pub open spec fn positive(self) -> bool {
        self.spec_code() % 2 == 0
    }

    /// The literal of the variable with index `var` and the given polarity.
    pub open(crate) spec fn of(var: int, positive: bool) -> Lit {
        Lit((2 * var + if positive { 0int } else { 1int }) as usize)
    }

    /// The literal that the signed number `number` stands for: the variable
    /// with the one-based number `|number|`, negated where the number is
    /// negative.
    pub open spec fn of_number(number: int) -> Lit {
        if number > 0 {
            Lit::of(number - 1, true)
        } else {
            Lit::of(-number - 1, false)
        }
    }

    /// The literal of the same variable with the other polarity.
    pub open(crate) spec fn neg(self) -> Lit {
        if self.0 % 2 == 0 {
            Lit((self.0 + 1) as usize)
        } else {
            Lit((self.0 - 1) as usize)
        }
    }

    /// The truth value of the literal under a partial assignment of the variables.
    pub open spec fn value_under(self, assignment: Seq<Option<bool>>) -> Option<bool> {
        match assignment[self.var()] {
            Some(value) => Some(value == self.positive()),
            None => None,
        }
    }

    #[verifier::type_invariant]
    pub open(crate) spec fn in_range(self) -> bool {
        self.0 / 2 <= usize::MAX / 4
    }

    /// The literal of the variable with one-based number `number`.
    pub fn from_dimacs(number: usize, polarity: bool) -> (lit: Lit)
        requires
            1 <= number,
            number - 1 <= Lit::max_index(),
        ensures
            lit == Lit::of(number - 1, polarity),
            lit.number() == number,
            lit.positive() == polarity,
    {
        Self::from_index(number - 1, polarity)
    }

    /// The literal of the variable with zero-based index `number`.
    pub fn from_index(number: usize, polarity: bool) -> (lit: Lit)
        requires
            number <= Lit::max_index(),
        ensures
            lit == Lit::of(number as int, polarity),
            lit.var() == number,
            lit.positive() == polarity,
    {
        let bit: usize = if polarity { 0 } else { 1 };
        Lit(number * 2 + bit)
    }

    pub fn is_negative(self) -> (negative: bool)
        ensures
            negative == !self.positive(),
    {
        let code: usize = self.0;
        assert(code & 1 == code % 2) by (bit_vector);
        (self.0 & 1) != 0
    }

    pub fn is_positive(self) -> (positive: bool)
        ensures
            positive == self.positive(),
    {
        !self.is_negative()
    }

    /// The zero-based index of the variable.
    pub fn index(self) -> (index: usize)
        ensures
            index == self.var(),
            index <= Lit::max_index(),
    {
        proof {
            use_type_invariant(self);
        }
        let code: usize = self.0;
        assert(code >> 1 == code / 2) by (bit_vector);
        self.0 >> 1
    }

    #[verifier::when_used_as_spec(spec_code)]
    pub(crate) fn code(self) -> (code: usize)
        ensures
            code == self.spec_code(),
            code == 2 * self.var() + if self.positive() { 0int } else { 1int },
            code <= 2 * Lit::max_index() + 1,
    {
        proof {
            use_type_invariant(self);
        }
        self.0
    }

    /// The one-based number of the variable.
    pub fn to_dimacs(self) -> (number: usize)
        ensures
            number == self.number(),
    {
        self.index() + 1
    }

    /// The truth value of the literal under `assignment`, or `None` where its
    /// variable is unassigned.
    pub fn assign_bool(&self, assignment: &Vec<Option<bool>>) -> (value: Option<bool>)
        requires
            self.var() < assignment.len(),
        ensures
            value == self.value_under(assignment@),
    {
        match assignment[self.index()] {
            Some(assign) => Some(assign == self.is_positive()),
            None => None,
        }
    }

    /// The literal that a signed number stands for has the number's absolute
    /// value as its one-based number and the number's sign as its polarity.
    pub proof fn number_round_trip(number: int)
        requires
            number != 0,
            -Lit::max_index() - 1 <= number <= Lit::max_index() + 1,
        ensures
            Lit::of_number(number).number() == if number > 0 {
                number
            } else {
                -number
            },
            Lit::of_number(number).positive() == (number > 0),
            Lit::of_number(-number) == Lit::of_number(number).neg(),
    {
    }

    /// Negation keeps the variable and its number, flips the polarity,
    /// differs from its argument and undoes itself.
    pub proof fn neg_flips(self)
        ensures
            self.neg().var() == self.var(),
            self.neg().positive() == !self.positive(),
            self.neg() != self,
            self.neg().neg() == self,
            self.neg().number() == self.number(),
    {
    }
}

impl core::ops::Not for Lit {
    type Output = Lit;

    fn not(self) -> (negated: Lit) {
        proof {
            use_type_invariant(self);
        }
        let code: usize = self.0;
        assert(code ^ 1 == (if code % 2 == 0 { code + 1 } else { code - 1 })) by (bit_vector);
        Lit(self.0 ^ 1)
    }
}

impl NotSpecImpl for Lit {
    open spec fn obeys_not_spec() -> bool {
        true
    }

    open spec fn not_req(self) -> bool {
        true
    }

    open spec fn not_spec(self) -> Lit {
        self.neg()
    }
}

} // verus!
