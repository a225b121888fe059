//! Boolean variables and literals.
use vstd::prelude::*;

verus! {

/// The largest code a variable can have.
pub const MAX_VAR_CODE: u32 = 0x7fff_ffff;

/// A boolean variable.
#[derive(Clone, Copy, Debug, PartialEq, Eq, PartialOrd, Ord, Hash)]
pub struct Var(u32);

impl Var {
    #[verifier::type_invariant]
    spec fn code_in_range(self) -> bool {
        self.0 <= MAX_VAR_CODE
    }

    /// The code of the variable.
    pub closed spec fn code_spec(self) -> u32 {
        self.0
    }

    /// Create a new variable from the given code, which must not be larger than
    /// [`MAX_VAR_CODE`].
    pub fn new_unchecked(code: u32) -> (var: Var)
        requires
            code <= MAX_VAR_CODE,
        ensures
            var.code_spec() == code,
    {
        Var(code)
    }

    /// Create a variable from a code, or report that the code is too large.
    pub fn try_from(value: u32) -> (res: Result<Var, VarCodeTooBig>)
        ensures
            value <= MAX_VAR_CODE ==> (res matches Ok(var) && var.code_spec() == value),
            value > MAX_VAR_CODE ==> res == Err::<Var, VarCodeTooBig>(VarCodeTooBig(value)),
    {
        if value > MAX_VAR_CODE {
            Err(VarCodeTooBig(value))
        } else {
            Ok(Var(value))
        }
    }

    /// The code of the variable.
    #[inline]
    pub fn code(self) -> (code: u32)
        ensures
            code == self.code_spec(),
            code <= MAX_VAR_CODE,
    {
        proof {
            use_type_invariant(&self);
        }
        self.0
    }

    /// Two variables with the same code are the same variable.
    pub broadcast proof fn lemma_code_injective(a: Var, b: Var)
        ensures
            #[trigger] a.code_spec() == #[trigger] b.code_spec() <==> a == b,
    {
    }
}

/// The error for a variable code larger than [`MAX_VAR_CODE`].
#[derive(Clone, Copy, Debug, PartialEq, Eq)]
pub struct VarCodeTooBig(pub u32);

/// A literal is a signed boolean variable, either positive or negative.
#[derive(Clone, Copy, Debug, PartialEq, Eq, PartialOrd, Ord, Hash)]
pub struct Lit(u32);

impl Lit {
    /// The code of the literal: twice the code of its variable, plus one when positive.
    pub closed spec fn code_spec(self) -> u32 {
        self.0
    }

    /// The code of the variable of the literal.
    pub open spec fn var_code(self) -> u32 {
        self.code_spec() / 2
    }

    /// Whether the literal is the positive one of its variable.
    pub open spec fn positive_spec(self) -> bool {
        self.code_spec() % 2 == 1
    }

    /// The literal of the same variable with the other polarity.
    pub open spec fn negated(self) -> Lit {
        Lit::from_code(if self.positive_spec() {
            (self.code_spec() - 1) as u32
        } else {
            (self.code_spec() + 1) as u32
        })
    }

    /// The literal with the given code.
    pub closed spec fn from_code(code: u32) -> Lit {
        Lit(code)
    }

    /// Two literals with the same code are the same literal.
    pub broadcast proof fn lemma_code_injective(a: Lit, b: Lit)
        ensures
            #[trigger] a.code_spec() == #[trigger] b.code_spec() <==> a == b,
    {
    }

    /// A literal is determined by its code.
    pub broadcast proof fn lemma_from_code(code: u32)
        ensures
            #[trigger] Lit::from_code(code).code_spec() == code,
    {
    }

    /// Create a positive literal from the given variable.
    #[inline]
    pub fn positive(var: Var) -> (lit: Lit)
        ensures
            lit.code_spec() == 2 * var.code_spec() + 1,
            lit.var_code() == var.code_spec(),
            lit.positive_spec(),
    {
        let code = var.code();
        Lit(code * 2 + 1)
    }

    /// Create a negative literal from the given variable.
    #[inline]
    pub fn negative(var: Var) -> (lit: Lit)
        ensures
            lit.code_spec() == 2 * var.code_spec(),
            lit.var_code() == var.code_spec(),
            !lit.positive_spec(),
    {
        let code = var.code();
        Lit(code * 2)
    }

    /// Whether this is the positive literal of its variable.
    #[inline]
    pub fn is_positive(self) -> (b: bool)
        ensures
            b == self.positive_spec(),
    {
        self.0 % 2 == 1
    }

    /// Whether this is the negative literal of its variable.
    #[inline]
    pub fn is_negative(self) -> (b: bool)
        ensures
            b == !self.positive_spec(),
    {
        self.0 % 2 == 0
    }

    /// The variable of the literal.
    #[inline]
    pub fn var(self) -> (var: Var)
        ensures
            var.code_spec() == self.var_code(),
    {
        Var(self.0 / 2)
    }

    /// The code of the literal.
    #[inline]
    pub fn code(self) -> (code: u32)
        ensures
            code == self.code_spec(),
    {
        self.0
    }
}

impl core::ops::Not for Lit {
    type Output = Lit;

    fn not(self) -> (neg: Lit) {
        if self.0 % 2 == 1 {
            Lit(self.0 - 1)
        } else {
            Lit(self.0 + 1)
        }
    }
}

impl vstd::std_specs::ops::NotSpecImpl for Lit {
    open spec fn obeys_not_spec() -> bool {
        true
    }

    open spec fn not_req(self) -> bool {
        true
    }

    open spec fn not_spec(self) -> Lit {
        self.negated()
    }
}

/// Negation flips the polarity and keeps the variable; negating twice is the identity.
pub broadcast proof fn lemma_negation(lit: Lit)
    ensures
        #[trigger] lit.negated().var_code() == lit.var_code(),
        lit.negated().positive_spec() != lit.positive_spec(),
        lit.negated() != lit,
        lit.negated().negated() == lit,
{
    Lit::lemma_from_code((lit.code_spec() - 1) as u32);
    Lit::lemma_from_code((lit.code_spec() + 1) as u32);
}

/// Two literals over the same variable with the same polarity are equal.
pub broadcast proof fn lemma_lit_determined(a: Lit, b: Lit)
    requires
        a.var_code() == b.var_code(),
        a.positive_spec() == b.positive_spec(),
    ensures
        #[trigger] a.code_spec() == #[trigger] b.code_spec(),
{
}

pub broadcast group group_lit {
    Var::lemma_code_injective,
    Lit::lemma_code_injective,
    Lit::lemma_from_code,
    lemma_negation,
    lemma_lit_determined,
}

} // verus!
