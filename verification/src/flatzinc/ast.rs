//! The model items of a FlatZinc source, and their values as the contracts speak of them.
use vstd::prelude::*;

use super::constraints::IntLinNe;

verus! {

/// The integer type used.
///
/// The FlatZinc specification does not specify what size integers we need to support, nor
/// does it give use the option to indicate the size of our integers. A literal that does not
/// fit is a syntax error.
pub type Int = i64;

/// One line of a FlatZinc model.
#[derive(Debug, PartialEq, Eq)]
pub enum ModelItem {
    Parameter(Parameter),
    Variable(Variable),
    Constraint(Constraint),
    Goal(Goal),
}

/// A parameter declaration.
#[derive(Debug, PartialEq, Eq)]
pub struct Parameter {
    pub identifier: Identifier,
    pub value: Value,
}

/// A FlatZinc identifier.
#[derive(Clone, Debug, PartialEq, Eq)]
pub struct Identifier(String);

impl View for Identifier {
    type V = Seq<char>;

    closed spec fn view(&self) -> Seq<char> {
        self.0@
    }
}

impl Identifier {
    /// The identifier with the given text.
    pub fn new(text: String) -> (id: Identifier)
        ensures
            id@ == text@,
    {
        Identifier(text)
    }

    /// The text of the identifier.
    pub fn as_str(&self) -> (text: &str)
        ensures
            text@ == self@,
    {
        self.0.as_str()
    }
}

impl<'a> From<&'a str> for Identifier {
    fn from(value: &'a str) -> (id: Identifier)
        ensures
            id@ == value@,
    {
        Identifier(value.to_owned())
    }
}

impl<'a> vstd::std_specs::convert::FromSpecImpl<&'a str> for Identifier {
    open spec fn obeys_from_spec() -> bool {
        false
    }

    open spec fn from_spec(v: &'a str) -> Identifier {
        choose|id: Identifier| id@ == v@
    }
}

/// The value of a parameter.
#[derive(Clone, Debug, PartialEq, Eq)]
pub enum Value {
    Int(Int),
    Bool(bool),
    ArrayOfInt(Vec<Int>),
}

/// A variable declaration.
#[derive(Debug, PartialEq, Eq)]
pub enum Variable {
    IntVariable(SingleVariable<IntDomain>),
    BoolVariable(SingleVariable<()>),
    ArrayOfIntVariable(VariableArray<IntDomain>),
    ArrayOfBoolVariable(VariableArray<BoolDomain>),
}

/// A single variable declaration.
#[derive(Debug, PartialEq, Eq)]
pub struct SingleVariable<Domain> {
    pub identifier: Identifier,
    pub domain: Domain,
}

/// A kind of domain, with the type of its values.
pub trait Domain {
    type Value;
}

/// The domain of an integer variable.
#[derive(Clone, Copy, Debug, PartialEq, Eq)]
pub enum IntDomain {
    /// Corresponds to variables declared with the unbounded 'int' type.
    Unbounded,
    /// An interval of integers, both bounds are inclusive.
    Interval { lower: Int, upper: Int },
}

impl Domain for IntDomain {
    type Value = Int;
}

/// The domain of a boolean variable.
#[derive(Clone, Copy, Debug, PartialEq, Eq)]
pub struct BoolDomain;

impl Domain for BoolDomain {
    type Value = bool;
}

/// An array of variables, each given by its identifier or fixed to a value.
#[derive(Debug, PartialEq, Eq)]
pub struct VariableArray<Dom: Domain> {
    pub identifier: Identifier,
    pub variables: Vec<IdentifierOr<Dom::Value>>,
}

/// An identifier, or a literal value.
#[derive(Clone, Debug, PartialEq, Eq)]
pub enum IdentifierOr<T> {
    Identifier(Identifier),
    Value(T),
}

/// An annotation of a declaration.
#[derive(Clone, Debug, PartialEq, Eq)]
pub enum Annotation {
    /// The array is part of the output, with the given index set sizes.
    Output(Vec<usize>),
}

/// A constraint item.
#[derive(Debug, PartialEq, Eq)]
pub enum Constraint {
    IntLinNe(IntLinNe),
}

/// The goal of the model.
#[derive(Clone, Copy, Debug, PartialEq, Eq)]
pub enum Goal {
    Satisfy,
}

/// An identifier or a literal, as values.
pub enum ElemV<T> {
    Ident(Seq<char>),
    Value(T),
}

/// A model item, as values.
pub enum ItemV {
    IntParameter(Seq<char>, Int),
    BoolParameter(Seq<char>, bool),
    IntArrayParameter(Seq<char>, Seq<Int>),
    IntVariable(Seq<char>, IntDomain),
    BoolVariable(Seq<char>),
    IntVariableArray(Seq<char>, Seq<ElemV<Int>>),
    BoolVariableArray(Seq<char>, Seq<ElemV<bool>>),
    IntLinNe { weights: ElemV<Seq<ElemV<Int>>>, variables: ElemV<Seq<ElemV<Int>>>, rhs: ElemV<Int> },
    SolveSatisfy,
}

impl<T: Copy> IdentifierOr<T> {
    /// The element as values.
    pub open spec fn view_elem(&self) -> ElemV<T> {
        match self {
            IdentifierOr::Identifier(id) => ElemV::Ident(id@),
            IdentifierOr::Value(v) => ElemV::Value(*v),
        }
    }
}

/// The elements as values.
pub open spec fn view_elems<T: Copy>(elems: Seq<IdentifierOr<T>>) -> Seq<ElemV<T>> {
    elems.map_values(|e: IdentifierOr<T>| e.view_elem())
}

/// An array argument as values.
pub open spec fn view_array_arg(arg: IdentifierOr<Vec<IdentifierOr<Int>>>) -> ElemV<Seq<ElemV<Int>>> {
    match arg {
        IdentifierOr::Identifier(id) => ElemV::Ident(id@),
        IdentifierOr::Value(v) => ElemV::Value(view_elems(v@)),
    }
}

impl ModelItem {
    /// The model item as values.
    pub open spec fn view_item(&self) -> ItemV {
        match self {
            ModelItem::Parameter(p) => match p.value {
                Value::Int(v) => ItemV::IntParameter(p.identifier@, v),
                Value::Bool(b) => ItemV::BoolParameter(p.identifier@, b),
                Value::ArrayOfInt(vs) => ItemV::IntArrayParameter(p.identifier@, vs@),
            },
            ModelItem::Variable(v) => match v {
                Variable::IntVariable(sv) => ItemV::IntVariable(sv.identifier@, sv.domain),
                Variable::BoolVariable(sv) => ItemV::BoolVariable(sv.identifier@),
                Variable::ArrayOfIntVariable(a) => ItemV::IntVariableArray(a.identifier@, view_elems(a.variables@)),
                Variable::ArrayOfBoolVariable(a) => ItemV::BoolVariableArray(a.identifier@, view_elems(a.variables@)),
            },
            ModelItem::Constraint(Constraint::IntLinNe(c)) => ItemV::IntLinNe {
                weights: view_array_arg(c.weights),
                variables: view_array_arg(c.variables),
                rhs: c.rhs.view_elem(),
            },
            ModelItem::Goal(Goal::Satisfy) => ItemV::SolveSatisfy,
        }
    }
}

} // verus!
