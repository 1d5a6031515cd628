//! Mid-level filters: names resolved, calls classified, definitions flagged
//! as tail-recursive or not.

use vstd::prelude::*;

use crate::lir::{FoldType, MathOp, Opt, OrdOp};

verus! {

/// Index of a definition on the stack of definitions in scope.
#[derive(Clone, Copy, Debug, PartialEq, Eq, Structural)]
pub struct RelId(pub usize);

/// The declared kind of a parameter.
#[derive(Clone, Debug)]
pub enum Param {
    Var(String),
    Fun(String),
}

/// The signature of a definition: its name and parameters.
#[derive(Clone, Debug)]
pub struct Sig {
    pub name: String,
    pub args: Vec<Param>,
}

/// The target of a call.
#[derive(Clone, Copy, Debug, PartialEq, Eq, Structural)]
pub enum Callee {
    /// A parameter in scope.
    Arg(usize),
    /// A native function.
    Native(usize),
    /// A user definition; `tail` tells whether the call is in tail position.
    Def { id: RelId, skip: usize, tail: bool },
}

/// A numeric literal.
#[derive(Clone, Debug)]
pub enum Num {
    /// A decimal literal, kept as its text.
    Num(String),
    Int(isize),
}

/// A piece of an interpolated string.
#[derive(Debug)]
pub enum StrPart {
    Str(String),
    Fun(Filter),
}

/// An interpolated string with an optional format filter.
#[derive(Debug)]
pub struct Str {
    pub fmt: Option<Box<Filter>>,
    pub parts: Vec<StrPart>,
}

/// An entry of an object literal.
#[derive(Debug)]
pub enum KeyVal {
    Filter(Filter, Filter),
    /// A string key; without a value, `{k}` stands for `{k: .k}`.
    Str(Str, Option<Filter>),
}

/// One step of a path.
#[derive(Debug)]
pub enum Part {
    Index(Filter),
    Range(Option<Filter>, Option<Filter>),
}

/// Assignment operators.
#[derive(Clone, Copy, Debug, PartialEq, Eq, Structural)]
pub enum AssignOp {
    Assign,
    Update,
    UpdateWith(MathOp),
}

/// Binary operators.
#[derive(Clone, Debug)]
pub enum BinaryOp {
    /// A pipe, binding its left side to a variable when a name is given.
    Pipe(Option<String>),
    Comma,
    Alt,
    Or,
    And,
    Math(MathOp),
    Assign(AssignOp),
    Ord(OrdOp),
}

/// The parts of a fold: `xs as $x (init; f)`.
#[derive(Debug)]
pub struct Fold {
    pub xs: Box<Filter>,
    pub x: String,
    pub init: Box<Filter>,
    pub f: Box<Filter>,
}

/// A mid-level filter.
#[derive(Debug)]
pub enum Filter {
    Call(Callee, Vec<Filter>),
    Var(usize),
    Num(Num),
    Str(Box<Str>),
    Array(Option<Box<Filter>>),
    Object(Vec<KeyVal>),
    Id,
    Path(Box<Filter>, Vec<(Part, Opt)>),
    Ite(Vec<(Filter, Filter)>, Option<Box<Filter>>),
    Fold(FoldType, Fold),
    TryCatch(Box<Filter>, Option<Box<Filter>>),
    Try(Box<Filter>),
    Neg(Box<Filter>),
    Recurse,
    Binary(Box<Filter>, BinaryOp, Box<Filter>),
}

/// A definition: signature, body, and whether its recursive calls are all
/// in tail position.
#[derive(Debug)]
pub struct Def {
    pub lhs: Sig,
    pub rhs: Main,
    pub tailrec: bool,
}

/// Definitions followed by a body that may call them.
#[derive(Debug)]
pub struct Main {
    pub defs: Vec<Def>,
    pub body: Filter,
}

} // verus!
