//! Low-level nodes: every reference to another node is an arena identifier.

use vstd::prelude::*;

verus! {

/// Identifier of a node in the arena.
#[derive(Clone, Copy, Debug, PartialEq, Eq, Structural)]
pub struct AbsId(pub usize);

/// Arithmetic operators.
#[derive(Clone, Copy, Debug, PartialEq, Eq, Structural)]
pub enum MathOp {
    Add,
    Sub,
    Mul,
    Div,
    Rem,
}

/// Ordering and equality comparisons.
#[derive(Clone, Copy, Debug, PartialEq, Eq, Structural)]
pub enum OrdOp {
    Lt,
    Le,
    Gt,
    Ge,
    Eq,
    Ne,
}

/// The kind of an accumulating fold.
#[derive(Clone, Copy, Debug, PartialEq, Eq, Structural)]
pub enum FoldType {
    Reduce,
    For,
    Foreach,
}

/// Whether a failing path access is an error or yields nothing.
#[derive(Clone, Copy, Debug, PartialEq, Eq, Structural)]
pub enum Opt {
    Optional,
    Essential,
}

/// One step of a path: an index, or a range with optional bounds.
#[derive(Clone, Copy, Debug, PartialEq, Eq, Structural)]
pub enum Part {
    Index(AbsId),
    Range(Option<AbsId>, Option<AbsId>),
}

/// How a call to a user definition is performed.
///
/// `Throw` continues a tail-recursive definition iteratively; `Catch` enters
/// a tail-recursive definition and intercepts its `Throw` continuations.
#[derive(Clone, Copy, Debug, PartialEq, Eq, Structural)]
pub enum CallTyp {
    Normal,
    Catch,
    Throw,
}

/// An argument of a call, passed as a filter or as a value.
#[derive(Clone, Copy, Debug, PartialEq, Eq, Structural)]
pub enum Arg {
    Var(AbsId),
    Fun(AbsId),
}

/// A call to a user definition.
#[derive(Clone, Debug, PartialEq, Eq)]
pub struct Call {
    pub id: AbsId,
    pub typ: CallTyp,
    pub skip: usize,
    pub args: Vec<Arg>,
}

/// A lowered node.
#[derive(Clone, Debug, PartialEq, Eq)]
pub enum Ast {
    Id,
    ToString,
    Int(isize),
    Num(String),
    Str(String),
    Array(AbsId),
    ObjEmpty,
    ObjSingle(AbsId, AbsId),
    Try(AbsId, AbsId),
    Neg(AbsId),
    Pipe(AbsId, bool, AbsId),
    Comma(AbsId, AbsId),
    Alt(AbsId, AbsId),
    Ite(AbsId, AbsId, AbsId),
    Fold(FoldType, AbsId, AbsId, AbsId),
    Path(AbsId, Vec<(Part, Opt)>),
    Update(AbsId, AbsId),
    UpdateMath(AbsId, MathOp, AbsId),
    Assign(AbsId, AbsId),
    Logic(AbsId, bool, AbsId),
    Math(AbsId, MathOp, AbsId),
    Ord(AbsId, OrdOp, AbsId),
    Var(usize),
    Call(Call),
    Native(usize, Vec<AbsId>),
}

/// What a node is, as a mathematical value.
pub enum Node {
    Id,
    ToString,
    Int(isize),
    Num(Seq<char>),
    Str(Seq<char>),
    Array(AbsId),
    ObjEmpty,
    ObjSingle(AbsId, AbsId),
    Try(AbsId, AbsId),
    Neg(AbsId),
    Pipe(AbsId, bool, AbsId),
    Comma(AbsId, AbsId),
    Alt(AbsId, AbsId),
    Ite(AbsId, AbsId, AbsId),
    Fold(FoldType, AbsId, AbsId, AbsId),
    Path(AbsId, Seq<(Part, Opt)>),
    Update(AbsId, AbsId),
    UpdateMath(AbsId, MathOp, AbsId),
    Assign(AbsId, AbsId),
    Logic(AbsId, bool, AbsId),
    Math(AbsId, MathOp, AbsId),
    Ord(AbsId, OrdOp, AbsId),
    Var(usize),
    Call(AbsId, CallTyp, usize, Seq<Arg>),
    Native(usize, Seq<AbsId>),
}

impl Ast {
    /// The value of this node.
    pub open spec fn node(self) -> Node {
        match self {
            Ast::Id => Node::Id,
            Ast::ToString => Node::ToString,
            Ast::Int(i) => Node::Int(i),
            Ast::Num(s) => Node::Num(s@),
            Ast::Str(s) => Node::Str(s@),
            Ast::Array(x) => Node::Array(x),
            Ast::ObjEmpty => Node::ObjEmpty,
            Ast::ObjSingle(x, y) => Node::ObjSingle(x, y),
            Ast::Try(x, y) => Node::Try(x, y),
            Ast::Neg(x) => Node::Neg(x),
            Ast::Pipe(x, b, y) => Node::Pipe(x, b, y),
            Ast::Comma(x, y) => Node::Comma(x, y),
            Ast::Alt(x, y) => Node::Alt(x, y),
            Ast::Ite(x, y, z) => Node::Ite(x, y, z),
            Ast::Fold(t, x, y, z) => Node::Fold(t, x, y, z),
            Ast::Path(x, ps) => Node::Path(x, ps@),
            Ast::Update(x, y) => Node::Update(x, y),
            Ast::UpdateMath(x, m, y) => Node::UpdateMath(x, m, y),
            Ast::Assign(x, y) => Node::Assign(x, y),
            Ast::Logic(x, b, y) => Node::Logic(x, b, y),
            Ast::Math(x, m, y) => Node::Math(x, m, y),
            Ast::Ord(x, o, y) => Node::Ord(x, o, y),
            Ast::Var(v) => Node::Var(v),
            Ast::Call(c) => Node::Call(c.id, c.typ, c.skip, c.args@),
            Ast::Native(n, ids) => Node::Native(n, ids@),
        }
    }
}

/// The values of the nodes of an arena.
pub open spec fn nodes(a: Seq<Ast>) -> Seq<Node> {
    a.map_values(|x: Ast| x.node())
}

} // verus!
