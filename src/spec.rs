//! What it means for an arena node to be the lowering of a filter, and which
//! filters can be lowered at all.

use vstd::prelude::*;

use crate::lir::{AbsId, Arg, Ast, CallTyp, MathOp, Opt};
use crate::lir::Part as LPart;
use crate::mir::{AssignOp, BinaryOp, Callee, Def, Filter, KeyVal, Main, Num, Param, Part, Str, StrPart};

verus! {

/// Arena slot of the identity filter `.`.
pub const IDENTITY: usize = 0;

/// Arena slot of the filter that converts its input to a string.
pub const TOSTRING: usize = 1;

/// Arena slot of the filter that yields nothing, `{}[]`.
pub const EMPTY: usize = 3;

/// Arena slot of the recursive descent filter `..`, i.e. `., (.[]? | ..)`.
pub const RECURSE: usize = 7;

/// What lowering needs to know of a definition in scope: which parameters
/// take filters, its arena slot, and whether it is tail-recursive.
pub struct Frame {
    pub fun_params: Seq<bool>,
    pub id: AbsId,
    pub tailrec: bool,
}

/// For each parameter, whether it takes a filter (rather than a value).
pub open spec fn fun_params(ps: Seq<Param>) -> Seq<bool> {
    ps.map_values(|p: Param| p is Fun)
}

/// The calling convention of a call; a tail call to a definition that is
/// not tail-recursive is never admitted (see `admissible`).
pub open spec fn convention(tail: bool, tailrec: bool) -> CallTyp {
    if tailrec {
        if tail {
            CallTyp::Throw
        } else {
            CallTyp::Catch
        }
    } else {
        CallTyp::Normal
    }
}

/// The node of a binary operator on two operands.
pub open spec fn binary_node(op: BinaryOp, x: AbsId, y: AbsId) -> Ast {
    match op {
        BinaryOp::Pipe(bind) => Ast::Pipe(x, bind is Some, y),
        BinaryOp::Comma => Ast::Comma(x, y),
        BinaryOp::Alt => Ast::Alt(x, y),
        BinaryOp::Or => Ast::Logic(x, true, y),
        BinaryOp::And => Ast::Logic(x, false, y),
        BinaryOp::Math(m) => Ast::Math(x, m, y),
        BinaryOp::Ord(o) => Ast::Ord(x, o, y),
        BinaryOp::Assign(AssignOp::Assign) => Ast::Assign(x, y),
        BinaryOp::Assign(AssignOp::Update) => Ast::Update(x, y),
        BinaryOp::Assign(AssignOp::UpdateWith(m)) => Ast::UpdateMath(x, m, y),
    }
}

/// The two operands of a node with two operands.
pub open spec fn operands(r: Ast) -> (AbsId, AbsId) {
    match r {
        Ast::Pipe(x, _, y) => (x, y),
        Ast::Comma(x, y) => (x, y),
        Ast::Alt(x, y) => (x, y),
        Ast::Logic(x, _, y) => (x, y),
        Ast::Math(x, _, y) => (x, y),
        Ast::Ord(x, _, y) => (x, y),
        Ast::Assign(x, y) => (x, y),
        Ast::Update(x, y) => (x, y),
        Ast::UpdateMath(x, _, y) => (x, y),
        _ => (AbsId(0), AbsId(0)),
    }
}

/// Slot `i` was written during the lowering that began at `lo`, and holds a
/// lowering of `f`.
pub open spec fn node_at(a: Seq<Ast>, lo: int, cs: Seq<Frame>, i: AbsId, f: Filter) -> bool
    decreases f, 2int, 0int,
{
    lo <= i.0 < a.len() && lowers(a, lo, cs, a[i.0 as int], f)
}

/// Both absent, or slot `i` holds a lowering of `f`.
pub open spec fn opt_at(a: Seq<Ast>, lo: int, cs: Seq<Frame>, i: Option<AbsId>, f: Option<Filter>) -> bool
    decreases f, 2int, 0int,
{
    match (i, f) {
        (None, None) => true,
        (Some(x), Some(g)) => node_at(a, lo, cs, x, g),
        _ => false,
    }
}

/// `r` is a lowering of `f`, with the definitions `cs` in scope, in arena `a`
/// whose slots from `lo` on were written while lowering `f`.
pub open spec fn lowers(a: Seq<Ast>, lo: int, cs: Seq<Frame>, r: Ast, f: Filter) -> bool
    decreases f, 1int, 0int,
{
    match f {
        Filter::Call(callee, args) => match callee {
            Callee::Arg(v) => args.len() == 0 && r == Ast::Var(v),
            Callee::Native(n) => r matches Ast::Native(m, ids) && m == n && ids@.len() == args.len()
                && forall|i: int| 0 <= i < args.len() ==> node_at(a, lo, cs, ids@[i], #[trigger] args@[i]),
            Callee::Def { id, skip, tail } => {
                &&& id.0 < cs.len()
                &&& r matches Ast::Call(c)
                &&& c.id == cs[id.0 as int].id
                &&& c.typ == convention(tail, cs[id.0 as int].tailrec)
                &&& c.skip == skip
                &&& c.args@.len() == if cs[id.0 as int].fun_params.len() < args.len() {
                    cs[id.0 as int].fun_params.len() as int
                } else {
                    args.len() as int
                }
                &&& forall|i: int| 0 <= i < c.args@.len() ==> match #[trigger] c.args@[i] {
                    Arg::Var(x) => !cs[id.0 as int].fun_params[i] && node_at(a, lo, cs, x, args@[i]),
                    Arg::Fun(x) => cs[id.0 as int].fun_params[i] && node_at(a, lo, cs, x, args@[i]),
                }
            },
        },
        Filter::Var(v) => r == Ast::Var(v),
        Filter::Num(Num::Num(s)) => r matches Ast::Num(t) && t@ == s@,
        Filter::Num(Num::Int(i)) => r == Ast::Int(i),
        Filter::Str(s) => str_lowers(a, lo, cs, r, *s, 0),
        Filter::Array(None) => r == Ast::Array(AbsId(EMPTY)),
        Filter::Array(Some(g)) => r matches Ast::Array(x) && node_at(a, lo, cs, x, *g),
        Filter::Object(kvs) => obj_lowers(a, lo, cs, r, kvs, 0),
        Filter::Id => r == Ast::Id,
        Filter::Path(g, path) => {
            &&& r matches Ast::Path(x, ps)
            &&& node_at(a, lo, cs, x, *g)
            &&& ps@.len() == path.len()
            &&& forall|i: int| 0 <= i < ps@.len() ==> (#[trigger] ps@[i]).1 == path@[i].1 && match (ps@[i].0, path@[i].0) {
                (LPart::Index(x), Part::Index(h)) => node_at(a, lo, cs, x, h),
                (LPart::Range(l, u), Part::Range(gl, gu)) => opt_at(a, lo, cs, l, gl) && opt_at(a, lo, cs, u, gu),
                _ => false,
            }
        },
        Filter::Ite(_, _) => ite_lowers(a, lo, cs, r, f, 0),
        Filter::Fold(t, fd) => r matches Ast::Fold(t2, x, y, z) && t2 == t && node_at(a, lo, cs, x, *fd.xs)
            && node_at(a, lo, cs, y, *fd.init) && node_at(a, lo, cs, z, *fd.f),
        Filter::TryCatch(g, None) => r matches Ast::Try(x, y) && node_at(a, lo, cs, x, *g) && y == AbsId(EMPTY),
        Filter::TryCatch(g, Some(h)) => r matches Ast::Try(x, y) && node_at(a, lo, cs, x, *g) && node_at(a, lo, cs, y, *h),
        Filter::Try(g) => r matches Ast::Try(x, y) && node_at(a, lo, cs, x, *g) && y == AbsId(EMPTY),
        Filter::Neg(g) => r matches Ast::Neg(x) && node_at(a, lo, cs, x, *g),
        Filter::Recurse => r matches Ast::Call(c) && c.id == AbsId(RECURSE) && c.typ == CallTyp::Catch
            && c.skip == 0 && c.args@.len() == 0,
        Filter::Binary(l, op, rr) => {
            let (x, y) = operands(r);
            r == binary_node(op, x, y) && node_at(a, lo, cs, x, *l) && node_at(a, lo, cs, y, *rr)
        },
    }
}

/// `r` lowers the parts of `s` from the `i`-th on: each literal stays, each
/// filter is piped into the format, and the pieces are joined by `+`
/// associating to the right; no parts at all give the empty string.
pub open spec fn str_lowers(a: Seq<Ast>, lo: int, cs: Seq<Frame>, r: Ast, s: Str, i: int) -> bool
    decreases s, 0int, s.parts.len() - i + 1,
{
    if i >= s.parts.len() {
        r matches Ast::Str(t) && t@.len() == 0
    } else if i < 0 {
        false
    } else if i == s.parts.len() - 1 {
        str_part_lowers(a, lo, cs, r, s, i)
    } else {
        &&& r matches Ast::Math(x, op, y)
        &&& op == MathOp::Add
        &&& lo <= x.0 < a.len()
        &&& str_part_lowers(a, lo, cs, a[x.0 as int], s, i)
        &&& lo <= y.0 < a.len()
        &&& str_lowers(a, lo, cs, a[y.0 as int], s, i + 1)
    }
}

/// `r` lowers the `i`-th part of `s`.
pub open spec fn str_part_lowers(a: Seq<Ast>, lo: int, cs: Seq<Frame>, r: Ast, s: Str, i: int) -> bool
    decreases s, 0int, 0int,
{
    0 <= i < s.parts.len() && match s.parts[i] {
        StrPart::Str(t) => r matches Ast::Str(u) && u@ == t@,
        StrPart::Fun(g) => {
            &&& r matches Ast::Pipe(x, bind, y)
            &&& !bind
            &&& node_at(a, lo, cs, x, g)
            &&& match s.fmt {
                None => y == AbsId(TOSTRING),
                Some(h) => node_at(a, lo, cs, y, *h),
            }
        },
    }
}

/// `r` lowers one entry of an object literal to a one-pair object.
pub open spec fn kv_lowers(a: Seq<Ast>, lo: int, cs: Seq<Frame>, r: Ast, kv: KeyVal) -> bool
    decreases kv, 0int, 0int,
{
    match kv {
        KeyVal::Filter(k, v) => r matches Ast::ObjSingle(x, y) && node_at(a, lo, cs, x, k) && node_at(a, lo, cs, y, v),
        KeyVal::Str(k, None) => {
            &&& r matches Ast::ObjSingle(x, y)
            &&& lo <= x.0 < a.len()
            &&& str_lowers(a, lo, cs, a[x.0 as int], k, 0)
            &&& lo <= y.0 < a.len()
            &&& a[y.0 as int] matches Ast::Path(b, ps)
            &&& b == AbsId(IDENTITY)
            &&& ps@ == seq![(LPart::Index(x), Opt::Essential)]
        },
        KeyVal::Str(k, Some(v)) => {
            &&& r matches Ast::ObjSingle(x, y)
            &&& lo <= x.0 < a.len()
            &&& str_lowers(a, lo, cs, a[x.0 as int], k, 0)
            &&& node_at(a, lo, cs, y, v)
        },
    }
}

/// `r` lowers the entries of an object literal from the `i`-th on, joined by
/// `+` associating to the right; no entries at all give the empty object.
pub open spec fn obj_lowers(a: Seq<Ast>, lo: int, cs: Seq<Frame>, r: Ast, kvs: Vec<KeyVal>, i: int) -> bool
    decreases kvs, 0int, kvs.len() - i + 1,
{
    if i >= kvs.len() {
        r == Ast::ObjEmpty
    } else if i < 0 {
        false
    } else if i == kvs.len() - 1 {
        kv_lowers(a, lo, cs, r, kvs@[i])
    } else {
        &&& r matches Ast::Math(x, op, y)
        &&& op == MathOp::Add
        &&& lo <= x.0 < a.len()
        &&& kv_lowers(a, lo, cs, a[x.0 as int], kvs@[i])
        &&& lo <= y.0 < a.len()
        &&& obj_lowers(a, lo, cs, a[y.0 as int], kvs, i + 1)
    }
}

/// `r` lowers the branches of the conditional `f` from the `i`-th on, the
/// last one falling back to the `else` branch, or to `.` where there is none.
pub open spec fn ite_lowers(a: Seq<Ast>, lo: int, cs: Seq<Frame>, r: Ast, f: Filter, i: int) -> bool
    decreases f, 0int, if f is Ite { f->Ite_0.len() - i + 1 } else { 0 },
{
    match f {
        Filter::Ite(bs, e) => if i >= bs.len() {
            match e {
                None => r == Ast::Id,
                Some(g) => lowers(a, lo, cs, r, *g),
            }
        } else if i < 0 {
            false
        } else {
            &&& r matches Ast::Ite(c, t, x)
            &&& node_at(a, lo, cs, c, bs@[i].0)
            &&& node_at(a, lo, cs, t, bs@[i].1)
            &&& lo <= x.0 < a.len()
            &&& ite_lowers(a, lo, cs, a[x.0 as int], f, i + 1)
        },
        _ => false,
    }
}

/// `b` extends `a` and agrees with it on every slot from `lo` on.
pub open spec fn grows(a: Seq<Ast>, b: Seq<Ast>, lo: int) -> bool {
    a.len() <= b.len() && forall|i: int| lo <= i < a.len() ==> b[i] == a[i]
}

/// A lowering stays one when the arena grows and its earlier slots are kept.
pub proof fn lemma_node_at_grows(a: Seq<Ast>, b: Seq<Ast>, lo: int, lo2: int, cs: Seq<Frame>, i: AbsId, f: Filter)
    requires
        node_at(a, lo, cs, i, f),
        grows(a, b, lo),
        lo2 <= lo,
    ensures
        node_at(b, lo2, cs, i, f),
    decreases f, 2int, 0int,
{
    lemma_lowers_grows(a, b, lo, lo2, cs, a[i.0 as int], f);
}

pub proof fn lemma_opt_at_grows(a: Seq<Ast>, b: Seq<Ast>, lo: int, lo2: int, cs: Seq<Frame>, i: Option<AbsId>, f: Option<Filter>)
    requires
        opt_at(a, lo, cs, i, f),
        grows(a, b, lo),
        lo2 <= lo,
    ensures
        opt_at(b, lo2, cs, i, f),
    decreases f, 2int, 0int,
{
    if let (Some(x), Some(g)) = (i, f) {
        lemma_node_at_grows(a, b, lo, lo2, cs, x, g);
    }
}

/// A lowering stays one when the arena grows and its earlier slots are kept.
pub proof fn lemma_lowers_grows(a: Seq<Ast>, b: Seq<Ast>, lo: int, lo2: int, cs: Seq<Frame>, r: Ast, f: Filter)
    requires
        lowers(a, lo, cs, r, f),
        grows(a, b, lo),
        lo2 <= lo,
    ensures
        lowers(b, lo2, cs, r, f),
    decreases f, 1int, 0int,
{
    match f {
        Filter::Call(callee, args) => match callee {
            Callee::Arg(_) => {},
            Callee::Native(_) => {
                let ids = r->Native_1;
                assert forall|i: int| 0 <= i < args.len() implies node_at(b, lo2, cs, ids@[i], #[trigger] args@[i]) by {
                    lemma_node_at_grows(a, b, lo, lo2, cs, ids@[i], args@[i]);
                }
            },
            Callee::Def { id, skip, tail } => {
                let c = r->Call_0;
                let fp = cs[id.0 as int].fun_params;
                assert forall|i: int| 0 <= i < c.args@.len() implies match #[trigger] c.args@[i] {
                    Arg::Var(x) => !fp[i] && node_at(b, lo2, cs, x, args@[i]),
                    Arg::Fun(x) => fp[i] && node_at(b, lo2, cs, x, args@[i]),
                } by {
                    match c.args@[i] {
                        Arg::Var(x) => lemma_node_at_grows(a, b, lo, lo2, cs, x, args@[i]),
                        Arg::Fun(x) => lemma_node_at_grows(a, b, lo, lo2, cs, x, args@[i]),
                    }
                }
            },
        },
        Filter::Str(s) => lemma_str_grows(a, b, lo, lo2, cs, r, *s, 0),
        Filter::Array(Some(g)) => lemma_node_at_grows(a, b, lo, lo2, cs, r->Array_0, *g),
        Filter::Object(kvs) => lemma_obj_grows(a, b, lo, lo2, cs, r, kvs, 0),
        Filter::Path(g, path) => {
            let (x, ps) = (r->Path_0, r->Path_1);
            lemma_node_at_grows(a, b, lo, lo2, cs, x, *g);
            assert forall|i: int| 0 <= i < ps@.len() implies (#[trigger] ps@[i]).1 == path@[i].1 && match (ps@[i].0, path@[i].0) {
                (LPart::Index(x), Part::Index(h)) => node_at(b, lo2, cs, x, h),
                (LPart::Range(l, u), Part::Range(gl, gu)) => opt_at(b, lo2, cs, l, gl) && opt_at(b, lo2, cs, u, gu),
                _ => false,
            } by {
                match (ps@[i].0, path@[i].0) {
                    (LPart::Index(x), Part::Index(h)) => lemma_node_at_grows(a, b, lo, lo2, cs, x, h),
                    (LPart::Range(l, u), Part::Range(gl, gu)) => {
                        lemma_opt_at_grows(a, b, lo, lo2, cs, l, gl);
                        lemma_opt_at_grows(a, b, lo, lo2, cs, u, gu);
                    },
                    _ => {},
                }
            }
        },
        Filter::Ite(_, _) => lemma_ite_grows(a, b, lo, lo2, cs, r, f, 0),
        Filter::Fold(_, fd) => {
            lemma_node_at_grows(a, b, lo, lo2, cs, r->Fold_1, *fd.xs);
            lemma_node_at_grows(a, b, lo, lo2, cs, r->Fold_2, *fd.init);
            lemma_node_at_grows(a, b, lo, lo2, cs, r->Fold_3, *fd.f);
        },
        Filter::TryCatch(g, h) => {
            lemma_node_at_grows(a, b, lo, lo2, cs, r->Try_0, *g);
            if let Some(h) = h {
                lemma_node_at_grows(a, b, lo, lo2, cs, r->Try_1, *h);
            }
        },
        Filter::Try(g) => lemma_node_at_grows(a, b, lo, lo2, cs, r->Try_0, *g),
        Filter::Neg(g) => lemma_node_at_grows(a, b, lo, lo2, cs, r->Neg_0, *g),
        Filter::Binary(l, _, rr) => {
            let (x, y) = operands(r);
            lemma_node_at_grows(a, b, lo, lo2, cs, x, *l);
            lemma_node_at_grows(a, b, lo, lo2, cs, y, *rr);
        },
        _ => {},
    }
}

pub proof fn lemma_str_part_grows(a: Seq<Ast>, b: Seq<Ast>, lo: int, lo2: int, cs: Seq<Frame>, r: Ast, s: Str, i: int)
    requires
        str_part_lowers(a, lo, cs, r, s, i),
        grows(a, b, lo),
        lo2 <= lo,
    ensures
        str_part_lowers(b, lo2, cs, r, s, i),
    decreases s, 0int, 0int,
{
    if let StrPart::Fun(g) = s.parts[i] {
        lemma_node_at_grows(a, b, lo, lo2, cs, r->Pipe_0, g);
        if let Some(h) = s.fmt {
            lemma_node_at_grows(a, b, lo, lo2, cs, r->Pipe_2, *h);
        }
    }
}

/// A lowering of string parts stays one when the arena grows.
pub proof fn lemma_str_grows(a: Seq<Ast>, b: Seq<Ast>, lo: int, lo2: int, cs: Seq<Frame>, r: Ast, s: Str, i: int)
    requires
        str_lowers(a, lo, cs, r, s, i),
        grows(a, b, lo),
        lo2 <= lo,
    ensures
        str_lowers(b, lo2, cs, r, s, i),
    decreases s, 0int, s.parts.len() - i + 1,
{
    if i >= s.parts.len() {
    } else if i == s.parts.len() - 1 {
        lemma_str_part_grows(a, b, lo, lo2, cs, r, s, i);
    } else {
        let (x, y) = (r->Math_0, r->Math_2);
        lemma_str_part_grows(a, b, lo, lo2, cs, a[x.0 as int], s, i);
        lemma_str_grows(a, b, lo, lo2, cs, a[y.0 as int], s, i + 1);
    }
}

pub proof fn lemma_kv_grows(a: Seq<Ast>, b: Seq<Ast>, lo: int, lo2: int, cs: Seq<Frame>, r: Ast, kv: KeyVal)
    requires
        kv_lowers(a, lo, cs, r, kv),
        grows(a, b, lo),
        lo2 <= lo,
    ensures
        kv_lowers(b, lo2, cs, r, kv),
    decreases kv, 0int, 0int,
{
    let (x, y) = (r->ObjSingle_0, r->ObjSingle_1);
    match kv {
        KeyVal::Filter(k, v) => {
            lemma_node_at_grows(a, b, lo, lo2, cs, x, k);
            lemma_node_at_grows(a, b, lo, lo2, cs, y, v);
        },
        KeyVal::Str(k, v) => {
            lemma_str_grows(a, b, lo, lo2, cs, a[x.0 as int], k, 0);
            if let Some(v) = v {
                lemma_node_at_grows(a, b, lo, lo2, cs, y, v);
            }
        },
    }
}

pub proof fn lemma_obj_grows(a: Seq<Ast>, b: Seq<Ast>, lo: int, lo2: int, cs: Seq<Frame>, r: Ast, kvs: Vec<KeyVal>, i: int)
    requires
        obj_lowers(a, lo, cs, r, kvs, i),
        grows(a, b, lo),
        lo2 <= lo,
    ensures
        obj_lowers(b, lo2, cs, r, kvs, i),
    decreases kvs, 0int, kvs.len() - i + 1,
{
    if i >= kvs.len() {
    } else if i == kvs.len() - 1 {
        lemma_kv_grows(a, b, lo, lo2, cs, r, kvs@[i]);
    } else {
        let (x, y) = (r->Math_0, r->Math_2);
        lemma_kv_grows(a, b, lo, lo2, cs, a[x.0 as int], kvs@[i]);
        lemma_obj_grows(a, b, lo, lo2, cs, a[y.0 as int], kvs, i + 1);
    }
}

pub proof fn lemma_ite_grows(a: Seq<Ast>, b: Seq<Ast>, lo: int, lo2: int, cs: Seq<Frame>, r: Ast, f: Filter, i: int)
    requires
        ite_lowers(a, lo, cs, r, f, i),
        grows(a, b, lo),
        lo2 <= lo,
    ensures
        ite_lowers(b, lo2, cs, r, f, i),
    decreases f, 0int, if f is Ite { f->Ite_0.len() - i + 1 } else { 0 },
{
    if let Filter::Ite(bs, e) = f {
        if i >= bs.len() {
            if let Some(g) = e {
                lemma_lowers_grows(a, b, lo, lo2, cs, r, *g);
            }
        } else {
            let (c, t, x) = (r->Ite_0, r->Ite_1, r->Ite_2);
            lemma_node_at_grows(a, b, lo, lo2, cs, c, bs@[i].0);
            lemma_node_at_grows(a, b, lo, lo2, cs, t, bs@[i].1);
            lemma_ite_grows(a, b, lo, lo2, cs, a[x.0 as int], f, i + 1);
        }
    }
}

/// The tail-recursion flags of the definitions in scope.
pub open spec fn tailrecs_of(cs: Seq<Frame>) -> Seq<bool> {
    cs.map_values(|c: Frame| c.tailrec)
}

/// The tail-recursion flags of the first `n` definitions.
pub open spec fn def_tailrecs(defs: Seq<Def>, n: int) -> Seq<bool> {
    Seq::new(n as nat, |j: int| defs[j].tailrec)
}

/// The frames of definitions placed at slots `ids`.
pub open spec fn def_frames(defs: Seq<Def>, ids: Seq<AbsId>) -> Seq<Frame> {
    Seq::new(ids.len(), |j: int| Frame { fun_params: fun_params(defs[j].lhs.args@), id: ids[j], tailrec: defs[j].tailrec })
}

/// `f` can be lowered with definitions of tail-recursion flags `tr` in scope:
/// every call names a definition in scope, no tail call targets a definition
/// that is not tail-recursive, and no parameter is applied to arguments.
pub open spec fn admissible(tr: Seq<bool>, f: Filter) -> bool
    decreases f,
{
    match f {
        Filter::Call(callee, args) => {
            &&& match callee {
                Callee::Arg(_) => args.len() == 0,
                Callee::Native(_) => true,
                Callee::Def { id, tail, .. } => id.0 < tr.len() && (tail ==> tr[id.0 as int]),
            }
            &&& forall|i: int| 0 <= i < args.len() ==> admissible(tr, #[trigger] args@[i])
        },
        Filter::Str(s) => str_admissible(tr, *s),
        Filter::Array(Some(g)) => admissible(tr, *g),
        Filter::Object(kvs) => forall|i: int| 0 <= i < kvs.len() ==> kv_admissible(tr, #[trigger] kvs@[i]),
        Filter::Path(g, path) => admissible(tr, *g) && forall|i: int| 0 <= i < path.len() ==> match (#[trigger] path@[i]).0 {
            Part::Index(h) => admissible(tr, h),
            Part::Range(l, u) => (l matches Some(h) ==> admissible(tr, h)) && (u matches Some(h) ==> admissible(tr, h)),
        },
        Filter::Ite(bs, e) => (forall|i: int| 0 <= i < bs.len() ==> admissible(tr, (#[trigger] bs@[i]).0) && admissible(tr, bs@[i].1))
            && (e matches Some(g) ==> admissible(tr, *g)),
        Filter::Fold(_, fd) => admissible(tr, *fd.xs) && admissible(tr, *fd.init) && admissible(tr, *fd.f),
        Filter::TryCatch(g, h) => admissible(tr, *g) && (h matches Some(h) ==> admissible(tr, *h)),
        Filter::Try(g) => admissible(tr, *g),
        Filter::Neg(g) => admissible(tr, *g),
        Filter::Binary(l, _, r) => admissible(tr, *l) && admissible(tr, *r),
        _ => true,
    }
}

/// The format and the filters embedded in `s` are admissible.
pub open spec fn str_admissible(tr: Seq<bool>, s: Str) -> bool
    decreases s,
{
    &&& (s.fmt matches Some(g) ==> admissible(tr, *g))
    &&& forall|i: int| 0 <= i < s.parts.len() ==> ((#[trigger] s.parts@[i]) matches StrPart::Fun(g) ==> admissible(tr, g))
}

/// The key and the value of `kv` are admissible.
pub open spec fn kv_admissible(tr: Seq<bool>, kv: KeyVal) -> bool
    decreases kv,
{
    match kv {
        KeyVal::Filter(k, v) => admissible(tr, k) && admissible(tr, v),
        KeyVal::Str(k, v) => str_admissible(tr, k) && (v matches Some(v) ==> admissible(tr, v)),
    }
}

/// Each definition of `m` is admissible with itself and the definitions
/// before it in scope, and the body with all of them.
pub open spec fn main_admissible(tr: Seq<bool>, m: Main) -> bool
    decreases m,
{
    &&& forall|j: int| 0 <= j < m.defs.len() ==> main_admissible(tr + def_tailrecs(m.defs@, j + 1), (#[trigger] m.defs@[j]).rhs)
    &&& admissible(tr + def_tailrecs(m.defs@, m.defs.len() as int), m.body)
}

/// Where the definitions of a program were placed: the slot of each
/// definition, and the placement of the definitions inside its body.
pub struct Layout {
    pub ids: Seq<AbsId>,
    pub subs: Seq<Layout>,
}

/// `r` lowers the body of `m`, whose definitions were lowered to the slots
/// that `l` gives: each slot holds a lowering of the definition's body, with
/// itself and the definitions before it in scope, and the body is lowered
/// with all of them in scope.
pub open spec fn main_at(a: Seq<Ast>, lo: int, cs: Seq<Frame>, r: Ast, m: Main, l: Layout) -> bool
    decreases m,
{
    &&& l.ids.len() == m.defs.len()
    &&& l.subs.len() == m.defs.len()
    &&& forall|j: int| 0 <= j < m.defs.len() ==> lo <= l.ids[j].0 < a.len() && main_at(
        a,
        lo,
        cs + def_frames(m.defs@, l.ids).take(j + 1),
        a[l.ids[j].0 as int],
        (#[trigger] m.defs@[j]).rhs,
        l.subs[j],
    )
    &&& lowers(a, lo, cs + def_frames(m.defs@, l.ids), r, m.body)
}

/// `r` lowers the body of `m`, with the definitions of `m` placed somewhere.
pub open spec fn main_lowers(a: Seq<Ast>, lo: int, cs: Seq<Frame>, r: Ast, m: Main) -> bool {
    exists|l: Layout| #[trigger] main_at(a, lo, cs, r, m, l)
}

/// A lowering of definitions stays one when the arena grows.
pub proof fn lemma_main_grows(a: Seq<Ast>, b: Seq<Ast>, lo: int, lo2: int, cs: Seq<Frame>, r: Ast, m: Main, l: Layout)
    requires
        main_at(a, lo, cs, r, m, l),
        grows(a, b, lo),
        lo2 <= lo,
    ensures
        main_at(b, lo2, cs, r, m, l),
    decreases m,
{
    assert forall|j: int| 0 <= j < m.defs.len() implies lo2 <= l.ids[j].0 < b.len() && main_at(
        b,
        lo2,
        cs + def_frames(m.defs@, l.ids).take(j + 1),
        b[l.ids[j].0 as int],
        (#[trigger] m.defs@[j]).rhs,
        l.subs[j],
    ) by {
        lemma_main_grows(a, b, lo, lo2, cs + def_frames(m.defs@, l.ids).take(j + 1), a[l.ids[j].0 as int], m.defs@[j].rhs, l.subs[j]);
    }
    lemma_lowers_grows(a, b, lo, lo2, cs + def_frames(m.defs@, l.ids), r, m.body);
}

} // verus!
