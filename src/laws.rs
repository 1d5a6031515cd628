//! Properties of lowering that relate several inputs or several calls.

use vstd::prelude::*;

use crate::lir::{AbsId, Ast, CallTyp, MathOp, Node, Opt, Part as LPart};
use crate::exact::{ite_spec, lower_spec};
use crate::lower::{builtins, Ctx};
use crate::mir::{Callee, Filter, KeyVal, Part, StrPart};
use crate::spec::{admissible, ite_lowers, kv_lowers, lowers, node_at, str_lowers, str_part_lowers, Frame, EMPTY, IDENTITY, RECURSE, TOSTRING};

verus! {

/// The built-ins sit at fixed slots, `.` at 0, the string conversion at 1,
/// `{}[]` at 3 and `..` at 7, in every well-formed context alike: two such
/// contexts hold the same built-in nodes.
pub proof fn lemma_builtin_slots(c1: Ctx, c2: Ctx)
    requires
        c1.wf(),
        c2.wf(),
    ensures
        IDENTITY == 0 && TOSTRING == 1 && EMPTY == 3 && RECURSE == 7,
        c1.defs@[IDENTITY as int] == Ast::Id && c1.defs@[TOSTRING as int] == Ast::ToString,
        forall|i: int| 0 <= i < 8 && i != 3 && i != 4 && i != 5 ==> c1.defs@[i] == c2.defs@[i],
        c1.defs@[3]->Path_0 == c2.defs@[3]->Path_0 && c1.defs@[3]->Path_1@ == c2.defs@[3]->Path_1@,
        c1.defs@[4]->Path_0 == c2.defs@[4]->Path_0 && c1.defs@[4]->Path_1@ == c2.defs@[4]->Path_1@,
        c1.defs@[5]->Call_0.id == c2.defs@[5]->Call_0.id && c1.defs@[5]->Call_0.typ == c2.defs@[5]->Call_0.typ,
        c1.defs@[5]->Call_0.skip == c2.defs@[5]->Call_0.skip && c1.defs@[5]->Call_0.args@ == c2.defs@[5]->Call_0.args@,
{
    assert(c1.defs@[5]->Call_0.args@ =~= c2.defs@[5]->Call_0.args@);
}

/// An array literal without a body lowers to an array of the filter that
/// yields nothing.
pub proof fn lemma_empty_array(a: Seq<Ast>, lo: int, cs: Seq<Frame>, r: Ast)
    requires
        lowers(a, lo, cs, r, Filter::Array(None)),
    ensures
        r == Ast::Array(AbsId(EMPTY)),
{
}

/// An object literal without entries lowers to the empty object itself.
pub proof fn lemma_empty_object(a: Seq<Ast>, lo: int, cs: Seq<Frame>, r: Ast, f: Filter)
    requires
        f matches Filter::Object(kvs) && kvs.len() == 0,
        lowers(a, lo, cs, r, f),
    ensures
        r == Ast::ObjEmpty,
{
}

/// `r` is `p + ((y | tostring) + q)` where `p` and `q` are the literals of
/// the first and last parts of `s`, and `y` is a lowering of `x`.
pub open spec fn concat_shape(a: Seq<Ast>, lo: int, cs: Seq<Frame>, r: Ast, s: crate::mir::Str, x: Filter) -> bool {
    &&& r matches Ast::Math(i, op, j)
    &&& op == MathOp::Add
    &&& a[i.0 as int] matches Ast::Str(p)
    &&& p@ == s.parts@[0]->Str_0@
    &&& a[j.0 as int] matches Ast::Math(k, op2, l)
    &&& op2 == MathOp::Add
    &&& a[k.0 as int] matches Ast::Pipe(g, bind, t)
    &&& !bind
    &&& t == AbsId(TOSTRING)
    &&& node_at(a, lo, cs, g, x)
    &&& a[l.0 as int] matches Ast::Str(q)
    &&& q@ == s.parts@[2]->Str_0@
}

/// A string `"p\(x)q"` without a format lowers to `"p" + ((x | tostring) + "q")`.
pub proof fn lemma_interpolation(a: Seq<Ast>, lo: int, cs: Seq<Frame>, r: Ast, f: Filter, x: Filter)
    requires
        f matches Filter::Str(s) && s.fmt is None && s.parts.len() == 3 && s.parts@[0] is Str
            && s.parts@[1] == StrPart::Fun(x) && s.parts@[2] is Str,
        lowers(a, lo, cs, r, f),
    ensures
        concat_shape(a, lo, cs, r, *f->Str_0, x),
{
    let s = *f->Str_0;
    assert(str_lowers(a, lo, cs, r, s, 0));
    let (i, j) = (r->Math_0, r->Math_2);
    assert(str_part_lowers(a, lo, cs, a[i.0 as int], s, 0));
    assert(str_lowers(a, lo, cs, a[j.0 as int], s, 1));
    let (k, l) = (a[j.0 as int]->Math_0, a[j.0 as int]->Math_2);
    assert(str_part_lowers(a, lo, cs, a[k.0 as int], s, 1));
    assert(str_lowers(a, lo, cs, a[l.0 as int], s, 2));
    assert(str_part_lowers(a, lo, cs, a[l.0 as int], s, 2));
}

/// `r` is a one-pair object whose key lowers the string `k` and whose value
/// indexes the input (a slot holding `.`) by a lowering of the same string.
pub open spec fn key_indexes_input(a: Seq<Ast>, lo: int, cs: Seq<Frame>, r: Ast, k: crate::mir::Str) -> bool {
    &&& r matches Ast::ObjSingle(x, y)
    &&& lo <= x.0 < a.len()
    &&& str_lowers(a, lo, cs, a[x.0 as int], k, 0)
    &&& lo <= y.0 < a.len()
    &&& a[y.0 as int] matches Ast::Path(b, ps)
    &&& 0 <= b.0 < a.len() && a[b.0 as int] == Ast::Id
    &&& ps@.len() == 1 && ps@[0].1 == Opt::Essential
    &&& ps@[0].0 matches LPart::Index(i)
    &&& lo <= i.0 < a.len() && str_lowers(a, lo, cs, a[i.0 as int], k, 0)
}

/// The shorthand `{k}` and the explicit `{k: .k}` both lower to a one-pair
/// object whose value indexes the input by the key.
pub proof fn lemma_shorthand_key(a: Seq<Ast>, lo: int, cs: Seq<Frame>, r1: Ast, f1: Filter, r2: Ast, f2: Filter, k: crate::mir::Str)
    requires
        builtins(a),
        0 <= lo,
        f1 is Object && f1->Object_0.len() == 1 && f1->Object_0@[0] == KeyVal::Str(k, None),
        ({
            &&& f2 matches Filter::Object(kvs)
            &&& kvs.len() == 1
            &&& kvs@[0] matches KeyVal::Str(k2, Some(v))
            &&& k2 == k
            &&& v matches Filter::Path(g, path)
            &&& *g == Filter::Id
            &&& path.len() == 1
            &&& path@[0].1 == Opt::Essential
            &&& path@[0].0 matches Part::Index(h)
            &&& h matches Filter::Str(k3)
            &&& *k3 == k
        }),
        lowers(a, lo, cs, r1, f1),
        lowers(a, lo, cs, r2, f2),
    ensures
        key_indexes_input(a, lo, cs, r1, k),
        key_indexes_input(a, lo, cs, r2, k),
{
    assert(kv_lowers(a, lo, cs, r1, f1->Object_0@[0]));
    let x1 = r1->ObjSingle_0;
    assert(str_lowers(a, lo, cs, a[x1.0 as int], k, 0));
    assert(a[IDENTITY as int] == Ast::Id);
    let ps1 = a[r1->ObjSingle_1.0 as int]->Path_1;
    assert(ps1@[0] == (LPart::Index(x1), Opt::Essential));
    let kv2 = f2->Object_0@[0];
    assert(kv_lowers(a, lo, cs, r2, kv2));
    let v = kv2->Str_1->Some_0;
    let y = r2->ObjSingle_1;
    assert(node_at(a, lo, cs, y, v));
    assert(lowers(a, lo, cs, a[y.0 as int], v));
    let ps = a[y.0 as int]->Path_1;
    assert(ps@[0].1 == v->Path_1@[0].1);
    let h = v->Path_1@[0].0->Index_0;
    let i = ps@[0].0->Index_0;
    assert(node_at(a, lo, cs, i, h));
    assert(lowers(a, lo, cs, a[i.0 as int], h));
    assert(str_lowers(a, lo, cs, a[i.0 as int], k, 0));
    let b = a[y.0 as int]->Path_0;
    assert(node_at(a, lo, cs, b, Filter::Id));
    assert(a[b.0 as int] == Ast::Id);
    assert(str_lowers(a, lo, cs, a[r2->ObjSingle_0.0 as int], k, 0));
}

/// A tail call to a tail-recursive definition is lowered with the `Throw`
/// convention.
pub proof fn lemma_tail_call_throws(a: Seq<Ast>, lo: int, cs: Seq<Frame>, r: Ast, f: Filter)
    requires
        f matches Filter::Call(Callee::Def { id, tail, .. }, _) && tail && id.0 < cs.len() && cs[id.0 as int].tailrec,
        lowers(a, lo, cs, r, f),
    ensures
        r matches Ast::Call(c) && c.typ == CallTyp::Throw && c.id == cs[f->Call_0->Def_id.0 as int].id,
{
}

/// A tail call to a definition that is not tail-recursive cannot be
/// lowered: it is not admissible, rather than lowered as a normal call.
pub proof fn lemma_tail_call_refused(tr: Seq<bool>, f: Filter)
    requires
        f matches Filter::Call(Callee::Def { id, tail, .. }, _) && tail && id.0 < tr.len() && !tr[id.0 as int],
    ensures
        !admissible(tr, f),
{
}

/// A call not in tail position to a tail-recursive definition is lowered
/// with the `Catch` convention.
pub proof fn lemma_entry_call_catches(a: Seq<Ast>, lo: int, cs: Seq<Frame>, r: Ast, f: Filter)
    requires
        f matches Filter::Call(Callee::Def { id, tail, .. }, _) && !tail && id.0 < cs.len() && cs[id.0 as int].tailrec,
        lowers(a, lo, cs, r, f),
    ensures
        r matches Ast::Call(c) && c.typ == CallTyp::Catch && c.id == cs[f->Call_0->Def_id.0 as int].id,
{
}

proof fn lemma_ite_else_id(a: Seq<Ast>, lo: int, cs: Seq<Frame>, r: Ast, f1: Filter, f2: Filter, i: int)
    requires
        f1 matches Filter::Ite(bs1, None),
        f2 matches Filter::Ite(bs2, Some(e)) && *e == Filter::Id && bs2@ == f1->Ite_0@,
    ensures
        ite_lowers(a, lo, cs, r, f1, i) == ite_lowers(a, lo, cs, r, f2, i),
    decreases f1->Ite_0.len() - i,
{
    let bs = f1->Ite_0;
    let e = f2->Ite_1->Some_0;
    if i >= bs.len() {
        assert(lowers(a, lo, cs, r, *e) == (r == Ast::Id));
    } else if 0 <= i {
        if r is Ite && 0 <= r->Ite_2.0 < a.len() {
            lemma_ite_else_id(a, lo, cs, a[r->Ite_2.0 as int], f1, f2, i + 1);
        }
    }
}

/// `if c then t end` lowers exactly as `if c then t else . end` does, for
/// any chain of branches.
pub proof fn lemma_if_without_else(a: Seq<Ast>, lo: int, cs: Seq<Frame>, r: Ast, f1: Filter, f2: Filter)
    requires
        f1 matches Filter::Ite(bs1, None),
        f2 matches Filter::Ite(bs2, Some(e)) && *e == Filter::Id && bs2@ == f1->Ite_0@,
    ensures
        lowers(a, lo, cs, r, f1) == lowers(a, lo, cs, r, f2),
{
    lemma_ite_else_id(a, lo, cs, r, f1, f2, 0);
}

/// The leaves append nothing to the arena: an array without a body, an
/// object without entries, a string without parts or with one literal
/// part, a parameter, and `..`.
pub proof fn lemma_leaves_append_nothing(n: int, cs: Seq<Frame>, f: Filter)
    requires
        ({
            ||| f == Filter::Array(None)
            ||| f matches Filter::Object(kvs) && kvs.len() == 0
            ||| f matches Filter::Str(s) && s.fmt is None && s.parts.len() == 0
            ||| f matches Filter::Str(s) && s.fmt is None && s.parts.len() == 1 && s.parts@[0] is Str
            ||| f matches Filter::Call(Callee::Arg(_), args) && args.len() == 0
            ||| f == Filter::Recurse
        }),
    ensures
        lower_spec(n, cs, f).0.len() == 0,
        f == Filter::Array(None) ==> lower_spec(n, cs, f).1 == Node::Array(AbsId(EMPTY)),
        f is Object ==> lower_spec(n, cs, f).1 == Node::ObjEmpty,
{
    match f {
        Filter::Str(s) => {
            let p0 = crate::exact::parts_spec(n, cs, *s, AbsId(TOSTRING), 0);
            assert(p0.0.len() == 0);
            let p = crate::exact::parts_spec(n, cs, *s, AbsId(TOSTRING), s.parts.len() as int);
            assert(p.0.len() == 0);
            let j = crate::exact::join_spec(n, p.1, Node::Str(seq![]));
            assert(j.0.len() == 0);
            assert(Seq::<Node>::empty() + p.0 + j.0 =~= Seq::<Node>::empty());
            assert(lower_spec(n, cs, f) == crate::exact::str_spec(n, cs, *s));
            assert(crate::exact::str_spec(n, cs, *s) == (Seq::<Node>::empty() + p.0 + j.0, j.1));
        },
        Filter::Object(kvs) => {
            let k = crate::exact::kvs_spec(n, cs, kvs, 0);
            assert(k.0.len() == 0 && k.1.len() == 0);
            assert(k.0 + Seq::<Node>::empty() =~= Seq::<Node>::empty());
            assert(lower_spec(n, cs, f) == crate::exact::obj_spec(n, cs, kvs));
            let j = crate::exact::join_spec(n, k.1, Node::ObjEmpty);
            assert(j == (Seq::<Node>::empty(), Node::ObjEmpty));
            assert(crate::exact::obj_spec(n, cs, kvs) == (k.0 + j.0, j.1));
        },
        Filter::Call(_, args) => {
            assert(crate::exact::args_spec(n, cs, args, 0).0.len() == 0);
        },
        _ => {},
    }
}

proof fn lemma_ite_spec_else_free(p: int, cs: Seq<Frame>, f1: Filter, f2: Filter, i: int, acc: Node)
    requires
        f1 is Ite && f2 is Ite && f2->Ite_0@ == f1->Ite_0@,
    ensures
        ite_spec(p, cs, f1, i, acc) == ite_spec(p, cs, f2, i, acc),
    decreases i,
{
    if 0 < i <= f1->Ite_0.len() {
        let bs = f1->Ite_0;
        let s1 = crate::exact::get_spec(p, cs, bs@[i - 1].0);
        let s2 = crate::exact::get_spec(p + s1.0.len(), cs, bs@[i - 1].1);
        let x = p + s1.0.len() + s2.0.len();
        lemma_ite_spec_else_free(x + 1, cs, f1, f2, i - 1, Node::Ite(s1.1, s2.1, crate::exact::slot(x)));
    }
}

/// `if c then t end` and `if c then t else . end` append the same nodes and
/// give the same node, for any chain of branches: equal contexts end equal.
pub proof fn lemma_if_without_else_exact(n: int, cs: Seq<Frame>, f1: Filter, f2: Filter)
    requires
        f1 matches Filter::Ite(bs1, None),
        f2 matches Filter::Ite(bs2, Some(e)) && *e == Filter::Id && bs2@ == f1->Ite_0@,
    ensures
        lower_spec(n, cs, f1) == lower_spec(n, cs, f2),
{
    lemma_ite_spec_else_free(n, cs, f1, f2, f1->Ite_0.len() as int, Node::Id);
    assert(lower_spec(n, cs, *f2->Ite_1->Some_0) == (Seq::<Node>::empty(), Node::Id));
    assert(f2->Ite_0.len() == f1->Ite_0.len());
    assert(Seq::<Node>::empty() + ite_spec(n, cs, f1, f1->Ite_0.len() as int, Node::Id).0 =~= ite_spec(n, cs, f1, f1->Ite_0.len() as int, Node::Id).0);
}

/// A call to a tail-recursive definition in scope takes the `Throw`
/// convention in tail position and `Catch` elsewhere, whatever its
/// arguments; it names the definition's slot and keeps its skip count.
pub proof fn lemma_call_convention_exact(n: int, cs: Seq<Frame>, f: Filter)
    requires
        f matches Filter::Call(Callee::Def { id, .. }, _) && id.0 < cs.len() && cs[id.0 as int].tailrec,
    ensures
        ({
            let (id, skip, tail) = (f->Call_0->Def_id, f->Call_0->Def_skip, f->Call_0->Def_tail);
            let r = lower_spec(n, cs, f).1;
            &&& r is Call
            &&& r->Call_0 == cs[id.0 as int].id
            &&& r->Call_1 == (if tail { CallTyp::Throw } else { CallTyp::Catch })
            &&& r->Call_2 == skip
        }),
{
}

} // verus!
