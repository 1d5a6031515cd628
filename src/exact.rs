//! Exactly which nodes lowering appends to the arena, in allocation order,
//! and which node it returns. Every function takes `n`, the arena's length
//! before the step, so that identifiers are the slots the nodes occupy.

use vstd::prelude::*;

use crate::lir::{AbsId, Arg, CallTyp, MathOp, Node, Opt, Part as LPart};
use crate::mir::{Callee, Def, Filter, KeyVal, Main, Num, Part, Str, StrPart};
use crate::spec::{binary_node, convention, fun_params, Frame, EMPTY, IDENTITY, RECURSE, TOSTRING};

verus! {

/// The slot `n` as an identifier.
pub open spec fn slot(n: int) -> AbsId {
    AbsId(n as usize)
}

/// Arguments tagged by the declared parameter kinds, as far as both reach.
pub open spec fn tag_args(fp: Seq<bool>, ids: Seq<AbsId>) -> Seq<Arg> {
    Seq::new(
        if fp.len() < ids.len() { fp.len() } else { ids.len() },
        |j: int| if fp[j] { Arg::Fun(ids[j]) } else { Arg::Var(ids[j]) },
    )
}

/// The node of a call whose arguments were placed at `ids`.
pub open spec fn call_node(cs: Seq<Frame>, callee: Callee, ids: Seq<AbsId>) -> Node {
    match callee {
        Callee::Arg(a) => Node::Var(a),
        Callee::Native(n) => Node::Native(n, ids),
        Callee::Def { id, skip, tail } => if id.0 < cs.len() {
            Node::Call(
                cs[id.0 as int].id,
                convention(tail, cs[id.0 as int].tailrec),
                skip,
                tag_args(cs[id.0 as int].fun_params, ids),
            )
        } else {
            // a definition out of scope is never lowered
            Node::Var(0)
        },
    }
}

/// Lowering `f` appends `.0` and returns `.1`.
pub open spec fn lower_spec(n: int, cs: Seq<Frame>, f: Filter) -> (Seq<Node>, Node)
    decreases f, 1int, 0int,
{
    match f {
        Filter::Var(v) => (seq![], Node::Var(v)),
        Filter::Call(callee, args) => {
            let (s, ids) = args_spec(n, cs, args, args.len() as int);
            (s, call_node(cs, callee, ids))
        },
        Filter::Fold(t, fd) => {
            let (s1, x) = get_spec(n, cs, *fd.xs);
            let (s2, y) = get_spec(n + s1.len(), cs, *fd.init);
            let (s3, z) = get_spec(n + s1.len() + s2.len(), cs, *fd.f);
            (s1 + s2 + s3, Node::Fold(t, x, y, z))
        },
        Filter::Id => (seq![], Node::Id),
        Filter::Num(Num::Num(s)) => (seq![], Node::Num(s@)),
        Filter::Num(Num::Int(i)) => (seq![], Node::Int(i)),
        Filter::Str(s) => str_spec(n, cs, *s),
        Filter::Array(None) => (seq![], Node::Array(AbsId(EMPTY))),
        Filter::Array(Some(g)) => {
            let (s, x) = get_spec(n, cs, *g);
            (s, Node::Array(x))
        },
        Filter::Object(kvs) => obj_spec(n, cs, kvs),
        Filter::Try(g) => {
            let (s, x) = get_spec(n, cs, *g);
            (s, Node::Try(x, AbsId(EMPTY)))
        },
        Filter::Neg(g) => {
            let (s, x) = get_spec(n, cs, *g);
            (s, Node::Neg(x))
        },
        Filter::Recurse => (seq![], Node::Call(AbsId(RECURSE), CallTyp::Catch, 0, seq![])),
        Filter::Binary(l, op, r) => {
            let (s1, x) = get_spec(n, cs, *l);
            let (s2, y) = get_spec(n + s1.len(), cs, *r);
            (s1 + s2, binary_node(op, x, y).node())
        },
        Filter::Ite(bs, e) => {
            let (s0, acc) = match e {
                None => (Seq::<Node>::empty(), Node::Id),
                Some(g) => lower_spec(n, cs, *g),
            };
            let (s1, r) = ite_spec(n + s0.len(), cs, f, bs.len() as int, acc);
            (s0 + s1, r)
        },
        Filter::TryCatch(t, c) => {
            let (s1, x) = get_spec(n, cs, *t);
            let (s2, y) = match c {
                None => (Seq::<Node>::empty(), AbsId(EMPTY)),
                Some(c) => get_spec(n + s1.len(), cs, *c),
            };
            (s1 + s2, Node::Try(x, y))
        },
        Filter::Path(g, path) => {
            let (s1, x) = get_spec(n, cs, *g);
            let (s2, ps) = path_spec(n + s1.len(), cs, path, path.len() as int);
            (s1 + s2, Node::Path(x, ps))
        },
    }
}

/// Lowering `f` and placing the result appends `.0`; `.1` is the last slot.
pub open spec fn get_spec(n: int, cs: Seq<Frame>, f: Filter) -> (Seq<Node>, AbsId)
    decreases f, 2int, 0int,
{
    let (s, r) = lower_spec(n, cs, f);
    (s.push(r), slot(n + s.len()))
}

/// Placing the first `i` arguments, in order.
pub open spec fn args_spec(n: int, cs: Seq<Frame>, args: Vec<Filter>, i: int) -> (Seq<Node>, Seq<AbsId>)
    decreases args, 0int, i,
{
    if i <= 0 || i > args.len() {
        (seq![], seq![])
    } else {
        let (s, ids) = args_spec(n, cs, args, i - 1);
        let (t, x) = get_spec(n + s.len(), cs, args@[i - 1]);
        (s + t, ids.push(x))
    }
}

/// Lowering an optional path bound.
pub open spec fn bound_spec(n: int, cs: Seq<Frame>, b: Option<Filter>) -> (Seq<Node>, Option<AbsId>)
    decreases b, 0int, 0int,
{
    match b {
        None => (seq![], None),
        Some(g) => {
            let (s, x) = get_spec(n, cs, g);
            (s, Some(x))
        },
    }
}

/// Lowering the first `i` parts of a path, in order.
pub open spec fn path_spec(n: int, cs: Seq<Frame>, path: Vec<(Part, Opt)>, i: int) -> (Seq<Node>, Seq<(LPart, Opt)>)
    decreases path, 0int, i,
{
    if i <= 0 || i > path.len() {
        (seq![], seq![])
    } else {
        let (s, ps) = path_spec(n, cs, path, i - 1);
        let m = n + s.len();
        match path@[i - 1].0 {
            Part::Index(h) => {
                let (t, x) = get_spec(m, cs, h);
                (s + t, ps.push((LPart::Index(x), path@[i - 1].1)))
            },
            Part::Range(l, u) => {
                let (t1, x) = bound_spec(m, cs, l);
                let (t2, y) = bound_spec(m + t1.len(), cs, u);
                (s + t1 + t2, ps.push((LPart::Range(x, y), path@[i - 1].1)))
            },
        }
    }
}

/// Joining `nodes[..k]` onto `acc` by `+`, from the right: each step places
/// the next node and the accumulated node at `p` and `p + 1`.
pub open spec fn fold_add(p: int, nodes: Seq<Node>, k: int, acc: Node) -> (Seq<Node>, Node)
    decreases k,
{
    if k <= 0 || k > nodes.len() {
        (seq![], acc)
    } else {
        let (rest, r) = fold_add(p + 2, nodes, k - 1, Node::Math(slot(p), MathOp::Add, slot(p + 1)));
        (seq![nodes[k - 1], acc] + rest, r)
    }
}

/// Joining all of `nodes` by `+` to the right; `none` where there are none.
pub open spec fn join_spec(p: int, nodes: Seq<Node>, none: Node) -> (Seq<Node>, Node) {
    if nodes.len() == 0 {
        (seq![], none)
    } else {
        fold_add(p, nodes, nodes.len() - 1, nodes.last())
    }
}

/// Lowering an interpolated string: the format first, then each part in
/// order, then the concatenation.
pub open spec fn str_spec(n: int, cs: Seq<Frame>, s: Str) -> (Seq<Node>, Node)
    decreases s, 1int, 0int,
{
    let (s0, fid) = match s.fmt {
        None => (Seq::<Node>::empty(), AbsId(TOSTRING)),
        Some(g) => get_spec(n, cs, *g),
    };
    let (s1, ns) = parts_spec(n + s0.len(), cs, s, fid, s.parts.len() as int);
    let (s2, r) = join_spec(n + s0.len() + s1.len(), ns, Node::Str(seq![]));
    (s0 + s1 + s2, r)
}

/// Lowering the first `i` parts of a string, each filter piped into `fid`.
pub open spec fn parts_spec(n: int, cs: Seq<Frame>, s: Str, fid: AbsId, i: int) -> (Seq<Node>, Seq<Node>)
    decreases s, 0int, i,
{
    if i <= 0 || i > s.parts.len() {
        (seq![], seq![])
    } else {
        let (a, ns) = parts_spec(n, cs, s, fid, i - 1);
        match s.parts@[i - 1] {
            StrPart::Str(t) => (a, ns.push(Node::Str(t@))),
            StrPart::Fun(g) => {
                let (b, x) = get_spec(n + a.len(), cs, g);
                (a + b, ns.push(Node::Pipe(x, false, fid)))
            },
        }
    }
}

/// Lowering one object entry: the key before the value.
pub open spec fn kv_spec(n: int, cs: Seq<Frame>, kv: KeyVal) -> (Seq<Node>, Node)
    decreases kv, 0int, 0int,
{
    match kv {
        KeyVal::Filter(k, v) => {
            let (s1, x) = get_spec(n, cs, k);
            let (s2, y) = get_spec(n + s1.len(), cs, v);
            (s1 + s2, Node::ObjSingle(x, y))
        },
        KeyVal::Str(k, v) => {
            let (s1, kn) = str_spec(n, cs, k);
            let x = slot(n + s1.len());
            let (s2, y) = match v {
                None => (seq![Node::Path(AbsId(IDENTITY), seq![(LPart::Index(x), Opt::Essential)])], slot(n + s1.len() + 1)),
                Some(v) => get_spec(n + s1.len() + 1, cs, v),
            };
            (s1.push(kn) + s2, Node::ObjSingle(x, y))
        },
    }
}

/// Lowering the first `i` entries of an object, in order.
pub open spec fn kvs_spec(n: int, cs: Seq<Frame>, kvs: Vec<KeyVal>, i: int) -> (Seq<Node>, Seq<Node>)
    decreases kvs, 0int, i,
{
    if i <= 0 || i > kvs.len() {
        (seq![], seq![])
    } else {
        let (a, ns) = kvs_spec(n, cs, kvs, i - 1);
        let (b, x) = kv_spec(n + a.len(), cs, kvs@[i - 1]);
        (a + b, ns.push(x))
    }
}

/// Lowering an object literal: its entries, then their sum.
pub open spec fn obj_spec(n: int, cs: Seq<Frame>, kvs: Vec<KeyVal>) -> (Seq<Node>, Node)
    decreases kvs, 1int, 0int,
{
    let (s1, ns) = kvs_spec(n, cs, kvs, kvs.len() as int);
    let (s2, r) = join_spec(n + s1.len(), ns, Node::ObjEmpty);
    (s1 + s2, r)
}

/// Folding the first `i` branches of the conditional `f` onto `acc`, the
/// last branch first: condition, then branch, then the node folded so far.
pub open spec fn ite_spec(p: int, cs: Seq<Frame>, f: Filter, i: int, acc: Node) -> (Seq<Node>, Node)
    decreases f, 0int, i,
{
    match f {
        Filter::Ite(bs, _) => if i <= 0 || i > bs.len() {
            (seq![], acc)
        } else {
            let (s1, c) = get_spec(p, cs, bs@[i - 1].0);
            let (s2, t) = get_spec(p + s1.len(), cs, bs@[i - 1].1);
            let x = p + s1.len() + s2.len();
            let (rest, r) = ite_spec(x + 1, cs, f, i - 1, Node::Ite(c, t, slot(x)));
            (s1 + s2 + seq![acc] + rest, r)
        },
        _ => (seq![], acc),
    }
}

/// The frame of definition `d` placed at slot `id`.
pub open spec fn def_frame(d: Def, id: AbsId) -> Frame {
    Frame { fun_params: fun_params(d.lhs.args@), id, tailrec: d.tailrec }
}

/// Lowering a definition at slot `n`: that slot ends up holding the body's
/// node, and what lowering the body appended follows it.
pub open spec fn def_spec(n: int, cs: Seq<Frame>, d: Def) -> Seq<Node>
    decreases d, 0int, 0int,
{
    let (s, r) = main_spec(n + 1, cs.push(def_frame(d, slot(n))), d.rhs);
    seq![r] + s
}

/// Lowering the first `i` definitions of `m` in order; `.1` are their
/// frames, which stay in scope for the later ones and the body.
pub open spec fn defs_spec(n: int, cs: Seq<Frame>, m: Main, i: int) -> (Seq<Node>, Seq<Frame>)
    decreases m, 0int, i,
{
    if i <= 0 || i > m.defs.len() {
        (seq![], seq![])
    } else {
        let (s, fr) = defs_spec(n, cs, m, i - 1);
        let t = def_spec(n + s.len(), cs + fr, m.defs@[i - 1]);
        (s + t, fr.push(def_frame(m.defs@[i - 1], slot(n + s.len()))))
    }
}

/// Lowering a program: its definitions, then its body with them in scope.
pub open spec fn main_spec(n: int, cs: Seq<Frame>, m: Main) -> (Seq<Node>, Node)
    decreases m, 1int, 0int,
{
    let (s, fr) = defs_spec(n, cs, m, m.defs.len() as int);
    let (t, r) = lower_spec(n + s.len(), cs + fr, m.body);
    (s + t, r)
}

/// `x` names a slot below `k`.
pub open spec fn id_below(x: AbsId, k: int) -> bool {
    (x.0 as int) < k
}

/// Every identifier of a call argument is below `k`.
pub open spec fn arg_below(a: Arg, k: int) -> bool {
    match a {
        Arg::Var(x) => id_below(x, k),
        Arg::Fun(x) => id_below(x, k),
    }
}

/// Every identifier of a path part is below `k`.
pub open spec fn part_below(p: (LPart, Opt), k: int) -> bool {
    match p.0 {
        LPart::Index(x) => id_below(x, k),
        LPart::Range(l, u) => (l matches Some(x) ==> id_below(x, k)) && (u matches Some(x) ==> id_below(x, k)),
    }
}

/// Every identifier that node `x` holds is below `k`.
pub open spec fn refs_below(x: Node, k: int) -> bool {
    match x {
        Node::Array(a) => id_below(a, k),
        Node::ObjSingle(a, b) => id_below(a, k) && id_below(b, k),
        Node::Try(a, b) => id_below(a, k) && id_below(b, k),
        Node::Neg(a) => id_below(a, k),
        Node::Pipe(a, _, b) => id_below(a, k) && id_below(b, k),
        Node::Comma(a, b) => id_below(a, k) && id_below(b, k),
        Node::Alt(a, b) => id_below(a, k) && id_below(b, k),
        Node::Ite(a, b, c) => id_below(a, k) && id_below(b, k) && id_below(c, k),
        Node::Fold(_, a, b, c) => id_below(a, k) && id_below(b, k) && id_below(c, k),
        Node::Path(a, ps) => id_below(a, k) && forall|i: int| 0 <= i < ps.len() ==> part_below(#[trigger] ps[i], k),
        Node::Update(a, b) => id_below(a, k) && id_below(b, k),
        Node::UpdateMath(a, _, b) => id_below(a, k) && id_below(b, k),
        Node::Assign(a, b) => id_below(a, k) && id_below(b, k),
        Node::Logic(a, _, b) => id_below(a, k) && id_below(b, k),
        Node::Math(a, _, b) => id_below(a, k) && id_below(b, k),
        Node::Ord(a, _, b) => id_below(a, k) && id_below(b, k),
        Node::Call(id, _, _, args) => id_below(id, k) && forall|i: int| 0 <= i < args.len() ==> arg_below(#[trigger] args[i], k),
        Node::Native(_, ids) => forall|i: int| 0 <= i < ids.len() ==> id_below(#[trigger] ids[i], k),
        _ => true,
    }
}

/// Every identifier held by the nodes `s` is below `k`.
pub open spec fn all_below(s: Seq<Node>, k: int) -> bool {
    forall|i: int| 0 <= i < s.len() ==> refs_below(#[trigger] s[i], k)
}

/// The definitions in scope sit below slot `k`.
pub open spec fn frames_below(cs: Seq<Frame>, k: int) -> bool {
    forall|i: int| 0 <= i < cs.len() ==> id_below((#[trigger] cs[i]).id, k)
}

/// What the lemmas below assume: lowering at `n` appends `len` nodes into an
/// arena that ends up `k` slots long, past the built-ins, with the
/// definitions in scope inside it.
pub open spec fn fits(n: int, len: int, k: int, cs: Seq<Frame>) -> bool {
    &&& 0 <= n
    &&& n + len <= k
    &&& 8 <= k
    &&& k <= usize::MAX + 1
    &&& frames_below(cs, k)
}

pub proof fn lemma_all_cat(a: Seq<Node>, b: Seq<Node>, k: int)
    requires
        all_below(a, k),
        all_below(b, k),
    ensures
        all_below(a + b, k),
{
    assert forall|i: int| 0 <= i < (a + b).len() implies refs_below(#[trigger] (a + b)[i], k) by {
        if i < a.len() {
            assert((a + b)[i] == a[i]);
        } else {
            assert((a + b)[i] == b[i - a.len()]);
        }
    }
}

pub proof fn lemma_all_push(a: Seq<Node>, x: Node, k: int)
    requires
        all_below(a, k),
        refs_below(x, k),
    ensures
        all_below(a.push(x), k),
{
    assert forall|i: int| 0 <= i < a.push(x).len() implies refs_below(#[trigger] a.push(x)[i], k) by {
        if i < a.len() {
            assert(a.push(x)[i] == a[i]);
        }
    }
}

/// Lowering only creates identifiers inside the final arena.
pub proof fn lemma_lower_below(n: int, cs: Seq<Frame>, f: Filter, k: int)
    requires
        fits(n, lower_spec(n, cs, f).0.len() as int, k, cs),
    ensures
        all_below(lower_spec(n, cs, f).0, k),
        refs_below(lower_spec(n, cs, f).1, k),
    decreases f, 1int, 0int,
{
    match f {
        Filter::Call(callee, args) => {
            lemma_args_below(n, cs, args, args.len() as int, k);
            let ids = args_spec(n, cs, args, args.len() as int).1;
            if let Callee::Def { id, .. } = callee {
                if id.0 < cs.len() {
                    let t = tag_args(cs[id.0 as int].fun_params, ids);
                    assert forall|i: int| 0 <= i < t.len() implies arg_below(#[trigger] t[i], k) by {}
                }
            }
        },
        Filter::Fold(_, fd) => {
            let g1 = get_spec(n, cs, *fd.xs);
            let g2 = get_spec(n + g1.0.len(), cs, *fd.init);
            lemma_get_below(n, cs, *fd.xs, k);
            lemma_get_below(n + g1.0.len(), cs, *fd.init, k);
            lemma_get_below(n + g1.0.len() + g2.0.len(), cs, *fd.f, k);
            lemma_all_cat(g1.0, g2.0, k);
            lemma_all_cat(g1.0 + g2.0, get_spec(n + g1.0.len() + g2.0.len(), cs, *fd.f).0, k);
        },
        Filter::Str(s) => lemma_str_below(n, cs, *s, k),
        Filter::Array(Some(g)) => lemma_get_below(n, cs, *g, k),
        Filter::Object(kvs) => lemma_obj_below(n, cs, kvs, k),
        Filter::Try(g) => lemma_get_below(n, cs, *g, k),
        Filter::Neg(g) => lemma_get_below(n, cs, *g, k),
        Filter::Binary(l, _, r) => {
            let g1 = get_spec(n, cs, *l);
            lemma_get_below(n, cs, *l, k);
            lemma_get_below(n + g1.0.len(), cs, *r, k);
            lemma_all_cat(g1.0, get_spec(n + g1.0.len(), cs, *r).0, k);
        },
        Filter::Ite(bs, e) => {
            let (s0, acc) = match e {
                None => (Seq::<Node>::empty(), Node::Id),
                Some(g) => lower_spec(n, cs, *g),
            };
            if let Some(g) = e {
                lemma_lower_below(n, cs, *g, k);
            }
            lemma_ite_below(n + s0.len(), cs, f, bs.len() as int, acc, k);
            lemma_all_cat(s0, ite_spec(n + s0.len(), cs, f, bs.len() as int, acc).0, k);
        },
        Filter::TryCatch(t, c) => {
            let g1 = get_spec(n, cs, *t);
            lemma_get_below(n, cs, *t, k);
            if let Some(c) = c {
                lemma_get_below(n + g1.0.len(), cs, *c, k);
                lemma_all_cat(g1.0, get_spec(n + g1.0.len(), cs, *c).0, k);
            } else {
                lemma_all_cat(g1.0, Seq::<Node>::empty(), k);
            }
        },
        Filter::Path(g, path) => {
            let g1 = get_spec(n, cs, *g);
            lemma_get_below(n, cs, *g, k);
            lemma_path_below(n + g1.0.len(), cs, path, path.len() as int, k);
            lemma_all_cat(g1.0, path_spec(n + g1.0.len(), cs, path, path.len() as int).0, k);
        },
        _ => {},
    }
}

pub proof fn lemma_get_below(n: int, cs: Seq<Frame>, f: Filter, k: int)
    requires
        fits(n, get_spec(n, cs, f).0.len() as int, k, cs),
    ensures
        all_below(get_spec(n, cs, f).0, k),
        id_below(get_spec(n, cs, f).1, k),
    decreases f, 2int, 0int,
{
    let (s, r) = lower_spec(n, cs, f);
    lemma_lower_below(n, cs, f, k);
    lemma_all_push(s, r, k);
}

pub proof fn lemma_args_below(n: int, cs: Seq<Frame>, args: Vec<Filter>, i: int, k: int)
    requires
        fits(n, args_spec(n, cs, args, i).0.len() as int, k, cs),
    ensures
        all_below(args_spec(n, cs, args, i).0, k),
        forall|j: int| 0 <= j < args_spec(n, cs, args, i).1.len() ==> id_below(#[trigger] args_spec(n, cs, args, i).1[j], k),
    decreases args, 0int, i,
{
    if !(i <= 0 || i > args.len()) {
        let (s, ids) = args_spec(n, cs, args, i - 1);
        lemma_args_below(n, cs, args, i - 1, k);
        lemma_get_below(n + s.len(), cs, args@[i - 1], k);
        lemma_all_cat(s, get_spec(n + s.len(), cs, args@[i - 1]).0, k);
        let ids2 = args_spec(n, cs, args, i).1;
        assert forall|j: int| 0 <= j < ids2.len() implies id_below(#[trigger] ids2[j], k) by {
            if j < ids.len() {
                assert(ids2[j] == ids[j]);
            }
        }
    }
}

pub proof fn lemma_bound_below(n: int, cs: Seq<Frame>, b: Option<Filter>, k: int)
    requires
        fits(n, bound_spec(n, cs, b).0.len() as int, k, cs),
    ensures
        all_below(bound_spec(n, cs, b).0, k),
        bound_spec(n, cs, b).1 matches Some(x) ==> id_below(x, k),
    decreases b, 0int, 0int,
{
    if let Some(g) = b {
        lemma_get_below(n, cs, g, k);
    }
}

pub proof fn lemma_path_below(n: int, cs: Seq<Frame>, path: Vec<(Part, Opt)>, i: int, k: int)
    requires
        fits(n, path_spec(n, cs, path, i).0.len() as int, k, cs),
    ensures
        all_below(path_spec(n, cs, path, i).0, k),
        forall|j: int| 0 <= j < path_spec(n, cs, path, i).1.len() ==> part_below(#[trigger] path_spec(n, cs, path, i).1[j], k),
    decreases path, 0int, i,
{
    if !(i <= 0 || i > path.len()) {
        let (s, ps) = path_spec(n, cs, path, i - 1);
        lemma_path_below(n, cs, path, i - 1, k);
        let m = n + s.len();
        match path@[i - 1].0 {
            Part::Index(h) => {
                lemma_get_below(m, cs, h, k);
                lemma_all_cat(s, get_spec(m, cs, h).0, k);
            },
            Part::Range(l, u) => {
                let t1 = bound_spec(m, cs, l);
                lemma_bound_below(m, cs, l, k);
                lemma_bound_below(m + t1.0.len(), cs, u, k);
                lemma_all_cat(s, t1.0, k);
                lemma_all_cat(s + t1.0, bound_spec(m + t1.0.len(), cs, u).0, k);
            },
        }
        let ps2 = path_spec(n, cs, path, i).1;
        assert forall|j: int| 0 <= j < ps2.len() implies part_below(#[trigger] ps2[j], k) by {
            if j < ps.len() {
                assert(ps2[j] == ps[j]);
            }
        }
    }
}

pub proof fn lemma_fold_below(p: int, cs: Seq<Frame>, nodes: Seq<Node>, i: int, acc: Node, k: int)
    requires
        fits(p, fold_add(p, nodes, i, acc).0.len() as int, k, cs),
        all_below(nodes, k),
        refs_below(acc, k),
    ensures
        all_below(fold_add(p, nodes, i, acc).0, k),
        refs_below(fold_add(p, nodes, i, acc).1, k),
    decreases i,
{
    if !(i <= 0 || i > nodes.len()) {
        let next = Node::Math(slot(p), MathOp::Add, slot(p + 1));
        lemma_fold_below(p + 2, cs, nodes, i - 1, next, k);
        let head = seq![nodes[i - 1], acc];
        assert(all_below(head, k)) by {
            assert forall|j: int| 0 <= j < head.len() implies refs_below(#[trigger] head[j], k) by {}
        }
        lemma_all_cat(head, fold_add(p + 2, nodes, i - 1, next).0, k);
    }
}

pub proof fn lemma_join_below(p: int, cs: Seq<Frame>, nodes: Seq<Node>, none: Node, k: int)
    requires
        fits(p, join_spec(p, nodes, none).0.len() as int, k, cs),
        all_below(nodes, k),
        refs_below(none, k),
    ensures
        all_below(join_spec(p, nodes, none).0, k),
        refs_below(join_spec(p, nodes, none).1, k),
{
    if nodes.len() > 0 {
        lemma_fold_below(p, cs, nodes, nodes.len() - 1, nodes.last(), k);
    }
}

pub proof fn lemma_str_below(n: int, cs: Seq<Frame>, s: Str, k: int)
    requires
        fits(n, str_spec(n, cs, s).0.len() as int, k, cs),
    ensures
        all_below(str_spec(n, cs, s).0, k),
        refs_below(str_spec(n, cs, s).1, k),
    decreases s, 1int, 0int,
{
    let (s0, fid) = match s.fmt {
        None => (Seq::<Node>::empty(), AbsId(TOSTRING)),
        Some(g) => get_spec(n, cs, *g),
    };
    if let Some(g) = s.fmt {
        lemma_get_below(n, cs, *g, k);
    }
    let (s1, ns) = parts_spec(n + s0.len(), cs, s, fid, s.parts.len() as int);
    lemma_parts_below(n + s0.len(), cs, s, fid, s.parts.len() as int, k);
    lemma_join_below(n + s0.len() + s1.len(), cs, ns, Node::Str(seq![]), k);
    lemma_all_cat(s0, s1, k);
    lemma_all_cat(s0 + s1, join_spec(n + s0.len() + s1.len(), ns, Node::Str(seq![])).0, k);
}

pub proof fn lemma_parts_below(n: int, cs: Seq<Frame>, s: Str, fid: AbsId, i: int, k: int)
    requires
        fits(n, parts_spec(n, cs, s, fid, i).0.len() as int, k, cs),
        id_below(fid, k),
    ensures
        all_below(parts_spec(n, cs, s, fid, i).0, k),
        all_below(parts_spec(n, cs, s, fid, i).1, k),
    decreases s, 0int, i,
{
    if !(i <= 0 || i > s.parts.len()) {
        let (a, ns) = parts_spec(n, cs, s, fid, i - 1);
        lemma_parts_below(n, cs, s, fid, i - 1, k);
        match s.parts@[i - 1] {
            StrPart::Str(t) => {
                lemma_all_push(ns, Node::Str(t@), k);
            },
            StrPart::Fun(g) => {
                lemma_get_below(n + a.len(), cs, g, k);
                lemma_all_cat(a, get_spec(n + a.len(), cs, g).0, k);
                lemma_all_push(ns, Node::Pipe(get_spec(n + a.len(), cs, g).1, false, fid), k);
            },
        }
    }
}

pub proof fn lemma_kv_below(n: int, cs: Seq<Frame>, kv: KeyVal, k: int)
    requires
        fits(n, kv_spec(n, cs, kv).0.len() as int, k, cs),
    ensures
        all_below(kv_spec(n, cs, kv).0, k),
        refs_below(kv_spec(n, cs, kv).1, k),
    decreases kv, 0int, 0int,
{
    match kv {
        KeyVal::Filter(kk, v) => {
            let g1 = get_spec(n, cs, kk);
            lemma_get_below(n, cs, kk, k);
            lemma_get_below(n + g1.0.len(), cs, v, k);
            lemma_all_cat(g1.0, get_spec(n + g1.0.len(), cs, v).0, k);
        },
        KeyVal::Str(key, v) => {
            let (s1, kn) = str_spec(n, cs, key);
            lemma_str_below(n, cs, key, k);
            lemma_all_push(s1, kn, k);
            let x = slot(n + s1.len());
            match v {
                None => {
                    let pn = Node::Path(AbsId(IDENTITY), seq![(LPart::Index(x), Opt::Essential)]);
                    assert(refs_below(pn, k)) by {
                        let ps = seq![(LPart::Index(x), Opt::Essential)];
                        assert forall|j: int| 0 <= j < ps.len() implies part_below(#[trigger] ps[j], k) by {}
                    }
                    lemma_all_push(s1.push(kn), pn, k);
                    assert(s1.push(kn) + seq![pn] =~= s1.push(kn).push(pn));
                },
                Some(v) => {
                    lemma_get_below(n + s1.len() + 1, cs, v, k);
                    lemma_all_cat(s1.push(kn), get_spec(n + s1.len() + 1, cs, v).0, k);
                },
            }
        },
    }
}

pub proof fn lemma_kvs_below(n: int, cs: Seq<Frame>, kvs: Vec<KeyVal>, i: int, k: int)
    requires
        fits(n, kvs_spec(n, cs, kvs, i).0.len() as int, k, cs),
    ensures
        all_below(kvs_spec(n, cs, kvs, i).0, k),
        all_below(kvs_spec(n, cs, kvs, i).1, k),
    decreases kvs, 0int, i,
{
    if !(i <= 0 || i > kvs.len()) {
        let (a, ns) = kvs_spec(n, cs, kvs, i - 1);
        lemma_kvs_below(n, cs, kvs, i - 1, k);
        lemma_kv_below(n + a.len(), cs, kvs@[i - 1], k);
        lemma_all_cat(a, kv_spec(n + a.len(), cs, kvs@[i - 1]).0, k);
        lemma_all_push(ns, kv_spec(n + a.len(), cs, kvs@[i - 1]).1, k);
    }
}

pub proof fn lemma_obj_below(n: int, cs: Seq<Frame>, kvs: Vec<KeyVal>, k: int)
    requires
        fits(n, obj_spec(n, cs, kvs).0.len() as int, k, cs),
    ensures
        all_below(obj_spec(n, cs, kvs).0, k),
        refs_below(obj_spec(n, cs, kvs).1, k),
    decreases kvs, 1int, 0int,
{
    let (s1, ns) = kvs_spec(n, cs, kvs, kvs.len() as int);
    lemma_kvs_below(n, cs, kvs, kvs.len() as int, k);
    lemma_join_below(n + s1.len(), cs, ns, Node::ObjEmpty, k);
    lemma_all_cat(s1, join_spec(n + s1.len(), ns, Node::ObjEmpty).0, k);
}

pub proof fn lemma_ite_below(p: int, cs: Seq<Frame>, f: Filter, i: int, acc: Node, k: int)
    requires
        fits(p, ite_spec(p, cs, f, i, acc).0.len() as int, k, cs),
        refs_below(acc, k),
    ensures
        all_below(ite_spec(p, cs, f, i, acc).0, k),
        refs_below(ite_spec(p, cs, f, i, acc).1, k),
    decreases f, 0int, i,
{
    if let Filter::Ite(bs, _) = f {
        if !(i <= 0 || i > bs.len()) {
            let (s1, c) = get_spec(p, cs, bs@[i - 1].0);
            let (s2, t) = get_spec(p + s1.len(), cs, bs@[i - 1].1);
            let x = p + s1.len() + s2.len();
            lemma_get_below(p, cs, bs@[i - 1].0, k);
            lemma_get_below(p + s1.len(), cs, bs@[i - 1].1, k);
            lemma_ite_below(x + 1, cs, f, i - 1, Node::Ite(c, t, slot(x)), k);
            lemma_all_cat(s1, s2, k);
            lemma_all_push(s1 + s2, acc, k);
            assert(s1 + s2 + seq![acc] =~= (s1 + s2).push(acc));
            lemma_all_cat(s1 + s2 + seq![acc], ite_spec(x + 1, cs, f, i - 1, Node::Ite(c, t, slot(x))).0, k);
        }
    }
}

pub proof fn lemma_def_below(n: int, cs: Seq<Frame>, d: Def, k: int)
    requires
        fits(n, def_spec(n, cs, d).len() as int, k, cs),
    ensures
        all_below(def_spec(n, cs, d), k),
    decreases d, 0int, 0int,
{
    let cs2 = cs.push(def_frame(d, slot(n)));
    assert(frames_below(cs2, k)) by {
        assert forall|i: int| 0 <= i < cs2.len() implies id_below((#[trigger] cs2[i]).id, k) by {
            if i < cs.len() {
                assert(cs2[i] == cs[i]);
            }
        }
    }
    let (s, r) = main_spec(n + 1, cs2, d.rhs);
    lemma_main_below(n + 1, cs2, d.rhs, k);
    assert(all_below(seq![r], k)) by {
        assert forall|j: int| 0 <= j < seq![r].len() implies refs_below(#[trigger] seq![r][j], k) by {}
    }
    lemma_all_cat(seq![r], s, k);
}

pub proof fn lemma_defs_below(n: int, cs: Seq<Frame>, m: Main, i: int, k: int)
    requires
        fits(n, defs_spec(n, cs, m, i).0.len() as int, k, cs),
    ensures
        all_below(defs_spec(n, cs, m, i).0, k),
        frames_below(cs + defs_spec(n, cs, m, i).1, k),
    decreases m, 0int, i,
{
    if i <= 0 || i > m.defs.len() {
        assert(cs + Seq::<Frame>::empty() =~= cs);
    } else {
        let (s, fr) = defs_spec(n, cs, m, i - 1);
        lemma_defs_below(n, cs, m, i - 1, k);
        let t = def_spec(n + s.len(), cs + fr, m.defs@[i - 1]);
        assert(def_spec(n + s.len(), cs + fr, m.defs@[i - 1]) == t);
        lemma_def_below(n + s.len(), cs + fr, m.defs@[i - 1], k);
        lemma_all_cat(s, t, k);
        let fr2 = fr.push(def_frame(m.defs@[i - 1], slot(n + s.len())));
        assert(cs + fr2 =~= (cs + fr).push(def_frame(m.defs@[i - 1], slot(n + s.len()))));
        let c3 = cs + fr2;
        assert forall|j: int| 0 <= j < c3.len() implies id_below((#[trigger] c3[j]).id, k) by {
            if j < (cs + fr).len() {
                assert(c3[j] == (cs + fr)[j]);
            }
        }
    }
}

pub proof fn lemma_main_below(n: int, cs: Seq<Frame>, m: Main, k: int)
    requires
        fits(n, main_spec(n, cs, m).0.len() as int, k, cs),
    ensures
        all_below(main_spec(n, cs, m).0, k),
        refs_below(main_spec(n, cs, m).1, k),
    decreases m, 1int, 0int,
{
    let (s, fr) = defs_spec(n, cs, m, m.defs.len() as int);
    lemma_defs_below(n, cs, m, m.defs.len() as int, k);
    lemma_lower_below(n + s.len(), cs + fr, m.body, k);
    lemma_all_cat(s, lower_spec(n + s.len(), cs + fr, m.body).0, k);
}

pub proof fn lemma_refs_mono(x: Node, k1: int, k2: int)
    requires
        refs_below(x, k1),
        k1 <= k2,
    ensures
        refs_below(x, k2),
{
    match x {
        Node::Path(_, ps) => {
            assert forall|i: int| 0 <= i < ps.len() implies part_below(#[trigger] ps[i], k2) by {
                assert(part_below(ps[i], k1));
            }
        },
        Node::Call(_, _, _, args) => {
            assert forall|i: int| 0 <= i < args.len() implies arg_below(#[trigger] args[i], k2) by {
                assert(arg_below(args[i], k1));
            }
        },
        Node::Native(_, ids) => {
            assert forall|i: int| 0 <= i < ids.len() implies id_below(#[trigger] ids[i], k2) by {
                assert(id_below(ids[i], k1));
            }
        },
        _ => {},
    }
}

pub proof fn lemma_all_mono(s: Seq<Node>, k1: int, k2: int)
    requires
        all_below(s, k1),
        k1 <= k2,
    ensures
        all_below(s, k2),
{
    assert forall|i: int| 0 <= i < s.len() implies refs_below(#[trigger] s[i], k2) by {
        lemma_refs_mono(s[i], k1, k2);
    }
}

} // verus!
