//! The lowering context: an append-only arena of nodes and the stack of
//! definitions in scope.

use vstd::prelude::*;

use crate::lir::{AbsId, Arg, Ast, Call, CallTyp, MathOp, Opt, Part as LPart};
use crate::mir::{AssignOp, BinaryOp, Callee, Def, Filter, KeyVal, Main, Num, Param, Part, Sig, Str, StrPart};
use crate::exact::{
    args_spec, bound_spec, fold_add, get_spec, ite_spec, join_spec, kv_spec, kvs_spec, lower_spec, obj_spec, parts_spec,
    path_spec, slot, str_spec, tag_args, def_frame, def_spec, defs_spec, main_spec, frames_below, all_below,
    refs_below, lemma_lower_below, lemma_main_below, lemma_def_below, lemma_all_mono, lemma_all_cat, fits,
};
use crate::lir::{nodes, Node};
use crate::spec::{
    admissible, def_frames, def_tailrecs, fun_params, grows, kv_admissible,
    kv_lowers, lemma_ite_grows, lemma_kv_grows, lemma_lowers_grows, lemma_main_grows, lemma_node_at_grows,
    lemma_obj_grows, lemma_opt_at_grows, lemma_str_grows, lemma_str_part_grows, lowers, main_admissible,
    main_at, main_lowers, node_at, obj_lowers, opt_at, str_admissible, str_lowers, str_part_lowers, tailrecs_of,
    ite_lowers, Frame, Layout, EMPTY, IDENTITY, RECURSE, TOSTRING,
};

verus! {

/// A user definition being, or having been, lowered.
pub struct Callable {
    pub sig: Sig,
    pub id: AbsId,
    pub tailrec: bool,
}

impl Callable {
    /// What lowering a call to this definition depends on.
    pub open spec fn frame(&self) -> Frame {
        Frame { fun_params: fun_params(self.sig.args@), id: self.id, tailrec: self.tailrec }
    }
}

/// The arena of lowered nodes and the definitions in scope.
pub struct Ctx {
    pub defs: Vec<Ast>,
    pub callable: Vec<Callable>,
}

/// The nodes with which every arena begins: `.`, the string conversion,
/// `{}[]` (in two slots) and `., (.[]? | ..)` (in four slots).
pub open spec fn builtins(a: Seq<Ast>) -> bool {
    &&& a.len() >= 8
    &&& a[IDENTITY as int] == Ast::Id
    &&& a[TOSTRING as int] == Ast::ToString
    &&& a[2] == Ast::ObjEmpty
    &&& a[EMPTY as int] matches Ast::Path(x, ps) && x == AbsId(2) && ps@ == seq![(LPart::Range(None, None), Opt::Essential)]
    &&& a[4] matches Ast::Path(x, ps) && x == AbsId(IDENTITY) && ps@ == seq![(LPart::Range(None, None), Opt::Optional)]
    &&& a[5] matches Ast::Call(c) && c.id == AbsId(RECURSE) && c.typ == CallTyp::Throw && c.skip == 0 && c.args@.len() == 0
    &&& a[6] == Ast::Pipe(AbsId(4), false, AbsId(5))
    &&& a[RECURSE as int] == Ast::Comma(AbsId(IDENTITY), AbsId(6))
}

/// Every identifier held by a node of the arena names one of its slots.
pub open spec fn closed(a: Seq<Ast>) -> bool {
    all_below(nodes(a), a.len() as int)
}

/// Construct a call to `..`.
pub fn recurse(typ: CallTyp) -> (r: Ast)
    ensures
        r matches Ast::Call(c) && c.id == AbsId(RECURSE) && c.typ == typ && c.skip == 0 && c.args@.len() == 0,
        r.node() == Node::Call(AbsId(RECURSE), typ, 0, seq![]),
{
    let r = Ast::Call(Call { id: AbsId(RECURSE), typ, skip: 0, args: Vec::new() });
    assert(r->Call_0.args@ =~= Seq::<Arg>::empty());
    r
}

impl Default for Ctx {
    /// A context whose arena holds the built-in nodes and nothing else.
    fn default() -> (r: Ctx)
        ensures
            r.wf(),
            closed(r.defs@),
            r.defs@.len() == 8,
            r.callable@.len() == 0,
    {
        let mut ctx = Ctx { defs: Vec::new(), callable: Vec::new() };
        let identity = ctx.id_of_ast(Ast::Id);
        let tostring = ctx.id_of_ast(Ast::ToString);
        assert(identity.0 == IDENTITY && tostring.0 == TOSTRING);
        let empty = ctx.empty();
        let empty_id = ctx.id_of_ast(empty);
        assert(empty_id.0 == EMPTY);
        let ghost before = ctx.defs@;
        let rec = ctx.recurse();
        let recurse_id = ctx.id_of_ast(rec);
        assert(recurse_id.0 == RECURSE);
        assert(ctx.defs@.take(4) =~= before.take(4));
        assert(ctx.defs@[0] == before[0] && ctx.defs@[1] == before[1] && ctx.defs@[2] == before[2] && ctx.defs@[3] == before[3]);
        proof {
            let ns = nodes(ctx.defs@);
            assert forall|i: int| 0 <= i < ns.len() implies refs_below(#[trigger] ns[i], 8) by {
                let x = ns[i];
                if x is Path {
                    let ps = x->Path_1;
                    assert forall|j: int| 0 <= j < ps.len() implies crate::exact::part_below(#[trigger] ps[j], 8) by {}
                }
                if x is Call {
                    assert(x->Call_3.len() == 0);
                }
            }
        }
        ctx
    }
}

impl Ctx {
    /// The definitions in scope, as far as lowering a call depends on them.
    pub open spec fn frames(&self) -> Seq<Frame> {
        self.callable@.map_values(|c: Callable| c.frame())
    }

    /// The tail-recursion flags of the definitions in scope.
    pub open spec fn tailrecs(&self) -> Seq<bool> {
        tailrecs_of(self.frames())
    }

    /// The arena begins with the built-in nodes, and the definitions in
    /// scope have their slots in it.
    pub open spec fn wf(&self) -> bool {
        &&& builtins(self.defs@)
        &&& frames_below(self.frames(), self.defs@.len() as int)
    }

    /// `{}[]` returns zero values.
    fn empty(&mut self) -> (r: Ast)
        ensures
            final(self).defs@ == old(self).defs@.push(Ast::ObjEmpty),
            final(self).callable@ == old(self).callable@,
            r matches Ast::Path(x, ps) && x.0 == old(self).defs.len() && ps@ == seq![(LPart::Range(None, None), Opt::Essential)],
    {
        let part = (LPart::Range(None, None), Opt::Essential);
        let obj = self.id_of_ast(Ast::ObjEmpty);
        let ps = vec![part];
        Ast::Path(obj, ps)
    }

    /// `..`, also known as `recurse/0`, is defined as `., (.[]? | ..)`.
    fn recurse(&mut self) -> (r: Ast)
        ensures
            final(self).callable@ == old(self).callable@,
            final(self).defs@.len() == old(self).defs@.len() + 3,
            final(self).defs@.take(old(self).defs@.len() as int) == old(self).defs@,
            ({
                let (a, n) = (final(self).defs@, old(self).defs@.len() as int);
                &&& a[n] matches Ast::Path(x, ps) && x == AbsId(IDENTITY) && ps@ == seq![(LPart::Range(None, None), Opt::Optional)]
                &&& a[n + 1] matches Ast::Call(c) && c.id == AbsId(RECURSE) && c.typ == CallTyp::Throw && c.skip == 0 && c.args@.len() == 0
                &&& a[n + 2] == Ast::Pipe(AbsId(n as usize), false, AbsId((n + 1) as usize))
                &&& r == Ast::Comma(AbsId(IDENTITY), AbsId((n + 2) as usize))
            }),
    {
        // `.[]?` (returns array/object elements or nothing instead)
        let part = (LPart::Range(None, None), Opt::Optional);
        let path = Ast::Path(AbsId(IDENTITY), vec![part]);
        // `..`
        let f = recurse(CallTyp::Throw);
        // `.[]? | ..`
        let path_id = self.id_of_ast(path);
        let f_id = self.id_of_ast(f);
        let pipe = Ast::Pipe(path_id, false, f_id);
        let pipe_id = self.id_of_ast(pipe);
        // `., (.[]? | ..)`
        Ast::Comma(AbsId(IDENTITY), pipe_id)
    }

    /// Append a node to the arena and return its identifier.
    fn id_of_ast(&mut self, f: Ast) -> (r: AbsId)
        ensures
            final(self).defs@ == old(self).defs@.push(f),
            final(self).callable@ == old(self).callable@,
            r.0 == old(self).defs@.len(),
            nodes(final(self).defs@) == nodes(old(self).defs@).push(f.node()),
    {
        let len = self.defs.len();
        self.defs.push(f);
        assert(nodes(self.defs@) =~= nodes(old(self).defs@).push(f.node()));
        AbsId(len)
    }

    /// `l + r`, both sides placed in the arena.
    fn add(&mut self, l: Ast, r: Ast) -> (res: Ast)
        ensures
            final(self).defs@ == old(self).defs@.push(l).push(r),
            final(self).callable@ == old(self).callable@,
            res == Ast::Math(AbsId(old(self).defs@.len() as usize), MathOp::Add, AbsId((old(self).defs@.len() + 1) as usize)),
            nodes(final(self).defs@) == nodes(old(self).defs@).push(l.node()).push(r.node()),
    {
        let x = self.id_of_ast(l);
        let y = self.id_of_ast(r);
        Ast::Math(x, MathOp::Add, y)
    }

    /// `self` came from `old` by appending nodes, with the same definitions
    /// in scope.
    pub open spec fn extends(&self, old: Ctx) -> bool {
        &&& self.wf()
        &&& grows(old.defs@, self.defs@, 0)
        &&& self.callable@ == old.callable@
    }

    /// Lower `f` and place the result in the arena.
    fn get(&mut self, f: &Filter) -> (r: AbsId)
        requires
            old(self).wf(),
            admissible(old(self).tailrecs(), *f),
        ensures
            final(self).extends(*old(self)),
            node_at(final(self).defs@, old(self).defs@.len() as int, old(self).frames(), r, *f),
            nodes(final(self).defs@) == nodes(old(self).defs@) + get_spec(old(self).defs@.len() as int, old(self).frames(), *f).0,
            r == get_spec(old(self).defs@.len() as int, old(self).frames(), *f).1,
        decreases f, 2int,
    {
        let g = self.lower(f);
        let ghost mid = self.defs@;
        let r = self.id_of_ast(g);
        proof {
            let l = lower_spec(old(self).defs@.len() as int, old(self).frames(), *f);
            assert(nodes(self.defs@) =~= nodes(old(self).defs@) + l.0.push(l.1));
            assert(mid.len() == nodes(mid).len());
            lemma_lowers_grows(mid, self.defs@, old(self).defs@.len() as int, old(self).defs@.len() as int, old(self).frames(), g, *f);
        }
        r
    }

    /// Lower a filter.
    fn lower(&mut self, f: &Filter) -> (r: Ast)
        requires
            old(self).wf(),
            admissible(old(self).tailrecs(), *f),
        ensures
            final(self).extends(*old(self)),
            lowers(final(self).defs@, old(self).defs@.len() as int, old(self).frames(), r, *f),
            nodes(final(self).defs@) == nodes(old(self).defs@) + lower_spec(old(self).defs@.len() as int, old(self).frames(), *f).0,
            r.node() == lower_spec(old(self).defs@.len() as int, old(self).frames(), *f).1,
        decreases f, 1int,
    {
        let ghost lo = self.defs@.len() as int;
        let ghost cs = self.frames();
        let ghost a0 = nodes(self.defs@);
        match f {
            Filter::Var(v) => Ast::Var(*v),
            Filter::Call(callee, args) => self.lower_call(*callee, args),
            Filter::Fold(t, fd) => {
                let x = self.get(&*fd.xs);
                let ghost a1 = self.defs@;
                let y = self.get(&*fd.init);
                let ghost a2 = self.defs@;
                let z = self.get(&*fd.f);
                proof {
                    lemma_node_at_grows(a1, self.defs@, lo, lo, cs, x, *fd.xs);
                    lemma_node_at_grows(a2, self.defs@, a1.len() as int, lo, cs, y, *fd.init);
                    lemma_node_at_grows(self.defs@, self.defs@, a2.len() as int, lo, cs, z, *fd.f);
                    let g1 = get_spec(lo, cs, *fd.xs);
                    let g2 = get_spec(lo + g1.0.len(), cs, *fd.init);
                    let g3 = get_spec(lo + g1.0.len() + g2.0.len(), cs, *fd.f);
                    assert(a1.len() == nodes(a1).len() && a2.len() == nodes(a2).len());
                    assert(nodes(self.defs@) =~= a0 + (g1.0 + g2.0 + g3.0));
                }
                Ast::Fold(*t, x, y, z)
            },
            Filter::Id => Ast::Id,
            Filter::Num(Num::Num(n)) => Ast::Num(n.clone()),
            Filter::Num(Num::Int(i)) => Ast::Int(*i),
            Filter::Str(s) => self.of_str(&**s),
            Filter::Array(None) => Ast::Array(AbsId(EMPTY)),
            Filter::Array(Some(g)) => Ast::Array(self.get(&**g)),
            Filter::Object(o) => self.lower_object(o),
            Filter::Try(g) => Ast::Try(self.get(&**g), AbsId(EMPTY)),
            Filter::Neg(g) => Ast::Neg(self.get(&**g)),
            Filter::Recurse => recurse(CallTyp::Catch),
            Filter::Binary(l, op, r) => {
                let x = self.get(&**l);
                let ghost a1 = self.defs@;
                let y = self.get(&**r);
                proof {
                    lemma_node_at_grows(a1, self.defs@, lo, lo, cs, x, **l);
                    lemma_node_at_grows(self.defs@, self.defs@, a1.len() as int, lo, cs, y, **r);
                    let g1 = get_spec(lo, cs, **l);
                    let g2 = get_spec(lo + g1.0.len(), cs, **r);
                    assert(a1.len() == nodes(a1).len());
                    assert(nodes(self.defs@) =~= a0 + (g1.0 + g2.0));
                }
                match op {
                    BinaryOp::Pipe(bind) => Ast::Pipe(x, bind.is_some(), y),
                    BinaryOp::Comma => Ast::Comma(x, y),
                    BinaryOp::Alt => Ast::Alt(x, y),
                    BinaryOp::Or => Ast::Logic(x, true, y),
                    BinaryOp::And => Ast::Logic(x, false, y),
                    BinaryOp::Math(m) => Ast::Math(x, *m, y),
                    BinaryOp::Ord(o) => Ast::Ord(x, *o, y),
                    BinaryOp::Assign(AssignOp::Assign) => Ast::Assign(x, y),
                    BinaryOp::Assign(AssignOp::Update) => Ast::Update(x, y),
                    BinaryOp::Assign(AssignOp::UpdateWith(m)) => Ast::UpdateMath(x, *m, y),
                }
            },
            Filter::Ite(_, _) => self.lower_ite(f),
            Filter::TryCatch(t, c) => {
                let x = self.get(&**t);
                let ghost a1 = self.defs@;
                let y = match c {
                    None => AbsId(EMPTY),
                    Some(c) => self.get(&**c),
                };
                proof {
                    lemma_node_at_grows(a1, self.defs@, lo, lo, cs, x, **t);
                    if let Some(c) = c {
                        lemma_node_at_grows(self.defs@, self.defs@, a1.len() as int, lo, cs, y, **c);
                    }
                    let g1 = get_spec(lo, cs, **t);
                    assert(a1.len() == nodes(a1).len());
                    match c {
                        None => assert(nodes(self.defs@) =~= a0 + (g1.0 + Seq::<Node>::empty())),
                        Some(c) => {
                            let g2 = get_spec(lo + g1.0.len(), cs, **c);
                            assert(nodes(self.defs@) =~= a0 + (g1.0 + g2.0));
                        },
                    }
                }
                Ast::Try(x, y)
            },
            Filter::Path(_, _) => self.lower_path(f),
        }
    }
}

impl Ctx {
    /// Lower each argument of a call, in order.
    fn lower_args(&mut self, args: &Vec<Filter>) -> (ids: Vec<AbsId>)
        requires
            old(self).wf(),
            forall|i: int| 0 <= i < args.len() ==> admissible(old(self).tailrecs(), #[trigger] args@[i]),
        ensures
            final(self).extends(*old(self)),
            ids@.len() == args.len(),
            forall|i: int| 0 <= i < args.len() ==> node_at(final(self).defs@, old(self).defs@.len() as int, old(self).frames(), ids@[i], #[trigger] args@[i]),
            nodes(final(self).defs@) == nodes(old(self).defs@) + args_spec(old(self).defs@.len() as int, old(self).frames(), *args, args.len() as int).0,
            ids@ == args_spec(old(self).defs@.len() as int, old(self).frames(), *args, args.len() as int).1,
        decreases args, 0int,
    {
        let ghost start = *self;
        let ghost lo = self.defs@.len() as int;
        let ghost cs = self.frames();
        let mut ids: Vec<AbsId> = Vec::new();
        let mut i: usize = 0;
        while i < args.len()
            invariant
                self.extends(start),
                start.frames() == cs,
                lo == start.defs@.len(),
                i <= args.len(),
                ids@.len() == i,
                forall|j: int| 0 <= j < args.len() ==> admissible(start.tailrecs(), #[trigger] args@[j]),
                forall|j: int| 0 <= j < i ==> node_at(self.defs@, lo, cs, ids@[j], #[trigger] args@[j]),
                nodes(self.defs@) == nodes(start.defs@) + args_spec(lo, cs, *args, i as int).0,
                ids@ == args_spec(lo, cs, *args, i as int).1,
            decreases args.len() - i,
        {
            let ghost before = self.defs@;
            let x = self.get(&args[i]);
            proof {
                let pr = args_spec(lo, cs, *args, i as int);
                let g = get_spec(lo + pr.0.len(), cs, args@[i as int]);
                assert(before.len() == nodes(before).len());
                assert(nodes(self.defs@) =~= nodes(start.defs@) + (pr.0 + g.0));
                assert forall|j: int| 0 <= j < i implies node_at(self.defs@, lo, cs, ids@[j], #[trigger] args@[j]) by {
                    lemma_node_at_grows(before, self.defs@, lo, lo, cs, ids@[j], args@[j]);
                }
                lemma_node_at_grows(self.defs@, self.defs@, before.len() as int, lo, cs, x, args@[i as int]);
            }
            ids.push(x);
            i += 1;
        }
        ids
    }

    /// Lower a call: a parameter becomes a variable, a native call keeps its
    /// arguments in order, and a call to a definition gets its calling
    /// convention and its arguments tagged by the definition's parameters.
    fn lower_call(&mut self, callee: Callee, args: &Vec<Filter>) -> (r: Ast)
        requires
            old(self).wf(),
            match callee {
                Callee::Arg(_) => args.len() == 0,
                Callee::Native(_) => true,
                Callee::Def { id, tail, .. } => id.0 < old(self).tailrecs().len() && (tail ==> old(self).tailrecs()[id.0 as int]),
            },
            forall|i: int| 0 <= i < args.len() ==> admissible(old(self).tailrecs(), #[trigger] args@[i]),
        ensures
            final(self).extends(*old(self)),
            lowers(final(self).defs@, old(self).defs@.len() as int, old(self).frames(), r, Filter::Call(callee, *args)),
            nodes(final(self).defs@) == nodes(old(self).defs@) + lower_spec(old(self).defs@.len() as int, old(self).frames(), Filter::Call(callee, *args)).0,
            r.node() == lower_spec(old(self).defs@.len() as int, old(self).frames(), Filter::Call(callee, *args)).1,
        decreases args, 1int,
    {
        let ghost lo = self.defs@.len() as int;
        let ghost cs = self.frames();
        let ids = self.lower_args(args);
        match callee {
            Callee::Arg(a) => Ast::Var(a),
            Callee::Native(n) => Ast::Native(n, ids),
            Callee::Def { id, skip, tail } => {
                let k = id.0;
                let tailrec = self.callable[k].tailrec;
                let typ = match (tail, tailrec) {
                    // a tail call from inside a tail-recursive definition
                    (true, true) => CallTyp::Throw,
                    // a tail call into a definition that is not tail-recursive
                    // is not admissible
                    (true, false) => {
                        proof {
                            assert(false);
                        }
                        CallTyp::Normal
                    },
                    // a call from outside into a tail-recursive definition
                    (false, true) => CallTyp::Catch,
                    (false, false) => CallTyp::Normal,
                };
                let n = if self.callable[k].sig.args.len() < ids.len() {
                    self.callable[k].sig.args.len()
                } else {
                    ids.len()
                };
                let mut cargs: Vec<Arg> = Vec::new();
                let mut i: usize = 0;
                while i < n
                    invariant
                        k < self.callable.len(),
                        n <= ids.len(),
                        n <= self.callable@[k as int].sig.args.len(),
                        i <= n,
                        cargs@.len() == i,
                        forall|j: int| 0 <= j < i ==> match #[trigger] cargs@[j] {
                            Arg::Var(x) => self.callable@[k as int].sig.args@[j] is Var && x == ids@[j],
                            Arg::Fun(x) => self.callable@[k as int].sig.args@[j] is Fun && x == ids@[j],
                        },
                    decreases n - i,
                {
                    let a = match &self.callable[k].sig.args[i] {
                        Param::Var(_) => Arg::Var(ids[i]),
                        Param::Fun(_) => Arg::Fun(ids[i]),
                    };
                    cargs.push(a);
                    i += 1;
                }
                let r = Ast::Call(Call { id: self.callable[k].id, typ, skip, args: cargs });
                proof {
                    assert(cargs@ =~= tag_args(cs[k as int].fun_params, ids@));
                    let fp = cs[k as int].fun_params;
                    assert(fp == fun_params(self.callable@[k as int].sig.args@));
                    assert forall|j: int| 0 <= j < cargs@.len() implies match #[trigger] cargs@[j] {
                        Arg::Var(x) => !fp[j] && node_at(self.defs@, lo, cs, x, args@[j]),
                        Arg::Fun(x) => fp[j] && node_at(self.defs@, lo, cs, x, args@[j]),
                    } by {
                        assert(fp[j] == self.callable@[k as int].sig.args@[j] is Fun);
                    }
                }
                r
            },
        }
    }

    /// Lower an interpolated string: literal parts stay, each filter part is
    /// piped into the format (the string conversion where none is given),
    /// and the pieces are concatenated by `+`, associating to the right.
    fn of_str(&mut self, s: &Str) -> (r: Ast)
        requires
            old(self).wf(),
            str_admissible(old(self).tailrecs(), *s),
        ensures
            final(self).extends(*old(self)),
            str_lowers(final(self).defs@, old(self).defs@.len() as int, old(self).frames(), r, *s, 0),
            nodes(final(self).defs@) == nodes(old(self).defs@) + str_spec(old(self).defs@.len() as int, old(self).frames(), *s).0,
            r.node() == str_spec(old(self).defs@.len() as int, old(self).frames(), *s).1,
        decreases s, 0int,
    {
        let ghost start = *self;
        let ghost lo = self.defs@.len() as int;
        let ghost cs = self.frames();
        let fmt = match &s.fmt {
            None => AbsId(TOSTRING),
            Some(g) => self.get(&**g),
        };
        let ghost s0 = if s.fmt is Some {
            get_spec(lo, cs, *s.fmt->Some_0).0
        } else {
            Seq::<Node>::empty()
        };
        proof {
            if let Some(g) = &s.fmt {
                lemma_node_at_grows(self.defs@, self.defs@, lo, lo, cs, fmt, **g);
            }
            assert(nodes(self.defs@) =~= nodes(start.defs@) + s0 + Seq::<Node>::empty());
        }
        let mut pieces: Vec<Ast> = Vec::new();
        let mut i: usize = 0;
        while i < s.parts.len()
            invariant
                self.extends(start),
                start.frames() == cs,
                lo == start.defs@.len(),
                str_admissible(start.tailrecs(), *s),
                i <= s.parts.len(),
                pieces@.len() == i,
                match s.fmt {
                    None => fmt == AbsId(TOSTRING),
                    Some(h) => node_at(self.defs@, lo, cs, fmt, *h),
                },
                forall|j: int| 0 <= j < i ==> str_part_lowers(self.defs@, lo, cs, #[trigger] pieces@[j], *s, j),
                nodes(self.defs@) == nodes(start.defs@) + s0 + parts_spec(lo + s0.len(), cs, *s, fmt, i as int).0,
                nodes(pieces@) == parts_spec(lo + s0.len(), cs, *s, fmt, i as int).1,
            decreases s.parts.len() - i,
        {
            let ghost pr = parts_spec(lo + s0.len(), cs, *s, fmt, i as int);
            let ghost before = self.defs@;
            let node = match &s.parts[i] {
                StrPart::Str(t) => Ast::Str(t.clone()),
                StrPart::Fun(g) => {
                    assert(admissible(start.tailrecs(), *g));
                    let x = self.get(g);
                    proof {
                        lemma_node_at_grows(self.defs@, self.defs@, before.len() as int, lo, cs, x, *g);
                    }
                    Ast::Pipe(x, false, fmt)
                },
            };
            proof {
                assert forall|j: int| 0 <= j < i implies str_part_lowers(self.defs@, lo, cs, #[trigger] pieces@[j], *s, j) by {
                    lemma_str_part_grows(before, self.defs@, lo, lo, cs, pieces@[j], *s, j);
                }
                if let Some(h) = &s.fmt {
                    lemma_node_at_grows(before, self.defs@, lo, lo, cs, fmt, **h);
                }
            }
            pieces.push(node);
            i += 1;
            proof {
                let k = i - 1;
                assert(before.len() == nodes(before).len());
                match s.parts@[k as int] {
                    StrPart::Str(_) => assert(nodes(self.defs@) =~= nodes(start.defs@) + s0 + pr.0),
                    StrPart::Fun(g) => {
                        let gg = get_spec(lo + s0.len() + pr.0.len(), cs, g);
                        assert(nodes(self.defs@) =~= nodes(start.defs@) + s0 + (pr.0 + gg.0));
                    },
                }
                assert(nodes(pieces@) =~= pr.1.push(node.node()));
            }
        }
        let ghost total = str_spec(lo, cs, *s);
        let ghost ns = nodes(pieces@);
        proof {
            assert(self.defs@.len() == nodes(self.defs@).len());
        }
        let mut acc = match pieces.pop() {
            Some(last) => last,
            None => Ast::Str(String::new()),
        };
        proof {
            if ns.len() > 0 {
                assert(acc.node() == ns.last());
                assert(nodes(pieces@) =~= ns.take(pieces@.len() as int));
            } else {
                assert(acc.node() == Node::Str(seq![]));
            }
            let j = join_spec(self.defs@.len() as int, ns, Node::Str(seq![]));
            assert(nodes(self.defs@) + j.0 =~= nodes(start.defs@) + total.0);
        }
        while pieces.len() > 0
            invariant
                self.extends(start),
                start.frames() == cs,
                lo == start.defs@.len(),
                pieces@.len() < s.parts.len() || pieces@.len() == 0,
                str_lowers(self.defs@, lo, cs, acc, *s, pieces@.len() as int),
                forall|j: int| 0 <= j < pieces@.len() ==> str_part_lowers(self.defs@, lo, cs, #[trigger] pieces@[j], *s, j),
                total == str_spec(lo, cs, *s),
                pieces@.len() <= ns.len(),
                nodes(pieces@) == ns.take(pieces@.len() as int),
                ({
                    let fr = fold_add(self.defs@.len() as int, ns, pieces@.len() as int, acc.node());
                    nodes(self.defs@) + fr.0 == nodes(start.defs@) + total.0 && fr.1 == total.1
                }),
            decreases pieces@.len(),
        {
            let ghost fr = fold_add(self.defs@.len() as int, ns, pieces@.len() as int, acc.node());
            let ghost before = self.defs@;
            let ghost k = pieces@.len() as int;
            let ghost pb = pieces@;
            let x = pieces.pop().unwrap();
            let ghost old_acc = acc;
            acc = self.add(x, acc);
            proof {
                let a = self.defs@;
                assert(a.len() == self.defs.len());
                lemma_str_part_grows(before, a, lo, lo, cs, x, *s, k - 1);
                lemma_str_grows(before, a, lo, lo, cs, old_acc, *s, k);
                assert(a[before.len() as int] == x);
                assert(a[before.len() as int + 1] == old_acc);
                assert forall|j: int| 0 <= j < pieces@.len() implies str_part_lowers(a, lo, cs, #[trigger] pieces@[j], *s, j) by {
                    lemma_str_part_grows(before, a, lo, lo, cs, pieces@[j], *s, j);
                }
                assert(nodes(pb)[k - 1] == x.node());
                assert(ns.take(k)[k - 1] == ns[k - 1]);
                assert(nodes(pieces@) =~= ns.take(pieces@.len() as int));
                assert(before.len() == nodes(before).len());
                let fr2 = fold_add(a.len() as int, ns, pieces@.len() as int, acc.node());
                assert(nodes(a) + fr2.0 =~= nodes(before) + fr.0);
            }
        }
        acc
    }

    /// Lower one entry of an object literal to a one-pair object.
    #[verifier::rlimit(40)]
    fn of_key_val(&mut self, kv: &KeyVal) -> (r: Ast)
        requires
            old(self).wf(),
            kv_admissible(old(self).tailrecs(), *kv),
        ensures
            final(self).extends(*old(self)),
            kv_lowers(final(self).defs@, old(self).defs@.len() as int, old(self).frames(), r, *kv),
            nodes(final(self).defs@) == nodes(old(self).defs@) + kv_spec(old(self).defs@.len() as int, old(self).frames(), *kv).0,
            r.node() == kv_spec(old(self).defs@.len() as int, old(self).frames(), *kv).1,
        decreases kv, 0int,
    {
        let ghost lo = self.defs@.len() as int;
        let ghost cs = self.frames();
        let ghost st = nodes(self.defs@);
        match kv {
            KeyVal::Filter(k, v) => {
                let x = self.get(k);
                let ghost a1 = self.defs@;
                let y = self.get(v);
                proof {
                    lemma_node_at_grows(a1, self.defs@, lo, lo, cs, x, *k);
                    lemma_node_at_grows(self.defs@, self.defs@, a1.len() as int, lo, cs, y, *v);
                    let g1 = get_spec(lo, cs, *k);
                    let g2 = get_spec(lo + g1.0.len(), cs, *v);
                    assert(a1.len() == nodes(a1).len());
                    assert(nodes(self.defs@) =~= st + (g1.0 + g2.0));
                }
                Ast::ObjSingle(x, y)
            },
            KeyVal::Str(k, v) => {
                let kn = self.of_str(k);
                let ghost a0 = self.defs@;
                let x = self.id_of_ast(kn);
                let ghost a1 = self.defs@;
                proof {
                    lemma_str_grows(a0, a1, lo, lo, cs, kn, *k, 0);
                }
                let y = match v {
                    None => {
                        let ps = vec![(LPart::Index(x), Opt::Essential)];
                        assert(ps@ == seq![(LPart::Index(x), Opt::Essential)]);
                        self.id_of_ast(Ast::Path(AbsId(IDENTITY), ps))
                    },
                    Some(v) => self.get(v),
                };
                proof {
                    lemma_str_grows(a1, self.defs@, lo, lo, cs, kn, *k, 0);
                    assert(self.defs@[x.0 as int] == kn);
                    if let Some(v) = v {
                        lemma_node_at_grows(self.defs@, self.defs@, a1.len() as int, lo, cs, y, *v);
                    }
                    let sk = str_spec(lo, cs, *k);
                    assert(a0.len() == nodes(a0).len());
                    assert(a1.len() == nodes(a1).len());
                    assert(x == slot(lo + sk.0.len()));
                    match v {
                        None => {
                            assert(nodes(self.defs@) =~= st + (sk.0.push(kn.node()) + seq![
                                Node::Path(AbsId(IDENTITY), seq![(LPart::Index(x), Opt::Essential)]),
                            ]));
                        },
                        Some(v) => {
                            let g = get_spec(lo + sk.0.len() + 1, cs, *v);
                            assert(nodes(self.defs@) =~= st + (sk.0.push(kn.node()) + g.0));
                        },
                    }
                }
                Ast::ObjSingle(x, y)
            },
        }
    }

    /// Lower an object literal: one-pair objects joined by `+`, associating
    /// to the right, or the empty object.
    fn lower_object(&mut self, kvs: &Vec<KeyVal>) -> (r: Ast)
        requires
            old(self).wf(),
            forall|i: int| 0 <= i < kvs.len() ==> kv_admissible(old(self).tailrecs(), #[trigger] kvs@[i]),
        ensures
            final(self).extends(*old(self)),
            obj_lowers(final(self).defs@, old(self).defs@.len() as int, old(self).frames(), r, *kvs, 0),
            nodes(final(self).defs@) == nodes(old(self).defs@) + obj_spec(old(self).defs@.len() as int, old(self).frames(), *kvs).0,
            r.node() == obj_spec(old(self).defs@.len() as int, old(self).frames(), *kvs).1,
        decreases kvs, 0int,
    {
        let ghost start = *self;
        let ghost lo = self.defs@.len() as int;
        let ghost cs = self.frames();
        let mut pieces: Vec<Ast> = Vec::new();
        let mut i: usize = 0;
        while i < kvs.len()
            invariant
                self.extends(start),
                start.frames() == cs,
                lo == start.defs@.len(),
                forall|j: int| 0 <= j < kvs.len() ==> kv_admissible(start.tailrecs(), #[trigger] kvs@[j]),
                i <= kvs.len(),
                pieces@.len() == i,
                forall|j: int| 0 <= j < i ==> kv_lowers(self.defs@, lo, cs, #[trigger] pieces@[j], kvs@[j]),
                nodes(self.defs@) == nodes(start.defs@) + kvs_spec(lo, cs, *kvs, i as int).0,
                nodes(pieces@) == kvs_spec(lo, cs, *kvs, i as int).1,
            decreases kvs.len() - i,
        {
            let ghost pr = kvs_spec(lo, cs, *kvs, i as int);
            let ghost before = self.defs@;
            let node = self.of_key_val(&kvs[i]);
            proof {
                lemma_kv_grows(self.defs@, self.defs@, before.len() as int, lo, cs, node, kvs@[i as int]);
                assert forall|j: int| 0 <= j < i implies kv_lowers(self.defs@, lo, cs, #[trigger] pieces@[j], kvs@[j]) by {
                    lemma_kv_grows(before, self.defs@, lo, lo, cs, pieces@[j], kvs@[j]);
                }
            }
            pieces.push(node);
            i += 1;
            proof {
                assert(before.len() == nodes(before).len());
                let g = kv_spec(lo + pr.0.len(), cs, kvs@[i - 1]);
                assert(nodes(self.defs@) =~= nodes(start.defs@) + (pr.0 + g.0));
                assert(nodes(pieces@) =~= pr.1.push(node.node()));
            }
        }
        let ghost total = obj_spec(lo, cs, *kvs);
        let ghost ns = nodes(pieces@);
        proof {
            assert(self.defs@.len() == nodes(self.defs@).len());
        }
        let mut acc = match pieces.pop() {
            Some(last) => last,
            None => Ast::ObjEmpty,
        };
        proof {
            if ns.len() > 0 {
                assert(acc.node() == ns.last());
                assert(nodes(pieces@) =~= ns.take(pieces@.len() as int));
            }
            let j = join_spec(self.defs@.len() as int, ns, Node::ObjEmpty);
            assert(nodes(self.defs@) + j.0 =~= nodes(start.defs@) + total.0);
        }
        while pieces.len() > 0
            invariant
                self.extends(start),
                start.frames() == cs,
                lo == start.defs@.len(),
                pieces@.len() < kvs.len() || pieces@.len() == 0,
                obj_lowers(self.defs@, lo, cs, acc, *kvs, pieces@.len() as int),
                forall|j: int| 0 <= j < pieces@.len() ==> kv_lowers(self.defs@, lo, cs, #[trigger] pieces@[j], kvs@[j]),
                total == obj_spec(lo, cs, *kvs),
                pieces@.len() <= ns.len(),
                nodes(pieces@) == ns.take(pieces@.len() as int),
                ({
                    let fr = fold_add(self.defs@.len() as int, ns, pieces@.len() as int, acc.node());
                    nodes(self.defs@) + fr.0 == nodes(start.defs@) + total.0 && fr.1 == total.1
                }),
            decreases pieces@.len(),
        {
            let ghost fr = fold_add(self.defs@.len() as int, ns, pieces@.len() as int, acc.node());
            let ghost before = self.defs@;
            let ghost k = pieces@.len() as int;
            let ghost pb = pieces@;
            let x = pieces.pop().unwrap();
            let ghost old_acc = acc;
            acc = self.add(x, acc);
            proof {
                let a = self.defs@;
                assert(a.len() == self.defs.len());
                lemma_kv_grows(before, a, lo, lo, cs, x, kvs@[k - 1]);
                lemma_obj_grows(before, a, lo, lo, cs, old_acc, *kvs, k);
                assert(a[before.len() as int] == x);
                assert(a[before.len() as int + 1] == old_acc);
                assert forall|j: int| 0 <= j < pieces@.len() implies kv_lowers(a, lo, cs, #[trigger] pieces@[j], kvs@[j]) by {
                    lemma_kv_grows(before, a, lo, lo, cs, pieces@[j], kvs@[j]);
                }
                assert(nodes(pb)[k - 1] == x.node());
                assert(ns.take(k)[k - 1] == ns[k - 1]);
                assert(nodes(pieces@) =~= ns.take(pieces@.len() as int));
                assert(before.len() == nodes(before).len());
                let fr2 = fold_add(a.len() as int, ns, pieces@.len() as int, acc.node());
                assert(nodes(a) + fr2.0 =~= nodes(before) + fr.0);
            }
        }
        acc
    }
}

impl Ctx {
    /// Lower `if c1 then t1 elif c2 then t2 ... else e end` by folding the
    /// branches from the last onto the `else` branch, `.` where there is none.
    fn lower_ite(&mut self, f: &Filter) -> (r: Ast)
        requires
            old(self).wf(),
            f is Ite,
            admissible(old(self).tailrecs(), *f),
        ensures
            final(self).extends(*old(self)),
            ite_lowers(final(self).defs@, old(self).defs@.len() as int, old(self).frames(), r, *f, 0),
            nodes(final(self).defs@) == nodes(old(self).defs@) + lower_spec(old(self).defs@.len() as int, old(self).frames(), *f).0,
            r.node() == lower_spec(old(self).defs@.len() as int, old(self).frames(), *f).1,
        decreases f, 0int,
    {
        let ghost start = *self;
        let ghost lo = self.defs@.len() as int;
        let ghost cs = self.frames();
        if let Filter::Ite(bs, e) = f {
            let mut acc = match e {
                None => Ast::Id,
                Some(g) => self.lower(&**g),
            };
            let ghost total = lower_spec(lo, cs, *f);
            proof {
                let s0 = if e is Some { lower_spec(lo, cs, *e->Some_0).0 } else { Seq::<Node>::empty() };
                assert(self.defs@.len() == nodes(self.defs@).len());
                let it = ite_spec(lo + s0.len(), cs, *f, bs.len() as int, acc.node());
                assert(nodes(self.defs@) + it.0 =~= nodes(start.defs@) + total.0);
            }
            let mut i: usize = bs.len();
            while i > 0
                invariant
                    self.extends(start),
                    start.frames() == cs,
                    lo == start.defs@.len(),
                    *f == Filter::Ite(*bs, *e),
                    admissible(start.tailrecs(), *f),
                    i <= bs.len(),
                    ite_lowers(self.defs@, lo, cs, acc, *f, i as int),
                    total == lower_spec(lo, cs, *f),
                    ({
                        let it = ite_spec(self.defs@.len() as int, cs, *f, i as int, acc.node());
                        nodes(self.defs@) + it.0 == nodes(start.defs@) + total.0 && it.1 == total.1
                    }),
                decreases i,
            {
                let ghost it = ite_spec(self.defs@.len() as int, cs, *f, i as int, acc.node());
                i -= 1;
                let ghost a0 = self.defs@;
                assert(admissible(start.tailrecs(), bs@[i as int].0));
                let c = self.get(&bs[i].0);
                let ghost a1 = self.defs@;
                let t = self.get(&bs[i].1);
                let ghost a2 = self.defs@;
                let ghost old_acc = acc;
                let x = self.id_of_ast(acc);
                acc = Ast::Ite(c, t, x);
                proof {
                    let a = self.defs@;
                    lemma_node_at_grows(a1, a, a0.len() as int, lo, cs, c, bs@[i as int].0);
                    lemma_node_at_grows(a2, a, a1.len() as int, lo, cs, t, bs@[i as int].1);
                    lemma_ite_grows(a0, a, lo, lo, cs, old_acc, *f, i + 1);
                    assert(a[x.0 as int] == old_acc);
                    assert(a0.len() == nodes(a0).len() && a1.len() == nodes(a1).len() && a2.len() == nodes(a2).len());
                    let g1 = get_spec(a0.len() as int, cs, bs@[i as int].0);
                    let g2 = get_spec(a1.len() as int, cs, bs@[i as int].1);
                    let it2 = ite_spec(a.len() as int, cs, *f, i as int, acc.node());
                    assert(nodes(a) + it2.0 =~= nodes(a0) + it.0);
                }
            }
            acc
        } else {
            Ast::Id
        }
    }

    /// Lower a path: its base, then each part in order, keeping whether the
    /// part is optional.
    fn lower_path(&mut self, f: &Filter) -> (r: Ast)
        requires
            old(self).wf(),
            f is Path,
            admissible(old(self).tailrecs(), *f),
        ensures
            final(self).extends(*old(self)),
            lowers(final(self).defs@, old(self).defs@.len() as int, old(self).frames(), r, *f),
            nodes(final(self).defs@) == nodes(old(self).defs@) + lower_spec(old(self).defs@.len() as int, old(self).frames(), *f).0,
            r.node() == lower_spec(old(self).defs@.len() as int, old(self).frames(), *f).1,
        decreases f, 0int,
    {
        let ghost start = *self;
        let ghost lo = self.defs@.len() as int;
        let ghost cs = self.frames();
        if let Filter::Path(g, path) = f {
            let x = self.get(&**g);
            let ghost gb = get_spec(lo, cs, **g);
            proof {
                assert(self.defs@.len() == nodes(self.defs@).len());
                assert(nodes(self.defs@) =~= nodes(start.defs@) + gb.0 + Seq::<Node>::empty());
            }
            let mut ps: Vec<(LPart, Opt)> = Vec::new();
            let mut i: usize = 0;
            while i < path.len()
                invariant
                    self.extends(start),
                    start.frames() == cs,
                    lo == start.defs@.len(),
                    *f == Filter::Path(*g, *path),
                    admissible(start.tailrecs(), *f),
                    i <= path.len(),
                    ps@.len() == i,
                    node_at(self.defs@, lo, cs, x, **g),
                    forall|j: int| 0 <= j < i ==> (#[trigger] ps@[j]).1 == path@[j].1 && match (ps@[j].0, path@[j].0) {
                        (LPart::Index(x), Part::Index(h)) => node_at(self.defs@, lo, cs, x, h),
                        (LPart::Range(l, u), Part::Range(gl, gu)) => opt_at(self.defs@, lo, cs, l, gl) && opt_at(self.defs@, lo, cs, u, gu),
                        _ => false,
                    },
                gb == get_spec(lo, cs, **g),
                x == gb.1,
                nodes(self.defs@) == nodes(start.defs@) + gb.0 + path_spec(lo + gb.0.len(), cs, *path, i as int).0,
                ps@ == path_spec(lo + gb.0.len(), cs, *path, i as int).1,
                decreases path.len() - i,
            {
                let ghost pr = path_spec(lo + gb.0.len(), cs, *path, i as int);
                let ghost a0 = self.defs@;
                assert(admissible(start.tailrecs(), **g));
                let (p, opt) = &path[i];
                let part = match p {
                    Part::Index(h) => {
                        let y = self.get(h);
                        proof {
                            lemma_node_at_grows(self.defs@, self.defs@, a0.len() as int, lo, cs, y, *h);
                        }
                        LPart::Index(y)
                    },
                    Part::Range(l, u) => {
                        let lower = match l {
                            None => None,
                            Some(h) => Some(self.get(h)),
                        };
                        let ghost a1 = self.defs@;
                        let upper = match u {
                            None => None,
                            Some(h) => Some(self.get(h)),
                        };
                        proof {
                            if let Some(h) = l {
                                lemma_node_at_grows(a1, self.defs@, a0.len() as int, lo, cs, lower.unwrap(), *h);
                            }
                            if let Some(h) = u {
                                lemma_node_at_grows(self.defs@, self.defs@, a1.len() as int, lo, cs, upper.unwrap(), *h);
                            }
                            assert(a0.len() == nodes(a0).len() && a1.len() == nodes(a1).len());
                            let t1 = bound_spec(a0.len() as int, cs, *l);
                            let t2 = bound_spec(a1.len() as int, cs, *u);
                            assert(lower == t1.1 && upper == t2.1);
                            assert(nodes(self.defs@) =~= nodes(a0) + (t1.0 + t2.0));
                        }
                        LPart::Range(lower, upper)
                    },
                };
                proof {
                    let a = self.defs@;
                    lemma_node_at_grows(a0, a, lo, lo, cs, x, **g);
                    assert forall|j: int| 0 <= j < i implies (#[trigger] ps@[j]).1 == path@[j].1 && match (ps@[j].0, path@[j].0) {
                        (LPart::Index(x), Part::Index(h)) => node_at(a, lo, cs, x, h),
                        (LPart::Range(l, u), Part::Range(gl, gu)) => opt_at(a, lo, cs, l, gl) && opt_at(a, lo, cs, u, gu),
                        _ => false,
                    } by {
                        match (ps@[j].0, path@[j].0) {
                            (LPart::Index(y), Part::Index(h)) => lemma_node_at_grows(a0, a, lo, lo, cs, y, h),
                            (LPart::Range(l, u), Part::Range(gl, gu)) => {
                                lemma_opt_at_grows(a0, a, lo, lo, cs, l, gl);
                                lemma_opt_at_grows(a0, a, lo, lo, cs, u, gu);
                            },
                            _ => {},
                        }
                    }
                }
                ps.push((part, *opt));
                i += 1;
                proof {
                    let m = lo + gb.0.len() + pr.0.len();
                    assert(a0.len() == nodes(a0).len());
                    match path@[i - 1].0 {
                        Part::Index(h) => {
                            let t = get_spec(m, cs, h);
                            assert(nodes(self.defs@) =~= nodes(start.defs@) + gb.0 + (pr.0 + t.0));
                        },
                        Part::Range(l, u) => {
                            let t1 = bound_spec(m, cs, l);
                            let t2 = bound_spec(m + t1.0.len(), cs, u);
                            assert(nodes(self.defs@) =~= nodes(start.defs@) + gb.0 + (pr.0 + t1.0 + t2.0));
                        },
                    }
                    assert(ps@ =~= pr.1.push((part, *opt)));
                }
            }
            proof {
                assert(nodes(self.defs@) =~= nodes(start.defs@) + (gb.0 + path_spec(lo + gb.0.len(), cs, *path, path.len() as int).0));
            }
            Ast::Path(x, ps)
        } else {
            Ast::Id
        }
    }
}

impl Ctx {
    /// Lower the definitions of `m` in order, then its body; the
    /// definitions leave scope afterwards.
    fn lower_main(&mut self, m: Main) -> (r: Ast)
        requires
            old(self).wf(),
            main_admissible(old(self).tailrecs(), m),
        ensures
            final(self).extends(*old(self)),
            main_lowers(final(self).defs@, old(self).defs@.len() as int, old(self).frames(), r, m),
            nodes(final(self).defs@) == nodes(old(self).defs@) + main_spec(old(self).defs@.len() as int, old(self).frames(), m).0,
            r.node() == main_spec(old(self).defs@.len() as int, old(self).frames(), m).1,
        decreases m, 0int,
    {
        let ghost start = *self;
        let ghost lo = self.defs@.len() as int;
        let ghost cs = self.frames();
        let ghost tr = self.tailrecs();
        let ghost m0 = m;
        let Main { defs, body } = m;
        let mut defs = defs;
        let defs_len = defs.len();
        let ghost mut ids: Seq<AbsId> = Seq::empty();
        let ghost mut subs: Seq<Layout> = Seq::empty();
        let mut j: usize = 0;
        while defs.len() > 0
            invariant
                self.wf(),
                grows(start.defs@, self.defs@, 0),
                lo == start.defs@.len(),
                cs == start.frames(),
                tr == tailrecs_of(cs),
                main_admissible(tr, m0),
                m0 == m,
                defs_len == m0.defs.len(),
                j + defs@.len() == m0.defs.len(),
                defs@ == m0.defs@.skip(j as int),
                ids.len() == j,
                subs.len() == j,
                self.callable@.len() == start.callable@.len() + j,
                self.callable@.take(start.callable@.len() as int) == start.callable@,
                self.frames() == cs + def_frames(m0.defs@, ids),
                def_frames(m0.defs@, ids) == defs_spec(lo, cs, m0, j as int).1,
                nodes(self.defs@) == nodes(start.defs@) + defs_spec(lo, cs, m0, j as int).0,
                forall|i: int| 0 <= i < j ==> lo <= ids[i].0 < self.defs@.len() && main_at(
                    self.defs@,
                    lo,
                    cs + def_frames(m0.defs@, ids).take(i + 1),
                    self.defs@[ids[i].0 as int],
                    (#[trigger] m0.defs@[i]).rhs,
                    subs[i],
                ),
            decreases defs.len(),
        {
            let d = defs.remove(0);
            let ghost before = self.defs@;
            let ghost old_ids = ids;
            let ghost old_cl = self.callable@;
            let ghost ds = defs_spec(lo, cs, m0, j as int);
            proof {
                assert(before.len() == nodes(before).len());
                assert(d == m0.defs@[j as int]);
                assert(decreases_to!(m0 => m0.defs));
                assert(decreases_to!(m0.defs => m0.defs[j as int]));
                assert(decreases_to!(m0 => d));
                assert(tailrecs_of(cs + def_frames(m0.defs@, ids)).push(d.tailrec) =~= tr + def_tailrecs(m0.defs@, j + 1));
            }
            let id = self.lower_def(d);
            proof {
                let fr = Frame { fun_params: fun_params(m0.defs@[j as int].lhs.args@), id, tailrec: m0.defs@[j as int].tailrec };
                ids = ids.push(id);
                let base = id.0 + 1;
                let slot = self.defs@[id.0 as int];
                let l = choose|l: Layout| #[trigger] main_at(self.defs@, base, self.frames(), slot, m0.defs@[j as int].rhs, l);
                subs = subs.push(l);
                assert(def_frames(m0.defs@, ids) =~= def_frames(m0.defs@, old_ids).push(fr));
                assert(fr == def_frame(m0.defs@[j as int], id));
                let t = def_spec(lo + ds.0.len(), cs + ds.1, m0.defs@[j as int]);
                assert(nodes(self.defs@) =~= nodes(start.defs@) + (ds.0 + t));
                assert(self.frames() =~= cs + def_frames(m0.defs@, ids));
                assert(self.callable@.take(start.callable@.len() as int) =~= old_cl.take(start.callable@.len() as int));
                assert forall|i: int| 0 <= i < j + 1 implies lo <= ids[i].0 < self.defs@.len() && main_at(
                    self.defs@,
                    lo,
                    cs + def_frames(m0.defs@, ids).take(i + 1),
                    self.defs@[ids[i].0 as int],
                    (#[trigger] m0.defs@[i]).rhs,
                    subs[i],
                ) by {
                    if i < j {
                        assert(def_frames(m0.defs@, ids).take(i + 1) =~= def_frames(m0.defs@, old_ids).take(i + 1));
                        lemma_main_grows(before, self.defs@, lo, lo, cs + def_frames(m0.defs@, ids).take(i + 1), before[ids[i].0 as int], m0.defs@[i].rhs, subs[i]);
                    } else {
                        assert(def_frames(m0.defs@, ids).take(i + 1) =~= def_frames(m0.defs@, ids));
                        lemma_main_grows(self.defs@, self.defs@, id.0 + 1, lo, self.frames(), self.defs@[id.0 as int], m0.defs@[i].rhs, l);
                    }
                }
            }
            j += 1;
        }
        proof {
            assert(tailrecs_of(self.frames()) =~= tr + def_tailrecs(m0.defs@, m0.defs.len() as int));
        }
        let ghost before = self.defs@;
        proof {
            assert(before.len() == nodes(before).len());
        }
        let r = self.lower(&body);
        proof {
            let ds = defs_spec(lo, cs, m0, m0.defs.len() as int);
            let l = lower_spec(lo + ds.0.len(), cs + ds.1, m0.body);
            assert(nodes(self.defs@) =~= nodes(start.defs@) + (ds.0 + l.0));
        }
        let len = self.callable.len();
        self.callable.truncate(len - defs_len);
        proof {
            assert(self.callable@ =~= start.callable@);
            let l = Layout { ids, subs };
            assert forall|i: int| 0 <= i < m0.defs.len() implies lo <= ids[i].0 < self.defs@.len() && main_at(
                self.defs@,
                lo,
                cs + def_frames(m0.defs@, ids).take(i + 1),
                self.defs@[ids[i].0 as int],
                (#[trigger] m0.defs@[i]).rhs,
                subs[i],
            ) by {
                lemma_main_grows(before, self.defs@, lo, lo, cs + def_frames(m0.defs@, ids).take(i + 1), before[ids[i].0 as int], m0.defs@[i].rhs, subs[i]);
            }
            lemma_lowers_grows(self.defs@, self.defs@, before.len() as int, lo, cs + def_frames(m0.defs@, ids), r, m0.body);
            assert(main_at(self.defs@, lo, cs, r, m0, l));
        }
        r
    }

    /// Lower a definition. Its slot is taken first, holding `.` until the
    /// body is lowered, so that the body can call the definition; the
    /// definition then stays in scope, on top of the definitions that were
    /// in scope before.
    fn lower_def(&mut self, def: Def) -> (id: AbsId)
        requires
            old(self).wf(),
            main_admissible(old(self).tailrecs().push(def.tailrec), def.rhs),
        ensures
            final(self).wf(),
            grows(old(self).defs@, final(self).defs@, 0),
            id.0 == old(self).defs@.len(),
            id.0 < final(self).defs@.len(),
            final(self).callable@.len() == old(self).callable@.len() + 1,
            final(self).callable@.take(old(self).callable@.len() as int) == old(self).callable@,
            final(self).callable@.last().sig == def.lhs,
            final(self).frames() == old(self).frames().push(
                Frame { fun_params: fun_params(def.lhs.args@), id, tailrec: def.tailrec },
            ),
            main_lowers(final(self).defs@, id.0 + 1, final(self).frames(), final(self).defs@[id.0 as int], def.rhs),
            nodes(final(self).defs@) == nodes(old(self).defs@) + def_spec(old(self).defs@.len() as int, old(self).frames(), def),
        decreases def, 0int,
    {
        let ghost d = def;
        let Def { lhs, rhs, tailrec } = def;
        let id = AbsId(self.defs.len());
        self.defs.push(Ast::Id);
        self.callable.push(Callable { sig: lhs, id, tailrec });
        proof {
            assert(self.frames() =~= old(self).frames().push(
                Frame { fun_params: fun_params(d.lhs.args@), id, tailrec },
            ));
            assert(self.tailrecs() =~= old(self).tailrecs().push(tailrec));
            assert(self.defs@.take(8) =~= old(self).defs@.take(8));
        }
        let ghost mid = *self;
        let body = self.lower_main(rhs);
        let ghost before = self.defs@;
        self.defs[id.0] = body;
        proof {
            let base = id.0 + 1;
            let l = choose|l: Layout| #[trigger] main_at(before, base, mid.frames(), body, d.rhs, l);
            lemma_main_grows(before, self.defs@, base, base, mid.frames(), body, d.rhs, l);
            assert(self.callable@.last().id == id);
            let ms = main_spec(id.0 + 1, mid.frames(), d.rhs);
            assert(mid.frames() == old(self).frames().push(def_frame(d, slot(id.0 as int))));
            assert(mid.defs@ == old(self).defs@.push(Ast::Id));
            assert(nodes(before) == nodes(mid.defs@) + ms.0);
            assert(nodes(self.defs@) =~= nodes(before).update(id.0 as int, body.node()));
            assert(nodes(self.defs@) =~= nodes(old(self).defs@) + (seq![ms.1] + ms.0));
            assert(self.callable@.take(old(self).callable@.len() as int) =~= old(self).callable@);
        }
        id
    }
}

impl Ctx {
    /// Lower a filter with the definitions now in scope. The arena grows by
    /// exactly the nodes that lowering places, and stays closed: no node
    /// names a slot past its end.
    pub fn filter(&mut self, f: &Filter) -> (r: Ast)
        requires
            old(self).wf(),
            closed(old(self).defs@),
            admissible(old(self).tailrecs(), *f),
        ensures
            final(self).extends(*old(self)),
            closed(final(self).defs@),
            refs_below(r.node(), final(self).defs@.len() as int),
            lowers(final(self).defs@, old(self).defs@.len() as int, old(self).frames(), r, *f),
            nodes(final(self).defs@) == nodes(old(self).defs@) + lower_spec(old(self).defs@.len() as int, old(self).frames(), *f).0,
            r.node() == lower_spec(old(self).defs@.len() as int, old(self).frames(), *f).1,
    {
        let r = self.lower(f);
        proof {
            let k = self.defs@.len() as int;
            let sp = lower_spec(old(self).defs@.len() as int, old(self).frames(), *f);
            assert(k == nodes(self.defs@).len());
            assert(old(self).defs@.len() == nodes(old(self).defs@).len());
            assert(self.defs@.len() == self.defs.len());
            lemma_frames_grow(old(self).frames(), old(self).defs@.len() as int, k);
            lemma_lower_below(old(self).defs@.len() as int, old(self).frames(), *f, k);
            lemma_all_mono(nodes(old(self).defs@), old(self).defs@.len() as int, k);
            lemma_all_cat(nodes(old(self).defs@), sp.0, k);
        }
        r
    }

    /// Lower a program: its definitions in order, then its body; the
    /// definitions leave scope afterwards. The arena stays closed.
    pub fn main(&mut self, m: Main) -> (r: Ast)
        requires
            old(self).wf(),
            closed(old(self).defs@),
            main_admissible(old(self).tailrecs(), m),
        ensures
            final(self).extends(*old(self)),
            closed(final(self).defs@),
            refs_below(r.node(), final(self).defs@.len() as int),
            main_lowers(final(self).defs@, old(self).defs@.len() as int, old(self).frames(), r, m),
            nodes(final(self).defs@) == nodes(old(self).defs@) + main_spec(old(self).defs@.len() as int, old(self).frames(), m).0,
            r.node() == main_spec(old(self).defs@.len() as int, old(self).frames(), m).1,
    {
        let ghost m0 = m;
        let r = self.lower_main(m);
        proof {
            let k = self.defs@.len() as int;
            let sp = main_spec(old(self).defs@.len() as int, old(self).frames(), m0);
            assert(k == nodes(self.defs@).len());
            assert(old(self).defs@.len() == nodes(old(self).defs@).len());
            assert(self.defs@.len() == self.defs.len());
            lemma_frames_grow(old(self).frames(), old(self).defs@.len() as int, k);
            lemma_main_below(old(self).defs@.len() as int, old(self).frames(), m0, k);
            lemma_all_mono(nodes(old(self).defs@), old(self).defs@.len() as int, k);
            lemma_all_cat(nodes(old(self).defs@), sp.0, k);
        }
        r
    }

    /// Lower a definition. Its slot is taken first, holding `.` until the
    /// body is lowered, so that the body can call the definition; the
    /// definition then stays in scope, on top of the definitions that were
    /// in scope before. The arena stays closed.
    pub fn def(&mut self, def: Def) -> (id: AbsId)
        requires
            old(self).wf(),
            closed(old(self).defs@),
            main_admissible(old(self).tailrecs().push(def.tailrec), def.rhs),
        ensures
            final(self).wf(),
            closed(final(self).defs@),
            grows(old(self).defs@, final(self).defs@, 0),
            id.0 == old(self).defs@.len(),
            id.0 < final(self).defs@.len(),
            final(self).callable@.len() == old(self).callable@.len() + 1,
            final(self).callable@.take(old(self).callable@.len() as int) == old(self).callable@,
            final(self).callable@.last().sig == def.lhs,
            final(self).frames() == old(self).frames().push(
                Frame { fun_params: fun_params(def.lhs.args@), id, tailrec: def.tailrec },
            ),
            main_lowers(final(self).defs@, id.0 + 1, final(self).frames(), final(self).defs@[id.0 as int], def.rhs),
            nodes(final(self).defs@) == nodes(old(self).defs@) + def_spec(old(self).defs@.len() as int, old(self).frames(), def),
    {
        let ghost d = def;
        let id = self.lower_def(def);
        proof {
            let k = self.defs@.len() as int;
            let sp = def_spec(old(self).defs@.len() as int, old(self).frames(), d);
            assert(k == nodes(self.defs@).len());
            assert(old(self).defs@.len() == nodes(old(self).defs@).len());
            assert(self.defs@.len() == self.defs.len());
            lemma_frames_grow(old(self).frames(), old(self).defs@.len() as int, k);
            lemma_def_below(old(self).defs@.len() as int, old(self).frames(), d, k);
            lemma_all_mono(nodes(old(self).defs@), old(self).defs@.len() as int, k);
            lemma_all_cat(nodes(old(self).defs@), sp, k);
        }
        id
    }
}

/// Slots below `k1` are below any larger `k2`.
proof fn lemma_frames_grow(cs: Seq<Frame>, k1: int, k2: int)
    requires
        frames_below(cs, k1),
        k1 <= k2,
    ensures
        frames_below(cs, k2),
{
}

} // verus!
