use jaq_lir::lir::{AbsId, Arg, Ast, Call, CallTyp, FoldType, MathOp, Opt, Part as LPart};
use jaq_lir::lower::Ctx;
use jaq_lir::mir::{
    AssignOp, BinaryOp, Callee, Def, Filter, Fold, KeyVal, Main, Num, Param, Part, RelId, Sig, Str,
    StrPart,
};

fn lit(s: &str) -> Str {
    Str { fmt: None, parts: vec![StrPart::Str(s.to_string())] }
}

fn bx(f: Filter) -> Box<Filter> {
    Box::new(f)
}

fn sig(name: &str, args: Vec<Param>) -> Sig {
    Sig { name: name.to_string(), args }
}

fn call_def(id: usize, tail: bool, args: Vec<Filter>) -> Filter {
    Filter::Call(Callee::Def { id: RelId(id), skip: 0, tail }, args)
}

#[test]
fn builtins_sit_at_fixed_slots() {
    let ctx = Ctx::default();
    assert_eq!(ctx.defs.len(), 8);
    assert!(ctx.callable.is_empty());
    assert_eq!(ctx.defs[0], Ast::Id);
    assert_eq!(ctx.defs[1], Ast::ToString);
    assert_eq!(ctx.defs[2], Ast::ObjEmpty);
    assert_eq!(ctx.defs[3], Ast::Path(AbsId(2), vec![(LPart::Range(None, None), Opt::Essential)]));
    assert_eq!(ctx.defs[4], Ast::Path(AbsId(0), vec![(LPart::Range(None, None), Opt::Optional)]));
    assert_eq!(
        ctx.defs[5],
        Ast::Call(Call { id: AbsId(7), typ: CallTyp::Throw, skip: 0, args: vec![] })
    );
    assert_eq!(ctx.defs[6], Ast::Pipe(AbsId(4), false, AbsId(5)));
    assert_eq!(ctx.defs[7], Ast::Comma(AbsId(0), AbsId(6)));
}

#[test]
fn fresh_contexts_agree() {
    let a = Ctx::default();
    let b = Ctx::default();
    assert_eq!(a.defs, b.defs);
}

#[test]
fn empty_array_yields_empty_generator() {
    let mut ctx = Ctx::default();
    assert_eq!(ctx.filter(&Filter::Array(None)), Ast::Array(AbsId(3)));
    assert_eq!(ctx.defs.len(), 8);
}

#[test]
fn array_with_body() {
    let mut ctx = Ctx::default();
    assert_eq!(ctx.filter(&Filter::Array(Some(bx(Filter::Id)))), Ast::Array(AbsId(8)));
    assert_eq!(ctx.defs[8], Ast::Id);
}

#[test]
fn empty_object_is_the_empty_literal() {
    let mut ctx = Ctx::default();
    assert_eq!(ctx.filter(&Filter::Object(vec![])), Ast::ObjEmpty);
    assert_eq!(ctx.defs.len(), 8);
}

#[test]
fn object_pairs_are_added_to_the_right() {
    let mut ctx = Ctx::default();
    let kvs = vec![
        KeyVal::Filter(Filter::Var(0), Filter::Var(1)),
        KeyVal::Filter(Filter::Var(2), Filter::Var(3)),
    ];
    let r = ctx.filter(&Filter::Object(kvs));
    assert_eq!(ctx.defs[8], Ast::Var(0));
    assert_eq!(ctx.defs[9], Ast::Var(1));
    assert_eq!(ctx.defs[10], Ast::Var(2));
    assert_eq!(ctx.defs[11], Ast::Var(3));
    assert_eq!(ctx.defs[12], Ast::ObjSingle(AbsId(8), AbsId(9)));
    assert_eq!(ctx.defs[13], Ast::ObjSingle(AbsId(10), AbsId(11)));
    assert_eq!(r, Ast::Math(AbsId(12), MathOp::Add, AbsId(13)));
}

#[test]
fn interpolation_concatenates_to_the_right() {
    let mut ctx = Ctx::default();
    let s = Str {
        fmt: None,
        parts: vec![
            StrPart::Str("a".to_string()),
            StrPart::Fun(Filter::Var(4)),
            StrPart::Str("b".to_string()),
        ],
    };
    let r = ctx.filter(&Filter::Str(Box::new(s)));
    assert_eq!(r, Ast::Math(AbsId(11), MathOp::Add, AbsId(12)));
    assert_eq!(ctx.defs[11], Ast::Str("a".to_string()));
    assert_eq!(ctx.defs[12], Ast::Math(AbsId(9), MathOp::Add, AbsId(10)));
    assert_eq!(ctx.defs[9], Ast::Pipe(AbsId(8), false, AbsId(1)));
    assert_eq!(ctx.defs[8], Ast::Var(4));
    assert_eq!(ctx.defs[10], Ast::Str("b".to_string()));
}

#[test]
fn interpolation_with_format() {
    let mut ctx = Ctx::default();
    let s = Str { fmt: Some(bx(Filter::Var(7))), parts: vec![StrPart::Fun(Filter::Id)] };
    let r = ctx.filter(&Filter::Str(Box::new(s)));
    assert_eq!(ctx.defs[8], Ast::Var(7));
    assert_eq!(ctx.defs[9], Ast::Id);
    assert_eq!(r, Ast::Pipe(AbsId(9), false, AbsId(8)));
}

#[test]
fn empty_string_lowers_to_empty_literal() {
    let mut ctx = Ctx::default();
    let r = ctx.filter(&Filter::Str(Box::new(Str { fmt: None, parts: vec![] })));
    assert_eq!(r, Ast::Str(String::new()));
}

#[test]
fn shorthand_key_indexes_input() {
    let mut ctx = Ctx::default();
    let r = ctx.filter(&Filter::Object(vec![KeyVal::Str(lit("foo"), None)]));
    assert_eq!(r, Ast::ObjSingle(AbsId(8), AbsId(9)));
    assert_eq!(ctx.defs[8], Ast::Str("foo".to_string()));
    assert_eq!(ctx.defs[9], Ast::Path(AbsId(0), vec![(LPart::Index(AbsId(8)), Opt::Essential)]));
}

#[test]
fn explicit_key_path_has_same_shape() {
    let mut ctx = Ctx::default();
    let dot_foo = Filter::Path(
        bx(Filter::Id),
        vec![(Part::Index(Filter::Str(Box::new(lit("foo")))), Opt::Essential)],
    );
    let r = ctx.filter(&Filter::Object(vec![KeyVal::Str(lit("foo"), Some(dot_foo))]));
    assert_eq!(r, Ast::ObjSingle(AbsId(8), AbsId(11)));
    assert_eq!(ctx.defs[8], Ast::Str("foo".to_string()));
    assert_eq!(ctx.defs[9], Ast::Id);
    assert_eq!(ctx.defs[10], Ast::Str("foo".to_string()));
    assert_eq!(ctx.defs[11], Ast::Path(AbsId(9), vec![(LPart::Index(AbsId(10)), Opt::Essential)]));
}

#[test]
fn tail_self_call_throws() {
    let mut ctx = Ctx::default();
    let def = Def {
        lhs: sig("f", vec![]),
        rhs: Main { defs: vec![], body: call_def(0, true, vec![]) },
        tailrec: true,
    };
    let id = ctx.def(def);
    assert_eq!(id, AbsId(8));
    assert_eq!(
        ctx.defs[8],
        Ast::Call(Call { id: AbsId(8), typ: CallTyp::Throw, skip: 0, args: vec![] })
    );
    assert_eq!(ctx.callable.len(), 1);
    assert_eq!(ctx.callable[0].id, AbsId(8));
    assert!(ctx.callable[0].tailrec);
}

#[test]
fn entry_call_to_tail_recursive_catches() {
    let mut ctx = Ctx::default();
    let def = Def {
        lhs: sig("f", vec![]),
        rhs: Main { defs: vec![], body: Filter::Id },
        tailrec: true,
    };
    let id = ctx.def(def);
    let r = ctx.filter(&call_def(0, false, vec![]));
    assert_eq!(r, Ast::Call(Call { id, typ: CallTyp::Catch, skip: 0, args: vec![] }));
}

#[test]
fn plain_call_is_normal() {
    let mut ctx = Ctx::default();
    let def = Def {
        lhs: sig("f", vec![]),
        rhs: Main { defs: vec![], body: Filter::Id },
        tailrec: false,
    };
    let id = ctx.def(def);
    let r = ctx.filter(&Filter::Call(Callee::Def { id: RelId(0), skip: 2, tail: false }, vec![]));
    assert_eq!(r, Ast::Call(Call { id, typ: CallTyp::Normal, skip: 2, args: vec![] }));
}

#[test]
fn call_arguments_follow_parameters() {
    let mut ctx = Ctx::default();
    let def = Def {
        lhs: sig("f", vec![Param::Var("x".to_string()), Param::Fun("g".to_string())]),
        rhs: Main { defs: vec![], body: Filter::Id },
        tailrec: false,
    };
    let id = ctx.def(def);
    assert_eq!(id, AbsId(8));
    assert_eq!(ctx.defs[8], Ast::Id);
    let r = ctx.filter(&call_def(0, false, vec![Filter::Var(0), Filter::Id]));
    assert_eq!(
        r,
        Ast::Call(Call {
            id,
            typ: CallTyp::Normal,
            skip: 0,
            args: vec![Arg::Var(AbsId(9)), Arg::Fun(AbsId(10))],
        })
    );
}

#[test]
fn native_call_keeps_arguments() {
    let mut ctx = Ctx::default();
    let r = ctx.filter(&Filter::Call(Callee::Native(5), vec![Filter::Id, Filter::Var(1)]));
    assert_eq!(r, Ast::Native(5, vec![AbsId(8), AbsId(9)]));
}

#[test]
fn parameter_reference_is_a_variable() {
    let mut ctx = Ctx::default();
    assert_eq!(ctx.filter(&Filter::Call(Callee::Arg(3), vec![])), Ast::Var(3));
}

#[test]
fn recursion_enters_with_catch() {
    let mut ctx = Ctx::default();
    assert_eq!(
        ctx.filter(&Filter::Recurse),
        Ast::Call(Call { id: AbsId(7), typ: CallTyp::Catch, skip: 0, args: vec![] })
    );
}

#[test]
fn if_without_else_is_if_else_identity() {
    let branches = || vec![(Filter::Var(0), Filter::Var(1))];
    let mut a = Ctx::default();
    let ra = a.filter(&Filter::Ite(branches(), None));
    let mut b = Ctx::default();
    let rb = b.filter(&Filter::Ite(branches(), Some(bx(Filter::Id))));
    assert_eq!(ra, rb);
    assert_eq!(a.defs, b.defs);
    assert_eq!(ra, Ast::Ite(AbsId(8), AbsId(9), AbsId(10)));
    assert_eq!(a.defs[10], Ast::Id);
}

#[test]
fn elif_chain_folds_from_the_last_branch() {
    let mut ctx = Ctx::default();
    let f = Filter::Ite(
        vec![(Filter::Var(0), Filter::Var(1)), (Filter::Var(2), Filter::Var(3))],
        Some(bx(Filter::Var(4))),
    );
    let r = ctx.filter(&f);
    assert_eq!(ctx.defs[8], Ast::Var(2));
    assert_eq!(ctx.defs[9], Ast::Var(3));
    assert_eq!(ctx.defs[10], Ast::Var(4));
    assert_eq!(ctx.defs[13], Ast::Ite(AbsId(8), AbsId(9), AbsId(10)));
    assert_eq!(r, Ast::Ite(AbsId(11), AbsId(12), AbsId(13)));
}

#[test]
fn try_defaults_to_empty() {
    let mut ctx = Ctx::default();
    assert_eq!(ctx.filter(&Filter::Try(bx(Filter::Id))), Ast::Try(AbsId(8), AbsId(3)));
    let r = ctx.filter(&Filter::TryCatch(bx(Filter::Id), None));
    assert_eq!(r, Ast::Try(AbsId(9), AbsId(3)));
    let r = ctx.filter(&Filter::TryCatch(bx(Filter::Id), Some(bx(Filter::Var(0)))));
    assert_eq!(r, Ast::Try(AbsId(10), AbsId(11)));
}

#[test]
fn binary_operators_map_to_nodes() {
    let mut ctx = Ctx::default();
    let bin = |op| Filter::Binary(bx(Filter::Id), op, bx(Filter::Id));
    assert_eq!(ctx.filter(&bin(BinaryOp::Pipe(Some("x".to_string())))), Ast::Pipe(AbsId(8), true, AbsId(9)));
    assert_eq!(ctx.filter(&bin(BinaryOp::Pipe(None))), Ast::Pipe(AbsId(10), false, AbsId(11)));
    assert_eq!(ctx.filter(&bin(BinaryOp::Comma)), Ast::Comma(AbsId(12), AbsId(13)));
    assert_eq!(ctx.filter(&bin(BinaryOp::Alt)), Ast::Alt(AbsId(14), AbsId(15)));
    assert_eq!(ctx.filter(&bin(BinaryOp::Or)), Ast::Logic(AbsId(16), true, AbsId(17)));
    assert_eq!(ctx.filter(&bin(BinaryOp::And)), Ast::Logic(AbsId(18), false, AbsId(19)));
    assert_eq!(
        ctx.filter(&bin(BinaryOp::Assign(AssignOp::UpdateWith(MathOp::Mul)))),
        Ast::UpdateMath(AbsId(20), MathOp::Mul, AbsId(21))
    );
    assert_eq!(ctx.filter(&bin(BinaryOp::Assign(AssignOp::Update))), Ast::Update(AbsId(22), AbsId(23)));
    assert_eq!(ctx.filter(&bin(BinaryOp::Assign(AssignOp::Assign))), Ast::Assign(AbsId(24), AbsId(25)));
}

#[test]
fn literals_pass_through() {
    let mut ctx = Ctx::default();
    assert_eq!(ctx.filter(&Filter::Num(Num::Int(-4))), Ast::Int(-4));
    assert_eq!(ctx.filter(&Filter::Num(Num::Num("1.5".to_string()))), Ast::Num("1.5".to_string()));
    assert_eq!(ctx.filter(&Filter::Var(2)), Ast::Var(2));
    assert_eq!(ctx.filter(&Filter::Neg(bx(Filter::Id))), Ast::Neg(AbsId(8)));
}

#[test]
fn fold_keeps_its_kind() {
    let mut ctx = Ctx::default();
    let fd = Fold { xs: bx(Filter::Var(0)), x: "x".to_string(), init: bx(Filter::Var(1)), f: bx(Filter::Var(2)) };
    let r = ctx.filter(&Filter::Fold(FoldType::Foreach, fd));
    assert_eq!(r, Ast::Fold(FoldType::Foreach, AbsId(8), AbsId(9), AbsId(10)));
}

#[test]
fn path_parts_keep_optionality() {
    let mut ctx = Ctx::default();
    let f = Filter::Path(
        bx(Filter::Id),
        vec![
            (Part::Range(Some(Filter::Var(0)), None), Opt::Optional),
            (Part::Index(Filter::Var(1)), Opt::Essential),
        ],
    );
    let r = ctx.filter(&f);
    assert_eq!(
        r,
        Ast::Path(
            AbsId(8),
            vec![
                (LPart::Range(Some(AbsId(9)), None), Opt::Optional),
                (LPart::Index(AbsId(10)), Opt::Essential),
            ]
        )
    );
}

#[test]
fn program_definitions_leave_scope() {
    let mut ctx = Ctx::default();
    let m = Main {
        defs: vec![Def {
            lhs: sig("f", vec![]),
            rhs: Main { defs: vec![], body: Filter::Var(0) },
            tailrec: false,
        }],
        body: call_def(0, false, vec![]),
    };
    let r = ctx.main(m);
    assert_eq!(r, Ast::Call(Call { id: AbsId(8), typ: CallTyp::Normal, skip: 0, args: vec![] }));
    assert_eq!(ctx.defs[8], Ast::Var(0));
    assert!(ctx.callable.is_empty());
}

#[test]
fn nested_definition_sees_its_parent() {
    let mut ctx = Ctx::default();
    let inner = Def {
        lhs: sig("g", vec![]),
        rhs: Main { defs: vec![], body: call_def(0, false, vec![]) },
        tailrec: false,
    };
    let outer = Def {
        lhs: sig("f", vec![]),
        rhs: Main { defs: vec![inner], body: call_def(1, false, vec![]) },
        tailrec: true,
    };
    let id = ctx.def(outer);
    assert_eq!(id, AbsId(8));
    assert_eq!(ctx.defs[9], Ast::Call(Call { id: AbsId(8), typ: CallTyp::Catch, skip: 0, args: vec![] }));
    assert_eq!(ctx.defs[8], Ast::Call(Call { id: AbsId(9), typ: CallTyp::Normal, skip: 0, args: vec![] }));
    assert_eq!(ctx.callable.len(), 1);
    assert_eq!(ctx.callable[0].sig.name, "f");
}

#[test]
fn recurse_call_targets_builtin() {
    assert_eq!(
        jaq_lir::lower::recurse(CallTyp::Throw),
        Ast::Call(Call { id: AbsId(7), typ: CallTyp::Throw, skip: 0, args: vec![] })
    );
}

#[test]
fn tail_call_to_non_tail_recursive_is_refused() {
    let mut ctx = Ctx::default();
    let bad = Def {
        lhs: sig("f", vec![]),
        rhs: Main { defs: vec![], body: call_def(0, true, vec![]) },
        tailrec: false,
    };
    assert!(!ctx.admits_def(&bad));
    let good = Def {
        lhs: sig("f", vec![]),
        rhs: Main { defs: vec![], body: call_def(0, true, vec![]) },
        tailrec: true,
    };
    assert!(ctx.admits_def(&good));
    ctx.def(good);
    assert!(ctx.admits(&call_def(0, true, vec![])));
    assert!(ctx.admits(&call_def(0, false, vec![])));
    assert!(!ctx.admits(&call_def(1, false, vec![])));
}

#[test]
fn applied_parameter_is_refused() {
    let ctx = Ctx::default();
    assert!(ctx.admits(&Filter::Call(Callee::Arg(0), vec![])));
    assert!(!ctx.admits(&Filter::Call(Callee::Arg(0), vec![Filter::Id])));
    let nested = Filter::Array(Some(bx(Filter::Call(Callee::Arg(0), vec![Filter::Id]))));
    assert!(!ctx.admits(&nested));
}

#[test]
fn program_check_sees_nested_definitions() {
    let ctx = Ctx::default();
    let inner = Def {
        lhs: sig("g", vec![]),
        rhs: Main { defs: vec![], body: call_def(0, true, vec![]) },
        tailrec: false,
    };
    let outer = Def {
        lhs: sig("f", vec![]),
        rhs: Main { defs: vec![inner], body: Filter::Id },
        tailrec: true,
    };
    let m = Main { defs: vec![outer], body: call_def(0, false, vec![]) };
    assert!(ctx.admits_main(&m));
    let m2 = Main { defs: vec![], body: call_def(0, false, vec![]) };
    assert!(!ctx.admits_main(&m2));
}

#[test]
fn shorthand_key_arena_length() {
    let mut ctx = Ctx::default();
    ctx.filter(&Filter::Object(vec![KeyVal::Str(lit("foo"), None)]));
    assert_eq!(ctx.defs.len(), 10);
}

#[test]
fn identity_definition_appends_one_slot() {
    let mut ctx = Ctx::default();
    let before = ctx.defs.clone();
    let def = Def { lhs: sig("f", vec![]), rhs: Main { defs: vec![], body: Filter::Id }, tailrec: false };
    let id = ctx.def(def);
    assert_eq!(id, AbsId(8));
    let mut expected = before;
    expected.push(Ast::Id);
    assert_eq!(ctx.defs, expected);
}

#[test]
fn leaves_leave_arena_unchanged() {
    let mut ctx = Ctx::default();
    let before = ctx.defs.clone();
    ctx.filter(&Filter::Str(Box::new(lit("x"))));
    ctx.filter(&Filter::Call(Callee::Arg(1), vec![]));
    ctx.filter(&Filter::Recurse);
    ctx.filter(&Filter::Object(vec![]));
    assert_eq!(ctx.defs, before);
}

fn ids_of(node: &Ast) -> Vec<usize> {
    match node {
        Ast::Array(a) | Ast::Neg(a) => vec![a.0],
        Ast::ObjSingle(a, b) | Ast::Try(a, b) | Ast::Comma(a, b) | Ast::Alt(a, b) => vec![a.0, b.0],
        Ast::Update(a, b) | Ast::Assign(a, b) => vec![a.0, b.0],
        Ast::Pipe(a, _, b) | Ast::Logic(a, _, b) => vec![a.0, b.0],
        Ast::Math(a, _, b) | Ast::UpdateMath(a, _, b) => vec![a.0, b.0],
        Ast::Ord(a, _, b) => vec![a.0, b.0],
        Ast::Ite(a, b, c) | Ast::Fold(_, a, b, c) => vec![a.0, b.0, c.0],
        Ast::Path(a, ps) => {
            let mut v = vec![a.0];
            for (p, _) in ps {
                match p {
                    LPart::Index(x) => v.push(x.0),
                    LPart::Range(l, u) => v.extend(l.iter().chain(u.iter()).map(|x| x.0)),
                }
            }
            v
        }
        Ast::Call(c) => {
            let mut v = vec![c.id.0];
            v.extend(c.args.iter().map(|a| match a {
                Arg::Var(x) | Arg::Fun(x) => x.0,
            }));
            v
        }
        Ast::Native(_, ids) => ids.iter().map(|x| x.0).collect(),
        _ => vec![],
    }
}

#[test]
fn arena_stays_closed() {
    let mut ctx = Ctx::default();
    let inner = Def {
        lhs: sig("g", vec![Param::Fun("h".to_string())]),
        rhs: Main { defs: vec![], body: call_def(0, false, vec![Filter::Recurse]) },
        tailrec: false,
    };
    let outer = Def {
        lhs: sig("f", vec![]),
        rhs: Main {
            defs: vec![inner],
            body: Filter::Object(vec![KeyVal::Str(lit("k"), None), KeyVal::Filter(Filter::Id, call_def(1, false, vec![Filter::Id]))]),
        },
        tailrec: false,
    };
    ctx.def(outer);
    let n = ctx.defs.len();
    for node in &ctx.defs {
        for id in ids_of(node) {
            assert!(id < n);
        }
    }
}
