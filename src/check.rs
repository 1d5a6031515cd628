//! Deciding whether a filter can be lowered: a tail call to a definition
//! that is not tail-recursive, or a parameter applied to arguments, betrays
//! an inconsistency upstream and must never be lowered.

use vstd::prelude::*;

use crate::lower::{Callable, Ctx};
use crate::lir::Opt;
use crate::mir::{Callee, Def, Filter, KeyVal, Main, Part, Str, StrPart};
use crate::spec::{admissible, def_tailrecs, kv_admissible, main_admissible, str_admissible};

verus! {

/// Whether `f` is admissible with definitions of tail-recursion flags `tr`
/// in scope.
pub fn check_filter(tr: &Vec<bool>, f: &Filter) -> (r: bool)
    ensures
        r == admissible(tr@, *f),
    decreases f, 0int,
{
    match f {
        Filter::Call(callee, args) => {
            let ok = match callee {
                Callee::Arg(_) => args.len() == 0,
                Callee::Native(_) => true,
                Callee::Def { id, tail, .. } => id.0 < tr.len() && (!*tail || tr[id.0]),
            };
            ok && check_args(tr, args)
        },
        Filter::Str(s) => check_str(tr, &**s),
        Filter::Array(Some(g)) => check_filter(tr, &**g),
        Filter::Object(kvs) => check_key_vals(tr, kvs),
        Filter::Path(g, path) => check_filter(tr, &**g) && check_path(tr, path),
        Filter::Ite(bs, e) => check_branches(tr, bs) && match e {
            None => true,
            Some(g) => check_filter(tr, &**g),
        },
        Filter::Fold(_, fd) => check_filter(tr, &*fd.xs) && check_filter(tr, &*fd.init) && check_filter(tr, &*fd.f),
        Filter::TryCatch(g, h) => check_filter(tr, &**g) && match h {
            None => true,
            Some(h) => check_filter(tr, &**h),
        },
        Filter::Try(g) => check_filter(tr, &**g),
        Filter::Neg(g) => check_filter(tr, &**g),
        Filter::Binary(l, _, r) => check_filter(tr, &**l) && check_filter(tr, &**r),
        _ => true,
    }
}

/// Whether every argument is admissible.
fn check_args(tr: &Vec<bool>, args: &Vec<Filter>) -> (r: bool)
    ensures
        r == forall|j: int| 0 <= j < args.len() ==> admissible(tr@, #[trigger] args@[j]),
    decreases args, 0int,
{
    let mut i: usize = 0;
    while i < args.len()
        invariant
            i <= args.len(),
            forall|j: int| 0 <= j < i ==> admissible(tr@, #[trigger] args@[j]),
        decreases args.len() - i,
    {
        if !check_filter(tr, &args[i]) {
            return false;
        }
        i += 1;
    }
    true
}

/// Whether every entry of an object literal is admissible.
fn check_key_vals(tr: &Vec<bool>, kvs: &Vec<KeyVal>) -> (r: bool)
    ensures
        r == forall|j: int| 0 <= j < kvs.len() ==> kv_admissible(tr@, #[trigger] kvs@[j]),
    decreases kvs, 0int,
{
    let mut i: usize = 0;
    while i < kvs.len()
        invariant
            i <= kvs.len(),
            forall|j: int| 0 <= j < i ==> kv_admissible(tr@, #[trigger] kvs@[j]),
        decreases kvs.len() - i,
    {
        if !check_key_val(tr, &kvs[i]) {
            return false;
        }
        i += 1;
    }
    true
}

/// Whether every part of a path is admissible.
fn check_path(tr: &Vec<bool>, path: &Vec<(Part, Opt)>) -> (r: bool)
    ensures
        r == forall|j: int| 0 <= j < path.len() ==> match (#[trigger] path@[j]).0 {
            Part::Index(h) => admissible(tr@, h),
            Part::Range(l, u) => (l matches Some(h) ==> admissible(tr@, h)) && (u matches Some(h) ==> admissible(tr@, h)),
        },
    decreases path, 0int,
{
    let mut i: usize = 0;
    while i < path.len()
        invariant
            i <= path.len(),
            forall|j: int| 0 <= j < i ==> match (#[trigger] path@[j]).0 {
                Part::Index(h) => admissible(tr@, h),
                Part::Range(l, u) => (l matches Some(h) ==> admissible(tr@, h)) && (u matches Some(h) ==> admissible(tr@, h)),
            },
        decreases path.len() - i,
    {
        let ok = match &path[i].0 {
            Part::Index(h) => check_filter(tr, h),
            Part::Range(l, u) => {
                let lower = match l {
                    None => true,
                    Some(h) => check_filter(tr, h),
                };
                lower && match u {
                    None => true,
                    Some(h) => check_filter(tr, h),
                }
            },
        };
        if !ok {
            return false;
        }
        i += 1;
    }
    true
}

/// Whether every condition and branch of a conditional is admissible.
fn check_branches(tr: &Vec<bool>, bs: &Vec<(Filter, Filter)>) -> (r: bool)
    ensures
        r == forall|j: int| 0 <= j < bs.len() ==> admissible(tr@, (#[trigger] bs@[j]).0) && admissible(tr@, bs@[j].1),
    decreases bs, 0int,
{
    let mut i: usize = 0;
    while i < bs.len()
        invariant
            i <= bs.len(),
            forall|j: int| 0 <= j < i ==> admissible(tr@, (#[trigger] bs@[j]).0) && admissible(tr@, bs@[j].1),
        decreases bs.len() - i,
    {
        if !check_filter(tr, &bs[i].0) || !check_filter(tr, &bs[i].1) {
            return false;
        }
        i += 1;
    }
    true
}

/// Whether the format and the embedded filters of `s` are admissible.
fn check_str(tr: &Vec<bool>, s: &Str) -> (r: bool)
    ensures
        r == str_admissible(tr@, *s),
    decreases s, 0int,
{
    if let Some(g) = &s.fmt {
        if !check_filter(tr, &**g) {
            return false;
        }
    }
    let mut i: usize = 0;
    while i < s.parts.len()
        invariant
            i <= s.parts.len(),
            s.fmt matches Some(g) ==> admissible(tr@, *g),
            forall|j: int| 0 <= j < i ==> ((#[trigger] s.parts@[j]) matches StrPart::Fun(g) ==> admissible(tr@, g)),
        decreases s.parts.len() - i,
    {
        if let StrPart::Fun(g) = &s.parts[i] {
            if !check_filter(tr, g) {
                return false;
            }
        }
        i += 1;
    }
    true
}

/// Whether the key and the value of `kv` are admissible.
fn check_key_val(tr: &Vec<bool>, kv: &KeyVal) -> (r: bool)
    ensures
        r == kv_admissible(tr@, *kv),
    decreases kv, 0int,
{
    match kv {
        KeyVal::Filter(k, v) => check_filter(tr, k) && check_filter(tr, v),
        KeyVal::Str(k, v) => check_str(tr, k) && match v {
            None => true,
            Some(v) => check_filter(tr, v),
        },
    }
}

/// Whether the definitions and the body of `m` are admissible, each with the
/// definitions before it (and itself) in scope; `tr` is left as it was.
pub fn check_main(tr: &mut Vec<bool>, m: &Main) -> (r: bool)
    ensures
        r == main_admissible(old(tr)@, *m),
        final(tr)@ == old(tr)@,
    decreases m,
{
    let ghost tr0 = tr@;
    let n = tr.len();
    let mut ok = true;
    let mut j: usize = 0;
    while j < m.defs.len()
        invariant
            n == tr0.len(),
            j <= m.defs.len(),
            tr@ == tr0 + def_tailrecs(m.defs@, j as int),
            ok == forall|i: int| 0 <= i < j ==> main_admissible(tr0 + def_tailrecs(m.defs@, i + 1), (#[trigger] m.defs@[i]).rhs),
        decreases m.defs.len() - j,
    {
        tr.push(m.defs[j].tailrec);
        assert(tr@ =~= tr0 + def_tailrecs(m.defs@, j + 1));
        if !check_main(tr, &m.defs[j].rhs) {
            ok = false;
        }
        j += 1;
    }
    let body_ok = ok && check_filter(tr, &m.body);
    tr.truncate(n);
    assert(tr@ =~= tr0);
    body_ok
}

impl Ctx {
    /// Whether `f` can be lowered with the definitions now in scope.
    pub fn admits(&self, f: &Filter) -> (r: bool)
        ensures
            r == admissible(self.tailrecs(), *f),
    {
        let tr = self.tailrec_flags();
        check_filter(&tr, f)
    }

    /// Whether `d` can be lowered as a definition in this context.
    pub fn admits_def(&self, d: &Def) -> (r: bool)
        ensures
            r == main_admissible(self.tailrecs().push(d.tailrec), d.rhs),
    {
        let mut tr = self.tailrec_flags();
        tr.push(d.tailrec);
        check_main(&mut tr, &d.rhs)
    }

    /// Whether the program `m` can be lowered in this context.
    pub fn admits_main(&self, m: &Main) -> (r: bool)
        ensures
            r == main_admissible(self.tailrecs(), *m),
    {
        let mut tr = self.tailrec_flags();
        check_main(&mut tr, m)
    }

    /// The tail-recursion flags of the definitions in scope.
    fn tailrec_flags(&self) -> (r: Vec<bool>)
        ensures
            r@ == self.tailrecs(),
    {
        let mut r: Vec<bool> = Vec::new();
        let mut i: usize = 0;
        while i < self.callable.len()
            invariant
                i <= self.callable.len(),
                r@ == self.tailrecs().take(i as int),
            decreases self.callable.len() - i,
        {
            let c: &Callable = &self.callable[i];
            r.push(c.tailrec);
            i += 1;
            assert(r@ =~= self.tailrecs().take(i as int));
        }
        assert(r@ =~= self.tailrecs());
        r
    }
}

} // verus!
