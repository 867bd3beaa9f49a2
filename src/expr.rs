use vstd::prelude::*;
use vstd::string::StringExecFns;
use crate::ops::{BinOp, UnOp, Op1Evaluator, Op2Evaluator, prefix_spec, suffix_spec, op2_spec, illegal_msg, symbol_spec, unary_symbol_spec};
use crate::path::{Seg, Step, view_path, parent_of, lookup, child_path, parent_path};
use crate::text::render;
use crate::value::{OmlValue, Val, wf_val, wf_items, wf_values, keys_unique, lemma_wf_items, lemma_wf_values, lemma_dict_index, dict_index, view_values, view_entries, lemma_view_values, lemma_view_values_push, lemma_view_entries_push};

verus! {

broadcast use {
    vstd::std_specs::vec::axiom_vec_index_decreases,
    vstd::std_specs::vec::axiom_vec_decreases_to_view,
    vstd::seq::axiom_seq_index_decreases,
    vstd::seq::axiom_seq_subrange_decreases,
};

/// An unevaluated expression, as the builder makes it from a document.
#[derive(Debug)]
pub enum OmlExpr {
    Null,
    /// A literal.
    Value(OmlValue),
    Array(Vec<OmlExpr>),
    Dict(Vec<(String, OmlExpr)>),
    /// A reference by a dotted name, held as its parts.
    TempName(Vec<String>),
    Op1Prefix(UnOp, Box<OmlExpr>),
    Op1Suffix(Box<OmlExpr>, UnOp),
    Op2(Box<OmlExpr>, BinOp, Box<OmlExpr>),
    /// Condition, then, else.
    Op3(Box<OmlExpr>, Box<OmlExpr>, Box<OmlExpr>),
    /// Literal fragments and the expressions embedded between them.
    FormatString(Vec<String>, Vec<OmlExpr>),
    IfAnno(OmlExprIfAnno),
}

/// Guarded variants of one value, tried in order, with an optional fallback.
#[derive(Debug)]
pub struct OmlExprIfAnno {
    pub exprs: Vec<(OmlExpr, OmlExpr)>,
    pub default: Option<Box<OmlExpr>>,
}

/// The model of an expression.
pub enum ExprV {
    Null,
    Value(Val),
    Array(Seq<ExprV>),
    Dict(Seq<(Seq<char>, ExprV)>),
    Name(Seq<Seq<char>>),
    Prefix(UnOp, Box<ExprV>),
    Suffix(Box<ExprV>, UnOp),
    Op2(Box<ExprV>, BinOp, Box<ExprV>),
    Op3(Box<ExprV>, Box<ExprV>, Box<ExprV>),
    Format(Seq<Seq<char>>, Seq<ExprV>),
    Anno(Seq<(ExprV, ExprV)>, Option<Box<ExprV>>),
}

pub open spec fn view_strings(s: Seq<String>) -> Seq<Seq<char>> {
    Seq::new(s.len(), |i: int| s[i]@)
}

pub open spec fn view_exprs(s: Seq<OmlExpr>) -> Seq<ExprV>
    decreases s, 0nat,
{
    if s.len() == 0 {
        Seq::empty()
    } else {
        view_exprs(s.drop_last()).push(s.last().view_expr())
    }
}

pub open spec fn view_fields(s: Seq<(String, OmlExpr)>) -> Seq<(Seq<char>, ExprV)>
    decreases s, 0nat,
{
    if s.len() == 0 {
        Seq::empty()
    } else {
        view_fields(s.drop_last()).push((s.last().0@, s.last().1.view_expr()))
    }
}

pub open spec fn view_pairs(s: Seq<(OmlExpr, OmlExpr)>) -> Seq<(ExprV, ExprV)>
    decreases s, 0nat,
{
    if s.len() == 0 {
        Seq::empty()
    } else {
        view_pairs(s.drop_last()).push((s.last().0.view_expr(), s.last().1.view_expr()))
    }
}

impl OmlExpr {
    pub open spec fn view_expr(self) -> ExprV
        decreases self, 2nat,
    {
        match self {
            OmlExpr::Null => ExprV::Null,
            OmlExpr::Value(v) => ExprV::Value(v.view_val()),
            OmlExpr::Array(a) => ExprV::Array(view_exprs(a@)),
            OmlExpr::Dict(m) => ExprV::Dict(view_fields(m@)),
            OmlExpr::TempName(ns) => ExprV::Name(view_strings(ns@)),
            OmlExpr::Op1Prefix(op, x) => ExprV::Prefix(op, Box::new((*x).view_expr())),
            OmlExpr::Op1Suffix(x, op) => ExprV::Suffix(Box::new((*x).view_expr()), op),
            OmlExpr::Op2(l, op, r) => ExprV::Op2(
                Box::new((*l).view_expr()),
                op,
                Box::new((*r).view_expr()),
            ),
            OmlExpr::Op3(c, t, f) => ExprV::Op3(
                Box::new((*c).view_expr()),
                Box::new((*t).view_expr()),
                Box::new((*f).view_expr()),
            ),
            OmlExpr::FormatString(strs, xs) => ExprV::Format(view_strings(strs@), view_exprs(xs@)),
            OmlExpr::IfAnno(x) => ExprV::Anno(
                view_pairs(x.exprs@),
                match x.default {
                    Some(d) => Some(Box::new((*d).view_expr())),
                    None => None,
                },
            ),
        }
    }
}

impl OmlExprIfAnno {
    pub open spec fn view_anno(self) -> ExprV
        decreases self, 1nat,
    {
        ExprV::Anno(
            view_pairs(self.exprs@),
            match self.default {
                Some(d) => Some(Box::new((*d).view_expr())),
                None => None,
            },
        )
    }
}

pub proof fn lemma_view_exprs(s: Seq<OmlExpr>)
    ensures
        view_exprs(s).len() == s.len(),
        forall|i: int| 0 <= i < s.len() ==> #[trigger] view_exprs(s)[i] == s[i].view_expr(),
    decreases s.len(),
{
    if s.len() > 0 {
        lemma_view_exprs(s.drop_last());
    }
}

pub proof fn lemma_view_fields(s: Seq<(String, OmlExpr)>)
    ensures
        view_fields(s).len() == s.len(),
        forall|i: int|
            0 <= i < s.len() ==> #[trigger] view_fields(s)[i] == (s[i].0@, s[i].1.view_expr()),
    decreases s.len(),
{
    if s.len() > 0 {
        lemma_view_fields(s.drop_last());
    }
}

pub proof fn lemma_view_pairs(s: Seq<(OmlExpr, OmlExpr)>)
    ensures
        view_pairs(s).len() == s.len(),
        forall|i: int|
            0 <= i < s.len() ==> #[trigger] view_pairs(s)[i] == (s[i].0.view_expr(), s[i].1.view_expr()),
    decreases s.len(),
{
    if s.len() > 0 {
        lemma_view_pairs(s.drop_last());
    }
}

/// The outcome of one evaluation: the value and whether it is fully
/// resolved, or a fatal error with its message.
pub type Outcome = Result<(Val, bool), Seq<char>>;

/// The message of a ternary whose condition is not a boolean.
pub open spec fn cond_msg() -> Seq<char> {
    "condition must be boolean."@
}

/// The message of a format string that embeds a float.
pub open spec fn float_msg() -> Seq<char> {
    "a float cannot be rendered here."@
}

/// The message of a document that still has an unresolved reference when
/// the pass budget is spent.
pub open spec fn non_convergence_msg() -> Seq<char> {
    "evalute failed."@
}

/// The steps of a dotted name.
pub open spec fn name_steps(names: Seq<Seq<char>>) -> Seq<Step> {
    Seq::new(names.len(), |i: int| Step::Key(names[i]))
}

/// The path that a name reference at `path` looks up: the parent of `path`
/// followed by the name's parts.
pub open spec fn ref_path(path: Seq<Step>, names: Seq<Seq<char>>) -> Seq<Step> {
    parent_of(path) + name_steps(names)
}

/// One evaluation pass of `e` at `path` against the snapshot `snap`.
pub open spec fn eval_spec(e: ExprV, path: Seq<Step>, snap: Val) -> Outcome
    decreases e, 2nat, 0int,
{
    match e {
        ExprV::Null => Ok((Val::Absent, true)),
        ExprV::Value(v) => Ok((v, true)),
        ExprV::Array(a) => match eval_items(a, path, snap) {
            Ok((vs, ok)) => Ok((Val::Arr(vs), ok)),
            Err(u) => Err(u),
        },
        ExprV::Dict(m) => match eval_fields(m, path, snap) {
            Ok((es, ok)) => Ok((Val::Dict(es), ok)),
            Err(u) => Err(u),
        },
        // a found absent value is a placeholder, not a resolution
        ExprV::Name(names) => match lookup(snap, ref_path(path, names)) {
            Some(v) => Ok((v, !(v is Absent))),
            None => Ok((Val::Absent, false)),
        },
        ExprV::Prefix(op, x) => match eval_spec(*x, path, snap) {
            Ok((v, true)) => match prefix_spec(op, v) {
                Some(r) => Ok((r, true)),
                None => Err(illegal_msg(unary_symbol_spec(op))),
            },
            Ok((_, false)) => Ok((Val::Absent, false)),
            Err(u) => Err(u),
        },
        ExprV::Suffix(x, op) => match eval_spec(*x, path, snap) {
            Ok((v, true)) => match suffix_spec(op, v) {
                Some(r) => Ok((r, true)),
                None => Err(illegal_msg(unary_symbol_spec(op))),
            },
            Ok((_, false)) => Ok((Val::Absent, false)),
            Err(u) => Err(u),
        },
        ExprV::Op2(l, op, r) => match (eval_spec(*l, path, snap), eval_spec(*r, path, snap)) {
            (Err(m), _) => Err(m),
            (Ok(_), Err(m)) => Err(m),
            (Ok((a, true)), Ok((b, true))) => match op2_spec(a, op, b) {
                Some(x) => Ok((x, true)),
                None => Err(illegal_msg(symbol_spec(op))),
            },
            (Ok(_), Ok(_)) => Ok((Val::Absent, false)),
        },
        ExprV::Op3(c, t, f) => match eval_spec(*c, path, snap) {
            Ok((Val::Bool(b), true)) => if b {
                eval_spec(*t, path, snap)
            } else {
                eval_spec(*f, path, snap)
            },
            Ok((_, true)) => Err(cond_msg()),
            Ok((_, false)) => Ok((Val::Absent, false)),
            Err(u) => Err(u),
        },
        ExprV::Format(strs, xs) => match eval_list(xs, path, snap) {
            Ok((vs, true)) => match fmt_spec(strs, vs) {
                Some(s) => Ok((Val::Str(s), true)),
                None => Err(float_msg()),
            },
            Ok((_, false)) => Ok((Val::Absent, false)),
            Err(u) => Err(u),
        },
        ExprV::Anno(_, _) => eval_anno(e, 0, path, snap),
    }
}

/// The elements of a sequence, each at its own index under `path`.
pub open spec fn eval_items(s: Seq<ExprV>, path: Seq<Step>, snap: Val) -> Result<
    (Seq<Val>, bool),
    Seq<char>,
>
    decreases s, 1nat, 0int,
{
    if s.len() == 0 {
        Ok((Seq::empty(), true))
    } else {
        match (
            eval_items(s.drop_last(), path, snap),
            eval_spec(s.last(), path.push(Step::Index((s.len() - 1) as nat)), snap),
        ) {
            (Ok((vs, a)), Ok((v, b))) => Ok((vs.push(v), a && b)),
            (Err(m), _) => Err(m),
            (Ok(_), Err(m)) => Err(m),
        }
    }
}

/// The entries of a map, each at its key under `path`.
pub open spec fn eval_fields(s: Seq<(Seq<char>, ExprV)>, path: Seq<Step>, snap: Val) -> Result<
    (Seq<(Seq<char>, Val)>, bool),
    Seq<char>,
>
    decreases s, 1nat, 0int,
{
    if s.len() == 0 {
        Ok((Seq::empty(), true))
    } else {
        match (
            eval_fields(s.drop_last(), path, snap),
            eval_spec(s.last().1, path.push(Step::Key(s.last().0)), snap),
        ) {
            (Ok((es, a)), Ok((v, b))) => Ok((es.push((s.last().0, v)), a && b)),
            (Err(m), _) => Err(m),
            (Ok(_), Err(m)) => Err(m),
        }
    }
}

/// Expressions that all stand at `path` (those embedded in a format string).
pub open spec fn eval_list(s: Seq<ExprV>, path: Seq<Step>, snap: Val) -> Result<
    (Seq<Val>, bool),
    Seq<char>,
>
    decreases s, 1nat, 0int,
{
    if s.len() == 0 {
        Ok((Seq::empty(), true))
    } else {
        match (eval_list(s.drop_last(), path, snap), eval_spec(s.last(), path, snap)) {
            (Ok((vs, a)), Ok((v, b))) => Ok((vs.push(v), a && b)),
            (Err(m), _) => Err(m),
            (Ok(_), Err(m)) => Err(m),
        }
    }
}

/// The guarded variants of an annotation node from the `i`-th on, in order:
/// the first guard that is resolved and true gives the value; an unresolved
/// guard stops the scan; with no guard true the fallback, if any, gives it,
/// else absence.
pub open spec fn eval_anno(e: ExprV, i: int, path: Seq<Step>, snap: Val) -> Outcome
    decreases e, 1nat, anno_len(e) - i,
{
    match e {
        ExprV::Anno(ps, d) => if i < 0 || i >= ps.len() {
            match d {
                Some(x) => eval_spec(*x, path, snap),
                None => Ok((Val::Absent, true)),
            }
        } else {
            match eval_spec(ps[i].0, path, snap) {
                Ok((c, true)) => if c == Val::Bool(true) {
                    eval_spec(ps[i].1, path, snap)
                } else {
                    eval_anno(e, i + 1, path, snap)
                },
                Ok((_, false)) => Ok((Val::Absent, false)),
                Err(u) => Err(u),
            }
        },
        _ => Ok((Val::Absent, true)),
    }
}

pub open spec fn anno_len(e: ExprV) -> int {
    match e {
        ExprV::Anno(ps, _) => ps.len() as int,
        _ => 0,
    }
}

/// The text of a format string: each fragment followed by the rendering of
/// the value embedded after it.
pub open spec fn fmt_spec(strs: Seq<Seq<char>>, vs: Seq<Val>) -> Option<Seq<char>> {
    fmt_upto(strs, vs, if strs.len() <= vs.len() + 1 { strs.len() as int } else { (vs.len() + 1) as int })
}

pub open spec fn fmt_upto(strs: Seq<Seq<char>>, vs: Seq<Val>, k: int) -> Option<Seq<char>>
    decreases k,
{
    if k <= 0 {
        Some(Seq::empty())
    } else {
        let piece = if k - 1 < vs.len() {
            render(vs[k - 1])
        } else {
            Some(Seq::empty())
        };
        match (fmt_upto(strs, vs, k - 1), piece) {
            (Some(a), Some(b)) => Some(a + strs[k - 1] + b),
            _ => None,
        }
    }
}

/// An exec outcome agrees with its model.
pub open spec fn agrees(r: Result<(OmlValue, bool), String>, s: Outcome) -> bool {
    match (r, s) {
        (Ok((v, b)), Ok((sv, sb))) => v.view_val() == sv && b == sb,
        (Err(m), Err(sm)) => m@ == sm,
        _ => false,
    }
}

proof fn lemma_items_prefix_err(s: Seq<ExprV>, path: Seq<Step>, snap: Val, k: int)
    requires
        0 <= k <= s.len(),
        eval_items(s.subrange(0, k), path, snap) is Err,
    ensures
        eval_items(s, path, snap) == eval_items(s.subrange(0, k), path, snap),
    decreases s.len(),
{
    if k < s.len() {
        assert(s.drop_last().subrange(0, k) =~= s.subrange(0, k));
        lemma_items_prefix_err(s.drop_last(), path, snap, k);
    } else {
        assert(s.subrange(0, k) =~= s);
    }
}

proof fn lemma_fields_prefix_err(s: Seq<(Seq<char>, ExprV)>, path: Seq<Step>, snap: Val, k: int)
    requires
        0 <= k <= s.len(),
        eval_fields(s.subrange(0, k), path, snap) is Err,
    ensures
        eval_fields(s, path, snap) == eval_fields(s.subrange(0, k), path, snap),
    decreases s.len(),
{
    if k < s.len() {
        assert(s.drop_last().subrange(0, k) =~= s.subrange(0, k));
        lemma_fields_prefix_err(s.drop_last(), path, snap, k);
    } else {
        assert(s.subrange(0, k) =~= s);
    }
}

proof fn lemma_list_prefix_err(s: Seq<ExprV>, path: Seq<Step>, snap: Val, k: int)
    requires
        0 <= k <= s.len(),
        eval_list(s.subrange(0, k), path, snap) is Err,
    ensures
        eval_list(s, path, snap) == eval_list(s.subrange(0, k), path, snap),
    decreases s.len(),
{
    if k < s.len() {
        assert(s.drop_last().subrange(0, k) =~= s.subrange(0, k));
        lemma_list_prefix_err(s.drop_last(), path, snap, k);
    } else {
        assert(s.subrange(0, k) =~= s);
    }
}

proof fn lemma_fmt_prefix_none(strs: Seq<Seq<char>>, vs: Seq<Val>, k: int, n: int)
    requires
        0 <= k <= n,
        fmt_upto(strs, vs, k) is None,
    ensures
        fmt_upto(strs, vs, n) is None,
    decreases n - k,
{
    if k < n {
        lemma_fmt_prefix_none(strs, vs, k, n - 1);
    }
}

impl OmlExpr {
    /// One evaluation pass of this expression at `path` against the snapshot
    /// `snap`: the value and whether every reference in it was found.
    pub fn evalute2(&self, path: &Vec<Seg>, snap: &OmlValue) -> (r: Result<(OmlValue, bool), String>)
        ensures
            agrees(r, eval_spec(self.view_expr(), view_path(path@), snap.view_val())),
        decreases self, 2nat, 0int,
    {
        match self {
            OmlExpr::Null => Ok((OmlValue::Null, true)),
            OmlExpr::Value(v) => Ok((v.duplicate(), true)),
            OmlExpr::Array(a) => match eval_items_exec(a, path, snap) {
                Ok((vs, ok)) => Ok((OmlValue::Array(vs), ok)),
                Err(e) => Err(e),
            },
            OmlExpr::Dict(m) => match eval_fields_exec(m, path, snap) {
                Ok((es, ok)) => Ok((OmlValue::Dict(es), ok)),
                Err(e) => Err(e),
            },
            OmlExpr::TempName(names) => {
                let p = reference_path(path, names);
                match snap.lookup_path(&p) {
                    Some(v) => {
                        let found = !v.is_none();
                        Ok((v.duplicate(), found))
                    },
                    None => Ok((OmlValue::Null, false)),
                }
            },
            OmlExpr::Op1Prefix(op, x) => match x.evalute2(path, snap) {
                Ok((v, true)) => match Op1Evaluator::eval_prefix(*op, v) {
                    Ok(r) => Ok((r, true)),
                    Err(e) => Err(e),
                },
                Ok((_, false)) => Ok((OmlValue::Null, false)),
                Err(e) => Err(e),
            },
            OmlExpr::Op1Suffix(x, op) => match x.evalute2(path, snap) {
                Ok((v, true)) => match Op1Evaluator::eval_suffix(*op, v) {
                    Ok(r) => Ok((r, true)),
                    Err(e) => Err(e),
                },
                Ok((_, false)) => Ok((OmlValue::Null, false)),
                Err(e) => Err(e),
            },
            OmlExpr::Op2(l, op, r) => {
                let (a, ok_a) = match l.evalute2(path, snap) {
                    Ok(x) => x,
                    Err(e) => return Err(e),
                };
                let (b, ok_b) = match r.evalute2(path, snap) {
                    Ok(x) => x,
                    Err(e) => return Err(e),
                };
                if ok_a && ok_b {
                    match Op2Evaluator::eval(a, *op, b) {
                        Ok(x) => Ok((x, true)),
                        Err(e) => Err(e),
                    }
                } else {
                    Ok((OmlValue::Null, false))
                }
            },
            OmlExpr::Op3(c, t, f) => match c.evalute2(path, snap) {
                Ok((OmlValue::Bool(b), true)) => if b {
                    t.evalute2(path, snap)
                } else {
                    f.evalute2(path, snap)
                },
                Ok((_, true)) => Err(String::from_str("condition must be boolean.")),
                Ok((_, false)) => Ok((OmlValue::Null, false)),
                Err(e) => Err(e),
            },
            OmlExpr::FormatString(strs, exprs) => match eval_list_exec(exprs, path, snap) {
                Ok((vs, true)) => match format_text(strs, &vs) {
                    Some(s) => Ok((OmlValue::String(s), true)),
                    None => Err(String::from_str("a float cannot be rendered here.")),
                },
                Ok((_, false)) => Ok((OmlValue::Null, false)),
                Err(e) => Err(e),
            },
            OmlExpr::IfAnno(a) => eval_anno_exec(a, path, snap),
        }
    }
}

/// The path that a reference by `names` at `path` looks up.
fn reference_path(path: &Vec<Seg>, names: &Vec<String>) -> (r: Vec<Seg>)
    ensures
        view_path(r@) == ref_path(view_path(path@), view_strings(names@)),
{
    let mut p = parent_path(path);
    let ghost base = view_path(p@);
    let ghost ns = view_strings(names@);
    let mut j: usize = 0;
    while j < names.len()
        invariant
            j <= names.len(),
            ns == view_strings(names@),
            view_path(p@) == base + name_steps(ns.subrange(0, j as int)),
            base == parent_of(view_path(path@)),
        decreases names.len() - j,
    {
        let ghost before = view_path(p@);
        let k = names[j].clone();
        p.push(Seg::Key(k));
        assert(view_path(p@) =~= before.push(Step::Key(ns[j as int])));
        assert(name_steps(ns.subrange(0, j + 1)) =~= name_steps(ns.subrange(0, j as int)).push(Step::Key(ns[j as int])));
        j += 1;
        assert(view_path(p@) =~= base + name_steps(ns.subrange(0, j as int)));
    }
    assert(ns.subrange(0, j as int) =~= ns);
    p
}

fn eval_items_exec(a: &Vec<OmlExpr>, path: &Vec<Seg>, snap: &OmlValue) -> (r: Result<(Vec<OmlValue>, bool), String>)
    ensures
        match (r, eval_items(view_exprs(a@), view_path(path@), snap.view_val())) {
            (Ok((vs, b)), Ok((svs, sb))) => view_values(vs@) == svs && b == sb,
            (Err(m), Err(sm)) => m@ == sm,
            _ => false,
        },
    decreases a, 1nat, 0int,
{
    let ghost vp = view_path(path@);
    let ghost sv = snap.view_val();
    let ghost xs = view_exprs(a@);
    proof {
        lemma_view_exprs(a@);
    }
    let mut out: Vec<OmlValue> = Vec::new();
    let mut all_ok = true;
    let mut i: usize = 0;
    while i < a.len()
        invariant
            i <= a.len(),
            vp == view_path(path@),
            sv == snap.view_val(),
            xs == view_exprs(a@),
            xs.len() == a@.len(),
            forall|j: int| 0 <= j < a@.len() ==> #[trigger] xs[j] == a@[j].view_expr(),
            eval_items(xs.subrange(0, i as int), vp, sv) == Ok::<(Seq<Val>, bool), Seq<char>>((view_values(out@), all_ok)),
        decreases a.len() - i,
    {
        assert(xs.subrange(0, i + 1).drop_last() =~= xs.subrange(0, i as int));
        assert(xs.subrange(0, i + 1).last() == xs[i as int]);
        let child = child_path(path, Seg::Index(i));
        assert(decreases_to!(a => a[i as int]));
        match a[i].evalute2(&child, snap) {
            Ok((v, b)) => {
                proof {
                    lemma_view_values_push(out@, v);
                }
                out.push(v);
                all_ok = all_ok && b;
            },
            Err(e) => {
                proof {
                    lemma_items_prefix_err(xs, vp, sv, i + 1);
                }
                return Err(e);
            },
        }
        i += 1;
    }
    assert(xs.subrange(0, i as int) =~= xs);
    Ok((out, all_ok))
}

fn eval_fields_exec(m: &Vec<(String, OmlExpr)>, path: &Vec<Seg>, snap: &OmlValue) -> (r: Result<(Vec<(String, OmlValue)>, bool), String>)
    ensures
        match (r, eval_fields(view_fields(m@), view_path(path@), snap.view_val())) {
            (Ok((es, b)), Ok((ses, sb))) => view_entries(es@) == ses && b == sb,
            (Err(m), Err(sm)) => m@ == sm,
            _ => false,
        },
    decreases m, 1nat, 0int,
{
    let ghost vp = view_path(path@);
    let ghost sv = snap.view_val();
    let ghost fs = view_fields(m@);
    proof {
        lemma_view_fields(m@);
    }
    let mut out: Vec<(String, OmlValue)> = Vec::new();
    let mut all_ok = true;
    let mut i: usize = 0;
    while i < m.len()
        invariant
            i <= m.len(),
            vp == view_path(path@),
            sv == snap.view_val(),
            fs == view_fields(m@),
            fs.len() == m@.len(),
            forall|j: int| 0 <= j < m@.len() ==> #[trigger] fs[j] == (m@[j].0@, m@[j].1.view_expr()),
            eval_fields(fs.subrange(0, i as int), vp, sv) == Ok::<(Seq<(Seq<char>, Val)>, bool), Seq<char>>((view_entries(out@), all_ok)),
        decreases m.len() - i,
    {
        assert(fs.subrange(0, i + 1).drop_last() =~= fs.subrange(0, i as int));
        assert(fs.subrange(0, i + 1).last() == fs[i as int]);
        let child = child_path(path, Seg::Key(m[i].0.clone()));
        assert(decreases_to!(m => m[i as int]));
        match m[i].1.evalute2(&child, snap) {
            Ok((v, b)) => {
                let k = m[i].0.clone();
                proof {
                    lemma_view_entries_push(out@, (k, v));
                }
                out.push((k, v));
                all_ok = all_ok && b;
            },
            Err(e) => {
                proof {
                    lemma_fields_prefix_err(fs, vp, sv, i + 1);
                }
                return Err(e);
            },
        }
        i += 1;
    }
    assert(fs.subrange(0, i as int) =~= fs);
    Ok((out, all_ok))
}

fn eval_list_exec(a: &Vec<OmlExpr>, path: &Vec<Seg>, snap: &OmlValue) -> (r: Result<(Vec<OmlValue>, bool), String>)
    ensures
        match (r, eval_list(view_exprs(a@), view_path(path@), snap.view_val())) {
            (Ok((vs, b)), Ok((svs, sb))) => view_values(vs@) == svs && b == sb,
            (Err(m), Err(sm)) => m@ == sm,
            _ => false,
        },
    decreases a, 1nat, 0int,
{
    let ghost vp = view_path(path@);
    let ghost sv = snap.view_val();
    let ghost xs = view_exprs(a@);
    proof {
        lemma_view_exprs(a@);
    }
    let mut out: Vec<OmlValue> = Vec::new();
    let mut all_ok = true;
    let mut i: usize = 0;
    while i < a.len()
        invariant
            i <= a.len(),
            vp == view_path(path@),
            sv == snap.view_val(),
            xs == view_exprs(a@),
            xs.len() == a@.len(),
            forall|j: int| 0 <= j < a@.len() ==> #[trigger] xs[j] == a@[j].view_expr(),
            eval_list(xs.subrange(0, i as int), vp, sv) == Ok::<(Seq<Val>, bool), Seq<char>>((view_values(out@), all_ok)),
        decreases a.len() - i,
    {
        assert(xs.subrange(0, i + 1).drop_last() =~= xs.subrange(0, i as int));
        assert(xs.subrange(0, i + 1).last() == xs[i as int]);
        assert(decreases_to!(a => a[i as int]));
        match a[i].evalute2(path, snap) {
            Ok((v, b)) => {
                proof {
                    lemma_view_values_push(out@, v);
                }
                out.push(v);
                all_ok = all_ok && b;
            },
            Err(e) => {
                proof {
                    lemma_list_prefix_err(xs, vp, sv, i + 1);
                }
                return Err(e);
            },
        }
        i += 1;
    }
    assert(xs.subrange(0, i as int) =~= xs);
    Ok((out, all_ok))
}

fn eval_anno_exec(a: &OmlExprIfAnno, path: &Vec<Seg>, snap: &OmlValue) -> (r: Result<(OmlValue, bool), String>)
    ensures
        agrees(r, eval_anno(a.view_anno(), 0, view_path(path@), snap.view_val())),
    decreases a, 1nat, 0int,
{
    let ghost vp = view_path(path@);
    let ghost sv = snap.view_val();
    let ghost e = a.view_anno();
    let ghost ps = view_pairs(a.exprs@);
    proof {
        lemma_view_pairs(a.exprs@);
    }
    let mut i: usize = 0;
    while i < a.exprs.len()
        invariant
            i <= a.exprs@.len(),
            vp == view_path(path@),
            sv == snap.view_val(),
            e == a.view_anno(),
            ps == view_pairs(a.exprs@),
            ps.len() == a.exprs@.len(),
            forall|j: int| 0 <= j < a.exprs@.len() ==> #[trigger] ps[j] == (a.exprs@[j].0.view_expr(), a.exprs@[j].1.view_expr()),
            eval_anno(e, 0, vp, sv) == eval_anno(e, i as int, vp, sv),
        decreases a.exprs.len() - i,
    {
        assert(decreases_to!(a => a.exprs@[i as int].0));
        match a.exprs[i].0.evalute2(path, snap) {
            Ok((c, true)) => {
                let is_true = match c {
                    OmlValue::Bool(b) => b,
                    _ => false,
                };
                if is_true {
                    assert(decreases_to!(a => a.exprs@[i as int].1));
                    return a.exprs[i].1.evalute2(path, snap);
                }
            },
            Ok((_, false)) => {
                return Ok((OmlValue::Null, false));
            },
            Err(e) => {
                return Err(e);
            },
        }
        i += 1;
    }
    match &a.default {
        Some(d) => d.evalute2(path, snap),
        None => Ok((OmlValue::Null, true)),
    }
}

/// The text of a format string whose embedded values are `vs`; `None` where
/// one of them holds a float.
fn format_text(strs: &Vec<String>, vs: &Vec<OmlValue>) -> (r: Option<String>)
    ensures
        match (r, fmt_spec(view_strings(strs@), view_values(vs@))) {
            (Some(s), Some(t)) => s@ == t,
            (None, None) => true,
            _ => false,
        },
{
    let ghost svs = view_values(vs@);
    let ghost ss = view_strings(strs@);
    proof {
        lemma_view_values(vs@);
    }
    let n: usize = if strs.len() <= vs.len() {
        strs.len()
    } else {
        vs.len() + 1
    };
    let mut out = String::new();
    let mut k: usize = 0;
    while k < n
        invariant
            k <= n,
            n == if ss.len() <= svs.len() + 1 { ss.len() as int } else { (svs.len() + 1) as int },
            svs == view_values(vs@),
            ss == view_strings(strs@),
            svs.len() == vs@.len(),
            forall|j: int| 0 <= j < vs@.len() ==> #[trigger] svs[j] == vs@[j].view_val(),
            fmt_upto(ss, svs, k as int) == Some(out@),
        decreases n - k,
    {
        let ghost before = out@;
        out.append(strs[k].as_str());
        if k < vs.len() {
            if !vs[k].render_into(&mut out) {
                proof {
                    lemma_fmt_prefix_none(ss, svs, k + 1, n as int);
                }
                return None;
            }
        }
        assert(out@ =~= before + ss[k as int] + (if (k as int) < svs.len() { render(svs[k as int])->0 } else { Seq::empty() }));
        k += 1;
    }
    Some(out)
}

/// The number of evaluation passes after which a document that still has an
/// unresolved reference fails.
pub const PASS_BUDGET: usize = 3;

/// Up to `n` passes, each against the previous pass's output.
pub open spec fn passes(e: ExprV, snap: Val, n: nat) -> Result<Val, Seq<char>>
    decreases n,
{
    if n == 0 {
        Err(non_convergence_msg())
    } else {
        match eval_spec(e, Seq::empty(), snap) {
            Ok((v, true)) => Ok(v),
            Ok((v, false)) => passes(e, v, (n - 1) as nat),
            Err(m) => Err(m),
        }
    }
}

/// The fixed-point evaluation of a document: passes from an all-absent
/// snapshot, within the budget.
pub open spec fn evaluate_spec(e: ExprV) -> Result<Val, Seq<char>> {
    passes(e, Val::Absent, PASS_BUDGET as nat)
}

impl OmlExpr {
    /// Resolves this document to a value by repeated passes, each against the
    /// output of the one before.
    ///
    /// A reference counts as resolved only where it finds a value that is not
    /// absent: an absent value in the snapshot is the placeholder of a field
    /// that did not resolve, so a field that refers to itself, or a cycle of
    /// fields, ends in the "evalute failed." error. The same holds for a
    /// reference to a field whose value is itself absent (a guarded field with
    /// no guard true and no fallback): it never resolves either.
    pub fn evalute(&self) -> (r: Result<OmlValue, String>)
        ensures
            r is Ok <==> evaluate_spec(self.view_expr()) is Ok,
            r matches Ok(v) ==> evaluate_spec(self.view_expr()) == Ok::<Val, Seq<char>>(v.view_val()),
            r matches Err(m) ==> evaluate_spec(self.view_expr()) == Err::<Val, Seq<char>>(m@),
            r matches Ok(v) ==> (wf_expr(self.view_expr()) ==> wf_val(v.view_val())),
    {
        proof {
            if wf_expr(self.view_expr()) {
                lemma_evaluate_wf(self.view_expr());
            }
        }
        let mut last = OmlValue::Null;
        let mut count: usize = PASS_BUDGET;
        let root: Vec<Seg> = Vec::new();
        assert(view_path(root@) =~= Seq::<Step>::empty());
        while count > 0
            invariant
                passes(self.view_expr(), last.view_val(), count as nat) == evaluate_spec(self.view_expr()),
                wf_expr(self.view_expr()) ==> (evaluate_spec(self.view_expr()) matches Ok(v) ==> wf_val(v)),
                view_path(root@) == Seq::<Step>::empty(),
            decreases count,
        {
            match self.evalute2(&root, &last) {
                Ok((v, true)) => {
                    return Ok(v);
                },
                Ok((v, false)) => {
                    last = v;
                },
                Err(e) => {
                    return Err(e);
                },
            }
            count -= 1;
        }
        Err(String::from_str("evalute failed."))
    }
}

/// Index of the first field with key `k`.
pub open spec fn field_index(m: Seq<(Seq<char>, ExprV)>, k: Seq<char>) -> Option<int>
    decreases m.len(),
{
    if m.len() == 0 {
        None
    } else if m[0].0 == k {
        Some(0)
    } else {
        match field_index(m.drop_first(), k) {
            Some(i) => Some(i + 1),
            None => None,
        }
    }
}

pub proof fn lemma_field_index(m: Seq<(Seq<char>, ExprV)>, k: Seq<char>)
    ensures
        field_index(m, k) matches Some(i) ==> 0 <= i < m.len() && m[i].0 == k && forall|j: int|
            0 <= j < i ==> m[j].0 != k,
        field_index(m, k) is None ==> forall|j: int| 0 <= j < m.len() ==> m[j].0 != k,
    decreases m.len(),
{
    if m.len() > 0 {
        lemma_field_index(m.drop_first(), k);
        if m[0].0 != k {
            assert forall|j: int| 1 <= j < m.len() implies m[j].0 == m.drop_first()[j - 1].0 by {}
        }
    }
}

proof fn lemma_field_index_first(m: Seq<(Seq<char>, ExprV)>, k: Seq<char>, i: int)
    requires
        0 <= i <= m.len(),
        forall|j: int| 0 <= j < i ==> m[j].0 != k,
    ensures
        i < m.len() && m[i].0 == k ==> field_index(m, k) == Some(i),
        i == m.len() ==> field_index(m, k) is None,
{
    lemma_field_index(m, k);
}

/// How the builder combines two definitions of the same place in a document.
///
/// An absent target takes the incoming definition. A sequence target takes
/// the elements of an incoming sequence, or an incoming non-sequence as one
/// more element. Two maps merge key by key. Two annotation nodes join their
/// guarded variants in order; an annotation node takes a plain incoming value
/// as its fallback only if it has none yet. Otherwise the incoming definition
/// replaces the target.
pub open spec fn merge_expr(t: ExprV, v: ExprV) -> ExprV
    decreases v, 2nat,
{
    match t {
        ExprV::Null => v,
        ExprV::Array(a) => match v {
            ExprV::Array(b) => ExprV::Array(a + b),
            _ => ExprV::Array(a.push(v)),
        },
        ExprV::Dict(m) => match v {
            ExprV::Dict(m2) => ExprV::Dict(merge_fields(m, m2)),
            _ => v,
        },
        ExprV::Anno(ps, d) => match v {
            ExprV::Anno(ps2, _) => ExprV::Anno(ps + ps2, d),
            _ => match d {
                None => ExprV::Anno(ps, Some(Box::new(v))),
                Some(_) => t,
            },
        },
        _ => v,
    }
}

pub open spec fn merge_fields(m: Seq<(Seq<char>, ExprV)>, incs: Seq<(Seq<char>, ExprV)>) -> Seq<
    (Seq<char>, ExprV),
>
    decreases incs, 1nat,
{
    if incs.len() == 0 {
        m
    } else {
        merge_fields(merge_field(m, incs[0]), incs.drop_first())
    }
}

pub open spec fn merge_field(m: Seq<(Seq<char>, ExprV)>, e: (Seq<char>, ExprV)) -> Seq<
    (Seq<char>, ExprV),
>
    decreases e, 0nat,
{
    match field_index(m, e.0) {
        Some(i) => if 0 <= i < m.len() {
            m.update(i, (e.0, merge_expr(m[i].1, e.1)))
        } else {
            m
        },
        None => m.push(e),
    }
}

pub fn find_field(m: &Vec<(String, OmlExpr)>, k: &String) -> (r: Option<usize>)
    ensures
        r matches Some(i) ==> field_index(view_fields(m@), k@) == Some(i as int),
        r is None ==> field_index(view_fields(m@), k@) is None,
{
    proof {
        lemma_view_fields(m@);
    }
    let mut i: usize = 0;
    while i < m.len()
        invariant
            i <= m.len(),
            view_fields(m@).len() == m.len(),
            forall|j: int| 0 <= j < m.len() ==> #[trigger] view_fields(m@)[j] == (m@[j].0@, m@[j].1.view_expr()),
            forall|j: int| 0 <= j < i ==> (#[trigger] view_fields(m@)[j]).0 != k@,
        decreases m.len() - i,
    {
        if m[i].0 == *k {
            proof {
                lemma_field_index_first(view_fields(m@), k@, i as int);
            }
            return Some(i);
        }
        assert(view_fields(m@)[i as int].0 != k@);
        i += 1;
    }
    proof {
        lemma_field_index_first(view_fields(m@), k@, i as int);
    }
    None
}

impl OmlExpr {
    /// Combines the definition `val` into this one by the builder's merge rule.
    pub fn apply(&mut self, val: OmlExpr)
        ensures
            final(self).view_expr() == merge_expr(old(self).view_expr(), val.view_expr()),
        decreases val, 2nat,
    {
        let mut cur = OmlExpr::Null;
        std::mem::swap(self, &mut cur);
        let ghost tv = cur.view_expr();
        let ghost vv = val.view_expr();
        match cur {
            OmlExpr::Null => {
                *self = val;
                assert(self.view_expr() == merge_expr(tv, vv));
            },
            OmlExpr::Array(mut a) => {
                match val {
                    OmlExpr::Array(mut b) => {
                        let ghost a0 = a@;
                        let ghost b0 = b@;
                        a.append(&mut b);
                        proof {
                            lemma_view_exprs(a0);
                            lemma_view_exprs(b0);
                            lemma_view_exprs(a@);
                            assert(view_exprs(a@) =~= view_exprs(a0) + view_exprs(b0));
                        }
                    },
                    other => {
                        proof {
                            assert(a@.push(other).drop_last() =~= a@);
                            assert(a@.push(other).last() == other);
                            assert(view_exprs(a@.push(other)) == view_exprs(a@).push(other.view_expr()));
                        }
                        a.push(other);
                    },
                }
                *self = OmlExpr::Array(a);
                assert(self.view_expr() == merge_expr(tv, vv));
            },
            OmlExpr::Dict(mut m) => match val {
                OmlExpr::Dict(m2) => {
                    apply_fields(&mut m, m2);
                    *self = OmlExpr::Dict(m);
                },
                other => {
                    *self = other;
                },
            },
            OmlExpr::IfAnno(mut x) => {
                match val {
                    OmlExpr::IfAnno(y) => {
                        let ghost yv = y.view_anno();
                        let ghost xv = x.view_anno();
                        let mut ys = y.exprs;
                        let ghost a0 = x.exprs@;
                        let ghost b0 = ys@;
                        x.exprs.append(&mut ys);
                        proof {
                            lemma_view_pairs(a0);
                            lemma_view_pairs(b0);
                            lemma_view_pairs(x.exprs@);
                            assert(view_pairs(x.exprs@) =~= view_pairs(a0) + view_pairs(b0));
                            assert(x.view_anno() == merge_expr(xv, yv));
                        }
                    },
                    other => {
                        let ghost xv = x.view_anno();
                        if x.default.is_none() {
                            x.default = Some(Box::new(other));
                        }
                        assert(x.view_anno() == merge_expr(xv, other.view_expr()));
                    },
                }
                *self = OmlExpr::IfAnno(x);
                assert(self.view_expr() == merge_expr(tv, vv));
            },
            _ => {
                *self = val;
                assert(self.view_expr() == merge_expr(tv, vv));
            },
        }
    }
}

/// Merges the incoming fields into `m`, in their order.
fn apply_fields(m: &mut Vec<(String, OmlExpr)>, incoming: Vec<(String, OmlExpr)>)
    ensures
        view_fields(final(m)@) == merge_fields(view_fields(old(m)@), view_fields(incoming@)),
    decreases incoming, 1nat,
{
    let ghost incs0 = incoming;
    let mut incs = incoming;
    let ghost mut k: int = 0;
    proof {
        lemma_view_fields(incs0@);
    }
    while incs.len() > 0
        invariant
            0 <= k <= incs0@.len(),
            incs0 == incoming,
            incs@ == incs0@.subrange(k, incs0@.len() as int),
            view_fields(incs0@).len() == incs0@.len(),
            forall|j: int| 0 <= j < incs0@.len() ==> #[trigger] view_fields(incs0@)[j] == (incs0@[j].0@, incs0@[j].1.view_expr()),
            merge_fields(view_fields(m@), view_fields(incs@)) == merge_fields(
                view_fields(old(m)@),
                view_fields(incs0@),
            ),
        decreases incs.len(),
    {
        let ghost before = incs@;
        let ghost m_before = m@;
        let (key, val) = incs.remove(0);
        proof {
            assert((key, val) == incs0@[k]);
            assert(decreases_to!(incs0 => incs0[k]));
            assert(decreases_to!(incs0 => val));
            lemma_view_fields(before);
            lemma_view_fields(incs@);
            assert(view_fields(incs@) =~= view_fields(before).drop_first());
            lemma_view_fields(m@);
            lemma_field_index(view_fields(m@), key@);
        }
        match find_field(m, &key) {
            Some(i) => {
                let ghost m0 = m@;
                let (k2, mut t) = m.remove(i);
                t.apply(val);
                m.insert(i, (k2, t));
                proof {
                    assert(m@ =~= m0.update(i as int, (k2, t)));
                    lemma_view_fields(m@);
                    assert(view_fields(m@) =~= view_fields(m0).update(i as int, (k2@, t.view_expr())));
                }
            },
            None => {
                proof {
                    assert(m@.push((key, val)).drop_last() =~= m@);
                }
                m.push((key, val));
            },
        }
        assert(view_fields(m@) == merge_field(view_fields(m_before), (key@, val.view_expr())));
        assert(view_fields(before)[0] == (key@, val.view_expr()));
        proof {
            k = k + 1;
            assert(incs@ =~= incs0@.subrange(k, incs0@.len() as int));
        }
    }
    proof {
        assert(view_fields(incs@) =~= Seq::empty());
    }
}

impl OmlExpr {
    /// A deep copy.
    pub fn duplicate(&self) -> (r: OmlExpr)
        ensures
            r.view_expr() == self.view_expr(),
        decreases self, 2nat,
    {
        match self {
            OmlExpr::Null => OmlExpr::Null,
            OmlExpr::Value(v) => OmlExpr::Value(v.duplicate()),
            OmlExpr::Array(a) => OmlExpr::Array(duplicate_exprs(a)),
            OmlExpr::Dict(m) => OmlExpr::Dict(duplicate_fields(m)),
            OmlExpr::TempName(ns) => OmlExpr::TempName(duplicate_strings(ns)),
            OmlExpr::Op1Prefix(op, x) => OmlExpr::Op1Prefix(*op, Box::new(x.duplicate())),
            OmlExpr::Op1Suffix(x, op) => OmlExpr::Op1Suffix(Box::new(x.duplicate()), *op),
            OmlExpr::Op2(l, op, r) => OmlExpr::Op2(Box::new(l.duplicate()), *op, Box::new(r.duplicate())),
            OmlExpr::Op3(c, t, f) => OmlExpr::Op3(
                Box::new(c.duplicate()),
                Box::new(t.duplicate()),
                Box::new(f.duplicate()),
            ),
            OmlExpr::FormatString(strs, xs) => OmlExpr::FormatString(duplicate_strings(strs), duplicate_exprs(xs)),
            OmlExpr::IfAnno(x) => OmlExpr::IfAnno(x.duplicate()),
        }
    }
}

impl OmlExprIfAnno {
    pub fn duplicate(&self) -> (r: OmlExprIfAnno)
        ensures
            r.view_anno() == self.view_anno(),
        decreases self, 1nat,
    {
        let exprs = duplicate_pairs(&self.exprs);
        let default = match &self.default {
            Some(d) => Some(Box::new(d.duplicate())),
            None => None,
        };
        OmlExprIfAnno { exprs, default }
    }
}

pub fn duplicate_strings(a: &Vec<String>) -> (r: Vec<String>)
    ensures
        view_strings(r@) == view_strings(a@),
{
    let mut out: Vec<String> = Vec::new();
    let mut i: usize = 0;
    while i < a.len()
        invariant
            i <= a.len(),
            out.len() == i,
            forall|j: int| 0 <= j < i ==> #[trigger] out@[j]@ == a@[j]@,
        decreases a.len() - i,
    {
        out.push(a[i].clone());
        i += 1;
    }
    assert(view_strings(out@) =~= view_strings(a@));
    out
}

fn duplicate_exprs(a: &Vec<OmlExpr>) -> (r: Vec<OmlExpr>)
    ensures
        view_exprs(r@) == view_exprs(a@),
    decreases a, 0nat,
{
    let mut out: Vec<OmlExpr> = Vec::new();
    let mut i: usize = 0;
    while i < a.len()
        invariant
            i <= a.len(),
            out.len() == i,
            forall|j: int| 0 <= j < i ==> #[trigger] out@[j].view_expr() == a@[j].view_expr(),
        decreases a.len() - i,
    {
        assert(decreases_to!(a => a@[i as int]));
        out.push(a[i].duplicate());
        i += 1;
    }
    proof {
        lemma_view_exprs(out@);
        lemma_view_exprs(a@);
        assert(view_exprs(out@) =~= view_exprs(a@));
    }
    out
}

fn duplicate_fields(m: &Vec<(String, OmlExpr)>) -> (r: Vec<(String, OmlExpr)>)
    ensures
        view_fields(r@) == view_fields(m@),
    decreases m, 0nat,
{
    let mut out: Vec<(String, OmlExpr)> = Vec::new();
    let mut i: usize = 0;
    while i < m.len()
        invariant
            i <= m.len(),
            out.len() == i,
            forall|j: int|
                0 <= j < i ==> (#[trigger] out@[j]).0@ == m@[j].0@ && out@[j].1.view_expr()
                    == m@[j].1.view_expr(),
        decreases m.len() - i,
    {
        assert(decreases_to!(m => m@[i as int]));
        let v = m[i].1.duplicate();
        out.push((m[i].0.clone(), v));
        i += 1;
    }
    proof {
        lemma_view_fields(out@);
        lemma_view_fields(m@);
        assert(view_fields(out@) =~= view_fields(m@));
    }
    out
}

fn duplicate_pairs(m: &Vec<(OmlExpr, OmlExpr)>) -> (r: Vec<(OmlExpr, OmlExpr)>)
    ensures
        view_pairs(r@) == view_pairs(m@),
    decreases m, 0nat,
{
    let mut out: Vec<(OmlExpr, OmlExpr)> = Vec::new();
    let mut i: usize = 0;
    while i < m.len()
        invariant
            i <= m.len(),
            out.len() == i,
            forall|j: int|
                0 <= j < i ==> (#[trigger] out@[j]).0.view_expr() == m@[j].0.view_expr() && out@[j].1.view_expr()
                    == m@[j].1.view_expr(),
        decreases m.len() - i,
    {
        assert(decreases_to!(m => m@[i as int]));
        let c = m[i].0.duplicate();
        let v = m[i].1.duplicate();
        out.push((c, v));
        i += 1;
    }
    proof {
        lemma_view_pairs(out@);
        lemma_view_pairs(m@);
        assert(view_pairs(out@) =~= view_pairs(m@));
    }
    out
}

/// The keys of the fields are distinct.
pub open spec fn field_keys_unique(m: Seq<(Seq<char>, ExprV)>) -> bool {
    forall|i: int, j: int| 0 <= i < m.len() && 0 <= j < m.len() && i != j ==> m[i].0 != m[j].0
}

/// Well-formedness of an expression: every map in it, at any depth, has
/// distinct keys, and so has every literal value in it.
pub open spec fn wf_expr(e: ExprV) -> bool
    decreases e, 1nat,
{
    match e {
        ExprV::Null => true,
        ExprV::Value(v) => wf_val(v),
        ExprV::Array(a) => wf_exprs(a),
        ExprV::Dict(m) => field_keys_unique(m) && wf_fields(m),
        ExprV::Name(_) => true,
        ExprV::Prefix(_, x) => wf_expr(*x),
        ExprV::Suffix(x, _) => wf_expr(*x),
        ExprV::Op2(l, _, r) => wf_expr(*l) && wf_expr(*r),
        ExprV::Op3(c, t, f) => wf_expr(*c) && wf_expr(*t) && wf_expr(*f),
        ExprV::Format(_, xs) => wf_exprs(xs),
        ExprV::Anno(ps, d) => wf_pairs(ps) && match d {
            Some(x) => wf_expr(*x),
            None => true,
        },
    }
}

pub open spec fn wf_exprs(s: Seq<ExprV>) -> bool
    decreases s, 0nat,
{
    s.len() == 0 || (wf_exprs(s.drop_last()) && wf_expr(s.last()))
}

pub open spec fn wf_fields(s: Seq<(Seq<char>, ExprV)>) -> bool
    decreases s, 0nat,
{
    s.len() == 0 || (wf_fields(s.drop_last()) && wf_expr(s.last().1))
}

pub open spec fn wf_pairs(s: Seq<(ExprV, ExprV)>) -> bool
    decreases s, 0nat,
{
    s.len() == 0 || (wf_pairs(s.drop_last()) && wf_expr(s.last().0) && wf_expr(s.last().1))
}

proof fn lemma_wf_pairs_at(s: Seq<(ExprV, ExprV)>, i: int)
    requires
        wf_pairs(s),
        0 <= i < s.len(),
    ensures
        wf_expr(s[i].0) && wf_expr(s[i].1),
    decreases s.len(),
{
    if i < s.len() - 1 {
        lemma_wf_pairs_at(s.drop_last(), i);
    }
}

/// A lookup in a well-formed value finds a well-formed value.
pub proof fn lemma_lookup_wf(v: Val, p: Seq<Step>)
    requires
        wf_val(v),
    ensures
        lookup(v, p) matches Some(x) ==> wf_val(x),
    decreases p.len(),
{
    if p.len() > 0 {
        match (v, p[0]) {
            (Val::Arr(a), Step::Index(i)) => {
                lemma_wf_items(a);
                if i < a.len() {
                    lemma_lookup_wf(a[i as int], p.drop_first());
                }
            },
            (Val::Dict(m), Step::Key(k)) => {
                lemma_wf_values(m);
                lemma_dict_index(m, k);
                match dict_index(m, k) {
                    Some(i) => lemma_lookup_wf(m[i].1, p.drop_first()),
                    None => {},
                }
            },
            _ => {},
        }
    }
}

/// A pass over a well-formed expression against a well-formed snapshot
/// gives a well-formed value.
pub proof fn lemma_eval_wf(e: ExprV, path: Seq<Step>, snap: Val)
    requires
        wf_expr(e),
        wf_val(snap),
    ensures
        eval_spec(e, path, snap) matches Ok((v, _)) ==> wf_val(v),
    decreases e, 2nat, 0int,
{
    match e {
        ExprV::Array(a) => lemma_items_wf(a, path, snap),
        ExprV::Dict(m) => {
            lemma_fields_wf(m, path, snap);
        },
        ExprV::Name(names) => lemma_lookup_wf(snap, ref_path(path, names)),
        ExprV::Prefix(_, x) => lemma_eval_wf(*x, path, snap),
        ExprV::Suffix(x, _) => lemma_eval_wf(*x, path, snap),
        ExprV::Op2(l, op, r) => {
            lemma_eval_wf(*l, path, snap);
            lemma_eval_wf(*r, path, snap);
            match (eval_spec(*l, path, snap), eval_spec(*r, path, snap)) {
                (Ok((a, true)), Ok((b, true))) => {
                    if op2_spec(a, op, b) is Some {
                        crate::ops::lemma_op2_wf(a, op, b);
                    }
                },
                _ => {},
            }
        },
        ExprV::Op3(c, t, f) => {
            lemma_eval_wf(*t, path, snap);
            lemma_eval_wf(*f, path, snap);
        },
        ExprV::Anno(_, _) => lemma_anno_wf(e, 0, path, snap),
        _ => {},
    }
}

proof fn lemma_items_wf(s: Seq<ExprV>, path: Seq<Step>, snap: Val)
    requires
        wf_exprs(s),
        wf_val(snap),
    ensures
        eval_items(s, path, snap) matches Ok((vs, _)) ==> wf_items(vs),
    decreases s, 1nat, 0int,
{
    if s.len() > 0 {
        lemma_items_wf(s.drop_last(), path, snap);
        lemma_eval_wf(s.last(), path.push(Step::Index((s.len() - 1) as nat)), snap);
        match eval_items(s, path, snap) {
            Ok((vs, _)) => {
                assert(vs.drop_last() =~= eval_items(s.drop_last(), path, snap)->Ok_0.0);
            },
            Err(_) => {},
        }
    }
}

proof fn lemma_fields_wf(s: Seq<(Seq<char>, ExprV)>, path: Seq<Step>, snap: Val)
    requires
        wf_fields(s),
        field_keys_unique(s),
        wf_val(snap),
    ensures
        eval_fields(s, path, snap) matches Ok((es, _)) ==> wf_values(es) && keys_unique(es) && es.len() == s.len()
            && forall|i: int| 0 <= i < s.len() ==> #[trigger] es[i].0 == s[i].0,
    decreases s, 1nat, 0int,
{
    if s.len() > 0 {
        assert(field_keys_unique(s.drop_last())) by {
            assert forall|i: int, j: int| 0 <= i < s.drop_last().len() && 0 <= j < s.drop_last().len() && i != j implies s.drop_last()[i].0 != s.drop_last()[j].0 by {
                assert(s.drop_last()[i] == s[i]);
                assert(s.drop_last()[j] == s[j]);
            }
        }
        lemma_fields_wf(s.drop_last(), path, snap);
        lemma_eval_wf(s.last().1, path.push(Step::Key(s.last().0)), snap);
        match eval_fields(s, path, snap) {
            Ok((es, _)) => {
                let prev = eval_fields(s.drop_last(), path, snap)->Ok_0.0;
                assert(es.drop_last() =~= prev);
                assert forall|i: int| 0 <= i < s.len() implies #[trigger] es[i].0 == s[i].0 by {
                    if i < s.len() - 1 {
                        assert(es[i] == prev[i]);
                        assert(s.drop_last()[i] == s[i]);
                    }
                }
            },
            Err(_) => {},
        }
    }
}

proof fn lemma_anno_wf(e: ExprV, i: int, path: Seq<Step>, snap: Val)
    requires
        wf_expr(e),
        e is Anno,
        0 <= i,
        wf_val(snap),
    ensures
        eval_anno(e, i, path, snap) matches Ok((v, _)) ==> wf_val(v),
    decreases e, 1nat, anno_len(e) - i,
{
    match e {
        ExprV::Anno(ps, d) => {
            if i >= ps.len() {
                match d {
                    Some(x) => lemma_eval_wf(*x, path, snap),
                    None => {},
                }
            } else {
                lemma_wf_pairs_at(ps, i);
                lemma_eval_wf(ps[i].1, path, snap);
                lemma_anno_wf(e, i + 1, path, snap);
            }
        },
        _ => {},
    }
}

/// The fixed-point evaluation of a well-formed document gives a
/// well-formed value.
pub proof fn lemma_evaluate_wf(e: ExprV)
    requires
        wf_expr(e),
    ensures
        evaluate_spec(e) matches Ok(v) ==> wf_val(v),
{
    lemma_passes_wf(e, Val::Absent, PASS_BUDGET as nat);
}

proof fn lemma_passes_wf(e: ExprV, snap: Val, n: nat)
    requires
        wf_expr(e),
        wf_val(snap),
    ensures
        passes(e, snap, n) matches Ok(v) ==> wf_val(v),
    decreases n,
{
    if n > 0 {
        lemma_eval_wf(e, Seq::empty(), snap);
        match eval_spec(e, Seq::empty(), snap) {
            Ok((v, false)) => lemma_passes_wf(e, v, (n - 1) as nat),
            _ => {},
        }
    }
}

} // verus!
