use vstd::prelude::*;
use crate::expr::{OmlExpr, ExprV, view_exprs, lemma_view_exprs};
use crate::ops::{BinOp, level_of, RELATIONAL_LEVEL};

verus! {

/// `inner` under the keys, outermost first: `[a, b]` gives `{ a: { b: inner } }`.
pub open spec fn nest(keys: Seq<Seq<char>>, inner: ExprV) -> ExprV
    decreases keys.len(),
{
    if keys.len() == 0 {
        inner
    } else {
        ExprV::Dict(seq![(keys[0], nest(keys.drop_first(), inner))])
    }
}

pub open spec fn key_views(keys: Seq<String>) -> Seq<Seq<char>> {
    Seq::new(keys.len(), |i: int| keys[i]@)
}

proof fn lemma_nest_last(keys: Seq<Seq<char>>, k: Seq<char>, inner: ExprV)
    ensures
        nest(keys.push(k), inner) == nest(keys, ExprV::Dict(seq![(k, inner)])),
    decreases keys.len(),
{
    if keys.len() > 0 {
        assert(keys.push(k).drop_first() =~= keys.drop_first().push(k));
        assert(keys.push(k)[0] == keys[0]);
        lemma_nest_last(keys.drop_first(), k, inner);
    } else {
        assert(keys.push(k).drop_first() =~= Seq::<Seq<char>>::empty());
        assert(keys.push(k)[0] == k);
        assert(nest(keys.push(k).drop_first(), inner) == inner);
        assert(nest(keys, ExprV::Dict(seq![(k, inner)])) == ExprV::Dict(seq![(k, inner)]));
    }
}

/// Wraps `inner` in one single-key map per key, the last key innermost.
pub fn wrap_keys(keys: Vec<String>, inner: OmlExpr) -> (r: OmlExpr)
    ensures
        r.view_expr() == nest(key_views(keys@), inner.view_expr()),
{
    let ghost keys0 = keys@;
    let ghost inner_v = inner.view_expr();
    let mut keys = keys;
    let mut cur = inner;
    while keys.len() > 0
        invariant
            nest(key_views(keys@), cur.view_expr()) == nest(key_views(keys0), inner_v),
        decreases keys.len(),
    {
        let ghost before = keys@;
        let k = keys.pop().unwrap();
        proof {
            assert(key_views(before) =~= key_views(keys@).push(k@));
            lemma_nest_last(key_views(keys@), k@, cur.view_expr());
        }
        let ghost cur_v = cur.view_expr();
        let mut fields: Vec<(String, OmlExpr)> = Vec::new();
        fields.push((k, cur));
        proof {
            assert(fields@.drop_last() =~= Seq::<(String, OmlExpr)>::empty());
            assert(fields@.last() == (k, cur));
            crate::expr::lemma_view_fields(fields@);
            assert(crate::expr::view_fields(fields@) =~= seq![(k@, cur_v)]);
        }
        cur = OmlExpr::Dict(fields);
    }
    assert(key_views(keys@) =~= Seq::<Seq<char>>::empty());
    cur
}

pub open spec fn is_relational(op: BinOp) -> bool {
    level_of(op) == RELATIONAL_LEVEL
}

pub open spec fn bin(a: ExprV, op: BinOp, b: ExprV) -> ExprV {
    ExprV::Op2(Box::new(a), op, Box::new(b))
}

/// The chained-relational rewrite: between two consecutive relational
/// operators the shared operand is duplicated and an `&&` joins the two
/// comparisons, so `a < b < c` reads as `a < b && b < c`.
pub open spec fn chain(es: Seq<ExprV>, ops: Seq<BinOp>) -> (Seq<ExprV>, Seq<BinOp>)
    decreases ops.len(),
{
    if ops.len() == 0 || es.len() == 0 {
        (es, ops)
    } else {
        let rest = chain(es.drop_first(), ops.drop_first());
        if ops.len() >= 2 && is_relational(ops[0]) && is_relational(ops[1]) {
            (seq![es[0], es[1]] + rest.0, seq![ops[0], BinOp::And] + rest.1)
        } else {
            (seq![es[0]] + rest.0, seq![ops[0]] + rest.1)
        }
    }
}

/// Folds, left to right, every operator of level `lvl` with its two operands
/// into one binary node.
pub open spec fn reduce_level(es: Seq<ExprV>, ops: Seq<BinOp>, lvl: nat) -> (
    Seq<ExprV>,
    Seq<BinOp>,
)
    decreases ops.len(),
{
    if ops.len() == 0 || es.len() < 2 {
        (es, ops)
    } else if level_of(ops[0]) == lvl {
        reduce_level(seq![bin(es[0], ops[0], es[1])] + es.subrange(2, es.len() as int), ops.drop_first(), lvl)
    } else {
        let rest = reduce_level(es.drop_first(), ops.drop_first(), lvl);
        (seq![es[0]] + rest.0, seq![ops[0]] + rest.1)
    }
}

/// The levels from `lvl` on, tightest first, with the chained-relational
/// rewrite made just before the relational level is folded.
pub open spec fn fold_from(es: Seq<ExprV>, ops: Seq<BinOp>, lvl: nat) -> Seq<ExprV>
    decreases 9 - lvl,
{
    if lvl >= 9 {
        es
    } else {
        let c = if lvl == RELATIONAL_LEVEL { chain(es, ops) } else { (es, ops) };
        let r = reduce_level(c.0, c.1, lvl);
        fold_from(r.0, r.1, lvl + 1)
    }
}

/// The tree that operator-precedence parsing builds from operands and the
/// operators between them.
pub open spec fn fold_spec(es: Seq<ExprV>, ops: Seq<BinOp>) -> ExprV {
    fold_from(es, ops, 0)[0]
}

proof fn lemma_views_insert0(s: Seq<OmlExpr>, x: OmlExpr)
    ensures
        view_exprs(s.insert(0, x)) == seq![x.view_expr()] + view_exprs(s),
{
    lemma_view_exprs(s);
    lemma_view_exprs(s.insert(0, x));
    assert(view_exprs(s.insert(0, x)) =~= seq![x.view_expr()] + view_exprs(s));
}

proof fn lemma_views_remove0(s: Seq<OmlExpr>)
    requires
        s.len() > 0,
    ensures
        view_exprs(s.remove(0)) == view_exprs(s).drop_first(),
        view_exprs(s)[0] == s[0].view_expr(),
{
    lemma_view_exprs(s);
    lemma_view_exprs(s.remove(0));
    assert(view_exprs(s.remove(0)) =~= view_exprs(s).drop_first());
}

pub proof fn lemma_chain_len(es: Seq<ExprV>, ops: Seq<BinOp>)
    requires
        es.len() == ops.len() + 1,
    ensures
        chain(es, ops).0.len() == chain(es, ops).1.len() + 1,
    decreases ops.len(),
{
    if ops.len() > 0 {
        lemma_chain_len(es.drop_first(), ops.drop_first());
    }
}

pub proof fn lemma_reduce_len(es: Seq<ExprV>, ops: Seq<BinOp>, lvl: nat)
    requires
        es.len() == ops.len() + 1,
    ensures
        reduce_level(es, ops, lvl).0.len() == reduce_level(es, ops, lvl).1.len() + 1,
    decreases ops.len(),
{
    if ops.len() > 0 {
        if level_of(ops[0]) == lvl {
            lemma_reduce_len(seq![bin(es[0], ops[0], es[1])] + es.subrange(2, es.len() as int), ops.drop_first(), lvl);
        } else {
            lemma_reduce_len(es.drop_first(), ops.drop_first(), lvl);
        }
    }
}

/// The chained-relational rewrite of operands and operators.
pub fn chain_relational(es: Vec<OmlExpr>, ops: Vec<BinOp>) -> (r: (Vec<OmlExpr>, Vec<BinOp>))
    requires
        es.len() == ops.len() + 1,
    ensures
        (view_exprs(r.0@), r.1@) == chain(view_exprs(es@), ops@),
        r.0.len() == r.1.len() + 1,
    decreases ops.len(),
{
    proof {
        lemma_view_exprs(es@);
        lemma_chain_len(view_exprs(es@), ops@);
    }
    if ops.len() == 0 {
        return (es, ops);
    }
    let ghost es0 = view_exprs(es@);
    let ghost ops0 = ops@;
    let mut es = es;
    let mut ops = ops;
    let both = ops.len() >= 2 && ops[0].level() == RELATIONAL_LEVEL && ops[1].level() == RELATIONAL_LEVEL;
    proof {
        lemma_views_remove0(es@);
    }
    let a = es.remove(0);
    let op = ops.remove(0);
    assert(ops@ =~= ops0.drop_first());
    proof {
        lemma_view_exprs(es@);
    }
    if both {
        let b = es[0].duplicate();
        let (mut r_es, mut r_ops) = chain_relational(es, ops);
        proof {
            lemma_views_insert0(r_es@, b);
        }
        r_es.insert(0, b);
        proof {
            lemma_views_insert0(r_es@, a);
        }
        r_es.insert(0, a);
        r_ops.insert(0, BinOp::And);
        r_ops.insert(0, op);
        assert(view_exprs(r_es@) =~= seq![es0[0], es0[1]] + chain(es0.drop_first(), ops0.drop_first()).0);
        assert(r_ops@ =~= seq![ops0[0], BinOp::And] + chain(es0.drop_first(), ops0.drop_first()).1);
        (r_es, r_ops)
    } else {
        let (mut r_es, mut r_ops) = chain_relational(es, ops);
        proof {
            lemma_views_insert0(r_es@, a);
        }
        r_es.insert(0, a);
        r_ops.insert(0, op);
        assert(view_exprs(r_es@) =~= seq![es0[0]] + chain(es0.drop_first(), ops0.drop_first()).0);
        assert(r_ops@ =~= seq![ops0[0]] + chain(es0.drop_first(), ops0.drop_first()).1);
        (r_es, r_ops)
    }
}

/// Folds, left to right, the operators of level `lvl`.
pub fn fold_level(es: Vec<OmlExpr>, ops: Vec<BinOp>, lvl: usize) -> (r: (Vec<OmlExpr>, Vec<BinOp>))
    requires
        es.len() == ops.len() + 1,
    ensures
        (view_exprs(r.0@), r.1@) == reduce_level(view_exprs(es@), ops@, lvl as nat),
        r.0.len() == r.1.len() + 1,
    decreases ops.len(),
{
    proof {
        lemma_view_exprs(es@);
        lemma_reduce_len(view_exprs(es@), ops@, lvl as nat);
    }
    if ops.len() == 0 {
        return (es, ops);
    }
    let ghost es0 = view_exprs(es@);
    let ghost ops0 = ops@;
    let mut es = es;
    let mut ops = ops;
    let op = ops.remove(0);
    assert(ops@ =~= ops0.drop_first());
    proof {
        lemma_views_remove0(es@);
    }
    let a = es.remove(0);
    if op.level() == lvl {
        proof {
            lemma_views_remove0(es@);
        }
        let b = es.remove(0);
        let ghost rest = es@;
        let n = OmlExpr::Op2(Box::new(a), op, Box::new(b));
        proof {
            lemma_views_insert0(es@, n);
            lemma_view_exprs(rest);
            assert(view_exprs(rest) =~= es0.subrange(2, es0.len() as int));
        }
        es.insert(0, n);
        assert(view_exprs(es@) =~= seq![bin(es0[0], ops0[0], es0[1])] + es0.subrange(2, es0.len() as int));
        fold_level(es, ops, lvl)
    } else {
        let (mut r_es, mut r_ops) = fold_level(es, ops, lvl);
        proof {
            lemma_views_insert0(r_es@, a);
        }
        r_es.insert(0, a);
        r_ops.insert(0, op);
        assert(view_exprs(r_es@) =~= seq![es0[0]] + reduce_level(es0.drop_first(), ops0.drop_first(), lvl as nat).0);
        assert(r_ops@ =~= seq![ops0[0]] + reduce_level(es0.drop_first(), ops0.drop_first(), lvl as nat).1);
        (r_es, r_ops)
    }
}

/// Builds the binary-operation tree of operands `es` joined by `ops`, by
/// precedence level, tightest first, each level left to right.
pub fn fold_binary(es: Vec<OmlExpr>, ops: Vec<BinOp>) -> (r: OmlExpr)
    requires
        es.len() == ops.len() + 1,
    ensures
        r.view_expr() == fold_spec(view_exprs(es@), ops@),
{
    let ghost es0 = view_exprs(es@);
    let ghost ops0 = ops@;
    let mut es = es;
    let mut ops = ops;
    let mut lvl: usize = 0;
    while lvl < 9
        invariant
            lvl <= 9,
            es.len() == ops.len() + 1,
            fold_from(view_exprs(es@), ops@, lvl as nat) == fold_from(es0, ops0, 0),
        decreases 9 - lvl,
    {
        if lvl == RELATIONAL_LEVEL {
            let (c_es, c_ops) = chain_relational(es, ops);
            es = c_es;
            ops = c_ops;
        }
        let (r_es, r_ops) = fold_level(es, ops, lvl);
        es = r_es;
        ops = r_ops;
        lvl += 1;
    }
    proof {
        lemma_view_exprs(es@);
        assert(lvl == 9);
    }
    es.swap_remove(0)
}

} // verus!
