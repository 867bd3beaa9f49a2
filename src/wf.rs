//! Well-formedness of what the parser builds: every map in a parsed document,
//! at any depth, has distinct keys.

use vstd::prelude::*;
use crate::builder::{nest, bin, chain, reduce_level, fold_from, fold_spec, lemma_chain_len, lemma_reduce_len};
use crate::expr::{ExprV, wf_expr, wf_exprs, wf_fields, wf_pairs, field_keys_unique, merge_expr, merge_fields, merge_field, field_index, lemma_field_index};
use crate::ops::BinOp;
use crate::value::{Val, wf_val};
use crate::parser::{
    ws_spec, apply_prefixes, suffix_loop, prefix_loop, expr_spec, weak_spec, weak_loop, middle_spec,
    strong_spec, items_loop, pairs_loop, pair_spec, fmt_loop, number_spec, string_spec, ids_spec, is_digit,
    stmt_spec, guard_spec, header_spec, Stmt, BlockV, close_spec, block_spec, doc_loop, doc_spec,
};

verus! {

broadcast use {vstd::seq::axiom_seq_index_decreases, vstd::seq::axiom_seq_subrange_decreases};

/// Every expression of the sequence is well-formed.
pub open spec fn all_wf(s: Seq<ExprV>) -> bool {
    forall|i: int| 0 <= i < s.len() ==> #[trigger] wf_expr(s[i])
}

pub proof fn lemma_wf_exprs(s: Seq<ExprV>)
    ensures
        wf_exprs(s) <==> all_wf(s),
    decreases s.len(),
{
    if s.len() > 0 {
        lemma_wf_exprs(s.drop_last());
        if all_wf(s) {
            assert forall|i: int| 0 <= i < s.drop_last().len() implies #[trigger] wf_expr(s.drop_last()[i]) by {
                assert(s.drop_last()[i] == s[i]);
            }
            assert(wf_expr(s[s.len() - 1]));
        }
        if wf_exprs(s) {
            assert forall|i: int| 0 <= i < s.len() implies #[trigger] wf_expr(s[i]) by {
                if i < s.len() - 1 {
                    assert(s.drop_last()[i] == s[i]);
                }
            }
        }
    }
}

pub proof fn lemma_wf_fields(s: Seq<(Seq<char>, ExprV)>)
    ensures
        wf_fields(s) <==> forall|i: int| 0 <= i < s.len() ==> #[trigger] wf_expr(s[i].1),
    decreases s.len(),
{
    if s.len() > 0 {
        lemma_wf_fields(s.drop_last());
        if forall|i: int| 0 <= i < s.len() ==> #[trigger] wf_expr(s[i].1) {
            assert forall|i: int| 0 <= i < s.drop_last().len() implies #[trigger] wf_expr(s.drop_last()[i].1) by {
                assert(s.drop_last()[i] == s[i]);
            }
            assert(wf_expr(s[s.len() - 1].1));
        }
        if wf_fields(s) {
            assert forall|i: int| 0 <= i < s.len() implies #[trigger] wf_expr(s[i].1) by {
                if i < s.len() - 1 {
                    assert(s.drop_last()[i] == s[i]);
                }
            }
        }
    }
}

pub proof fn lemma_wf_pairs(s: Seq<(ExprV, ExprV)>)
    ensures
        wf_pairs(s) <==> forall|i: int| 0 <= i < s.len() ==> #[trigger] wf_expr(s[i].0) && wf_expr(s[i].1),
    decreases s.len(),
{
    if s.len() > 0 {
        lemma_wf_pairs(s.drop_last());
        if forall|i: int| 0 <= i < s.len() ==> #[trigger] wf_expr(s[i].0) && wf_expr(s[i].1) {
            assert forall|i: int| 0 <= i < s.drop_last().len() implies #[trigger] wf_expr(s.drop_last()[i].0) && wf_expr(s.drop_last()[i].1) by {
                assert(s.drop_last()[i] == s[i]);
            }
            assert(wf_expr(s[s.len() - 1].0));
        }
        if wf_pairs(s) {
            assert forall|i: int| 0 <= i < s.len() implies #[trigger] wf_expr(s[i].0) && wf_expr(s[i].1) by {
                if i < s.len() - 1 {
                    assert(s.drop_last()[i] == s[i]);
                    assert(wf_expr(s.drop_last()[i].0));
                } else {
                    assert(s[i] == s.last());
                }
            }
        }
    }
}

pub open spec fn wf_field_seq(m: Seq<(Seq<char>, ExprV)>) -> bool {
    field_keys_unique(m) && forall|i: int| 0 <= i < m.len() ==> #[trigger] wf_expr(m[i].1)
}

/// Merging two definitions keeps expressions well-formed.
pub proof fn lemma_merge_expr_wf(t: ExprV, v: ExprV)
    requires
        wf_expr(t),
        wf_expr(v),
    ensures
        wf_expr(merge_expr(t, v)),
    decreases v, 2nat,
{
    match t {
        ExprV::Array(a) => {
            lemma_wf_exprs(a);
            match v {
                ExprV::Array(b) => {
                    lemma_wf_exprs(b);
                    lemma_wf_exprs(a + b);
                    assert forall|i: int| 0 <= i < (a + b).len() implies #[trigger] wf_expr((a + b)[i]) by {
                        if i < a.len() {
                            assert((a + b)[i] == a[i]);
                        } else {
                            assert((a + b)[i] == b[i - a.len()]);
                        }
                    }
                },
                _ => {
                    lemma_wf_exprs(a.push(v));
                    assert forall|i: int| 0 <= i < a.push(v).len() implies #[trigger] wf_expr(a.push(v)[i]) by {
                        if i < a.len() {
                            assert(a.push(v)[i] == a[i]);
                        }
                    }
                },
            }
        },
        ExprV::Dict(m) => match v {
            ExprV::Dict(m2) => {
                lemma_wf_fields(m);
                lemma_wf_fields(m2);
                lemma_merge_fields_wf(m, m2);
                lemma_wf_fields(merge_fields(m, m2));
            },
            _ => {},
        },
        ExprV::Anno(ps, d) => match v {
            ExprV::Anno(ps2, _) => {
                lemma_wf_pairs(ps);
                lemma_wf_pairs(ps2);
                lemma_wf_pairs(ps + ps2);
                assert forall|i: int| 0 <= i < (ps + ps2).len() implies #[trigger] wf_expr((ps + ps2)[i].0) && wf_expr((ps + ps2)[i].1) by {
                    if i < ps.len() {
                        assert((ps + ps2)[i] == ps[i]);
                        assert(wf_expr(ps[i].0));
                    } else {
                        assert((ps + ps2)[i] == ps2[i - ps.len()]);
                        assert(wf_expr(ps2[i - ps.len()].0));
                    }
                }
            },
            _ => {},
        },
        _ => {},
    }
}

proof fn lemma_merge_fields_wf(m: Seq<(Seq<char>, ExprV)>, incs: Seq<(Seq<char>, ExprV)>)
    requires
        wf_field_seq(m),
        forall|i: int| 0 <= i < incs.len() ==> #[trigger] wf_expr(incs[i].1),
    ensures
        wf_field_seq(merge_fields(m, incs)),
    decreases incs, 1nat,
{
    if incs.len() > 0 {
        lemma_merge_field_wf(m, incs[0]);
        assert forall|i: int| 0 <= i < incs.drop_first().len() implies #[trigger] wf_expr(incs.drop_first()[i].1) by {
            assert(incs.drop_first()[i] == incs[i + 1]);
        }
        lemma_merge_fields_wf(merge_field(m, incs[0]), incs.drop_first());
    }
}

proof fn lemma_merge_field_wf(m: Seq<(Seq<char>, ExprV)>, e: (Seq<char>, ExprV))
    requires
        wf_field_seq(m),
        wf_expr(e.1),
    ensures
        wf_field_seq(merge_field(m, e)),
    decreases e, 0nat,
{
    lemma_field_index(m, e.0);
    match field_index(m, e.0) {
        Some(i) => {
            lemma_merge_expr_wf(m[i].1, e.1);
            let r = m.update(i, (e.0, merge_expr(m[i].1, e.1)));
            assert forall|j: int| 0 <= j < r.len() implies #[trigger] wf_expr(r[j].1) by {
                if j != i {
                    assert(r[j] == m[j]);
                }
            }
        },
        None => {
            let r = m.push(e);
            assert forall|j: int| 0 <= j < r.len() implies #[trigger] wf_expr(r[j].1) by {
                if j < m.len() {
                    assert(r[j] == m[j]);
                }
            }
        },
    }
}

/// Nesting under keys keeps an expression well-formed.
pub proof fn lemma_nest_wf(keys: Seq<Seq<char>>, x: ExprV)
    requires
        wf_expr(x),
    ensures
        wf_expr(nest(keys, x)),
    decreases keys.len(),
{
    if keys.len() > 0 {
        lemma_nest_wf(keys.drop_first(), x);
        let f = seq![(keys[0], nest(keys.drop_first(), x))];
        lemma_wf_fields(f);
    }
}

proof fn lemma_chain_wf(es: Seq<ExprV>, ops: Seq<BinOp>)
    requires
        all_wf(es),
        es.len() == ops.len() + 1,
    ensures
        all_wf(chain(es, ops).0),
    decreases ops.len(),
{
    if ops.len() > 0 && es.len() > 0 {
        assert forall|i: int| 0 <= i < es.drop_first().len() implies #[trigger] wf_expr(es.drop_first()[i]) by {
            assert(es.drop_first()[i] == es[i + 1]);
        }
        lemma_chain_wf(es.drop_first(), ops.drop_first());
        let rest = chain(es.drop_first(), ops.drop_first()).0;
        if ops.len() >= 2 && crate::builder::is_relational(ops[0]) && crate::builder::is_relational(ops[1]) {
            let r = seq![es[0], es[1]] + rest;
            assert forall|i: int| 0 <= i < r.len() implies #[trigger] wf_expr(r[i]) by {
                if i >= 2 {
                    assert(r[i] == rest[i - 2]);
                }
            }
        } else {
            let r = seq![es[0]] + rest;
            assert forall|i: int| 0 <= i < r.len() implies #[trigger] wf_expr(r[i]) by {
                if i >= 1 {
                    assert(r[i] == rest[i - 1]);
                }
            }
        }
    }
}

proof fn lemma_reduce_wf(es: Seq<ExprV>, ops: Seq<BinOp>, lvl: nat)
    requires
        all_wf(es),
    ensures
        all_wf(reduce_level(es, ops, lvl).0),
    decreases ops.len(),
{
    if ops.len() > 0 && es.len() >= 2 {
        if crate::ops::level_of(ops[0]) == lvl {
            let n = seq![bin(es[0], ops[0], es[1])] + es.subrange(2, es.len() as int);
            assert(wf_expr(es[0]) && wf_expr(es[1]));
            assert(wf_expr(bin(es[0], ops[0], es[1])));
            assert forall|i: int| 0 <= i < n.len() implies #[trigger] wf_expr(n[i]) by {
                if i >= 1 {
                    assert(n[i] == es[i + 1]);
                } else {
                    assert(n[i] == bin(es[0], ops[0], es[1]));
                }
            }
            lemma_reduce_wf(n, ops.drop_first(), lvl);
        } else {
            assert forall|i: int| 0 <= i < es.drop_first().len() implies #[trigger] wf_expr(es.drop_first()[i]) by {
                assert(es.drop_first()[i] == es[i + 1]);
            }
            lemma_reduce_wf(es.drop_first(), ops.drop_first(), lvl);
            let rest = reduce_level(es.drop_first(), ops.drop_first(), lvl).0;
            let r = seq![es[0]] + rest;
            assert forall|i: int| 0 <= i < r.len() implies #[trigger] wf_expr(r[i]) by {
                if i >= 1 {
                    assert(r[i] == rest[i - 1]);
                }
            }
        }
    }
}

proof fn lemma_fold_from_wf(es: Seq<ExprV>, ops: Seq<BinOp>, lvl: nat)
    requires
        all_wf(es),
        es.len() == ops.len() + 1,
    ensures
        all_wf(fold_from(es, ops, lvl)),
        fold_from(es, ops, lvl).len() >= 1,
    decreases 9 - lvl,
{
    if lvl < 9 {
        let c = if lvl == 5 { chain(es, ops) } else { (es, ops) };
        if lvl == 5 {
            lemma_chain_wf(es, ops);
            lemma_chain_len(es, ops);
        }
        lemma_reduce_wf(c.0, c.1, lvl);
        lemma_reduce_len(c.0, c.1, lvl);
        let r = reduce_level(c.0, c.1, lvl);
        lemma_fold_from_wf(r.0, r.1, lvl + 1);
    }
}

/// The precedence fold of well-formed operands is well-formed.
pub proof fn lemma_fold_wf(es: Seq<ExprV>, ops: Seq<BinOp>)
    requires
        all_wf(es),
        es.len() == ops.len() + 1,
    ensures
        wf_expr(fold_spec(es, ops)),
{
    lemma_fold_from_wf(es, ops, 0);
}

proof fn lemma_prefixes_wf(e: ExprV, ops: Seq<crate::ops::UnOp>)
    requires
        wf_expr(e),
    ensures
        wf_expr(apply_prefixes(e, ops)),
    decreases ops.len(),
{
    if ops.len() > 0 {
        lemma_prefixes_wf(ExprV::Prefix(ops.last(), Box::new(e)), ops.drop_last());
    }
}

proof fn lemma_suffix_wf(s: Seq<char>, e: ExprV, p: int)
    requires
        wf_expr(e),
    ensures
        wf_expr(suffix_loop(s, e, p).0),
    decreases s.len() - p,
{
    if 0 <= p && p + 1 < s.len() && s[p] == '+' && s[p + 1] == '+' {
        lemma_suffix_wf(s, ExprV::Suffix(Box::new(e), crate::ops::UnOp::Inc), p + 2);
    } else if 0 <= p && p + 1 < s.len() && s[p] == '-' && s[p + 1] == '-' {
        lemma_suffix_wf(s, ExprV::Suffix(Box::new(e), crate::ops::UnOp::Dec), p + 2);
    }
}

proof fn lemma_push_wf(xs: Seq<ExprV>, e: ExprV)
    requires
        all_wf(xs),
        wf_expr(e),
    ensures
        all_wf(xs.push(e)),
        wf_exprs(xs.push(e)),
{
    assert forall|i: int| 0 <= i < xs.push(e).len() implies #[trigger] wf_expr(xs.push(e)[i]) by {
        if i < xs.len() {
            assert(xs.push(e)[i] == xs[i]);
        }
    }
    lemma_wf_exprs(xs.push(e));
}

proof fn lemma_fmt_g(s: Seq<char>, strs: Seq<Seq<char>>, xs: Seq<ExprV>, start: int, p: int)
    requires
        all_wf(xs),
    ensures
        fmt_loop(s, strs, xs, start, p) matches Some((e, _)) ==> wf_expr(e),
    decreases s.len() - p, 5nat,
{
    if p < 0 || p >= s.len() || start < 0 || start > p {
    } else if s[p] == '"' {
        lemma_wf_exprs(xs);
    } else if s[p] == '{' {
        lemma_expr_g(s, p + 1);
        match expr_spec(s, p + 1) {
            Some((e, q)) => {
                let q2 = ws_spec(s, q);
                if q <= p || q2 < q || q2 >= s.len() || s[q2] != '}' {
                } else {
                    lemma_push_wf(xs, e);
                    lemma_fmt_g(s, strs.push(s.subrange(start, p)), xs.push(e), q2 + 1, q2 + 1);
                }
            },
            None => {},
        }
    } else {
        lemma_fmt_g(s, strs, xs, start, p + 1);
    }
}

proof fn lemma_strong_g(s: Seq<char>, pos: int)
    ensures
        strong_spec(s, pos) matches Some((e, _)) ==> wf_expr(e),
    decreases s.len() - pos, 1nat,
{
    let p = ws_spec(s, pos);
    if pos < 0 || p < pos || p >= s.len() {
    } else if s[p] == '(' {
        lemma_expr_g(s, p + 1);
    } else if s[p] == '[' {
        let q = ws_spec(s, p + 1);
        if q <= pos || q > s.len() {
        } else {
            lemma_items_g(s, Seq::empty(), q);
        }
    } else if s[p] == '{' {
        let q = ws_spec(s, p + 1);
        if q <= pos || q > s.len() {
        } else {
            lemma_wf_fields(Seq::<(Seq<char>, ExprV)>::empty());
            lemma_pairs_g(s, ExprV::Dict(Seq::empty()), q);
        }
    } else if s[p] == '"' {
    } else if s[p] == '$' {
        if p + 1 < s.len() && s[p + 1] == '"' {
            lemma_fmt_g(s, Seq::empty(), Seq::empty(), p + 2, p + 2);
        }
    } else if is_digit(s[p]) {
    } else {
    }
}

proof fn lemma_items_g(s: Seq<char>, items: Seq<ExprV>, q: int)
    requires
        all_wf(items),
    ensures
        items_loop(s, items, q) matches Some((e, _)) ==> wf_expr(e),
    decreases s.len() - q, 6nat,
{
    if q < 0 || q > s.len() {
    } else if q < s.len() && s[q] == ']' {
        lemma_wf_exprs(items);
    } else {
        lemma_expr_g(s, q);
        match expr_spec(s, q) {
            Some((e, q2)) => {
                let q3 = ws_spec(s, q2);
                lemma_push_wf(items, e);
                if q2 <= q || q3 < q2 || q3 >= s.len() {
                } else if s[q3] == ',' {
                    let q4 = ws_spec(s, q3 + 1);
                    if q4 <= q || q4 > s.len() {
                    } else {
                        lemma_items_g(s, items.push(e), q4);
                    }
                }
            },
            None => {},
        }
    }
}

proof fn lemma_pairs_g(s: Seq<char>, body: ExprV, q: int)
    requires
        wf_expr(body),
    ensures
        pairs_loop(s, body, q) matches Some((e, _)) ==> wf_expr(e),
    decreases s.len() - q, 6nat,
{
    if q < 0 || q > s.len() {
    } else if q < s.len() && s[q] == '}' {
    } else {
        lemma_pair_g(s, q);
        match pair_spec(s, q) {
            Some((keys, value, q2)) => {
                lemma_nest_wf(keys, value);
                lemma_merge_expr_wf(body, nest(keys, value));
                let body2 = merge_expr(body, nest(keys, value));
                let q3 = ws_spec(s, q2);
                if q2 <= q || q3 < q2 || q3 >= s.len() {
                } else if s[q3] == ',' {
                    let q4 = ws_spec(s, q3 + 1);
                    if q4 <= q || q4 > s.len() {
                    } else {
                        lemma_pairs_g(s, body2, q4);
                    }
                }
            },
            None => {},
        }
    }
}

proof fn lemma_pair_g(s: Seq<char>, pos: int)
    ensures
        pair_spec(s, pos) matches Some((_, v, _)) ==> wf_expr(v),
    decreases s.len() - pos, 5nat,
{
    let p = ws_spec(s, pos);
    match ids_spec(s, p) {
        Some((keys, q)) => {
            let q2 = ws_spec(s, q);
            if pos < 0 || q2 < pos || q2 >= s.len() || s[q2] != '=' {
            } else {
                lemma_expr_g(s, q2 + 1);
            }
        },
        None => {},
    }
}

proof fn lemma_middle_g(s: Seq<char>, pos: int)
    ensures
        middle_spec(s, pos) matches Some((e, _)) ==> wf_expr(e),
    decreases s.len() - pos, 2nat,
{
    let (prefixes, p) = prefix_loop(s, ws_spec(s, pos), Seq::empty());
    if pos < 0 || p < pos || p > s.len() {
    } else {
        lemma_strong_g(s, p);
        match strong_spec(s, p) {
            Some((e, q)) => {
                lemma_prefixes_wf(e, prefixes);
                lemma_suffix_wf(s, apply_prefixes(e, prefixes), q);
            },
            None => {},
        }
    }
}

proof fn lemma_weak_loop_g(s: Seq<char>, es: Seq<ExprV>, ops: Seq<BinOp>, p: int)
    requires
        all_wf(es),
        es.len() == ops.len() + 1,
    ensures
        weak_loop(s, es, ops, p) matches Some((es2, ops2, _)) ==> all_wf(es2) && es2.len() == ops2.len() + 1,
    decreases s.len() - p, 3nat,
{
    if p < 0 || p > s.len() {
    } else {
        match crate::parser::op2_at(s, ws_spec(s, p)) {
            Some((op, q2)) => if q2 <= p || q2 > s.len() {
            } else {
                lemma_middle_g(s, q2);
                match middle_spec(s, q2) {
                    Some((e, q3)) => if q3 <= p || q3 > s.len() {
                    } else {
                        lemma_push_wf(es, e);
                        lemma_weak_loop_g(s, es.push(e), ops.push(op), q3);
                    },
                    None => {},
                }
            },
            None => {},
        }
    }
}

proof fn lemma_weak_g(s: Seq<char>, pos: int)
    ensures
        weak_spec(s, pos) matches Some((e, _)) ==> wf_expr(e),
    decreases s.len() - pos, 4nat,
{
    lemma_middle_g(s, pos);
    match middle_spec(s, pos) {
        Some((e, p)) => if p <= pos || p > s.len() {
        } else {
            assert(all_wf(seq![e])) by {
                assert forall|i: int| 0 <= i < seq![e].len() implies #[trigger] wf_expr(seq![e][i]) by {
                    assert(seq![e][i] == e);
                }
            }
            lemma_weak_loop_g(s, seq![e], Seq::empty(), p);
            match weak_loop(s, seq![e], Seq::empty(), p) {
                Some((es, ops, q)) => lemma_fold_wf(es, ops),
                None => {},
            }
        },
        None => {},
    }
}

proof fn lemma_expr_g(s: Seq<char>, pos: int)
    ensures
        expr_spec(s, pos) matches Some((e, _)) ==> wf_expr(e),
    decreases s.len() - pos, 5nat,
{
    lemma_weak_g(s, pos);
    match weak_spec(s, pos) {
        Some((c, p)) => {
            let q = ws_spec(s, p);
            if q < 0 || q >= s.len() || s[q] != '?' {
            } else if q < pos {
            } else {
                lemma_expr_g(s, q + 1);
                match expr_spec(s, q + 1) {
                    Some((t, p2)) => {
                        let q2 = ws_spec(s, p2);
                        if p2 <= q || q2 < p2 || q2 >= s.len() || s[q2] != ':' {
                        } else {
                            lemma_expr_g(s, q2 + 1);
                        }
                    },
                    None => {},
                }
            }
        },
        None => {},
    }
}

proof fn lemma_stmt_g(s: Seq<char>, p: int)
    ensures
        stmt_spec(s, p) matches Some(Stmt::Header(_, _, g, _)) ==> (g matches Some(x) ==> wf_expr(x)),
        stmt_spec(s, p) matches Some(Stmt::Assign(_, v, _)) ==> wf_expr(v),
{
    reveal(stmt_spec);
    if 0 <= p && p + 2 < s.len() && s[p] == '@' && s[p + 1] == 'i' && s[p + 2] == 'f' {
        lemma_expr_g(s, p + 3);
    }
    match guard_spec(s, p) {
        Some((g, q)) => {
            lemma_pair_g(s, q);
            match (g, pair_spec(s, q)) {
                (Some(c), Some((_, v, _))) => {
                    lemma_wf_pairs(seq![(c, v)]);
                },
                _ => {},
            }
        },
        None => {},
    }
}

pub open spec fn wf_block(b: BlockV) -> bool {
    wf_expr(b.2) && (b.1 matches Some(g) ==> wf_expr(g))
}

proof fn lemma_close_wf(root: ExprV, b: BlockV)
    requires
        wf_expr(root),
        wf_block(b),
    ensures
        wf_expr(close_spec(root, b)),
{
    let guarded = match b.1 {
        Some(g) => ExprV::Anno(seq![(g, b.2)], None),
        None => b.2,
    };
    if b.1 is Some {
        lemma_wf_pairs(seq![(b.1->0, b.2)]);
    }
    assert(wf_expr(guarded));
    lemma_wf_exprs(seq![guarded]);
    match b.0 {
        Some((keys, a)) => {
            let inner = if a { ExprV::Array(seq![guarded]) } else { guarded };
            lemma_nest_wf(keys, inner);
        },
        None => {},
    }
    match block_spec(b.0, b.1, b.2) {
        Some(x) => lemma_merge_expr_wf(root, x),
        None => {},
    }
}

proof fn lemma_doc_loop_g(s: Seq<char>, root: ExprV, b: BlockV, p: int)
    requires
        wf_expr(root),
        wf_block(b),
    ensures
        doc_loop(s, root, b, p) matches Some(e) ==> wf_expr(e),
    decreases s.len() - p,
{
    if p < 0 || p > s.len() {
    } else if p == s.len() {
        lemma_close_wf(root, b);
    } else {
        lemma_stmt_g(s, p);
        lemma_wf_fields(Seq::<(Seq<char>, ExprV)>::empty());
        match stmt_spec(s, p) {
            Some(Stmt::Header(keys, a, g, q)) => {
                let p2 = ws_spec(s, q);
                if q <= p || p2 < q || p2 > s.len() {
                } else {
                    lemma_close_wf(root, b);
                    lemma_doc_loop_g(s, close_spec(root, b), (Some((keys, a)), g, ExprV::Dict(Seq::empty())), p2);
                }
            },
            Some(Stmt::Assign(keys, v, q)) => {
                let p2 = ws_spec(s, q);
                if q <= p || p2 < q || p2 > s.len() {
                } else {
                    lemma_nest_wf(keys, v);
                    lemma_merge_expr_wf(b.2, nest(keys, v));
                    lemma_doc_loop_g(s, root, (b.0, b.1, merge_expr(b.2, nest(keys, v))), p2);
                }
            },
            None => {},
        }
    }
}

/// Every document the grammar accepts builds a well-formed expression: each
/// of its maps has distinct keys.
pub proof fn lemma_doc_wf(s: Seq<char>)
    ensures
        doc_spec(s) matches Some(e) ==> wf_expr(e),
{
    lemma_wf_fields(Seq::<(Seq<char>, ExprV)>::empty());
    lemma_doc_loop_g(s, ExprV::Dict(Seq::empty()), (None, None, ExprV::Dict(Seq::empty())), ws_spec(s, 0));
}

/// Writing a well-formed expression into a well-formed one keeps it
/// well-formed.
pub proof fn lemma_write_expr_wf(e: ExprV, p: Seq<crate::path::Step>, x: ExprV)
    requires
        wf_expr(e),
        wf_expr(x),
    ensures
        wf_expr(crate::access::write_expr(e, p, x)),
    decreases p.len(),
{
    if p.len() > 0 {
        match p[0] {
            crate::path::Step::Key(k) => {
                let m = match e {
                    ExprV::Dict(m) => m,
                    _ => Seq::empty(),
                };
                lemma_wf_fields(m);
                lemma_field_index(m, k);
                match field_index(m, k) {
                    Some(i) => {
                        lemma_write_expr_wf(m[i].1, p.drop_first(), x);
                        let r = m.update(i, (k, crate::access::write_expr(m[i].1, p.drop_first(), x)));
                        assert forall|j: int| 0 <= j < r.len() implies #[trigger] wf_expr(r[j].1) by {
                            if j != i {
                                assert(r[j] == m[j]);
                            }
                        }
                        lemma_wf_fields(r);
                    },
                    None => {
                        lemma_write_expr_wf(ExprV::Null, p.drop_first(), x);
                        let r = m.push((k, crate::access::write_expr(ExprV::Null, p.drop_first(), x)));
                        assert forall|j: int| 0 <= j < r.len() implies #[trigger] wf_expr(r[j].1) by {
                            if j < m.len() {
                                assert(r[j] == m[j]);
                            }
                        }
                        lemma_wf_fields(r);
                    },
                }
            },
            crate::path::Step::Index(i) => {
                let a0 = match e {
                    ExprV::Array(a) => a,
                    _ => Seq::empty(),
                };
                let a = crate::access::pad(a0, i);
                lemma_wf_exprs(a0);
                assert forall|j: int| 0 <= j < a.len() implies #[trigger] wf_expr(a[j]) by {
                    if j >= a0.len() {
                        assert(a[j] == ExprV::Null);
                    } else {
                        assert(a[j] == a0[j]);
                    }
                }
                lemma_write_expr_wf(a[i as int], p.drop_first(), x);
                let r = a.update(i as int, crate::access::write_expr(a[i as int], p.drop_first(), x));
                assert forall|j: int| 0 <= j < r.len() implies #[trigger] wf_expr(r[j]) by {
                    if j != i {
                        assert(r[j] == a[j]);
                    }
                }
                lemma_wf_exprs(r);
            },
        }
    }
}

} // verus!
