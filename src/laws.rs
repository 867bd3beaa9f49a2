use vstd::prelude::*;
use crate::builder::{fold_spec, fold_from, chain, reduce_level, bin, nest};
use crate::parser::block_spec;
use crate::expr::{ExprV, non_convergence_msg, eval_spec, eval_anno, eval_fields, eval_items, eval_list, anno_len, merge_expr, merge_fields, merge_field, field_index, evaluate_spec, passes, ref_path, name_steps};
use crate::path::{lookup, step, parent_of};
use crate::value::{dict_get, wf_val, lemma_wf_values};
use crate::ops::{BinOp, level_of, RELATIONAL_LEVEL};
use crate::path::Step;
use crate::value::{Val, merge, merge_entries, merge_entry, dict_index, lemma_dict_index, lemma_dict_index_first};

verus! {

broadcast use {vstd::seq::axiom_seq_index_decreases, vstd::seq::axiom_seq_subrange_decreases};

pub open spec fn unique_keys(m: Seq<(Seq<char>, Val)>) -> bool {
    forall|i: int, j: int| 0 <= i < m.len() && 0 <= j < m.len() && i != j ==> m[i].0 != m[j].0
}

/// Every value of the map is a scalar: neither a sequence nor a map.
pub open spec fn scalar_leaves(m: Seq<(Seq<char>, Val)>) -> bool {
    forall|i: int| 0 <= i < m.len() ==> !(#[trigger] m[i].1 is Arr) && !(m[i].1 is Dict)
}

proof fn lemma_index_of_own_key(m: Seq<(Seq<char>, Val)>, j: int)
    requires
        unique_keys(m),
        0 <= j < m.len(),
    ensures
        dict_index(m, m[j].0) == Some(j),
{
    lemma_dict_index(m, m[j].0);
}

proof fn lemma_merge_suffix_into_self(m: Seq<(Seq<char>, Val)>, k: int)
    requires
        unique_keys(m),
        scalar_leaves(m),
        0 <= k <= m.len(),
    ensures
        merge_entries(m, m.subrange(k, m.len() as int)) == m,
    decreases m.len() - k,
{
    let incs = m.subrange(k, m.len() as int);
    if k < m.len() {
        assert(incs[0] == m[k]);
        lemma_index_of_own_key(m, k);
        assert(merge(m[k].1, m[k].1) == m[k].1);
        assert(merge_entry(m, incs[0]) =~= m);
        assert(incs.drop_first() =~= m.subrange(k + 1, m.len() as int));
        lemma_merge_suffix_into_self(m, k + 1);
    }
}

/// Merging a map whose keys are distinct and whose values are all scalars
/// into itself gives the map back; so merging the same fragment twice gives
/// what merging it once gives.
pub proof fn lemma_merge_idempotent(m: Seq<(Seq<char>, Val)>)
    requires
        unique_keys(m),
        scalar_leaves(m),
    ensures
        merge(Val::Dict(m), Val::Dict(m)) == Val::Dict(m),
        merge(merge(Val::Dict(m), Val::Dict(m)), Val::Dict(m)) == merge(Val::Dict(m), Val::Dict(m)),
{
    lemma_merge_suffix_into_self(m, 0);
    assert(m.subrange(0, m.len() as int) =~= m);
}

pub open spec fn is_scalar(v: Val) -> bool {
    !(v is Arr) && !(v is Dict)
}

proof fn lemma_merge_noop(r: Seq<(Seq<char>, Val)>, incs: Seq<(Seq<char>, Val)>)
    requires
        forall|j: int| 0 <= j < incs.len() ==> is_scalar(#[trigger] incs[j].1) && dict_get(r, incs[j].0) == Some(incs[j].1),
    ensures
        merge_entries(r, incs) == r,
    decreases incs.len(),
{
    if incs.len() > 0 {
        let e = incs[0];
        assert(is_scalar(e.1) && dict_get(r, e.0) == Some(e.1));
        lemma_dict_index(r, e.0);
        let i = dict_index(r, e.0)->0;
        assert(merge(r[i].1, e.1) == e.1);
        assert(merge_entry(r, e) =~= r);
        assert forall|j: int| 0 <= j < incs.drop_first().len() implies is_scalar(#[trigger] incs.drop_first()[j].1)
            && dict_get(r, incs.drop_first()[j].0) == Some(incs.drop_first()[j].1) by {
            assert(incs.drop_first()[j] == incs[j + 1]);
        }
        lemma_merge_noop(r, incs.drop_first());
    }
}

/// Two maps with the same keys in the same order find a key at the same
/// index.
proof fn lemma_same_keys_index(m: Seq<(Seq<char>, Val)>, r: Seq<(Seq<char>, Val)>, k: Seq<char>)
    requires
        m.len() == r.len(),
        forall|i: int| 0 <= i < m.len() ==> #[trigger] m[i].0 == r[i].0,
    ensures
        dict_index(m, k) == dict_index(r, k),
{
    lemma_dict_index(m, k);
    lemma_dict_index(r, k);
    match dict_index(m, k) {
        Some(i) => {
            assert(r[i].0 == k);
            assert forall|j: int| 0 <= j < i implies r[j].0 != k by {
                assert(m[j].0 == r[j].0);
            }
            lemma_dict_index_first(r, k, i);
        },
        None => {
            assert forall|j: int| 0 <= j < r.len() implies r[j].0 != k by {
                assert(m[j].0 == r[j].0);
            }
            lemma_dict_index_first(r, k, r.len() as int);
        },
    }
}

proof fn lemma_get_after_entry(m: Seq<(Seq<char>, Val)>, e: (Seq<char>, Val), k: Seq<char>)
    requires
        k != e.0,
    ensures
        dict_get(merge_entry(m, e), k) == dict_get(m, k),
{
    lemma_dict_index(m, e.0);
    lemma_dict_index(m, k);
    match dict_index(m, e.0) {
        Some(i) => {
            let r = m.update(i, (e.0, merge(m[i].1, e.1)));
            lemma_same_keys_index(m, r, k);
            match dict_index(m, k) {
                Some(j) => {
                    assert(j != i);
                    assert(r[j] == m[j]);
                },
                None => {},
            }
        },
        None => {
            let r = m.push(e);
            lemma_dict_index(r, k);
            match dict_index(m, k) {
                Some(j) => {
                    assert(r[j] == m[j]);
                    assert forall|x: int| 0 <= x < j implies r[x].0 != k by {
                        assert(r[x] == m[x]);
                    }
                    lemma_dict_index_first(r, k, j);
                },
                None => {
                    assert forall|x: int| 0 <= x < r.len() implies r[x].0 != k by {
                        if x < m.len() {
                            assert(r[x] == m[x]);
                        }
                    }
                    lemma_dict_index_first(r, k, r.len() as int);
                },
            }
        },
    }
}

proof fn lemma_get_after_entries(m: Seq<(Seq<char>, Val)>, incs: Seq<(Seq<char>, Val)>, k: Seq<char>)
    requires
        forall|j: int| 0 <= j < incs.len() ==> (#[trigger] incs[j]).0 != k,
    ensures
        dict_get(merge_entries(m, incs), k) == dict_get(m, k),
    decreases incs.len(),
{
    if incs.len() > 0 {
        assert(incs[0].0 != k);
        lemma_get_after_entry(m, incs[0], k);
        assert forall|j: int| 0 <= j < incs.drop_first().len() implies (#[trigger] incs.drop_first()[j]).0 != k by {
            assert(incs.drop_first()[j] == incs[j + 1]);
        }
        lemma_get_after_entries(merge_entry(m, incs[0]), incs.drop_first(), k);
    }
}

proof fn lemma_merge_sets(m: Seq<(Seq<char>, Val)>, f: Seq<(Seq<char>, Val)>)
    requires
        unique_keys(f),
        forall|j: int| 0 <= j < f.len() ==> is_scalar(#[trigger] f[j].1),
        forall|j: int| 0 <= j < f.len() ==> (#[trigger] dict_get(m, f[j].0) matches Some(v) ==> !(v is Arr)),
    ensures
        forall|j: int| 0 <= j < f.len() ==> #[trigger] dict_get(merge_entries(m, f), f[j].0) == Some(f[j].1),
    decreases f.len(),
{
    if f.len() > 0 {
        let e = f[0];
        let rest = f.drop_first();
        let m2 = merge_entry(m, e);
        assert(is_scalar(e.1));
        assert(dict_get(m, f[0].0) matches Some(v) ==> !(v is Arr));
        lemma_dict_index(m, e.0);
        match dict_index(m, e.0) {
            Some(i) => {
                assert(merge(m[i].1, e.1) == e.1);
                let r = m.update(i, (e.0, e.1));
                lemma_same_keys_index(m, r, e.0);
            },
            None => {
                assert forall|x: int| 0 <= x < m.len() implies m.push(e)[x].0 != e.0 by {
                    assert(m.push(e)[x] == m[x]);
                }
                lemma_dict_index_first(m.push(e), e.0, m.len() as int);
            },
        }
        assert(dict_get(m2, e.0) == Some(e.1));
        assert forall|j: int| 0 <= j < rest.len() implies (#[trigger] rest[j]).0 != e.0 by {
            assert(rest[j] == f[j + 1]);
        }
        lemma_get_after_entries(m2, rest, e.0);
        assert(unique_keys(rest)) by {
            assert forall|i: int, j: int| 0 <= i < rest.len() && 0 <= j < rest.len() && i != j implies rest[i].0 != rest[j].0 by {
                assert(rest[i] == f[i + 1]);
                assert(rest[j] == f[j + 1]);
            }
        }
        assert forall|j: int| 0 <= j < rest.len() implies is_scalar(#[trigger] rest[j].1) by {
            assert(rest[j] == f[j + 1]);
        }
        assert forall|j: int| 0 <= j < rest.len() implies (#[trigger] dict_get(m2, rest[j].0) matches Some(v) ==> !(v is Arr)) by {
            assert(rest[j] == f[j + 1]);
            lemma_get_after_entry(m, e, rest[j].0);
            assert(dict_get(m, f[j + 1].0) matches Some(v) ==> !(v is Arr));
        }
        lemma_merge_sets(m2, rest);
        assert forall|j: int| 0 <= j < f.len() implies #[trigger] dict_get(merge_entries(m, f), f[j].0) == Some(f[j].1) by {
            if j > 0 {
                assert(rest[j - 1] == f[j]);
                assert(dict_get(merge_entries(m2, rest), rest[j - 1].0) == Some(rest[j - 1].1));
            }
        }
    }
}

/// Applying the same map fragment, with distinct keys and scalar values, to
/// a map twice gives what applying it once gives, wherever the map holds no
/// sequence under one of the fragment's keys (a sequence takes each merge as
/// one more element).
pub proof fn lemma_merge_fragment_idempotent(t: Seq<(Seq<char>, Val)>, f: Seq<(Seq<char>, Val)>)
    requires
        unique_keys(f),
        scalar_leaves(f),
        forall|j: int| 0 <= j < f.len() ==> (#[trigger] dict_get(t, f[j].0) matches Some(v) ==> !(v is Arr)),
    ensures
        merge(merge(Val::Dict(t), Val::Dict(f)), Val::Dict(f)) == merge(Val::Dict(t), Val::Dict(f)),
{
    assert forall|j: int| 0 <= j < f.len() implies is_scalar(#[trigger] f[j].1) by {
        assert(!(f[j].1 is Arr) && !(f[j].1 is Dict));
    }
    lemma_merge_sets(t, f);
    let r = merge_entries(t, f);
    assert forall|j: int| 0 <= j < f.len() implies is_scalar(#[trigger] f[j].1) && dict_get(r, f[j].0) == Some(f[j].1) by {}
    lemma_merge_noop(r, f);
}

/// Merging into a sequence always appends, so merging the same value twice
/// differs from merging it once.
pub proof fn lemma_merge_sequence_appends(a: Seq<Val>, v: Val)
    ensures
        merge(Val::Arr(a), v) == Val::Arr(a.push(v)),
        merge(merge(Val::Arr(a), v), v) == Val::Arr(a.push(v).push(v)),
        merge(merge(Val::Arr(a), v), v) != merge(Val::Arr(a), v),
{
    assert(a.push(v).push(v).len() != a.push(v).len());
}

/// Of two guarded variants merged for the same field, where the first guard
/// is resolved and true, the first variant gives the value, whatever the
/// second guard holds.
pub proof fn lemma_first_true_guard_wins(
    c1: ExprV,
    v1: ExprV,
    c2: ExprV,
    v2: ExprV,
    path: Seq<Step>,
    snap: Val,
)
    requires
        eval_spec(c1, path, snap) == Ok::<(Val, bool), Seq<char>>((Val::Bool(true), true)),
    ensures
        merge_expr(ExprV::Anno(seq![(c1, v1)], None), ExprV::Anno(seq![(c2, v2)], None))
            == ExprV::Anno(seq![(c1, v1), (c2, v2)], None),
        eval_spec(
            merge_expr(ExprV::Anno(seq![(c1, v1)], None), ExprV::Anno(seq![(c2, v2)], None)),
            path,
            snap,
        ) == eval_spec(v1, path, snap),
{
    let e = ExprV::Anno(seq![(c1, v1), (c2, v2)], None);
    assert(seq![(c1, v1)] + seq![(c2, v2)] =~= seq![(c1, v1), (c2, v2)]);
    assert(eval_spec(e, path, snap) == eval_anno(e, 0, path, snap));
}

proof fn lemma_merge_nest(keys: Seq<Seq<char>>, x: ExprV, y: ExprV)
    requires
        keys.len() > 0,
    ensures
        merge_expr(nest(keys, x), nest(keys, y)) == nest(keys, merge_expr(x, y)),
    decreases keys.len(),
{
    let k = keys[0];
    let rest = keys.drop_first();
    let a = nest(rest, x);
    let b = nest(rest, y);
    let fa = seq![(k, a)];
    let fb = seq![(k, b)];
    assert(field_index(fa, k) == Some(0int));
    assert(merge_field(fa, fb[0]) == seq![(k, merge_expr(a, b))]);
    assert(fb.drop_first() =~= Seq::<(Seq<char>, ExprV)>::empty());
    assert(merge_fields(fa, fb) == merge_fields(merge_field(fa, fb[0]), fb.drop_first()));
    if rest.len() > 0 {
        lemma_merge_nest(rest, x, y);
    }
}

/// Two array-head blocks under the same header path, added in order to a
/// document that holds nothing yet, give a sequence of two elements, each
/// block's content, in declaration order.
pub proof fn lemma_array_of_tables(keys: Seq<Seq<char>>, b1: ExprV, b2: ExprV)
    requires
        keys.len() > 0,
    ensures
        block_spec(Some((keys, true)), None, b1) == Some(nest(keys, ExprV::Array(seq![b1]))),
        block_spec(Some((keys, true)), None, b2) == Some(nest(keys, ExprV::Array(seq![b2]))),
        merge_expr(
            merge_expr(ExprV::Dict(Seq::empty()), block_spec(Some((keys, true)), None, b1)->0),
            block_spec(Some((keys, true)), None, b2)->0,
        ) == nest(keys, ExprV::Array(seq![b1, b2])),
{
    let first = nest(keys, ExprV::Array(seq![b1]));
    let fs = seq![(keys[0], nest(keys.drop_first(), ExprV::Array(seq![b1])))];
    assert(first == ExprV::Dict(fs));
    let empty = Seq::<(Seq<char>, ExprV)>::empty();
    assert(field_index(empty, fs[0].0) is None);
    assert(merge_field(empty, fs[0]) =~= fs);
    assert(fs.drop_first() =~= empty);
    assert(merge_fields(empty, fs) == merge_fields(merge_field(empty, fs[0]), fs.drop_first()));
    assert(merge_expr(ExprV::Dict(empty), first) == first);
    lemma_merge_nest(keys, ExprV::Array(seq![b1]), ExprV::Array(seq![b2]));
    assert(seq![b1] + seq![b2] =~= seq![b1, b2]);
}

/// Two guarded assignments to the same dotted name, merged in their order,
/// keep their guarded variants in that order under the name.
pub proof fn lemma_guarded_assignments_keep_order(keys: Seq<Seq<char>>, c1: ExprV, v1: ExprV, c2: ExprV, v2: ExprV)
    requires
        keys.len() > 0,
    ensures
        merge_expr(
            nest(keys, ExprV::Anno(seq![(c1, v1)], None)),
            nest(keys, ExprV::Anno(seq![(c2, v2)], None)),
        ) == nest(keys, ExprV::Anno(seq![(c1, v1), (c2, v2)], None)),
{
    lemma_merge_nest(keys, ExprV::Anno(seq![(c1, v1)], None), ExprV::Anno(seq![(c2, v2)], None));
    assert(seq![(c1, v1)] + seq![(c2, v2)] =~= seq![(c1, v1), (c2, v2)]);
}

proof fn lemma_reduce_untouched(es: Seq<ExprV>, ops: Seq<BinOp>, lvl: nat)
    requires
        es.len() == ops.len() + 1,
        forall|i: int| 0 <= i < ops.len() ==> level_of(#[trigger] ops[i]) != lvl,
    ensures
        reduce_level(es, ops, lvl) == (es, ops),
    decreases ops.len(),
{
    if ops.len() > 0 {
        lemma_reduce_untouched(es.drop_first(), ops.drop_first(), lvl);
        assert(seq![es[0]] + es.drop_first() =~= es);
        assert(seq![ops[0]] + ops.drop_first() =~= ops);
    }
}

/// `a < b < c`, and any chain of two relational operators, builds the same
/// tree as `(a < b) && (b < c)`, and so evaluates identically.
pub proof fn lemma_chained_relational(a: ExprV, b: ExprV, c: ExprV, o1: BinOp, o2: BinOp, path: Seq<Step>, snap: Val)
    requires
        level_of(o1) == RELATIONAL_LEVEL,
        level_of(o2) == RELATIONAL_LEVEL,
    ensures
        fold_spec(seq![a, b, c], seq![o1, o2]) == bin(bin(a, o1, b), BinOp::And, bin(b, o2, c)),
        eval_spec(fold_spec(seq![a, b, c], seq![o1, o2]), path, snap) == eval_spec(
            bin(bin(a, o1, b), BinOp::And, bin(b, o2, c)),
            path,
            snap,
        ),
{
    let es = seq![a, b, c];
    let ops = seq![o1, o2];
    lemma_reduce_untouched(es, ops, 0);
    lemma_reduce_untouched(es, ops, 1);
    lemma_reduce_untouched(es, ops, 2);
    lemma_reduce_untouched(es, ops, 3);
    lemma_reduce_untouched(es, ops, 4);
    assert(fold_from(es, ops, 0) == fold_from(es, ops, 1));
    assert(fold_from(es, ops, 1) == fold_from(es, ops, 2));
    assert(fold_from(es, ops, 2) == fold_from(es, ops, 3));
    assert(fold_from(es, ops, 3) == fold_from(es, ops, 4));
    assert(fold_from(es, ops, 4) == fold_from(es, ops, 5));
    // the rewrite
    let es_c = seq![a, b, b, c];
    let ops_c = seq![o1, BinOp::And, o2];
    assert(es.drop_first() =~= seq![b, c]);
    assert(ops.drop_first() =~= seq![o2]);
    let inner = chain(seq![b, c], seq![o2]);
    assert(seq![c].drop_first() =~= Seq::<ExprV>::empty());
    assert(seq![o2].drop_first() =~= Seq::<BinOp>::empty());
    assert(chain(seq![c], Seq::<BinOp>::empty()) == (seq![c], Seq::<BinOp>::empty()));
    assert(seq![b, c].drop_first() =~= seq![c]);
    assert(inner == (seq![b] + seq![c], seq![o2] + Seq::<BinOp>::empty()));
    assert(inner.0 =~= seq![b, c]);
    assert(inner.1 =~= seq![o2]);
    assert(chain(es, ops).0 =~= es_c);
    assert(chain(es, ops).1 =~= ops_c);
    // folding the relational level
    let ab = bin(a, o1, b);
    let bc = bin(b, o2, c);
    let s1 = seq![ab] + es_c.subrange(2, 4);
    assert(s1 =~= seq![ab, b, c]);
    assert(ops_c.drop_first() =~= seq![BinOp::And, o2]);
    let r_bc = reduce_level(seq![b, c], seq![o2], 5);
    assert(seq![bc] + seq![b, c].subrange(2, 2) =~= seq![bc]);
    assert(seq![o2].drop_first() =~= Seq::<BinOp>::empty());
    assert(reduce_level(seq![bc], Seq::<BinOp>::empty(), 5) == (seq![bc], Seq::<BinOp>::empty()));
    assert(r_bc == (seq![bc], Seq::<BinOp>::empty()));
    assert(seq![ab, b, c].drop_first() =~= seq![b, c]);
    assert(seq![BinOp::And, o2].drop_first() =~= seq![o2]);
    assert(reduce_level(seq![ab, b, c], seq![BinOp::And, o2], 5) == (seq![ab] + seq![bc], seq![BinOp::And] + Seq::<BinOp>::empty()));
    let es5 = seq![ab, bc];
    let ops5 = seq![BinOp::And];
    assert(seq![ab] + seq![bc] =~= es5);
    assert(seq![BinOp::And] + Seq::<BinOp>::empty() =~= ops5);
    assert(reduce_level(es_c, ops_c, 5) == (es5, ops5));
    assert(fold_from(es, ops, 5) == fold_from(es5, ops5, 6));
    lemma_reduce_untouched(es5, ops5, 6);
    assert(fold_from(es5, ops5, 6) == fold_from(es5, ops5, 7));
    let top = bin(ab, BinOp::And, bc);
    assert(seq![top] + es5.subrange(2, 2) =~= seq![top]);
    assert(ops5.drop_first() =~= Seq::<BinOp>::empty());
    assert(reduce_level(seq![top], Seq::<BinOp>::empty(), 7) == (seq![top], Seq::<BinOp>::empty()));
    assert(reduce_level(es5, ops5, 7) == (seq![top], Seq::<BinOp>::empty()));
    assert(fold_from(es5, ops5, 7) == fold_from(seq![top], Seq::<BinOp>::empty(), 8));
    assert(reduce_level(seq![top], Seq::<BinOp>::empty(), 8) == (seq![top], Seq::<BinOp>::empty()));
    assert(fold_from(seq![top], Seq::<BinOp>::empty(), 8) == fold_from(seq![top], Seq::<BinOp>::empty(), 9));
    assert(fold_from(seq![top], Seq::<BinOp>::empty(), 9) == seq![top]);
}

/// Every value of the map is absent.
pub open spec fn all_absent(m: Seq<(Seq<char>, Val)>) -> bool {
    forall|i: int| 0 <= i < m.len() ==> #[trigger] m[i].1 == Val::Absent
}

proof fn lemma_lookup_placeholder(snap: Val, t: Seq<char>, m: Seq<(Seq<char>, Val)>, x: Seq<char>)
    requires
        snap == Val::Absent || snap == Val::Dict(seq![(t, Val::Dict(m))]),
        all_absent(m),
    ensures
        lookup(snap, seq![Step::Key(t), Step::Key(x)]) matches Some(v) ==> v == Val::Absent,
{
    let p = seq![Step::Key(t), Step::Key(x)];
    assert(p.drop_first() =~= seq![Step::Key(x)]);
    assert(p.drop_first().drop_first() =~= Seq::<Step>::empty());
    assert(p[0] == Step::Key(t));
    assert(p.drop_first()[0] == Step::Key(x));
    if snap == Val::Absent {
        assert(step(snap, p[0]) is None);
        assert(lookup(snap, p) is None);
    } else {
        assert(lookup(snap, p) == lookup(Val::Dict(m), p.drop_first())) by {
            assert(dict_index(seq![(t, Val::Dict(m))], t) == Some(0int));
        }
        lemma_dict_index(m, x);
        match dict_index(m, x) {
            Some(i) => {
                assert(m[i].1 == Val::Absent);
                assert(step(Val::Dict(m), Step::Key(x)) == Some(Val::Absent));
                assert(lookup(Val::Absent, p.drop_first().drop_first()) == Some(Val::Absent));
                assert(lookup(Val::Dict(m), p.drop_first()) == Some(Val::Absent));
            },
            None => {
                assert(step(Val::Dict(m), Step::Key(x)) is None);
                assert(lookup(Val::Dict(m), p.drop_first()) is None);
            },
        }
    }
}

/// The reference `x` written in the field `f` of the table `t` looks up the
/// path `t.x`.
proof fn lemma_sibling_path(t: Seq<char>, f: Seq<char>, x: Seq<char>)
    ensures
        ref_path(seq![Step::Key(t), Step::Key(f)], seq![x]) == seq![Step::Key(t), Step::Key(x)],
{
    let here = seq![Step::Key(t), Step::Key(f)];
    assert(parent_of(here) =~= seq![Step::Key(t)]);
    assert(name_steps(seq![x]) =~= seq![Step::Key(x)]);
    assert(ref_path(here, seq![x]) =~= seq![Step::Key(t), Step::Key(x)]);
}

/// The one-table document `{ t: { fields } }` evaluates its fields at `t.f`.
proof fn lemma_table_pass(t: Seq<char>, fields: Seq<(Seq<char>, ExprV)>, snap: Val)
    ensures
        eval_spec(ExprV::Dict(seq![(t, ExprV::Dict(fields))]), Seq::empty(), snap) == match eval_fields(
            fields,
            seq![Step::Key(t)],
            snap,
        ) {
            Ok((es, ok)) => Ok::<(Val, bool), Seq<char>>((Val::Dict(seq![(t, Val::Dict(es))]), ok)),
            Err(m) => Err(m),
        },
{
    let top = seq![(t, ExprV::Dict(fields))];
    assert(top.drop_last() =~= Seq::<(Seq<char>, ExprV)>::empty());
    assert(top.last() == (t, ExprV::Dict(fields)));
    assert(eval_spec(ExprV::Dict(fields), seq![Step::Key(t)], snap) == match eval_fields(fields, seq![Step::Key(t)], snap) {
        Ok((es, ok)) => Ok::<(Val, bool), Seq<char>>((Val::Dict(es), ok)),
        Err(m) => Err(m),
    });
    assert(Seq::<Step>::empty().push(Step::Key(t)) =~= seq![Step::Key(t)]);
    assert(eval_fields(top.drop_last(), Seq::empty(), snap) == Ok::<(Seq<(Seq<char>, Val)>, bool), Seq<char>>((Seq::empty(), true)));
    assert(Seq::<(Seq<char>, Val)>::empty().push((t, Val::Absent)) =~= seq![(t, Val::Absent)]);
    match eval_fields(fields, seq![Step::Key(t)], snap) {
        Ok((es, ok)) => {
            assert(Seq::<(Seq<char>, Val)>::empty().push((t, Val::Dict(es))) =~= seq![(t, Val::Dict(es))]);
            assert(eval_fields(top, Seq::empty(), snap) == Ok::<(Seq<(Seq<char>, Val)>, bool), Seq<char>>((
                seq![(t, Val::Dict(es))],
                ok,
            )));
        },
        Err(m) => {
            assert(eval_fields(top, Seq::empty(), snap) == Err::<(Seq<(Seq<char>, Val)>, bool), Seq<char>>(m));
        },
    }
}

/// A field that refers to itself (`a = a` in table `t`) never resolves: each
/// pass finds only the absent placeholder of the pass before, and evaluation
/// ends in the non-convergence error.
pub proof fn lemma_self_reference_never_resolves(t: Seq<char>, a: Seq<char>)
    ensures
        evaluate_spec(ExprV::Dict(seq![(t, ExprV::Dict(seq![(a, ExprV::Name(seq![a]))]))]))
            == Err::<Val, Seq<char>>(non_convergence_msg()),
{
    let fields = seq![(a, ExprV::Name(seq![a]))];
    let doc = ExprV::Dict(seq![(t, ExprV::Dict(fields))]);
    let m = seq![(a, Val::Absent)];
    let d = Val::Dict(seq![(t, Val::Dict(m))]);
    assert(all_absent(m));
    assert forall|snap: Val| snap == Val::Absent || snap == d implies eval_spec(doc, Seq::empty(), snap)
        == Ok::<(Val, bool), Seq<char>>((d, false)) by {
        lemma_sibling_path(t, a, a);
        lemma_lookup_placeholder(snap, t, m, a);
        let here = Seq::<Step>::empty().push(Step::Key(t)).push(Step::Key(a));
        assert(here =~= seq![Step::Key(t), Step::Key(a)]);
        assert(eval_spec(ExprV::Name(seq![a]), here, snap) == Ok::<(Val, bool), Seq<char>>((Val::Absent, false)));
        assert(fields.drop_last() =~= Seq::<(Seq<char>, ExprV)>::empty());
        assert(seq![Step::Key(t)].push(Step::Key(a)) =~= here);
        assert(eval_fields(fields.drop_last(), seq![Step::Key(t)], snap) == Ok::<(Seq<(Seq<char>, Val)>, bool), Seq<char>>((Seq::empty(), true)));
        assert(Seq::<(Seq<char>, Val)>::empty().push((a, Val::Absent)) =~= m);
        lemma_table_pass(t, fields, snap);
    }
    assert(passes(doc, d, 0) == Err::<Val, Seq<char>>(non_convergence_msg()));
    assert(passes(doc, d, 1) == passes(doc, d, 0));
    assert(passes(doc, d, 2) == passes(doc, d, 1));
    assert(passes(doc, Val::Absent, 3) == passes(doc, d, 2));
}

/// Two fields that refer to each other (`a = b + 1`, `b = a + 1` in table
/// `t`) never resolve: evaluation ends in the non-convergence error, not in
/// an operator error.
pub proof fn lemma_cycle_never_resolves(t: Seq<char>, a: Seq<char>, b: Seq<char>)
    ensures
        evaluate_spec(
            ExprV::Dict(
                seq![
                    (
                        t,
                        ExprV::Dict(
                            seq![
                                (a, bin(ExprV::Name(seq![b]), BinOp::Add, ExprV::Value(Val::Int(1)))),
                                (b, bin(ExprV::Name(seq![a]), BinOp::Add, ExprV::Value(Val::Int(1)))),
                            ],
                        ),
                    ),
                ],
            ),
        ) == Err::<Val, Seq<char>>(non_convergence_msg()),
{
    let ea = bin(ExprV::Name(seq![b]), BinOp::Add, ExprV::Value(Val::Int(1)));
    let eb = bin(ExprV::Name(seq![a]), BinOp::Add, ExprV::Value(Val::Int(1)));
    let fields = seq![(a, ea), (b, eb)];
    let doc = ExprV::Dict(seq![(t, ExprV::Dict(fields))]);
    let m = seq![(a, Val::Absent), (b, Val::Absent)];
    let d = Val::Dict(seq![(t, Val::Dict(m))]);
    assert(all_absent(m));
    assert forall|snap: Val| snap == Val::Absent || snap == d implies eval_spec(doc, Seq::empty(), snap)
        == Ok::<(Val, bool), Seq<char>>((d, false)) by {
        let ta = seq![Step::Key(t)].push(Step::Key(a));
        let tb = seq![Step::Key(t)].push(Step::Key(b));
        assert(ta =~= seq![Step::Key(t), Step::Key(a)]);
        assert(tb =~= seq![Step::Key(t), Step::Key(b)]);
        lemma_sibling_path(t, a, b);
        lemma_sibling_path(t, b, a);
        lemma_lookup_placeholder(snap, t, m, a);
        lemma_lookup_placeholder(snap, t, m, b);
        assert(eval_spec(ExprV::Name(seq![b]), ta, snap) == Ok::<(Val, bool), Seq<char>>((Val::Absent, false)));
        assert(eval_spec(ExprV::Name(seq![a]), tb, snap) == Ok::<(Val, bool), Seq<char>>((Val::Absent, false)));
        assert(eval_spec(ExprV::Value(Val::Int(1)), ta, snap) == Ok::<(Val, bool), Seq<char>>((Val::Int(1), true)));
        assert(eval_spec(ExprV::Value(Val::Int(1)), tb, snap) == Ok::<(Val, bool), Seq<char>>((Val::Int(1), true)));
        assert(eval_spec(ea, ta, snap) == Ok::<(Val, bool), Seq<char>>((Val::Absent, false)));
        assert(eval_spec(eb, tb, snap) == Ok::<(Val, bool), Seq<char>>((Val::Absent, false)));
        let f1 = fields.drop_last();
        assert(f1 =~= seq![(a, ea)]);
        assert(f1.drop_last() =~= Seq::<(Seq<char>, ExprV)>::empty());
        assert(eval_fields(f1.drop_last(), seq![Step::Key(t)], snap) == Ok::<(Seq<(Seq<char>, Val)>, bool), Seq<char>>((Seq::empty(), true)));
        assert(eval_fields(f1, seq![Step::Key(t)], snap) == Ok::<(Seq<(Seq<char>, Val)>, bool), Seq<char>>((Seq::empty().push((a, Val::Absent)), false)));
        assert(Seq::<(Seq<char>, Val)>::empty().push((a, Val::Absent)).push((b, Val::Absent)) =~= m);
        assert(eval_fields(fields, seq![Step::Key(t)], snap) == Ok::<(Seq<(Seq<char>, Val)>, bool), Seq<char>>((m, false)));
        lemma_table_pass(t, fields, snap);
    }
    assert(passes(doc, d, 0) == Err::<Val, Seq<char>>(non_convergence_msg()));
    assert(passes(doc, d, 1) == passes(doc, d, 0));
    assert(passes(doc, d, 2) == passes(doc, d, 1));
    assert(passes(doc, Val::Absent, 3) == passes(doc, d, 2));
}

/// No node of the expression is a name reference.
pub open spec fn no_refs(e: ExprV) -> bool
    decreases e, 2nat,
{
    match e {
        ExprV::Null => true,
        ExprV::Value(_) => true,
        ExprV::Array(a) => no_refs_seq(a),
        ExprV::Dict(m) => no_refs_fields(m),
        ExprV::Name(_) => false,
        ExprV::Prefix(_, x) => no_refs(*x),
        ExprV::Suffix(x, _) => no_refs(*x),
        ExprV::Op2(l, _, r) => no_refs(*l) && no_refs(*r),
        ExprV::Op3(c, t, f) => no_refs(*c) && no_refs(*t) && no_refs(*f),
        ExprV::Format(_, xs) => no_refs_seq(xs),
        ExprV::Anno(ps, d) => no_refs_pairs(ps) && match d {
            Some(x) => no_refs(*x),
            None => true,
        },
    }
}

pub open spec fn no_refs_seq(s: Seq<ExprV>) -> bool
    decreases s, 1nat,
{
    s.len() == 0 || (no_refs_seq(s.drop_last()) && no_refs(s.last()))
}

pub open spec fn no_refs_fields(s: Seq<(Seq<char>, ExprV)>) -> bool
    decreases s, 1nat,
{
    s.len() == 0 || (no_refs_fields(s.drop_last()) && no_refs(s.last().1))
}

pub open spec fn no_refs_pairs(s: Seq<(ExprV, ExprV)>) -> bool
    decreases s, 1nat,
{
    s.len() == 0 || (no_refs_pairs(s.drop_last()) && no_refs(s.last().0) && no_refs(s.last().1))
}

proof fn lemma_no_refs_pairs_at(s: Seq<(ExprV, ExprV)>, i: int)
    requires
        no_refs_pairs(s),
        0 <= i < s.len(),
    ensures
        no_refs(s[i].0) && no_refs(s[i].1),
    decreases s.len(),
{
    if i < s.len() - 1 {
        lemma_no_refs_pairs_at(s.drop_last(), i);
    }
}

/// Without references, a pass neither depends on the snapshot nor leaves
/// anything unresolved.
pub proof fn lemma_no_refs_eval(e: ExprV, path: Seq<Step>, s1: Val, s2: Val)
    requires
        no_refs(e),
    ensures
        eval_spec(e, path, s1) == eval_spec(e, path, s2),
        eval_spec(e, path, s1) matches Ok((_, b)) ==> b,
    decreases e, 2nat, 0int,
{
    match e {
        ExprV::Array(a) => lemma_no_refs_items(a, path, s1, s2),
        ExprV::Dict(m) => lemma_no_refs_fields(m, path, s1, s2),
        ExprV::Prefix(_, x) => lemma_no_refs_eval(*x, path, s1, s2),
        ExprV::Suffix(x, _) => lemma_no_refs_eval(*x, path, s1, s2),
        ExprV::Op2(l, _, r) => {
            lemma_no_refs_eval(*l, path, s1, s2);
            lemma_no_refs_eval(*r, path, s1, s2);
        },
        ExprV::Op3(c, t, f) => {
            lemma_no_refs_eval(*c, path, s1, s2);
            lemma_no_refs_eval(*t, path, s1, s2);
            lemma_no_refs_eval(*f, path, s1, s2);
        },
        ExprV::Format(_, xs) => lemma_no_refs_list(xs, path, s1, s2),
        ExprV::Anno(_, _) => lemma_no_refs_anno(e, 0, path, s1, s2),
        _ => {},
    }
}

proof fn lemma_no_refs_items(s: Seq<ExprV>, path: Seq<Step>, s1: Val, s2: Val)
    requires
        no_refs_seq(s),
    ensures
        eval_items(s, path, s1) == eval_items(s, path, s2),
        eval_items(s, path, s1) matches Ok((_, b)) ==> b,
    decreases s, 1nat, 0int,
{
    if s.len() > 0 {
        lemma_no_refs_items(s.drop_last(), path, s1, s2);
        lemma_no_refs_eval(s.last(), path.push(Step::Index((s.len() - 1) as nat)), s1, s2);
    }
}

proof fn lemma_no_refs_list(s: Seq<ExprV>, path: Seq<Step>, s1: Val, s2: Val)
    requires
        no_refs_seq(s),
    ensures
        eval_list(s, path, s1) == eval_list(s, path, s2),
        eval_list(s, path, s1) matches Ok((_, b)) ==> b,
    decreases s, 1nat, 0int,
{
    if s.len() > 0 {
        lemma_no_refs_list(s.drop_last(), path, s1, s2);
        lemma_no_refs_eval(s.last(), path, s1, s2);
    }
}

proof fn lemma_no_refs_fields(s: Seq<(Seq<char>, ExprV)>, path: Seq<Step>, s1: Val, s2: Val)
    requires
        no_refs_fields(s),
    ensures
        eval_fields(s, path, s1) == eval_fields(s, path, s2),
        eval_fields(s, path, s1) matches Ok((_, b)) ==> b,
    decreases s, 1nat, 0int,
{
    if s.len() > 0 {
        lemma_no_refs_fields(s.drop_last(), path, s1, s2);
        lemma_no_refs_eval(s.last().1, path.push(Step::Key(s.last().0)), s1, s2);
    }
}

proof fn lemma_no_refs_anno(e: ExprV, i: int, path: Seq<Step>, s1: Val, s2: Val)
    requires
        no_refs(e),
        e is Anno,
        0 <= i,
    ensures
        eval_anno(e, i, path, s1) == eval_anno(e, i, path, s2),
        eval_anno(e, i, path, s1) matches Ok((_, b)) ==> b,
    decreases e, 1nat, anno_len(e) - i,
{
    match e {
        ExprV::Anno(ps, d) => {
            if i >= ps.len() {
                match d {
                    Some(x) => lemma_no_refs_eval(*x, path, s1, s2),
                    None => {},
                }
            } else {
                lemma_no_refs_pairs_at(ps, i);
                lemma_no_refs_eval(ps[i].0, path, s1, s2);
                lemma_no_refs_eval(ps[i].1, path, s1, s2);
                lemma_no_refs_anno(e, i + 1, path, s1, s2);
            }
        },
        _ => {},
    }
}

/// A document in which no field refers to another is fully resolved by its
/// first pass, and its evaluation is the outcome of that pass.
pub proof fn lemma_no_refs_single_pass(e: ExprV)
    requires
        no_refs(e),
    ensures
        eval_spec(e, Seq::empty(), Val::Absent) matches Ok((_, b)) ==> b,
        evaluate_spec(e) == match eval_spec(e, Seq::empty(), Val::Absent) {
            Ok((v, _)) => Ok::<Val, Seq<char>>(v),
            Err(m) => Err(m),
        },
{
    lemma_no_refs_eval(e, Seq::empty(), Val::Absent, Val::Absent);
}

/// The expression is plain data: literals in sequences and maps.
pub open spec fn is_literal(e: ExprV) -> bool
    decreases e, 2nat,
{
    match e {
        ExprV::Null => true,
        ExprV::Value(_) => true,
        ExprV::Array(a) => literal_seq(a),
        ExprV::Dict(m) => literal_fields(m),
        _ => false,
    }
}

pub open spec fn literal_seq(s: Seq<ExprV>) -> bool
    decreases s, 1nat,
{
    s.len() == 0 || (literal_seq(s.drop_last()) && is_literal(s.last()))
}

pub open spec fn literal_fields(s: Seq<(Seq<char>, ExprV)>) -> bool
    decreases s, 1nat,
{
    s.len() == 0 || (literal_fields(s.drop_last()) && is_literal(s.last().1))
}

/// The value that plain data stands for.
pub open spec fn literal_val(e: ExprV) -> Val
    decreases e, 2nat,
{
    match e {
        ExprV::Value(v) => v,
        ExprV::Array(a) => Val::Arr(literal_vals(a)),
        ExprV::Dict(m) => Val::Dict(literal_entries(m)),
        _ => Val::Absent,
    }
}

pub open spec fn literal_vals(s: Seq<ExprV>) -> Seq<Val>
    decreases s, 1nat,
{
    if s.len() == 0 {
        Seq::empty()
    } else {
        literal_vals(s.drop_last()).push(literal_val(s.last()))
    }
}

pub open spec fn literal_entries(s: Seq<(Seq<char>, ExprV)>) -> Seq<(Seq<char>, Val)>
    decreases s, 1nat,
{
    if s.len() == 0 {
        Seq::empty()
    } else {
        literal_entries(s.drop_last()).push((s.last().0, literal_val(s.last().1)))
    }
}

proof fn lemma_literal_eval(e: ExprV, path: Seq<Step>, snap: Val)
    requires
        is_literal(e),
    ensures
        eval_spec(e, path, snap) == Ok::<(Val, bool), Seq<char>>((literal_val(e), true)),
    decreases e, 2nat,
{
    match e {
        ExprV::Array(a) => lemma_literal_items(a, path, snap),
        ExprV::Dict(m) => lemma_literal_fields(m, path, snap),
        _ => {},
    }
}

proof fn lemma_literal_items(s: Seq<ExprV>, path: Seq<Step>, snap: Val)
    requires
        literal_seq(s),
    ensures
        eval_items(s, path, snap) == Ok::<(Seq<Val>, bool), Seq<char>>((literal_vals(s), true)),
    decreases s, 1nat,
{
    if s.len() > 0 {
        lemma_literal_items(s.drop_last(), path, snap);
        lemma_literal_eval(s.last(), path.push(Step::Index((s.len() - 1) as nat)), snap);
    }
}

proof fn lemma_literal_fields(s: Seq<(Seq<char>, ExprV)>, path: Seq<Step>, snap: Val)
    requires
        literal_fields(s),
    ensures
        eval_fields(s, path, snap) == Ok::<(Seq<(Seq<char>, Val)>, bool), Seq<char>>((literal_entries(s), true)),
    decreases s, 1nat,
{
    if s.len() > 0 {
        lemma_literal_fields(s.drop_last(), path, snap);
        lemma_literal_eval(s.last().1, path.push(Step::Key(s.last().0)), snap);
    }
}

/// A document of plain data evaluates, in one pass, to exactly the data it
/// writes.
pub proof fn lemma_literal_round_trip(e: ExprV)
    requires
        is_literal(e),
    ensures
        evaluate_spec(e) == Ok::<Val, Seq<char>>(literal_val(e)),
{
    lemma_literal_eval(e, Seq::empty(), Val::Absent);
}

proof fn lemma_two_fields(
    a: (Seq<char>, ExprV),
    b: (Seq<char>, ExprV),
    path: Seq<Step>,
    snap: Val,
    x: (Val, bool),
    y: (Val, bool),
)
    requires
        eval_spec(a.1, path.push(Step::Key(a.0)), snap) == Ok::<(Val, bool), Seq<char>>(x),
        eval_spec(b.1, path.push(Step::Key(b.0)), snap) == Ok::<(Val, bool), Seq<char>>(y),
    ensures
        eval_fields(seq![a, b], path, snap) == Ok::<(Seq<(Seq<char>, Val)>, bool), Seq<char>>((
            seq![(a.0, x.0), (b.0, y.0)],
            x.1 && y.1,
        )),
{
    let f = seq![a, b];
    assert(f.drop_last() =~= seq![a]);
    assert(f.drop_last().drop_last() =~= Seq::<(Seq<char>, ExprV)>::empty());
    assert(eval_fields(seq![a].drop_last(), path, snap) == Ok::<(Seq<(Seq<char>, Val)>, bool), Seq<char>>((Seq::empty(), true)));
    assert(eval_fields(seq![a], path, snap) == Ok::<(Seq<(Seq<char>, Val)>, bool), Seq<char>>((seq![(a.0, x.0)], x.1))) by {
        assert(seq![a].drop_last() =~= Seq::<(Seq<char>, ExprV)>::empty());
        assert(Seq::<(Seq<char>, Val)>::empty().push((a.0, x.0)) =~= seq![(a.0, x.0)]);
    }
    assert(seq![(a.0, x.0)].push((b.0, y.0)) =~= seq![(a.0, x.0), (b.0, y.0)]);
}

proof fn lemma_lookup_table(t: Seq<char>, m: Seq<(Seq<char>, Val)>, k: Seq<char>)
    ensures
        lookup(Val::Dict(seq![(t, Val::Dict(m))]), seq![Step::Key(t), Step::Key(k)]) == dict_get(m, k),
{
    let p = seq![Step::Key(t), Step::Key(k)];
    let root = Val::Dict(seq![(t, Val::Dict(m))]);
    assert(p.drop_first() =~= seq![Step::Key(k)]);
    assert(p.drop_first().drop_first() =~= Seq::<Step>::empty());
    assert(p[0] == Step::Key(t));
    assert(p.drop_first()[0] == Step::Key(k));
    assert(dict_index(seq![(t, Val::Dict(m))], t) == Some(0int));
    assert(step(root, p[0]) == Some(Val::Dict(m)));
    assert(lookup(root, p) == lookup(Val::Dict(m), p.drop_first()));
    assert(step(Val::Dict(m), Step::Key(k)) == dict_get(m, k));
    match dict_get(m, k) {
        Some(x) => {
            assert(lookup(x, p.drop_first().drop_first()) == Some(x));
            assert(lookup(Val::Dict(m), p.drop_first()) == Some(x));
        },
        None => {
            assert(lookup(Val::Dict(m), p.drop_first()) is None);
        },
    }
}

proof fn lemma_get_two(k0: Seq<char>, x0: Val, k1: Seq<char>, x1: Val)
    requires
        k0 != k1,
    ensures
        dict_get(seq![(k0, x0), (k1, x1)], k0) == Some(x0),
        dict_get(seq![(k0, x0), (k1, x1)], k1) == Some(x1),
{
    let m = seq![(k0, x0), (k1, x1)];
    assert(dict_index(m, k0) == Some(0int));
    assert(m.drop_first() =~= seq![(k1, x1)]);
    assert(dict_index(m.drop_first(), k1) == Some(0int));
    assert(dict_index(m, k1) == Some(1int));
}

/// The two fields `v = n` and `nm = v <op> m` of table `t`, in declaration
/// order, or the other way round when `swap` holds.
pub open spec fn forward_doc(t: Seq<char>, v: Seq<char>, nm: Seq<char>, n: i64, op: BinOp, m: i64, swap: bool) -> ExprV {
    let fv = (v, ExprV::Value(Val::Int(n)));
    let fnm = (nm, bin(ExprV::Name(seq![v]), op, ExprV::Value(Val::Int(m))));
    ExprV::Dict(seq![(t, ExprV::Dict(if swap { seq![fnm, fv] } else { seq![fv, fnm] }))])
}

/// A field may refer to a sibling declared before or after it: in either
/// order the reference is resolved on the second pass, and the field gets the
/// operator's value on its sibling.
pub proof fn lemma_forward_reference(
    t: Seq<char>,
    v: Seq<char>,
    nm: Seq<char>,
    n: i64,
    op: BinOp,
    m: i64,
    swap: bool,
)
    requires
        v != nm,
        crate::ops::op2_spec(Val::Int(n), op, Val::Int(m)) is Some,
    ensures
        evaluate_spec(forward_doc(t, v, nm, n, op, m, swap)) is Ok,
        lookup(evaluate_spec(forward_doc(t, v, nm, n, op, m, swap))->Ok_0, seq![Step::Key(t), Step::Key(nm)])
            == crate::ops::op2_spec(Val::Int(n), op, Val::Int(m)),
        lookup(evaluate_spec(forward_doc(t, v, nm, n, op, m, swap))->Ok_0, seq![Step::Key(t), Step::Key(v)])
            == Some(Val::Int(n)),
{
    let doc = forward_doc(t, v, nm, n, op, m, swap);
    let x = crate::ops::op2_spec(Val::Int(n), op, Val::Int(m))->0;
    let ev = ExprV::Value(Val::Int(n));
    let em = ExprV::Value(Val::Int(m));
    let en = bin(ExprV::Name(seq![v]), op, em);
    let fv = (v, ev);
    let fnm = (nm, en);
    let fields = if swap { seq![fnm, fv] } else { seq![fv, fnm] };
    let tp = seq![Step::Key(t)];
    let pv = tp.push(Step::Key(v));
    let pn = tp.push(Step::Key(nm));
    assert(pn =~= seq![Step::Key(t), Step::Key(nm)]);
    lemma_sibling_path(t, nm, v);
    // the first pass: the reference finds nothing
    let d1 = if swap { seq![(nm, Val::Absent), (v, Val::Int(n))] } else { seq![(v, Val::Int(n)), (nm, Val::Absent)] };
    let s1 = Val::Dict(seq![(t, Val::Dict(d1))]);
    assert(step(Val::Absent, Step::Key(t)) is None);
    assert(lookup(Val::Absent, seq![Step::Key(t), Step::Key(v)]) is None);
    assert(eval_spec(ExprV::Name(seq![v]), pn, Val::Absent) == Ok::<(Val, bool), Seq<char>>((Val::Absent, false)));
    assert(eval_spec(em, pn, Val::Absent) == Ok::<(Val, bool), Seq<char>>((Val::Int(m), true)));
    assert(eval_spec(en, pn, Val::Absent) == Ok::<(Val, bool), Seq<char>>((Val::Absent, false)));
    assert(eval_spec(ev, pv, Val::Absent) == Ok::<(Val, bool), Seq<char>>((Val::Int(n), true)));
    if swap {
        lemma_two_fields(fnm, fv, tp, Val::Absent, (Val::Absent, false), (Val::Int(n), true));
    } else {
        lemma_two_fields(fv, fnm, tp, Val::Absent, (Val::Int(n), true), (Val::Absent, false));
    }
    lemma_table_pass(t, fields, Val::Absent);
    assert(eval_spec(doc, Seq::empty(), Val::Absent) == Ok::<(Val, bool), Seq<char>>((s1, false)));
    // the second pass: the reference finds the sibling's value
    lemma_lookup_table(t, d1, v);
    if swap {
        lemma_get_two(nm, Val::Absent, v, Val::Int(n));
    } else {
        lemma_get_two(v, Val::Int(n), nm, Val::Absent);
    }
    assert(lookup(s1, seq![Step::Key(t), Step::Key(v)]) == Some(Val::Int(n)));
    assert(eval_spec(ExprV::Name(seq![v]), pn, s1) == Ok::<(Val, bool), Seq<char>>((Val::Int(n), true)));
    assert(eval_spec(em, pn, s1) == Ok::<(Val, bool), Seq<char>>((Val::Int(m), true)));
    assert(eval_spec(en, pn, s1) == Ok::<(Val, bool), Seq<char>>((x, true)));
    assert(eval_spec(ev, pv, s1) == Ok::<(Val, bool), Seq<char>>((Val::Int(n), true)));
    let d2 = if swap { seq![(nm, x), (v, Val::Int(n))] } else { seq![(v, Val::Int(n)), (nm, x)] };
    if swap {
        lemma_two_fields(fnm, fv, tp, s1, (x, true), (Val::Int(n), true));
    } else {
        lemma_two_fields(fv, fnm, tp, s1, (Val::Int(n), true), (x, true));
    }
    lemma_table_pass(t, fields, s1);
    let r = Val::Dict(seq![(t, Val::Dict(d2))]);
    assert(eval_spec(doc, Seq::empty(), s1) == Ok::<(Val, bool), Seq<char>>((r, true)));
    assert(passes(doc, s1, 2) == Ok::<Val, Seq<char>>(r));
    assert(passes(doc, Val::Absent, 3) == passes(doc, s1, 2));
    lemma_lookup_table(t, d2, v);
    lemma_lookup_table(t, d2, nm);
    if swap {
        lemma_get_two(nm, x, v, Val::Int(n));
    } else {
        lemma_get_two(v, Val::Int(n), nm, x);
    }
}

/// Writing an integer over the field `v` before evaluation replaces its
/// literal, and the sibling that refers to it sees the written value.
pub proof fn lemma_override_before_evaluate(
    t: Seq<char>,
    v: Seq<char>,
    nm: Seq<char>,
    n: i64,
    n2: i64,
    op: BinOp,
    m: i64,
    swap: bool,
)
    requires
        v != nm,
        crate::ops::op2_spec(Val::Int(n2), op, Val::Int(m)) is Some,
    ensures
        crate::access::write_expr(
            forward_doc(t, v, nm, n, op, m, swap),
            seq![Step::Key(t), Step::Key(v)],
            ExprV::Value(Val::Int(n2)),
        ) == forward_doc(t, v, nm, n2, op, m, swap),
        evaluate_spec(forward_doc(t, v, nm, n2, op, m, swap)) is Ok,
        lookup(evaluate_spec(forward_doc(t, v, nm, n2, op, m, swap))->Ok_0, seq![Step::Key(t), Step::Key(nm)])
            == crate::ops::op2_spec(Val::Int(n2), op, Val::Int(m)),
        lookup(evaluate_spec(forward_doc(t, v, nm, n2, op, m, swap))->Ok_0, seq![Step::Key(t), Step::Key(v)])
            == Some(Val::Int(n2)),
{
    let x = ExprV::Value(Val::Int(n2));
    let p = seq![Step::Key(t), Step::Key(v)];
    let en = bin(ExprV::Name(seq![v]), op, ExprV::Value(Val::Int(m)));
    let fv = (v, ExprV::Value(Val::Int(n)));
    let fv2 = (v, x);
    let fnm = (nm, en);
    let fields = if swap { seq![fnm, fv] } else { seq![fv, fnm] };
    let fields2 = if swap { seq![fnm, fv2] } else { seq![fv2, fnm] };
    let top = seq![(t, ExprV::Dict(fields))];
    assert(p[0] == Step::Key(t));
    assert(p.drop_first() =~= seq![Step::Key(v)]);
    assert(p.drop_first()[0] == Step::Key(v));
    assert(p.drop_first().drop_first() =~= Seq::<Step>::empty());
    assert(field_index(top, t) == Some(0int));
    let iv: int = if swap { 1 } else { 0 };
    if swap {
        assert(fields.drop_first() =~= seq![fv]);
        assert(field_index(fields.drop_first(), v) == Some(0int));
    }
    assert(field_index(fields, v) == Some(iv));
    assert(crate::access::write_expr(fields[iv].1, p.drop_first().drop_first(), x) == x);
    assert(crate::access::write_expr(ExprV::Dict(fields), p.drop_first(), x) == ExprV::Dict(fields.update(iv, (v, x))));
    assert(fields.update(iv, (v, x)) =~= fields2);
    assert(top.update(0, (t, ExprV::Dict(fields2))) =~= seq![(t, ExprV::Dict(fields2))]);
    lemma_forward_reference(t, v, nm, n2, op, m, swap);
}

/// No sequence occurs anywhere in the value.
pub open spec fn array_free(v: Val) -> bool
    decreases v, 1nat,
{
    match v {
        Val::Arr(_) => false,
        Val::Dict(m) => array_free_entries(m),
        _ => true,
    }
}

pub open spec fn array_free_entries(m: Seq<(Seq<char>, Val)>) -> bool
    decreases m, 0nat,
{
    m.len() == 0 || (array_free_entries(m.drop_last()) && array_free(m.last().1))
}

proof fn lemma_array_free_entries(m: Seq<(Seq<char>, Val)>)
    ensures
        array_free_entries(m) <==> forall|i: int| 0 <= i < m.len() ==> #[trigger] array_free(m[i].1),
    decreases m.len(),
{
    if m.len() > 0 {
        lemma_array_free_entries(m.drop_last());
        if forall|i: int| 0 <= i < m.len() ==> #[trigger] array_free(m[i].1) {
            assert forall|i: int| 0 <= i < m.drop_last().len() implies #[trigger] array_free(m.drop_last()[i].1) by {
                assert(m.drop_last()[i] == m[i]);
            }
            assert(array_free(m[m.len() - 1].1));
        }
        if array_free_entries(m) {
            assert forall|i: int| 0 <= i < m.len() implies #[trigger] array_free(m[i].1) by {
                if i < m.len() - 1 {
                    assert(m.drop_last()[i] == m[i]);
                }
            }
        }
    }
}

/// `g` holds everything `f` holds: the same scalar, or a map with every key
/// of `f` covering its value there.
pub open spec fn covers(g: Val, f: Val) -> bool
    decreases f, 1nat,
{
    match f {
        Val::Dict(fm) => match g {
            Val::Dict(gm) => covers_entries(gm, fm),
            _ => false,
        },
        _ => g == f,
    }
}

pub open spec fn covers_entries(gm: Seq<(Seq<char>, Val)>, fm: Seq<(Seq<char>, Val)>) -> bool
    decreases fm, 0nat,
{
    fm.len() == 0 || (covers_entries(gm, fm.drop_last()) && match dict_get(gm, fm.last().0) {
        Some(x) => covers(x, fm.last().1),
        None => false,
    })
}

/// The entry `e` is covered in `gm`.
pub open spec fn covered(gm: Seq<(Seq<char>, Val)>, e: (Seq<char>, Val)) -> bool {
    match dict_get(gm, e.0) {
        Some(x) => covers(x, e.1),
        None => false,
    }
}

proof fn lemma_covers_entries(gm: Seq<(Seq<char>, Val)>, fm: Seq<(Seq<char>, Val)>)
    ensures
        covers_entries(gm, fm) <==> forall|i: int| 0 <= i < fm.len() ==> #[trigger] covered(gm, fm[i]),
    decreases fm.len(),
{
    if fm.len() > 0 {
        lemma_covers_entries(gm, fm.drop_last());
        if forall|i: int| 0 <= i < fm.len() ==> #[trigger] covered(gm, fm[i]) {
            assert forall|i: int| 0 <= i < fm.drop_last().len() implies #[trigger] covered(gm, fm.drop_last()[i]) by {
                assert(fm.drop_last()[i] == fm[i]);
            }
            assert(covered(gm, fm[fm.len() - 1]));
        }
        if covers_entries(gm, fm) {
            assert forall|i: int| 0 <= i < fm.len() implies #[trigger] covered(gm, fm[i]) by {
                if i < fm.len() - 1 {
                    assert(fm.drop_last()[i] == fm[i]);
                } else {
                    assert(fm[i] == fm.last());
                }
            }
        }
    }
}

proof fn lemma_covers_self(f: Val)
    requires
        wf_val(f),
    ensures
        covers(f, f),
    decreases f, 2nat,
{
    match f {
        Val::Dict(fm) => {
            lemma_wf_values(fm);
            assert forall|i: int| 0 <= i < fm.len() implies #[trigger] covered(fm, fm[i]) by {
                lemma_index_of_own_key(fm, i);
                assert(decreases_to!(fm => fm[i]));
                lemma_covers_self(fm[i].1);
            }
            lemma_covers_entries(fm, fm);
        },
        _ => {},
    }
}

proof fn lemma_covered_noop(g: Val, f: Val)
    requires
        covers(g, f),
        array_free(f),
    ensures
        merge(g, f) == g,
    decreases f, 2nat,
{
    match f {
        Val::Dict(fm) => {
            let gm = g->Dict_0;
            lemma_covers_entries(gm, fm);
            lemma_array_free_entries(fm);
            lemma_covered_noop_entries(gm, fm);
        },
        _ => {},
    }
}

proof fn lemma_covered_noop_entries(gm: Seq<(Seq<char>, Val)>, fm: Seq<(Seq<char>, Val)>)
    requires
        forall|i: int| 0 <= i < fm.len() ==> #[trigger] covered(gm, fm[i]),
        forall|i: int| 0 <= i < fm.len() ==> #[trigger] array_free(fm[i].1),
    ensures
        merge_entries(gm, fm) == gm,
    decreases fm, 1nat,
{
    if fm.len() > 0 {
        let e = fm[0];
        assert(covered(gm, e) && array_free(e.1));
        lemma_dict_index(gm, e.0);
        let i = dict_index(gm, e.0)->0;
        assert(decreases_to!(fm => fm[0]));
        lemma_covered_noop(gm[i].1, e.1);
        assert(merge_entry(gm, e) =~= gm);
        assert forall|j: int| 0 <= j < fm.drop_first().len() implies #[trigger] covered(gm, fm.drop_first()[j])
            && array_free(fm.drop_first()[j].1) by {
            assert(fm.drop_first()[j] == fm[j + 1]);
        }
        lemma_covered_noop_entries(gm, fm.drop_first());
    }
}

proof fn lemma_merge_covers(t: Val, f: Val)
    requires
        array_free(t),
        array_free(f),
        wf_val(f),
    ensures
        covers(merge(t, f), f),
        array_free(merge(t, f)),
    decreases f, 2nat,
{
    match f {
        Val::Dict(fm) => match t {
            Val::Dict(tm) => {
                lemma_array_free_entries(tm);
                lemma_array_free_entries(fm);
                lemma_wf_values(fm);
                lemma_merge_covers_entries(tm, fm);
                lemma_covers_entries(merge_entries(tm, fm), fm);
                lemma_array_free_entries(merge_entries(tm, fm));
            },
            _ => {
                lemma_covers_self(f);
            },
        },
        _ => {},
    }
}

proof fn lemma_merge_covers_entries(m: Seq<(Seq<char>, Val)>, fm: Seq<(Seq<char>, Val)>)
    requires
        forall|i: int| 0 <= i < m.len() ==> #[trigger] array_free(m[i].1),
        forall|i: int| 0 <= i < fm.len() ==> #[trigger] array_free(fm[i].1),
        forall|i: int| 0 <= i < fm.len() ==> #[trigger] wf_val(fm[i].1),
        unique_keys(fm),
    ensures
        forall|i: int| 0 <= i < fm.len() ==> #[trigger] covered(merge_entries(m, fm), fm[i]),
        forall|i: int| 0 <= i < merge_entries(m, fm).len() ==> #[trigger] array_free(merge_entries(m, fm)[i].1),
    decreases fm, 1nat,
{
    if fm.len() > 0 {
        let e = fm[0];
        let rest = fm.drop_first();
        let m2 = merge_entry(m, e);
        assert(array_free(e.1) && wf_val(e.1));
        assert(decreases_to!(fm => fm[0]));
        lemma_dict_index(m, e.0);
        match dict_index(m, e.0) {
            Some(i) => {
                lemma_merge_covers(m[i].1, e.1);
                let r = m.update(i, (e.0, merge(m[i].1, e.1)));
                lemma_same_keys_index(m, r, e.0);
                assert(dict_get(m2, e.0) == Some(merge(m[i].1, e.1)));
                assert forall|j: int| 0 <= j < m2.len() implies #[trigger] array_free(m2[j].1) by {
                    if j != i {
                        assert(m2[j] == m[j]);
                    }
                }
            },
            None => {
                assert forall|x: int| 0 <= x < m.len() implies m.push(e)[x].0 != e.0 by {
                    assert(m.push(e)[x] == m[x]);
                }
                lemma_dict_index_first(m.push(e), e.0, m.len() as int);
                lemma_covers_self(e.1);
                assert(dict_get(m2, e.0) == Some(e.1));
                assert forall|j: int| 0 <= j < m2.len() implies #[trigger] array_free(m2[j].1) by {
                    if j < m.len() {
                        assert(m2[j] == m[j]);
                    }
                }
            },
        }
        assert(covered(m2, e));
        assert forall|j: int| 0 <= j < rest.len() implies (#[trigger] rest[j]).0 != e.0 by {
            assert(rest[j] == fm[j + 1]);
        }
        lemma_get_after_entries(m2, rest, e.0);
        assert(unique_keys(rest)) by {
            assert forall|i: int, j: int| 0 <= i < rest.len() && 0 <= j < rest.len() && i != j implies rest[i].0 != rest[j].0 by {
                assert(rest[i] == fm[i + 1]);
                assert(rest[j] == fm[j + 1]);
            }
        }
        assert forall|j: int| 0 <= j < rest.len() implies #[trigger] array_free(rest[j].1) && wf_val(rest[j].1) by {
            assert(rest[j] == fm[j + 1]);
        }
        lemma_merge_covers_entries(m2, rest);
        assert forall|j: int| 0 <= j < fm.len() implies #[trigger] covered(merge_entries(m, fm), fm[j]) by {
            if j > 0 {
                assert(rest[j - 1] == fm[j]);
                assert(covered(merge_entries(m2, rest), rest[j - 1]));
            }
        }
    }
}

/// Applying the same map fragment twice gives what applying it once gives,
/// nested maps included, wherever neither the fragment nor the target holds
/// a sequence (a sequence takes each merge as one more element) and the
/// fragment's maps have distinct keys.
pub proof fn lemma_merge_nested_idempotent(t: Val, f: Val)
    requires
        array_free(t),
        array_free(f),
        wf_val(f),
    ensures
        merge(merge(t, f), f) == merge(t, f),
{
    lemma_merge_covers(t, f);
    lemma_covered_noop(merge(t, f), f);
}

} // verus!
