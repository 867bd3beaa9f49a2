use vstd::prelude::*;
use crate::expr::{OmlExpr, ExprV, field_index, view_exprs, view_fields, lemma_view_exprs, lemma_view_fields, lemma_field_index};
use crate::path::{Seg, Step, view_path, path_of, parse_path};
use crate::value::{OmlValue, Val};
use crate::path::step;
use vstd::string::StringExecFns;

verus! {

/// One step into an expression tree.
pub open spec fn expr_step(e: ExprV, s: Step) -> Option<ExprV> {
    match (e, s) {
        (ExprV::Array(a), Step::Index(i)) => if i < a.len() {
            Some(a[i as int])
        } else {
            None
        },
        (ExprV::Dict(m), Step::Key(k)) => match field_index(m, k) {
            Some(i) => Some(m[i].1),
            None => None,
        },
        _ => None,
    }
}

/// The node at path `p` of an expression tree.
pub open spec fn expr_lookup(e: ExprV, p: Seq<Step>) -> Option<ExprV>
    decreases p.len(),
{
    if p.len() == 0 {
        Some(e)
    } else {
        match expr_step(e, p[0]) {
            Some(c) => expr_lookup(c, p.drop_first()),
            None => None,
        }
    }
}

/// `a` grown with absent elements to hold index `i`.
pub open spec fn pad(a: Seq<ExprV>, i: nat) -> Seq<ExprV> {
    if i < a.len() {
        a
    } else {
        a + Seq::new((i + 1 - a.len()) as nat, |j: int| ExprV::Null)
    }
}

/// `e` with `x` written at path `p`. A key step into anything but a map makes
/// it an empty map first, and adds the key where it is missing; an index step
/// into anything but a sequence makes it an empty sequence first, and grows
/// the sequence with absent elements up to the index.
pub open spec fn write_expr(e: ExprV, p: Seq<Step>, x: ExprV) -> ExprV
    decreases p.len(),
{
    if p.len() == 0 {
        x
    } else {
        match p[0] {
            Step::Key(k) => {
                let m = match e {
                    ExprV::Dict(m) => m,
                    _ => Seq::empty(),
                };
                match field_index(m, k) {
                    Some(i) => if 0 <= i < m.len() {
                        ExprV::Dict(m.update(i, (k, write_expr(m[i].1, p.drop_first(), x))))
                    } else {
                        ExprV::Dict(m)
                    },
                    None => ExprV::Dict(m.push((k, write_expr(ExprV::Null, p.drop_first(), x)))),
                }
            },
            Step::Index(i) => {
                let a = pad(
                    match e {
                        ExprV::Array(a) => a,
                        _ => Seq::empty(),
                    },
                    i,
                );
                ExprV::Array(a.update(i as int, write_expr(a[i as int], p.drop_first(), x)))
            },
        }
    }
}

impl OmlExpr {
    /// The element at `index` of a sequence.
    pub fn get_at(&self, index: usize) -> (r: Option<&OmlExpr>)
        ensures
            r matches Some(x) ==> expr_step(self.view_expr(), Step::Index(index as nat)) == Some(x.view_expr()),
            r is None <==> expr_step(self.view_expr(), Step::Index(index as nat)) is None,
    {
        match self {
            OmlExpr::Array(a) => {
                proof {
                    lemma_view_exprs(a@);
                }
                if index < a.len() {
                    Some(&a[index])
                } else {
                    None
                }
            },
            _ => None,
        }
    }

    fn get_step(&self, s: &Seg) -> (r: Option<&OmlExpr>)
        ensures
            r matches Some(x) ==> expr_step(self.view_expr(), s.view_step()) == Some(x.view_expr()),
            r is None <==> expr_step(self.view_expr(), s.view_step()) is None,
    {
        match s {
            Seg::Index(i) => self.get_at(*i),
            Seg::Key(k) => match self {
                OmlExpr::Dict(m) => {
                    proof {
                        lemma_view_fields(m@);
                        lemma_field_index(view_fields(m@), k@);
                    }
                    match crate::expr::find_field(m, k) {
                        Some(i) => Some(&m[i].1),
                        None => None,
                    }
                },
                _ => None,
            },
        }
    }

    /// The node at a dotted path; `None` where some step finds nothing.
    pub fn get(&self, path: &str) -> (r: Option<&OmlExpr>)
        ensures
            r matches Some(x) ==> expr_lookup(self.view_expr(), path_of(path@)) == Some(x.view_expr()),
            r is None <==> expr_lookup(self.view_expr(), path_of(path@)) is None,
    {
        let p = parse_path(path);
        let ghost vp = view_path(p@);
        let mut cur: &OmlExpr = self;
        let mut i: usize = 0;
        assert(vp.subrange(0, vp.len() as int) =~= vp);
        while i < p.len()
            invariant
                i <= p.len(),
                vp == view_path(p@),
                vp == path_of(path@),
                expr_lookup(self.view_expr(), vp) == expr_lookup(cur.view_expr(), vp.subrange(i as int, vp.len() as int)),
            decreases p.len() - i,
        {
            let ghost rest = vp.subrange(i as int, vp.len() as int);
            assert(rest[0] == p@[i as int].view_step());
            assert(rest.drop_first() =~= vp.subrange(i + 1, vp.len() as int));
            match cur.get_step(&p[i]) {
                Some(next) => {
                    cur = next;
                },
                None => {
                    assert(expr_lookup(cur.view_expr(), rest) is None);
                    return None;
                },
            }
            i += 1;
        }
        assert(vp.subrange(i as int, vp.len() as int) =~= Seq::<Step>::empty());
        Some(cur)
    }

    /// Writes `val` at a dotted path, creating the maps and sequence elements
    /// that the path goes through where they are missing.
    pub fn set_at(&mut self, path: &str, val: OmlExpr)
        ensures
            final(self).view_expr() == write_expr(old(self).view_expr(), path_of(path@), val.view_expr()),
            crate::expr::wf_expr(old(self).view_expr()) && crate::expr::wf_expr(val.view_expr())
                ==> crate::expr::wf_expr(final(self).view_expr()),
    {
        proof {
            if crate::expr::wf_expr(self.view_expr()) && crate::expr::wf_expr(val.view_expr()) {
                crate::wf::lemma_write_expr_wf(self.view_expr(), path_of(path@), val.view_expr());
            }
        }
        let p = parse_path(path);
        assert(view_path(p@).subrange(0, p@.len() as int) =~= view_path(p@));
        self.write_steps(&p, 0, val);
    }

    fn write_steps(&mut self, p: &Vec<Seg>, from: usize, val: OmlExpr)
        requires
            from <= p.len(),
        ensures
            final(self).view_expr() == write_expr(
                old(self).view_expr(),
                view_path(p@).subrange(from as int, p@.len() as int),
                val.view_expr(),
            ),
        decreases p.len() - from,
    {
        let ghost rest = view_path(p@).subrange(from as int, p@.len() as int);
        if from == p.len() {
            assert(rest.len() == 0);
            *self = val;
            return;
        }
        assert(rest[0] == p@[from as int].view_step());
        assert(rest.drop_first() =~= view_path(p@).subrange(from + 1, p@.len() as int));
        let mut cur = OmlExpr::Null;
        std::mem::swap(self, &mut cur);
        let ghost old_v = cur.view_expr();
        match &p[from] {
            Seg::Key(k) => {
                let mut m = match cur {
                    OmlExpr::Dict(m) => m,
                    _ => Vec::new(),
                };
                assert(view_fields(m@) == match old_v {
                    ExprV::Dict(m) => m,
                    _ => Seq::empty(),
                }) by {
                    if !(old_v is Dict) {
                        assert(view_fields(m@) =~= Seq::empty());
                    }
                }
                proof {
                    lemma_view_fields(m@);
                    lemma_field_index(view_fields(m@), k@);
                }
                let ghost m0 = m@;
                match crate::expr::find_field(&m, k) {
                    Some(i) => {
                        let (k2, mut child) = m.remove(i);
                        child.write_steps(p, from + 1, val);
                        m.insert(i, (k2, child));
                        proof {
                            assert(m@ =~= m0.update(i as int, (k2, child)));
                            lemma_view_fields(m@);
                            assert(view_fields(m@) =~= view_fields(m0).update(i as int, (k2@, child.view_expr())));
                        }
                    },
                    None => {
                        let mut child = OmlExpr::Null;
                        child.write_steps(p, from + 1, val);
                        let key = k.clone();
                        proof {
                            assert(m@.push((key, child)).drop_last() =~= m@);
                        }
                        m.push((key, child));
                    },
                }
                *self = OmlExpr::Dict(m);
            },
            Seg::Index(i) => {
                let i = *i;
                let mut a = match cur {
                    OmlExpr::Array(a) => a,
                    _ => Vec::new(),
                };
                let ghost a_old = match old_v {
                    ExprV::Array(a) => a,
                    _ => Seq::empty(),
                };
                proof {
                    lemma_view_exprs(a@);
                    if !(old_v is Array) {
                        assert(view_exprs(a@) =~= Seq::empty());
                    }
                    assert(view_exprs(a@) == a_old);
                }
                while a.len() <= i
                    invariant
                        a_old.len() <= a@.len(),
                        a@.len() <= if a_old.len() > i { a_old.len() as int } else { i + 1 },
                        forall|j: int| 0 <= j < a_old.len() ==> #[trigger] a@[j].view_expr() == a_old[j],
                        forall|j: int| a_old.len() <= j < a@.len() ==> #[trigger] a@[j].view_expr() == ExprV::Null,
                    decreases i + 1 - a.len(),
                {
                    a.push(OmlExpr::Null);
                }
                proof {
                    lemma_view_exprs(a@);
                }
                let ghost padded = view_exprs(a@);
                assert(padded =~= pad(a_old, i as nat));
                let ghost a0 = a@;
                let mut child = a.remove(i);
                child.write_steps(p, from + 1, val);
                a.insert(i, child);
                proof {
                    assert(a@ =~= a0.update(i as int, child));
                    lemma_view_exprs(a@);
                    assert(view_exprs(a@) =~= padded.update(i as int, child.view_expr()));
                }
                *self = OmlExpr::Array(a);
            },
        }
    }

    pub fn set_null(&mut self)
        ensures
            final(self).view_expr() == ExprV::Null,
    {
        *self = OmlExpr::Null;
    }

    pub fn set_bool(&mut self, val: bool)
        ensures
            final(self).view_expr() == ExprV::Value(crate::value::Val::Bool(val)),
    {
        *self = OmlExpr::Value(OmlValue::Bool(val));
    }

    pub fn set_int(&mut self, val: i64)
        ensures
            final(self).view_expr() == ExprV::Value(crate::value::Val::Int(val)),
    {
        *self = OmlExpr::Value(OmlValue::Int64(val));
    }

    /// Sets a float, given as its IEEE-754 bit pattern.
    pub fn set_float(&mut self, bits: u64)
        ensures
            final(self).view_expr() == ExprV::Value(crate::value::Val::Float(bits)),
    {
        *self = OmlExpr::Value(OmlValue::Float64(bits));
    }

    pub fn set_string(&mut self, val: String)
        ensures
            final(self).view_expr() == ExprV::Value(crate::value::Val::Str(val@)),
    {
        *self = OmlExpr::Value(OmlValue::String(val));
    }
}

/// Indexing a sequence by position.
pub trait GetByUsizeExt: Sized {
    /// The model of the element at `index`, if there is one.
    spec fn element(&self, index: nat) -> Option<Val>;

    spec fn model(&self) -> Val;

    fn get(&self, index: usize) -> (r: Option<&Self>)
        ensures
            r matches Some(x) ==> self.element(index as nat) == Some(x.model()),
            r is None <==> self.element(index as nat) is None,
    ;
}

/// Indexing a map by key.
pub trait GetByStrExt: Sized {
    /// The model of the value under `key`, if there is one.
    spec fn entry(&self, key: Seq<char>) -> Option<Val>;

    spec fn model(&self) -> Val;

    fn get(&self, index: &str) -> (r: Option<&Self>)
        ensures
            r matches Some(x) ==> self.entry(index@) == Some(x.model()),
            r is None <==> self.entry(index@) is None,
    ;
}

impl GetByUsizeExt for OmlValue {
    open spec fn element(&self, index: nat) -> Option<Val> {
        step(self.view_val(), Step::Index(index))
    }

    open spec fn model(&self) -> Val {
        self.view_val()
    }

    fn get(&self, index: usize) -> (r: Option<&Self>) {
        self.get_at(index)
    }
}

impl GetByStrExt for OmlValue {
    open spec fn entry(&self, key: Seq<char>) -> Option<Val> {
        step(self.view_val(), Step::Key(key))
    }

    open spec fn model(&self) -> Val {
        self.view_val()
    }

    fn get(&self, index: &str) -> (r: Option<&Self>) {
        let key = String::from_str(index);
        self.get_key(&key)
    }
}

} // verus!
