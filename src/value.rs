use vstd::prelude::*;

verus! {

broadcast use {
    vstd::std_specs::vec::axiom_vec_index_decreases,
    vstd::std_specs::vec::axiom_vec_decreases_to_view,
    vstd::seq::axiom_seq_index_decreases,
    vstd::seq::axiom_seq_subrange_decreases,
};

/// The mathematical model of a resolved value.
pub enum Val {
    Absent,
    Bool(bool),
    Int(i64),
    /// A 64-bit float, held as its IEEE-754 bit pattern.
    Float(u64),
    Str(Seq<char>),
    Arr(Seq<Val>),
    Dict(Seq<(Seq<char>, Val)>),
}

/// A fully resolved value: a scalar, a sequence, or a map from string keys.
///
/// A map keeps its entries in insertion order; its keys are compared by content,
/// and a lookup finds the first entry with the key.
#[derive(Debug)]
pub enum OmlValue {
    Null,
    Bool(bool),
    Int64(i64),
    /// A 64-bit float, held as its IEEE-754 bit pattern (`f64::to_bits`).
    Float64(u64),
    String(String),
    Array(Vec<OmlValue>),
    Dict(Vec<(String, OmlValue)>),
}

pub open spec fn view_values(s: Seq<OmlValue>) -> Seq<Val>
    decreases s, 0nat,
{
    if s.len() == 0 {
        Seq::empty()
    } else {
        view_values(s.drop_last()).push(s.last().view_val())
    }
}

pub open spec fn view_entries(s: Seq<(String, OmlValue)>) -> Seq<(Seq<char>, Val)>
    decreases s, 0nat,
{
    if s.len() == 0 {
        Seq::empty()
    } else {
        view_entries(s.drop_last()).push((s.last().0@, s.last().1.view_val()))
    }
}

impl OmlValue {
    pub open spec fn view_val(self) -> Val
        decreases self, 1nat,
    {
        match self {
            OmlValue::Null => Val::Absent,
            OmlValue::Bool(b) => Val::Bool(b),
            OmlValue::Int64(i) => Val::Int(i),
            OmlValue::Float64(f) => Val::Float(f),
            OmlValue::String(s) => Val::Str(s@),
            OmlValue::Array(a) => Val::Arr(view_values(a@)),
            OmlValue::Dict(m) => Val::Dict(view_entries(m@)),
        }
    }
}

pub proof fn lemma_view_values(s: Seq<OmlValue>)
    ensures
        view_values(s).len() == s.len(),
        forall|i: int| 0 <= i < s.len() ==> #[trigger] view_values(s)[i] == s[i].view_val(),
    decreases s.len(),
{
    if s.len() > 0 {
        lemma_view_values(s.drop_last());
    }
}

pub proof fn lemma_view_entries(s: Seq<(String, OmlValue)>)
    ensures
        view_entries(s).len() == s.len(),
        forall|i: int|
            0 <= i < s.len() ==> #[trigger] view_entries(s)[i] == (s[i].0@, s[i].1.view_val()),
    decreases s.len(),
{
    if s.len() > 0 {
        lemma_view_entries(s.drop_last());
    }
}

/// Index of the first entry with key `k`.
pub open spec fn dict_index(m: Seq<(Seq<char>, Val)>, k: Seq<char>) -> Option<int>
    decreases m.len(),
{
    if m.len() == 0 {
        None
    } else if m[0].0 == k {
        Some(0)
    } else {
        match dict_index(m.drop_first(), k) {
            Some(i) => Some(i + 1),
            None => None,
        }
    }
}

/// The value under key `k`, if any.
pub open spec fn dict_get(m: Seq<(Seq<char>, Val)>, k: Seq<char>) -> Option<Val> {
    match dict_index(m, k) {
        Some(i) => Some(m[i].1),
        None => None,
    }
}

pub proof fn lemma_dict_index(m: Seq<(Seq<char>, Val)>, k: Seq<char>)
    ensures
        dict_index(m, k) matches Some(i) ==> 0 <= i < m.len() && m[i].0 == k && forall|j: int|
            0 <= j < i ==> m[j].0 != k,
        dict_index(m, k) is None ==> forall|j: int| 0 <= j < m.len() ==> m[j].0 != k,
    decreases m.len(),
{
    if m.len() > 0 {
        lemma_dict_index(m.drop_first(), k);
        if m[0].0 != k {
            assert forall|j: int| 1 <= j < m.len() implies m[j].0 == m.drop_first()[j - 1].0 by {}
        }
    }
}

/// `dict_index` is the first index that holds the key.
pub proof fn lemma_dict_index_first(m: Seq<(Seq<char>, Val)>, k: Seq<char>, i: int)
    requires
        0 <= i <= m.len(),
        forall|j: int| 0 <= j < i ==> m[j].0 != k,
    ensures
        i < m.len() && m[i].0 == k ==> dict_index(m, k) == Some(i),
        i == m.len() ==> dict_index(m, k) is None,
{
    lemma_dict_index(m, k);
}

/// The rule that combines two values destined for the same slot.
///
/// A sequence target takes the incoming value as a new last element; a map
/// target and a map incoming merge key by key; in every other case the incoming
/// value replaces the target.
pub open spec fn merge(t: Val, v: Val) -> Val
    decreases v, 2nat,
{
    match t {
        Val::Arr(a) => Val::Arr(a.push(v)),
        Val::Dict(m) => match v {
            Val::Dict(m2) => Val::Dict(merge_entries(m, m2)),
            _ => v,
        },
        _ => v,
    }
}

/// Merges the incoming entries into `m`, one after the other.
pub open spec fn merge_entries(m: Seq<(Seq<char>, Val)>, incs: Seq<(Seq<char>, Val)>) -> Seq<
    (Seq<char>, Val),
>
    decreases incs, 1nat,
{
    if incs.len() == 0 {
        m
    } else {
        merge_entries(merge_entry(m, incs[0]), incs.drop_first())
    }
}

/// Merges one incoming entry: into the entry with its key, or appended.
pub open spec fn merge_entry(m: Seq<(Seq<char>, Val)>, e: (Seq<char>, Val)) -> Seq<
    (Seq<char>, Val),
>
    decreases e, 0nat,
{
    match dict_index(m, e.0) {
        Some(i) => if 0 <= i < m.len() {
            m.update(i, (e.0, merge(m[i].1, e.1)))
        } else {
            m
        },
        None => m.push(e),
    }
}

/// The keys of the entries are distinct.
pub open spec fn keys_unique(m: Seq<(Seq<char>, Val)>) -> bool {
    forall|i: int, j: int| 0 <= i < m.len() && 0 <= j < m.len() && i != j ==> m[i].0 != m[j].0
}

/// Well-formedness of a value: every map in it, at any depth, has distinct
/// keys.
pub open spec fn wf_val(v: Val) -> bool
    decreases v, 1nat,
{
    match v {
        Val::Arr(a) => wf_items(a),
        Val::Dict(m) => keys_unique(m) && wf_values(m),
        _ => true,
    }
}

/// Every element is well-formed.
pub open spec fn wf_items(s: Seq<Val>) -> bool
    decreases s, 0nat,
{
    s.len() == 0 || (wf_items(s.drop_last()) && wf_val(s.last()))
}

/// Every value of the entries is well-formed.
pub open spec fn wf_values(m: Seq<(Seq<char>, Val)>) -> bool
    decreases m, 0nat,
{
    m.len() == 0 || (wf_values(m.drop_last()) && wf_val(m.last().1))
}

pub proof fn lemma_wf_items(s: Seq<Val>)
    ensures
        wf_items(s) <==> forall|i: int| 0 <= i < s.len() ==> #[trigger] wf_val(s[i]),
    decreases s.len(),
{
    if s.len() > 0 {
        lemma_wf_items(s.drop_last());
        if forall|i: int| 0 <= i < s.len() ==> #[trigger] wf_val(s[i]) {
            assert forall|i: int| 0 <= i < s.drop_last().len() implies #[trigger] wf_val(s.drop_last()[i]) by {
                assert(s.drop_last()[i] == s[i]);
            }
            assert(wf_val(s[s.len() - 1]));
        }
        if wf_items(s) {
            assert forall|i: int| 0 <= i < s.len() implies #[trigger] wf_val(s[i]) by {
                if i < s.len() - 1 {
                    assert(s.drop_last()[i] == s[i]);
                }
            }
        }
    }
}

pub proof fn lemma_wf_values(m: Seq<(Seq<char>, Val)>)
    ensures
        wf_values(m) <==> forall|i: int| 0 <= i < m.len() ==> #[trigger] wf_val(m[i].1),
    decreases m.len(),
{
    if m.len() > 0 {
        lemma_wf_values(m.drop_last());
        if forall|i: int| 0 <= i < m.len() ==> #[trigger] wf_val(m[i].1) {
            assert forall|i: int| 0 <= i < m.drop_last().len() implies #[trigger] wf_val(m.drop_last()[i].1) by {
                assert(m.drop_last()[i] == m[i]);
            }
            assert(wf_val(m[m.len() - 1].1));
        }
        if wf_values(m) {
            assert forall|i: int| 0 <= i < m.len() implies #[trigger] wf_val(m[i].1) by {
                if i < m.len() - 1 {
                    assert(m.drop_last()[i] == m[i]);
                }
            }
        }
    }
}

pub open spec fn wf_entries(m: Seq<(Seq<char>, Val)>) -> bool {
    keys_unique(m) && forall|i: int| 0 <= i < m.len() ==> #[trigger] wf_val(m[i].1)
}

/// Merging keeps values well-formed.
pub proof fn lemma_merge_wf(t: Val, v: Val)
    requires
        wf_val(t),
        wf_val(v),
    ensures
        wf_val(merge(t, v)),
    decreases v, 2nat,
{
    match t {
        Val::Arr(a) => {
            lemma_wf_items(a);
            lemma_wf_items(a.push(v));
            assert forall|i: int| 0 <= i < a.push(v).len() implies #[trigger] wf_val(a.push(v)[i]) by {
                if i < a.len() {
                    assert(a.push(v)[i] == a[i]);
                }
            }
        },
        Val::Dict(m) => match v {
            Val::Dict(m2) => {
                lemma_wf_values(m);
                lemma_wf_values(m2);
                lemma_merge_entries_wf(m, m2);
                lemma_wf_values(merge_entries(m, m2));
            },
            _ => {},
        },
        _ => {},
    }
}

proof fn lemma_merge_entries_wf(m: Seq<(Seq<char>, Val)>, incs: Seq<(Seq<char>, Val)>)
    requires
        wf_entries(m),
        forall|i: int| 0 <= i < incs.len() ==> #[trigger] wf_val(incs[i].1),
    ensures
        wf_entries(merge_entries(m, incs)),
    decreases incs, 1nat,
{
    if incs.len() > 0 {
        lemma_merge_entry_wf(m, incs[0]);
        assert forall|i: int| 0 <= i < incs.drop_first().len() implies #[trigger] wf_val(incs.drop_first()[i].1) by {
            assert(incs.drop_first()[i] == incs[i + 1]);
        }
        lemma_merge_entries_wf(merge_entry(m, incs[0]), incs.drop_first());
    }
}

proof fn lemma_merge_entry_wf(m: Seq<(Seq<char>, Val)>, e: (Seq<char>, Val))
    requires
        wf_entries(m),
        wf_val(e.1),
    ensures
        wf_entries(merge_entry(m, e)),
    decreases e, 0nat,
{
    lemma_dict_index(m, e.0);
    match dict_index(m, e.0) {
        Some(i) => {
            lemma_merge_wf(m[i].1, e.1);
            let r = m.update(i, (e.0, merge(m[i].1, e.1)));
            assert forall|j: int| 0 <= j < r.len() implies #[trigger] wf_val(r[j].1) by {
                if j != i {
                    assert(r[j] == m[j]);
                }
            }
        },
        None => {
            let r = m.push(e);
            assert forall|j: int| 0 <= j < r.len() implies #[trigger] wf_val(r[j].1) by {
                if j < m.len() {
                    assert(r[j] == m[j]);
                }
            }
        },
    }
}

impl OmlValue {
    /// A deep copy.
    pub fn duplicate(&self) -> (r: OmlValue)
        ensures
            r.view_val() == self.view_val(),
        decreases self,
    {
        match self {
            OmlValue::Null => OmlValue::Null,
            OmlValue::Bool(b) => OmlValue::Bool(*b),
            OmlValue::Int64(i) => OmlValue::Int64(*i),
            OmlValue::Float64(f) => OmlValue::Float64(*f),
            OmlValue::String(s) => OmlValue::String(s.clone()),
            OmlValue::Array(a) => OmlValue::Array(duplicate_values(a)),
            OmlValue::Dict(m) => OmlValue::Dict(duplicate_entries(m)),
        }
    }
}

pub fn duplicate_values(a: &Vec<OmlValue>) -> (r: Vec<OmlValue>)
    ensures
        view_values(r@) == view_values(a@),
    decreases a,
{
    let mut out: Vec<OmlValue> = Vec::new();
    let mut i: usize = 0;
    while i < a.len()
        invariant
            i <= a.len(),
            out.len() == i,
            forall|j: int| 0 <= j < i ==> #[trigger] out@[j].view_val() == a@[j].view_val(),
        decreases a.len() - i,
    {
        assert(decreases_to!(a => a@[i as int]));
        out.push(a[i].duplicate());
        i += 1;
    }
    proof {
        lemma_view_values(out@);
        lemma_view_values(a@);
        assert(view_values(out@) =~= view_values(a@));
    }
    out
}

pub fn duplicate_entries(m: &Vec<(String, OmlValue)>) -> (r: Vec<(String, OmlValue)>)
    ensures
        view_entries(r@) == view_entries(m@),
    decreases m,
{
    let mut out: Vec<(String, OmlValue)> = Vec::new();
    let mut i: usize = 0;
    while i < m.len()
        invariant
            i <= m.len(),
            out.len() == i,
            forall|j: int|
                0 <= j < i ==> (#[trigger] out@[j]).0@ == m@[j].0@ && out@[j].1.view_val()
                    == m@[j].1.view_val(),
        decreases m.len() - i,
    {
        assert(decreases_to!(m => m@[i as int]));
        let v = m[i].1.duplicate();
        out.push((m[i].0.clone(), v));
        i += 1;
    }
    proof {
        lemma_view_entries(out@);
        lemma_view_entries(m@);
        assert(view_entries(out@) =~= view_entries(m@));
    }
    out
}

/// Index of the first entry of `m` with key `k`.
pub fn find_key(m: &Vec<(String, OmlValue)>, k: &String) -> (r: Option<usize>)
    ensures
        r matches Some(i) ==> dict_index(view_entries(m@), k@) == Some(i as int),
        r is None ==> dict_index(view_entries(m@), k@) is None,
{
    proof {
        lemma_view_entries(m@);
    }
    let mut i: usize = 0;
    while i < m.len()
        invariant
            i <= m.len(),
            view_entries(m@).len() == m.len(),
            forall|j: int| 0 <= j < m.len() ==> #[trigger] view_entries(m@)[j] == (m@[j].0@, m@[j].1.view_val()),
            forall|j: int| 0 <= j < i ==> (#[trigger] view_entries(m@)[j]).0 != k@,
        decreases m.len() - i,
    {
        if m[i].0 == *k {
            proof {
                lemma_dict_index_first(view_entries(m@), k@, i as int);
            }
            return Some(i);
        }
        assert(view_entries(m@)[i as int].0 != k@);
        i += 1;
    }
    proof {
        lemma_dict_index_first(view_entries(m@), k@, i as int);
    }
    None
}

proof fn lemma_view_entries_update(s: Seq<(String, OmlValue)>, i: int, e: (String, OmlValue))
    requires
        0 <= i < s.len(),
    ensures
        view_entries(s.update(i, e)) == view_entries(s).update(i, (e.0@, e.1.view_val())),
{
    lemma_view_entries(s);
    lemma_view_entries(s.update(i, e));
    assert(view_entries(s.update(i, e)) =~= view_entries(s).update(i, (e.0@, e.1.view_val())));
}

pub proof fn lemma_view_entries_push(s: Seq<(String, OmlValue)>, e: (String, OmlValue))
    ensures
        view_entries(s.push(e)) == view_entries(s).push((e.0@, e.1.view_val())),
{
    assert(s.push(e).drop_last() =~= s);
}

pub proof fn lemma_view_values_push(s: Seq<OmlValue>, e: OmlValue)
    ensures
        view_values(s.push(e)) == view_values(s).push(e.view_val()),
{
    assert(s.push(e).drop_last() =~= s);
}

impl OmlValue {
    /// Combines `val` into this value by the merge rule.
    pub fn apply(&mut self, val: OmlValue)
        ensures
            final(self).view_val() == merge(old(self).view_val(), val.view_val()),
            wf_val(old(self).view_val()) && wf_val(val.view_val()) ==> wf_val(final(self).view_val()),
        decreases val, 2nat,
    {
        proof {
            if wf_val(self.view_val()) && wf_val(val.view_val()) {
                lemma_merge_wf(self.view_val(), val.view_val());
            }
        }
        let mut cur = OmlValue::Null;
        std::mem::swap(self, &mut cur);
        match cur {
            OmlValue::Array(mut a) => {
                proof {
                    lemma_view_values_push(a@, val);
                }
                a.push(val);
                *self = OmlValue::Array(a);
            },
            OmlValue::Dict(mut m) => match val {
                OmlValue::Dict(m2) => {
                    apply_entries(&mut m, m2);
                    *self = OmlValue::Dict(m);
                },
                other => {
                    *self = other;
                },
            },
            _ => {
                *self = val;
            },
        }
    }
}

/// Merges the incoming entries into `m`, in their order.
pub fn apply_entries(m: &mut Vec<(String, OmlValue)>, incoming: Vec<(String, OmlValue)>)
    ensures
        view_entries(final(m)@) == merge_entries(view_entries(old(m)@), view_entries(incoming@)),
    decreases incoming, 1nat,
{
    let ghost incs0 = incoming;
    let mut incs = incoming;
    let ghost mut k: int = 0;
    proof {
        lemma_view_entries(incs0@);
    }
    while incs.len() > 0
        invariant
            0 <= k <= incs0@.len(),
            incs0 == incoming,
            incs@ == incs0@.subrange(k, incs0@.len() as int),
            view_entries(incs0@).len() == incs0@.len(),
            forall|j: int| 0 <= j < incs0@.len() ==> #[trigger] view_entries(incs0@)[j] == (incs0@[j].0@, incs0@[j].1.view_val()),
            merge_entries(view_entries(m@), view_entries(incs@)) == merge_entries(
                view_entries(old(m)@),
                view_entries(incs0@),
            ),
        decreases incs.len(),
    {
        let ghost before = incs@;
        let ghost m_before = m@;
        let (key, val) = incs.remove(0);
        proof {
            assert((key, val) == incs0@[k]);
            assert(decreases_to!(incs0 => incs0[k]));
            assert(decreases_to!(incs0 => val));
            lemma_view_entries(before);
            lemma_view_entries(incs@);
            assert(view_entries(incs@) =~= view_entries(before).drop_first());
            lemma_view_entries(m@);
            lemma_dict_index(view_entries(m@), key@);
        }
        match find_key(m, &key) {
            Some(i) => {
                let ghost m0 = m@;
                let (k2, mut t) = m.remove(i);
                t.apply(val);
                m.insert(i, (k2, t));
                proof {
                    assert(m@ =~= m0.update(i as int, (k2, t)));
                    lemma_view_entries_update(m0, i as int, (k2, t));
                }
            },
            None => {
                proof {
                    lemma_view_entries_push(m@, (key, val));
                }
                m.push((key, val));
            },
        }
        assert(view_entries(m@) == merge_entry(view_entries(m_before), (key@, val.view_val())));
        proof {
            k = k + 1;
            assert(incs@ =~= incs0@.subrange(k, incs0@.len() as int));
        }
    }
    proof {
        assert(view_entries(incs@) =~= Seq::empty());
    }
}

impl OmlValue {
    pub fn is_none(&self) -> (r: bool)
        ensures
            r == (self.view_val() is Absent),
    {
        match self {
            OmlValue::Null => true,
            _ => false,
        }
    }

    pub fn is_bool(&self) -> (r: bool)
        ensures
            r == (self.view_val() is Bool),
    {
        match self {
            OmlValue::Bool(_) => true,
            _ => false,
        }
    }

    pub fn as_bool(&self) -> (r: Option<bool>)
        ensures
            r == (match self.view_val() {
                Val::Bool(b) => Some(b),
                _ => None,
            }),
    {
        match self {
            OmlValue::Bool(b) => Some(*b),
            _ => None,
        }
    }

    pub fn is_int(&self) -> (r: bool)
        ensures
            r == (self.view_val() is Int),
    {
        match self {
            OmlValue::Int64(_) => true,
            _ => false,
        }
    }

    pub fn as_int(&self) -> (r: Option<i64>)
        ensures
            r == (match self.view_val() {
                Val::Int(i) => Some(i),
                _ => None,
            }),
    {
        match self {
            OmlValue::Int64(i) => Some(*i),
            _ => None,
        }
    }

    pub fn is_float(&self) -> (r: bool)
        ensures
            r == (self.view_val() is Float),
    {
        match self {
            OmlValue::Float64(_) => true,
            _ => false,
        }
    }

    /// The float held here, as its IEEE-754 bit pattern.
    pub fn as_float(&self) -> (r: Option<u64>)
        ensures
            r == (match self.view_val() {
                Val::Float(f) => Some(f),
                _ => None,
            }),
    {
        match self {
            OmlValue::Float64(f) => Some(*f),
            _ => None,
        }
    }

    pub fn is_str(&self) -> (r: bool)
        ensures
            r == (self.view_val() is Str),
    {
        match self {
            OmlValue::String(_) => true,
            _ => false,
        }
    }

    pub fn is_array(&self) -> (r: bool)
        ensures
            r == (self.view_val() is Arr),
    {
        match self {
            OmlValue::Array(_) => true,
            _ => false,
        }
    }

    /// A copy of the elements of a sequence.
    pub fn as_array(&self) -> (r: Option<Vec<OmlValue>>)
        ensures
            r matches Some(v) ==> self.view_val() == Val::Arr(view_values(v@)),
            r is None <==> !(self.view_val() is Arr),
    {
        match self {
            OmlValue::Array(a) => Some(duplicate_values(a)),
            _ => None,
        }
    }

    pub fn is_map(&self) -> (r: bool)
        ensures
            r == (self.view_val() is Dict),
    {
        match self {
            OmlValue::Dict(_) => true,
            _ => false,
        }
    }

    /// A copy of the entries of a map.
    pub fn as_map(&self) -> (r: Option<Vec<(String, OmlValue)>>)
        ensures
            r matches Some(m) ==> self.view_val() == Val::Dict(view_entries(m@)),
            r is None <==> !(self.view_val() is Dict),
    {
        match self {
            OmlValue::Dict(m) => Some(duplicate_entries(m)),
            _ => None,
        }
    }

    pub fn set_null(&mut self)
        ensures
            final(self).view_val() == Val::Absent,
    {
        *self = OmlValue::Null;
    }

    pub fn set_bool(&mut self, val: bool)
        ensures
            final(self).view_val() == Val::Bool(val),
    {
        *self = OmlValue::Bool(val);
    }

    pub fn set_int(&mut self, val: i64)
        ensures
            final(self).view_val() == Val::Int(val),
    {
        *self = OmlValue::Int64(val);
    }

    /// Sets a float, given as its IEEE-754 bit pattern.
    pub fn set_float(&mut self, bits: u64)
        ensures
            final(self).view_val() == Val::Float(bits),
    {
        *self = OmlValue::Float64(bits);
    }

    pub fn set_string(&mut self, val: String)
        ensures
            final(self).view_val() == Val::Str(val@),
    {
        *self = OmlValue::String(val);
    }
}

/// Merging a whole container into another of its kind.
pub trait ApplyExt: Sized {
    /// Whether `new` is what merging `val` into `old` gives.
    spec fn merged(old: Self, val: Self, new: Self) -> bool;

    fn apply(&mut self, val: Self)
        ensures
            Self::merged(*old(self), val, *final(self)),
    ;
}

impl ApplyExt for Vec<(String, OmlValue)> {
    open spec fn merged(old: Self, val: Self, new: Self) -> bool {
        view_entries(new@) == merge_entries(view_entries(old@), view_entries(val@))
    }

    /// Merges the entries of `val` into these, key by key, in their order.
    fn apply(&mut self, val: Self) {
        apply_entries(self, val);
    }
}

} // verus!
