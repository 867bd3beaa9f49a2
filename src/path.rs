use vstd::prelude::*;
use vstd::string::StrSliceExecFns;
use crate::text::push_char;
use crate::value::{OmlValue, Val, wf_val, lemma_wf_values, lemma_wf_items, view_values, view_entries, dict_get, dict_index, find_key, lemma_dict_index, lemma_view_values, lemma_view_entries};

verus! {

/// One step of a path: a map key or a sequence index.
#[derive(Debug)]
pub enum Seg {
    Key(String),
    Index(usize),
}

/// The model of a path step.
pub enum Step {
    Key(Seq<char>),
    Index(nat),
}

impl Seg {
    pub open spec fn view_step(self) -> Step {
        match self {
            Seg::Key(k) => Step::Key(k@),
            Seg::Index(i) => Step::Index(i as nat),
        }
    }

    pub fn duplicate(&self) -> (r: Seg)
        ensures
            r.view_step() == self.view_step(),
    {
        match self {
            Seg::Key(k) => Seg::Key(k.clone()),
            Seg::Index(i) => Seg::Index(*i),
        }
    }
}

pub open spec fn view_path(p: Seq<Seg>) -> Seq<Step> {
    Seq::new(p.len(), |i: int| p[i].view_step())
}

/// The path `p` followed by `s`.
pub fn child_path(p: &Vec<Seg>, s: Seg) -> (r: Vec<Seg>)
    ensures
        view_path(r@) == view_path(p@).push(s.view_step()),
{
    let mut out: Vec<Seg> = Vec::new();
    let mut i: usize = 0;
    while i < p.len()
        invariant
            i <= p.len(),
            out.len() == i,
            forall|j: int| 0 <= j < i ==> #[trigger] out@[j].view_step() == p@[j].view_step(),
        decreases p.len() - i,
    {
        out.push(p[i].duplicate());
        i += 1;
    }
    out.push(s);
    assert(view_path(out@) =~= view_path(p@).push(s.view_step()));
    out
}

/// All of `p` but its last step; the empty path stays empty.
pub fn parent_path(p: &Vec<Seg>) -> (r: Vec<Seg>)
    ensures
        view_path(r@) == parent_of(view_path(p@)),
{
    let mut out: Vec<Seg> = Vec::new();
    let n = if p.len() == 0 { 0 } else { p.len() - 1 };
    let mut i: usize = 0;
    while i < n
        invariant
            i <= n,
            n <= p.len(),
            n == if p.len() == 0 { 0 } else { p.len() - 1 },
            out.len() == i,
            forall|j: int| 0 <= j < i ==> #[trigger] out@[j].view_step() == p@[j].view_step(),
        decreases n - i,
    {
        out.push(p[i].duplicate());
        i += 1;
    }
    assert(view_path(out@) =~= parent_of(view_path(p@)));
    out
}

pub open spec fn parent_of(p: Seq<Step>) -> Seq<Step> {
    if p.len() == 0 {
        p
    } else {
        p.drop_last()
    }
}

/// One step into a value.
pub open spec fn step(v: Val, s: Step) -> Option<Val> {
    match (v, s) {
        (Val::Arr(a), Step::Index(i)) => if i < a.len() {
            Some(a[i as int])
        } else {
            None
        },
        (Val::Dict(m), Step::Key(k)) => dict_get(m, k),
        _ => None,
    }
}

/// The value at path `p` of `v`, if every step finds one.
pub open spec fn lookup(v: Val, p: Seq<Step>) -> Option<Val>
    decreases p.len(),
{
    if p.len() == 0 {
        Some(v)
    } else {
        match step(v, p[0]) {
            Some(c) => lookup(c, p.drop_first()),
            None => None,
        }
    }
}

proof fn lemma_lookup_push(v: Val, p: Seq<Step>, s: Step)
    ensures
        lookup(v, p.push(s)) == match lookup(v, p) {
            Some(c) => step(c, s),
            None => None,
        },
    decreases p.len(),
{
    if p.len() == 0 {
        assert(p.push(s).drop_first() =~= Seq::<Step>::empty());
        assert(p.push(s)[0] == s);
        match step(v, s) {
            Some(c) => {
                assert(lookup(c, p.push(s).drop_first()) == Some(c));
            },
            None => {},
        }
    } else {
        assert(p.push(s).drop_first() =~= p.drop_first().push(s));
        assert(p.push(s)[0] == p[0]);
        match step(v, p[0]) {
            Some(c) => lemma_lookup_push(c, p.drop_first(), s),
            None => {},
        }
    }
}

impl OmlValue {
    /// The element at `index` of a sequence.
    pub fn get_at(&self, index: usize) -> (r: Option<&OmlValue>)
        ensures
            r matches Some(x) ==> step(self.view_val(), Step::Index(index as nat)) == Some(x.view_val()),
            r is None <==> step(self.view_val(), Step::Index(index as nat)) is None,
    {
        match self {
            OmlValue::Array(a) => {
                proof {
                    lemma_view_values(a@);
                }
                if index < a.len() {
                    Some(&a[index])
                } else {
                    None
                }
            },
            _ => None,
        }
    }

    /// The value under `key` of a map.
    pub fn get_key(&self, key: &String) -> (r: Option<&OmlValue>)
        ensures
            r matches Some(x) ==> step(self.view_val(), Step::Key(key@)) == Some(x.view_val()),
            r is None <==> step(self.view_val(), Step::Key(key@)) is None,
    {
        match self {
            OmlValue::Dict(m) => {
                proof {
                    lemma_view_entries(m@);
                    lemma_dict_index(view_entries(m@), key@);
                }
                match find_key(m, key) {
                    Some(i) => Some(&m[i].1),
                    None => None,
                }
            },
            _ => None,
        }
    }

    /// One step into this value.
    pub fn get_step(&self, s: &Seg) -> (r: Option<&OmlValue>)
        ensures
            r matches Some(x) ==> step(self.view_val(), s.view_step()) == Some(x.view_val()),
            r is None <==> step(self.view_val(), s.view_step()) is None,
    {
        match s {
            Seg::Key(k) => self.get_key(k),
            Seg::Index(i) => self.get_at(*i),
        }
    }

    /// The value at the path `p`.
    pub fn lookup_path(&self, p: &Vec<Seg>) -> (r: Option<&OmlValue>)
        ensures
            r matches Some(x) ==> lookup(self.view_val(), view_path(p@)) == Some(x.view_val()),
            r is None <==> lookup(self.view_val(), view_path(p@)) is None,
    {
        let mut cur: &OmlValue = self;
        let mut i: usize = 0;
        while i < p.len()
            invariant
                i <= p.len(),
                lookup(self.view_val(), view_path(p@).subrange(0, i as int)) == Some(cur.view_val()),
            decreases p.len() - i,
        {
            proof {
                assert(view_path(p@).subrange(0, i + 1) =~= view_path(p@).subrange(0, i as int).push(p@[i as int].view_step()));
                lemma_lookup_push(self.view_val(), view_path(p@).subrange(0, i as int), p@[i as int].view_step());
            }
            match cur.get_step(&p[i]) {
                Some(next) => {
                    cur = next;
                },
                None => {
                    proof {
                        lemma_lookup_prefix_none(self.view_val(), view_path(p@), i + 1);
                    }
                    return None;
                },
            }
            i += 1;
        }
        assert(view_path(p@).subrange(0, i as int) =~= view_path(p@));
        Some(cur)
    }
}

/// Where a prefix of a path finds nothing, the whole path finds nothing.
proof fn lemma_lookup_prefix_none(v: Val, p: Seq<Step>, k: int)
    requires
        0 <= k <= p.len(),
        lookup(v, p.subrange(0, k)) is None,
    ensures
        lookup(v, p) is None,
    decreases k,
{
    if k > 0 {
        assert(p.subrange(0, k).drop_first() =~= p.drop_first().subrange(0, k - 1));
        match step(v, p[0]) {
            Some(c) => lemma_lookup_prefix_none(c, p.drop_first(), k - 1),
            None => {},
        }
    } else {
        assert(p.subrange(0, k) =~= Seq::<Step>::empty());
    }
}

/// The dot-separated pieces of a path text; empty pieces included.
pub open spec fn pieces(s: Seq<char>) -> Seq<Seq<char>>
    decreases s.len(),
{
    if s.len() == 0 {
        seq![Seq::empty()]
    } else {
        let r = pieces(s.drop_last());
        if s.last() == '.' {
            r.push(Seq::empty())
        } else {
            r.update(r.len() - 1, r.last().push(s.last()))
        }
    }
}

pub proof fn lemma_pieces_len(s: Seq<char>)
    ensures
        pieces(s).len() >= 1,
    decreases s.len(),
{
    if s.len() > 0 {
        lemma_pieces_len(s.drop_last());
    }
}

pub open spec fn all_digits(s: Seq<char>) -> bool {
    forall|i: int| 0 <= i < s.len() ==> '0' <= #[trigger] s[i] <= '9'
}

/// The number that decimal digits spell.
pub open spec fn digits_val(s: Seq<char>) -> nat
    decreases s.len(),
{
    if s.len() == 0 {
        0
    } else {
        digits_val(s.drop_last()) * 10 + ((s.last() as int - '0' as int) as nat)
    }
}

/// The inside of a piece written `[digits]`.
pub open spec fn bracket_inner(piece: Seq<char>) -> Seq<char> {
    piece.subrange(1, piece.len() - 1)
}

/// Whether a piece is an index: `[digits]` whose number fits a `usize`.
pub open spec fn is_index_piece(piece: Seq<char>) -> bool {
    &&& piece.len() >= 3
    &&& piece[0] == '['
    &&& piece.last() == ']'
    &&& all_digits(bracket_inner(piece))
    &&& digits_val(bracket_inner(piece)) <= usize::MAX
}

/// The step that a non-empty piece names.
pub open spec fn step_of(piece: Seq<char>) -> Step {
    if is_index_piece(piece) {
        Step::Index(digits_val(bracket_inner(piece)))
    } else {
        Step::Key(piece)
    }
}

/// The steps of the non-empty pieces, in order.
pub open spec fn path_steps(ps: Seq<Seq<char>>) -> Seq<Step>
    decreases ps.len(),
{
    if ps.len() == 0 {
        Seq::empty()
    } else if ps.last().len() == 0 {
        path_steps(ps.drop_last())
    } else {
        path_steps(ps.drop_last()).push(step_of(ps.last()))
    }
}

/// The steps that a path text names: `a.b.[2].c` is the key `a`, the key `b`,
/// the index 2 and the key `c`. Empty pieces are skipped.
pub open spec fn path_of(s: Seq<char>) -> Seq<Step> {
    path_steps(pieces(s))
}

proof fn lemma_digits_val_mono(s: Seq<char>, k: int)
    requires
        0 <= k <= s.len(),
        all_digits(s),
    ensures
        digits_val(s.subrange(0, k)) <= digits_val(s),
    decreases s.len(),
{
    if k < s.len() {
        assert(s.drop_last().subrange(0, k) =~= s.subrange(0, k));
        lemma_digits_val_mono(s.drop_last(), k);
    } else {
        assert(s.subrange(0, k) =~= s);
    }
}

/// The step that the piece `cur` names.
fn piece_step(cur: &Vec<char>) -> (r: Seg)
    requires
        cur.len() > 0,
    ensures
        r.view_step() == step_of(cur@),
{
    let n = cur.len();
    if n >= 3 && cur[0] == '[' && cur[n - 1] == ']' {
        let ghost inner = bracket_inner(cur@);
        let mut acc: usize = 0;
        let mut i: usize = 1;
        let mut ok = true;
        while i < n - 1
            invariant
                1 <= i <= n - 1,
                n == cur.len(),
                n >= 3,
                inner == cur@.subrange(1, n - 1),
                ok ==> all_digits(inner.subrange(0, i - 1)),
                ok ==> acc == digits_val(inner.subrange(0, i - 1)),
                !ok ==> !is_index_piece(cur@),
            decreases n - 1 - i,
        {
            if ok {
                let c = cur[i];
                assert(inner.subrange(0, i as int).drop_last() =~= inner.subrange(0, i - 1));
                assert(inner[i - 1] == c);
                if '0' <= c && c <= '9' {
                    let d = (c as u32 - '0' as u32) as usize;
                    match acc.checked_mul(10) {
                        Some(a10) => match a10.checked_add(d) {
                            Some(v) => {
                                acc = v;
                            },
                            None => {
                                ok = false;
                                proof {
                                    if all_digits(inner) {
                                        lemma_digits_val_mono(inner, i as int);
                                    }
                                }
                            },
                        },
                        None => {
                            ok = false;
                            proof {
                                if all_digits(inner) {
                                    lemma_digits_val_mono(inner, i as int);
                                }
                            }
                        },
                    }
                } else {
                    ok = false;
                }
            }
            i += 1;
        }
        if ok {
            assert(inner.subrange(0, n - 2) =~= inner);
            return Seg::Index(acc);
        }
    }
    let mut key = String::new();
    let mut j: usize = 0;
    while j < n
        invariant
            j <= n,
            n == cur.len(),
            key@ == cur@.subrange(0, j as int),
        decreases n - j,
    {
        push_char(&mut key, cur[j]);
        j += 1;
        assert(key@ =~= cur@.subrange(0, j as int));
    }
    assert(cur@.subrange(0, n as int) =~= cur@);
    Seg::Key(key)
}

/// The steps that a path text names.
pub fn parse_path(path: &str) -> (r: Vec<Seg>)
    ensures
        view_path(r@) == path_of(path@),
{
    let n = path.unicode_len();
    let mut out: Vec<Seg> = Vec::new();
    let mut cur: Vec<char> = Vec::new();
    let mut i: usize = 0;
    proof {
        lemma_pieces_len(path@.subrange(0, 0));
        assert(path@.subrange(0, 0) =~= Seq::<char>::empty());
    }
    while i < n
        invariant
            i <= n,
            n == path@.len(),
            pieces(path@.subrange(0, i as int)).len() >= 1,
            view_path(out@) == path_steps(pieces(path@.subrange(0, i as int)).drop_last()),
            cur@ == pieces(path@.subrange(0, i as int)).last(),
        decreases n - i,
    {
        let c = path.get_char(i);
        let ghost pre = path@.subrange(0, i as int);
        let ghost post = path@.subrange(0, i + 1);
        assert(post.drop_last() =~= pre);
        assert(post.last() == c);
        proof {
            lemma_pieces_len(pre);
        }
        if c == '.' {
            if cur.len() > 0 {
                let st = piece_step(&cur);
                out.push(st);
            }
            cur = Vec::new();
            proof {
                let ps = pieces(pre);
                assert(pieces(post) == ps.push(Seq::empty()));
                assert(pieces(post).drop_last() =~= ps);
                assert(ps =~= ps.drop_last().push(ps.last()));
                assert(view_path(out@) =~= path_steps(ps));
            }
        } else {
            cur.push(c);
            proof {
                let ps = pieces(pre);
                assert(pieces(post) == ps.update(ps.len() - 1, ps.last().push(c)));
                assert(pieces(post).drop_last() =~= ps.drop_last());
            }
        }
        i += 1;
    }
    assert(path@.subrange(0, n as int) =~= path@);
    let ghost ps = pieces(path@);
    if cur.len() > 0 {
        let st = piece_step(&cur);
        out.push(st);
    }
    proof {
        assert(ps =~= ps.drop_last().push(ps.last()));
        assert(view_path(out@) =~= path_steps(ps));
    }
    out
}

impl OmlValue {
    /// The value at a dotted path; `None` where some step finds nothing.
    pub fn get_with_path(&self, path: &str) -> (r: Option<&OmlValue>)
        ensures
            r matches Some(x) ==> lookup(self.view_val(), path_of(path@)) == Some(x.view_val()),
            r is None <==> lookup(self.view_val(), path_of(path@)) is None,
    {
        let p = parse_path(path);
        self.lookup_path(&p)
    }

    /// The value at a dotted path, as `get_with_path`.
    pub fn get(&self, path: &str) -> (r: Option<&OmlValue>)
        ensures
            r matches Some(x) ==> lookup(self.view_val(), path_of(path@)) == Some(x.view_val()),
            r is None <==> lookup(self.view_val(), path_of(path@)) is None,
    {
        self.get_with_path(path)
    }
}

/// `a` grown with absent elements to hold index `i`.
pub open spec fn pad_values(a: Seq<Val>, i: nat) -> Seq<Val> {
    if i < a.len() {
        a
    } else {
        a + Seq::new((i + 1 - a.len()) as nat, |j: int| Val::Absent)
    }
}

/// `v` with `x` written at path `p`. A key step into anything but a map makes
/// it an empty map first, and adds the key where it is missing; an index step
/// into anything but a sequence makes it an empty sequence first, and grows
/// the sequence with absent elements up to the index.
pub open spec fn write_val(v: Val, p: Seq<Step>, x: Val) -> Val
    decreases p.len(),
{
    if p.len() == 0 {
        x
    } else {
        match p[0] {
            Step::Key(k) => {
                let m = match v {
                    Val::Dict(m) => m,
                    _ => Seq::empty(),
                };
                match dict_index(m, k) {
                    Some(i) => if 0 <= i < m.len() {
                        Val::Dict(m.update(i, (k, write_val(m[i].1, p.drop_first(), x))))
                    } else {
                        Val::Dict(m)
                    },
                    None => Val::Dict(m.push((k, write_val(Val::Absent, p.drop_first(), x)))),
                }
            },
            Step::Index(i) => {
                let a = pad_values(
                    match v {
                        Val::Arr(a) => a,
                        _ => Seq::empty(),
                    },
                    i,
                );
                Val::Arr(a.update(i as int, write_val(a[i as int], p.drop_first(), x)))
            },
        }
    }
}

/// Writing a well-formed value into a well-formed value keeps it
/// well-formed.
pub proof fn lemma_write_wf(v: Val, p: Seq<Step>, x: Val)
    requires
        wf_val(v),
        wf_val(x),
    ensures
        wf_val(write_val(v, p, x)),
    decreases p.len(),
{
    if p.len() > 0 {
        match p[0] {
            Step::Key(k) => {
                let m = match v {
                    Val::Dict(m) => m,
                    _ => Seq::empty(),
                };
                lemma_wf_values(m);
                lemma_dict_index(m, k);
                match dict_index(m, k) {
                    Some(i) => {
                        lemma_write_wf(m[i].1, p.drop_first(), x);
                        let r = m.update(i, (k, write_val(m[i].1, p.drop_first(), x)));
                        assert forall|j: int| 0 <= j < r.len() implies #[trigger] wf_val(r[j].1) by {
                            if j != i {
                                assert(r[j] == m[j]);
                            }
                        }
                        lemma_wf_values(r);
                    },
                    None => {
                        lemma_write_wf(Val::Absent, p.drop_first(), x);
                        let r = m.push((k, write_val(Val::Absent, p.drop_first(), x)));
                        assert forall|j: int| 0 <= j < r.len() implies #[trigger] wf_val(r[j].1) by {
                            if j < m.len() {
                                assert(r[j] == m[j]);
                            }
                        }
                        lemma_wf_values(r);
                    },
                }
            },
            Step::Index(i) => {
                let a0 = match v {
                    Val::Arr(a) => a,
                    _ => Seq::empty(),
                };
                let a = pad_values(a0, i);
                lemma_wf_items(a0);
                assert forall|j: int| 0 <= j < a.len() implies #[trigger] wf_val(a[j]) by {
                    if j >= a0.len() {
                        assert(a[j] == Val::Absent);
                    } else {
                        assert(a[j] == a0[j]);
                    }
                }
                lemma_write_wf(a[i as int], p.drop_first(), x);
                let r = a.update(i as int, write_val(a[i as int], p.drop_first(), x));
                assert forall|j: int| 0 <= j < r.len() implies #[trigger] wf_val(r[j]) by {
                    if j != i {
                        assert(r[j] == a[j]);
                    }
                }
                lemma_wf_items(r);
            },
        }
    }
}

impl OmlValue {
    /// Writes `val` at a dotted path, creating the maps and sequence elements
    /// that the path goes through where they are missing.
    pub fn set_with_path(&mut self, path: &str, val: OmlValue)
        ensures
            final(self).view_val() == write_val(old(self).view_val(), path_of(path@), val.view_val()),
            wf_val(old(self).view_val()) && wf_val(val.view_val()) ==> wf_val(final(self).view_val()),
    {
        proof {
            if wf_val(self.view_val()) && wf_val(val.view_val()) {
                lemma_write_wf(self.view_val(), path_of(path@), val.view_val());
            }
        }
        let p = parse_path(path);
        assert(view_path(p@).subrange(0, p@.len() as int) =~= view_path(p@));
        self.write_steps(&p, 0, val);
    }

    fn write_steps(&mut self, p: &Vec<Seg>, from: usize, val: OmlValue)
        requires
            from <= p.len(),
        ensures
            final(self).view_val() == write_val(
                old(self).view_val(),
                view_path(p@).subrange(from as int, p@.len() as int),
                val.view_val(),
            ),
        decreases p.len() - from,
    {
        let ghost rest = view_path(p@).subrange(from as int, p@.len() as int);
        if from == p.len() {
            assert(rest.len() == 0);
            *self = val;
            return;
        }
        assert(rest[0] == p@[from as int].view_step());
        assert(rest.drop_first() =~= view_path(p@).subrange(from + 1, p@.len() as int));
        let mut cur = OmlValue::Null;
        std::mem::swap(self, &mut cur);
        let ghost old_v = cur.view_val();
        match &p[from] {
            Seg::Key(k) => {
                let mut m = match cur {
                    OmlValue::Dict(m) => m,
                    _ => Vec::new(),
                };
                assert(view_entries(m@) == match old_v {
                    Val::Dict(m) => m,
                    _ => Seq::empty(),
                }) by {
                    if !(old_v is Dict) {
                        assert(view_entries(m@) =~= Seq::empty());
                    }
                }
                proof {
                    lemma_view_entries(m@);
                    lemma_dict_index(view_entries(m@), k@);
                }
                let ghost m0 = m@;
                match find_key(&m, k) {
                    Some(i) => {
                        let (k2, mut child) = m.remove(i);
                        child.write_steps(p, from + 1, val);
                        m.insert(i, (k2, child));
                        proof {
                            assert(m@ =~= m0.update(i as int, (k2, child)));
                            lemma_view_entries(m@);
                            assert(view_entries(m@) =~= view_entries(m0).update(i as int, (k2@, child.view_val())));
                        }
                    },
                    None => {
                        let mut child = OmlValue::Null;
                        child.write_steps(p, from + 1, val);
                        let key = k.clone();
                        proof {
                            assert(m@.push((key, child)).drop_last() =~= m@);
                        }
                        m.push((key, child));
                    },
                }
                *self = OmlValue::Dict(m);
            },
            Seg::Index(i) => {
                let i = *i;
                let mut a = match cur {
                    OmlValue::Array(a) => a,
                    _ => Vec::new(),
                };
                let ghost a_old = match old_v {
                    Val::Arr(a) => a,
                    _ => Seq::empty(),
                };
                proof {
                    lemma_view_values(a@);
                    if !(old_v is Arr) {
                        assert(view_values(a@) =~= Seq::empty());
                    }
                    assert(view_values(a@) == a_old);
                }
                while a.len() <= i
                    invariant
                        a_old.len() <= a@.len(),
                        a@.len() <= if a_old.len() > i { a_old.len() as int } else { i + 1 },
                        forall|j: int| 0 <= j < a_old.len() ==> #[trigger] a@[j].view_val() == a_old[j],
                        forall|j: int| a_old.len() <= j < a@.len() ==> #[trigger] a@[j].view_val() == Val::Absent,
                    decreases i + 1 - a.len(),
                {
                    a.push(OmlValue::Null);
                }
                proof {
                    lemma_view_values(a@);
                }
                let ghost padded = view_values(a@);
                assert(padded =~= pad_values(a_old, i as nat));
                let ghost a0 = a@;
                let mut child = a.remove(i);
                child.write_steps(p, from + 1, val);
                a.insert(i, child);
                proof {
                    assert(a@ =~= a0.update(i as int, child));
                    lemma_view_values(a@);
                    assert(view_values(a@) =~= padded.update(i as int, child.view_val()));
                }
                *self = OmlValue::Array(a);
            },
        }
    }
}

} // verus!
