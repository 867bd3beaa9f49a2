use vstd::prelude::*;
use vstd::string::{StrSliceExecFns, StringExecFns};
use crate::value::{OmlValue, Val, view_values, view_entries, lemma_view_values, lemma_view_entries};

verus! {

/// Whether two strings hold the same characters.
pub fn str_eq(a: &str, b: &str) -> (r: bool)
    ensures
        r == (a@ == b@),
{
    let n = a.unicode_len();
    if n != b.unicode_len() {
        return false;
    }
    let mut i: usize = 0;
    while i < n
        invariant
            i <= n,
            n == a@.len(),
            n == b@.len(),
            forall|j: int| 0 <= j < i ==> a@[j] == b@[j],
        decreases n - i,
    {
        if a.get_char(i) != b.get_char(i) {
            return false;
        }
        i += 1;
    }
    assert(a@ =~= b@);
    true
}

/// Relies on `String::push`: appends one character.
#[verifier::external_body]
pub fn push_char(s: &mut String, c: char)
    ensures
        final(s)@ == old(s)@.push(c),
{
    s.push(c)
}

pub open spec fn digit_spec(d: nat) -> char {
    if d == 0 {
        '0'
    } else if d == 1 {
        '1'
    } else if d == 2 {
        '2'
    } else if d == 3 {
        '3'
    } else if d == 4 {
        '4'
    } else if d == 5 {
        '5'
    } else if d == 6 {
        '6'
    } else if d == 7 {
        '7'
    } else if d == 8 {
        '8'
    } else {
        '9'
    }
}

/// The decimal digits of `n`, most significant first.
pub open spec fn digits_of(n: nat) -> Seq<char>
    decreases n,
{
    if n < 10 {
        seq![digit_spec(n)]
    } else {
        digits_of(n / 10).push(digit_spec(n % 10))
    }
}

/// The decimal form of an integer, with a leading `-` when negative.
pub open spec fn dec(i: int) -> Seq<char> {
    if i < 0 {
        seq!['-'] + digits_of((-i) as nat)
    } else {
        digits_of(i as nat)
    }
}

fn digit_char(d: u64) -> (c: char)
    requires
        d < 10,
    ensures
        c == digit_spec(d as nat),
{
    if d == 0 {
        '0'
    } else if d == 1 {
        '1'
    } else if d == 2 {
        '2'
    } else if d == 3 {
        '3'
    } else if d == 4 {
        '4'
    } else if d == 5 {
        '5'
    } else if d == 6 {
        '6'
    } else if d == 7 {
        '7'
    } else if d == 8 {
        '8'
    } else {
        '9'
    }
}

pub fn push_digits(s: &mut String, n: u64)
    ensures
        final(s)@ == old(s)@ + digits_of(n as nat),
    decreases n,
{
    if n >= 10 {
        push_digits(s, n / 10);
    }
    push_char(s, digit_char(n % 10));
}

/// Appends the decimal form of `i`.
pub fn push_int(s: &mut String, i: i64)
    ensures
        final(s)@ == old(s)@ + dec(i as int),
{
    if i < 0 {
        push_char(s, '-');
        let m: u64 = if i == i64::MIN {
            9223372036854775808u64
        } else {
            (-i) as u64
        };
        push_digits(s, m);
        assert(s@ =~= old(s)@ + dec(i as int));
    } else {
        push_digits(s, i as u64);
    }
}

proof fn lemma_render_items_prefix(s: Seq<Val>, k: int)
    requires
        0 <= k <= s.len(),
        render_items(s) is Some,
    ensures
        render_items(s.subrange(0, k)) is Some,
    decreases s.len(),
{
    if k < s.len() {
        assert(s.drop_last().subrange(0, k) =~= s.subrange(0, k));
        lemma_render_items_prefix(s.drop_last(), k);
    } else {
        assert(s.subrange(0, k) =~= s);
    }
}

proof fn lemma_render_entries_prefix(s: Seq<(Seq<char>, Val)>, k: int)
    requires
        0 <= k <= s.len(),
        render_entries(s) is Some,
    ensures
        render_entries(s.subrange(0, k)) is Some,
    decreases s.len(),
{
    if k < s.len() {
        assert(s.drop_last().subrange(0, k) =~= s.subrange(0, k));
        lemma_render_entries_prefix(s.drop_last(), k);
    } else {
        assert(s.subrange(0, k) =~= s);
    }
}

/// The textual rendering of a value used by format strings; `None` where the
/// value holds a float.
pub open spec fn render(v: Val) -> Option<Seq<char>>
    decreases v, 1nat,
{
    match v {
        Val::Absent => Some("none"@),
        Val::Bool(b) => Some(if b { "true"@ } else { "false"@ }),
        Val::Int(i) => Some(dec(i as int)),
        Val::Float(_) => None,
        Val::Str(s) => Some(s),
        Val::Arr(a) => match render_items(a) {
            Some(t) => Some("["@ + t + "]"@),
            None => None,
        },
        Val::Dict(m) => match render_entries(m) {
            Some(t) => Some("{ "@ + t + " }"@),
            None => None,
        },
    }
}

/// The renderings of `s`, joined by `, `.
pub open spec fn render_items(s: Seq<Val>) -> Option<Seq<char>>
    decreases s, 0nat,
{
    if s.len() == 0 {
        Some(Seq::empty())
    } else {
        match (render_items(s.drop_last()), render(s.last())) {
            (Some(a), Some(b)) => Some(if s.len() == 1 { b } else { a + ", "@ + b }),
            _ => None,
        }
    }
}

/// The entries of `m` as `key: value`, joined by `, `.
pub open spec fn render_entries(m: Seq<(Seq<char>, Val)>) -> Option<Seq<char>>
    decreases m, 0nat,
{
    if m.len() == 0 {
        Some(Seq::empty())
    } else {
        match (render_entries(m.drop_last()), render(m.last().1)) {
            (Some(a), Some(b)) => {
                let e = m.last().0 + ": "@ + b;
                Some(if m.len() == 1 { e } else { a + ", "@ + e })
            },
            _ => None,
        }
    }
}

impl OmlValue {
    /// Appends the rendering of this value; false, with `out` in some state,
    /// where the value holds a float.
    pub fn render_into(&self, out: &mut String) -> (ok: bool)
        ensures
            ok == render(self.view_val()) is Some,
            ok ==> final(out)@ == old(out)@ + render(self.view_val())->0,
        decreases self,
    {
        match self {
            OmlValue::Null => {
                out.append("none");
                true
            },
            OmlValue::Bool(b) => {
                if *b {
                    out.append("true");
                } else {
                    out.append("false");
                }
                true
            },
            OmlValue::Int64(i) => {
                push_int(out, *i);
                true
            },
            OmlValue::Float64(_) => false,
            OmlValue::String(s) => {
                out.append(s.as_str());
                true
            },
            OmlValue::Array(a) => render_values_into(a, out),
            OmlValue::Dict(m) => render_entries_into(m, out),
        }
    }

    /// The textual rendering of this value; `None` where it holds a float.
    pub fn as_str(&self) -> (r: Option<String>)
        ensures
            r matches Some(s) ==> render(self.view_val()) == Some(s@),
            r is None <==> render(self.view_val()) is None,
    {
        let mut s = String::new();
        if self.render_into(&mut s) {
            assert(s@ =~= render(self.view_val())->0);
            Some(s)
        } else {
            None
        }
    }
}

fn render_values_into(a: &Vec<OmlValue>, out: &mut String) -> (ok: bool)
    ensures
        ok == render(Val::Arr(view_values(a@))) is Some,
        ok ==> final(out)@ == old(out)@ + render(Val::Arr(view_values(a@)))->0,
    decreases a,
{
    let ghost out0 = out@;
    out.append("[");
    let ghost vs = view_values(a@);
    proof {
        lemma_view_values(a@);
    }
    let mut i: usize = 0;
    while i < a.len()
        invariant
            i <= a.len(),
            vs == view_values(a@),
            vs.len() == a@.len(),
            forall|j: int| 0 <= j < a@.len() ==> #[trigger] vs[j] == a@[j].view_val(),
            render_items(vs.subrange(0, i as int)) is Some,
            out@ == out0 + "["@ + render_items(vs.subrange(0, i as int))->0,
        decreases a.len() - i,
    {
        assert(vs.subrange(0, i + 1).drop_last() =~= vs.subrange(0, i as int));
        if i > 0 {
            out.append(", ");
        }
        assert(decreases_to!(a => a[i as int]));
        let ok = a[i].render_into(out);
        if !ok {
            proof {
                if render_items(vs) is Some {
                    lemma_render_items_prefix(vs, i + 1);
                }
            }
            return false;
        }
        i += 1;
        assert(out@ =~= out0 + "["@ + render_items(vs.subrange(0, i as int))->0);
    }
    assert(vs.subrange(0, i as int) =~= vs);
    out.append("]");
    assert(out@ =~= old(out)@ + render(Val::Arr(view_values(a@)))->0);
    true
}

fn render_entries_into(m: &Vec<(String, OmlValue)>, out: &mut String) -> (ok: bool)
    ensures
        ok == render(Val::Dict(view_entries(m@))) is Some,
        ok ==> final(out)@ == old(out)@ + render(Val::Dict(view_entries(m@)))->0,
    decreases m,
{
    let ghost out0 = out@;
    out.append("{ ");
    let ghost es = view_entries(m@);
    proof {
        lemma_view_entries(m@);
    }
    let mut i: usize = 0;
    while i < m.len()
        invariant
            i <= m.len(),
            es == view_entries(m@),
            es.len() == m@.len(),
            forall|j: int| 0 <= j < m@.len() ==> #[trigger] es[j] == (m@[j].0@, m@[j].1.view_val()),
            render_entries(es.subrange(0, i as int)) is Some,
            out@ == out0 + "{ "@ + render_entries(es.subrange(0, i as int))->0,
        decreases m.len() - i,
    {
        assert(es.subrange(0, i + 1).drop_last() =~= es.subrange(0, i as int));
        if i > 0 {
            out.append(", ");
        }
        out.append(m[i].0.as_str());
        out.append(": ");
        assert(decreases_to!(m => m[i as int]));
        let ok = m[i].1.render_into(out);
        if !ok {
            proof {
                if render_entries(es) is Some {
                    lemma_render_entries_prefix(es, i + 1);
                }
            }
            return false;
        }
        i += 1;
        assert(out@ =~= out0 + "{ "@ + render_entries(es.subrange(0, i as int))->0);
    }
    assert(es.subrange(0, i as int) =~= es);
    out.append(" }");
    assert(out@ =~= old(out)@ + render(Val::Dict(view_entries(m@)))->0);
    true
}

/// The text of a quoted literal without its quotes, and without a leading `$`.
pub open spec fn base_of(s: Seq<char>) -> Seq<char> {
    let t = if s.len() > 0 && s[0] == '$' { s.drop_first() } else { s };
    t.subrange(1, t.len() - 1)
}

/// Taking the quotes off a literal's text.
pub trait IntoBaseExt {
    spec fn text(&self) -> Seq<char>;

    fn into_base(&self) -> (r: String)
        requires
            self.text().len() >= 2,
            self.text()[0] == '$' ==> self.text().len() >= 3,
        ensures
            r@ == base_of(self.text()),
    ;
}

impl IntoBaseExt for str {
    open spec fn text(&self) -> Seq<char> {
        self@
    }

    fn into_base(&self) -> (r: String) {
        let n = self.unicode_len();
        let from: usize = if self.get_char(0) == '$' { 2 } else { 1 };
        let inner = self.substring_char(from, n - 1);
        let r = String::from_str(inner);
        proof {
            let t = if self@[0] == '$' { self@.drop_first() } else { self@ };
            assert(t.subrange(1, t.len() - 1) =~= self@.subrange(from as int, n - 1));
        }
        r
    }
}

} // verus!
