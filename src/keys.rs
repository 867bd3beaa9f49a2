use vstd::prelude::*;
use vstd::string::StrSliceExecFns;
use crate::value::{OmlValue, Val, view_entries, lemma_view_entries};

verus! {

/// Lexicographic order on texts, by character.
pub open spec fn text_le(a: Seq<char>, b: Seq<char>) -> bool
    decreases a.len(),
{
    if a.len() == 0 {
        true
    } else if b.len() == 0 {
        false
    } else if a[0] != b[0] {
        a[0] < b[0]
    } else {
        text_le(a.drop_first(), b.drop_first())
    }
}

proof fn lemma_text_le_total(a: Seq<char>, b: Seq<char>)
    ensures
        text_le(a, b) || text_le(b, a),
    decreases a.len(),
{
    if a.len() > 0 && b.len() > 0 && a[0] == b[0] {
        lemma_text_le_total(a.drop_first(), b.drop_first());
    }
}

proof fn lemma_text_le_trans(a: Seq<char>, b: Seq<char>, c: Seq<char>)
    requires
        text_le(a, b),
        text_le(b, c),
    ensures
        text_le(a, c),
    decreases a.len(),
{
    if a.len() > 0 && b.len() > 0 && c.len() > 0 && a[0] == b[0] && b[0] == c[0] {
        lemma_text_le_trans(a.drop_first(), b.drop_first(), c.drop_first());
    }
}

fn le_text(a: &String, b: &String) -> (r: bool)
    ensures
        r == text_le(a@, b@),
{
    let sa = a.as_str();
    let sb = b.as_str();
    let na = sa.unicode_len();
    let nb = sb.unicode_len();
    let mut i: usize = 0;
    assert(a@.subrange(0, na as int) =~= a@);
    assert(b@.subrange(0, nb as int) =~= b@);
    while i < na && i < nb
        invariant
            i <= na,
            i <= nb,
            na == a@.len(),
            nb == b@.len(),
            sa@ == a@,
            sb@ == b@,
            forall|j: int| 0 <= j < i ==> a@[j] == b@[j],
            text_le(a@, b@) == text_le(a@.subrange(i as int, na as int), b@.subrange(i as int, nb as int)),
        decreases na - i,
    {
        let ca = sa.get_char(i);
        let cb = sb.get_char(i);
        let ghost ra = a@.subrange(i as int, na as int);
        let ghost rb = b@.subrange(i as int, nb as int);
        assert(ra[0] == ca && rb[0] == cb);
        if ca != cb {
            return ca < cb;
        }
        assert(ra.drop_first() =~= a@.subrange(i + 1, na as int));
        assert(rb.drop_first() =~= b@.subrange(i + 1, nb as int));
        i += 1;
    }
    i == na
}

pub open spec fn sorted_texts(s: Seq<String>) -> bool {
    forall|i: int, j: int| 0 <= i < j < s.len() ==> text_le(s[i]@, s[j]@)
}

/// No text occurs twice.
pub open spec fn distinct_texts(s: Seq<String>) -> bool {
    forall|i: int, j: int| 0 <= i < s.len() && 0 <= j < s.len() && i != j ==> s[i]@ != s[j]@
}

/// Whether `key` is one of the texts of `out`.
fn contains_text(out: &Vec<String>, key: &String) -> (r: bool)
    ensures
        r == text_among(key@, out@),
{
    let mut i: usize = 0;
    while i < out.len()
        invariant
            i <= out.len(),
            forall|j: int| 0 <= j < i ==> out@[j]@ != key@,
        decreases out.len() - i,
    {
        if out[i] == *key {
            return true;
        }
        i += 1;
    }
    false
}

impl OmlValue {
    /// The keys of a map in sorted order, each once; `None` for any other
    /// kind.
    pub fn keys(&self) -> (r: Option<Vec<String>>)
        ensures
            r is None <==> !(self.view_val() is Dict),
            r matches Some(ks) ==> {
                let m = self.view_val()->Dict_0;
                &&& sorted_texts(ks@)
                &&& distinct_texts(ks@)
                &&& forall|i: int| 0 <= i < ks.len() ==> #[trigger] key_among(ks@[i]@, m, m.len() as int)
                &&& forall|j: int| 0 <= j < m.len() ==> #[trigger] text_among(m[j].0, ks@)
            },
    {
        match self {
            OmlValue::Dict(m) => {
                proof {
                    lemma_view_entries(m@);
                }
                Some(sorted_keys(m))
            },
            _ => None,
        }
    }
}

/// Inserts `key` into the sorted `out`, after every text not above it.
fn insert_sorted(out: &mut Vec<String>, key: String) -> (p: usize)
    requires
        sorted_texts(old(out)@),
    ensures
        p <= old(out)@.len(),
        final(out)@ == old(out)@.insert(p as int, key),
        sorted_texts(final(out)@),
{
    let mut p: usize = 0;
    while p < out.len() && le_text(&out[p], &key)
        invariant
            p <= out.len(),
            forall|i: int| 0 <= i < p ==> text_le(#[trigger] out@[i]@, key@),
        decreases out.len() - p,
    {
        p += 1;
    }
    let ghost before = out@;
    proof {
        if p < out.len() {
            lemma_text_le_total(before[p as int]@, key@);
        }
        assert forall|j: int| p <= j < before.len() implies text_le(key@, #[trigger] before[j]@) by {
            if j > p {
                lemma_text_le_trans(key@, before[p as int]@, before[j]@);
            }
        }
    }
    out.insert(p, key);
    proof {
        assert forall|i: int, j: int| 0 <= i < j < out@.len() implies text_le(out@[i]@, out@[j]@) by {
            if j == p {
            } else if i == p {
                assert(out@[j] == before[j - 1]);
            } else {
                let bi = if i < p { i } else { i - 1 };
                let bj = if j < p { j } else { j - 1 };
                assert(out@[i] == before[bi]);
                assert(out@[j] == before[bj]);
            }
        }
    }
    p
}

/// `t` is the key of one of the first `k` entries.
pub open spec fn key_among(t: Seq<char>, es: Seq<(Seq<char>, Val)>, k: int) -> bool {
    exists|j: int| 0 <= j < k && es[j].0 == t
}

/// `t` is one of the texts of `s`.
pub open spec fn text_among(t: Seq<char>, s: Seq<String>) -> bool {
    exists|i: int| 0 <= i < s.len() && s[i]@ == t
}

proof fn lemma_insert_members(
    before: Seq<String>,
    p: int,
    key: String,
    after: Seq<String>,
    es: Seq<(Seq<char>, Val)>,
    k: int,
)
    requires
        0 <= p <= before.len(),
        after == before.insert(p, key),
        0 <= k < es.len(),
        key@ == es[k].0,
        forall|i: int| 0 <= i < before.len() ==> #[trigger] key_among(before[i]@, es, k),
        forall|j: int| 0 <= j < k ==> #[trigger] text_among(es[j].0, before),
    ensures
        forall|i: int| 0 <= i < after.len() ==> #[trigger] key_among(after[i]@, es, k + 1),
        forall|j: int| 0 <= j < k + 1 ==> #[trigger] text_among(es[j].0, after),
{
    assert forall|i: int| 0 <= i < after.len() implies #[trigger] key_among(after[i]@, es, k + 1) by {
        if i == p {
            assert(after[i]@ == es[k].0);
        } else {
            let bi = if i < p { i } else { i - 1 };
            assert(after[i] == before[bi]);
            assert(key_among(before[bi]@, es, k));
            let j0 = choose|j: int| 0 <= j < k && es[j].0 == before[bi]@;
            assert(es[j0].0 == after[i]@);
        }
    }
    assert forall|j: int| 0 <= j < k + 1 implies #[trigger] text_among(es[j].0, after) by {
        if j == k {
            assert(after[p]@ == es[j].0);
        } else {
            assert(text_among(es[j].0, before));
            let i0 = choose|i: int| 0 <= i < before.len() && before[i]@ == es[j].0;
            if i0 < p {
                assert(after[i0] == before[i0]);
            } else {
                assert(after[i0 + 1] == before[i0]);
            }
        }
    }
}

fn sorted_keys(m: &Vec<(String, OmlValue)>) -> (r: Vec<String>)
    ensures
        sorted_texts(r@),
        distinct_texts(r@),
        forall|i: int| 0 <= i < r.len() ==> #[trigger] key_among(r@[i]@, view_entries(m@), view_entries(m@).len() as int),
        forall|j: int| 0 <= j < view_entries(m@).len() ==> #[trigger] text_among(view_entries(m@)[j].0, r@),
{
    let ghost es = view_entries(m@);
    proof {
        lemma_view_entries(m@);
    }
    let mut out: Vec<String> = Vec::new();
    let mut k: usize = 0;
    while k < m.len()
        invariant
            k <= m.len(),
            es == view_entries(m@),
            es.len() == m@.len(),
            forall|j: int| 0 <= j < m@.len() ==> #[trigger] es[j] == (m@[j].0@, m@[j].1.view_val()),
            sorted_texts(out@),
            distinct_texts(out@),
            forall|i: int| 0 <= i < out.len() ==> #[trigger] key_among(out@[i]@, es, k as int),
            forall|j: int| 0 <= j < k ==> #[trigger] text_among(es[j].0, out@),
        decreases m.len() - k,
    {
        let key = m[k].0.clone();
        let ghost before = out@;
        if contains_text(&out, &key) {
            proof {
                assert forall|i: int| 0 <= i < out.len() implies #[trigger] key_among(out@[i]@, es, k + 1) by {
                    assert(key_among(out@[i]@, es, k as int));
                    let j0 = choose|j: int| 0 <= j < k && es[j].0 == out@[i]@;
                    assert(0 <= j0 < k + 1 && es[j0].0 == out@[i]@);
                }
                assert forall|j: int| 0 <= j < k + 1 implies #[trigger] text_among(es[j].0, out@) by {
                    if j == k {
                        assert(es[j].0 == key@);
                    }
                }
            }
        } else {
            let p = insert_sorted(&mut out, key);
            proof {
                lemma_insert_members(before, p as int, key, out@, es, k as int);
                assert forall|i: int, j: int| 0 <= i < out@.len() && 0 <= j < out@.len() && i != j implies out@[i]@ != out@[j]@ by {
                    if i == p {
                        let bj = if j < p { j } else { j - 1 };
                        assert(out@[j] == before[bj]);
                    } else if j == p {
                        let bi = if i < p { i } else { i - 1 };
                        assert(out@[i] == before[bi]);
                    } else {
                        let bi = if i < p { i } else { i - 1 };
                        let bj = if j < p { j } else { j - 1 };
                        assert(out@[i] == before[bi]);
                        assert(out@[j] == before[bj]);
                    }
                }
            }
        }
        k += 1;
    }
    out
}

} // verus!
