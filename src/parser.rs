//! The document grammar and the parser that builds expression trees from it.
//!
//! A document is a sequence of statements, separated by white space and `#`
//! comments: a header `[a.b]` or array head `[[a.b]]`, which starts a block,
//! or an assignment `a.b = expr` into the current block; either may carry a
//! guard `@if expr` before it. An expression is operands joined by binary
//! operators, built by precedence, optionally followed by `? then : else`.
//! An operand is a literal (`true`, `false`, digits, `"text"`, `$"text {expr}"`),
//! a dotted name, a parenthesised expression, a sequence `[a, b]` or a map
//! `{ k = v, ... }`, with prefix operators before it and `++`/`--` after it.

use vstd::prelude::*;
use vstd::string::{StrSliceExecFns, StringExecFns};
use vstd::std_specs::iter::IteratorSpec;
use crate::builder::{wrap_keys, fold_binary, nest, key_views, fold_spec};
use crate::path::digits_val;
use crate::expr::{OmlExpr, OmlExprIfAnno, ExprV, merge_expr, view_exprs, view_strings};
use crate::ops::{BinOp, UnOp};
use crate::text::push_char;
use crate::value::OmlValue;

verus! {

/// A parse result: the expression and the position just after it.
pub type Parsed = Result<(OmlExpr, usize), String>;

pub open spec fn advanced(r: Parsed, pos: usize, len: nat) -> bool {
    r matches Ok((_, p)) ==> pos < p <= len
}

/// A parse result agrees with what the grammar says of the same text.
pub open spec fn parsed_as(r: Parsed, sp: Option<(ExprV, int)>) -> bool {
    match r {
        Ok((e, p)) => sp == Some((e.view_expr(), p as int)),
        Err(m) => sp is None && m@.len() > 0,
    }
}

proof fn lemma_exprs_push(v: Seq<OmlExpr>, x: OmlExpr)
    ensures
        view_exprs(v.push(x)) == view_exprs(v).push(x.view_expr()),
{
    assert(v.push(x).drop_last() =~= v);
}

proof fn lemma_strings_push(v: Seq<String>, x: String)
    ensures
        view_strings(v.push(x)) == view_strings(v).push(x@),
{
    assert(view_strings(v.push(x)) =~= view_strings(v).push(x@));
}

/// The characters of `s`.
fn chars_of(s: &str) -> (r: Vec<char>)
    ensures
        r@ == s@,
{
    broadcast use vstd::string::group_string_axioms;

    let mut it = s.chars();
    let mut out: Vec<char> = Vec::new();
    loop
        invariant
            out@ + it.remaining() == s@,
            it.obeys_prophetic_iter_laws(),
            it.decrease() is Some,
        ensures
            out@ == s@,
        decreases it.decrease()->0,
    {
        match it.next() {
            Some(c) => {
                out.push(c);
                assert(out@ + it.remaining() =~= s@);
            },
            None => {
                assert(out@ =~= s@);
                break;
            },
        }
    }
    out
}

/// The message of text that the grammar rejects: where, in characters.
pub open spec fn syntax_msg(pos: nat) -> Seq<char> {
    "syntax error at character "@ + crate::text::digits_of(pos as nat)
}

fn syntax_error(pos: usize) -> (r: String)
    ensures
        r@ == syntax_msg(pos as nat),
        r@.len() > 0,
{
    let mut m = String::from_str("syntax error at character ");
    crate::text::push_digits(&mut m, pos as u64);
    proof {
        reveal_strlit("syntax error at character ");
    }
    m
}

pub open spec fn is_space(c: char) -> bool {
    c == ' ' || c == '\t' || c == '\r' || c == '\n'
}

pub open spec fn is_id_start(c: char) -> bool {
    ('a' <= c && c <= 'z') || ('A' <= c && c <= 'Z') || c == '_'
}

pub open spec fn is_digit(c: char) -> bool {
    '0' <= c && c <= '9'
}

pub open spec fn is_id_char(c: char) -> bool {
    is_id_start(c) || is_digit(c)
}

/// The position of the first character at or after `p` that is neither
/// white space nor inside a `#` comment (which runs to the end of its line).
pub open spec fn ws_spec(s: Seq<char>, p: int) -> int
    decreases s.len() - p, 0nat,
{
    if p < 0 || p >= s.len() {
        p
    } else if is_space(s[p]) {
        ws_spec(s, p + 1)
    } else if s[p] == '#' {
        comment_spec(s, p + 1)
    } else {
        p
    }
}

/// Where white space resumes after the comment text from `p` on.
pub open spec fn comment_spec(s: Seq<char>, p: int) -> int
    decreases s.len() - p, 1nat,
{
    if p < 0 || p >= s.len() {
        p
    } else if s[p] == '\n' {
        ws_spec(s, p)
    } else {
        comment_spec(s, p + 1)
    }
}

fn skip_ws(s: &Vec<char>, pos: usize) -> (r: usize)
    requires
        pos <= s.len(),
    ensures
        pos <= r <= s.len(),
        r == ws_spec(s@, pos as int),
{
    let mut p = pos;
    while p < s.len()
        invariant
            pos <= p <= s.len(),
            ws_spec(s@, pos as int) == ws_spec(s@, p as int),
        decreases s.len() - p,
    {
        let c = s[p];
        if c == ' ' || c == '\t' || c == '\r' || c == '\n' {
            p += 1;
        } else if c == '#' {
            let start = p;
            p += 1;
            while p < s.len() && s[p] != '\n'
                invariant
                    pos <= start < p <= s.len(),
                    ws_spec(s@, pos as int) == comment_spec(s@, p as int),
                decreases s.len() - p,
            {
                p += 1;
            }
        } else {
            return p;
        }
    }
    p
}

fn at(s: &Vec<char>, p: usize, c: char) -> (r: bool)
    ensures
        r == (p < s.len() && s@[p as int] == c),
{
    p < s.len() && s[p] == c
}

fn id_start(c: char) -> (r: bool)
    ensures
        r == is_id_start(c),
{
    ('a' <= c && c <= 'z') || ('A' <= c && c <= 'Z') || c == '_'
}

fn digit(c: char) -> (r: bool)
    ensures
        r == is_digit(c),
{
    '0' <= c && c <= '9'
}

/// The text of `s` from `from` up to `to`.
fn text_of(s: &Vec<char>, from: usize, to: usize) -> (r: String)
    requires
        from <= to <= s.len(),
    ensures
        r@ == s@.subrange(from as int, to as int),
{
    let mut out = String::new();
    let mut i = from;
    while i < to
        invariant
            from <= i <= to,
            to <= s.len(),
            out@ == s@.subrange(from as int, i as int),
        decreases to - i,
    {
        push_char(&mut out, s[i]);
        i += 1;
        assert(out@ =~= s@.subrange(from as int, i as int));
    }
    out
}

/// The end of the run of identifier characters from `p` on.
pub open spec fn id_end(s: Seq<char>, p: int) -> int
    decreases s.len() - p,
{
    if 0 <= p < s.len() && is_id_char(s[p]) {
        id_end(s, p + 1)
    } else {
        p
    }
}

/// A dotted name at `p`: its parts and the position after it.
pub open spec fn ids_spec(s: Seq<char>, p: int) -> Option<(Seq<Seq<char>>, int)> {
    if 0 <= p < s.len() && is_id_start(s[p]) {
        let e = id_end(s, p + 1);
        ids_more(s, e, seq![s.subrange(p, e)])
    } else {
        None
    }
}

/// The parts `.b.c` that follow a name's first part, from `p` on.
pub open spec fn ids_more(s: Seq<char>, p: int, acc: Seq<Seq<char>>) -> Option<(Seq<Seq<char>>, int)>
    decreases s.len() - p,
{
    if 0 <= p < s.len() && s[p] == '.' {
        if p + 1 < s.len() && is_id_start(s[p + 1]) {
            let e = id_end(s, p + 2);
            if e <= p || e > s.len() {
                None
            } else {
                ids_more(s, e, acc.push(s.subrange(p + 1, e)))
            }
        } else {
            None
        }
    } else {
        Some((acc, p))
    }
}

/// An identifier starting at `pos`.
fn parse_id(s: &Vec<char>, pos: usize) -> (r: Option<(String, usize)>)
    requires
        pos <= s.len(),
    ensures
        r is Some <==> pos < s.len() && is_id_start(s@[pos as int]),
        r matches Some((id, p)) ==> {
            &&& pos < p <= s.len()
            &&& p == id_end(s@, pos + 1)
            &&& id@ == s@.subrange(pos as int, p as int)
        },
{
    if pos < s.len() && id_start(s[pos]) {
        let mut p = pos + 1;
        while p < s.len() && (id_start(s[p]) || digit(s[p]))
            invariant
                pos < p <= s.len(),
                id_end(s@, pos + 1) == id_end(s@, p as int),
            decreases s.len() - p,
        {
            p += 1;
        }
        Some((text_of(s, pos, p), p))
    } else {
        None
    }
}

/// A dotted name `a.b.c` starting at `pos`, as its parts.
fn parse_ids(s: &Vec<char>, pos: usize) -> (r: Option<(Vec<String>, usize)>)
    requires
        pos <= s.len(),
    ensures
        r is None <==> ids_spec(s@, pos as int) is None,
        r matches Some((ids, p)) ==> pos < p <= s.len() && ids.len() > 0 && ids_spec(s@, pos as int)
            == Some((key_views(ids@), p as int)),
{
    let (first, mut p) = match parse_id(s, pos) {
        Some(x) => x,
        None => {
            return None;
        },
    };
    let mut ids: Vec<String> = Vec::new();
    ids.push(first);
    assert(key_views(ids@) =~= seq![s@.subrange(pos as int, p as int)]);
    while at(s, p, '.')
        invariant
            pos < p <= s.len(),
            ids.len() > 0,
            ids_spec(s@, pos as int) == ids_more(s@, p as int, key_views(ids@)),
        decreases s.len() - p,
    {
        match parse_id(s, p + 1) {
            Some((id, q)) => {
                let ghost before = key_views(ids@);
                ids.push(id);
                assert(key_views(ids@) =~= before.push(s@.subrange(p + 1, q as int)));
                p = q;
            },
            None => {
                return None;
            },
        }
    }
    Some((ids, p))
}

/// The two-character binary operator `a b`, if any.
pub open spec fn two_op(a: char, b: char) -> Option<BinOp> {
    if a == '*' && b == '*' {
        Some(BinOp::Pow)
    } else if a == '<' && b == '<' {
        Some(BinOp::Shl)
    } else if a == '>' && b == '>' {
        Some(BinOp::Shr)
    } else if a == '<' && b == '=' {
        Some(BinOp::Le)
    } else if a == '>' && b == '=' {
        Some(BinOp::Ge)
    } else if a == '=' && b == '=' {
        Some(BinOp::Eq)
    } else if a == '!' && b == '=' {
        Some(BinOp::Ne)
    } else if a == '&' && b == '&' {
        Some(BinOp::And)
    } else if a == '|' && b == '|' {
        Some(BinOp::Or)
    } else {
        None
    }
}

/// The one-character binary operator `c`, if any.
pub open spec fn one_op(c: char) -> Option<BinOp> {
    if c == '*' {
        Some(BinOp::Mul)
    } else if c == '/' {
        Some(BinOp::Div)
    } else if c == '%' {
        Some(BinOp::Rem)
    } else if c == '+' {
        Some(BinOp::Add)
    } else if c == '-' {
        Some(BinOp::Sub)
    } else if c == '^' {
        Some(BinOp::BitXor)
    } else if c == '|' {
        Some(BinOp::BitOr)
    } else if c == '&' {
        Some(BinOp::BitAnd)
    } else if c == '<' {
        Some(BinOp::Lt)
    } else if c == '>' {
        Some(BinOp::Gt)
    } else {
        None
    }
}

/// The binary operator at `p`, the longest that matches, and the position
/// after it.
pub open spec fn op2_at(s: Seq<char>, p: int) -> Option<(BinOp, int)> {
    if 0 <= p && p + 1 < s.len() && two_op(s[p], s[p + 1]) is Some {
        Some((two_op(s[p], s[p + 1])->0, p + 2))
    } else if 0 <= p < s.len() && one_op(s[p]) is Some {
        Some((one_op(s[p])->0, p + 1))
    } else {
        None
    }
}

fn two_char_op(a: char, b: char) -> (r: Option<BinOp>)
    ensures
        r == two_op(a, b),
{
    if a == '*' && b == '*' {
        Some(BinOp::Pow)
    } else if a == '<' && b == '<' {
        Some(BinOp::Shl)
    } else if a == '>' && b == '>' {
        Some(BinOp::Shr)
    } else if a == '<' && b == '=' {
        Some(BinOp::Le)
    } else if a == '>' && b == '=' {
        Some(BinOp::Ge)
    } else if a == '=' && b == '=' {
        Some(BinOp::Eq)
    } else if a == '!' && b == '=' {
        Some(BinOp::Ne)
    } else if a == '&' && b == '&' {
        Some(BinOp::And)
    } else if a == '|' && b == '|' {
        Some(BinOp::Or)
    } else {
        None
    }
}

fn one_char_op(c: char) -> (r: Option<BinOp>)
    ensures
        r == one_op(c),
{
    if c == '*' {
        Some(BinOp::Mul)
    } else if c == '/' {
        Some(BinOp::Div)
    } else if c == '%' {
        Some(BinOp::Rem)
    } else if c == '+' {
        Some(BinOp::Add)
    } else if c == '-' {
        Some(BinOp::Sub)
    } else if c == '^' {
        Some(BinOp::BitXor)
    } else if c == '|' {
        Some(BinOp::BitOr)
    } else if c == '&' {
        Some(BinOp::BitAnd)
    } else if c == '<' {
        Some(BinOp::Lt)
    } else if c == '>' {
        Some(BinOp::Gt)
    } else {
        None
    }
}

/// A binary operator at `pos`, the longest that matches.
fn match_op2(s: &Vec<char>, pos: usize) -> (r: Option<(BinOp, usize)>)
    requires
        pos <= s.len(),
    ensures
        r matches Some((_, p)) ==> pos < p <= s.len(),
        match r {
            Some((op, p)) => op2_at(s@, pos as int) == Some((op, p as int)),
            None => op2_at(s@, pos as int) is None,
        },
{
    if s.len() >= 2 && pos < s.len() - 1 {
        if let Some(op) = two_char_op(s[pos], s[pos + 1]) {
            return Some((op, pos + 2));
        }
    }
    if pos >= s.len() {
        return None;
    }
    match one_char_op(s[pos]) {
        Some(op) => Some((op, pos + 1)),
        None => None,
    }
}

/// A number literal: an integer, or where the digits do not fit one, the raw
/// text as a string.
fn parse_number(s: &Vec<char>, pos: usize) -> (r: Parsed)
    requires
        pos < s.len(),
        is_digit(s@[pos as int]),
    ensures
        advanced(r, pos, s@.len()),
        r is Ok,
        parsed_as(r, number_spec(s@, pos as int)),
{
    let mut p = pos;
    let mut value: i64 = 0;
    let mut fits = true;
    while p < s.len() && digit(s[p])
        invariant
            pos <= p <= s.len(),
            forall|i: int| pos <= i < p ==> is_digit(#[trigger] s@[i]),
            fits ==> value == digits_val(s@.subrange(pos as int, p as int)),
            !fits ==> digits_val(s@.subrange(pos as int, p as int)) > i64::MAX,
            p == pos ==> fits,
            digits_end(s@, pos as int) == digits_end(s@, p as int),
        decreases s.len() - p,
    {
        let ghost before = s@.subrange(pos as int, p as int);
        assert(s@.subrange(pos as int, p + 1).drop_last() =~= before);
        assert(s@.subrange(pos as int, p + 1).last() == s@[p as int]);
        let d = (s[p] as u32 - '0' as u32) as i64;
        if fits {
            match value.checked_mul(10) {
                Some(v) => match v.checked_add(d) {
                    Some(w) => {
                        value = w;
                    },
                    None => {
                        fits = false;
                    },
                },
                None => {
                    fits = false;
                },
            }
        }
        p += 1;
    }
    if s.len() > 0 && p < s.len() - 1 && s[p] == '.' && digit(s[p + 1]) {
        let mut q = p + 1;
        while q < s.len() && digit(s[q])
            invariant
                p < q <= s.len(),
                digits_end(s@, p + 1) == digits_end(s@, q as int),
            decreases s.len() - q,
        {
            q += 1;
        }
        return Ok((OmlExpr::Value(OmlValue::String(text_of(s, pos, q))), q));
    }
    if fits {
        Ok((OmlExpr::Value(OmlValue::Int64(value)), p))
    } else {
        Ok((OmlExpr::Value(OmlValue::String(text_of(s, pos, p))), p))
    }
}

/// A string literal `"..."` at `pos`.
fn parse_string(s: &Vec<char>, pos: usize) -> (r: Parsed)
    requires
        pos < s.len(),
    ensures
        advanced(r, pos, s@.len()),
        r is Ok <==> exists|i: int| pos < i < s.len() && s@[i] == '"',
        r matches Ok((e, p)) ==> {
            &&& s@[p - 1] == '"'
            &&& forall|i: int| pos < i < p - 1 ==> #[trigger] s@[i] != '"'
            &&& e.view_expr() == ExprV::Value(crate::value::Val::Str(s@.subrange(pos + 1, p - 1)))
        },
        parsed_as(r, string_spec(s@, pos as int)),
{
    let mut p = pos + 1;
    while p < s.len() && s[p] != '"'
        invariant
            pos < p <= s.len(),
            forall|i: int| pos < i < p ==> #[trigger] s@[i] != '"',
            quote_after(s@, pos as int) == quote_after(s@, p - 1),
        decreases s.len() - p,
    {
        p += 1;
    }
    if p >= s.len() {
        return Err(syntax_error(pos));
    }
    Ok((OmlExpr::Value(OmlValue::String(text_of(s, pos + 1, p))), p + 1))
}

/// What a number literal at `p` builds, and the position after its digits.
///
/// Numeric text is digits, optionally followed by `.` and more digits. Text
/// that is an integer fitting an `i64` gives that integer; any other numeric
/// text (a fraction, or too many digits) gives the raw text as a string.
pub open spec fn number_spec(s: Seq<char>, p: int) -> Option<(ExprV, int)> {
    let e = digits_end(s, p);
    let f = number_end(s, p);
    let digits = s.subrange(p, e);
    Some((
        ExprV::Value(
            if f == e && digits_val(digits) <= i64::MAX {
                crate::value::Val::Int(digits_val(digits) as i64)
            } else {
                crate::value::Val::Str(s.subrange(p, f))
            },
        ),
        f,
    ))
}

/// The end of the numeric text at `p`: its digits, and a fraction `.digits`
/// if one follows.
pub open spec fn number_end(s: Seq<char>, p: int) -> int {
    let e = digits_end(s, p);
    if 0 <= e && e + 1 < s.len() && s[e] == '.' && is_digit(s[e + 1]) {
        digits_end(s, e + 1)
    } else {
        e
    }
}

/// The end of the run of digits from `p` on.
pub open spec fn digits_end(s: Seq<char>, p: int) -> int
    decreases s.len() - p,
{
    if 0 <= p < s.len() && is_digit(s[p]) {
        digits_end(s, p + 1)
    } else {
        p
    }
}

/// The position of the first `"` after `p`, if any.
pub open spec fn quote_after(s: Seq<char>, p: int) -> Option<int>
    decreases s.len() - p,
{
    if p + 1 < 0 || p + 1 >= s.len() {
        None
    } else if s[p + 1] == '"' {
        Some(p + 1)
    } else {
        quote_after(s, p + 1)
    }
}

/// What a string literal whose opening quote is at `p` builds.
pub open spec fn string_spec(s: Seq<char>, p: int) -> Option<(ExprV, int)> {
    match quote_after(s, p) {
        Some(q) => if p < q {
            Some((ExprV::Value(crate::value::Val::Str(s.subrange(p + 1, q))), q + 1))
        } else {
            None
        },
        None => None,
    }
}

/// The prefix operators from `p` on, in order, and where they end.
pub open spec fn prefix_loop(s: Seq<char>, p: int, acc: Seq<UnOp>) -> (Seq<UnOp>, int)
    decreases s.len() - p,
{
    if p < 0 || p >= s.len() {
        (acc, p)
    } else {
        let (op, n) = if p + 1 < s.len() && s[p] == '+' && s[p + 1] == '+' {
            (Some(UnOp::Inc), 2int)
        } else if p + 1 < s.len() && s[p] == '-' && s[p + 1] == '-' {
            (Some(UnOp::Dec), 2)
        } else if s[p] == '!' {
            (Some(UnOp::Not), 1)
        } else if s[p] == '-' {
            (Some(UnOp::Neg), 1)
        } else if s[p] == '~' {
            (Some(UnOp::BitNot), 1)
        } else {
            (None, 0)
        };
        match op {
            Some(o) => {
                let q = ws_spec(s, p + n);
                if q <= p || q > s.len() {
                    (acc, p)
                } else {
                    prefix_loop(s, q, acc.push(o))
                }
            },
            None => (acc, p),
        }
    }
}

/// `e` under the prefix operators, the last one innermost.
pub open spec fn apply_prefixes(e: ExprV, ops: Seq<UnOp>) -> ExprV
    decreases ops.len(),
{
    if ops.len() == 0 {
        e
    } else {
        apply_prefixes(ExprV::Prefix(ops.last(), Box::new(e)), ops.drop_last())
    }
}

/// `e` under the suffix operators written right after it at `p`.
pub open spec fn suffix_loop(s: Seq<char>, e: ExprV, p: int) -> (ExprV, int)
    decreases s.len() - p,
{
    if 0 <= p && p + 1 < s.len() && s[p] == '+' && s[p + 1] == '+' {
        suffix_loop(s, ExprV::Suffix(Box::new(e), UnOp::Inc), p + 2)
    } else if 0 <= p && p + 1 < s.len() && s[p] == '-' && s[p + 1] == '-' {
        suffix_loop(s, ExprV::Suffix(Box::new(e), UnOp::Dec), p + 2)
    } else {
        (e, p)
    }
}

/// The rest of a format string from `p` on: `strs` and `xs` hold the
/// fragments and embedded expressions so far, the open fragment starts at
/// `start`.
pub open spec fn fmt_loop(s: Seq<char>, strs: Seq<Seq<char>>, xs: Seq<ExprV>, start: int, p: int) -> Option<(ExprV, int)>
    decreases s.len() - p, 5nat,
{
    if p < 0 || p >= s.len() || start < 0 || start > p {
        None
    } else if s[p] == '"' {
        if xs.len() == 0 {
            Some((ExprV::Value(crate::value::Val::Str(s.subrange(start, p))), p + 1))
        } else {
            Some((ExprV::Format(strs.push(s.subrange(start, p)), xs), p + 1))
        }
    } else if s[p] == '{' {
        match expr_spec(s, p + 1) {
            Some((e, q)) => {
                let q2 = ws_spec(s, q);
                if q <= p || q2 < q || q2 >= s.len() || s[q2] != '}' {
                    None
                } else {
                    fmt_loop(s, strs.push(s.subrange(start, p)), xs.push(e), q2 + 1, q2 + 1)
                }
            },
            None => None,
        }
    } else {
        fmt_loop(s, strs, xs, start, p + 1)
    }
}

/// An operand at `pos`.
pub open spec fn strong_spec(s: Seq<char>, pos: int) -> Option<(ExprV, int)>
    decreases s.len() - pos, 1nat,
{
    let p = ws_spec(s, pos);
    if pos < 0 || p < pos || p >= s.len() {
        None
    } else if s[p] == '(' {
        match expr_spec(s, p + 1) {
            Some((e, q)) => {
                let q2 = ws_spec(s, q);
                if 0 <= q2 < s.len() && s[q2] == ')' {
                    Some((e, q2 + 1))
                } else {
                    None
                }
            },
            None => None,
        }
    } else if s[p] == '[' {
        let q = ws_spec(s, p + 1);
        if q <= pos || q > s.len() {
            None
        } else {
            items_loop(s, Seq::empty(), q)
        }
    } else if s[p] == '{' {
        let q = ws_spec(s, p + 1);
        if q <= pos || q > s.len() {
            None
        } else {
            pairs_loop(s, ExprV::Dict(Seq::empty()), q)
        }
    } else if s[p] == '"' {
        string_spec(s, p)
    } else if s[p] == '$' {
        if p + 1 < s.len() && s[p + 1] == '"' {
            fmt_loop(s, Seq::empty(), Seq::empty(), p + 2, p + 2)
        } else {
            None
        }
    } else if is_digit(s[p]) {
        number_spec(s, p)
    } else {
        match ids_spec(s, p) {
            Some((ids, q)) => Some((
                if ids == seq!["true"@] {
                    ExprV::Value(crate::value::Val::Bool(true))
                } else if ids == seq!["false"@] {
                    ExprV::Value(crate::value::Val::Bool(false))
                } else {
                    ExprV::Name(ids)
                },
                q,
            )),
            None => None,
        }
    }
}

/// The rest of a sequence literal from `q` on, after the elements `items`.
pub open spec fn items_loop(s: Seq<char>, items: Seq<ExprV>, q: int) -> Option<(ExprV, int)>
    decreases s.len() - q, 6nat,
{
    if q < 0 || q > s.len() {
        None
    } else if q < s.len() && s[q] == ']' {
        Some((ExprV::Array(items), q + 1))
    } else {
        match expr_spec(s, q) {
            Some((e, q2)) => {
                let q3 = ws_spec(s, q2);
                if q2 <= q || q3 < q2 || q3 >= s.len() {
                    None
                } else if s[q3] == ',' {
                    let q4 = ws_spec(s, q3 + 1);
                    if q4 <= q || q4 > s.len() {
                        None
                    } else {
                        items_loop(s, items.push(e), q4)
                    }
                } else if s[q3] == ']' {
                    Some((ExprV::Array(items.push(e)), q3 + 1))
                } else {
                    None
                }
            },
            None => None,
        }
    }
}

/// The rest of a map literal from `q` on, after the entries merged in `body`.
pub open spec fn pairs_loop(s: Seq<char>, body: ExprV, q: int) -> Option<(ExprV, int)>
    decreases s.len() - q, 6nat,
{
    if q < 0 || q > s.len() {
        None
    } else if q < s.len() && s[q] == '}' {
        Some((body, q + 1))
    } else {
        match pair_spec(s, q) {
            Some((keys, value, q2)) => {
                let body2 = merge_expr(body, nest(keys, value));
                let q3 = ws_spec(s, q2);
                if q2 <= q || q3 < q2 || q3 >= s.len() {
                    None
                } else if s[q3] == ',' {
                    let q4 = ws_spec(s, q3 + 1);
                    if q4 <= q || q4 > s.len() {
                        None
                    } else {
                        pairs_loop(s, body2, q4)
                    }
                } else if s[q3] == '}' {
                    Some((body2, q3 + 1))
                } else {
                    None
                }
            },
            None => None,
        }
    }
}

/// `name = expr` at `pos`: the name's parts, the expression, and the
/// position after it.
pub open spec fn pair_spec(s: Seq<char>, pos: int) -> Option<(Seq<Seq<char>>, ExprV, int)>
    decreases s.len() - pos, 5nat,
{
    let p = ws_spec(s, pos);
    match ids_spec(s, p) {
        Some((keys, q)) => {
            let q2 = ws_spec(s, q);
            if pos < 0 || q2 < pos || q2 >= s.len() || s[q2] != '=' {
                None
            } else {
                match expr_spec(s, q2 + 1) {
                    Some((value, q3)) => Some((keys, value, q3)),
                    None => None,
                }
            }
        },
        None => None,
    }
}

/// An operand with its prefix and suffix operators, at `pos`.
pub open spec fn middle_spec(s: Seq<char>, pos: int) -> Option<(ExprV, int)>
    decreases s.len() - pos, 2nat,
{
    let (prefixes, p) = prefix_loop(s, ws_spec(s, pos), Seq::empty());
    if pos < 0 || p < pos || p > s.len() {
        None
    } else {
        match strong_spec(s, p) {
            Some((e, q)) => Some(suffix_loop(s, apply_prefixes(e, prefixes), q)),
            None => None,
        }
    }
}

/// The operators and operands that follow the first operand, from `p` on.
pub open spec fn weak_loop(s: Seq<char>, es: Seq<ExprV>, ops: Seq<BinOp>, p: int) -> Option<(Seq<ExprV>, Seq<BinOp>, int)>
    decreases s.len() - p, 3nat,
{
    if p < 0 || p > s.len() {
        None
    } else {
        match op2_at(s, ws_spec(s, p)) {
            Some((op, q2)) => if q2 <= p || q2 > s.len() {
                None
            } else {
                match middle_spec(s, q2) {
                    Some((e, q3)) => if q3 <= p || q3 > s.len() {
                        None
                    } else {
                        weak_loop(s, es.push(e), ops.push(op), q3)
                    },
                    None => None,
                }
            },
            None => Some((es, ops, p)),
        }
    }
}

/// Operands joined by binary operators at `pos`, built by precedence.
pub open spec fn weak_spec(s: Seq<char>, pos: int) -> Option<(ExprV, int)>
    decreases s.len() - pos, 4nat,
{
    match middle_spec(s, pos) {
        Some((e, p)) => if p <= pos || p > s.len() {
            None
        } else {
            match weak_loop(s, seq![e], Seq::empty(), p) {
                Some((es, ops, q)) => Some((fold_spec(es, ops), q)),
                None => None,
            }
        },
        None => None,
    }
}

/// An expression at `pos`, with an optional `? then : else`.
pub open spec fn expr_spec(s: Seq<char>, pos: int) -> Option<(ExprV, int)>
    decreases s.len() - pos, 5nat,
{
    match weak_spec(s, pos) {
        Some((c, p)) => {
            let q = ws_spec(s, p);
            if q < 0 || q >= s.len() || s[q] != '?' {
                Some((c, p))
            } else if q < pos {
                None
            } else {
                match expr_spec(s, q + 1) {
                    Some((t, p2)) => {
                        let q2 = ws_spec(s, p2);
                        if p2 <= q || q2 < p2 || q2 >= s.len() || s[q2] != ':' {
                            None
                        } else {
                            match expr_spec(s, q2 + 1) {
                                Some((f, p3)) => Some((ExprV::Op3(Box::new(c), Box::new(t), Box::new(f)), p3)),
                                None => None,
                            }
                        }
                    },
                    None => None,
                }
            }
        },
        None => None,
    }
}

/// A format string `$"...{expr}..."` at `pos`.
fn parse_format(s: &Vec<char>, pos: usize) -> (r: Parsed)
    requires
        pos + 1 < s.len(),
    ensures
        advanced(r, pos, s@.len()),
        parsed_as(r, fmt_loop(s@, Seq::empty(), Seq::empty(), pos + 2, pos + 2)),
    decreases s.len() - pos, 0nat,
{
    let mut strs: Vec<String> = Vec::new();
    let mut exprs: Vec<OmlExpr> = Vec::new();
    let mut p = pos + 2;
    let mut start = p;
    assert(view_strings(strs@) =~= Seq::<Seq<char>>::empty());
    loop
        invariant
            pos + 2 <= start <= p <= s.len(),
            strs.len() == exprs.len(),
            fmt_loop(s@, Seq::empty(), Seq::empty(), pos + 2, pos + 2) == fmt_loop(
                s@,
                view_strings(strs@),
                view_exprs(exprs@),
                start as int,
                p as int,
            ),
        decreases s.len() - p,
    {
        if p >= s.len() {
            return Err(syntax_error(pos));
        }
        let c = s[p];
        if c == '"' {
            let t = text_of(s, start, p);
            proof {
                lemma_strings_push(strs@, t);
            }
            strs.push(t);
            if exprs.len() == 0 {
                let t = strs.pop().unwrap();
                return Ok((OmlExpr::Value(OmlValue::String(t)), p + 1));
            }
            return Ok((OmlExpr::FormatString(strs, exprs), p + 1));
        } else if c == '{' {
            let t = text_of(s, start, p);
            proof {
                lemma_strings_push(strs@, t);
            }
            strs.push(t);
            let (e, q) = match parse_expr(s, p + 1) {
                Ok(x) => x,
                Err(m) => {
                    return Err(m);
                },
            };
            proof {
                lemma_exprs_push(exprs@, e);
            }
            exprs.push(e);
            let q = skip_ws(s, q);
            if !at(s, q, '}') {
                return Err(syntax_error(q));
            }
            p = q + 1;
            start = p;
        } else {
            p += 1;
        }
    }
}

/// An operand: a literal, a name, a parenthesised expression, or a sequence
/// or map literal.
fn parse_strong(s: &Vec<char>, pos: usize) -> (r: Parsed)
    requires
        pos <= s.len(),
    ensures
        advanced(r, pos, s@.len()),
        parsed_as(r, strong_spec(s@, pos as int)),
    decreases s.len() - pos, 1nat,
{
    let p = skip_ws(s, pos);
    if p >= s.len() {
        return Err(syntax_error(p));
    }
    let c = s[p];
    if c == '(' {
        let (e, q) = match parse_expr(s, p + 1) {
            Ok(x) => x,
            Err(m) => {
                return Err(m);
            },
        };
        let q = skip_ws(s, q);
        if !at(s, q, ')') {
            return Err(syntax_error(q));
        }
        Ok((e, q + 1))
    } else if c == '[' {
        let mut items: Vec<OmlExpr> = Vec::new();
        let mut q = skip_ws(s, p + 1);
        assert(view_exprs(items@) =~= Seq::<ExprV>::empty());
        loop
            invariant
                pos <= p < q <= s.len(),
                p == ws_spec(s@, pos as int),
                strong_spec(s@, pos as int) == items_loop(s@, view_exprs(items@), q as int),
            decreases s.len() - q,
        {
            if at(s, q, ']') {
                return Ok((OmlExpr::Array(items), q + 1));
            }
            let (e, q2) = match parse_expr(s, q) {
                Ok(x) => x,
                Err(m) => {
                    return Err(m);
                },
            };
            proof {
                lemma_exprs_push(items@, e);
            }
            items.push(e);
            let q3 = skip_ws(s, q2);
            if at(s, q3, ',') {
                q = skip_ws(s, q3 + 1);
            } else if at(s, q3, ']') {
                return Ok((OmlExpr::Array(items), q3 + 1));
            } else {
                return Err(syntax_error(q3));
            }
        }
    } else if c == '{' {
        let fields: Vec<(String, OmlExpr)> = Vec::new();
        assert(crate::expr::view_fields(fields@) =~= Seq::<(Seq<char>, ExprV)>::empty());
        let mut body = OmlExpr::Dict(fields);
        let mut q = skip_ws(s, p + 1);
        assert(body.view_expr() == ExprV::Dict(Seq::empty()));
        loop
            invariant
                pos <= p < q <= s.len(),
                p == ws_spec(s@, pos as int),
                strong_spec(s@, pos as int) == pairs_loop(s@, body.view_expr(), q as int),
            decreases s.len() - q,
        {
            if at(s, q, '}') {
                return Ok((body, q + 1));
            }
            let (keys, value, q2) = match parse_pair(s, q) {
                Ok(x) => x,
                Err(m) => {
                    return Err(m);
                },
            };
            body.apply(wrap_keys(keys, value));
            let q3 = skip_ws(s, q2);
            if at(s, q3, ',') {
                q = skip_ws(s, q3 + 1);
            } else if at(s, q3, '}') {
                return Ok((body, q3 + 1));
            } else {
                return Err(syntax_error(q3));
            }
        }
    } else if c == '"' {
        parse_string(s, p)
    } else if c == '$' {
        if p + 1 < s.len() && s[p + 1] == '"' {
            parse_format(s, p)
        } else {
            Err(syntax_error(p))
        }
    } else if digit(c) {
        parse_number(s, p)
    } else {
        match parse_ids(s, p) {
            Some((ids, q)) => {
                proof {
                    reveal_strlit("true");
                    reveal_strlit("false");
                }
                let is_true = ids.len() == 1 && crate::text::str_eq(ids[0].as_str(), "true");
                let is_false = ids.len() == 1 && crate::text::str_eq(ids[0].as_str(), "false");
                assert(is_true <==> key_views(ids@) == seq!["true"@]) by {
                    if ids.len() == 1 && ids@[0]@ == "true"@ {
                        assert(key_views(ids@) =~= seq!["true"@]);
                    }
                    if key_views(ids@) == seq!["true"@] {
                        assert(key_views(ids@).len() == 1);
                        assert(key_views(ids@)[0] == ids@[0]@);
                    }
                }
                assert(is_false <==> key_views(ids@) == seq!["false"@]) by {
                    if ids.len() == 1 && ids@[0]@ == "false"@ {
                        assert(key_views(ids@) =~= seq!["false"@]);
                    }
                    if key_views(ids@) == seq!["false"@] {
                        assert(key_views(ids@).len() == 1);
                        assert(key_views(ids@)[0] == ids@[0]@);
                    }
                }
                if is_true {
                    Ok((OmlExpr::Value(OmlValue::Bool(true)), q))
                } else if is_false {
                    Ok((OmlExpr::Value(OmlValue::Bool(false)), q))
                } else {
                    assert(view_strings(ids@) =~= key_views(ids@));
                    Ok((OmlExpr::TempName(ids), q))
                }
            },
            None => Err(syntax_error(p)),
        }
    }
}

/// An operand with its prefix and suffix operators.
fn parse_middle(s: &Vec<char>, pos: usize) -> (r: Parsed)
    requires
        pos <= s.len(),
    ensures
        advanced(r, pos, s@.len()),
        parsed_as(r, middle_spec(s@, pos as int)),
    decreases s.len() - pos, 2nat,
{
    let mut prefixes: Vec<UnOp> = Vec::new();
    let mut p = skip_ws(s, pos);
    let ghost p0 = p;
    loop
        invariant
            pos <= p <= s.len(),
            p0 == ws_spec(s@, pos as int),
            prefix_loop(s@, p0 as int, Seq::empty()) == prefix_loop(s@, p as int, prefixes@),
        ensures
            pos <= p <= s.len(),
            prefix_loop(s@, p0 as int, Seq::empty()) == (prefixes@, p as int),
        decreases s.len() - p,
    {
        let op = if (at(s, p, '+') && at(s, p + 1, '+')) {
            Some((UnOp::Inc, 2usize))
        } else if (at(s, p, '-') && at(s, p + 1, '-')) {
            Some((UnOp::Dec, 2usize))
        } else if at(s, p, '!') {
            Some((UnOp::Not, 1usize))
        } else if at(s, p, '-') {
            Some((UnOp::Neg, 1usize))
        } else if at(s, p, '~') {
            Some((UnOp::BitNot, 1usize))
        } else {
            None
        };
        match op {
            Some((o, n)) => {
                prefixes.push(o);
                p = skip_ws(s, p + n);
            },
            None => {
                break;
            },
        }
    }
    let (mut e, mut q) = match parse_strong(s, p) {
        Ok(x) => x,
        Err(m) => {
            return Err(m);
        },
    };
    let ghost target = apply_prefixes(e.view_expr(), prefixes@);
    while prefixes.len() > 0
        invariant
            pos < q <= s.len(),
            target == apply_prefixes(e.view_expr(), prefixes@),
        decreases prefixes.len(),
    {
        let ghost before = prefixes@;
        let o = prefixes.pop().unwrap();
        assert(before.drop_last() == prefixes@);
        e = OmlExpr::Op1Prefix(o, Box::new(e));
    }
    let ghost q0 = q;
    assert(e.view_expr() == target);
    loop
        invariant
            pos < q <= s.len(),
            suffix_loop(s@, target, q0 as int) == suffix_loop(s@, e.view_expr(), q as int),
        ensures
            pos < q <= s.len(),
            suffix_loop(s@, target, q0 as int) == (e.view_expr(), q as int),
        decreases s.len() - q,
    {
        if (at(s, q, '+') && at(s, q + 1, '+')) {
            e = OmlExpr::Op1Suffix(Box::new(e), UnOp::Inc);
            q = q + 2;
        } else if (at(s, q, '-') && at(s, q + 1, '-')) {
            e = OmlExpr::Op1Suffix(Box::new(e), UnOp::Dec);
            q = q + 2;
        } else {
            break;
        }
    }
    Ok((e, q))
}

/// Operands joined by binary operators, built by precedence.
fn parse_weak(s: &Vec<char>, pos: usize) -> (r: Parsed)
    requires
        pos <= s.len(),
    ensures
        advanced(r, pos, s@.len()),
        parsed_as(r, weak_spec(s@, pos as int)),
    decreases s.len() - pos, 3nat,
{
    let (first, mut p) = match parse_middle(s, pos) {
        Ok(x) => x,
        Err(m) => {
            return Err(m);
        },
    };
    let mut es: Vec<OmlExpr> = Vec::new();
    let mut ops: Vec<BinOp> = Vec::new();
    let ghost fv = first.view_expr();
    es.push(first);
    assert(view_exprs(es@) =~= seq![fv]) by {
        lemma_exprs_push(Seq::<OmlExpr>::empty(), first);
    }
    let ghost p0 = p;
    loop
        invariant
            pos < p <= s.len(),
            pos < p0,
            es.len() == ops.len() + 1,
            middle_spec(s@, pos as int) == Some((fv, p0 as int)),
            weak_loop(s@, seq![fv], Seq::empty(), p0 as int) == weak_loop(s@, view_exprs(es@), ops@, p as int),
        ensures
            pos < p <= s.len(),
            es.len() == ops.len() + 1,
            weak_loop(s@, seq![fv], Seq::empty(), p0 as int) == Some((view_exprs(es@), ops@, p as int)),
            middle_spec(s@, pos as int) == Some((fv, p0 as int)),
        decreases s.len() - p,
    {
        let q = skip_ws(s, p);
        match match_op2(s, q) {
            Some((op, q2)) => {
                let (e, q3) = match parse_middle(s, q2) {
                    Ok(x) => x,
                    Err(m) => {
                        return Err(m);
                    },
                };
                proof {
                    lemma_exprs_push(es@, e);
                }
                es.push(e);
                ops.push(op);
                p = q3;
            },
            None => {
                break;
            },
        }
    }
    Ok((fold_binary(es, ops), p))
}

/// An expression: operands and binary operators, optionally followed by
/// `? then : else`.
fn parse_expr(s: &Vec<char>, pos: usize) -> (r: Parsed)
    requires
        pos <= s.len(),
    ensures
        advanced(r, pos, s@.len()),
        parsed_as(r, expr_spec(s@, pos as int)),
    decreases s.len() - pos, 4nat,
{
    let (c, p) = match parse_weak(s, pos) {
        Ok(x) => x,
        Err(m) => {
            return Err(m);
        },
    };
    let q = skip_ws(s, p);
    if !at(s, q, '?') {
        return Ok((c, p));
    }
    let (t, p2) = match parse_expr(s, q + 1) {
        Ok(x) => x,
        Err(m) => {
            return Err(m);
        },
    };
    let q2 = skip_ws(s, p2);
    if !at(s, q2, ':') {
        return Err(syntax_error(q2));
    }
    let (f, p3) = match parse_expr(s, q2 + 1) {
        Ok(x) => x,
        Err(m) => {
            return Err(m);
        },
    };
    Ok((OmlExpr::Op3(Box::new(c), Box::new(t), Box::new(f)), p3))
}

/// `name = expr`, where the name may be dotted.
fn parse_pair(s: &Vec<char>, pos: usize) -> (r: Result<(Vec<String>, OmlExpr, usize), String>)
    requires
        pos <= s.len(),
    ensures
        r matches Ok((keys, _, p)) ==> pos < p <= s.len(),
        match r {
            Ok((keys, value, p)) => pair_spec(s@, pos as int) == Some((key_views(keys@), value.view_expr(), p as int)),
            Err(m) => pair_spec(s@, pos as int) is None && m@.len() > 0,
        },
    decreases s.len() - pos, 5nat,
{
    let p = skip_ws(s, pos);
    let (keys, q) = match parse_ids(s, p) {
        Some(x) => x,
        None => {
            return Err(syntax_error(p));
        },
    };
    let q = skip_ws(s, q);
    if !at(s, q, '=') {
        return Err(syntax_error(q));
    }
    let (value, q2) = match parse_expr(s, q + 1) {
        Ok(x) => x,
        Err(m) => {
            return Err(m);
        },
    };
    Ok((keys, value, q2))
}

/// A table header in progress: its dotted name, whether it is an array
/// head, and its guard.
pub struct Block {
    pub head: Option<(Vec<String>, bool)>,
    pub guard: Option<OmlExpr>,
    pub body: OmlExpr,
}

proof fn lemma_nest_dict(keys: Seq<Seq<char>>, inner: ExprV)
    requires
        keys.len() > 0 || inner is Dict,
    ensures
        nest(keys, inner) is Dict,
{
}

/// What a finished block adds to the document: its body, under its guard if
/// it has one, made the one element of a sequence for an array head, and
/// nested under the header's keys. A block without a header adds its body
/// as it is.
pub open spec fn block_spec(head: Option<(Seq<Seq<char>>, bool)>, guard: Option<ExprV>, body: ExprV) -> Option<ExprV> {
    let guarded = match guard {
        Some(g) => ExprV::Anno(seq![(g, body)], None),
        None => body,
    };
    match head {
        Some((keys, is_array)) => if keys.len() == 0 {
            None
        } else {
            Some(nest(keys, if is_array { ExprV::Array(seq![guarded]) } else { guarded }))
        },
        None => if guarded is Dict {
            Some(guarded)
        } else {
            None
        },
    }
}

impl Block {
    pub open spec fn view_triple(self) -> BlockV {
        (
            match self.head {
                Some((keys, is_array)) => Some((key_views(keys@), is_array)),
                None => None,
            },
            match self.guard {
                Some(g) => Some(g.view_expr()),
                None => None,
            },
            self.body.view_expr(),
        )
    }
}

/// Combines a finished block into the document root.
fn close_block(root: &mut OmlExpr, block: Block)
    requires
        old(root).view_expr() is Dict,
    ensures
        final(root).view_expr() is Dict,
        final(root).view_expr() == close_spec(old(root).view_expr(), block.view_triple()),
{
    let Block { head, guard, body } = block;
    let mut value = match guard {
        Some(g) => OmlExpr::make_if_anno(g, body),
        None => body,
    };
    match head {
        Some((keys, is_array)) => {
            if is_array {
                let mut items: Vec<OmlExpr> = Vec::new();
                let ghost inner = value.view_expr();
                items.push(value);
                proof {
                    crate::expr::lemma_view_exprs(items@);
                    assert(crate::expr::view_exprs(items@) =~= seq![inner]);
                }
                value = OmlExpr::Array(items);
            }
            if keys.len() == 0 {
                return;
            }
            let ghost kv = key_views(keys@);
            let wrapped = wrap_keys(keys, value);
            proof {
                lemma_nest_dict(kv, value.view_expr());
            }
            root.apply(wrapped);
        },
        None => {
            if value.is_map() {
                root.apply(value);
            }
        },
    }
}

/// A table header `[a.b]` or array head `[[a.b]]` whose `[` is at `q`: its
/// name's parts, whether it is an array head, and the position after it.
pub open spec fn header_spec(s: Seq<char>, q: int) -> Option<(Seq<Seq<char>>, bool, int)> {
    let is_array = q + 1 < s.len() && s[q + 1] == '[';
    let start = if is_array { q + 2 } else { q + 1 };
    match ids_spec(s, ws_spec(s, start)) {
        Some((keys, q1)) => {
            let q2 = ws_spec(s, q1);
            if !(0 <= q2 < s.len() && s[q2] == ']') {
                None
            } else if is_array {
                if q2 + 1 < s.len() && s[q2 + 1] == ']' {
                    Some((keys, true, q2 + 2))
                } else {
                    None
                }
            } else {
                Some((keys, false, q2 + 1))
            }
        },
        None => None,
    }
}

/// A table header `[a.b]` or array head `[[a.b]]` at `pos`.
fn parse_header(s: &Vec<char>, pos: usize) -> (r: Result<(Vec<String>, bool, usize), String>)
    requires
        pos < s.len(),
    ensures
        r matches Ok((_, _, p)) ==> pos < p <= s.len(),
        match r {
            Ok((keys, a, p)) => header_spec(s@, pos as int) == Some((key_views(keys@), a, p as int)),
            Err(m) => header_spec(s@, pos as int) is None && m@.len() > 0,
        },
{
    let is_array = at(s, pos + 1, '[');
    let start = if is_array { pos + 2 } else { pos + 1 };
    let p = skip_ws(s, start);
    let (keys, q) = match parse_ids(s, p) {
        Some(x) => x,
        None => {
            return Err(syntax_error(p));
        },
    };
    let q = skip_ws(s, q);
    if !at(s, q, ']') {
        return Err(syntax_error(q));
    }
    if is_array {
        if !at(s, q + 1, ']') {
            return Err(syntax_error(q + 1));
        }
        Ok((keys, true, q + 2))
    } else {
        Ok((keys, false, q + 1))
    }
}

/// The guard `@if expr` at `p`, if one is written there, and where the
/// statement it guards starts.
pub open spec fn guard_spec(s: Seq<char>, p: int) -> Option<(Option<ExprV>, int)> {
    if 0 <= p && p + 2 < s.len() && s[p] == '@' && s[p + 1] == 'i' && s[p + 2] == 'f' {
        match expr_spec(s, p + 3) {
            Some((g, q)) => Some((Some(g), ws_spec(s, q))),
            None => None,
        }
    } else {
        Some((None, p))
    }
}

/// A statement of a document: a header, or an assignment whose value is
/// already under its guard.
pub enum Stmt {
    Header(Seq<Seq<char>>, bool, Option<ExprV>, int),
    Assign(Seq<Seq<char>>, ExprV, int),
}

/// The statement at `p`.
#[verifier::opaque]
pub open spec fn stmt_spec(s: Seq<char>, p: int) -> Option<Stmt> {
    match guard_spec(s, p) {
        Some((g, q)) => if 0 <= q < s.len() && s[q] == '[' {
            match header_spec(s, q) {
                Some((keys, a, q2)) => Some(Stmt::Header(keys, a, g, q2)),
                None => None,
            }
        } else {
            match pair_spec(s, q) {
                Some((keys, v, q2)) => Some(
                    Stmt::Assign(
                        keys,
                        match g {
                            Some(c) => ExprV::Anno(seq![(c, v)], None),
                            None => v,
                        },
                        q2,
                    ),
                ),
                None => None,
            }
        },
        None => None,
    }
}

/// The model of a block in progress: header, guard and body.
pub type BlockV = (Option<(Seq<Seq<char>>, bool)>, Option<ExprV>, ExprV);

/// The document `root` once the block `b` is finished.
pub open spec fn close_spec(root: ExprV, b: BlockV) -> ExprV {
    match block_spec(b.0, b.1, b.2) {
        Some(x) => merge_expr(root, x),
        None => root,
    }
}

/// The rest of a document from `p` on: `root` holds the finished blocks, `b`
/// the block in progress.
pub open spec fn doc_loop(s: Seq<char>, root: ExprV, b: BlockV, p: int) -> Option<ExprV>
    decreases s.len() - p,
{
    if p < 0 || p > s.len() {
        None
    } else if p == s.len() {
        Some(close_spec(root, b))
    } else {
        match stmt_spec(s, p) {
            Some(Stmt::Header(keys, a, g, q)) => {
                let p2 = ws_spec(s, q);
                if q <= p || p2 < q || p2 > s.len() {
                    None
                } else {
                    doc_loop(s, close_spec(root, b), (Some((keys, a)), g, ExprV::Dict(Seq::empty())), p2)
                }
            },
            Some(Stmt::Assign(keys, v, q)) => {
                let p2 = ws_spec(s, q);
                if q <= p || p2 < q || p2 > s.len() {
                    None
                } else {
                    doc_loop(s, root, (b.0, b.1, merge_expr(b.2, nest(keys, v))), p2)
                }
            },
            None => None,
        }
    }
}

/// What a document's text builds: the blocks of its statements, merged in
/// order into an empty map; `None` where the text is not a document.
pub open spec fn doc_spec(s: Seq<char>) -> Option<ExprV> {
    doc_loop(s, ExprV::Dict(Seq::empty()), (None, None, ExprV::Dict(Seq::empty())), ws_spec(s, 0))
}

/// A parsed statement.
enum Statement {
    Header(Vec<String>, bool, Option<OmlExpr>, usize),
    Assign(Vec<String>, OmlExpr, usize),
}

impl Statement {
    spec fn view_stmt(self) -> Stmt {
        match self {
            Statement::Header(keys, a, g, q) => Stmt::Header(
                key_views(keys@),
                a,
                match g {
                    Some(x) => Some(x.view_expr()),
                    None => None,
                },
                q as int,
            ),
            Statement::Assign(keys, v, q) => Stmt::Assign(key_views(keys@), v.view_expr(), q as int),
        }
    }
}

/// The statement at `p`.
fn parse_statement(s: &Vec<char>, p: usize) -> (r: Result<Statement, String>)
    requires
        p < s.len(),
    ensures
        match r {
            Ok(st) => stmt_spec(s@, p as int) == Some(st.view_stmt()),
            Err(m) => stmt_spec(s@, p as int) is None && m@.len() > 0,
        },
        match r {
            Ok(Statement::Header(_, _, _, q)) => p < q <= s.len(),
            Ok(Statement::Assign(_, _, q)) => p < q <= s.len(),
            Err(_) => true,
        },
{
    reveal(stmt_spec);
    let mut guard: Option<OmlExpr> = None;
    let mut q = p;
    if (at(s, p, '@') && at(s, p + 1, 'i') && at(s, p + 2, 'f')) {
        let (g, q2) = match parse_expr(s, p + 3) {
            Ok(x) => x,
            Err(m) => {
                return Err(m);
            },
        };
        guard = Some(g);
        q = skip_ws(s, q2);
    }
    let ghost gv = if guard is Some { Some(guard->0.view_expr()) } else { None };
    assert(guard_spec(s@, p as int) == Some((gv, q as int)));
    if at(s, q, '[') {
        match parse_header(s, q) {
            Ok((keys, is_array, q2)) => Ok(Statement::Header(keys, is_array, guard, q2)),
            Err(m) => Err(m),
        }
    } else {
        let (keys, value, q2) = match parse_pair(s, q) {
            Ok(x) => x,
            Err(m) => {
                return Err(m);
            },
        };
        let value = match guard {
            Some(g) => OmlExpr::make_if_anno(g, value),
            None => value,
        };
        Ok(Statement::Assign(keys, value, q2))
    }
}

impl OmlExpr {
    /// An absent expression.
    pub fn new() -> (r: OmlExpr)
        ensures
            r.view_expr() == ExprV::Null,
    {
        OmlExpr::Null
    }

    /// A conditional-annotation node with the one variant `value` guarded by
    /// `if_anno`, and no fallback.
    pub fn make_if_anno(if_anno: OmlExpr, value: OmlExpr) -> (r: OmlExpr)
        ensures
            r.view_expr() == ExprV::Anno(seq![(if_anno.view_expr(), value.view_expr())], None),
    {
        let mut exprs: Vec<(OmlExpr, OmlExpr)> = Vec::new();
        exprs.push((if_anno, value));
        proof {
            crate::expr::lemma_view_pairs(exprs@);
            assert(crate::expr::view_pairs(exprs@) =~= seq![(if_anno.view_expr(), value.view_expr())]);
        }
        OmlExpr::IfAnno(OmlExprIfAnno { exprs, default: None })
    }

    /// Whether this is a map.
    pub fn is_map(&self) -> (r: bool)
        ensures
            r == self.view_expr() is Dict,
    {
        match self {
            OmlExpr::Dict(_) => true,
            _ => false,
        }
    }

    /// Parses a document into its expression tree: a map with one entry per
    /// top-level name.
    pub fn from_str(content: &str) -> (r: Result<OmlExpr, String>)
        ensures
            r is Ok <==> doc_spec(content@) is Some,
            r matches Ok(e) ==> doc_spec(content@) == Some(e.view_expr()),
            r matches Err(m) ==> m@.len() > 0,
            r matches Ok(e) ==> e.view_expr() is Dict,
            r matches Ok(e) ==> crate::expr::wf_expr(e.view_expr()),
    {
        proof {
            crate::wf::lemma_doc_wf(content@);
        }
        OmlParser::parse(content)
    }
}

/// The parser of documents.
pub struct OmlParser {}

impl OmlParser {
    /// Parses a document into its expression tree: a map with one entry per
    /// top-level name.
    pub fn parse(content: &str) -> (r: Result<OmlExpr, String>)
        ensures
            r is Ok <==> doc_spec(content@) is Some,
            r matches Ok(e) ==> doc_spec(content@) == Some(e.view_expr()),
            r matches Err(m) ==> m@.len() > 0,
            r matches Ok(e) ==> e.view_expr() is Dict,
            r matches Ok(e) ==> crate::expr::wf_expr(e.view_expr()),
    {
        proof {
            crate::wf::lemma_doc_wf(content@);
        }
        let s = chars_of(content);
        let mut root = empty_map();
        let mut block = Block { head: None, guard: None, body: empty_map() };
        let mut p = skip_ws(&s, 0);
        assert(block.view_triple() == (None::<(Seq<Seq<char>>, bool)>, None::<ExprV>, ExprV::Dict(Seq::empty())));
        while p < s.len()
            invariant
                p <= s.len(),
                root.view_expr() is Dict,
                s@ == content@,
                doc_spec(s@) == doc_loop(s@, root.view_expr(), block.view_triple(), p as int),
            decreases s.len() - p,
        {
            let q = match parse_statement(&s, p) {
                Ok(Statement::Header(keys, is_array, guard, q2)) => {
                    let mut done = Block { head: Some((keys, is_array)), guard, body: empty_map() };
                    std::mem::swap(&mut block, &mut done);
                    close_block(&mut root, done);
                    q2
                },
                Ok(Statement::Assign(keys, value, q2)) => {
                    block.body.apply(wrap_keys(keys, value));
                    q2
                },
                Err(m) => {
                    assert(doc_loop(s@, root.view_expr(), block.view_triple(), p as int) is None);
                    return Err(m);
                },
            };
            if q <= p {
                return Err(syntax_error(p));
            }
            p = skip_ws(&s, q);
        }
        close_block(&mut root, block);
        Ok(root)
    }
}

/// A map with no entries.
fn empty_map() -> (r: OmlExpr)
    ensures
        r.view_expr() == ExprV::Dict(Seq::empty()),
{
    let fields: Vec<(String, OmlExpr)> = Vec::new();
    assert(crate::expr::view_fields(fields@) =~= Seq::<(Seq<char>, ExprV)>::empty());
    OmlExpr::Dict(fields)
}

} // verus!
