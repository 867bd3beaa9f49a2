use vstd::prelude::*;
use vstd::arithmetic::power::pow;
use vstd::string::StringExecFns;
use crate::value::{OmlValue, Val, wf_val, lemma_wf_items, lemma_merge_wf, view_values, merge_entries, apply_entries, lemma_view_values};

verus! {

/// A prefix or suffix operator.
#[derive(Debug, Clone, Copy, PartialEq, Eq, Structural)]
pub enum UnOp {
    /// `++`
    Inc,
    /// `--`
    Dec,
    /// `!`
    Not,
    /// `-`
    Neg,
    /// `~`
    BitNot,
}

/// A binary operator.
#[derive(Debug, Clone, Copy, PartialEq, Eq, Structural)]
pub enum BinOp {
    Pow,
    Mul,
    Div,
    Rem,
    Add,
    Sub,
    Shl,
    Shr,
    BitXor,
    BitOr,
    BitAnd,
    Lt,
    Le,
    Gt,
    Ge,
    Eq,
    Ne,
    And,
    Or,
}

/// The symbols of the unary operators.
pub open spec fn unary_symbol_spec(op: UnOp) -> Seq<char> {
    match op {
        UnOp::Inc => "++"@,
        UnOp::Dec => "--"@,
        UnOp::Not => "!"@,
        UnOp::Neg => "-"@,
        UnOp::BitNot => "~"@,
    }
}

impl UnOp {
    pub fn symbol(&self) -> (r: &'static str)
        ensures
            r@ == unary_symbol_spec(*self),
    {
        match self {
            UnOp::Inc => "++",
            UnOp::Dec => "--",
            UnOp::Not => "!",
            UnOp::Neg => "-",
            UnOp::BitNot => "~",
        }
    }
}

/// The precedence level of each operator, tightest first.
pub open spec fn level_of(op: BinOp) -> nat {
    match op {
        BinOp::Pow => 0,
        BinOp::Mul | BinOp::Div | BinOp::Rem => 1,
        BinOp::Add | BinOp::Sub => 2,
        BinOp::Shl | BinOp::Shr => 3,
        BinOp::BitXor | BinOp::BitOr | BinOp::BitAnd => 4,
        BinOp::Lt | BinOp::Le | BinOp::Gt | BinOp::Ge => 5,
        BinOp::Eq | BinOp::Ne => 6,
        BinOp::And => 7,
        BinOp::Or => 8,
    }
}

/// The level that groups the relational operators.
pub const RELATIONAL_LEVEL: usize = 5;

/// The level past every operator's.
pub const NO_LEVEL: usize = 9;

/// The symbols of the binary operators, in the order of their levels.
pub open spec fn symbol_spec(op: BinOp) -> Seq<char> {
    match op {
        BinOp::Pow => "**"@,
        BinOp::Mul => "*"@,
        BinOp::Div => "/"@,
        BinOp::Rem => "%"@,
        BinOp::Add => "+"@,
        BinOp::Sub => "-"@,
        BinOp::Shl => "<<"@,
        BinOp::Shr => ">>"@,
        BinOp::BitXor => "^"@,
        BinOp::BitOr => "|"@,
        BinOp::BitAnd => "&"@,
        BinOp::Lt => "<"@,
        BinOp::Le => "<="@,
        BinOp::Gt => ">"@,
        BinOp::Ge => ">="@,
        BinOp::Eq => "=="@,
        BinOp::Ne => "!="@,
        BinOp::And => "&&"@,
        BinOp::Or => "||"@,
    }
}

impl BinOp {
    pub fn symbol(&self) -> (r: &'static str)
        ensures
            r@ == symbol_spec(*self),
    {
        match self {
            BinOp::Pow => "**",
            BinOp::Mul => "*",
            BinOp::Div => "/",
            BinOp::Rem => "%",
            BinOp::Add => "+",
            BinOp::Sub => "-",
            BinOp::Shl => "<<",
            BinOp::Shr => ">>",
            BinOp::BitXor => "^",
            BinOp::BitOr => "|",
            BinOp::BitAnd => "&",
            BinOp::Lt => "<",
            BinOp::Le => "<=",
            BinOp::Gt => ">",
            BinOp::Ge => ">=",
            BinOp::Eq => "==",
            BinOp::Ne => "!=",
            BinOp::And => "&&",
            BinOp::Or => "||",
        }
    }

    pub fn level(&self) -> (r: usize)
        ensures
            r == level_of(*self),
    {
        match self {
            BinOp::Pow => 0,
            BinOp::Mul | BinOp::Div | BinOp::Rem => 1,
            BinOp::Add | BinOp::Sub => 2,
            BinOp::Shl | BinOp::Shr => 3,
            BinOp::BitXor | BinOp::BitOr | BinOp::BitAnd => 4,
            BinOp::Lt | BinOp::Le | BinOp::Gt | BinOp::Ge => 5,
            BinOp::Eq | BinOp::Ne => 6,
            BinOp::And => 7,
            BinOp::Or => 8,
        }
    }

    /// The operator written `s`, if any.
    pub fn from_symbol(s: &str) -> (r: Option<BinOp>)
        ensures
            r matches Some(op) ==> symbol_spec(op) == s@,
            r is None ==> forall|op: BinOp| symbol_spec(op) != s@,
    {
        if crate::text::str_eq("**", s) {
            return Some(BinOp::Pow);
        }
        if crate::text::str_eq("*", s) {
            return Some(BinOp::Mul);
        }
        if crate::text::str_eq("/", s) {
            return Some(BinOp::Div);
        }
        if crate::text::str_eq("%", s) {
            return Some(BinOp::Rem);
        }
        if crate::text::str_eq("+", s) {
            return Some(BinOp::Add);
        }
        if crate::text::str_eq("-", s) {
            return Some(BinOp::Sub);
        }
        if crate::text::str_eq("<<", s) {
            return Some(BinOp::Shl);
        }
        if crate::text::str_eq(">>", s) {
            return Some(BinOp::Shr);
        }
        if crate::text::str_eq("^", s) {
            return Some(BinOp::BitXor);
        }
        if crate::text::str_eq("|", s) {
            return Some(BinOp::BitOr);
        }
        if crate::text::str_eq("&", s) {
            return Some(BinOp::BitAnd);
        }
        if crate::text::str_eq("<", s) {
            return Some(BinOp::Lt);
        }
        if crate::text::str_eq("<=", s) {
            return Some(BinOp::Le);
        }
        if crate::text::str_eq(">", s) {
            return Some(BinOp::Gt);
        }
        if crate::text::str_eq(">=", s) {
            return Some(BinOp::Ge);
        }
        if crate::text::str_eq("==", s) {
            return Some(BinOp::Eq);
        }
        if crate::text::str_eq("!=", s) {
            return Some(BinOp::Ne);
        }
        if crate::text::str_eq("&&", s) {
            return Some(BinOp::And);
        }
        if crate::text::str_eq("||", s) {
            return Some(BinOp::Or);
        }
        assert forall|op: BinOp| symbol_spec(op) != s@ by {
            match op {
                BinOp::Pow => {},
                BinOp::Mul => {},
                BinOp::Div => {},
                BinOp::Rem => {},
                BinOp::Add => {},
                BinOp::Sub => {},
                BinOp::Shl => {},
                BinOp::Shr => {},
                BinOp::BitXor => {},
                BinOp::BitOr => {},
                BinOp::BitAnd => {},
                BinOp::Lt => {},
                BinOp::Le => {},
                BinOp::Gt => {},
                BinOp::Ge => {},
                BinOp::Eq => {},
                BinOp::Ne => {},
                BinOp::And => {},
                BinOp::Or => {},
            }
        }
        None
    }
}

/// The precedence level of the operator written `op`; 9 for any other text.
pub fn get_op2_level(op: &str) -> (r: usize)
    ensures
        forall|o: BinOp| symbol_spec(o) == op@ ==> r == level_of(o),
        (forall|o: BinOp| symbol_spec(o) != op@) ==> r == NO_LEVEL,
{
    match BinOp::from_symbol(op) {
        Some(o) => {
            proof {
                lemma_symbols_distinct();
            }
            o.level()
        },
        None => NO_LEVEL,
    }
}

pub proof fn lemma_symbols_distinct()
    ensures
        forall|a: BinOp, b: BinOp| symbol_spec(a) == symbol_spec(b) ==> a == b,
{
    reveal_strlit("**");
    reveal_strlit("*");
    reveal_strlit("/");
    reveal_strlit("%");
    reveal_strlit("+");
    reveal_strlit("-");
    reveal_strlit("<<");
    reveal_strlit(">>");
    reveal_strlit("^");
    reveal_strlit("|");
    reveal_strlit("&");
    reveal_strlit("<");
    reveal_strlit("<=");
    reveal_strlit(">");
    reveal_strlit(">=");
    reveal_strlit("==");
    reveal_strlit("!=");
    reveal_strlit("&&");
    reveal_strlit("||");
    assert forall|a: BinOp, b: BinOp| symbol_spec(a) == symbol_spec(b) implies a == b by {
        if symbol_spec(a) == symbol_spec(b) && a != b {
            assert(symbol_spec(a).len() == symbol_spec(b).len());
            assert(symbol_spec(a)[0] == symbol_spec(b)[0]);
            if symbol_spec(a).len() == 2 {
                assert(symbol_spec(a)[1] == symbol_spec(b)[1]);
            }
        }
    }
}

pub open spec fn fits_i64(x: int) -> bool {
    i64::MIN <= x <= i64::MAX
}

/// What a prefix operator makes of a resolved operand; `None` where the
/// operator is illegal for the operand's kind or the result overflows.
pub open spec fn prefix_spec(op: UnOp, v: Val) -> Option<Val> {
    match v {
        Val::Int(n) => match op {
            UnOp::Inc => if fits_i64(n + 1) { Some(Val::Int((n + 1) as i64)) } else { None },
            UnOp::Dec => if fits_i64(n - 1) { Some(Val::Int((n - 1) as i64)) } else { None },
            UnOp::Neg => if fits_i64(-n) { Some(Val::Int((-n) as i64)) } else { None },
            UnOp::BitNot => Some(Val::Int((-1 - n) as i64)),
            UnOp::Not => None,
        },
        Val::Bool(b) => match op {
            UnOp::Not => Some(Val::Bool(!b)),
            _ => None,
        },
        _ => None,
    }
}

/// What a suffix operator makes of a resolved operand.
pub open spec fn suffix_spec(op: UnOp, v: Val) -> Option<Val> {
    match op {
        UnOp::Inc | UnOp::Dec => prefix_spec(op, v),
        _ => None,
    }
}

pub open spec fn bool_spec(l: bool, op: BinOp, r: bool) -> Option<bool> {
    match op {
        BinOp::And => Some(l && r),
        BinOp::Or => Some(l || r),
        BinOp::Eq => Some(l == r),
        BinOp::Ne => Some(l != r),
        _ => None,
    }
}

pub open spec fn int_result(x: int) -> Option<Val> {
    if fits_i64(x) {
        Some(Val::Int(x as i64))
    } else {
        None
    }
}

pub open spec fn int_spec(l: i64, op: BinOp, r: i64) -> Option<Val> {
    match op {
        BinOp::Add => int_result(l + r),
        BinOp::Sub => int_result(l - r),
        BinOp::Mul => int_result(l * r),
        BinOp::Div => match l.checked_div(r) {
            Some(q) => Some(Val::Int(q)),
            None => None,
        },
        BinOp::Rem => match l.checked_rem(r) {
            Some(q) => Some(Val::Int(q)),
            None => None,
        },
        BinOp::Pow => if 0 <= r {
            int_result(pow(l as int, r as nat))
        } else {
            None
        },
        BinOp::BitOr => Some(Val::Int(l | r)),
        BinOp::BitAnd => Some(Val::Int(l & r)),
        BinOp::BitXor => Some(Val::Int(l ^ r)),
        BinOp::Shl => if 0 <= r < 64 { Some(Val::Int(l.wrapping_shl(r as u32))) } else { None },
        BinOp::Shr => if 0 <= r < 64 { Some(Val::Int(l.wrapping_shr(r as u32))) } else { None },
        BinOp::Lt => Some(Val::Bool(l < r)),
        BinOp::Le => Some(Val::Bool(l <= r)),
        BinOp::Gt => Some(Val::Bool(l > r)),
        BinOp::Ge => Some(Val::Bool(l >= r)),
        BinOp::Eq => Some(Val::Bool(l == r)),
        BinOp::Ne => Some(Val::Bool(l != r)),
        BinOp::And | BinOp::Or => None,
    }
}

/// `s` written `n` times.
pub open spec fn repeat(s: Seq<char>, n: nat) -> Seq<char>
    decreases n,
{
    if n == 0 {
        Seq::empty()
    } else {
        repeat(s, (n - 1) as nat) + s
    }
}

/// What a binary operator makes of two resolved operands; `None` where the
/// pair of kinds has no such operator, or the integer result does not exist.
pub open spec fn op2_spec(l: Val, op: BinOp, r: Val) -> Option<Val> {
    match (l, r) {
        (Val::Bool(a), Val::Bool(b)) => match bool_spec(a, op, b) {
            Some(x) => Some(Val::Bool(x)),
            None => None,
        },
        (Val::Int(a), Val::Int(b)) => int_spec(a, op, b),
        (Val::Str(a), Val::Str(b)) => match op {
            BinOp::Add => Some(Val::Str(a + b)),
            BinOp::Eq => Some(Val::Bool(a == b)),
            BinOp::Ne => Some(Val::Bool(a != b)),
            _ => None,
        },
        (Val::Str(a), Val::Int(n)) => if op == BinOp::Mul && n >= 0 {
            Some(Val::Str(repeat(a, n as nat)))
        } else {
            None
        },
        (Val::Arr(a), Val::Arr(b)) => if op == BinOp::Add {
            Some(Val::Arr(a + b))
        } else {
            None
        },
        (Val::Dict(a), Val::Dict(b)) => if op == BinOp::Add {
            Some(Val::Dict(merge_entries(a, b)))
        } else {
            None
        },
        _ => None,
    }
}

/// A binary operator on well-formed operands gives a well-formed value.
pub proof fn lemma_op2_wf(l: Val, op: BinOp, r: Val)
    requires
        wf_val(l),
        wf_val(r),
        op2_spec(l, op, r) is Some,
    ensures
        wf_val(op2_spec(l, op, r)->0),
{
    match (l, r) {
        (Val::Arr(a), Val::Arr(b)) => {
            lemma_wf_items(a);
            lemma_wf_items(b);
            lemma_wf_items(a + b);
            assert forall|i: int| 0 <= i < (a + b).len() implies #[trigger] wf_val((a + b)[i]) by {
                if i < a.len() {
                    assert((a + b)[i] == a[i]);
                } else {
                    assert((a + b)[i] == b[i - a.len()]);
                }
            }
        },
        (Val::Dict(_), Val::Dict(_)) => {
            lemma_merge_wf(l, r);
        },
        _ => {},
    }
}

/// `base` raised to `exp`, where that fits an `i64`.
pub open spec fn int_pow_result(base: i64, exp: nat) -> Option<i64> {
    if fits_i64(pow(base as int, exp)) {
        Some(pow(base as int, exp) as i64)
    } else {
        None
    }
}

pub open spec fn abs_int(x: int) -> int {
    if x < 0 {
        -x
    } else {
        x
    }
}

proof fn lemma_pow_step(b: int, k: nat)
    ensures
        pow(b, k + 1) == b * pow(b, k),
{
    reveal(pow);
}

proof fn lemma_pow_minus_one(n: nat)
    ensures
        pow(-1, n) == if n % 2 == 0 { 1int } else { -1int },
    decreases n,
{
    reveal(pow);
    if n > 0 {
        lemma_pow_minus_one((n - 1) as nat);
        lemma_pow_step(-1, (n - 1) as nat);
    }
}

/// With a base of magnitude at least 2, each later power is at least twice
/// as large in magnitude.
proof fn lemma_pow_grows(b: int, n: nat, m: nat)
    requires
        abs_int(b) >= 2,
        n < m,
    ensures
        abs_int(pow(b, m)) >= 2 * abs_int(pow(b, n)),
    decreases m,
{
    lemma_pow_step(b, (m - 1) as nat);
    let x = pow(b, (m - 1) as nat);
    assert(abs_int(b * x) == abs_int(b) * abs_int(x)) by (nonlinear_arith);
    assert(abs_int(b) * abs_int(x) >= 2 * abs_int(x)) by (nonlinear_arith)
        requires
            abs_int(b) >= 2,
            abs_int(x) >= 0,
    ;
    if n < m - 1 {
        lemma_pow_grows(b, n, (m - 1) as nat);
    }
}

/// `base` raised to `exp`, or `None` where that does not fit an `i64`.
fn int_pow(base: i64, exp: i64) -> (r: Option<i64>)
    requires
        exp >= 0,
    ensures
        r == int_pow_result(base, exp as nat),
{
    if base == 0 {
        proof {
            reveal(pow);
            if exp > 0 {
                vstd::arithmetic::power::lemma0_pow(exp as nat);
            }
        }
        if exp == 0 {
            Some(1)
        } else {
            Some(0)
        }
    } else if base == 1 {
        proof {
            vstd::arithmetic::power::lemma1_pow(exp as nat);
        }
        Some(1)
    } else if base == -1 {
        proof {
            lemma_pow_minus_one(exp as nat);
        }
        if exp % 2 == 0 {
            Some(1)
        } else {
            Some(-1)
        }
    } else {
        let mut acc: i64 = 1;
        let mut k: i64 = 0;
        proof {
            reveal(pow);
        }
        while k < exp
            invariant
                0 <= k <= exp,
                acc as int == pow(base as int, k as nat),
                abs_int(base as int) >= 2,
            decreases exp - k,
        {
            proof {
                lemma_pow_step(base as int, k as nat);
            }
            match acc.checked_mul(base) {
                Some(x) => {
                    acc = x;
                    k += 1;
                },
                None => {
                    proof {
                        let next = pow(base as int, (k + 1) as nat);
                        assert(!fits_i64(next));
                        assert(abs_int(next) >= 0x8000_0000_0000_0000);
                        if exp > k + 1 {
                            lemma_pow_grows(base as int, (k + 1) as nat, exp as nat);
                        }
                    }
                    return None;
                },
            }
        }
        Some(acc)
    }
}

/// The message of an operator that has no meaning for its operands.
pub open spec fn illegal_msg(symbol: Seq<char>) -> Seq<char> {
    "illegal operator: "@ + symbol
}

/// The message of an operator that has no meaning for its operands.
fn illegal_operator(symbol: &str) -> (r: String)
    ensures
        r@ == illegal_msg(symbol@),
{
    let mut s = String::from_str("illegal operator: ");
    s.append(symbol);
    s
}

pub struct Op1Evaluator {}

impl Op1Evaluator {
    /// Applies a prefix operator to a resolved operand. Integers and booleans
    /// only: a float operand gives the illegal-operator error.
    pub fn eval_prefix(op: UnOp, right: OmlValue) -> (r: Result<OmlValue, String>)
        ensures
            r is Ok <==> prefix_spec(op, right.view_val()) is Some,
            r matches Err(m) ==> m@ == illegal_msg(unary_symbol_spec(op)),
            r matches Ok(v) ==> prefix_spec(op, right.view_val()) == Some(v.view_val()),
    {
        match right {
            OmlValue::Int64(n) => match op {
                UnOp::Inc => if n < i64::MAX {
                    return Ok(OmlValue::Int64(n + 1));
                },
                UnOp::Dec => if n > i64::MIN {
                    return Ok(OmlValue::Int64(n - 1));
                },
                UnOp::Neg => if n > i64::MIN {
                    return Ok(OmlValue::Int64(-n));
                },
                UnOp::BitNot => {
                    // the two's complement `!n` is `-1 - n`
                    return Ok(OmlValue::Int64(-1 - n));
                },
                UnOp::Not => {},
            },
            OmlValue::Bool(b) => if op == UnOp::Not {
                return Ok(OmlValue::Bool(!b));
            },
            _ => {},
        }
        Err(illegal_operator(op.symbol()))
    }

    /// Applies a suffix operator to a resolved operand.
    pub fn eval_suffix(op: UnOp, left: OmlValue) -> (r: Result<OmlValue, String>)
        ensures
            r is Ok <==> suffix_spec(op, left.view_val()) is Some,
            r matches Err(m) ==> m@ == illegal_msg(unary_symbol_spec(op)),
            r matches Ok(v) ==> suffix_spec(op, left.view_val()) == Some(v.view_val()),
    {
        match op {
            UnOp::Inc | UnOp::Dec => Self::eval_prefix(op, left),
            _ => Err(illegal_operator(op.symbol())),
        }
    }
}

pub struct Op2Evaluator {}

impl Op2Evaluator {
    /// Applies a binary operator to two resolved operands. Floats are carried
    /// but not computed with: any float operand gives the illegal-operator
    /// error, as does `**` with a negative exponent.
    pub fn eval(left: OmlValue, op: BinOp, right: OmlValue) -> (r: Result<OmlValue, String>)
        ensures
            r is Ok <==> op2_spec(left.view_val(), op, right.view_val()) is Some,
            r matches Err(m) ==> m@ == illegal_msg(symbol_spec(op)),
            r matches Ok(v) ==> op2_spec(left.view_val(), op, right.view_val()) == Some(
                v.view_val(),
            ),
    {
        match (left, right) {
            (OmlValue::Bool(a), OmlValue::Bool(b)) => match Self::eval_bool(a, op, b) {
                Ok(x) => Ok(OmlValue::Bool(x)),
                Err(e) => Err(e),
            },
            (OmlValue::Int64(a), OmlValue::Int64(b)) => Self::eval_int64(a, op, b),
            (OmlValue::String(a), OmlValue::String(b)) => Self::eval_string(a, op, b),
            (OmlValue::String(a), OmlValue::Int64(n)) => {
                if op == BinOp::Mul && n >= 0 {
                    Ok(OmlValue::String(repeat_string(&a, n as u64)))
                } else {
                    Err(illegal_operator(op.symbol()))
                }
            },
            (OmlValue::Array(a), OmlValue::Array(b)) => {
                if op == BinOp::Add {
                    let mut a = a;
                    let mut b = b;
                    let ghost a0 = a@;
                    let ghost b0 = b@;
                    a.append(&mut b);
                    proof {
                        lemma_view_values(a0);
                        lemma_view_values(b0);
                        lemma_view_values(a@);
                        assert(view_values(a@) =~= view_values(a0) + view_values(b0));
                    }
                    Ok(OmlValue::Array(a))
                } else {
                    Err(illegal_operator(op.symbol()))
                }
            },
            (OmlValue::Dict(a), OmlValue::Dict(b)) => {
                if op == BinOp::Add {
                    let mut a = a;
                    apply_entries(&mut a, b);
                    Ok(OmlValue::Dict(a))
                } else {
                    Err(illegal_operator(op.symbol()))
                }
            },
            _ => Err(illegal_operator(op.symbol())),
        }
    }

    /// Applies a binary operator to two booleans.
    pub fn eval_bool(left: bool, op: BinOp, right: bool) -> (r: Result<bool, String>)
        ensures
            r is Ok <==> bool_spec(left, op, right) is Some,
            r matches Err(m) ==> m@ == illegal_msg(symbol_spec(op)),
            r matches Ok(v) ==> bool_spec(left, op, right) == Some(v),
    {
        match op {
            BinOp::And => Ok(left && right),
            BinOp::Or => Ok(left || right),
            BinOp::Eq => Ok(left == right),
            BinOp::Ne => Ok(left != right),
            _ => Err(illegal_operator(op.symbol())),
        }
    }

    /// Applies a binary operator to two integers.
    pub fn eval_int64(left: i64, op: BinOp, right: i64) -> (r: Result<OmlValue, String>)
        ensures
            r is Ok <==> int_spec(left, op, right) is Some,
            r matches Err(m) ==> m@ == illegal_msg(symbol_spec(op)),
            r matches Ok(v) ==> int_spec(left, op, right) == Some(v.view_val()),
    {
        let l = left;
        let r = right;
        let out: Option<OmlValue> = match op {
            BinOp::Add => match l.checked_add(r) {
                Some(x) => Some(OmlValue::Int64(x)),
                None => None,
            },
            BinOp::Sub => match l.checked_sub(r) {
                Some(x) => Some(OmlValue::Int64(x)),
                None => None,
            },
            BinOp::Mul => match l.checked_mul(r) {
                Some(x) => Some(OmlValue::Int64(x)),
                None => None,
            },
            BinOp::Div => match l.checked_div(r) {
                Some(x) => Some(OmlValue::Int64(x)),
                None => None,
            },
            BinOp::Rem => match l.checked_rem(r) {
                Some(x) => Some(OmlValue::Int64(x)),
                None => None,
            },
            BinOp::Pow => if 0 <= r {
                match int_pow(l, r) {
                    Some(x) => Some(OmlValue::Int64(x)),
                    None => None,
                }
            } else {
                None
            },
            BinOp::BitOr => Some(OmlValue::Int64(l | r)),
            BinOp::BitAnd => Some(OmlValue::Int64(l & r)),
            BinOp::BitXor => Some(OmlValue::Int64(l ^ r)),
            BinOp::Shl => if 0 <= r && r < 64 {
                Some(OmlValue::Int64(l.wrapping_shl(r as u32)))
            } else {
                None
            },
            BinOp::Shr => if 0 <= r && r < 64 {
                Some(OmlValue::Int64(l.wrapping_shr(r as u32)))
            } else {
                None
            },
            BinOp::Lt => Some(OmlValue::Bool(l < r)),
            BinOp::Le => Some(OmlValue::Bool(l <= r)),
            BinOp::Gt => Some(OmlValue::Bool(l > r)),
            BinOp::Ge => Some(OmlValue::Bool(l >= r)),
            BinOp::Eq => Some(OmlValue::Bool(l == r)),
            BinOp::Ne => Some(OmlValue::Bool(l != r)),
            BinOp::And | BinOp::Or => None,
        };
        match out {
            Some(v) => Ok(v),
            None => Err(illegal_operator(op.symbol())),
        }
    }

    /// Applies a binary operator to two strings.
    pub fn eval_string(left: String, op: BinOp, right: String) -> (r: Result<OmlValue, String>)
        ensures
            r is Ok <==> op2_spec(Val::Str(left@), op, Val::Str(right@)) is Some,
            r matches Err(m) ==> m@ == illegal_msg(symbol_spec(op)),
            r matches Ok(v) ==> op2_spec(Val::Str(left@), op, Val::Str(right@)) == Some(
                v.view_val(),
            ),
    {
        match op {
            BinOp::Add => {
                let mut s = left;
                s.append(right.as_str());
                Ok(OmlValue::String(s))
            },
            BinOp::Eq => Ok(OmlValue::Bool(left == right)),
            BinOp::Ne => Ok(OmlValue::Bool(left != right)),
            _ => Err(illegal_operator(op.symbol())),
        }
    }
}

/// `s` written `n` times.
pub fn repeat_string(s: &String, n: u64) -> (r: String)
    ensures
        r@ == repeat(s@, n as nat),
{
    let mut out = String::new();
    let mut i: u64 = 0;
    while i < n
        invariant
            i <= n,
            out@ == repeat(s@, i as nat),
        decreases n - i,
    {
        out.append(s.as_str());
        i += 1;
    }
    out
}

} // verus!
