//! The typed literal and runtime value representations, the comparison
//! operators, and the per-operator matching semantics used by the evaluator.
//!
//! Non-integer numeric literals are carried exactly as a decimal mantissa and
//! a power-of-ten exponent, so every numeric comparison is exact integer
//! arithmetic — no value is ever coerced through a lossy float.

use vstd::prelude::*;

use crate::text::spec_contains_seq;
use crate::text::spec_ends_with;
use crate::text::spec_starts_with;

verus! {

/// A comparison operator of a query clause.
#[derive(Debug, Clone, Copy, PartialEq, Eq, Hash, Structural)]
pub enum Op {
    Eq,
    Ne,
    Gt,
    Gte,
    Lt,
    Lte,
    StartsWith,
    EndsWith,
    Contains,
    Regex,
    Before,
    After,
    In,
    Is,
}

/// Canonical name of each operator.
pub open spec fn spec_op_name(op: Op) -> Seq<char> {
    match op {
        Op::Eq => "eq"@,
        Op::Ne => "ne"@,
        Op::Gt => "gt"@,
        Op::Gte => "gte"@,
        Op::Lt => "lt"@,
        Op::Lte => "lte"@,
        Op::StartsWith => "startswith"@,
        Op::EndsWith => "endswith"@,
        Op::Contains => "contains"@,
        Op::Regex => "regex"@,
        Op::Before => "before"@,
        Op::After => "after"@,
        Op::In => "in"@,
        Op::Is => "is"@,
    }
}

impl Op {
    /// Canonical token for the operator, as the parser accepts it.
    pub fn as_str(self) -> (r: &'static str)
        ensures
            r@ == spec_op_name(self),
    {
        match self {
            Op::Eq => "eq",
            Op::Ne => "ne",
            Op::Gt => "gt",
            Op::Gte => "gte",
            Op::Lt => "lt",
            Op::Lte => "lte",
            Op::StartsWith => "startswith",
            Op::EndsWith => "endswith",
            Op::Contains => "contains",
            Op::Regex => "regex",
            Op::Before => "before",
            Op::After => "after",
            Op::In => "in",
            Op::Is => "is",
        }
    }
}

/// An exact decimal: the value `mantissa * 10^exp`.
#[derive(Debug, Clone, Copy, PartialEq, Eq, Structural)]
pub struct Decimal {
    pub mantissa: i64,
    pub exp: i32,
}

/// A numeric literal or field value. Integer magnitudes are preserved
/// exactly; a non-integer literal is carried as an exact decimal.
#[derive(Debug, Clone, Copy, PartialEq, Eq, Structural)]
pub enum Number {
    I64(i64),
    U64(u64),
    Decimal(Decimal),
}

/// Signed 64-bit milliseconds since the Unix epoch.
#[derive(Debug, Clone, Copy, PartialEq, Eq, Structural)]
pub struct Timestamp(pub i64);

/// A runtime field value read from a record by a `Seekable` accessor.
#[derive(Debug, Clone)]
pub enum Value {
    String(String),
    Number(Number),
    Timestamp(Timestamp),
    Enum(u32),
    Bool(bool),
    /// The record has no value for the field; matches nothing.
    Null,
}

/// `10^e`.
pub open spec fn pow10(e: nat) -> int
    decreases e,
{
    if e == 0 {
        1
    } else {
        10 * pow10((e - 1) as nat)
    }
}

/// Powers of ten are positive.
pub proof fn lemma_pow10_pos(e: nat)
    ensures
        pow10(e) >= 1,
    decreases e,
{
    if e > 0 {
        lemma_pow10_pos((e - 1) as nat);
    }
}

/// Powers of ten grow with the exponent.
pub proof fn lemma_pow10_mono(a: nat, b: nat)
    requires
        a <= b,
    ensures
        pow10(a) <= pow10(b),
    decreases b,
{
    if a < b {
        lemma_pow10_mono(a, (b - 1) as nat);
        lemma_pow10_pos((b - 1) as nat);
    }
}

/// Concrete values of the powers of ten used by the comparison routine.
pub proof fn lemma_pow10_vals()
    ensures
        pow10(19) == 10000000000000000000,
        pow10(20) == 100000000000000000000,
{
    assert(pow10(0) == 1);
    assert(pow10(1) == 10);
    assert(pow10(2) == 100);
    assert(pow10(3) == 1000);
    assert(pow10(4) == 10000);
    assert(pow10(5) == 100000);
    assert(pow10(6) == 1000000);
    assert(pow10(7) == 10000000);
    assert(pow10(8) == 100000000);
    assert(pow10(9) == 1000000000);
    assert(pow10(10) == 10000000000);
    assert(pow10(11) == 100000000000);
    assert(pow10(12) == 1000000000000);
    assert(pow10(13) == 10000000000000);
    assert(pow10(14) == 100000000000000);
    assert(pow10(15) == 1000000000000000);
    assert(pow10(16) == 10000000000000000);
    assert(pow10(17) == 100000000000000000);
    assert(pow10(18) == 1000000000000000000);
    assert(pow10(19) == 10000000000000000000);
    assert(pow10(20) == 100000000000000000000);
}

/// The mantissa of a number's exact decimal form.
pub open spec fn spec_num_mant(n: Number) -> int {
    match n {
        Number::I64(x) => x as int,
        Number::U64(x) => x as int,
        Number::Decimal(d) => d.mantissa as int,
    }
}

/// The exponent of a number's exact decimal form.
pub open spec fn spec_num_exp(n: Number) -> int {
    match n {
        Number::Decimal(d) => d.exp as int,
        _ => 0,
    }
}

/// The two numbers brought to a common power-of-ten scale: `a`'s and `b`'s
/// mantissas multiplied up to the smaller exponent. Comparing the scaled
/// mantissas compares the numbers' exact values.
pub open spec fn spec_num_scaled(a: Number, b: Number) -> (int, int) {
    let ea = spec_num_exp(a);
    let eb = spec_num_exp(b);
    if ea <= eb {
        (spec_num_mant(a), spec_num_mant(b) * pow10((eb - ea) as nat))
    } else {
        (spec_num_mant(a) * pow10((ea - eb) as nat), spec_num_mant(b))
    }
}

/// Exact numeric order: `a < b` as mathematical values.
pub open spec fn spec_num_lt(a: Number, b: Number) -> bool {
    spec_num_scaled(a, b).0 < spec_num_scaled(a, b).1
}

/// Exact numeric order: `a <= b` as mathematical values.
pub open spec fn spec_num_le(a: Number, b: Number) -> bool {
    spec_num_scaled(a, b).0 <= spec_num_scaled(a, b).1
}

/// Exact numeric value equality.
pub open spec fn spec_num_val_eq(a: Number, b: Number) -> bool {
    spec_num_scaled(a, b).0 == spec_num_scaled(a, b).1
}

/// Three-way exact numeric comparison: -1, 0 or 1.
pub open spec fn spec_num_cmp(a: Number, b: Number) -> int {
    if spec_num_lt(a, b) {
        -1
    } else if spec_num_val_eq(a, b) {
        0
    } else {
        1
    }
}

/// Structural equality of two numbers: the same variant with the same value;
/// two decimals are equal when their exact values are.
pub open spec fn spec_num_eq(a: Number, b: Number) -> bool {
    match (a, b) {
        (Number::I64(x), Number::I64(y)) => x == y,
        (Number::U64(x), Number::U64(y)) => x == y,
        (Number::Decimal(x), Number::Decimal(y)) => spec_num_val_eq(a, b),
        _ => false,
    }
}

/// `10^e` as a `u128`, for exponents up to 19.
fn pow10_u128(e: u32) -> (r: u128)
    requires
        e <= 19,
    ensures
        r == pow10(e as nat),
{
    let mut r: u128 = 1;
    let mut i: u32 = 0;
    proof {
        lemma_pow10_pos(19);
    }
    while i < e
        invariant
            i <= e <= 19,
            r == pow10(i as nat),
            r <= pow10(19),
        decreases e - i,
    {
        proof {
            lemma_pow10_mono((i + 1) as nat, 19);
            lemma_pow10_vals();
        }
        r = r * 10;
        i = i + 1;
    }
    r
}

/// Mantissa and exponent of a number's exact decimal form.
fn num_parts(n: &Number) -> (r: (i128, i64))
    ensures
        r.0 == spec_num_mant(*n),
        r.1 == spec_num_exp(*n),
        -0x10000000000000000 < r.0 < 0x10000000000000000,
        -0x80000000 <= r.1 <= 0x80000000,
{
    match n {
        Number::I64(x) => (*x as i128, 0),
        Number::U64(x) => (*x as i128, 0),
        Number::Decimal(d) => (d.mantissa as i128, d.exp as i64),
    }
}

/// Multiplying by a positive factor keeps the sign and the order.
proof fn lemma_mul_sign(m: int, p: int)
    requires
        p >= 1,
    ensures
        m > 0 ==> m * p >= m,
        m > 0 ==> m * p > 0,
        m < 0 ==> m * p <= m,
        m < 0 ==> m * p < 0,
        m == 0 ==> m * p == 0,
        m * p == -((-m) * p),
{
    assert(m > 0 ==> m * p >= m && m * p > 0) by (nonlinear_arith)
        requires
            p >= 1,
    ;
    assert(m < 0 ==> m * p <= m && m * p < 0) by (nonlinear_arith)
        requires
            p >= 1,
    ;
    assert(m * p == -((-m) * p)) by (nonlinear_arith);
}

/// Exact three-way numeric comparison of two numbers, by value.
#[verifier::rlimit(50)]
pub fn num_cmp(a: &Number, b: &Number) -> (r: i8)
    ensures
        r as int == spec_num_cmp(*a, *b),
{
    let (m1, e1) = num_parts(a);
    let (m2, e2) = num_parts(b);
    let ghost x = spec_num_scaled(*a, *b).0;
    let ghost y = spec_num_scaled(*a, *b).1;
    let ghost dn = (if e1 >= e2 {
        e1 - e2
    } else {
        e2 - e1
    }) as nat;
    let ghost pl = pow10(dn);
    proof {
        lemma_pow10_pos(dn);
        lemma_mul_sign(m1 as int, pl);
        lemma_mul_sign(m2 as int, pl);
        if e1 >= e2 {
            assert(x == m1 as int * pl);
            assert(y == m2 as int);
        } else {
            assert(x == m1 as int);
            assert(y == m2 as int * pl);
        }
    }
    let s1: i8 = if m1 > 0 {
        1
    } else if m1 < 0 {
        -1
    } else {
        0
    };
    let s2: i8 = if m2 > 0 {
        1
    } else if m2 < 0 {
        -1
    } else {
        0
    };
    if s1 != s2 {
        // Scaling by a positive power keeps each mantissa's sign.
        if s1 < s2 {
            proof {
                assert(x < y);
            }
            return -1;
        } else {
            proof {
                assert(x > y);
            }
            return 1;
        }
    }
    if s1 == 0 {
        proof {
            assert(x == 0 && y == 0);
        }
        return 0;
    }
    // Same nonzero sign: compare magnitudes, scaling the side with the
    // larger exponent up.
    let a1: u128 = if m1 >= 0 {
        m1 as u128
    } else {
        (-m1) as u128
    };
    let a2: u128 = if m2 >= 0 {
        m2 as u128
    } else {
        (-m2) as u128
    };
    let (hi, lo, d) = if e1 >= e2 {
        (a1, a2, e1 - e2)
    } else {
        (a2, a1, e2 - e1)
    };
    // mag compares hi * 10^d against lo.
    let mag: i8 = if d >= 20 {
        // hi * 10^d >= 10^20 > 2^64 > lo.
        proof {
            lemma_pow10_mono(20, dn);
            lemma_pow10_vals();
            assert(hi as int * pow10(dn) >= pow10(dn)) by (nonlinear_arith)
                requires
                    hi >= 1,
                    pow10(dn) >= 1,
            ;
        }
        1
    } else {
        let p = pow10_u128(d as u32);
        proof {
            lemma_pow10_vals();
            lemma_pow10_mono(dn, 19);
            assert(hi as int * pow10(dn) <= 0xffffffffffffffff * pow10(19)) by (nonlinear_arith)
                requires
                    pow10(dn) <= pow10(19),
                    pow10(dn) >= 1,
                    0 <= hi <= 0xffffffffffffffff,
            ;
            assert(0xffffffffffffffff * pow10(19) < 0x100000000000000000000000000000000) by {
                lemma_pow10_vals();
            }
        }
        let prod = hi * p;
        if prod < lo {
            -1
        } else if prod == lo {
            0
        } else {
            1
        }
    };
    proof {
        // hi * 10^d vs lo decides the scaled magnitudes; map the signs back.
        let hm: int = hi as int * pl;
        let lm: int = lo as int;
        assert(mag == -1 <==> hm < lm);
        assert(mag == 0 <==> hm == lm);
        assert(mag == 1 <==> hm > lm);
        if e1 >= e2 {
            if s1 > 0 {
                assert(x == hm && y == lm);
            } else {
                assert(m1 as int == -(a1 as int) && m2 as int == -(a2 as int));
                assert(x == -hm && y == -lm);
            }
        } else {
            if s1 > 0 {
                assert(x == lm && y == hm);
            } else {
                assert(m1 as int == -(a1 as int) && m2 as int == -(a2 as int));
                assert(x == -lm && y == -hm);
            }
        }
    }
    let signed: i8 = if s1 > 0 {
        mag
    } else {
        -mag
    };
    if e1 >= e2 {
        signed
    } else {
        -signed
    }
}

/// Exact numeric strict order.
pub fn num_lt(a: &Number, b: &Number) -> (r: bool)
    ensures
        r == spec_num_lt(*a, *b),
{
    num_cmp(a, b) == -1
}

/// Exact numeric non-strict order.
pub fn num_le(a: &Number, b: &Number) -> (r: bool)
    ensures
        r == spec_num_le(*a, *b),
{
    num_cmp(a, b) != 1
}

/// Structural numeric equality.
pub fn num_eq(a: &Number, b: &Number) -> (r: bool)
    ensures
        r == spec_num_eq(*a, *b),
{
    match (a, b) {
        (Number::I64(x), Number::I64(y)) => *x == *y,
        (Number::U64(x), Number::U64(y)) => *x == *y,
        (Number::Decimal(x), Number::Decimal(y)) => num_cmp(a, b) == 0,
        _ => false,
    }
}

#[verifier::external_type_specification]
#[verifier::external_body]
pub struct ExRegex(regex::Regex);

#[verifier::external_type_specification]
#[verifier::external_body]
pub struct ExRegexError(regex::Error);

/// The set of texts that a pattern with valid syntax matches.
pub uninterp spec fn regex_lang(pattern: Seq<char>) -> Set<Seq<char>>;

/// Whether a pattern has valid regular-expression syntax.
pub uninterp spec fn regex_valid(pattern: Seq<char>) -> bool;

/// The set of texts that a compiled regular expression matches.
pub uninterp spec fn regex_set(re: regex::Regex) -> Set<Seq<char>>;

/// Relies on `regex::Regex::new`: compilation succeeds exactly on patterns
/// with valid syntax, and the compiled value matches the texts the pattern
/// matches.
pub assume_specification [ regex::Regex::new ](re: &str) -> (r: Result<
    regex::Regex,
    regex::Error,
>)
    ensures
        r is Ok <==> regex_valid(re@),
        r is Ok ==> regex_set(r->Ok_0) == regex_lang(re@),
;

/// Relies on `regex::Regex::is_match`: a compiled expression reports exactly
/// whether the haystack is one of the texts it matches.
pub assume_specification [ regex::Regex::is_match ](re: &regex::Regex, haystack: &str) -> (r:
    bool)
    ensures
        r == regex_set(*re).contains(haystack@),
;

/// A compiled regular expression together with the pattern it came from.
#[derive(Debug)]
pub struct RegexValue {
    /// The source pattern.
    pub pattern: String,
    /// The compiled expression.
    pub compiled: regex::Regex,
}

impl RegexValue {
    /// The compiled expression matches exactly what its pattern describes.
    pub open spec fn wf(self) -> bool {
        regex_set(self.compiled) == regex_lang(self.pattern@)
    }
}

/// A literal parsed from string input, typed to match its target field.
#[derive(Debug)]
pub enum ClauseValue {
    String(String),
    Regex(RegexValue),
    Number(Number),
    Timestamp(Timestamp),
    Enum(u32),
    EnumSet(Vec<u32>),
    Bool(bool),
}

impl ClauseValue {
    /// Well-formedness: a compiled regex agrees with its recorded pattern.
    pub open spec fn wf(self) -> bool {
        match self {
            ClauseValue::Regex(r) => r.wf(),
            _ => true,
        }
    }
}

/// Structural equality between a runtime value and a clause literal; values
/// of different shapes are never equal.
pub open spec fn spec_value_eq(v: Value, cv: ClauseValue) -> bool {
    match (v, cv) {
        (Value::String(s), ClauseValue::String(t)) => s@ == t@,
        (Value::Number(a), ClauseValue::Number(b)) => spec_num_eq(a, b),
        (Value::Timestamp(a), ClauseValue::Timestamp(b)) => a.0 == b.0,
        (Value::Enum(a), ClauseValue::Enum(b)) => a == b,
        (Value::Bool(a), ClauseValue::Bool(b)) => a == b,
        _ => false,
    }
}

/// The matching semantics of one clause: how a runtime value compares to the
/// clause's literal under the clause's operator. A shape mismatch is a
/// non-match, never a fault.
pub open spec fn spec_clause_matches(v: Value, op: Op, cv: ClauseValue) -> bool {
    match op {
        Op::Eq => spec_value_eq(v, cv),
        Op::Ne => !spec_value_eq(v, cv),
        Op::Gt => match (v, cv) {
            (Value::Number(a), ClauseValue::Number(b)) => spec_num_lt(b, a),
            (Value::Timestamp(a), ClauseValue::Timestamp(b)) => a.0 > b.0,
            _ => false,
        },
        Op::Gte => match (v, cv) {
            (Value::Number(a), ClauseValue::Number(b)) => spec_num_le(b, a),
            (Value::Timestamp(a), ClauseValue::Timestamp(b)) => a.0 >= b.0,
            _ => false,
        },
        Op::Lt => match (v, cv) {
            (Value::Number(a), ClauseValue::Number(b)) => spec_num_lt(a, b),
            (Value::Timestamp(a), ClauseValue::Timestamp(b)) => a.0 < b.0,
            _ => false,
        },
        Op::Lte => match (v, cv) {
            (Value::Number(a), ClauseValue::Number(b)) => spec_num_le(a, b),
            (Value::Timestamp(a), ClauseValue::Timestamp(b)) => a.0 <= b.0,
            _ => false,
        },
        Op::StartsWith => match (v, cv) {
            (Value::String(s), ClauseValue::String(p)) => spec_starts_with(s@, p@),
            _ => false,
        },
        Op::EndsWith => match (v, cv) {
            (Value::String(s), ClauseValue::String(p)) => spec_ends_with(s@, p@),
            _ => false,
        },
        Op::Contains => match (v, cv) {
            (Value::String(s), ClauseValue::String(p)) => spec_contains_seq(s@, p@),
            _ => false,
        },
        Op::Regex => match (v, cv) {
            (Value::String(s), ClauseValue::Regex(r)) => regex_lang(r.pattern@).contains(s@),
            _ => false,
        },
        Op::Before => match (v, cv) {
            (Value::Timestamp(a), ClauseValue::Timestamp(b)) => a.0 < b.0,
            _ => false,
        },
        Op::After => match (v, cv) {
            (Value::Timestamp(a), ClauseValue::Timestamp(b)) => a.0 > b.0,
            _ => false,
        },
        Op::In => match (v, cv) {
            (Value::Enum(d), ClauseValue::EnumSet(set)) => set@.contains(d),
            _ => false,
        },
        Op::Is => match (v, cv) {
            (Value::Bool(a), ClauseValue::Bool(b)) => a == b,
            _ => false,
        },
    }
}

/// Whether `d` occurs in `set`.
fn set_has(set: &Vec<u32>, d: u32) -> (r: bool)
    ensures
        r == set@.contains(d),
{
    let mut i: usize = 0;
    while i < set.len()
        invariant
            i <= set@.len(),
            forall|j: int| 0 <= j < i ==> set@[j] != d,
        decreases set@.len() - i,
    {
        if set[i] == d {
            return true;
        }
        i = i + 1;
    }
    false
}

/// Structural equality between a runtime value and a clause literal.
fn value_eq(v: &Value, cv: &ClauseValue) -> (r: bool)
    ensures
        r == spec_value_eq(*v, *cv),
{
    match (v, cv) {
        (Value::String(s), ClauseValue::String(t)) => {
            let a = crate::text::str_chars(s.as_str());
            let b = crate::text::str_chars(t.as_str());
            crate::text::chars_eq(&a, &b)
        },
        (Value::Number(a), ClauseValue::Number(b)) => num_eq(a, b),
        (Value::Timestamp(a), ClauseValue::Timestamp(b)) => a.0 == b.0,
        (Value::Enum(a), ClauseValue::Enum(b)) => *a == *b,
        (Value::Bool(a), ClauseValue::Bool(b)) => *a == *b,
        _ => false,
    }
}

/// Evaluates one clause: compares the runtime value against the clause's
/// literal under the operator, per the matching semantics.
pub fn clause_matches(v: &Value, op: Op, cv: &ClauseValue) -> (r: bool)
    requires
        cv.wf(),
    ensures
        r == spec_clause_matches(*v, op, *cv),
{
    match op {
        Op::Eq => value_eq(v, cv),
        Op::Ne => !value_eq(v, cv),
        Op::Gt => match (v, cv) {
            (Value::Number(a), ClauseValue::Number(b)) => num_lt(b, a),
            (Value::Timestamp(a), ClauseValue::Timestamp(b)) => a.0 > b.0,
            _ => false,
        },
        Op::Gte => match (v, cv) {
            (Value::Number(a), ClauseValue::Number(b)) => num_le(b, a),
            (Value::Timestamp(a), ClauseValue::Timestamp(b)) => a.0 >= b.0,
            _ => false,
        },
        Op::Lt => match (v, cv) {
            (Value::Number(a), ClauseValue::Number(b)) => num_lt(a, b),
            (Value::Timestamp(a), ClauseValue::Timestamp(b)) => a.0 < b.0,
            _ => false,
        },
        Op::Lte => match (v, cv) {
            (Value::Number(a), ClauseValue::Number(b)) => num_le(a, b),
            (Value::Timestamp(a), ClauseValue::Timestamp(b)) => a.0 <= b.0,
            _ => false,
        },
        Op::StartsWith => match (v, cv) {
            (Value::String(s), ClauseValue::String(p)) => {
                let a = crate::text::str_chars(s.as_str());
                let b = crate::text::str_chars(p.as_str());
                crate::text::starts_with_chars(&a, &b)
            },
            _ => false,
        },
        Op::EndsWith => match (v, cv) {
            (Value::String(s), ClauseValue::String(p)) => {
                let a = crate::text::str_chars(s.as_str());
                let b = crate::text::str_chars(p.as_str());
                crate::text::ends_with_chars(&a, &b)
            },
            _ => false,
        },
        Op::Contains => match (v, cv) {
            (Value::String(s), ClauseValue::String(p)) => {
                let a = crate::text::str_chars(s.as_str());
                let b = crate::text::str_chars(p.as_str());
                crate::text::contains_chars(&a, &b)
            },
            _ => false,
        },
        Op::Regex => match (v, cv) {
            (Value::String(s), ClauseValue::Regex(r)) => r.compiled.is_match(s.as_str()),
            _ => false,
        },
        Op::Before => match (v, cv) {
            (Value::Timestamp(a), ClauseValue::Timestamp(b)) => a.0 < b.0,
            _ => false,
        },
        Op::After => match (v, cv) {
            (Value::Timestamp(a), ClauseValue::Timestamp(b)) => a.0 > b.0,
            _ => false,
        },
        Op::In => match (v, cv) {
            (Value::Enum(d), ClauseValue::EnumSet(set)) => set_has(set, *d),
            _ => false,
        },
        Op::Is => match (v, cv) {
            (Value::Bool(a), ClauseValue::Bool(b)) => *a == *b,
            _ => false,
        },
    }
}

} // verus!
