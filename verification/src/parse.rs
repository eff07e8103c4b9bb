//! String-based query parsing: raw (key, value) string pairs become a typed,
//! schema-validated [`Query`](crate::query::Query).
//!
//! Keys have the form `field-name-operator`: they split on `-`, and the last
//! segment names the operator when it is a recognized operator token;
//! otherwise the whole key is the field name and the field type's default
//! operator applies.
//!
//! Case-insensitive comparisons here fold ASCII letters only. Every keyword
//! this parser recognizes — operator tokens, group markers, special keys,
//! direction and boolean words — is pure ASCII, and no non-ASCII character
//! case-folds into any of them, so the match set is the same as under full
//! Unicode folding; a key spelled with exotic letterforms is simply not a
//! keyword.

use vstd::prelude::*;

use crate::schema::SeekType;
use crate::schema::SeekerSchema;
use crate::text::spec_last_index_of;
use crate::text::spec_lower;
use crate::text::str_chars;
use crate::text::chars_string;
use crate::text::chars_eq_str;
use crate::text::last_index_of;
use crate::text::lower_chars;
use crate::value::Op;

verus! {

/// Error from parsing a query string. Errors are data; rendering them for
/// end users is the caller's concern.
#[derive(Debug, Clone, PartialEq, Eq)]
pub enum ParseError {
    /// Field name not found in schema.
    UnknownField { field: String, available: Vec<String> },
    /// Operator not valid for field type.
    InvalidOperator { field: String, operator: String, field_type: SeekType },
    /// Value could not be parsed for field type.
    InvalidValue { field: String, value: String, expected: SeekType, reason: String },
    /// Invalid regex pattern.
    InvalidRegex { field: String, pattern: String, error: String },
    /// Invalid ordering specification.
    InvalidOrdering { value: String, reason: String },
    /// Invalid limit/offset value.
    InvalidLimit { key: String, value: String },
    /// Unknown operator name.
    UnknownOperator { operator: String },
}

impl ParseError {
    /// A human-readable description of the error, naming the field, the
    /// offending input and what was expected.
    pub fn message(&self) -> String {
        match self {
            ParseError::UnknownField { field, available } => {
                let mut m = "unknown field '".to_owned();
                m.append(field.as_str());
                m.append("'. Available: ");
                let mut i: usize = 0;
                while i < available.len()
                    decreases available@.len() - i,
                {
                    if i > 0 {
                        m.append(", ");
                    }
                    m.append(available[i].as_str());
                    i = i + 1;
                }
                m
            },
            ParseError::InvalidOperator { field, operator, field_type } => {
                let mut m = "operator '".to_owned();
                m.append(operator.as_str());
                m.append("' is not valid for ");
                m.append(field_type.as_str());
                m.append(" field '");
                m.append(field.as_str());
                m.append("'");
                m
            },
            ParseError::InvalidValue { field, value, expected, reason } => {
                let mut m = "invalid value '".to_owned();
                m.append(value.as_str());
                m.append("' for ");
                m.append(expected.as_str());
                m.append(" field '");
                m.append(field.as_str());
                m.append("': ");
                m.append(reason.as_str());
                m
            },
            ParseError::InvalidRegex { field, pattern, error } => {
                let mut m = "invalid regex '".to_owned();
                m.append(pattern.as_str());
                m.append("' for field '");
                m.append(field.as_str());
                m.append("': ");
                m.append(error.as_str());
                m
            },
            ParseError::InvalidOrdering { value, reason } => {
                let mut m = "invalid ordering '".to_owned();
                m.append(value.as_str());
                m.append("': ");
                m.append(reason.as_str());
                m
            },
            ParseError::InvalidLimit { key, value } => {
                let mut m = "invalid ".to_owned();
                m.append(key.as_str());
                m.append(" value '");
                m.append(value.as_str());
                m.append("': expected positive integer");
                m
            },
            ParseError::UnknownOperator { operator } => {
                let mut m = "unknown operator '".to_owned();
                m.append(operator.as_str());
                m.append("'");
                m
            },
        }
    }
}

/// Result type for parsing operations.
pub type ParseResult<T> = Result<T, ParseError>;

/// Clause group register for query building.
#[derive(Debug, Clone, Copy, PartialEq, Eq, Structural)]
pub enum ClauseGroup {
    And,
    Or,
    Not,
}

impl Default for ClauseGroup {
    /// The register starts under `And` semantics.
    fn default() -> (r: Self)
        ensures
            r == ClauseGroup::And,
    {
        ClauseGroup::And
    }
}

/// The operator named by an already-lower-cased token, if any. Each operator
/// has a canonical token; `ne`, `startswith`, `endswith` and `regex` also
/// have aliases.
pub open spec fn spec_operator_token(t: Seq<char>) -> Option<Op> {
    if t == "eq"@ {
        Some(Op::Eq)
    } else if t == "ne"@ || t == "neq"@ {
        Some(Op::Ne)
    } else if t == "gt"@ {
        Some(Op::Gt)
    } else if t == "gte"@ {
        Some(Op::Gte)
    } else if t == "lt"@ {
        Some(Op::Lt)
    } else if t == "lte"@ {
        Some(Op::Lte)
    } else if t == "startswith"@ || t == "prefix"@ {
        Some(Op::StartsWith)
    } else if t == "endswith"@ || t == "suffix"@ {
        Some(Op::EndsWith)
    } else if t == "contains"@ {
        Some(Op::Contains)
    } else if t == "regex"@ || t == "re"@ || t == "match"@ {
        Some(Op::Regex)
    } else if t == "before"@ {
        Some(Op::Before)
    } else if t == "after"@ {
        Some(Op::After)
    } else if t == "in"@ {
        Some(Op::In)
    } else if t == "is"@ {
        Some(Op::Is)
    } else {
        None
    }
}

/// What `parse_operator` returns: the token is matched case-insensitively.
pub open spec fn spec_parse_operator(s: Seq<char>) -> Option<Op> {
    spec_operator_token(spec_lower(s))
}

/// The operator named by an already-lower-cased character vector.
fn operator_token(t: &Vec<char>) -> (r: Option<Op>)
    ensures
        r == spec_operator_token(t@),
{
    if chars_eq_str(t, "eq") {
        Some(Op::Eq)
    } else if chars_eq_str(t, "ne") || chars_eq_str(t, "neq") {
        Some(Op::Ne)
    } else if chars_eq_str(t, "gt") {
        Some(Op::Gt)
    } else if chars_eq_str(t, "gte") {
        Some(Op::Gte)
    } else if chars_eq_str(t, "lt") {
        Some(Op::Lt)
    } else if chars_eq_str(t, "lte") {
        Some(Op::Lte)
    } else if chars_eq_str(t, "startswith") || chars_eq_str(t, "prefix") {
        Some(Op::StartsWith)
    } else if chars_eq_str(t, "endswith") || chars_eq_str(t, "suffix") {
        Some(Op::EndsWith)
    } else if chars_eq_str(t, "contains") {
        Some(Op::Contains)
    } else if chars_eq_str(t, "regex") || chars_eq_str(t, "re") || chars_eq_str(t, "match") {
        Some(Op::Regex)
    } else if chars_eq_str(t, "before") {
        Some(Op::Before)
    } else if chars_eq_str(t, "after") {
        Some(Op::After)
    } else if chars_eq_str(t, "in") {
        Some(Op::In)
    } else if chars_eq_str(t, "is") {
        Some(Op::Is)
    } else {
        None
    }
}

/// Parses an operator name into an [`Op`], case-insensitively, accepting the
/// aliases `neq`, `prefix`, `suffix`, `re` and `match`.
pub fn parse_operator(s: &str) -> (r: Option<Op>)
    ensures
        r == spec_parse_operator(s@),
{
    let chars = str_chars(s);
    let lowered = lower_chars(&chars);
    operator_token(&lowered)
}

/// What `parse_key` returns: when the key has a `-` and the (lower-cased)
/// segment after the last `-` is a recognized operator token, the field is
/// everything before that `-` and the operator is that token; otherwise the
/// whole key is the field and no operator is named.
pub open spec fn spec_parse_key(k: Seq<char>) -> (Seq<char>, Option<Op>) {
    match spec_last_index_of(k, '-') {
        Some(i) => match spec_operator_token(spec_lower(k.skip(i + 1))) {
            Some(op) => (k.take(i), Some(op)),
            None => (k, None),
        },
        None => (k, None),
    }
}

/// Splits a key into field name and operator: the key splits on `-`, and the
/// last segment names the operator when it is a recognized token (so
/// `"created-at-before"` gives field `"created-at"` and `Before`); an
/// unrecognized last segment stays part of the field name.
pub fn parse_key(key: &str) -> (r: (String, Option<Op>))
    ensures
        r.0@ == spec_parse_key(key@).0,
        r.1 == spec_parse_key(key@).1,
{
    let chars = str_chars(key);
    let n_chars = chars.len();
    match last_index_of(&chars, '-') {
        Some(i) => {
            proof {
                assert(i < n_chars);
            }
            let mut tail: Vec<char> = Vec::new();
            let mut j: usize = i + 1;
            proof {
                assert(tail@ =~= chars@.subrange(i + 1 as int, i + 1 as int));
            }
            while j < chars.len()
                invariant
                    i + 1 <= j <= chars@.len(),
                    tail@ == chars@.subrange(i + 1 as int, j as int),
                decreases chars@.len() - j,
            {
                tail.push(chars[j]);
                proof {
                    assert(tail@ =~= chars@.subrange(i + 1 as int, j + 1 as int));
                }
                j = j + 1;
            }
            proof {
                assert(tail@ =~= chars@.skip(i + 1 as int));
            }
            let lowered = lower_chars(&tail);
            match operator_token(&lowered) {
                Some(op) => {
                    let mut head: Vec<char> = Vec::new();
                    let mut h: usize = 0;
                    while h < i
                        invariant
                            h <= i < chars@.len(),
                            head@ == chars@.subrange(0, h as int),
                        decreases i - h,
                    {
                        head.push(chars[h]);
                        proof {
                            assert(head@ =~= chars@.subrange(0, h + 1 as int));
                        }
                        h = h + 1;
                    }
                    proof {
                        assert(head@ =~= chars@.take(i as int));
                    }
                    (chars_string(&head), Some(op))
                },
                None => (chars_string(&chars), None),
            }
        },
        None => (chars_string(&chars), None),
    }
}

/// What a boolean literal means: `true`, `1`, `yes` and `on` are true and
/// `false`, `0`, `no` and `off` are false, case-insensitively; anything else
/// is no boolean.
pub open spec fn spec_parse_bool(s: Seq<char>) -> Option<bool> {
    let t = spec_lower(s);
    if t == "true"@ || t == "1"@ || t == "yes"@ || t == "on"@ {
        Some(true)
    } else if t == "false"@ || t == "0"@ || t == "no"@ || t == "off"@ {
        Some(false)
    } else {
        None
    }
}

/// Parses a boolean literal, case-insensitively.
fn parse_bool_chars(v: &Vec<char>) -> (r: Option<bool>)
    ensures
        r == spec_parse_bool(v@),
{
    let t = lower_chars(v);
    if chars_eq_str(&t, "true") || chars_eq_str(&t, "1") || chars_eq_str(&t, "yes") || chars_eq_str(
        &t,
        "on",
    ) {
        Some(true)
    } else if chars_eq_str(&t, "false") || chars_eq_str(&t, "0") || chars_eq_str(&t, "no")
        || chars_eq_str(&t, "off") {
        Some(false)
    } else {
        None
    }
}

/// Folds decimal digits into a non-negative mantissa, consuming digits from
/// the left and stopping before the accumulator could pass `i64::MAX`:
/// yields the accumulated value and how many digits were consumed.
pub open spec fn spec_mant_fold(digits: Seq<char>, acc: int) -> (int, int)
    decreases digits.len(),
{
    if digits.len() == 0 {
        (acc, 0)
    } else {
        let d = crate::text::spec_digit_val(digits[0]);
        if acc > (0x7fffffffffffffff - d) / 10 {
            (acc, 0)
        } else {
            let r = spec_mant_fold(digits.drop_first(), acc * 10 + d);
            (r.0, r.1 + 1)
        }
    }
}

/// Position of the first exponent marker (`e` or `E`).
pub open spec fn spec_first_exp_index(s: Seq<char>) -> Option<int>
    decreases s.len(),
{
    if s.len() == 0 {
        None
    } else if s[0] == 'e' || s[0] == 'E' {
        Some(0)
    } else {
        match spec_first_exp_index(s.drop_first()) {
            Some(i) => Some(i + 1),
            None => None,
        }
    }
}

/// The exponent literal's magnitude: its digits' value, saturated at one
/// million — far past any exponent a comparable value can carry.
pub open spec fn spec_exp_magnitude(digits: Seq<char>) -> int {
    if crate::text::spec_digits_val(digits) > 1000000 {
        1000000
    } else {
        crate::text::spec_digits_val(digits)
    }
}

/// The signed exponent named by an exponent literal (without the `e`):
/// an optional sign, then one or more digits; `None` when malformed.
pub open spec fn spec_parse_exp(s: Seq<char>) -> Option<int> {
    let neg = s.len() > 0 && s[0] == '-';
    let body = if s.len() > 0 && (s[0] == '-' || s[0] == '+') {
        s.skip(1)
    } else {
        s
    };
    if body.len() > 0 && crate::text::spec_all_digits(body) {
        if neg {
            Some(-spec_exp_magnitude(body))
        } else {
            Some(spec_exp_magnitude(body))
        }
    } else {
        None
    }
}

/// Clamps an exponent into the range the `Decimal` type stores.
pub open spec fn spec_clamp_exp(e: int) -> int {
    if e > 1000000000 {
        1000000000
    } else if e < -1000000000 {
        -1000000000
    } else {
        e
    }
}

/// What a decimal literal means: an optional sign, integer digits, an
/// optional `.` and fraction digits (at least one digit in all), and an
/// optional exponent (`e` or `E`, an optional sign, digits). The mantissa
/// takes as many leading digits as fit a signed 64-bit value; digits beyond
/// shift the exponent (integer part) or are dropped (fraction part), and
/// exponents saturate far past the comparable range.
pub open spec fn spec_parse_decimal(s: Seq<char>) -> Option<crate::value::Decimal> {
    let neg = s.len() > 0 && s[0] == '-';
    let body = if s.len() > 0 && (s[0] == '-' || s[0] == '+') {
        s.skip(1)
    } else {
        s
    };
    let mant_txt = match spec_first_exp_index(body) {
        Some(e) => body.take(e),
        None => body,
    };
    let exp_val = match spec_first_exp_index(body) {
        Some(e) => spec_parse_exp(body.skip(e + 1)),
        None => Some(0),
    };
    let ipart = match crate::text::spec_first_index_of(mant_txt, '.') {
        Some(d) => mant_txt.take(d),
        None => mant_txt,
    };
    let fpart = match crate::text::spec_first_index_of(mant_txt, '.') {
        Some(d) => mant_txt.skip(d + 1),
        None => Seq::empty(),
    };
    if crate::text::spec_all_digits(ipart) && crate::text::spec_all_digits(fpart) && ipart.len()
        + fpart.len() >= 1 && exp_val is Some {
        let digits = ipart + fpart;
        let fold = spec_mant_fold(digits, 0);
        let exp = spec_clamp_exp(ipart.len() - fold.1 + exp_val->0);
        let m = if neg {
            -fold.0
        } else {
            fold.0
        };
        Some(crate::value::Decimal { mantissa: m as i64, exp: exp as i32 })
    } else {
        None
    }
}

/// The mantissa fold stays within the signed 64-bit range.
proof fn lemma_mant_fold_bounds(digits: Seq<char>, acc: int)
    requires
        0 <= acc <= 0x7fffffffffffffff,
        crate::text::spec_all_digits(digits),
    ensures
        0 <= spec_mant_fold(digits, acc).0 <= 0x7fffffffffffffff,
        0 <= spec_mant_fold(digits, acc).1 <= digits.len(),
    decreases digits.len(),
{
    if digits.len() > 0 {
        let d = crate::text::spec_digit_val(digits[0]);
        if !(acc > (0x7fffffffffffffff - d) / 10) {
            assert(acc * 10 + d <= 0x7fffffffffffffff) by (nonlinear_arith)
                requires
                    0 <= acc <= (0x7fffffffffffffff - d) / 10,
                    0 <= d <= 9,
            ;
            assert(crate::text::spec_all_digits(digits.drop_first()));
            lemma_mant_fold_bounds(digits.drop_first(), acc * 10 + d);
        }
    }
}

/// Folds decimal digits of `v` from `from` on into a mantissa, mirroring
/// `spec_mant_fold`: returns the value and how many digits were consumed.
fn mant_fold(v: &Vec<char>, from: usize, to: usize) -> (r: (i64, usize))
    requires
        from <= to <= v@.len(),
        crate::text::spec_all_digits(v@.subrange(from as int, to as int)),
    ensures
        r.0 == spec_mant_fold(v@.subrange(from as int, to as int), 0).0,
        r.1 == spec_mant_fold(v@.subrange(from as int, to as int), 0).1,
        0 <= r.0,
        r.1 <= to - from,
{
    let ghost digits = v@.subrange(from as int, to as int);
    let mut acc: i64 = 0;
    let mut k: usize = 0;
    proof {
        assert(digits.skip(0) =~= digits);
        lemma_mant_fold_bounds(digits, 0);
    }
    while from + k < to
        invariant
            from + k <= to <= v@.len(),
            digits == v@.subrange(from as int, to as int),
            crate::text::spec_all_digits(digits),
            0 <= acc <= 0x7fffffffffffffff,
            spec_mant_fold(digits, 0).0 == spec_mant_fold(digits.skip(k as int), acc as int).0,
            spec_mant_fold(digits, 0).1 == k + spec_mant_fold(digits.skip(k as int), acc as int).1,
        decreases to - from - k,
    {
        let ghost rest = digits.skip(k as int);
        let c = v[from + k];
        proof {
            assert(rest[0] == digits[k as int]);
            assert(digits[k as int] == v@[from + k]);
            assert(crate::text::spec_is_digit(digits[k as int]));
        }
        let d: i64 = (c as u8 - 48) as i64;
        if acc > (0x7fffffffffffffff - d) / 10 {
            proof {
                assert(spec_mant_fold(rest, acc as int) == (acc as int, 0int));
            }
            return (acc, k);
        }
        proof {
            assert(acc * 10 + d <= 0x7fffffffffffffff) by (nonlinear_arith)
                requires
                    0 <= acc <= (0x7fffffffffffffff - d) / 10,
                    0 <= d <= 9,
            ;
            assert(rest.drop_first() =~= digits.skip(k + 1 as int));
        }
        acc = acc * 10 + d;
        k = k + 1;
    }
    proof {
        assert(digits.skip(k as int) =~= Seq::<char>::empty());
        assert(spec_mant_fold(Seq::<char>::empty(), acc as int) == (acc as int, 0int));
    }
    (acc, k)
}

/// Finds the first exponent marker (`e` or `E`) in `v`.
fn first_exp_index(v: &Vec<char>) -> (r: Option<usize>)
    ensures
        match r {
            Some(i) => spec_first_exp_index(v@) == Some(i as int) && i < v@.len(),
            None => spec_first_exp_index(v@) is None,
        },
{
    let mut i: usize = 0;
    while i < v.len()
        invariant
            i <= v@.len(),
            forall|j: int| 0 <= j < i ==> v@[j] != 'e' && v@[j] != 'E',
        decreases v@.len() - i,
    {
        if v[i] == 'e' || v[i] == 'E' {
            proof {
                lemma_first_exp_from(v@, i as int);
            }
            return Some(i);
        }
        i = i + 1;
    }
    proof {
        lemma_first_exp_none(v@);
    }
    None
}

/// When nothing before `i` is an exponent marker and `s[i]` is, the first
/// marker is at `i`.
proof fn lemma_first_exp_from(s: Seq<char>, i: int)
    requires
        0 <= i < s.len(),
        s[i] == 'e' || s[i] == 'E',
        forall|j: int| 0 <= j < i ==> s[j] != 'e' && s[j] != 'E',
    ensures
        spec_first_exp_index(s) == Some(i),
    decreases i,
{
    if i > 0 {
        lemma_first_exp_from(s.drop_first(), i - 1);
    }
}

/// When no character is an exponent marker, there is none.
proof fn lemma_first_exp_none(s: Seq<char>)
    requires
        forall|j: int| 0 <= j < s.len() ==> s[j] != 'e' && s[j] != 'E',
    ensures
        spec_first_exp_index(s) is None,
    decreases s.len(),
{
    if s.len() > 0 {
        lemma_first_exp_none(s.drop_first());
    }
}

/// Checks that the characters of `v` in `[from, to)` are all digits.
fn all_digits_range(v: &Vec<char>, from: usize, to: usize) -> (r: bool)
    requires
        from <= to <= v@.len(),
    ensures
        r == crate::text::spec_all_digits(v@.subrange(from as int, to as int)),
{
    let ghost digits = v@.subrange(from as int, to as int);
    let mut i: usize = from;
    while i < to
        invariant
            from <= i <= to <= v@.len(),
            digits == v@.subrange(from as int, to as int),
            forall|j: int| 0 <= j < i - from ==> crate::text::spec_is_digit(#[trigger] digits[j]),
        decreases to - i,
    {
        let c = v[i];
        if !('0' <= c && c <= '9') {
            proof {
                assert(digits[i - from] == v@[i as int]);
            }
            return false;
        }
        i = i + 1;
    }
    true
}

/// Parses the digits of `v` in `[from, to)` as an exponent magnitude,
/// saturating at one million; `None` when empty or not all digits.
fn exp_magnitude(v: &Vec<char>, from: usize, to: usize) -> (r: Option<i64>)
    requires
        from <= to <= v@.len(),
    ensures
        ({
            let body = v@.subrange(from as int, to as int);
            if body.len() > 0 && crate::text::spec_all_digits(body) {
                r == Some(spec_exp_magnitude(body) as i64) && 0 <= spec_exp_magnitude(body)
                    <= 1000000
            } else {
                r is None
            }
        }),
{
    let ghost body = v@.subrange(from as int, to as int);
    if from == to {
        return None;
    }
    if !all_digits_range(v, from, to) {
        return None;
    }
    let mut acc: i64 = 0;
    let mut i: usize = from;
    proof {
        assert(body.take(0) =~= Seq::<char>::empty());
        crate::text::lemma_digits_val_nonneg(body);
    }
    while i < to
        invariant
            from <= i <= to <= v@.len(),
            body == v@.subrange(from as int, to as int),
            crate::text::spec_all_digits(body),
            0 <= acc <= 1000000,
            acc == if crate::text::spec_digits_val(body.take(i - from)) > 1000000 {
                1000000int
            } else {
                crate::text::spec_digits_val(body.take(i - from))
            },
        decreases to - i,
    {
        let c = v[i];
        proof {
            assert(body[i - from] == v@[i as int]);
            let p = body.take(i - from + 1);
            assert(p.drop_last() =~= body.take(i - from));
            assert(p.last() == body[i - from]);
            assert(crate::text::spec_all_digits(body.take(i - from)));
            crate::text::lemma_digits_val_nonneg(body.take(i - from));
            crate::text::lemma_digits_val_nonneg(p);
        }
        let d: i64 = (c as u8 - 48) as i64;
        if acc > 1000000 - 1 {
            acc = 1000000;
        } else if acc * 10 + d > 1000000 {
            acc = 1000000;
        } else {
            acc = acc * 10 + d;
        }
        proof {
            let p = body.take(i - from + 1);
            let prev = crate::text::spec_digits_val(body.take(i - from));
            assert(crate::text::spec_digits_val(p) == prev * 10 + crate::text::spec_digit_val(
                body[i - from],
            ));
            if prev > 1000000 {
                assert(prev * 10 >= prev) by (nonlinear_arith)
                    requires
                        prev >= 0,
                ;
            } else if prev >= 100001 {
                assert(prev * 10 + crate::text::spec_digit_val(body[i - from]) > 1000000)
                    by (nonlinear_arith)
                    requires
                        prev >= 100001,
                        crate::text::spec_digit_val(body[i - from]) >= 0,
                ;
            }
        }
        i = i + 1;
    }
    proof {
        assert(body.take(to - from) =~= body);
    }
    Some(acc)
}

/// Parses the exponent literal of `v` in `[from, to)`: an optional sign,
/// then digits, saturating per `spec_parse_exp`.
fn parse_exp_range(v: &Vec<char>, from: usize, to: usize) -> (r: Option<i64>)
    requires
        from <= to <= v@.len(),
    ensures
        ({
            let s = v@.subrange(from as int, to as int);
            match spec_parse_exp(s) {
                Some(e) => r == Some(e as i64) && -1000000 <= e <= 1000000,
                None => r is None,
            }
        }),
{
    let ghost s = v@.subrange(from as int, to as int);
    let nv = v.len();
    if from == to {
        return None;
    }
    let c0 = v[from];
    proof {
        assert(s[0] == v@[from as int]);
    }
    if c0 == '-' {
        proof {
            assert(s.skip(1) =~= v@.subrange(from + 1 as int, to as int));
        }
        match exp_magnitude(v, from + 1, to) {
            Some(m) => Some(-m),
            None => None,
        }
    } else if c0 == '+' {
        proof {
            assert(s.skip(1) =~= v@.subrange(from + 1 as int, to as int));
        }
        exp_magnitude(v, from + 1, to)
    } else {
        proof {
            assert(s =~= v@.subrange(from as int, to as int));
        }
        exp_magnitude(v, from, to)
    }
}

/// Parses a decimal literal per `spec_parse_decimal`.
#[verifier::rlimit(100)]
fn parse_decimal_chars(v: &Vec<char>) -> (r: Option<crate::value::Decimal>)
    ensures
        r == spec_parse_decimal(v@),
{
    let n = v.len();
    let neg = n > 0 && v[0] == '-';
    let start: usize = if n > 0 && (v[0] == '-' || v[0] == '+') {
        1
    } else {
        0
    };
    let ghost body = v@.skip(start as int);
    proof {
        if start == 0 {
            assert(body =~= v@);
        }
    }
    let body_vec = crate::text::subrange_chars(v, start, n);
    proof {
        assert(body_vec@ =~= body);
    }
    let (mant_end, exp_val): (usize, Option<i64>) = match first_exp_index(&body_vec) {
        Some(e) => {
            proof {
                assert(body.skip(e + 1) =~= body_vec@.subrange(e + 1 as int, body_vec@.len() as int));
            }
            match parse_exp_range(&body_vec, e + 1, body_vec.len()) {
                Some(x) => (e, Some(x)),
                None => (e, None),
            }
        },
        None => (body_vec.len(), Some(0)),
    };
    let ghost mant_txt = body.take(mant_end as int);
    proof {
        if spec_first_exp_index(body) is None {
            assert(mant_txt =~= body);
        }
    }
    if exp_val.is_none() {
        return None;
    }
    let exp_lit = exp_val.unwrap();
    let (ipart_end, frac_start): (usize, usize) = {
        let mant_vec = crate::text::subrange_chars(&body_vec, 0, mant_end);
        proof {
            assert(mant_vec@ =~= mant_txt);
        }
        match crate::text::first_index_of(&mant_vec, '.') {
            Some(d) => (d, d + 1),
            None => (mant_end, mant_end),
        }
    };
    let ghost ipart = mant_txt.take(ipart_end as int);
    let ghost fpart = mant_txt.skip(frac_start as int);
    proof {
        if crate::text::spec_first_index_of(mant_txt, '.') is None {
            assert(ipart =~= mant_txt);
            assert(fpart =~= Seq::<char>::empty());
        }
        assert(ipart =~= body_vec@.subrange(0, ipart_end as int));
        assert(fpart =~= body_vec@.subrange(frac_start as int, mant_end as int));
        assert(spec_first_index_of_matches(mant_txt, ipart, fpart, ipart_end as int, frac_start as int));
    }
    if !all_digits_range(&body_vec, 0, ipart_end) {
        return None;
    }
    if !all_digits_range(&body_vec, frac_start, mant_end) {
        return None;
    }
    let ilen = ipart_end;
    let flen = mant_end - frac_start;
    if ilen + flen < 1 {
        return None;
    }
    // Fold the integer digits, then continue into the fraction digits.
    let ghost digits = ipart + fpart;
    let digits_vec = {
        let mut d = crate::text::subrange_chars(&body_vec, 0, ipart_end);
        let mut f = crate::text::subrange_chars(&body_vec, frac_start, mant_end);
        d.append(&mut f);
        d
    };
    proof {
        assert(digits_vec@ =~= digits);
        assert(digits_vec@.subrange(0, digits_vec@.len() as int) =~= digits);
        assert(crate::text::spec_all_digits(digits));
    }
    let (m, used) = mant_fold(&digits_vec, 0, digits_vec.len());
    // The exponent: unconsumed integer digits raise it, consumed fraction
    // digits lower it, and the literal exponent adds on.
    let shift: i128 = ilen as i128 - used as i128;
    let total: i128 = shift + exp_lit as i128;
    let clamped: i128 = if total > 1000000000 {
        1000000000
    } else if total < -1000000000 {
        -1000000000
    } else {
        total
    };
    let mantissa: i64 = if neg {
        -m
    } else {
        m
    };
    proof {
        lemma_mant_fold_bounds(digits, 0);
    }
    Some(crate::value::Decimal { mantissa, exp: clamped as i32 })
}

/// The parts named by the first `.` of a mantissa text (helper predicate for
/// the decimal parser's proof).
pub open spec fn spec_first_index_of_matches(
    mant_txt: Seq<char>,
    ipart: Seq<char>,
    fpart: Seq<char>,
    ipart_end: int,
    frac_start: int,
) -> bool {
    match crate::text::spec_first_index_of(mant_txt, '.') {
        Some(d) => ipart_end == d && frac_start == d + 1 && ipart == mant_txt.take(d) && fpart
            == mant_txt.skip(d + 1),
        None => ipart_end == mant_txt.len() && frac_start == mant_txt.len() && ipart == mant_txt
            && fpart == Seq::<char>::empty(),
    }
}

/// What a numeric literal means: a signed 64-bit integer when it parses as
/// one, else an unsigned 64-bit integer, else an exact decimal, else nothing.
pub open spec fn spec_parse_number(s: Seq<char>) -> Option<crate::value::Number> {
    if crate::text::spec_parse_i64(s) is Some {
        Some(crate::value::Number::I64(crate::text::spec_parse_i64(s)->0))
    } else if crate::text::spec_parse_u64(s) is Some {
        Some(crate::value::Number::U64(crate::text::spec_parse_u64(s)->0))
    } else if spec_parse_decimal(s) is Some {
        Some(crate::value::Number::Decimal(spec_parse_decimal(s)->0))
    } else {
        None
    }
}

/// Parses a numeric literal with integer priority: signed, then unsigned,
/// then exact decimal.
pub fn parse_number_chars(v: &Vec<char>) -> (r: Option<crate::value::Number>)
    ensures
        r == spec_parse_number(v@),
{
    match crate::text::parse_i64_chars(v) {
        Some(n) => Some(crate::value::Number::I64(n)),
        None => match crate::text::parse_u64_chars(v) {
            Some(n) => Some(crate::value::Number::U64(n)),
            None => match parse_decimal_chars(v) {
                Some(d) => Some(crate::value::Number::Decimal(d)),
                None => None,
            },
        },
    }
}

/// The input with every trailing `Z` removed, as `trim_end_matches('Z')`
/// does it.
pub open spec fn spec_strip_z(s: Seq<char>) -> Seq<char>
    decreases s.len(),
{
    if s.len() > 0 && s.last() == 'Z' {
        spec_strip_z(s.drop_last())
    } else {
        s
    }
}

/// A `u32` literal, per `str::parse::<u32>`.
pub open spec fn spec_u32_of(s: Seq<char>) -> Option<u32> {
    match crate::text::spec_parse_uint(s) {
        Some(n) => if n <= u32::MAX {
            Some(n as u32)
        } else {
            None
        },
        None => None,
    }
}

/// An `i32` literal, per `str::parse::<i32>`.
pub open spec fn spec_i32_of(s: Seq<char>) -> Option<i32> {
    match crate::text::spec_parse_int(s) {
        Some(n) => if i32::MIN <= n <= i32::MAX {
            Some(n as i32)
        } else {
            None
        },
        None => None,
    }
}

/// The epoch milliseconds of midnight on a calendar date: defined when the
/// date is valid and the product fits a signed 64-bit value.
pub open spec fn spec_date_ms(y: int, mo: int, d: int) -> Option<i64> {
    if crate::calendar::spec_ymd_valid(y, mo, d) {
        let ms = crate::calendar::spec_days_from_ymd(y, mo, d) * 86400000;
        if i64::MIN <= ms <= i64::MAX {
            Some(ms as i64)
        } else {
            None
        }
    } else {
        None
    }
}

/// What a date-only timestamp literal (`YYYY-MM-DD`) means: exactly three
/// `-`-separated parts, a signed year and in-range month and day numbers,
/// converted through the calendar day count.
pub open spec fn spec_date_only(s: Seq<char>) -> Option<i64> {
    let parts = crate::text::spec_split(s, '-');
    if parts.len() != 3 {
        None
    } else {
        match (spec_i32_of(parts[0]), spec_u32_of(parts[1]), spec_u32_of(parts[2])) {
            (Some(y), Some(mo), Some(d)) => if 1 <= mo <= 12 && 1 <= d <= 31 {
                spec_date_ms(y as int, mo as int, d as int)
            } else {
                None
            },
            _ => None,
        }
    }
}

/// What a datetime literal (`YYYY-MM-DDTHH:MM:SS[.fff][Z]`) means: trailing
/// `Z`s are stripped, the rest splits into a date and a time on `T`, seconds
/// may carry an ignored fraction, and the fields must be in range.
pub open spec fn spec_datetime(s: Seq<char>) -> Option<i64> {
    let t = spec_strip_z(s);
    let parts = crate::text::spec_split(t, 'T');
    if parts.len() != 2 {
        None
    } else {
        let dparts = crate::text::spec_split(parts[0], '-');
        let tparts = crate::text::spec_split(parts[1], ':');
        if dparts.len() != 3 || tparts.len() != 3 {
            None
        } else {
            let sec_txt = crate::text::spec_split(tparts[2], '.')[0];
            match (
                spec_i32_of(dparts[0]),
                spec_u32_of(dparts[1]),
                spec_u32_of(dparts[2]),
                spec_u32_of(tparts[0]),
                spec_u32_of(tparts[1]),
                spec_u32_of(sec_txt),
            ) {
                (Some(y), Some(mo), Some(d), Some(h), Some(mi), Some(sec)) => if 1 <= mo <= 12 && 1
                    <= d <= 31 && h < 24 && mi < 60 && sec < 60
                    && crate::calendar::spec_ymd_valid(y as int, mo as int, d as int) {
                    let base = crate::calendar::spec_days_from_ymd(y as int, mo as int, d as int)
                        * 86400000;
                    let ms = base + (h * 3600 + mi * 60 + sec) * 1000;
                    if i64::MIN <= base && ms <= i64::MAX {
                        Some(ms as i64)
                    } else {
                        None
                    }
                } else {
                    None
                },
                _ => None,
            }
        }
    }
}

/// What a timestamp literal means, in priority order: a bare integer is
/// epoch milliseconds; then a date-only literal; then a datetime literal;
/// then a bare four-character year, as midnight UTC of its January 1st.
pub open spec fn spec_parse_timestamp(s: Seq<char>) -> Option<i64> {
    if crate::text::spec_parse_i64(s) is Some {
        Some(crate::text::spec_parse_i64(s)->0)
    } else if spec_date_only(s) is Some {
        spec_date_only(s)
    } else if spec_datetime(s) is Some {
        spec_datetime(s)
    } else if s.len() == 4 && spec_i32_of(s) is Some {
        Some((crate::calendar::spec_days_from_year(spec_i32_of(s)->0 as int) * 86400000) as i64)
    } else {
        None
    }
}

/// The largest day count whose millisecond value fits a signed 64-bit value.
const MAX_EPOCH_DAYS: i64 = 106751991167;

/// Multiplies a day count by the milliseconds of a day, or nothing when the
/// product leaves the signed 64-bit range.
fn days_to_ms(days: i64) -> (r: Option<i64>)
    ensures
        ({
            let ms = days * 86400000;
            if i64::MIN <= ms <= i64::MAX {
                r == Some(ms as i64)
            } else {
                r is None
            }
        }),
{
    if days > MAX_EPOCH_DAYS || days < -MAX_EPOCH_DAYS {
        proof {
            assert(days > 106751991167 ==> days * 86400000 > i64::MAX) by (nonlinear_arith);
            assert(days < -106751991167 ==> days * 86400000 < i64::MIN) by (nonlinear_arith);
        }
        None
    } else {
        proof {
            assert(-106751991167 <= days <= 106751991167 ==> i64::MIN <= days * 86400000
                <= i64::MAX) by (nonlinear_arith);
        }
        Some(days * 86400000)
    }
}

/// The `i`-th segment of splitting `v` on `sep`, as a character vector (the
/// exec counterpart of indexing `spec_split`).
fn split_segment(parts: &Vec<Vec<char>>, i: usize, ghost_src: Ghost<Seq<char>>, sep: char) -> (r:
    &Vec<char>)
    requires
        parts@.map_values(|x: Vec<char>| x@) == crate::text::spec_split(ghost_src@, sep),
        i < parts@.len(),
    ensures
        r@ == crate::text::spec_split(ghost_src@, sep)[i as int],
{
    proof {
        assert(crate::text::spec_split(ghost_src@, sep)[i as int] == parts@.map_values(
            |x: Vec<char>| x@,
        )[i as int]);
    }
    &parts[i]
}

/// Parses a date-only literal per `spec_date_only`.
fn date_only_chars(v: &Vec<char>) -> (r: Option<i64>)
    ensures
        r == spec_date_only(v@),
{
    let parts = crate::text::split_chars(v, '-');
    if parts.len() != 3 {
        return None;
    }
    let y = match crate::text::parse_i32_chars(split_segment(&parts, 0, Ghost(v@), '-')) {
        Some(y) => y,
        None => {
            return None;
        },
    };
    let mo = match crate::text::parse_u32_chars(split_segment(&parts, 1, Ghost(v@), '-')) {
        Some(mo) => mo,
        None => {
            return None;
        },
    };
    let d = match crate::text::parse_u32_chars(split_segment(&parts, 2, Ghost(v@), '-')) {
        Some(d) => d,
        None => {
            return None;
        },
    };
    if !(1 <= mo && mo <= 12) || !(1 <= d && d <= 31) {
        return None;
    }
    match crate::calendar::days_from_ymd(y, mo, d) {
        Some(days) => days_to_ms(days),
        None => None,
    }
}

/// Strips every trailing `Z`.
fn strip_z_chars(v: &Vec<char>) -> (r: Vec<char>)
    ensures
        r@ == spec_strip_z(v@),
{
    let mut hi: usize = v.len();
    proof {
        assert(v@.take(v@.len() as int) =~= v@);
    }
    while hi > 0 && v[hi - 1] == 'Z'
        invariant
            hi <= v@.len(),
            spec_strip_z(v@) == spec_strip_z(v@.take(hi as int)),
        decreases hi,
    {
        proof {
            let cur = v@.take(hi as int);
            assert(cur.last() == v@[hi - 1]);
            assert(cur.drop_last() =~= v@.take(hi - 1 as int));
        }
        hi = hi - 1;
    }
    proof {
        let cur = v@.take(hi as int);
        if hi > 0 {
            assert(cur.last() == v@[hi - 1]);
        }
        assert(spec_strip_z(cur) == cur);
    }
    crate::text::subrange_chars(v, 0, hi)
}

/// Parses a datetime literal per `spec_datetime`.
#[verifier::rlimit(50)]
fn datetime_chars(v: &Vec<char>) -> (r: Option<i64>)
    ensures
        r == spec_datetime(v@),
{
    let t = strip_z_chars(v);
    let parts = crate::text::split_chars(&t, 'T');
    if parts.len() != 2 {
        return None;
    }
    let date_part = split_segment(&parts, 0, Ghost(t@), 'T');
    let dparts = crate::text::split_chars(date_part, '-');
    let time_part = split_segment(&parts, 1, Ghost(t@), 'T');
    let tparts = crate::text::split_chars(time_part, ':');
    if dparts.len() != 3 || tparts.len() != 3 {
        return None;
    }
    let sec_split = crate::text::split_chars(split_segment(&tparts, 2, Ghost(time_part@), ':'), '.');
    let sec_txt = split_segment(
        &sec_split,
        0,
        Ghost(crate::text::spec_split(time_part@, ':')[2]),
        '.',
    );
    let y = match crate::text::parse_i32_chars(split_segment(&dparts, 0, Ghost(date_part@), '-')) {
        Some(y) => y,
        None => {
            return None;
        },
    };
    let mo = match crate::text::parse_u32_chars(split_segment(&dparts, 1, Ghost(date_part@), '-')) {
        Some(mo) => mo,
        None => {
            return None;
        },
    };
    let d = match crate::text::parse_u32_chars(split_segment(&dparts, 2, Ghost(date_part@), '-')) {
        Some(d) => d,
        None => {
            return None;
        },
    };
    let h = match crate::text::parse_u32_chars(split_segment(&tparts, 0, Ghost(time_part@), ':')) {
        Some(h) => h,
        None => {
            return None;
        },
    };
    let mi = match crate::text::parse_u32_chars(split_segment(&tparts, 1, Ghost(time_part@), ':')) {
        Some(mi) => mi,
        None => {
            return None;
        },
    };
    let sec = match crate::text::parse_u32_chars(sec_txt) {
        Some(sec) => sec,
        None => {
            return None;
        },
    };
    if !(1 <= mo && mo <= 12) || !(1 <= d && d <= 31) || h >= 24 || mi >= 60 || sec >= 60 {
        return None;
    }
    let days = match crate::calendar::days_from_ymd(y, mo, d) {
        Some(days) => days,
        None => {
            return None;
        },
    };
    let sec_ms: i64 = (h as i64 * 3600 + mi as i64 * 60 + sec as i64) * 1000;
    match days_to_ms(days) {
        Some(base) => {
            if base <= i64::MAX - sec_ms {
                Some(base + sec_ms)
            } else {
                None
            }
        },
        None => None,
    }
}

/// Parses a timestamp literal per `spec_parse_timestamp`: epoch milliseconds,
/// a date, a datetime, or a bare four-character year.
fn parse_timestamp_chars(v: &Vec<char>) -> (r: Option<i64>)
    ensures
        r == spec_parse_timestamp(v@),
{
    match crate::text::parse_i64_chars(v) {
        Some(ms) => {
            return Some(ms);
        },
        None => {},
    }
    match date_only_chars(v) {
        Some(ms) => {
            return Some(ms);
        },
        None => {},
    }
    match datetime_chars(v) {
        Some(ms) => {
            return Some(ms);
        },
        None => {},
    }
    if v.len() == 4 {
        match crate::text::parse_i32_chars(v) {
            Some(y) => {
                proof {
                    lemma_four_char_year_bounds(v@);
                    crate::calendar::lemma_days_from_year_bound(spec_i32_of(v@)->0 as int);
                }
                let days = crate::calendar::days_from_year(y);
                return Some(days * 86400000);
            },
            None => {},
        }
    }
    None
}

/// A year parsed from a four-character literal lies between -999 and 9999,
/// so its day count times the milliseconds of a day fits easily.
proof fn lemma_four_char_year_bounds(s: Seq<char>)
    requires
        s.len() == 4,
        spec_i32_of(s) is Some,
    ensures
        -999 <= spec_i32_of(s)->0 <= 9999,
{
    let body = if s.len() > 0 && (s[0] == '-' || s[0] == '+') {
        s.skip(1)
    } else {
        s
    };
    assert(body.len() <= 4);
    if crate::text::spec_parse_int(s) is Some {
        crate::text::lemma_digits_val_upper(body);
        crate::text::lemma_digits_val_nonneg(body);
        crate::value::lemma_pow10_vals();
        assert(crate::value::pow10(4) == 10000) by {
            assert(crate::value::pow10(0) == 1);
            assert(crate::value::pow10(1) == 10);
            assert(crate::value::pow10(2) == 100);
            assert(crate::value::pow10(3) == 1000);
        }
        crate::value::lemma_pow10_mono(body.len(), 4);
    }
}

/// The trimmed tokens of a comma-separated enum list.
pub open spec fn spec_enum_tokens(s: Seq<char>) -> Seq<Seq<char>> {
    crate::text::spec_split(s, ',').map_values(|t: Seq<char>| crate::text::spec_trim(t))
}

/// Resolves one enum token: a numeric discriminant parses directly, anything
/// else is handed to the schema's variant resolver.
fn parse_single_enum<S: SeekerSchema>(token: &Vec<char>, field: &str) -> (r: Option<u32>)
    ensures
        spec_u32_of(token@) is Some ==> r == Some(spec_u32_of(token@)->0),
        r is None ==> spec_u32_of(token@) is None,
{
    match crate::text::parse_u32_chars(token) {
        Some(n) => Some(n),
        None => {
            let owned = chars_string(token);
            S::resolve_enum_variant(field, owned.as_str())
        },
    }
}

/// What `parse_value` promises, by field type. For enum fields the schema's
/// variant resolver takes part, so only the numeric tokens' outcomes are
/// functions of the input: those are pinned down, and an all-numeric input is
/// promised to succeed.
pub open spec fn spec_value_outcome(
    r: ParseResult<crate::value::ClauseValue>,
    value: Seq<char>,
    field: Seq<char>,
    field_type: SeekType,
    op: Op,
) -> bool {
    match field_type {
        SeekType::String => if op == Op::Regex {
            &&& (r is Ok <==> crate::value::regex_valid(value))
            &&& (r matches Ok(cv) ==> (cv matches crate::value::ClauseValue::Regex(rv)
                && rv.pattern@ == value && rv.wf()))
            &&& (r matches Err(e) ==> (e matches ParseError::InvalidRegex {
                field: f,
                pattern,
                ..
            } && f@ == field && pattern@ == value))
        } else {
            r matches Ok(cv) && (cv matches crate::value::ClauseValue::String(s) && s@ == value)
        },
        SeekType::Number => match spec_parse_number(value) {
            Some(n) => r matches Ok(cv) && (cv matches crate::value::ClauseValue::Number(m) && m
                == n),
            None => r matches Err(e) && (e matches ParseError::InvalidValue {
                field: f,
                value: v,
                expected,
                ..
            } && f@ == field && v@ == value && expected == SeekType::Number),
        },
        SeekType::Timestamp => match spec_parse_timestamp(value) {
            Some(ms) => r matches Ok(cv) && (cv matches crate::value::ClauseValue::Timestamp(t)
                && t.0 == ms),
            None => r matches Err(e) && (e matches ParseError::InvalidValue {
                field: f,
                value: v,
                expected,
                ..
            } && f@ == field && v@ == value && expected == SeekType::Timestamp),
        },
        SeekType::Enum => if op == Op::In {
            let toks = spec_enum_tokens(value);
            &&& (r matches Ok(cv) ==> (cv matches crate::value::ClauseValue::EnumSet(ds)
                && ds@.len() == toks.len() && (forall|j: int|
                0 <= j < toks.len() && spec_u32_of(#[trigger] toks[j]) is Some ==> ds@[j]
                    == spec_u32_of(toks[j])->0)))
            &&& ((forall|j: int| 0 <= j < toks.len() ==> spec_u32_of(#[trigger] toks[j]) is Some)
                ==> r is Ok)
            &&& (r matches Err(e) ==> (e matches ParseError::InvalidValue {
                field: f,
                expected,
                ..
            } && f@ == field && expected == SeekType::Enum))
        } else {
            &&& (spec_u32_of(value) is Some ==> (r matches Ok(cv) && (cv
                matches crate::value::ClauseValue::Enum(d) && d == spec_u32_of(value)->0)))
            &&& (r matches Ok(cv) ==> cv is Enum)
            &&& (r matches Err(e) ==> (e matches ParseError::InvalidValue {
                field: f,
                value: v,
                expected,
                ..
            } && f@ == field && v@ == value && expected == SeekType::Enum))
        },
        SeekType::Bool => match spec_parse_bool(value) {
            Some(b) => r matches Ok(cv) && (cv matches crate::value::ClauseValue::Bool(x) && x
                == b),
            None => r matches Err(e) && (e matches ParseError::InvalidValue {
                field: f,
                value: v,
                expected,
                ..
            } && f@ == field && v@ == value && expected == SeekType::Bool),
        },
    }
}

/// Compiles a regular-expression literal: success exactly on valid pattern
/// syntax, with the compiled expression matching what the pattern describes.
fn parse_regex_value(value: &str, field: &str) -> (r: ParseResult<crate::value::ClauseValue>)
    ensures
        r is Ok <==> crate::value::regex_valid(value@),
        r matches Ok(cv) ==> (cv matches crate::value::ClauseValue::Regex(rv) && rv.pattern@
            == value@ && rv.wf()),
        r matches Err(e) ==> (e matches ParseError::InvalidRegex { field: f, pattern, .. } && f@
            == field@ && pattern@ == value@),
{
    match regex::Regex::new(value) {
        Ok(re) => Ok(
            crate::value::ClauseValue::Regex(
                crate::value::RegexValue { pattern: value.to_owned(), compiled: re },
            ),
        ),
        Err(e) => Err(
            ParseError::InvalidRegex {
                field: field.to_owned(),
                pattern: value.to_owned(),
                error: e.to_string(),
            },
        ),
    }
}

/// Parses a literal into a typed clause value for a field: plain text or a
/// compiled pattern for strings, exact numbers, timestamp literals, enum
/// discriminants (a comma-separated set under `In`), or booleans.
#[verifier::rlimit(50)]
pub fn parse_value<S: SeekerSchema>(
    value: &str,
    field: &str,
    field_type: SeekType,
    op: Op,
) -> (r: ParseResult<crate::value::ClauseValue>)
    ensures
        spec_value_outcome(r, value@, field@, field_type, op),
        r matches Ok(cv) ==> cv.wf(),
{
    let chars = str_chars(value);
    match field_type {
        SeekType::String => {
            if op == Op::Regex {
                parse_regex_value(value, field)
            } else {
                Ok(crate::value::ClauseValue::String(value.to_owned()))
            }
        },
        SeekType::Number => match parse_number_chars(&chars) {
            Some(n) => Ok(crate::value::ClauseValue::Number(n)),
            None => Err(
                ParseError::InvalidValue {
                    field: field.to_owned(),
                    value: value.to_owned(),
                    expected: SeekType::Number,
                    reason: "expected integer or decimal number".to_owned(),
                },
            ),
        },
        SeekType::Timestamp => match parse_timestamp_chars(&chars) {
            Some(ms) => Ok(
                crate::value::ClauseValue::Timestamp(crate::value::Timestamp(ms)),
            ),
            None => Err(
                ParseError::InvalidValue {
                    field: field.to_owned(),
                    value: value.to_owned(),
                    expected: SeekType::Timestamp,
                    reason: "expected Unix timestamp (ms), ISO date (YYYY-MM-DD), or datetime".to_owned(),
                },
            ),
        },
        SeekType::Enum => {
            if op == Op::In {
                let ghost toks = spec_enum_tokens(value@);
                let parts = crate::text::split_chars(&chars, ',');
                let mut discs: Vec<u32> = Vec::new();
                let mut i: usize = 0;
                proof {
                    assert(toks.len() == parts@.len());
                }
                while i < parts.len()
                    invariant
                        field_type == SeekType::Enum,
                        op == Op::In,
                        i <= parts@.len(),
                        toks == spec_enum_tokens(value@),
                        toks.len() == parts@.len(),
                        parts@.map_values(|x: Vec<char>| x@) == crate::text::spec_split(
                            value@,
                            ',',
                        ),
                        discs@.len() == i,
                        forall|j: int|
                            0 <= j < i && spec_u32_of(#[trigger] toks[j]) is Some ==> discs@[j]
                                == spec_u32_of(toks[j])->0,
                    decreases parts@.len() - i,
                {
                    proof {
                        assert(parts@.map_values(|x: Vec<char>| x@)[i as int] == parts@[
                            i as int
                        ]@);
                        assert(toks[i as int] == crate::text::spec_trim(
                            crate::text::spec_split(value@, ',')[i as int],
                        ));
                    }
                    let tok = crate::text::trim_chars(&parts[i]);
                    match parse_single_enum::<S>(&tok, field) {
                        Some(d) => {
                            discs.push(d);
                        },
                        None => {
                            return Err(
                                ParseError::InvalidValue {
                                    field: field.to_owned(),
                                    value: value.to_owned(),
                                    expected: SeekType::Enum,
                                    reason: "expected numeric discriminant or variant name".to_owned(),
                                },
                            );
                        },
                    }
                    i = i + 1;
                }
                Ok(crate::value::ClauseValue::EnumSet(discs))
            } else {
                match parse_single_enum::<S>(&chars, field) {
                    Some(d) => Ok(crate::value::ClauseValue::Enum(d)),
                    None => Err(
                        ParseError::InvalidValue {
                            field: field.to_owned(),
                            value: value.to_owned(),
                            expected: SeekType::Enum,
                            reason: "expected numeric discriminant or variant name".to_owned(),
                        },
                    ),
                }
            }
        },
        SeekType::Bool => match parse_bool_chars(&chars) {
            Some(b) => Ok(crate::value::ClauseValue::Bool(b)),
            None => Err(
                ParseError::InvalidValue {
                    field: field.to_owned(),
                    value: value.to_owned(),
                    expected: SeekType::Bool,
                    reason: "expected true/false, 1/0, yes/no, or on/off".to_owned(),
                },
            ),
        },
    }
}

/// The field and direction named by an ordering literal: when the
/// (lower-cased) segment after the last `-` is `asc` or `desc`, that names
/// the direction and the rest names the field; otherwise the whole literal is
/// the field, ascending. A literal that is only a direction leaves an empty
/// field.
pub open spec fn spec_ordering_parts(v: Seq<char>) -> (Seq<char>, crate::query::Dir) {
    match spec_last_index_of(v, '-') {
        Some(i) => {
            let t = spec_lower(v.skip(i + 1));
            if t == "asc"@ {
                (v.take(i), crate::query::Dir::Asc)
            } else if t == "desc"@ {
                (v.take(i), crate::query::Dir::Desc)
            } else {
                (v, crate::query::Dir::Asc)
            }
        },
        None => {
            let t = spec_lower(v);
            if t == "asc"@ {
                (Seq::empty(), crate::query::Dir::Asc)
            } else if t == "desc"@ {
                (Seq::empty(), crate::query::Dir::Desc)
            } else {
                (v, crate::query::Dir::Asc)
            }
        },
    }
}

/// Parses an ordering literal: `field` or `field-asc` ascending, `field-desc`
/// descending; an empty field (including a bare direction word) is an error.
pub fn parse_ordering(value: &str) -> (r: ParseResult<crate::query::OrderBy>)
    ensures
        ({
            let (f, dir) = spec_ordering_parts(value@);
            if f.len() == 0 {
                r matches Err(e) && (e matches ParseError::InvalidOrdering { value: v, .. } && v@
                    == value@)
            } else {
                r matches Ok(o) && (o.field@ == f && o.dir == dir)
            }
        }),
{
    let chars = str_chars(value);
    let n_chars = chars.len();
    let (field_chars, dir): (Vec<char>, crate::query::Dir) = match last_index_of(&chars, '-') {
        Some(i) => {
            let tail_chars = crate::text::subrange_chars(&chars, i + 1, n_chars);
            proof {
                assert(tail_chars@ =~= chars@.skip(i + 1 as int));
            }
            let t = lower_chars(&tail_chars);
            if chars_eq_str(&t, "asc") {
                (crate::text::subrange_chars(&chars, 0, i), crate::query::Dir::Asc)
            } else if chars_eq_str(&t, "desc") {
                (crate::text::subrange_chars(&chars, 0, i), crate::query::Dir::Desc)
            } else {
                (crate::text::subrange_chars(&chars, 0, n_chars), crate::query::Dir::Asc)
            }
        },
        None => {
            let t = lower_chars(&chars);
            if chars_eq_str(&t, "asc") {
                (Vec::new(), crate::query::Dir::Asc)
            } else if chars_eq_str(&t, "desc") {
                (Vec::new(), crate::query::Dir::Desc)
            } else {
                (crate::text::subrange_chars(&chars, 0, n_chars), crate::query::Dir::Asc)
            }
        },
    };
    proof {
        assert(chars@.subrange(0, n_chars as int) =~= chars@);
        assert(chars@.take(chars@.len() as int) =~= chars@);
        assert(field_chars@ == spec_ordering_parts(value@).0);
    }
    if field_chars.len() == 0 {
        Err(
            ParseError::InvalidOrdering {
                value: value.to_owned(),
                reason: "missing field name".to_owned(),
            },
        )
    } else {
        Ok(crate::query::OrderBy { field: chars_string(&field_chars), dir })
    }
}

/// The contracts' mirror of a clause tree: a leaf records the field, the
/// schema type the driver was told, the operator, and the effective literal
/// text — everything the parser decided — while the parsed literal itself is
/// pinned through `spec_value_outcome`.
pub enum QueryShape {
    Leaf { field: Seq<char>, ty: SeekType, op: Op, literal: Seq<char> },
    All(Seq<QueryShape>),
    Any(Seq<QueryShape>),
    Negate(Box<QueryShape>),
}

/// Whether a clause tree realizes a shape: same boolean structure, and each
/// leaf holds the shape's field and operator with a literal that
/// `parse_value` could have produced from the shape's text.
pub open spec fn spec_shape_matches(n: crate::clause::ClauseNode, m: QueryShape) -> bool
    decreases m,
{
    match m {
        QueryShape::Leaf { field, ty, op, literal } => match n {
            crate::clause::ClauseNode::Leaf(c) => c.field@ == field && c.op == op
                && spec_value_outcome(Ok(c.value), literal, field, ty, op),
            _ => false,
        },
        QueryShape::All(ms) => match n {
            crate::clause::ClauseNode::And(cs) => spec_shapes_match(cs@, ms),
            _ => false,
        },
        QueryShape::Any(ms) => match n {
            crate::clause::ClauseNode::Or(cs) => spec_shapes_match(cs@, ms),
            _ => false,
        },
        QueryShape::Negate(b) => match n {
            crate::clause::ClauseNode::Not(nb) => spec_shape_matches(*nb, *b),
            _ => false,
        },
    }
}

/// Pointwise realization of a list of shapes.
pub open spec fn spec_shapes_match(ns: Seq<crate::clause::ClauseNode>, ms: Seq<QueryShape>) -> bool
    decreases ms,
{
    ns.len() == ms.len() && (ms.len() == 0 || (spec_shape_matches(ns[0], ms[0])
        && spec_shapes_match(ns.drop_first(), ms.drop_first())))
}

/// Appending to a matching pair of lists keeps them matching.
proof fn lemma_shapes_match_snoc(
    ns: Seq<crate::clause::ClauseNode>,
    ms: Seq<QueryShape>,
    n: crate::clause::ClauseNode,
    m: QueryShape,
)
    requires
        spec_shapes_match(ns, ms),
        spec_shape_matches(n, m),
    ensures
        spec_shapes_match(ns.push(n), ms.push(m)),
    decreases ms.len(),
{
    if ms.len() == 0 {
        assert(ns.push(n)[0] == n);
        assert(ms.push(m)[0] == m);
        assert(ns.push(n).drop_first() =~= Seq::<crate::clause::ClauseNode>::empty());
        assert(ms.push(m).drop_first() =~= Seq::<QueryShape>::empty());
        assert(spec_shapes_match(
            Seq::<crate::clause::ClauseNode>::empty(),
            Seq::<QueryShape>::empty(),
        ));
        assert(spec_shapes_match(ns.push(n), ms.push(m)));
    } else {
        lemma_shapes_match_snoc(ns.drop_first(), ms.drop_first(), n, m);
        assert(ns.push(n)[0] == ns[0]);
        assert(ms.push(m)[0] == ms[0]);
        assert(ns.push(n).drop_first() =~= ns.drop_first().push(n));
        assert(ms.push(m).drop_first() =~= ms.drop_first().push(m));
        assert(spec_shapes_match(ns.push(n), ms.push(m)));
    }
}

/// A one- or two-element list of realizations, element by element.
proof fn lemma_shapes_match_two(
    a: crate::clause::ClauseNode,
    b: crate::clause::ClauseNode,
    ma: QueryShape,
    mb: QueryShape,
)
    requires
        spec_shape_matches(a, ma),
        spec_shape_matches(b, mb),
    ensures
        spec_shapes_match(seq![a, b], seq![ma, mb]),
        spec_shapes_match(seq![b], seq![mb]),
{
    assert(spec_shapes_match(
        Seq::<crate::clause::ClauseNode>::empty(),
        Seq::<QueryShape>::empty(),
    ));
    assert(seq![b][0] == b);
    assert(seq![mb][0] == mb);
    assert(seq![b].drop_first() =~= Seq::<crate::clause::ClauseNode>::empty());
    assert(seq![mb].drop_first() =~= Seq::<QueryShape>::empty());
    assert(spec_shapes_match(seq![b], seq![mb]));
    assert(seq![a, b][0] == a);
    assert(seq![ma, mb][0] == ma);
    assert(seq![a, b].drop_first() =~= seq![b]);
    assert(seq![ma, mb].drop_first() =~= seq![mb]);
    assert(spec_shapes_match(seq![a, b], seq![ma, mb]));
}

/// The parser's accumulator as the contracts see it: the shape of the tree
/// built so far, the orderings appended so far, the last limit and offset,
/// and the clause-group register.
pub struct DriverState {
    pub shape: QueryShape,
    pub order: Seq<(Seq<char>, crate::query::Dir)>,
    pub limit: Option<usize>,
    pub offset: Option<usize>,
    pub group: ClauseGroup,
}

/// The driver's starting state: an empty conjunction, no orderings, no
/// pagination, the register at `And`.
pub open spec fn spec_initial_state() -> DriverState {
    DriverState {
        shape: QueryShape::All(Seq::empty()),
        order: Seq::empty(),
        limit: None,
        offset: None,
        group: ClauseGroup::And,
    }
}

/// The group a marker key (upper-cased exactly `AND`, `OR` or `NOT`) sets.
pub open spec fn spec_group_marker(key: Seq<char>) -> Option<ClauseGroup> {
    let u = crate::text::spec_upper(key);
    if u == "AND"@ {
        Some(ClauseGroup::And)
    } else if u == "OR"@ {
        Some(ClauseGroup::Or)
    } else if u == "NOT"@ {
        Some(ClauseGroup::Not)
    } else {
        None
    }
}

/// Whether a key (lower-cased) appends an ordering.
pub open spec fn spec_is_order_key(key: Seq<char>) -> bool {
    let l = spec_lower(key);
    l == "order"@ || l == "orderby"@ || l == "order-by"@ || l == "sort"@
}

/// Whether a key (lower-cased) sets the limit.
pub open spec fn spec_is_limit_key(key: Seq<char>) -> bool {
    spec_lower(key) == "limit"@
}

/// Whether a key (lower-cased) sets the offset.
pub open spec fn spec_is_offset_key(key: Seq<char>) -> bool {
    let l = spec_lower(key);
    l == "offset"@ || l == "skip"@
}

/// The literal the value parser actually sees: an empty value for a boolean
/// field stands for `true` (the bare-flag convention).
pub open spec fn spec_effective_value(v: Seq<char>, t: SeekType) -> Seq<char> {
    if t == SeekType::Bool && v.len() == 0 {
        "true"@
    } else {
        v
    }
}

/// Whether a literal parses for a field type, where that is a function of
/// the input alone: `None` exactly where the schema's variant resolver
/// decides (a non-numeric enum token).
pub open spec fn spec_value_decided(v: Seq<char>, t: SeekType, op: Op) -> Option<bool> {
    match t {
        SeekType::String => Some(op != Op::Regex || crate::value::regex_valid(v)),
        SeekType::Number => Some(spec_parse_number(v) is Some),
        SeekType::Timestamp => Some(spec_parse_timestamp(v) is Some),
        SeekType::Bool => Some(spec_parse_bool(v) is Some),
        SeekType::Enum => if op == Op::In {
            let toks = spec_enum_tokens(v);
            if forall|j: int| 0 <= j < toks.len() ==> spec_u32_of(#[trigger] toks[j]) is Some {
                Some(true)
            } else {
                None
            }
        } else {
            if spec_u32_of(v) is Some {
                Some(true)
            } else {
                None
            }
        },
    }
}

/// The kind of a parse error, with the values it carries set aside.
#[derive(Debug, Clone, Copy, PartialEq, Eq, Structural)]
pub enum ParseErrorKind {
    UnknownField,
    InvalidOperator,
    InvalidValue,
    InvalidRegex,
    InvalidOrdering,
    InvalidLimit,
    UnknownOperator,
}

/// The kind of a parse error.
pub open spec fn spec_error_kind(e: ParseError) -> ParseErrorKind {
    match e {
        ParseError::UnknownField { .. } => ParseErrorKind::UnknownField,
        ParseError::InvalidOperator { .. } => ParseErrorKind::InvalidOperator,
        ParseError::InvalidValue { .. } => ParseErrorKind::InvalidValue,
        ParseError::InvalidRegex { .. } => ParseErrorKind::InvalidRegex,
        ParseError::InvalidOrdering { .. } => ParseErrorKind::InvalidOrdering,
        ParseError::InvalidLimit { .. } => ParseErrorKind::InvalidLimit,
        ParseError::UnknownOperator { .. } => ParseErrorKind::UnknownOperator,
    }
}

/// Folding a new clause into the shape under `And` semantics, mirroring the
/// builder: appended to a top-level conjunction, else conjoined whole.
pub open spec fn spec_shape_and(root: QueryShape, n: QueryShape) -> QueryShape {
    match root {
        QueryShape::All(ms) => QueryShape::All(ms.push(n)),
        _ => QueryShape::All(seq![root, n]),
    }
}

/// Folding a new clause into the shape under `Or` semantics, mirroring the
/// builder: appended to a top-level disjunction; a fresh empty conjunction
/// is replaced by the disjunction of the clause alone; anything else is
/// disjoined whole.
pub open spec fn spec_shape_or(root: QueryShape, n: QueryShape) -> QueryShape {
    match root {
        QueryShape::Any(ms) => QueryShape::Any(ms.push(n)),
        QueryShape::All(ms) => if ms.len() == 0 {
            QueryShape::Any(seq![n])
        } else {
            QueryShape::Any(seq![root, n])
        },
        _ => QueryShape::Any(seq![root, n]),
    }
}

/// One step of the query driver on a (key, value) pair, given the schema's
/// field-type answer `ft` and, where only the schema's variant resolver can
/// decide, whether the value parsed (`ok`): markers set the group register;
/// the special keys append an ordering or set pagination; every other key
/// names a field whose clause is folded in under the register — or the step
/// fails with the error the driver reports.
pub open spec fn spec_step(
    st: DriverState,
    key: Seq<char>,
    value: Seq<char>,
    ft: Option<SeekType>,
    ok: bool,
) -> Result<DriverState, ParseErrorKind> {
    match spec_group_marker(key) {
        Some(g) => Ok(DriverState { group: g, ..st }),
        None => if spec_is_order_key(key) {
            let (f, d) = spec_ordering_parts(value);
            if f.len() == 0 {
                Err(ParseErrorKind::InvalidOrdering)
            } else {
                Ok(DriverState { order: st.order.push((f, d)), ..st })
            }
        } else if spec_is_limit_key(key) {
            match crate::text::spec_parse_uint(value) {
                Some(n) => if n <= usize::MAX {
                    Ok(DriverState { limit: Some(n as usize), ..st })
                } else {
                    Err(ParseErrorKind::InvalidLimit)
                },
                None => Err(ParseErrorKind::InvalidLimit),
            }
        } else if spec_is_offset_key(key) {
            match crate::text::spec_parse_uint(value) {
                Some(n) => if n <= usize::MAX {
                    Ok(DriverState { offset: Some(n as usize), ..st })
                } else {
                    Err(ParseErrorKind::InvalidLimit)
                },
                None => Err(ParseErrorKind::InvalidLimit),
            }
        } else {
            let (field, kop) = spec_parse_key(key);
            match ft {
                None => Err(ParseErrorKind::UnknownField),
                Some(t) => {
                    let op = match kop {
                        Some(o) => o,
                        None => crate::schema::spec_default_operator(t),
                    };
                    if !crate::schema::spec_valid_operator(t, op) {
                        Err(ParseErrorKind::InvalidOperator)
                    } else {
                        let eff = spec_effective_value(value, t);
                        if !ok {
                            Err(
                                if t == SeekType::String && op == Op::Regex {
                                    ParseErrorKind::InvalidRegex
                                } else {
                                    ParseErrorKind::InvalidValue
                                },
                            )
                        } else {
                            let leaf = QueryShape::Leaf { field, ty: t, op, literal: eff };
                            let shape = match st.group {
                                ClauseGroup::And => spec_shape_and(st.shape, leaf),
                                ClauseGroup::Or => spec_shape_or(st.shape, leaf),
                                ClauseGroup::Not => spec_shape_and(
                                    st.shape,
                                    QueryShape::Negate(Box::new(leaf)),
                                ),
                            };
                            Ok(DriverState { shape, ..st })
                        }
                    }
                },
            }
        },
    }
}

/// The driver folded over the pairs from index `i` on.
pub open spec fn spec_drive(
    pairs: Seq<(Seq<char>, Seq<char>)>,
    fts: Seq<Option<SeekType>>,
    oks: Seq<bool>,
    i: int,
    st: DriverState,
) -> Result<DriverState, (int, ParseErrorKind)>
    decreases pairs.len() - i,
{
    if i < 0 || i >= pairs.len() {
        Ok(st)
    } else {
        match spec_step(st, pairs[i].0, pairs[i].1, fts[i], oks[i]) {
            Ok(st2) => spec_drive(pairs, fts, oks, i + 1, st2),
            Err(k) => Err((i, k)),
        }
    }
}

/// The oracle bits agree with the input wherever the input decides: on a
/// clause pair whose field type the schema answered, `ok` equals the
/// decidable parse outcome (the schema's variant resolver is free).
pub open spec fn spec_oracle_ok_at(
    key: Seq<char>,
    value: Seq<char>,
    ft: Option<SeekType>,
    ok: bool,
) -> bool {
    (spec_group_marker(key) is None && !spec_is_order_key(key) && !spec_is_limit_key(key)
        && !spec_is_offset_key(key) && ft is Some) ==> {
        let t = ft->0;
        let (field, kop) = spec_parse_key(key);
        let op = match kop {
            Some(o) => o,
            None => crate::schema::spec_default_operator(t),
        };
        crate::schema::spec_valid_operator(t, op) ==> match spec_value_decided(
            spec_effective_value(value, t),
            t,
            op,
        ) {
            Some(b) => ok == b,
            None => true,
        }
    }
}

/// Pointwise oracle agreement over a pair list.
pub open spec fn spec_oracles_ok(
    pairs: Seq<(Seq<char>, Seq<char>)>,
    fts: Seq<Option<SeekType>>,
    oks: Seq<bool>,
) -> bool {
    forall|i: int|
        0 <= i < pairs.len() ==> spec_oracle_ok_at(
            (#[trigger] pairs[i]).0,
            pairs[i].1,
            fts[i],
            oks[i],
        )
}

/// The query a driver state describes: the tree realizes the shape and the
/// ordering, limit and offset are the state's.
pub open spec fn spec_query_of_state(q: crate::query::Query, st: DriverState) -> bool {
    &&& spec_shape_matches(q.spec_root(), st.shape)
    &&& q.spec_order() == st.order
    &&& q.spec_limit() == st.limit
    &&& q.spec_offset() == st.offset
}

/// Driving the whole list equals driving a prefix and continuing from the
/// state it reached; an error in the prefix is the whole drive's error.
proof fn lemma_drive_prefix(
    pairs: Seq<(Seq<char>, Seq<char>)>,
    fts: Seq<Option<SeekType>>,
    oks: Seq<bool>,
    j: int,
    i: int,
    st: DriverState,
)
    requires
        0 <= j <= i <= pairs.len(),
        fts.len() == pairs.len(),
        oks.len() == pairs.len(),
    ensures
        ({
            let pre = spec_drive(pairs.take(i), fts.take(i), oks.take(i), j, st);
            match pre {
                Ok(st2) => spec_drive(pairs, fts, oks, j, st) == spec_drive(pairs, fts, oks, i, st2),
                Err(ik) => spec_drive(pairs, fts, oks, j, st) == Err::<DriverState, (
                    int,
                    ParseErrorKind,
                )>(ik),
            }
        }),
    decreases i - j,
{
    if j == i {
        assert(spec_drive(pairs.take(i), fts.take(i), oks.take(i), j, st) == Ok::<DriverState, (
            int,
            ParseErrorKind,
        )>(st));
    } else {
        assert(pairs.take(i)[j] == pairs[j]);
        assert(fts.take(i)[j] == fts[j]);
        assert(oks.take(i)[j] == oks[j]);
        match spec_step(st, pairs[j].0, pairs[j].1, fts[j], oks[j]) {
            Ok(st2) => {
                lemma_drive_prefix(pairs, fts, oks, j + 1, i, st2);
            },
            Err(k) => {},
        }
    }
}

/// A node realizing `om` folded with a node realizing `nm` under `And`
/// semantics realizes the folded shape.
proof fn lemma_shape_append_and(
    old_root: crate::clause::ClauseNode,
    new_root: crate::clause::ClauseNode,
    n: crate::clause::ClauseNode,
    om: QueryShape,
    nm: QueryShape,
)
    requires
        spec_shape_matches(old_root, om),
        spec_shape_matches(n, nm),
        crate::query::spec_and_appended(old_root, new_root, n),
    ensures
        spec_shape_matches(new_root, spec_shape_and(om, nm)),
{
    match om {
        QueryShape::All(ms) => {
            assert(old_root is And);
            assert(spec_shapes_match(crate::query::spec_and_children(old_root), ms));
            lemma_shapes_match_snoc(crate::query::spec_and_children(old_root), ms, n, nm);
            assert(crate::query::spec_and_children(new_root)
                == crate::query::spec_and_children(old_root).push(n));
        },
        _ => {
            assert(!(old_root is And));
            assert(crate::query::spec_and_children(new_root) == seq![old_root, n]);
            lemma_shapes_match_two(old_root, n, om, nm);
        },
    }
}

/// A node realizing `om` folded with a node realizing `nm` under `Or`
/// semantics realizes the folded shape.
proof fn lemma_shape_append_or(
    old_root: crate::clause::ClauseNode,
    new_root: crate::clause::ClauseNode,
    n: crate::clause::ClauseNode,
    om: QueryShape,
    nm: QueryShape,
)
    requires
        spec_shape_matches(old_root, om),
        spec_shape_matches(n, nm),
        crate::query::spec_or_appended(old_root, new_root, n),
    ensures
        spec_shape_matches(new_root, spec_shape_or(om, nm)),
{
    match om {
        QueryShape::Any(ms) => {
            assert(old_root is Or);
            assert(spec_shapes_match(crate::query::spec_or_children(old_root), ms));
            lemma_shapes_match_snoc(crate::query::spec_or_children(old_root), ms, n, nm);
            assert(crate::query::spec_or_children(new_root)
                == crate::query::spec_or_children(old_root).push(n));
        },
        QueryShape::All(ms) => {
            assert(old_root is And);
            assert(spec_shapes_match(crate::query::spec_and_children(old_root), ms));
            assert(crate::query::spec_and_children(old_root).len() == ms.len());
            if ms.len() == 0 {
                assert(crate::query::spec_empty_root(old_root));
                assert(crate::query::spec_or_children(new_root) == seq![n]);
                lemma_shapes_match_two(old_root, n, om, nm);
            } else {
                assert(!crate::query::spec_empty_root(old_root));
                assert(crate::query::spec_or_children(new_root) == seq![old_root, n]);
                lemma_shapes_match_two(old_root, n, om, nm);
            }
        },
        _ => {
            assert(!(old_root is Or) && !(old_root is And));
            assert(crate::query::spec_or_children(new_root) == seq![old_root, n]);
            lemma_shapes_match_two(old_root, n, om, nm);
        },
    }
}

/// Where the parse outcome is a function of the input, it decides `Ok`-ness,
/// and a failure's error kind follows the field type.
proof fn lemma_value_outcome_decided(
    r: ParseResult<crate::value::ClauseValue>,
    v: Seq<char>,
    field: Seq<char>,
    t: SeekType,
    op: Op,
)
    requires
        spec_value_outcome(r, v, field, t, op),
    ensures
        match spec_value_decided(v, t, op) {
            Some(b) => (r is Ok) == b,
            None => true,
        },
        !(r is Ok) ==> (r matches Err(e) && spec_error_kind(e) == (
        if t == SeekType::String && op == Op::Regex {
            ParseErrorKind::InvalidRegex
        } else {
            ParseErrorKind::InvalidValue
        })),
{
    assert(spec_value_outcome(r, v, field, t, op));
    match t {
        SeekType::String => {
            if op == Op::Regex {
                assert(r is Ok <==> crate::value::regex_valid(v));
            } else {
                assert(r is Ok);
            }
        },
        SeekType::Number => {
            match spec_parse_number(v) {
                Some(n) => {
                    assert(r is Ok);
                },
                None => {
                    assert(r is Err);
                },
            }
        },
        SeekType::Timestamp => {
            match spec_parse_timestamp(v) {
                Some(ms) => {
                    assert(r is Ok);
                },
                None => {
                    assert(r is Err);
                },
            }
        },
        SeekType::Bool => {
            match spec_parse_bool(v) {
                Some(b) => {
                    assert(r is Ok);
                },
                None => {
                    assert(r is Err);
                },
            }
        },
        SeekType::Enum => {
            if op == Op::In {
                let toks = spec_enum_tokens(v);
                if forall|j: int| 0 <= j < toks.len() ==> spec_u32_of(#[trigger] toks[j]) is Some {
                    assert(r is Ok);
                }
            } else {
                if spec_u32_of(v) is Some {
                    assert(r is Ok);
                }
            }
        },
    }
}

/// Handles one clause pair: looks the field up in the schema, settles the
/// operator, applies the bare-flag convention, parses the literal and folds
/// the clause into the query under the group register. The outcome is one
/// driver step for this pair's schema answers.
#[verifier::rlimit(100)]
fn apply_clause_pair<S: SeekerSchema>(
    query: crate::query::Query,
    group: ClauseGroup,
    key: &String,
    value: &String,
    Ghost(st): Ghost<DriverState>,
) -> (r: Result<crate::query::Query, ParseError>)
    requires
        query.wf(),
        spec_query_of_state(query, st),
        group == st.group,
        spec_group_marker(key@) is None,
        !spec_is_order_key(key@),
        !spec_is_limit_key(key@),
        !spec_is_offset_key(key@),
    ensures
        exists|ft: Option<SeekType>, ok: bool|
            spec_oracle_ok_at(key@, value@, ft, ok) && match r {
                Ok(q2) => q2.wf() && spec_step(st, key@, value@, ft, ok) is Ok
                    && spec_query_of_state(q2, spec_step(st, key@, value@, ft, ok)->Ok_0),
                Err(e) => spec_step(st, key@, value@, ft, ok) == Err::<
                    DriverState,
                    ParseErrorKind,
                >(spec_error_kind(e)),
            },
{
    let (field, parsed_op) = parse_key(key.as_str());
    let field_type = match S::field_type(field.as_str()) {
        Some(t) => t,
        None => {
            proof {
                let ft: Option<SeekType> = None;
                assert(spec_oracle_ok_at(key@, value@, ft, true));
                assert(spec_step(st, key@, value@, ft, true) == Err::<
                    DriverState,
                    ParseErrorKind,
                >(ParseErrorKind::UnknownField));
            }
            return Err(ParseError::UnknownField { field, available: S::field_names() });
        },
    };
    let op = match parsed_op {
        Some(op) => op,
        None => field_type.default_operator(),
    };
    if !field_type.is_valid_operator(op) {
        proof {
            assert(spec_oracle_ok_at(key@, value@, Some(field_type), true));
            assert(spec_step(st, key@, value@, Some(field_type), true) == Err::<
                DriverState,
                ParseErrorKind,
            >(ParseErrorKind::InvalidOperator));
        }
        return Err(
            ParseError::InvalidOperator { field, operator: op.as_str().to_owned(), field_type },
        );
    }
    // A boolean field given as a bare flag (empty value) means "true".
    let effective: &str = if value.as_str().is_empty() && field_type == SeekType::Bool {
        "true"
    } else {
        value.as_str()
    };
    proof {
        assert(effective@ == spec_effective_value(value@, field_type));
    }
    let vr = parse_value::<S>(effective, field.as_str(), field_type, op);
    proof {
        lemma_value_outcome_decided(vr, effective@, field@, field_type, op);
        assert(spec_oracle_ok_at(key@, value@, Some(field_type), vr is Ok));
    }
    let clause_value = match vr {
        Ok(cv) => cv,
        Err(e) => {
            proof {
                assert(spec_oracle_ok_at(key@, value@, Some(field_type), false));
                assert(spec_step(st, key@, value@, Some(field_type), false) == Err::<
                    DriverState,
                    ParseErrorKind,
                >(spec_error_kind(e)));
            }
            return Err(e);
        },
    };
    let ghost leaf_shape = QueryShape::Leaf {
        field: field@,
        ty: field_type,
        op,
        literal: effective@,
    };
    let ghost old_root = query.spec_root();
    let q2 = match group {
        ClauseGroup::And => query.and(field.as_str(), op, clause_value),
        ClauseGroup::Or => query.or(field.as_str(), op, clause_value),
        ClauseGroup::Not => query.not(field.as_str(), op, clause_value),
    };
    proof {
        match st.group {
            ClauseGroup::And => {
                let n = choose|n: crate::clause::ClauseNode|
                    crate::query::spec_is_leaf(n, field@, op, clause_value)
                        && crate::query::spec_and_appended(old_root, q2.spec_root(), n);
                assert(spec_shape_matches(n, leaf_shape));
                lemma_shape_append_and(old_root, q2.spec_root(), n, st.shape, leaf_shape);
            },
            ClauseGroup::Or => {
                let n = choose|n: crate::clause::ClauseNode|
                    crate::query::spec_is_leaf(n, field@, op, clause_value)
                        && crate::query::spec_or_appended(old_root, q2.spec_root(), n);
                assert(spec_shape_matches(n, leaf_shape));
                lemma_shape_append_or(old_root, q2.spec_root(), n, st.shape, leaf_shape);
            },
            ClauseGroup::Not => {
                let n = choose|n: crate::clause::ClauseNode|
                    crate::query::spec_is_not_leaf(n, field@, op, clause_value)
                        && crate::query::spec_and_appended(old_root, q2.spec_root(), n);
                let neg = QueryShape::Negate(Box::new(leaf_shape));
                assert(spec_shape_matches(n, neg)) by {
                    match n {
                        crate::clause::ClauseNode::Not(nb) => {
                            assert(crate::query::spec_is_leaf(*nb, field@, op, clause_value));
                            assert(spec_shape_matches(*nb, leaf_shape));
                        },
                        _ => {
                            assert(false);
                        },
                    }
                }
                lemma_shape_append_and(old_root, q2.spec_root(), n, st.shape, neg);
            },
        }
        assert(spec_oracle_ok_at(key@, value@, Some(field_type), true));
        assert(spec_step(st, key@, value@, Some(field_type), true) is Ok);
        assert(spec_query_of_state(
            q2,
            spec_step(st, key@, value@, Some(field_type), true)->Ok_0,
        ));
    }
    Ok(q2)
}

/// Parses key-value pairs into a built [`Query`](crate::query::Query), in
/// order. The keys `AND`, `OR` and `NOT` (any case) set the clause group for
/// the clauses after them; `order`/`orderby`/`order-by`/`sort` append an
/// ordering; `limit`, `offset` and `skip` set pagination, last write wins;
/// every other key names a schema field, optionally with an operator suffix.
/// Parsing is fail-fast: the first error is returned and no partial query
/// comes back.
///
/// The contract runs the driver `spec_drive` over the pairs for some list of
/// schema answers consistent with the input (`spec_oracles_ok`): an `Ok`
/// result realizes the driver's final state — tree shape, orderings, limit
/// and offset — and an `Err` result carries exactly the kind of the first
/// failing pair's error.
#[verifier::rlimit(100)]
pub fn parse_query<S: SeekerSchema>(pairs: Vec<(String, String)>) -> (r: ParseResult<
    crate::query::Query,
>)
    ensures
        r matches Ok(q) ==> q.wf(),
        pairs@.len() == 0 ==> (r matches Ok(q) && (crate::query::spec_empty_root(q.spec_root())
            && q.spec_order().len() == 0 && q.spec_limit() is None && q.spec_offset() is None)),
        ({
            let pv = pairs@.map_values(|p: (String, String)| (p.0@, p.1@));
            exists|fts: Seq<Option<SeekType>>, oks: Seq<bool>|
                fts.len() == pv.len() && oks.len() == pv.len() && spec_oracles_ok(pv, fts, oks)
                    && match spec_drive(pv, fts, oks, 0, spec_initial_state()) {
                    Ok(st) => r matches Ok(q) && spec_query_of_state(q, st),
                    Err(ik) => r matches Err(e) && (spec_error_kind(e) == ik.1 && 0 <= ik.0
                        < pv.len()),
                }
        }),
{
    let ghost pv = pairs@.map_values(|p: (String, String)| (p.0@, p.1@));
    let mut query = crate::query::Query::new();
    let mut current_group = ClauseGroup::And;
    let ghost mut st = spec_initial_state();
    let ghost mut fts: Seq<Option<SeekType>> = Seq::empty();
    let ghost mut oks: Seq<bool> = Seq::empty();
    let mut idx: usize = 0;
    proof {
        assert(crate::query::spec_and_children(query.spec_root()) =~= Seq::<
            crate::clause::ClauseNode,
        >::empty());
        assert(spec_shapes_match(
            crate::query::spec_and_children(query.spec_root()),
            Seq::empty(),
        ));
        assert(query.spec_order() =~= st.order);
        assert(pv.take(0) =~= Seq::<(Seq<char>, Seq<char>)>::empty());
        assert(spec_drive(pv.take(0), fts, oks, 0, spec_initial_state()) == Ok::<DriverState, (
            int,
            ParseErrorKind,
        )>(st));
    }
    if pairs.len() == 0 {
        proof {
            assert(pv.len() == 0);
            assert(spec_drive(pv, fts, oks, 0, spec_initial_state()) == Ok::<DriverState, (
                int,
                ParseErrorKind,
            )>(st));
            assert(spec_oracles_ok(pv, fts, oks));
            assert(spec_query_of_state(query, st));
        }
        return Ok(query.build());
    }
    while idx < pairs.len()
        invariant
            idx <= pairs@.len(),
            pv == pairs@.map_values(|p: (String, String)| (p.0@, p.1@)),
            fts.len() == idx,
            oks.len() == idx,
            forall|i: int|
                0 <= i < idx ==> spec_oracle_ok_at((#[trigger] pv[i]).0, pv[i].1, fts[i], oks[i]),
            spec_drive(pv.take(idx as int), fts, oks, 0, spec_initial_state()) == Ok::<
                DriverState,
                (int, ParseErrorKind),
            >(st),
            query.wf(),
            spec_query_of_state(query, st),
            current_group == st.group,
        decreases pairs@.len() - idx,
    {
        let ghost st0 = st;
        let ghost fts0 = fts;
        let ghost oks0 = oks;
        let key: &String = &pairs[idx].0;
        let value: &String = &pairs[idx].1;
        proof {
            assert(pv[idx as int] == (pairs@[idx as int].0@, pairs@[idx as int].1@));
        }
        let key_chars = str_chars(key.as_str());
        let upper = crate::text::upper_chars(&key_chars);
        let marker: Option<ClauseGroup> = if chars_eq_str(&upper, "AND") {
            Some(ClauseGroup::And)
        } else if chars_eq_str(&upper, "OR") {
            Some(ClauseGroup::Or)
        } else if chars_eq_str(&upper, "NOT") {
            Some(ClauseGroup::Not)
        } else {
            None
        };
        match marker {
            Some(g) => {
                current_group = g;
                proof {
                    assert(spec_group_marker(pv[idx as int].0) == Some(g));
                    st = DriverState { group: g, ..st0 };
                    assert(spec_step(st0, pv[idx as int].0, pv[idx as int].1, None, true) == Ok::<
                        DriverState,
                        ParseErrorKind,
                    >(st));
                    assert(spec_oracle_ok_at(pv[idx as int].0, pv[idx as int].1, None, true));
                    fts = fts0.push(None);
                    oks = oks0.push(true);
                    lemma_parse_query_step(pv, fts0, oks0, None, true, idx as int, st0, st);
                }
                idx = idx + 1;
                continue ;
            },
            None => {
                proof {
                    assert(spec_group_marker(pv[idx as int].0) is None);
                }
            },
        }
        let lower = lower_chars(&key_chars);
        let special: Option<SpecialKey> = if chars_eq_str(&lower, "order") || chars_eq_str(
            &lower,
            "orderby",
        ) || chars_eq_str(&lower, "order-by") || chars_eq_str(&lower, "sort") {
            Some(SpecialKey::Ordering)
        } else if chars_eq_str(&lower, "limit") {
            Some(SpecialKey::Limit)
        } else if chars_eq_str(&lower, "offset") || chars_eq_str(&lower, "skip") {
            Some(SpecialKey::Offset)
        } else {
            None
        };
        match special {
            Some(SpecialKey::Ordering) => {
                proof {
                    assert(spec_is_order_key(pv[idx as int].0));
                }
                match parse_ordering(value.as_str()) {
                    Ok(o) => {
                        query = query.order_by(o.field.as_str(), o.dir);
                        proof {
                            let (f, d) = spec_ordering_parts(pv[idx as int].1);
                            st = DriverState { order: st0.order.push((f, d)), ..st0 };
                            assert(spec_step(st0, pv[idx as int].0, pv[idx as int].1, None, true)
                                == Ok::<DriverState, ParseErrorKind>(st));
                            assert(spec_oracle_ok_at(
                                pv[idx as int].0,
                                pv[idx as int].1,
                                None,
                                true,
                            ));
                            fts = fts0.push(None);
                            oks = oks0.push(true);
                            lemma_parse_query_step(pv, fts0, oks0, None, true, idx as int, st0, st);
                        }
                    },
                    Err(e) => {
                        proof {
                            assert(spec_step(st0, pv[idx as int].0, pv[idx as int].1, None, true)
                                == Err::<DriverState, ParseErrorKind>(
                                ParseErrorKind::InvalidOrdering,
                            ));
                            assert(spec_oracle_ok_at(
                                pv[idx as int].0,
                                pv[idx as int].1,
                                None,
                                true,
                            ));
                            lemma_parse_query_stop(
                                pv,
                                fts0,
                                oks0,
                                None,
                                true,
                                idx as int,
                                st0,
                                ParseErrorKind::InvalidOrdering,
                            );
                        }
                        return Err(e);
                    },
                }
            },
            Some(SpecialKey::Limit) => {
                proof {
                    assert(!spec_is_order_key(pv[idx as int].0));
                    assert(spec_is_limit_key(pv[idx as int].0));
                }
                let value_chars = str_chars(value.as_str());
                match crate::text::parse_usize_chars(&value_chars) {
                    Some(n) => {
                        query = query.limit(n);
                        proof {
                            st = DriverState { limit: Some(n), ..st0 };
                            assert(spec_step(st0, pv[idx as int].0, pv[idx as int].1, None, true)
                                == Ok::<DriverState, ParseErrorKind>(st));
                            assert(spec_oracle_ok_at(
                                pv[idx as int].0,
                                pv[idx as int].1,
                                None,
                                true,
                            ));
                            fts = fts0.push(None);
                            oks = oks0.push(true);
                            lemma_parse_query_step(pv, fts0, oks0, None, true, idx as int, st0, st);
                        }
                    },
                    None => {
                        proof {
                            assert(spec_step(st0, pv[idx as int].0, pv[idx as int].1, None, true)
                                == Err::<DriverState, ParseErrorKind>(ParseErrorKind::InvalidLimit));
                            assert(spec_oracle_ok_at(
                                pv[idx as int].0,
                                pv[idx as int].1,
                                None,
                                true,
                            ));
                            lemma_parse_query_stop(
                                pv,
                                fts0,
                                oks0,
                                None,
                                true,
                                idx as int,
                                st0,
                                ParseErrorKind::InvalidLimit,
                            );
                        }
                        return Err(
                            ParseError::InvalidLimit {
                                key: "limit".to_owned(),
                                value: value.clone(),
                            },
                        );
                    },
                }
            },
            Some(SpecialKey::Offset) => {
                proof {
                    assert(!spec_is_order_key(pv[idx as int].0));
                    assert(!spec_is_limit_key(pv[idx as int].0));
                    assert(spec_is_offset_key(pv[idx as int].0));
                }
                let value_chars = str_chars(value.as_str());
                match crate::text::parse_usize_chars(&value_chars) {
                    Some(n) => {
                        query = query.offset(n);
                        proof {
                            st = DriverState { offset: Some(n), ..st0 };
                            assert(spec_step(st0, pv[idx as int].0, pv[idx as int].1, None, true)
                                == Ok::<DriverState, ParseErrorKind>(st));
                            assert(spec_oracle_ok_at(
                                pv[idx as int].0,
                                pv[idx as int].1,
                                None,
                                true,
                            ));
                            fts = fts0.push(None);
                            oks = oks0.push(true);
                            lemma_parse_query_step(pv, fts0, oks0, None, true, idx as int, st0, st);
                        }
                    },
                    None => {
                        proof {
                            assert(spec_step(st0, pv[idx as int].0, pv[idx as int].1, None, true)
                                == Err::<DriverState, ParseErrorKind>(ParseErrorKind::InvalidLimit));
                            assert(spec_oracle_ok_at(
                                pv[idx as int].0,
                                pv[idx as int].1,
                                None,
                                true,
                            ));
                            lemma_parse_query_stop(
                                pv,
                                fts0,
                                oks0,
                                None,
                                true,
                                idx as int,
                                st0,
                                ParseErrorKind::InvalidLimit,
                            );
                        }
                        return Err(
                            ParseError::InvalidLimit {
                                key: "offset".to_owned(),
                                value: value.clone(),
                            },
                        );
                    },
                }
            },
            None => {
                proof {
                    assert(!spec_is_order_key(pv[idx as int].0));
                    assert(!spec_is_limit_key(pv[idx as int].0));
                    assert(!spec_is_offset_key(pv[idx as int].0));
                }
                match apply_clause_pair::<S>(query, current_group, key, value, Ghost(st0)) {
                    Ok(q2) => {
                        query = q2;
                        proof {
                            let (ft, ok) = choose|ft: Option<SeekType>, ok: bool|
                                spec_oracle_ok_at(pv[idx as int].0, pv[idx as int].1, ft, ok)
                                    && spec_step(st0, pv[idx as int].0, pv[idx as int].1, ft, ok)
                                    is Ok && spec_query_of_state(
                                    query,
                                    spec_step(st0, pv[idx as int].0, pv[idx as int].1, ft, ok)->Ok_0,
                                );
                            st = spec_step(st0, pv[idx as int].0, pv[idx as int].1, ft, ok)->Ok_0;
                            fts = fts0.push(ft);
                            oks = oks0.push(ok);
                            lemma_parse_query_step(pv, fts0, oks0, ft, ok, idx as int, st0, st);
                        }
                    },
                    Err(e) => {
                        proof {
                            let (ft, ok) = choose|ft: Option<SeekType>, ok: bool|
                                spec_oracle_ok_at(pv[idx as int].0, pv[idx as int].1, ft, ok)
                                    && spec_step(st0, pv[idx as int].0, pv[idx as int].1, ft, ok)
                                    == Err::<DriverState, ParseErrorKind>(spec_error_kind(e));
                            lemma_parse_query_stop(
                                pv,
                                fts0,
                                oks0,
                                ft,
                                ok,
                                idx as int,
                                st0,
                                spec_error_kind(e),
                            );
                        }
                        return Err(e);
                    },
                }
            },
        }
        idx = idx + 1;
    }
    proof {
        assert(pv.take(pv.len() as int) =~= pv);
        assert(spec_drive(pv, fts, oks, 0, spec_initial_state()) == Ok::<DriverState, (
            int,
            ParseErrorKind,
        )>(st));
        assert(spec_oracles_ok(pv, fts, oks));
        assert(spec_query_of_state(query, st));
    }
    Ok(query.build())
}

/// Which special key a pair's lower-cased key is.
enum SpecialKey {
    Ordering,
    Limit,
    Offset,
}

/// Extending the driven prefix by one pair that steps cleanly drives the
/// longer prefix to the step's state.
proof fn lemma_parse_query_step(
    pv: Seq<(Seq<char>, Seq<char>)>,
    fts0: Seq<Option<SeekType>>,
    oks0: Seq<bool>,
    ft: Option<SeekType>,
    ok: bool,
    idx: int,
    st0: DriverState,
    st: DriverState,
)
    requires
        0 <= idx < pv.len(),
        fts0.len() == idx,
        oks0.len() == idx,
        spec_drive(pv.take(idx), fts0, oks0, 0, spec_initial_state()) == Ok::<DriverState, (
            int,
            ParseErrorKind,
        )>(st0),
        spec_step(st0, pv[idx].0, pv[idx].1, ft, ok) == Ok::<DriverState, ParseErrorKind>(st),
    ensures
        spec_drive(pv.take(idx + 1), fts0.push(ft), oks0.push(ok), 0, spec_initial_state())
            == Ok::<DriverState, (int, ParseErrorKind)>(st),
{
    let sub = pv.take(idx + 1);
    let fts = fts0.push(ft);
    let oks = oks0.push(ok);
    assert(sub.take(idx) =~= pv.take(idx));
    assert(fts.take(idx) =~= fts0);
    assert(oks.take(idx) =~= oks0);
    lemma_drive_prefix(sub, fts, oks, 0, idx, spec_initial_state());
    assert(sub[idx] == pv[idx]);
    assert(fts[idx] == ft);
    assert(oks[idx] == ok);
    assert(spec_drive(sub, fts, oks, idx, st0) == spec_drive(sub, fts, oks, idx + 1, st));
    assert(spec_drive(sub, fts, oks, idx + 1, st) == Ok::<DriverState, (int, ParseErrorKind)>(st));
}

/// A pair whose step fails — given this pair's oracle answers — makes the
/// whole drive fail there, for the oracles padded out with `None`.
proof fn lemma_parse_query_stop(
    pv: Seq<(Seq<char>, Seq<char>)>,
    fts0: Seq<Option<SeekType>>,
    oks0: Seq<bool>,
    ft: Option<SeekType>,
    ok: bool,
    idx: int,
    st0: DriverState,
    kind: ParseErrorKind,
)
    requires
        0 <= idx < pv.len(),
        fts0.len() == idx,
        oks0.len() == idx,
        spec_drive(pv.take(idx), fts0, oks0, 0, spec_initial_state()) == Ok::<DriverState, (
            int,
            ParseErrorKind,
        )>(st0),
        forall|i: int|
            0 <= i < idx ==> spec_oracle_ok_at((#[trigger] pv[i]).0, pv[i].1, fts0[i], oks0[i]),
        spec_oracle_ok_at(pv[idx].0, pv[idx].1, ft, ok),
        spec_step(st0, pv[idx].0, pv[idx].1, ft, ok) == Err::<DriverState, ParseErrorKind>(kind),
    ensures
        exists|fts: Seq<Option<SeekType>>, oks: Seq<bool>|
            fts.len() == pv.len() && oks.len() == pv.len() && spec_oracles_ok(pv, fts, oks)
                && spec_drive(pv, fts, oks, 0, spec_initial_state()) == Err::<DriverState, (
                int,
                ParseErrorKind,
            )>((idx, kind)),
{
    let pad = pv.len() - idx - 1;
    let fts = fts0.push(ft) + Seq::new(pad as nat, |j: int| Option::<SeekType>::None);
    let oks = oks0.push(ok) + Seq::new(pad as nat, |j: int| true);
    assert(fts.len() == pv.len());
    assert(oks.len() == pv.len());
    assert forall|i: int|
        0 <= i < pv.len() implies spec_oracle_ok_at(
        (#[trigger] pv[i]).0,
        pv[i].1,
        fts[i],
        oks[i],
    ) by {
        if i < idx {
            assert(fts[i] == fts0[i]);
            assert(oks[i] == oks0[i]);
        } else if i == idx {
            assert(fts[i] == ft);
            assert(oks[i] == ok);
        } else {
            assert(fts[i] is None);
        }
    }
    assert(spec_oracles_ok(pv, fts, oks));
    assert(fts.take(idx) =~= fts0);
    assert(oks.take(idx) =~= oks0);
    lemma_drive_prefix(pv, fts, oks, 0, idx, spec_initial_state());
    assert(fts[idx] == ft);
    assert(oks[idx] == ok);
    assert(spec_drive(pv, fts, oks, idx, st0) == Err::<DriverState, (int, ParseErrorKind)>(
        (idx, kind),
    ));
    assert(spec_drive(pv, fts, oks, 0, spec_initial_state()) == Err::<DriverState, (
        int,
        ParseErrorKind,
    )>((idx, kind)));
}

} // verus!
