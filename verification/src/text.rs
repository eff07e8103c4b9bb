//! Character-sequence helpers shared by the parser and the evaluator.
//!
//! All parsing in this crate works over `Vec<char>`, whose view is the same
//! `Seq<char>` that `&str` and `String` views use, so contracts can be stated
//! uniformly over character sequences.

use vstd::prelude::*;

verus! {

/// ASCII lower-casing of one character; everything outside 'A'..='Z' is
/// kept, non-ASCII letters included.
pub open spec fn spec_lower_char(c: char) -> char {
    if 'A' <= c && c <= 'Z' {
        (((c as u8) + 32) as char)
    } else {
        c
    }
}

/// ASCII upper-casing of one character; everything outside 'a'..='z' is
/// kept, non-ASCII letters included.
pub open spec fn spec_upper_char(c: char) -> char {
    if 'a' <= c && c <= 'z' {
        (((c as u8) - 32) as char)
    } else {
        c
    }
}

/// ASCII lower-casing of a character sequence.
pub open spec fn spec_lower(s: Seq<char>) -> Seq<char> {
    s.map_values(|c: char| spec_lower_char(c))
}

/// ASCII upper-casing of a character sequence.
pub open spec fn spec_upper(s: Seq<char>) -> Seq<char> {
    s.map_values(|c: char| spec_upper_char(c))
}

/// The characters with the Unicode `White_Space` property.
pub open spec fn spec_is_space(c: char) -> bool {
    ||| c == '\u{9}'
    ||| c == '\u{a}'
    ||| c == '\u{b}'
    ||| c == '\u{c}'
    ||| c == '\u{d}'
    ||| c == ' '
    ||| c == '\u{85}'
    ||| c == '\u{a0}'
    ||| c == '\u{1680}'
    ||| ('\u{2000}' <= c && c <= '\u{200a}')
    ||| c == '\u{2028}'
    ||| c == '\u{2029}'
    ||| c == '\u{202f}'
    ||| c == '\u{205f}'
    ||| c == '\u{3000}'
}

/// Decimal digit test.
pub open spec fn spec_is_digit(c: char) -> bool {
    '0' <= c && c <= '9'
}

/// Numeric value of a decimal digit.
pub open spec fn spec_digit_val(c: char) -> int {
    c as int - 48
}

/// Whether every character of `s` is a decimal digit.
pub open spec fn spec_all_digits(s: Seq<char>) -> bool {
    forall|i: int| 0 <= i < s.len() ==> spec_is_digit(#[trigger] s[i])
}

/// Value of a sequence of decimal digits, most significant first.
pub open spec fn spec_digits_val(s: Seq<char>) -> int
    decreases s.len(),
{
    if s.len() == 0 {
        0
    } else {
        spec_digits_val(s.drop_last()) * 10 + spec_digit_val(s.last())
    }
}

/// Collects the characters of a `&str` into a vector.
pub fn str_chars(s: &str) -> (v: Vec<char>)
    ensures
        v@ == s@,
{
    let n = s.unicode_len();
    let mut v: Vec<char> = Vec::new();
    let mut i: usize = 0;
    while i < n
        invariant
            i <= n,
            n == s@.len(),
            v@ == s@.take(i as int),
        decreases n - i,
    {
        v.push(s.get_char(i));
        proof {
            assert(v@ =~= s@.take(i + 1 as int));
        }
        i = i + 1;
    }
    proof {
        assert(v@ =~= s@);
    }
    v
}

/// Builds a `String` from a vector of characters.
///
/// Relies on `String`'s `FromIterator` implementation: collecting characters
/// yields a string with exactly those characters in order.
#[verifier::external_body]
pub fn chars_string(v: &Vec<char>) -> (s: String)
    ensures
        s@ == v@,
{
    v.iter().collect()
}

/// ASCII-lower-cases a character vector.
pub fn lower_chars(v: &Vec<char>) -> (r: Vec<char>)
    ensures
        r@ == spec_lower(v@),
{
    let mut r: Vec<char> = Vec::new();
    let mut i: usize = 0;
    while i < v.len()
        invariant
            i <= v@.len(),
            r@ == spec_lower(v@.take(i as int)),
        decreases v@.len() - i,
    {
        let c = v[i];
        if 'A' <= c && c <= 'Z' {
            r.push(((c as u8) + 32) as char);
        } else {
            r.push(c);
        }
        proof {
            assert(r@ =~= spec_lower(v@.take(i + 1 as int)));
        }
        i = i + 1;
    }
    proof {
        assert(v@.take(v@.len() as int) =~= v@);
    }
    r
}

/// ASCII-upper-cases a character vector.
pub fn upper_chars(v: &Vec<char>) -> (r: Vec<char>)
    ensures
        r@ == spec_upper(v@),
{
    let mut r: Vec<char> = Vec::new();
    let mut i: usize = 0;
    while i < v.len()
        invariant
            i <= v@.len(),
            r@ == spec_upper(v@.take(i as int)),
        decreases v@.len() - i,
    {
        let c = v[i];
        if 'a' <= c && c <= 'z' {
            r.push(((c as u8) - 32) as char);
        } else {
            r.push(c);
        }
        proof {
            assert(r@ =~= spec_upper(v@.take(i + 1 as int)));
        }
        i = i + 1;
    }
    proof {
        assert(v@.take(v@.len() as int) =~= v@);
    }
    r
}

/// Compares a character vector against a string slice.
pub fn chars_eq_str(v: &Vec<char>, s: &str) -> (r: bool)
    ensures
        r == (v@ == s@),
{
    let n = s.unicode_len();
    if v.len() != n {
        return false;
    }
    let mut i: usize = 0;
    while i < n
        invariant
            i <= n,
            n == s@.len(),
            n == v@.len(),
            forall|j: int| 0 <= j < i ==> v@[j] == s@[j],
        decreases n - i,
    {
        if v[i] != s.get_char(i) {
            return false;
        }
        i = i + 1;
    }
    proof {
        assert(v@ =~= s@);
    }
    true
}

/// Compares two character vectors.
pub fn chars_eq(a: &Vec<char>, b: &Vec<char>) -> (r: bool)
    ensures
        r == (a@ == b@),
{
    if a.len() != b.len() {
        return false;
    }
    let mut i: usize = 0;
    while i < a.len()
        invariant
            i <= a@.len(),
            a@.len() == b@.len(),
            forall|j: int| 0 <= j < i ==> a@[j] == b@[j],
        decreases a@.len() - i,
    {
        if a[i] != b[i] {
            return false;
        }
        i = i + 1;
    }
    proof {
        assert(a@ =~= b@);
    }
    true
}

/// Format-level decimal parse of an unsigned literal: an optional leading
/// `+`, then one or more digits. `None` when the shape is wrong; the value is
/// unbounded here, range checks belong to the sized variants.
pub open spec fn spec_parse_uint(s: Seq<char>) -> Option<int> {
    let body = if s.len() > 0 && s[0] == '+' {
        s.skip(1)
    } else {
        s
    };
    if body.len() > 0 && spec_all_digits(body) {
        Some(spec_digits_val(body))
    } else {
        None
    }
}

/// Format-level decimal parse of a signed literal: an optional leading `+` or
/// `-`, then one or more digits.
pub open spec fn spec_parse_int(s: Seq<char>) -> Option<int> {
    if s.len() > 0 && s[0] == '-' {
        let body = s.skip(1);
        if body.len() > 0 && spec_all_digits(body) {
            Some(-spec_digits_val(body))
        } else {
            None
        }
    } else {
        spec_parse_uint(s)
    }
}

/// Decimal parse with `u64` range checking, as `str::parse::<u64>` does it.
pub open spec fn spec_parse_u64(s: Seq<char>) -> Option<u64> {
    match spec_parse_uint(s) {
        Some(v) => if v <= u64::MAX {
            Some(v as u64)
        } else {
            None
        },
        None => None,
    }
}

/// Decimal parse with `i64` range checking, as `str::parse::<i64>` does it.
pub open spec fn spec_parse_i64(s: Seq<char>) -> Option<i64> {
    match spec_parse_int(s) {
        Some(v) => if i64::MIN <= v <= i64::MAX {
            Some(v as i64)
        } else {
            None
        },
        None => None,
    }
}

/// A digit string's value is non-negative.
pub proof fn lemma_digits_val_nonneg(s: Seq<char>)
    requires
        spec_all_digits(s),
    ensures
        spec_digits_val(s) >= 0,
    decreases s.len(),
{
    if s.len() > 0 {
        assert(spec_all_digits(s.drop_last()));
        lemma_digits_val_nonneg(s.drop_last());
    }
}

/// Extending a digit string on the right can only grow its value.
pub proof fn lemma_digits_val_prefix_le(s: Seq<char>, i: int)
    requires
        spec_all_digits(s),
        0 <= i <= s.len(),
    ensures
        spec_digits_val(s.take(i)) <= spec_digits_val(s),
    decreases s.len() - i,
{
    if i < s.len() {
        lemma_digits_val_prefix_le(s, i + 1);
        assert(s.take(i + 1).drop_last() =~= s.take(i));
        assert(spec_all_digits(s.take(i)));
        lemma_digits_val_nonneg(s.take(i));
        assert(spec_digits_val(s.take(i + 1)) == spec_digits_val(s.take(i)) * 10 + spec_digit_val(
            s.take(i + 1).last(),
        ));
        assert(spec_digits_val(s.take(i)) * 10 >= spec_digits_val(s.take(i))) by (nonlinear_arith)
            requires
                spec_digits_val(s.take(i)) >= 0,
        ;
    } else {
        assert(s.take(i) =~= s);
    }
}

/// Parses the digits of `v` from index `from` to the end as a `u64`;
/// `None` when empty, when a non-digit occurs, or when the value overflows.
fn parse_digits_u64(v: &Vec<char>, from: usize) -> (r: Option<u64>)
    requires
        from <= v@.len(),
    ensures
        ({
            let body = v@.skip(from as int);
            if body.len() > 0 && spec_all_digits(body) && spec_digits_val(body) <= u64::MAX {
                r == Some(spec_digits_val(body) as u64)
            } else {
                r is None
            }
        }),
{
    let ghost body = v@.skip(from as int);
    if from == v.len() {
        return None;
    }
    let mut acc: u64 = 0;
    let mut i: usize = from;
    while i < v.len()
        invariant
            from <= i <= v@.len(),
            body == v@.skip(from as int),
            spec_all_digits(body.take(i - from)),
            acc == spec_digits_val(body.take(i - from)),
        decreases v@.len() - i,
    {
        let c = v[i];
        if !('0' <= c && c <= '9') {
            assert(!spec_is_digit(body[i - from]));
            return None;
        }
        let d: u64 = (c as u8 - 48) as u64;
        assert(d == spec_digit_val(body[i - from]));
        if acc > (u64::MAX - d) / 10 {
            // The digits seen so far already exceed the range.
            proof {
                let p = body.take(i - from + 1);
                assert(p.drop_last() =~= body.take(i - from));
                assert(spec_digits_val(p) == acc * 10 + d);
                assert(acc * 10 + d > u64::MAX) by (nonlinear_arith)
                    requires
                        acc > (u64::MAX - d) / 10,
                        0 <= d <= 9,
                ;
                if spec_all_digits(body) {
                    lemma_digits_val_prefix_le(body, i - from + 1);
                }
            }
            return None;
        }
        proof {
            assert(acc * 10 + d <= u64::MAX) by (nonlinear_arith)
                requires
                    acc <= (u64::MAX - d) / 10,
                    0 <= d <= 9,
            ;
            let p = body.take(i - from + 1);
            assert(p.drop_last() =~= body.take(i - from));
            assert(p.last() == body[i - from]);
        }
        acc = acc * 10 + d;
        i = i + 1;
    }
    proof {
        assert(body.take(v@.len() - from) =~= body);
    }
    Some(acc)
}

/// Decimal `u64` parse of a character vector, matching `str::parse::<u64>`:
/// optional `+` sign, then digits, rejected on overflow.
pub fn parse_u64_chars(v: &Vec<char>) -> (r: Option<u64>)
    ensures
        r == spec_parse_u64(v@),
{
    if v.len() > 0 && v[0] == '+' {
        parse_digits_u64(v, 1)
    } else {
        proof {
            assert(v@.skip(0) =~= v@);
        }
        parse_digits_u64(v, 0)
    }
}

/// Decimal `i64` parse of a character vector, matching `str::parse::<i64>`:
/// optional `+` or `-` sign, then digits, rejected on overflow.
pub fn parse_i64_chars(v: &Vec<char>) -> (r: Option<i64>)
    ensures
        r == spec_parse_i64(v@),
{
    if v.len() > 0 && v[0] == '-' {
        proof {
            if spec_all_digits(v@.skip(1)) {
                lemma_digits_val_nonneg(v@.skip(1));
            }
        }
        match parse_digits_u64(v, 1) {
            Some(mag) => {
                if mag <= i64::MAX as u64 {
                    Some(-(mag as i64))
                } else if mag == i64::MAX as u64 + 1 {
                    Some(i64::MIN)
                } else {
                    None
                }
            },
            None => None,
        }
    } else {
        proof {
            if spec_parse_uint(v@) is Some {
                let body = if v@.len() > 0 && v@[0] == '+' {
                    v@.skip(1)
                } else {
                    v@
                };
                lemma_digits_val_nonneg(body);
            }
        }
        match parse_u64_chars(v) {
            Some(mag) => {
                if mag <= i64::MAX as u64 {
                    Some(mag as i64)
                } else {
                    None
                }
            },
            None => None,
        }
    }
}

/// Decimal `u32` parse, matching `str::parse::<u32>`.
pub fn parse_u32_chars(v: &Vec<char>) -> (r: Option<u32>)
    ensures
        ({
            match spec_parse_uint(v@) {
                Some(n) => if n <= u32::MAX {
                    r == Some(n as u32)
                } else {
                    r is None
                },
                None => r is None,
            }
        }),
{
    proof {
        if spec_parse_uint(v@) is Some {
            let body = if v@.len() > 0 && v@[0] == '+' {
                v@.skip(1)
            } else {
                v@
            };
            lemma_digits_val_nonneg(body);
        }
    }
    match parse_u64_chars(v) {
        Some(n) => if n <= u32::MAX as u64 {
            Some(n as u32)
        } else {
            None
        },
        None => None,
    }
}

/// Decimal `i32` parse, matching `str::parse::<i32>`.
pub fn parse_i32_chars(v: &Vec<char>) -> (r: Option<i32>)
    ensures
        ({
            match spec_parse_int(v@) {
                Some(n) => if i32::MIN <= n <= i32::MAX {
                    r == Some(n as i32)
                } else {
                    r is None
                },
                None => r is None,
            }
        }),
{
    match parse_i64_chars(v) {
        Some(n) => if i32::MIN as i64 <= n && n <= i32::MAX as i64 {
            Some(n as i32)
        } else {
            None
        },
        None => None,
    }
}

/// Decimal `usize` parse, matching `str::parse::<usize>`.
pub fn parse_usize_chars(v: &Vec<char>) -> (r: Option<usize>)
    ensures
        ({
            match spec_parse_uint(v@) {
                Some(n) => if n <= usize::MAX {
                    r == Some(n as usize)
                } else {
                    r is None
                },
                None => r is None,
            }
        }),
{
    proof {
        if spec_parse_uint(v@) is Some {
            let body = if v@.len() > 0 && v@[0] == '+' {
                v@.skip(1)
            } else {
                v@
            };
            lemma_digits_val_nonneg(body);
        }
    }
    match parse_u64_chars(v) {
        Some(n) => if n <= usize::MAX as u64 {
            Some(n as usize)
        } else {
            None
        },
        None => None,
    }
}

/// Splitting on a separator character, as `str::split` does it: the result
/// always has one more segment than there are separators, so an empty input
/// gives one empty segment.
pub open spec fn spec_split(s: Seq<char>, sep: char) -> Seq<Seq<char>>
    decreases s.len(),
{
    if s.len() == 0 {
        seq![Seq::<char>::empty()]
    } else if s[0] == sep {
        seq![Seq::<char>::empty()] + spec_split(s.skip(1), sep)
    } else {
        let rest = spec_split(s.skip(1), sep);
        seq![seq![s[0]] + rest[0]] + rest.skip(1)
    }
}

/// A split never yields an empty list of segments.
pub proof fn lemma_split_nonempty(s: Seq<char>, sep: char)
    ensures
        spec_split(s, sep).len() >= 1,
    decreases s.len(),
{
    if s.len() > 0 {
        lemma_split_nonempty(s.skip(1), sep);
    }
}

/// If no separator occurs before position `j`, the first segment of the split
/// is everything up to `j`: the whole string when `j` is its end, else the
/// prefix before the separator at `j`.
proof fn lemma_split_step(s: Seq<char>, sep: char, j: int)
    requires
        0 <= j <= s.len(),
        forall|k: int| 0 <= k < j ==> s[k] != sep,
        j < s.len() ==> s[j] == sep,
    ensures
        j == s.len() ==> spec_split(s, sep) == seq![s],
        j < s.len() ==> spec_split(s, sep) == seq![s.take(j)] + spec_split(s.skip(j + 1), sep),
    decreases j,
{
    if j == 0 {
        if s.len() == 0 {
            assert(spec_split(s, sep) =~~= seq![s]);
        } else {
            assert(s.take(0) =~= Seq::<char>::empty());
            assert(spec_split(s, sep) =~~= seq![s.take(0)] + spec_split(s.skip(1), sep));
        }
    } else {
        let t = s.skip(1);
        lemma_split_step(t, sep, j - 1);
        lemma_split_nonempty(t, sep);
        let rest = spec_split(t, sep);
        if j == s.len() {
            assert(rest == seq![t]);
            assert(rest[0] == t);
            assert(rest.skip(1) =~= Seq::<Seq<char>>::empty());
            assert(seq![s[0]] + t =~= s);
            assert(spec_split(s, sep) =~~= seq![s]);
        } else {
            assert(rest == seq![t.take(j - 1)] + spec_split(t.skip(j), sep));
            assert(rest[0] == t.take(j - 1));
            assert(seq![s[0]] + t.take(j - 1) =~= s.take(j));
            assert(rest.skip(1) =~= spec_split(t.skip(j), sep));
            assert(t.skip(j) =~= s.skip(j + 1));
            assert(spec_split(s, sep) =~~= seq![s.take(j)] + spec_split(s.skip(j + 1), sep));
        }
    }
}

/// Splits a character vector on a separator character.
pub fn split_chars(v: &Vec<char>, sep: char) -> (r: Vec<Vec<char>>)
    ensures
        r@.map_values(|x: Vec<char>| x@) == spec_split(v@, sep),
        r@.len() >= 1,
{
    let mut r: Vec<Vec<char>> = Vec::new();
    let mut pos: usize = 0;
    proof {
        assert(v@.skip(0) =~= v@);
        assert(r@.map_values(|x: Vec<char>| x@) =~= Seq::<Seq<char>>::empty());
        assert(spec_split(v@, sep) =~~= Seq::<Seq<char>>::empty() + spec_split(v@, sep));
    }
    loop
        invariant
            pos <= v@.len(),
            spec_split(v@, sep) == r@.map_values(|x: Vec<char>| x@) + spec_split(
                v@.skip(pos as int),
                sep,
            ),
        decreases v@.len() - pos,
    {
        let mut j: usize = pos;
        while j < v.len() && v[j] != sep
            invariant
                pos <= j <= v@.len(),
                forall|k: int| pos <= k < j ==> v@[k] != sep,
            decreases v@.len() - j,
        {
            j = j + 1;
        }
        let mut segment: Vec<char> = Vec::new();
        let mut k: usize = pos;
        while k < j
            invariant
                pos <= k <= j <= v@.len(),
                segment@ == v@.subrange(pos as int, k as int),
            decreases j - k,
        {
            segment.push(v[k]);
            proof {
                assert(segment@ =~= v@.subrange(pos as int, k + 1 as int));
            }
            k = k + 1;
        }
        let ghost tail = v@.skip(pos as int);
        proof {
            lemma_split_step(tail, sep, j - pos);
            assert(forall|k: int| 0 <= k < j - pos ==> tail[k] != sep);
        }
        r.push(segment);
        if j == v.len() {
            proof {
                assert(tail.len() == j - pos);
                assert(spec_split(tail, sep) == seq![tail]);
                assert(segment@ =~= tail);
                assert(r@.map_values(|x: Vec<char>| x@) =~~= r@.drop_last().map_values(
                    |x: Vec<char>| x@,
                ) + seq![tail]);
                assert(r@.map_values(|x: Vec<char>| x@) =~~= spec_split(v@, sep));
                lemma_split_nonempty(v@, sep);
            }
            return r;
        }
        proof {
            assert(tail.take(j - pos) =~= segment@);
            assert(tail.skip(j - pos + 1) =~= v@.skip(j + 1 as int));
            assert(spec_split(tail, sep) == seq![segment@] + spec_split(v@.skip(j + 1), sep));
            assert(r@.map_values(|x: Vec<char>| x@) =~~= r@.drop_last().map_values(
                |x: Vec<char>| x@,
            ) + seq![segment@]);
        }
        pos = j + 1;
    }
}

/// Trimming Unicode whitespace from both ends, as `str::trim` does it.
pub open spec fn spec_trim(s: Seq<char>) -> Seq<char>
    decreases s.len(),
{
    if s.len() > 0 && spec_is_space(s[0]) {
        spec_trim(s.skip(1))
    } else if s.len() > 0 && spec_is_space(s.last()) {
        spec_trim(s.drop_last())
    } else {
        s
    }
}

/// Whether `c` has the Unicode `White_Space` property.
fn is_space_char(c: char) -> (r: bool)
    ensures
        r == spec_is_space(c),
{
    c == '\u{9}' || c == '\u{a}' || c == '\u{b}' || c == '\u{c}' || c == '\u{d}' || c == ' ' || c
        == '\u{85}' || c == '\u{a0}' || c == '\u{1680}' || ('\u{2000}' <= c && c <= '\u{200a}') || c
        == '\u{2028}' || c == '\u{2029}' || c == '\u{202f}' || c == '\u{205f}' || c == '\u{3000}'
}

/// Removes leading and trailing whitespace.
pub fn trim_chars(v: &Vec<char>) -> (r: Vec<char>)
    ensures
        r@ == spec_trim(v@),
{
    let mut lo: usize = 0;
    let mut hi: usize = v.len();
    proof {
        assert(v@.subrange(0, v@.len() as int) =~= v@);
    }
    while lo < hi && is_space_char(v[lo])
        invariant
            0 <= lo <= hi <= v@.len(),
            hi == v@.len(),
            spec_trim(v@) == spec_trim(v@.subrange(lo as int, hi as int)),
        decreases hi - lo,
    {
        proof {
            let cur = v@.subrange(lo as int, hi as int);
            assert(cur.skip(1) =~= v@.subrange(lo + 1 as int, hi as int));
        }
        lo = lo + 1;
    }
    while lo < hi && is_space_char(v[hi - 1])
        invariant
            0 <= lo <= hi <= v@.len(),
            spec_trim(v@) == spec_trim(v@.subrange(lo as int, hi as int)),
            lo < hi ==> !spec_is_space(v@[lo as int]),
        decreases hi - lo,
    {
        proof {
            let cur = v@.subrange(lo as int, hi as int);
            assert(cur.drop_last() =~= v@.subrange(lo as int, hi - 1 as int));
        }
        hi = hi - 1;
    }
    let mut r: Vec<char> = Vec::new();
    let mut k: usize = lo;
    while k < hi
        invariant
            lo <= k <= hi <= v@.len(),
            r@ == v@.subrange(lo as int, k as int),
        decreases hi - k,
    {
        r.push(v[k]);
        proof {
            assert(r@ =~= v@.subrange(lo as int, k + 1 as int));
        }
        k = k + 1;
    }
    proof {
        let cur = v@.subrange(lo as int, hi as int);
        assert(spec_trim(cur) == cur);
        assert(r@ =~= cur);
    }
    r
}

/// Position of the last occurrence of `c` in `s`.
pub open spec fn spec_last_index_of(s: Seq<char>, c: char) -> Option<int>
    decreases s.len(),
{
    if s.len() == 0 {
        None
    } else if s.last() == c {
        Some(s.len() - 1)
    } else {
        spec_last_index_of(s.drop_last(), c)
    }
}

/// Finds the last occurrence of `c` in `v`.
pub fn last_index_of(v: &Vec<char>, c: char) -> (r: Option<usize>)
    ensures
        match r {
            Some(i) => spec_last_index_of(v@, c) == Some(i as int) && i < v@.len(),
            None => spec_last_index_of(v@, c) is None,
        },
{
    let mut i: usize = v.len();
    proof {
        assert(v@.take(v@.len() as int) =~= v@);
    }
    loop
        invariant
            i <= v@.len(),
            spec_last_index_of(v@, c) == spec_last_index_of(v@.take(i as int), c),
        decreases i,
    {
        if i == 0 {
            return None;
        }
        proof {
            let cur = v@.take(i as int);
            assert(cur.last() == v@[i - 1]);
            assert(cur.drop_last() =~= v@.take(i - 1 as int));
        }
        if v[i - 1] == c {
            return Some(i - 1);
        }
        i = i - 1;
    }
}

/// Whether `p` occurs in `t` starting at position `i`.
pub open spec fn spec_match_at(t: Seq<char>, p: Seq<char>, i: int) -> bool {
    0 <= i && i + p.len() <= t.len() && t.subrange(i, i + p.len()) == p
}

/// Whether `t` starts with `p`.
pub open spec fn spec_starts_with(t: Seq<char>, p: Seq<char>) -> bool {
    spec_match_at(t, p, 0)
}

/// Whether `t` ends with `p`.
pub open spec fn spec_ends_with(t: Seq<char>, p: Seq<char>) -> bool {
    p.len() <= t.len() && spec_match_at(t, p, t.len() - p.len())
}

/// Whether `p` occurs anywhere in `t`.
pub open spec fn spec_contains_seq(t: Seq<char>, p: Seq<char>) -> bool {
    exists|i: int| spec_match_at(t, p, i)
}

/// Compares `p` against the characters of `t` starting at `at`.
fn match_at(t: &Vec<char>, p: &Vec<char>, at: usize) -> (r: bool)
    requires
        at + p@.len() <= t@.len(),
    ensures
        r == spec_match_at(t@, p@, at as int),
{
    let tlen = t.len();
    let mut i: usize = 0;
    while i < p.len()
        invariant
            i <= p@.len(),
            at + p@.len() <= t@.len(),
            tlen == t@.len(),
            forall|j: int| 0 <= j < i ==> t@[at + j] == p@[j],
        decreases p@.len() - i,
    {
        if t[at + i] != p[i] {
            proof {
                assert(t@.subrange(at as int, at + p@.len())[i as int] == t@[at + i]);
            }
            return false;
        }
        i = i + 1;
    }
    proof {
        assert(t@.subrange(at as int, at + p@.len()) =~= p@);
    }
    true
}

/// Whether `t` starts with `p`.
pub fn starts_with_chars(t: &Vec<char>, p: &Vec<char>) -> (r: bool)
    ensures
        r == spec_starts_with(t@, p@),
{
    if p.len() > t.len() {
        return false;
    }
    match_at(t, p, 0)
}

/// Whether `t` ends with `p`.
pub fn ends_with_chars(t: &Vec<char>, p: &Vec<char>) -> (r: bool)
    ensures
        r == spec_ends_with(t@, p@),
{
    if p.len() > t.len() {
        return false;
    }
    match_at(t, p, t.len() - p.len())
}

/// Whether `p` occurs anywhere in `t` (naive scan).
pub fn contains_chars(t: &Vec<char>, p: &Vec<char>) -> (r: bool)
    ensures
        r == spec_contains_seq(t@, p@),
{
    if p.len() > t.len() {
        proof {
            assert(forall|i: int| !spec_match_at(t@, p@, i));
        }
        return false;
    }
    if p.len() == 0 {
        proof {
            assert(t@.subrange(0, 0) =~= p@);
            assert(spec_match_at(t@, p@, 0));
        }
        return true;
    }
    let limit = t.len() - p.len() + 1;
    let mut i: usize = 0;
    while i < limit
        invariant
            1 <= p@.len() <= t@.len(),
            limit == t@.len() - p@.len() + 1,
            i <= limit,
            forall|j: int| 0 <= j < i ==> !spec_match_at(t@, p@, j),
        decreases limit - i,
    {
        if match_at(t, p, i) {
            return true;
        }
        i = i + 1;
    }
    proof {
        assert(forall|j: int| !spec_match_at(t@, p@, j));
    }
    false
}

/// Position of the first occurrence of `c` in `s`.
pub open spec fn spec_first_index_of(s: Seq<char>, c: char) -> Option<int>
    decreases s.len(),
{
    if s.len() == 0 {
        None
    } else if s[0] == c {
        Some(0)
    } else {
        match spec_first_index_of(s.drop_first(), c) {
            Some(i) => Some(i + 1),
            None => None,
        }
    }
}

/// Finds the first occurrence of `c` in `v`.
pub fn first_index_of(v: &Vec<char>, c: char) -> (r: Option<usize>)
    ensures
        match r {
            Some(i) => spec_first_index_of(v@, c) == Some(i as int) && i < v@.len(),
            None => spec_first_index_of(v@, c) is None,
        },
{
    let mut i: usize = 0;
    while i < v.len()
        invariant
            i <= v@.len(),
            forall|j: int| 0 <= j < i ==> v@[j] != c,
        decreases v@.len() - i,
    {
        if v[i] == c {
            proof {
                lemma_first_index_from(v@, c, i as int);
            }
            return Some(i);
        }
        i = i + 1;
    }
    proof {
        lemma_first_index_none(v@, c);
    }
    None
}

/// When nothing before `i` is `c` and `s[i]` is, the first occurrence is `i`.
proof fn lemma_first_index_from(s: Seq<char>, c: char, i: int)
    requires
        0 <= i < s.len(),
        s[i] == c,
        forall|j: int| 0 <= j < i ==> s[j] != c,
    ensures
        spec_first_index_of(s, c) == Some(i),
    decreases i,
{
    if i > 0 {
        lemma_first_index_from(s.drop_first(), c, i - 1);
    }
}

/// When no character is `c`, there is no first occurrence.
proof fn lemma_first_index_none(s: Seq<char>, c: char)
    requires
        forall|j: int| 0 <= j < s.len() ==> s[j] != c,
    ensures
        spec_first_index_of(s, c) is None,
    decreases s.len(),
{
    if s.len() > 0 {
        lemma_first_index_none(s.drop_first(), c);
    }
}

/// Copies the characters of `v` from `from` (inclusive) to `to` (exclusive).
pub fn subrange_chars(v: &Vec<char>, from: usize, to: usize) -> (r: Vec<char>)
    requires
        from <= to <= v@.len(),
    ensures
        r@ == v@.subrange(from as int, to as int),
{
    let mut r: Vec<char> = Vec::new();
    let mut i: usize = from;
    proof {
        assert(r@ =~= v@.subrange(from as int, from as int));
    }
    while i < to
        invariant
            from <= i <= to <= v@.len(),
            r@ == v@.subrange(from as int, i as int),
        decreases to - i,
    {
        r.push(v[i]);
        proof {
            assert(r@ =~= v@.subrange(from as int, i + 1 as int));
        }
        i = i + 1;
    }
    r
}

/// A digit string's value is below ten to the power of its length.
pub proof fn lemma_digits_val_upper(s: Seq<char>)
    requires
        spec_all_digits(s),
    ensures
        spec_digits_val(s) < crate::value::pow10(s.len()),
    decreases s.len(),
{
    crate::value::lemma_pow10_pos(s.len());
    if s.len() > 0 {
        assert(spec_all_digits(s.drop_last()));
        lemma_digits_val_upper(s.drop_last());
        assert(spec_digits_val(s.drop_last()) * 10 + spec_digit_val(s.last()) < crate::value::pow10(
            s.len(),
        )) by (nonlinear_arith)
            requires
                spec_digits_val(s.drop_last()) < crate::value::pow10((s.len() - 1) as nat),
                crate::value::pow10(s.len() as nat) == 10 * crate::value::pow10(
                    (s.len() - 1) as nat,
                ),
                0 <= spec_digit_val(s.last()) <= 9,
        ;
    }
}

} // verus!
