//! Text and color utilities: RGB palette mapping, identifier case
//! conversion, and display-width-aware truncation.

use vstd::prelude::*;

use crate::text::spec_upper_char;

verus! {

/// The ANSI 256-color palette index nearest an RGB triplet: a gray ramp for
/// balanced channels, otherwise the 6x6x6 color cube.
pub open spec fn spec_rgb_to_ansi256(r: int, g: int, b: int) -> int {
    if r == g && g == b {
        if r < 8 {
            16
        } else if r > 248 {
            231
        } else {
            232 + (r - 8) * 24 / 247
        }
    } else {
        16 + 36 * (r * 5 / 255) + 6 * (g * 5 / 255) + (b * 5 / 255)
    }
}

/// Converts an RGB triplet to the nearest ANSI 256-color palette index.
pub fn rgb_to_ansi256(rgb: (u8, u8, u8)) -> (res: u8)
    ensures
        res as int == spec_rgb_to_ansi256(rgb.0 as int, rgb.1 as int, rgb.2 as int),
{
    let (r, g, b) = rgb;
    if r == g && g == b {
        if r < 8 {
            16
        } else if r > 248 {
            231
        } else {
            232 + ((r as u16 - 8) * 24 / 247) as u8
        }
    } else {
        let red = (r as u16 * 5 / 255) as u8;
        let green = (g as u16 * 5 / 255) as u8;
        let blue = (b as u16 * 5 / 255) as u8;
        16 + 36 * red + 6 * green + blue
    }
}

/// Hands an RGB triplet through unchanged, for true-color-aware consumers.
pub fn rgb_to_truecolor(rgb: (u8, u8, u8)) -> (res: (u8, u8, u8))
    ensures
        res == rgb,
{
    rgb
}

/// SCREAMING_SNAKE_CASE conversion, character by character: an ASCII upper
/// case letter gets a `_` before it when the previous character was neither
/// upper case nor a separator; `_` and `-` become `_`; everything else is
/// ASCII-upper-cased. `prev` says whether the previous character was such a
/// plain character.
pub open spec fn spec_scream_from(s: Seq<char>, prev: bool) -> Seq<char>
    decreases s.len(),
{
    if s.len() == 0 {
        Seq::empty()
    } else {
        let c = s[0];
        if 'A' <= c && c <= 'Z' {
            (if prev {
                seq!['_', c]
            } else {
                seq![c]
            }) + spec_scream_from(s.drop_first(), false)
        } else if c == '_' || c == '-' {
            seq!['_'] + spec_scream_from(s.drop_first(), false)
        } else {
            seq![spec_upper_char(c)] + spec_scream_from(s.drop_first(), true)
        }
    }
}

/// Converts an identifier to SCREAMING_SNAKE_CASE: `createdAt` becomes
/// `CREATED_AT`, `my-field` becomes `MY_FIELD`.
pub fn to_screaming_snake_case(s: &str) -> (r: String)
    ensures
        r@ == spec_scream_from(s@, false),
{
    let chars = crate::text::str_chars(s);
    let mut out: Vec<char> = Vec::new();
    let mut prev_was_lower = false;
    let mut i: usize = 0;
    proof {
        assert(chars@.skip(0) =~= chars@);
    }
    while i < chars.len()
        invariant
            i <= chars@.len(),
            spec_scream_from(chars@, false) == out@ + spec_scream_from(
                chars@.skip(i as int),
                prev_was_lower,
            ),
        decreases chars@.len() - i,
    {
        let ghost rest = chars@.skip(i as int);
        proof {
            assert(rest[0] == chars@[i as int]);
            assert(rest.drop_first() =~= chars@.skip(i + 1 as int));
        }
        let c = chars[i];
        if 'A' <= c && c <= 'Z' {
            if prev_was_lower {
                out.push('_');
            }
            out.push(c);
            prev_was_lower = false;
        } else if c == '_' || c == '-' {
            out.push('_');
            prev_was_lower = false;
        } else {
            if 'a' <= c && c <= 'z' {
                out.push(((c as u8) - 32) as char);
            } else {
                out.push(c);
            }
            prev_was_lower = true;
        }
        i = i + 1;
    }
    proof {
        assert(chars@.skip(chars@.len() as int) =~= Seq::<char>::empty());
        assert(out@ =~= spec_scream_from(chars@, false));
    }
    crate::text::chars_string(&out)
}

/// The display width of one character in terminal columns, `None` for a
/// control character.
pub uninterp spec fn char_display_width(c: char) -> Option<usize>;

/// Relies on `unicode_width::UnicodeWidthChar::width`: a character's column
/// width is a function of the character alone.
#[verifier::external_body]
pub fn char_width(c: char) -> (r: Option<usize>)
    ensures
        r == char_display_width(c),
{
    unicode_width::UnicodeWidthChar::width(c)
}

/// The display width of a string in terminal columns.
pub uninterp spec fn str_display_width(s: Seq<char>) -> nat;

/// Relies on `unicode_width::UnicodeWidthStr::width`: a string's column
/// width is a function of its characters alone.
#[verifier::external_body]
pub fn display_width(s: &str) -> (r: usize)
    ensures
        r as nat == str_display_width(s@),
{
    unicode_width::UnicodeWidthStr::width(s)
}

/// The truncated form of a string: characters are kept while their column
/// widths fit the budget, and the first character that does not fit is
/// replaced by an ellipsis. A character without a width counts as zero
/// columns.
pub open spec fn spec_truncated(s: Seq<char>, budget: int) -> Seq<char>
    decreases s.len(),
{
    if s.len() == 0 {
        Seq::empty()
    } else {
        let w = match char_display_width(s[0]) {
            Some(w) => w as int,
            None => 0,
        };
        if w > budget {
            seq!['\u{2026}']
        } else {
            seq![s[0]] + spec_truncated(s.drop_first(), budget - w)
        }
    }
}

/// Truncates a string to fit a maximum display width, appending `…` when
/// anything was cut: the string comes back unchanged when its display width
/// fits, else characters are kept while they fit one column less than the
/// budget (the ellipsis' column).
pub fn truncate_to_width(s: &str, max_width: usize) -> (r: String)
    ensures
        str_display_width(s@) <= max_width ==> r@ == s@,
        str_display_width(s@) > max_width ==> r@ == spec_truncated(
            s@,
            if max_width > 0 {
                max_width - 1
            } else {
                0
            },
        ),
{
    if display_width(s) <= max_width {
        return s.to_owned();
    }
    let chars = crate::text::str_chars(s);
    let mut out: Vec<char> = Vec::new();
    let mut budget: usize = if max_width > 0 {
        max_width - 1
    } else {
        0
    };
    let ghost budget0 = budget as int;
    let mut i: usize = 0;
    proof {
        assert(chars@.skip(0) =~= chars@);
    }
    while i < chars.len()
        invariant
            i <= chars@.len(),
            chars@ == s@,
            str_display_width(s@) > max_width,
            budget0 == if max_width > 0 {
                max_width - 1
            } else {
                0
            },
            spec_truncated(chars@, budget0) == out@ + spec_truncated(
                chars@.skip(i as int),
                budget as int,
            ),
        decreases chars@.len() - i,
    {
        let ghost rest = chars@.skip(i as int);
        proof {
            assert(rest[0] == chars@[i as int]);
            assert(rest.drop_first() =~= chars@.skip(i + 1 as int));
        }
        let c = chars[i];
        let w: usize = match char_width(c) {
            Some(w) => w,
            None => 0,
        };
        if w > budget {
            out.push('\u{2026}');
            proof {
                assert(out@ =~= spec_truncated(chars@, budget0));
            }
            return crate::text::chars_string(&out);
        }
        out.push(c);
        budget = budget - w;
        i = i + 1;
    }
    proof {
        assert(chars@.skip(chars@.len() as int) =~= Seq::<char>::empty());
        assert(out@ =~= spec_truncated(chars@, budget0));
    }
    crate::text::chars_string(&out)
}

} // verus!
