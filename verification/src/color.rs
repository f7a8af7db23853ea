//! 8-bit sRGB colors and their hex notation.
//!
//! The perceptual colour maths (CIELAB, CIEDE2000) is floating point and lives
//! with the command-line program; the library works on the integer side of
//! colours and, where a distance decides something, on the totally ordered
//! integer keys of `order`.

use vstd::prelude::*;
use crate::text::{chars_of, push_char};

verus! {

/// An 8-bit sRGB color.
#[derive(Debug, Clone, Copy, PartialEq, Eq, Structural, Hash, PartialOrd, Ord)]
pub struct Rgb8 {
    pub r: u8,
    pub g: u8,
    pub b: u8,
}

/// The color as one number `0xRRGGBB`: injective, and ordered like the
/// field-by-field (red, green, blue) order of `Rgb8`.
pub open spec fn pack(c: Rgb8) -> int {
    c.r * 65536 + c.g * 256 + c.b
}

/// The lowercase hex digit of `n` (`0 <= n < 16`).
pub open spec fn hex_digit(n: int) -> char {
    if n < 10 {
        ((48 + n) as u8) as char
    } else {
        ((87 + n) as u8) as char
    }
}

/// Lowercase `rrggbb`.
pub open spec fn spec_hex(c: Rgb8) -> Seq<char> {
    seq![
        hex_digit(c.r as int / 16), hex_digit(c.r as int % 16),
        hex_digit(c.g as int / 16), hex_digit(c.g as int % 16),
        hex_digit(c.b as int / 16), hex_digit(c.b as int % 16),
    ]
}

/// An ASCII hex digit, either case.
pub open spec fn is_hex_char(c: char) -> bool {
    ('0' <= c && c <= '9') || ('a' <= c && c <= 'f') || ('A' <= c && c <= 'F')
}

/// The value of an ASCII hex digit.
pub open spec fn hex_value(c: char) -> int {
    if '0' <= c && c <= '9' {
        c as int - 48
    } else if 'a' <= c && c <= 'f' {
        c as int - 87
    } else {
        c as int - 55
    }
}

/// `s` without one leading `#`, if it has one.
pub open spec fn strip_hash(s: Seq<char>) -> Seq<char> {
    if s.len() > 0 && s[0] == '#' {
        s.drop_first()
    } else {
        s
    }
}

/// The six digits that a three- or six-digit hex notation stands for.
pub open spec fn six_digits(t: Seq<char>) -> Seq<char> {
    if t.len() == 3 {
        seq![t[0], t[0], t[1], t[1], t[2], t[2]]
    } else {
        t
    }
}

/// What `Rgb8::parse` reads from `s`: `rrggbb` or `rgb`, either with one
/// leading `#`, hex digits in either case.
pub open spec fn spec_parse_rgb(s: Seq<char>) -> Option<Rgb8> {
    let t = strip_hash(s);
    if (t.len() == 6 || t.len() == 3) && (forall|i: int| 0 <= i < t.len() ==> is_hex_char(#[trigger] t[i])) {
        let d = six_digits(t);
        Some(Rgb8 {
            r: (hex_value(d[0]) * 16 + hex_value(d[1])) as u8,
            g: (hex_value(d[2]) * 16 + hex_value(d[3])) as u8,
            b: (hex_value(d[4]) * 16 + hex_value(d[5])) as u8,
        })
    } else {
        None
    }
}

fn digit_char(n: u8) -> (c: char)
    requires
        n < 16,
    ensures
        c == hex_digit(n as int),
{
    if n < 10 {
        (48 + n) as char
    } else {
        (87 + n) as char
    }
}

fn is_hex(c: char) -> (b: bool)
    ensures
        b == is_hex_char(c),
{
    ('0' <= c && c <= '9') || ('a' <= c && c <= 'f') || ('A' <= c && c <= 'F')
}

fn hex_val(c: char) -> (v: u8)
    requires
        is_hex_char(c),
    ensures
        v == hex_value(c),
        v < 16,
{
    if '0' <= c && c <= '9' {
        (c as u32 - 48) as u8
    } else if 'a' <= c && c <= 'f' {
        (c as u32 - 87) as u8
    } else {
        (c as u32 - 55) as u8
    }
}

impl Rgb8 {
    pub fn new(r: u8, g: u8, b: u8) -> (c: Self)
        ensures
            c == (Rgb8 { r, g, b }),
    {
        Rgb8 { r, g, b }
    }

    /// Lowercase `rrggbb` hex without the leading `#`.
    pub fn hex(&self) -> (s: String)
        ensures
            s@ == spec_hex(*self),
    {
        let mut s = String::new();
        push_char(&mut s, digit_char(self.r / 16));
        push_char(&mut s, digit_char(self.r % 16));
        push_char(&mut s, digit_char(self.g / 16));
        push_char(&mut s, digit_char(self.g % 16));
        push_char(&mut s, digit_char(self.b / 16));
        push_char(&mut s, digit_char(self.b % 16));
        s
    }

    /// Parse `rrggbb` or `#rrggbb` (case-insensitive). Short `rgb` form is
    /// accepted too because hand-written palette files tend to use it.
    pub fn parse(s: &str) -> (res: Option<Self>)
        ensures
            res == spec_parse_rgb(s@),
    {
        let v = chars_of(s);
        Self::parse_chars(&v)
    }

    /// `parse` over a sequence of characters.
    pub fn parse_chars(v: &Vec<char>) -> (res: Option<Self>)
        ensures
            res == spec_parse_rgb(v@),
    {
        let start: usize = if v.len() > 0 && v[0] == '#' { 1 } else { 0 };
        let n = v.len() - start;
        let ghost t = strip_hash(v@);
        assert(t == v@.subrange(start as int, v@.len() as int));
        if n != 6 && n != 3 {
            return None;
        }
        let mut i = start;
        while i < v.len()
            invariant
                start <= i <= v.len(),
                t == v@.subrange(start as int, v@.len() as int),
                t == strip_hash(v@),
                forall|j: int| start <= j < i ==> is_hex_char(#[trigger] v@[j]),
            decreases v.len() - i,
        {
            if !is_hex(v[i]) {
                assert(t[i - start] == v@[i as int]);
                assert(!is_hex_char(t[i - start]));
                assert(!(forall|j: int| 0 <= j < t.len() ==> is_hex_char(#[trigger] t[j])));
                return None;
            }
            i += 1;
        }
        assert forall|j: int| 0 <= j < t.len() implies is_hex_char(#[trigger] t[j]) by {
            assert(t[j] == v@[j + start]);
        }
        let (d0, d1, d2, d3, d4, d5) = if n == 3 {
            (v[start], v[start], v[start + 1], v[start + 1], v[start + 2], v[start + 2])
        } else {
            (v[start], v[start + 1], v[start + 2], v[start + 3], v[start + 4], v[start + 5])
        };
        let ghost d = six_digits(t);
        assert(d0 == d[0] && d1 == d[1] && d2 == d[2] && d3 == d[3] && d4 == d[4] && d5 == d[5]);
        let r = hex_val(d0) * 16 + hex_val(d1);
        let g = hex_val(d2) * 16 + hex_val(d3);
        let b = hex_val(d4) * 16 + hex_val(d5);
        Some(Rgb8 { r, g, b })
    }
}

/// Parsing the hex notation of a color gives the color back, with or
/// without the leading `#`.
pub proof fn lemma_hex_roundtrip(c: Rgb8)
    ensures
        spec_parse_rgb(spec_hex(c)) == Some(c),
        spec_parse_rgb(seq!['#'].add(spec_hex(c))) == Some(c),
{
    let h = spec_hex(c);
    assert forall|n: int| 0 <= n < 16 implies is_hex_char(#[trigger] hex_digit(n)) && hex_value(hex_digit(n)) == n by {
    }
    assert(h[0] != '#');
    assert(strip_hash(h) == h);
    assert(forall|i: int| 0 <= i < h.len() ==> is_hex_char(#[trigger] h[i]));
    let h2 = seq!['#'].add(spec_hex(c));
    assert(strip_hash(h2) =~= h);
}

/// The ASCII uppercase of a character.
pub open spec fn ascii_upper(c: char) -> char {
    if 'a' <= c && c <= 'z' { ((c as u32) - 32) as char } else { c }
}

/// The ASCII uppercase of a text.
pub open spec fn upper(s: Seq<char>) -> Seq<char> {
    s.map_values(|c: char| ascii_upper(c))
}

/// Parsing ignores case: the uppercase hex notation of a color, with or
/// without the leading `#`, gives the color back.
pub proof fn lemma_parse_ignores_case(c: Rgb8)
    ensures
        spec_parse_rgb(upper(spec_hex(c))) == Some(c),
        spec_parse_rgb(seq!['#'].add(upper(spec_hex(c)))) == Some(c),
{
    assert forall|n: int| 0 <= n < 16 implies is_hex_char(#[trigger] ascii_upper(hex_digit(n)))
        && hex_value(ascii_upper(hex_digit(n))) == n by {
    }
    let h = upper(spec_hex(c));
    assert(h.len() == 6);
    assert(h[0] == ascii_upper(hex_digit(c.r as int / 16)));
    assert(h[1] == ascii_upper(hex_digit(c.r as int % 16)));
    assert(h[2] == ascii_upper(hex_digit(c.g as int / 16)));
    assert(h[3] == ascii_upper(hex_digit(c.g as int % 16)));
    assert(h[4] == ascii_upper(hex_digit(c.b as int / 16)));
    assert(h[5] == ascii_upper(hex_digit(c.b as int % 16)));
    assert(h[0] != '#');
    assert(strip_hash(h) == h);
    assert(forall|i: int| 0 <= i < h.len() ==> is_hex_char(#[trigger] h[i]));
    let h2 = seq!['#'].add(h);
    assert(strip_hash(h2) =~= h);
}

/// The hex notation is six lowercase hex digits, red first: the value of
/// the digits, read in base 16, is the packed color.
pub proof fn lemma_hex_lowercase(c: Rgb8)
    ensures
        spec_hex(c).len() == 6,
        forall|i: int| 0 <= i < 6 ==> ('0' <= #[trigger] spec_hex(c)[i] <= '9') || ('a' <= spec_hex(c)[i] <= 'f'),
        hex_value(spec_hex(c)[0]) * 16 + hex_value(spec_hex(c)[1]) == c.r,
        hex_value(spec_hex(c)[2]) * 16 + hex_value(spec_hex(c)[3]) == c.g,
        hex_value(spec_hex(c)[4]) * 16 + hex_value(spec_hex(c)[5]) == c.b,
{
    assert forall|n: int| 0 <= n < 16 implies (('0' <= #[trigger] hex_digit(n) <= '9') || ('a' <= hex_digit(n) <= 'f'))
        && hex_value(hex_digit(n)) == n by {
    }
}

} // verus!
