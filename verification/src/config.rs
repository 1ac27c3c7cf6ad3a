//! Colors of the runtime configuration, written as CSS-style `#rrggbb` strings.
use vstd::prelude::*;

use crate::importer::emit::{utf8_len, utf8_len_exceeds};
use crate::text::{chars_of, debug_quoted, debug_str, push_str, string_of};

verus! {

/// Newtype around an RGB triple, written as a CSS-style `#rrggbb` string.
#[derive(Debug, Clone, Copy)]
pub struct Color(pub u8, pub u8, pub u8);

impl Color {
    pub fn rgb(&self) -> (r: (u8, u8, u8))
        ensures
            r == (self.0, self.1, self.2),
    {
        (self.0, self.1, self.2)
    }
}

#[derive(Debug, Clone, Copy)]
pub struct Colors {
    pub text: Color,
    pub bullet: Color,
    pub title_rule: Color,
    pub code_background: Color,
}

impl Default for Colors {
    fn default() -> (r: Colors)
        ensures
            r.text == Color(0, 0, 0),
            r.bullet == Color(0, 0, 0),
            r.title_rule == Color(0, 0, 0),
            r.code_background == Color(240, 240, 240),
    {
        Colors {
            text: Color(0, 0, 0),
            bullet: Color(0, 0, 0),
            title_rule: Color(0, 0, 0),
            code_background: Color(240, 240, 240),
        }
    }
}

/// Value of a hexadecimal digit (either case).
pub open spec fn hex_val(c: char) -> Option<u8> {
    if '0' <= c && c <= '9' {
        Some((c as u32 - '0' as u32) as u8)
    } else if 'a' <= c && c <= 'f' {
        Some((c as u32 - 'a' as u32 + 10) as u8)
    } else if 'A' <= c && c <= 'F' {
        Some((c as u32 - 'A' as u32 + 10) as u8)
    } else {
        None
    }
}

/// The byte two hex digits spell, high digit first.
pub open spec fn byte_pair(a: char, b: char) -> Option<u8> {
    match (hex_val(a), hex_val(b)) {
        (Some(x), Some(y)) => Some((x * 16 + y) as u8),
        _ => None,
    }
}

/// The text after an optional leading `#`.
pub open spec fn hex_part(s: Seq<char>) -> Seq<char> {
    if s.len() > 0 && s[0] == '#' {
        s.skip(1)
    } else {
        s
    }
}

pub open spec fn length_message(s: Seq<char>) -> Seq<char> {
    "color must be #rrggbb, got "@ + debug_str(s)
}

pub open spec fn digit_message(s: Seq<char>) -> Seq<char> {
    "bad color "@ + debug_str(s) + ": invalid digit found in string"@
}

/// The color a `#rrggbb` string names, or the message that rejects it:
/// after an optional `#`, a text that is not six bytes long is refused for
/// its length, and six bytes that are not six hex digits for a bad digit.
pub open spec fn spec_parse_hex_color(s: Seq<char>) -> Result<Color, Seq<char>> {
    let h = hex_part(s);
    if utf8_len(h) != 6 {
        Err(length_message(s))
    } else if h.len() == 6 && byte_pair(h[0], h[1]) is Some && byte_pair(h[2], h[3]) is Some
        && byte_pair(h[4], h[5]) is Some {
        Ok(
            Color(
                byte_pair(h[0], h[1])->0,
                byte_pair(h[2], h[3])->0,
                byte_pair(h[4], h[5])->0,
            ),
        )
    } else {
        Err(digit_message(s))
    }
}

fn hex_digit(c: char) -> (r: Option<u8>)
    ensures
        r == hex_val(c),
{
    if '0' <= c && c <= '9' {
        Some((c as u32 - '0' as u32) as u8)
    } else if 'a' <= c && c <= 'f' {
        Some((c as u32 - 'a' as u32 + 10) as u8)
    } else if 'A' <= c && c <= 'F' {
        Some((c as u32 - 'A' as u32 + 10) as u8)
    } else {
        None
    }
}

fn pair(a: char, b: char) -> (r: Option<u8>)
    ensures
        r == byte_pair(a, b),
{
    match (hex_digit(a), hex_digit(b)) {
        (Some(x), Some(y)) => Some(x * 16 + y),
        _ => None,
    }
}

/// Parses a CSS-style `#rrggbb` color (the `#` is optional).
pub fn parse_hex_color(s: &str) -> (res: Result<Color, String>)
    ensures
        match res {
            Ok(c) => spec_parse_hex_color(s@) == Ok::<Color, Seq<char>>(c),
            Err(m) => spec_parse_hex_color(s@) == Err::<Color, Seq<char>>(m@),
        },
{
    let cs = chars_of(s);
    let start: usize = if cs.len() > 0 && cs[0] == '#' {
        1
    } else {
        0
    };
    let h = &cs.as_slice()[start..cs.len()];
    assert(h@ =~= hex_part(s@));
    let above5 = utf8_len_exceeds(h, 5);
    let above6 = utf8_len_exceeds(h, 6);
    if !above5 || above6 {
        let mut m: Vec<char> = Vec::new();
        push_str(&mut m, "color must be #rrggbb, got ");
        let q = debug_quoted(s);
        push_str(&mut m, q.as_str());
        return Err(string_of(m.as_slice()));
    }
    if h.len() == 6 {
        match (pair(h[0], h[1]), pair(h[2], h[3]), pair(h[4], h[5])) {
            (Some(r), Some(g), Some(b)) => {
                return Ok(Color(r, g, b));
            },
            _ => {},
        }
    }
    let mut m: Vec<char> = Vec::new();
    push_str(&mut m, "bad color ");
    let q = debug_quoted(s);
    push_str(&mut m, q.as_str());
    push_str(&mut m, ": invalid digit found in string");
    Err(string_of(m.as_slice()))
}

} // verus!
