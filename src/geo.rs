//! Country codes: normalisation of operator input and the records that carry them.
use vstd::prelude::*;
use crate::text::{chars_of, string_from_chars, trim, trimmed};

verus! {

/// A country blocked on one port.
#[derive(Debug)]
pub struct GeoPortEntry {
    pub country: String,
    pub port: u16,
}

impl Clone for GeoPortEntry {
    fn clone(&self) -> (r: Self)
        ensures
            r == *self,
    {
        GeoPortEntry { country: self.country.clone(), port: self.port }
    }
}

/// A country block as listed to operators; `port` is `None` for a block on every port.
#[derive(Clone, Debug)]
pub struct GeoEntry {
    pub country: String,
    pub port: Option<u16>,
}

/// A request to add a country block.
#[derive(Clone, Debug)]
pub struct GeoBlockRequest {
    pub country: String,
    pub port: Option<u16>,
}

/// Selects the port of a country block to remove; `None` for the global list.
#[derive(Clone, Debug)]
pub struct GeoBlockQuery {
    pub port: Option<u16>,
}

/// Why a country code was refused.
#[derive(Clone, Copy, Debug, PartialEq, Eq, Structural)]
pub enum CountryError {
    WrongLength,
    NotLetters,
}

impl CountryError {
    pub open spec fn text(&self) -> Seq<char> {
        match *self {
            CountryError::WrongLength => "Country code must be 2 letters"@,
            CountryError::NotLetters => "Country code must be letters"@,
        }
    }

    /// Operator-facing text of the error.
    pub fn message(&self) -> (r: String)
        ensures
            r@ == self.text(),
    {
        match self {
            CountryError::WrongLength => string_from_chars(&chars_of("Country code must be 2 letters")),
            CountryError::NotLetters => string_from_chars(&chars_of("Country code must be letters")),
        }
    }
}

/// Number of bytes of the UTF-8 encoding of `c`.
pub open spec fn utf8_width(c: char) -> nat {
    if (c as u32) < 0x80 {
        1
    } else if (c as u32) < 0x800 {
        2
    } else if (c as u32) < 0x10000 {
        3
    } else {
        4
    }
}

/// Number of bytes of the UTF-8 encoding of `s`.
pub open spec fn utf8_len(s: Seq<char>) -> nat
    decreases s.len(),
{
    if s.len() == 0 {
        0
    } else {
        utf8_len(s.drop_last()) + utf8_width(s.last())
    }
}

pub open spec fn is_ascii_letter(c: char) -> bool {
    ('a' <= c && c <= 'z') || ('A' <= c && c <= 'Z')
}

pub open spec fn ascii_upper(c: char) -> char {
    if 'a' <= c && c <= 'z' {
        ((c as u32) - 32) as char
    } else {
        c
    }
}

/// A country code as stored: the input without surrounding white space, two bytes long,
/// both ASCII letters, upper-cased.
pub open spec fn normalize_spec(s: Seq<char>) -> Result<Seq<char>, CountryError> {
    let t = trim(s);
    if utf8_len(t) != 2 {
        Err(CountryError::WrongLength)
    } else if !(forall|i: int| 0 <= i < t.len() ==> is_ascii_letter(#[trigger] t[i])) {
        Err(CountryError::NotLetters)
    } else {
        Ok(t.map_values(|c: char| ascii_upper(c)))
    }
}

proof fn lemma_utf8_len_bounds(s: Seq<char>)
    ensures
        s.len() <= utf8_len(s) <= 4 * s.len(),
    decreases s.len(),
{
    if s.len() > 0 {
        lemma_utf8_len_bounds(s.drop_last());
    }
}

fn char_width(c: char) -> (r: usize)
    ensures
        r == utf8_width(c),
{
    if c <= '\u{7f}' {
        1
    } else if c <= '\u{7ff}' {
        2
    } else if c <= '\u{ffff}' {
        3
    } else {
        4
    }
}

fn upper_char(c: char) -> (r: char)
    requires
        is_ascii_letter(c),
    ensures
        r == ascii_upper(c),
{
    if c == 'a' { 'A' } else if c == 'b' { 'B' } else if c == 'c' { 'C' } else if c == 'd' { 'D' }
    else if c == 'e' { 'E' } else if c == 'f' { 'F' } else if c == 'g' { 'G' } else if c == 'h' { 'H' }
    else if c == 'i' { 'I' } else if c == 'j' { 'J' } else if c == 'k' { 'K' } else if c == 'l' { 'L' }
    else if c == 'm' { 'M' } else if c == 'n' { 'N' } else if c == 'o' { 'O' } else if c == 'p' { 'P' }
    else if c == 'q' { 'Q' } else if c == 'r' { 'R' } else if c == 's' { 'S' } else if c == 't' { 'T' }
    else if c == 'u' { 'U' } else if c == 'v' { 'V' } else if c == 'w' { 'W' } else if c == 'x' { 'X' }
    else if c == 'y' { 'Y' } else if c == 'z' { 'Z' } else { c }
}

/// Checks and normalises an ISO-3166-1 alpha-2 code typed by an operator.
pub fn normalize_country(value: &str) -> (r: Result<String, CountryError>)
    ensures
        match r {
            Ok(s) => normalize_spec(value@) == Ok::<Seq<char>, CountryError>(s@),
            Err(e) => normalize_spec(value@) == Err::<Seq<char>, CountryError>(e),
        },
{
    let t = trimmed(&chars_of(value));
    proof {
        lemma_utf8_len_bounds(t@);
    }
    if t.len() > 2 {
        return Err(CountryError::WrongLength);
    }
    let mut width: usize = 0;
    let mut i: usize = 0;
    while i < t.len()
        invariant
            i <= t@.len() <= 2,
            width == utf8_len(t@.subrange(0, i as int)),
            width <= 4 * i,
        decreases t@.len() - i,
    {
        proof {
            assert(t@.subrange(0, i + 1).drop_last() == t@.subrange(0, i as int));
        }
        width = width + char_width(t[i]);
        i = i + 1;
    }
    assert(t@.subrange(0, t@.len() as int) == t@);
    if width != 2 {
        return Err(CountryError::WrongLength);
    }
    let mut out: Vec<char> = Vec::new();
    let mut j: usize = 0;
    while j < t.len()
        invariant
            j <= t@.len() <= 2,
            utf8_len(t@) == 2,
            t@ == trim(value@),
            forall|k: int| 0 <= k < j ==> is_ascii_letter(#[trigger] t@[k]),
            out@ == t@.subrange(0, j as int).map_values(|c: char| ascii_upper(c)),
        decreases t@.len() - j,
    {
        let c = t[j];
        if !(('a' <= c && c <= 'z') || ('A' <= c && c <= 'Z')) {
            assert(t@[j as int] == c);
            assert(!is_ascii_letter(t@[j as int]));
            return Err(CountryError::NotLetters);
        }
        out.push(upper_char(c));
        proof {
            assert(out@ =~= t@.subrange(0, j + 1).map_values(|c: char| ascii_upper(c)));
        }
        j = j + 1;
    }
    Ok(string_from_chars(&out))
}

} // verus!
