//! The lexical grammar, as spec functions over the bytes of the text.
//!
//! Each routine takes the text `t`, the position `j` where it starts and the
//! symbols `out` produced so far. It yields the position after what it read
//! together with `out` extended by the symbols it produced, or the first
//! error. Bytes past the end of the text read as `0`.
//!
//! Values that are single words:
//! - booleans: `true`, `false`;
//! - special floats: `inf`, `nan`, each with an optional sign;
//! - integers: an optional sign, then `0x`, `0o` or `0b` and hexadecimal,
//!   octal or binary digits, or decimal digits;
//! - floats: an optional sign, decimal digits, then a fraction `.digits`,
//!   an exponent `e` or `E` with an optional sign and digits, or both;
//! - date-times: a date `YYYY-MM-DD`, optionally followed by `T`, `t` or a
//!   space and a time, and then an optional offset `Z`, `z`, `+HH:MM` or
//!   `-HH:MM`; or a time alone. A time is `HH:MM:SS` with an optional
//!   fraction `.digits`.
//!
//! In a run of digits a single `_` may stand between two digits. A number
//! or a date-time ends at a blank, a line ending, NUL, `#`, `,`, `]` or `}`;
//! any other byte there is `Unexpected`.
use vstd::prelude::*;

use crate::search::is_triple;
use crate::symbol::{marker, spanned, Error, Sym, Symbol};

verus! {

/// What a routine yields: the position after it and the symbols so far.
pub type Scanned = Result<(int, Seq<Symbol>), Error>;

/// The byte at `i`, or `0` outside the text.
pub open spec fn byte_at(t: Seq<u8>, i: int) -> u8 {
    if 0 <= i < t.len() {
        t[i]
    } else {
        0
    }
}

/// The bytes of a bare key: `[a-zA-Z0-9_-]`.
pub open spec fn is_bare(b: u8) -> bool {
    (('a' as u8) <= b <= ('z' as u8)) || (('A' as u8) <= b <= ('Z' as u8)) || (('0' as u8) <= b <= ('9' as u8)) || b == ('_' as u8) || b == ('-' as u8)
}

/// Space or tab.
pub open spec fn is_blank(b: u8) -> bool {
    b == (' ' as u8) || b == ('\t' as u8)
}

pub open spec fn is_quote(b: u8) -> bool {
    b == ('"' as u8) || b == ('\'' as u8)
}

/// The control bytes that a comment may not hold.
pub open spec fn is_comment_control(b: u8) -> bool {
    (1 <= b <= 8) || (10 <= b <= 31) || b == 127
}

pub open spec fn unexpected(j: int) -> Error {
    Error::Unexpected { pos: j as usize }
}

pub open spec fn control(j: int) -> Error {
    Error::ControlCharacter { pos: j as usize }
}

/// Where a comment whose body starts at `j` ends: at its line feed, past
/// its `\r\n`, or at a NUL byte or the end of the text.
pub open spec fn comment_end(t: Seq<u8>, j: int) -> Result<int, Error>
    decreases t.len() - j,
{
    let b = byte_at(t, j);
    if b == ('\n' as u8) || b == 0 {
        Ok(j)
    } else if b == ('\r' as u8) {
        if byte_at(t, j + 1) == ('\n' as u8) {
            Ok(j + 2)
        } else {
            Err(control(j))
        }
    } else if is_comment_control(b) {
        Err(control(j))
    } else {
        comment_end(t, j + 1)
    }
}

/// The rest of a line after a table header or a value: blanks, then an
/// optional comment, then the line ending or the end of the text.
pub open spec fn line_end(t: Seq<u8>, j: int) -> Result<int, Error>
    decreases t.len() - j,
{
    let b = byte_at(t, j);
    if b == ('\r' as u8) {
        if byte_at(t, j + 1) == ('\n' as u8) {
            Ok(j + 2)
        } else {
            Err(control(j))
        }
    } else if is_blank(b) {
        line_end(t, j + 1)
    } else if b == ('\n' as u8) || b == 0 {
        Ok(j)
    } else if b == ('#' as u8) {
        comment_end(t, j + 1)
    } else {
        Err(unexpected(j))
    }
}

/// The bytes that end a bare key (without being part of it).
pub open spec fn is_key_stop(b: u8) -> bool {
    is_blank(b) || b == ('=' as u8) || b == ('.' as u8) || b == (']' as u8) || b == ('\n' as u8) || b == ('\r' as u8)
}

/// Where the bare key that continues at `j` ends.
pub open spec fn key_end(t: Seq<u8>, j: int) -> Result<int, Error>
    decreases t.len() - j,
{
    let b = byte_at(t, j);
    if is_bare(b) {
        key_end(t, j + 1)
    } else if is_key_stop(b) {
        Ok(j)
    } else {
        Err(unexpected(j))
    }
}

/// A bare key starting at `i`; its span holds its first and its last byte.
pub open spec fn bare_key(t: Seq<u8>, i: int, out: Seq<Symbol>) -> Scanned {
    match key_end(t, i + 1) {
        Ok(j) => Ok((j, out.push(spanned(Sym::Key, i, j - 1)))),
        Err(e) => Err(e),
    }
}

/// The closing quote of a basic string whose body continues at `j`, after
/// `slashes` consecutive backslashes. A quote after an odd number of
/// backslashes is escaped.
pub open spec fn basic_end(t: Seq<u8>, start: int, j: int, slashes: nat) -> Result<int, Error>
    decreases t.len() - j,
{
    let b = byte_at(t, j);
    if b == ('"' as u8) {
        if slashes % 2 == 0 {
            Ok(j)
        } else {
            basic_end(t, start, j + 1, 0)
        }
    } else if b == ('\\' as u8) {
        basic_end(t, start, j + 1, slashes + 1)
    } else if b == ('\n' as u8) || b == 0 {
        Err(Error::UnterminatedString { start: start as usize, pos: j as usize })
    } else {
        basic_end(t, start, j + 1, 0)
    }
}

/// A basic string `"…"` opening at `i`; its span runs from the first byte of
/// the body to the closing quote.
pub open spec fn basic_string(t: Seq<u8>, i: int, out: Seq<Symbol>) -> Scanned {
    match basic_end(t, i + 1, i + 1, 0) {
        Ok(j) => Ok((j + 1, out.push(spanned(Sym::String, i + 1, j)))),
        Err(e) => Err(e),
    }
}

pub open spec fn is_literal_stop(b: u8) -> bool {
    b == ('\n' as u8) || b == ('\'' as u8) || b == 0
}

/// The first position from `j` on that holds a line feed, a single quote or
/// NUL; the end of the text where none does.
pub open spec fn literal_stop(t: Seq<u8>, j: int) -> int
    decreases t.len() - j,
{
    if j < 0 || j >= t.len() {
        t.len() as int
    } else if is_literal_stop(t[j]) {
        j
    } else {
        literal_stop(t, j + 1)
    }
}

/// A literal string `'…'` opening at `i`; its span holds the first and the
/// last byte of the body, or, where the body is empty, is the single
/// position of the closing quote.
pub open spec fn literal_string(t: Seq<u8>, i: int, out: Seq<Symbol>) -> Scanned {
    let start = i + 1;
    let k = literal_stop(t, start);
    if k < t.len() && t[k] == ('\'' as u8) {
        let hi = if k == start {
            k
        } else {
            k - 1
        };
        Ok((k + 1, out.push(spanned(Sym::String, start, hi))))
    } else {
        Err(Error::UnterminatedString { start: start as usize, pos: k as usize })
    }
}

/// The first position from `j` on where `b` stands three times.
pub open spec fn triple_from(t: Seq<u8>, j: int, b: u8) -> Option<int>
    decreases t.len() - j,
{
    if j < 0 || j + 3 > t.len() {
        None
    } else if is_triple(t, j, b) {
        Some(j)
    } else {
        triple_from(t, j + 1, b)
    }
}

/// A multi-line literal string `'''…'''` opening at `i`. Up to two quotes
/// right before the closing `'''` belong to the body; its span runs from
/// the first byte of the body to the closing delimiter.
pub open spec fn ml_literal_string(t: Seq<u8>, i: int, out: Seq<Symbol>) -> Scanned {
    let start = i + 3;
    match triple_from(t, start, ('\'' as u8)) {
        None => Err(Error::UnterminatedString { start: start as usize, pos: t.len() as usize }),
        Some(k) => {
            let p = k + 3;
            let extra: int = if byte_at(t, p) != ('\'' as u8) {
                0
            } else if byte_at(t, p + 1) != ('\'' as u8) {
                1
            } else {
                2
            };
            if extra == 2 && byte_at(t, p + 2) == ('\'' as u8) {
                Err(Error::TooManyQuotesInString { start: start as usize, pos: (p + 2) as usize })
            } else {
                Ok((p + extra, out.push(spanned(Sym::String, start, p + extra - 3))))
            }
        },
    }
}

/// The body of a multi-line basic string that continues at `j`, after a run
/// of `quotes` unescaped quotes and a run of `slashes` backslashes. A run of
/// three to five quotes closes the string at the next other byte; its span
/// ends that many quotes, less three, before that byte. Yields the position
/// of that byte and the end of the span.
pub open spec fn ml_basic_end(t: Seq<u8>, start: int, j: int, quotes: nat, slashes: nat) -> Result<
    (int, int),
    Error,
>
    decreases t.len() - j,
{
    let b = byte_at(t, j);
    if b == ('"' as u8) {
        let q: nat = if slashes % 2 == 0 {
            quotes + 1
        } else {
            0
        };
        ml_basic_end(t, start, j + 1, q, 0)
    } else if 3 <= quotes <= 5 {
        Ok((j, j - (quotes - 3)))
    } else if quotes >= 6 {
        Err(Error::TooManyQuotesInString { start: start as usize, pos: j as usize })
    } else if b == ('\\' as u8) {
        ml_basic_end(t, start, j + 1, 0, slashes + 1)
    } else if b == 0 {
        Err(Error::UnterminatedString { start: start as usize, pos: j as usize })
    } else {
        ml_basic_end(t, start, j + 1, 0, 0)
    }
}

/// A multi-line basic string `"""…"""` opening at `i`.
pub open spec fn ml_basic_string(t: Seq<u8>, i: int, out: Seq<Symbol>) -> Scanned {
    match ml_basic_end(t, i + 3, i + 3, 0, 0) {
        Ok((j, hi)) => Ok((j, out.push(spanned(Sym::String, i + 3, hi)))),
        Err(e) => Err(e),
    }
}

/// A string of any of the four forms, opening at `i`.
pub open spec fn string(t: Seq<u8>, i: int, out: Seq<Symbol>) -> Scanned {
    if is_triple(t, i, ('\'' as u8)) {
        ml_literal_string(t, i, out)
    } else if is_triple(t, i, ('"' as u8)) {
        ml_basic_string(t, i, out)
    } else if byte_at(t, i) == ('\'' as u8) {
        literal_string(t, i, out)
    } else {
        basic_string(t, i, out)
    }
}

/// A string opening at `i` where only the single-line forms are allowed.
pub open spec fn single_line_string(t: Seq<u8>, i: int, out: Seq<Symbol>) -> Scanned {
    if is_triple(t, i, ('\'' as u8)) || is_triple(t, i, ('"' as u8)) {
        Err(Error::MultilineString { pos: i as usize })
    } else if byte_at(t, i) == ('\'' as u8) {
        literal_string(t, i, out)
    } else {
        basic_string(t, i, out)
    }
}

/// One segment of a key path: a bare key or a single-line string.
pub open spec fn key_segment(t: Seq<u8>, j: int, out: Seq<Symbol>) -> Scanned {
    if is_bare(byte_at(t, j)) {
        bare_key(t, j, out)
    } else {
        single_line_string(t, j, out)
    }
}

/// Whether a key segment may start at `j`.
pub open spec fn starts_key(t: Seq<u8>, j: int) -> bool {
    is_bare(byte_at(t, j)) || is_quote(byte_at(t, j))
}

/// The error for a line ending inside a key path at `j`.
pub open spec fn key_line_error(t: Seq<u8>, j: int) -> Error {
    if byte_at(t, j) == ('\r' as u8) && byte_at(t, j + 1) != ('\n' as u8) {
        control(j)
    } else {
        Error::MultilineKey { pos: j as usize }
    }
}

/// The rest of a dotted key path of an assignment, from `j`, up to and
/// including its `=`, which yields an `Assign` symbol. `saw_dot` says that a
/// segment must come next.
pub open spec fn assign_path(t: Seq<u8>, j: int, saw_dot: bool, out: Seq<Symbol>) -> Scanned
    decreases t.len() - j,
{
    let b = byte_at(t, j);
    if b == ('\r' as u8) || b == ('\n' as u8) {
        Err(key_line_error(t, j))
    } else if is_blank(b) {
        assign_path(t, j + 1, saw_dot, out)
    } else if b == ('.' as u8) {
        if saw_dot {
            Err(unexpected(j))
        } else {
            assign_path(t, j + 1, true, out)
        }
    } else if b == ('=' as u8) {
        if saw_dot {
            Err(unexpected(j))
        } else {
            Ok((j + 1, out.push(marker(Sym::Assign, j))))
        }
    } else if starts_key(t, j) && saw_dot {
        match key_segment(t, j, out) {
            Ok((k, o)) => {
                proof {
                    lemma_key_segment_moves(t, j, out);
                }
                assign_path(t, k, false, o)
            },
            Err(e) => Err(e),
        }
    } else {
        Err(unexpected(j))
    }
}

/// The rest of the dotted key path of a table header, from `j`, up to and
/// including its `]`.
pub open spec fn header_path(t: Seq<u8>, j: int, saw_dot: bool, out: Seq<Symbol>) -> Scanned
    decreases t.len() - j,
{
    let b = byte_at(t, j);
    if b == ('\r' as u8) || b == ('\n' as u8) {
        Err(key_line_error(t, j))
    } else if is_blank(b) {
        header_path(t, j + 1, saw_dot, out)
    } else if b == ('.' as u8) {
        if saw_dot {
            Err(unexpected(j))
        } else {
            header_path(t, j + 1, true, out)
        }
    } else if b == (']' as u8) {
        if saw_dot {
            Err(unexpected(j))
        } else {
            Ok((j + 1, out))
        }
    } else if starts_key(t, j) && saw_dot {
        match key_segment(t, j, out) {
            Ok((k, o)) => {
                proof {
                    lemma_key_segment_moves(t, j, out);
                }
                header_path(t, k, false, o)
            },
            Err(e) => Err(e),
        }
    } else {
        Err(unexpected(j))
    }
}

/// A table header `[…]` or an array-of-tables header `[[…]]` at `i`, with
/// the rest of its line.
pub open spec fn table(t: Seq<u8>, i: int, out: Seq<Symbol>) -> Scanned {
    let is_array = byte_at(t, i + 1) == ('[' as u8);
    let j = if is_array {
        i + 2
    } else {
        i + 1
    };
    let kind = if is_array {
        Sym::ArrayOfTable
    } else {
        Sym::Table
    };
    match header_path(t, j, true, out.push(marker(kind, j))) {
        Err(e) => Err(e),
        Ok((k, o)) => {
            if is_array && byte_at(t, k) != (']' as u8) {
                Err(Error::Expected { pos: k as usize, c: ']' })
            } else {
                let k2 = if is_array {
                    k + 1
                } else {
                    k
                };
                match line_end(t, k2) {
                    Ok(m) => Ok((m, o.push(marker(Sym::TableEnd, m)))),
                    Err(e) => Err(e),
                }
            }
        },
    }
}

/// Where the blanks from `j` on end.
pub open spec fn blank_end(t: Seq<u8>, j: int) -> int
    decreases t.len() - j,
{
    if is_blank(byte_at(t, j)) {
        blank_end(t, j + 1)
    } else {
        j
    }
}

/// Where the blanks, line endings and comments from `j` on end; arrays
/// allow them around their elements.
pub open spec fn array_gap(t: Seq<u8>, j: int) -> Result<int, Error>
    decreases t.len() - j,
{
    let b = byte_at(t, j);
    if is_blank(b) || b == ('\n' as u8) {
        array_gap(t, j + 1)
    } else if b == ('\r' as u8) {
        if byte_at(t, j + 1) == ('\n' as u8) {
            array_gap(t, j + 2)
        } else {
            Err(control(j))
        }
    } else if b == ('#' as u8) {
        match comment_end(t, j + 1) {
            Ok(k) => {
                proof {
                    lemma_comment_end(t, j + 1);
                }
                array_gap(t, k)
            },
            Err(e) => Err(e),
        }
    } else {
        Ok(j)
    }
}

pub open spec fn is_digit(b: u8) -> bool {
    ('0' as u8) <= b <= ('9' as u8)
}

/// Whether `b` is a digit in `radix` (2, 8, 10 or 16).
pub open spec fn is_digit_in(b: u8, radix: u8) -> bool {
    if radix == 16 {
        is_digit(b) || (('a' as u8) <= b <= ('f' as u8)) || (('A' as u8) <= b <= ('F' as u8))
    } else if radix == 8 {
        ('0' as u8) <= b <= ('7' as u8)
    } else if radix == 2 {
        b == ('0' as u8) || b == ('1' as u8)
    } else {
        is_digit(b)
    }
}

/// The radix that the letter after a leading `0` selects, or 10.
pub open spec fn radix_of(b: u8) -> u8 {
    if b == ('x' as u8) || b == ('X' as u8) {
        16
    } else if b == ('o' as u8) || b == ('O' as u8) {
        8
    } else if b == ('b' as u8) || b == ('B' as u8) {
        2
    } else {
        10
    }
}

/// The bytes that end a number.
pub open spec fn ends_number(b: u8) -> bool {
    is_blank(b) || b == 0 || b == ('#' as u8) || b == (',' as u8) || b == ('\n' as u8) || b == ('\r' as u8) || b == (']' as u8)
        || b == ('}' as u8)
}

/// Where the digits in `radix` that continue at `j` end. `allow` says that
/// the byte before `j` was a digit: only then may `_` or the end follow.
pub open spec fn radix_digits_end(t: Seq<u8>, j: int, radix: u8, allow: bool) -> Result<int, Error>
    decreases t.len() - j,
{
    let b = byte_at(t, j);
    if is_digit_in(b, radix) {
        radix_digits_end(t, j + 1, radix, true)
    } else if b == ('_' as u8) && allow {
        radix_digits_end(t, j + 1, radix, false)
    } else if ends_number(b) && allow {
        Ok(j)
    } else {
        Err(unexpected(j))
    }
}

/// The parts of a decimal number: the whole part, then an optional
/// fraction `.digits`, then an optional exponent `e[+-]digits` or
/// `E[+-]digits`.
#[derive(Clone, Copy, Debug, PartialEq, Eq, Structural)]
pub enum NumberPart {
    Whole,
    Fraction,
    Exponent,
}

/// Where the decimal number that continues at `j`, in `part`, ends, and the
/// part it ends in. Each part is a run of digits with single `_` between
/// digits; `allow` says that the byte before `j` was a digit.
pub open spec fn decimal_end(t: Seq<u8>, j: int, part: NumberPart, allow: bool) -> Result<
    (int, NumberPart),
    Error,
>
    decreases t.len() - j,
{
    let b = byte_at(t, j);
    if is_digit(b) {
        decimal_end(t, j + 1, part, true)
    } else if b == ('_' as u8) && allow {
        decimal_end(t, j + 1, part, false)
    } else if b == ('.' as u8) && allow && part == NumberPart::Whole {
        decimal_end(t, j + 1, NumberPart::Fraction, false)
    } else if (b == ('e' as u8) || b == ('E' as u8)) && allow && part != NumberPart::Exponent {
        let c = byte_at(t, j + 1);
        if c == ('+' as u8) || c == ('-' as u8) {
            decimal_end(t, j + 2, NumberPart::Exponent, false)
        } else {
            decimal_end(t, j + 1, NumberPart::Exponent, false)
        }
    } else if ends_number(b) && allow {
        Ok((j, part))
    } else {
        Err(unexpected(j))
    }
}

/// A number starting at `s` whose digits start at `d` (past a sign). A `0`
/// followed by `x`, `o` or `b` starts a hexadecimal, octal or binary
/// integer; otherwise the number is decimal, and a float where it has a
/// fraction or an exponent. Its span holds its first and its last byte.
pub open spec fn number(t: Seq<u8>, s: int, d: int, out: Seq<Symbol>) -> Scanned {
    let radix = radix_of(byte_at(t, d + 1));
    if byte_at(t, d) == ('0' as u8) && radix != 10 {
        match radix_digits_end(t, d + 2, radix, false) {
            Ok(e) => Ok((e, out.push(spanned(Sym::Integer, s, e - 1)))),
            Err(err) => Err(err),
        }
    } else {
        match decimal_end(t, d, NumberPart::Whole, false) {
            Ok((e, part)) => {
                let kind = if part == NumberPart::Whole {
                    Sym::Integer
                } else {
                    Sym::Float
                };
                Ok((e, out.push(spanned(kind, s, e - 1))))
            },
            Err(err) => Err(err),
        }
    }
}

/// Two digits at `j`.
pub open spec fn two_digits(t: Seq<u8>, j: int) -> bool {
    is_digit(byte_at(t, j)) && is_digit(byte_at(t, j + 1))
}

/// A date `YYYY-MM-DD` at `j`.
pub open spec fn is_date(t: Seq<u8>, j: int) -> bool {
    &&& two_digits(t, j) && two_digits(t, j + 2) && byte_at(t, j + 4) == '-' as u8
    &&& two_digits(t, j + 5) && byte_at(t, j + 7) == '-' as u8 && two_digits(t, j + 8)
}

/// A time `HH:MM:SS` at `j`.
pub open spec fn is_time(t: Seq<u8>, j: int) -> bool {
    &&& two_digits(t, j) && byte_at(t, j + 2) == ':' as u8
    &&& two_digits(t, j + 3) && byte_at(t, j + 5) == ':' as u8 && two_digits(t, j + 6)
}

/// Where the digits from `j` on end.
pub open spec fn digits_end(t: Seq<u8>, j: int) -> int
    decreases t.len() - j,
{
    if is_digit(byte_at(t, j)) {
        digits_end(t, j + 1)
    } else {
        j
    }
}

/// Where a time at `j` ends, with its optional fraction `.digits`.
pub open spec fn time_end(t: Seq<u8>, j: int) -> int {
    if byte_at(t, j + 8) == '.' as u8 && is_digit(byte_at(t, j + 9)) {
        digits_end(t, j + 9)
    } else {
        j + 8
    }
}

/// Where an optional offset, `Z`, `z` or `+HH:MM` or `-HH:MM`, from `k`
/// on ends.
pub open spec fn offset_end(t: Seq<u8>, k: int) -> int {
    let b = byte_at(t, k);
    if b == 'Z' as u8 || b == 'z' as u8 {
        k + 1
    } else if (b == '+' as u8 || b == '-' as u8) && two_digits(t, k + 1) && byte_at(t, k + 3)
        == ':' as u8 && two_digits(t, k + 4) {
        k + 6
    } else {
        k
    }
}

/// Whether a date or a time, rather than a number, starts at `j`: four
/// digits and `-`, or two digits and `:`.
pub open spec fn starts_date_time(t: Seq<u8>, j: int) -> bool {
    (two_digits(t, j) && two_digits(t, j + 2) && byte_at(t, j + 4) == '-' as u8) || (two_digits(
        t,
        j,
    ) && byte_at(t, j + 2) == ':' as u8)
}

/// Where the date-time at `j` ends: a date, optionally followed by `T`, `t`
/// or a space and a time with an optional offset; or a time alone. `j`
/// itself where there is neither.
pub open spec fn date_time_end(t: Seq<u8>, j: int) -> int {
    if is_date(t, j) {
        let d = j + 10;
        let b = byte_at(t, d);
        if (b == 'T' as u8 || b == 't' as u8 || (b == ' ' as u8 && is_digit(byte_at(t, d + 1))))
            && is_time(t, d + 1) {
            offset_end(t, time_end(t, d + 1))
        } else {
            d
        }
    } else if is_time(t, j) {
        time_end(t, j)
    } else {
        j
    }
}

/// A date-time starting at `j`; it must end where a number may end. Its
/// span holds its first and its last byte.
pub open spec fn date_time(t: Seq<u8>, j: int, out: Seq<Symbol>) -> Scanned {
    let e = date_time_end(t, j);
    if j < e && ends_number(byte_at(t, e)) {
        Ok((e, out.push(spanned(Sym::DateTime, j, e - 1))))
    } else {
        Err(unexpected(e))
    }
}

/// Whether the bytes of `t` from `j` on start with `w`.
pub open spec fn word_at(t: Seq<u8>, j: int, w: Seq<u8>) -> bool {
    0 <= j && j + w.len() <= t.len() && t.subrange(j, j + w.len()) == w
}

pub open spec fn word_true() -> Seq<u8> {
    seq![('t' as u8), ('r' as u8), ('u' as u8), ('e' as u8)]
}

pub open spec fn word_false() -> Seq<u8> {
    seq![('f' as u8), ('a' as u8), ('l' as u8), ('s' as u8), ('e' as u8)]
}

pub open spec fn word_inf() -> Seq<u8> {
    seq![('i' as u8), ('n' as u8), ('f' as u8)]
}

pub open spec fn word_nan() -> Seq<u8> {
    seq![('n' as u8), ('a' as u8), ('n' as u8)]
}

/// `inf` or `nan` at `j`, as a float whose span starts at `s` (at its sign,
/// where it has one).
pub open spec fn special_float(t: Seq<u8>, s: int, j: int, out: Seq<Symbol>) -> Scanned {
    if word_at(t, j, word_inf()) || word_at(t, j, word_nan()) {
        Ok((j + 3, out.push(spanned(Sym::Float, s, j + 2))))
    } else {
        Err(unexpected(j))
    }
}

/// A value that is a single word: a boolean, a number, `inf`, `nan` or a
/// date-time.
pub open spec fn atom(t: Seq<u8>, j: int, out: Seq<Symbol>) -> Scanned {
    let b = byte_at(t, j);
    if b == ('t' as u8) || b == ('f' as u8) {
        let w = if b == ('t' as u8) {
            word_true()
        } else {
            word_false()
        };
        if word_at(t, j, w) {
            Ok((j + w.len(), out.push(spanned(Sym::Bool, j, j + w.len() - 1))))
        } else {
            Err(unexpected(j))
        }
    } else if b == ('i' as u8) || b == ('n' as u8) {
        special_float(t, j, j, out)
    } else if b == ('+' as u8) || b == ('-' as u8) {
        let c = byte_at(t, j + 1);
        if c == ('i' as u8) || c == ('n' as u8) {
            special_float(t, j, j + 1, out)
        } else {
            number(t, j, j + 1, out)
        }
    } else if is_digit(b) {
        if starts_date_time(t, j) {
            date_time(t, j, out)
        } else {
            number(t, j, j, out)
        }
    } else {
        Err(unexpected(j))
    }
}

/// Whether a routine that started at `j` ended strictly after it and
/// within the text. Every value does (`lemma_value_moves`); the recursion
/// through arrays and inline tables tests it to be well founded.
pub open spec fn moved_on(t: Seq<u8>, j: int, r: Scanned) -> bool {
    match r {
        Ok((k, _)) => j < k <= t.len(),
        Err(_) => true,
    }
}

/// A value after an `=` or inside an array: blanks first, then a string,
/// an inline table, an array or a word. A line ending is not allowed.
pub open spec fn value(t: Seq<u8>, j: int, out: Seq<Symbol>) -> Scanned
    decreases t.len() - j, 3int
        when 0 <= j <= t.len()
{
    let b = byte_at(t, j);
    if is_blank(b) {
        value(t, j + 1, out)
    } else if b == ('\r' as u8) && byte_at(t, j + 1) != ('\n' as u8) {
        Err(control(j))
    } else if is_quote(b) {
        string(t, j, out)
    } else if b == ('{' as u8) {
        inline_table(t, j, out)
    } else if b == ('[' as u8) {
        array(t, j, out)
    } else {
        atom(t, j, out)
    }
}

/// An array opening at `i`.
pub open spec fn array(t: Seq<u8>, i: int, out: Seq<Symbol>) -> Scanned
    decreases t.len() - i, 2int
        when 0 <= i < t.len()
{
    let o = out.push(marker(Sym::Array, i));
    match array_gap(t, i + 1) {
        Err(e) => Err(e),
        Ok(j) => {
            if byte_at(t, j) == (']' as u8) {
                Ok((j + 1, o.push(marker(Sym::ArrayEnd, j))))
            } else {
                proof {
                    lemma_array_gap(t, i + 1);
                }
                array_items(t, j, o)
            }
        },
    }
}

/// The elements of an array from the one at `j` on, up to and including
/// the closing `]`. A comma may follow the last element.
pub open spec fn array_items(t: Seq<u8>, j: int, out: Seq<Symbol>) -> Scanned
    decreases t.len() - j, 4int
        when 0 <= j <= t.len()
{
    let r = value(t, j, out);
    match r {
        Err(e) => Err(e),
        Ok((k, o)) => {
            if !moved_on(t, j, r) {
                Err(unexpected(j))
            } else {
                proof {
                    lemma_array_gap(t, k);
                }
                match array_gap(t, k) {
                    Err(e) => Err(e),
                    Ok(g) => {
                        let b = byte_at(t, g);
                        if b == (']' as u8) {
                            Ok((g + 1, o.push(marker(Sym::ArrayEnd, g))))
                        } else if b == (',' as u8) {
                            proof {
                                lemma_array_gap(t, g + 1);
                            }
                            match array_gap(t, g + 1) {
                                Err(e) => Err(e),
                                Ok(h) => {
                                    if byte_at(t, h) == (']' as u8) {
                                        Ok((h + 1, o.push(marker(Sym::ArrayEnd, h))))
                                    } else {
                                        array_items(t, h, o)
                                    }
                                },
                            }
                        } else {
                            Err(Error::MissingDelimiter { pos: g as usize })
                        }
                    },
                }
            }
        },
    }
}

/// An inline table opening at `i`. Only blanks may stand between its parts.
pub open spec fn inline_table(t: Seq<u8>, i: int, out: Seq<Symbol>) -> Scanned
    decreases t.len() - i, 2int
        when 0 <= i < t.len()
{
    let o = out.push(marker(Sym::InlineTable, i));
    proof {
        lemma_blank_end(t, i + 1);
    }
    let j = blank_end(t, i + 1);
    if byte_at(t, j) == ('}' as u8) {
        Ok((j + 1, o.push(marker(Sym::InlineTableEnd, j))))
    } else {
        inline_pairs(t, j, o)
    }
}

/// The `key = value` pairs of an inline table from the one at `j` on, up to
/// and including the closing `}`. No comma may follow the last pair.
pub open spec fn inline_pairs(t: Seq<u8>, j: int, out: Seq<Symbol>) -> Scanned
    decreases t.len() - j, 4int
        when 0 <= j <= t.len()
{
    if !starts_key(t, j) {
        Err(unexpected(j))
    } else {
        match key_segment(t, j, out) {
            Err(e) => Err(e),
            Ok((k, o1)) => {
                proof {
                    lemma_key_segment_moves(t, j, out);
                }
                match assign_path(t, k, false, o1) {
                    Err(e) => Err(e),
                    Ok((m, o2)) => {
                        proof {
                            lemma_assign_path_moves(t, k, false, o1);
                        }
                        let r = value(t, m, o2);
                        match r {
                            Err(e) => Err(e),
                            Ok((n, o3)) => {
                                if !moved_on(t, m, r) {
                                    Err(unexpected(m))
                                } else {
                                    proof {
                                        lemma_blank_end(t, n);
                                    }
                                    let g = blank_end(t, n);
                                    let b = byte_at(t, g);
                                    if b == (',' as u8) {
                                        proof {
                                            lemma_blank_end(t, g + 1);
                                        }
                                        inline_pairs(t, blank_end(t, g + 1), o3)
                                    } else if b == ('}' as u8) {
                                        Ok((g + 1, o3.push(marker(Sym::InlineTableEnd, g))))
                                    } else {
                                        Err(Error::MissingDelimiter { pos: g as usize })
                                    }
                                }
                            },
                        }
                    },
                }
            },
        }
    }
}

/// A `key = value` line starting at `j`, with the rest of its line.
pub open spec fn key_value(t: Seq<u8>, j: int, out: Seq<Symbol>) -> Scanned {
    match key_segment(t, j, out) {
        Err(e) => Err(e),
        Ok((k, o1)) => match assign_path(t, k, false, o1) {
            Err(e) => Err(e),
            Ok((m, o2)) => match value(t, m, o2) {
                Err(e) => Err(e),
                Ok((n, o3)) => match line_end(t, n) {
                    Err(e) => Err(e),
                    Ok(p) => Ok((p, o3)),
                },
            },
        },
    }
}

/// The document from `j` on: blank lines, comments, table headers and
/// `key = value` lines, until a NUL byte or the end of the text. Ends with
/// an `Eof` symbol where that is the end of the text.
pub open spec fn document(t: Seq<u8>, j: int, out: Seq<Symbol>) -> Scanned
    decreases t.len() - j,
{
    let b = byte_at(t, j);
    if b == ('\r' as u8) {
        if byte_at(t, j + 1) == ('\n' as u8) {
            document(t, j + 2, out)
        } else {
            Err(control(j))
        }
    } else if b == ('\n' as u8) || is_blank(b) {
        document(t, j + 1, out)
    } else if b == ('#' as u8) {
        match comment_end(t, j + 1) {
            Ok(k) => {
                proof {
                    lemma_comment_end(t, j + 1);
                }
                document(t, k, out)
            },
            Err(e) => Err(e),
        }
    } else if b == ('[' as u8) {
        match table(t, j, out) {
            Ok((k, o)) => {
                proof {
                    lemma_table_moves(t, j, out);
                }
                document(t, k, o)
            },
            Err(e) => Err(e),
        }
    } else if starts_key(t, j) {
        match key_value(t, j, out) {
            Ok((k, o)) => {
                proof {
                    lemma_key_value_moves(t, j, out);
                }
                document(t, k, o)
            },
            Err(e) => Err(e),
        }
    } else if b == 0 {
        if j == t.len() {
            Ok((j, out.push(marker(Sym::Eof, j))))
        } else {
            Err(Error::UnconsumedInput { pos: j as usize })
        }
    } else {
        Err(unexpected(j))
    }
}

/// The symbol stream of the whole text `t`, or its first error.
pub open spec fn lex(t: Seq<u8>) -> Result<Seq<Symbol>, Error> {
    match document(t, 0, Seq::empty()) {
        Ok((_, o)) => Ok(o),
        Err(e) => Err(e),
    }
}

/// Comments end at or after where their body starts, within the text.
pub proof fn lemma_comment_end(t: Seq<u8>, j: int)
    requires
        0 <= j <= t.len(),
    ensures
        comment_end(t, j) matches Ok(k) ==> j <= k <= t.len(),
    decreases t.len() - j,
{
    let b = byte_at(t, j);
    if b != ('\n' as u8) && b != 0 && b != ('\r' as u8) && !is_comment_control(b) {
        lemma_comment_end(t, j + 1);
    }
}

pub proof fn lemma_line_end(t: Seq<u8>, j: int)
    requires
        0 <= j <= t.len(),
    ensures
        line_end(t, j) matches Ok(k) ==> j <= k <= t.len(),
    decreases t.len() - j,
{
    let b = byte_at(t, j);
    if is_blank(b) {
        lemma_line_end(t, j + 1);
    } else if b == ('#' as u8) {
        lemma_comment_end(t, j + 1);
    }
}

pub proof fn lemma_key_end(t: Seq<u8>, j: int)
    requires
        0 <= j <= t.len(),
    ensures
        key_end(t, j) matches Ok(k) ==> j <= k < t.len(),
    decreases t.len() - j,
{
    if is_bare(byte_at(t, j)) {
        lemma_key_end(t, j + 1);
    }
}

pub proof fn lemma_basic_end(t: Seq<u8>, start: int, j: int, slashes: nat)
    requires
        0 <= j <= t.len(),
    ensures
        basic_end(t, start, j, slashes) matches Ok(k) ==> j <= k < t.len() && t[k] == ('"' as u8),
    decreases t.len() - j,
{
    let b = byte_at(t, j);
    if b == ('"' as u8) {
        if slashes % 2 != 0 {
            lemma_basic_end(t, start, j + 1, 0);
        }
    } else if b == ('\\' as u8) {
        lemma_basic_end(t, start, j + 1, slashes + 1);
    } else if b != ('\n' as u8) && b != 0 {
        lemma_basic_end(t, start, j + 1, 0);
    }
}

pub proof fn lemma_literal_stop(t: Seq<u8>, j: int)
    requires
        0 <= j <= t.len(),
    ensures
        j <= literal_stop(t, j) <= t.len(),
        forall|m: int| j <= m < literal_stop(t, j) ==> !is_literal_stop(#[trigger] t[m]),
    decreases t.len() - j,
{
    if j < t.len() && !is_literal_stop(t[j]) {
        lemma_literal_stop(t, j + 1);
    }
}

pub proof fn lemma_triple_from(t: Seq<u8>, j: int, b: u8)
    requires
        0 <= j,
    ensures
        triple_from(t, j, b) matches Some(k) ==> j <= k && is_triple(t, k, b),
    decreases t.len() - j,
{
    if j + 3 <= t.len() && !is_triple(t, j, b) {
        lemma_triple_from(t, j + 1, b);
    }
}

pub proof fn lemma_ml_basic_end(t: Seq<u8>, start: int, j: int, quotes: nat, slashes: nat)
    requires
        0 <= start <= j <= t.len(),
        quotes <= j - start,
        forall|m: int| j - quotes <= m < j ==> #[trigger] t[m] == ('"' as u8),
    ensures
        ml_basic_end(t, start, j, quotes, slashes) matches Ok((k, hi)) ==> j <= k <= t.len()
            && start + 3 <= hi <= k && is_triple(t, hi - 3, ('"' as u8)),
    decreases t.len() - j,
{
    let b = byte_at(t, j);
    if b == ('"' as u8) {
        let q: nat = if slashes % 2 == 0 {
            quotes + 1
        } else {
            0
        };
        lemma_ml_basic_end(t, start, j + 1, q, 0);
    } else if 3 <= quotes <= 5 {
    } else if quotes >= 6 {
    } else if b == ('\\' as u8) {
        lemma_ml_basic_end(t, start, j + 1, 0, slashes + 1);
    } else if b != 0 {
        lemma_ml_basic_end(t, start, j + 1, 0, 0);
    }
}

/// A string, of any form, ends after its opening quote and within the text.
pub proof fn lemma_string_moves(t: Seq<u8>, i: int, out: Seq<Symbol>)
    requires
        0 <= i < t.len(),
        is_quote(t[i]),
    ensures
        moved_on(t, i, string(t, i, out)),
        moved_on(t, i, single_line_string(t, i, out)),
{
    lemma_basic_end(t, i + 1, i + 1, 0);
    lemma_literal_stop(t, i + 1);
    if is_triple(t, i, ('\'' as u8)) {
        lemma_triple_from(t, i + 3, ('\'' as u8));
    }
    if is_triple(t, i, ('"' as u8)) {
        lemma_ml_basic_end(t, i + 3, i + 3, 0, 0);
    }
}

pub proof fn lemma_key_segment_moves(t: Seq<u8>, j: int, out: Seq<Symbol>)
    requires
        starts_key(t, j),
    ensures
        moved_on(t, j, key_segment(t, j, out)),
{
    if is_bare(byte_at(t, j)) {
        lemma_key_end(t, j + 1);
    } else {
        lemma_string_moves(t, j, out);
    }
}

pub proof fn lemma_assign_path_moves(t: Seq<u8>, j: int, saw_dot: bool, out: Seq<Symbol>)
    requires
        0 <= j <= t.len(),
    ensures
        moved_on(t, j, assign_path(t, j, saw_dot, out)),
    decreases t.len() - j,
{
    let b = byte_at(t, j);
    if b == ('\r' as u8) || b == ('\n' as u8) {
    } else if is_blank(b) {
        lemma_assign_path_moves(t, j + 1, saw_dot, out);
    } else if b == ('.' as u8) {
        if !saw_dot {
            lemma_assign_path_moves(t, j + 1, true, out);
        }
    } else if b == ('=' as u8) {
    } else if starts_key(t, j) && saw_dot {
        lemma_key_segment_moves(t, j, out);
        if let Ok((k, o)) = key_segment(t, j, out) {
            lemma_assign_path_moves(t, k, false, o);
        }
    }
}

pub proof fn lemma_header_path_moves(t: Seq<u8>, j: int, saw_dot: bool, out: Seq<Symbol>)
    requires
        0 <= j <= t.len(),
    ensures
        moved_on(t, j, header_path(t, j, saw_dot, out)),
    decreases t.len() - j,
{
    let b = byte_at(t, j);
    if b == ('\r' as u8) || b == ('\n' as u8) {
    } else if is_blank(b) {
        lemma_header_path_moves(t, j + 1, saw_dot, out);
    } else if b == ('.' as u8) {
        if !saw_dot {
            lemma_header_path_moves(t, j + 1, true, out);
        }
    } else if b == (']' as u8) {
    } else if starts_key(t, j) && saw_dot {
        lemma_key_segment_moves(t, j, out);
        if let Ok((k, o)) = key_segment(t, j, out) {
            lemma_header_path_moves(t, k, false, o);
        }
    }
}

pub proof fn lemma_table_moves(t: Seq<u8>, i: int, out: Seq<Symbol>)
    requires
        byte_at(t, i) == ('[' as u8),
    ensures
        moved_on(t, i, table(t, i, out)),
{
    let is_array = byte_at(t, i + 1) == ('[' as u8);
    let j = if is_array {
        i + 2
    } else {
        i + 1
    };
    let kind = if is_array {
        Sym::ArrayOfTable
    } else {
        Sym::Table
    };
    lemma_header_path_moves(t, j, true, out.push(marker(kind, j)));
    if let Ok((k, o)) = header_path(t, j, true, out.push(marker(kind, j))) {
        if is_array && byte_at(t, k) == (']' as u8) {
            lemma_line_end(t, k + 1);
        } else {
            lemma_line_end(t, k);
        }
    }
}

pub proof fn lemma_blank_end(t: Seq<u8>, j: int)
    requires
        0 <= j <= t.len(),
    ensures
        j <= blank_end(t, j) <= t.len(),
    decreases t.len() - j,
{
    if is_blank(byte_at(t, j)) {
        lemma_blank_end(t, j + 1);
    }
}

pub proof fn lemma_array_gap(t: Seq<u8>, j: int)
    requires
        0 <= j <= t.len(),
    ensures
        array_gap(t, j) matches Ok(k) ==> j <= k <= t.len(),
    decreases t.len() - j,
{
    let b = byte_at(t, j);
    if is_blank(b) || b == ('\n' as u8) {
        lemma_array_gap(t, j + 1);
    } else if b == ('\r' as u8) {
        if byte_at(t, j + 1) == ('\n' as u8) {
            lemma_array_gap(t, j + 2);
        }
    } else if b == ('#' as u8) {
        lemma_comment_end(t, j + 1);
        if let Ok(k) = comment_end(t, j + 1) {
            lemma_array_gap(t, k);
        }
    }
}

pub proof fn lemma_radix_digits_end(t: Seq<u8>, j: int, radix: u8, allow: bool)
    requires
        0 <= j <= t.len(),
    ensures
        radix_digits_end(t, j, radix, allow) matches Ok(k) ==> j <= k <= t.len() && (allow || j
            < k),
    decreases t.len() - j,
{
    let b = byte_at(t, j);
    if is_digit_in(b, radix) {
        lemma_radix_digits_end(t, j + 1, radix, true);
    } else if b == ('_' as u8) && allow {
        lemma_radix_digits_end(t, j + 1, radix, false);
    }
}

pub proof fn lemma_decimal_end(t: Seq<u8>, j: int, part: NumberPart, allow: bool)
    requires
        0 <= j <= t.len(),
    ensures
        decimal_end(t, j, part, allow) matches Ok((k, _)) ==> j <= k <= t.len() && (allow || j
            < k),
    decreases t.len() - j,
{
    let b = byte_at(t, j);
    if is_digit(b) {
        lemma_decimal_end(t, j + 1, part, true);
    } else if b == ('_' as u8) && allow {
        lemma_decimal_end(t, j + 1, part, false);
    } else if b == ('.' as u8) && allow && part == NumberPart::Whole {
        lemma_decimal_end(t, j + 1, NumberPart::Fraction, false);
    } else if (b == ('e' as u8) || b == ('E' as u8)) && allow && part != NumberPart::Exponent {
        let c = byte_at(t, j + 1);
        if c == ('+' as u8) || c == ('-' as u8) {
            lemma_decimal_end(t, j + 2, NumberPart::Exponent, false);
        } else {
            lemma_decimal_end(t, j + 1, NumberPart::Exponent, false);
        }
    }
}

pub proof fn lemma_digits_end(t: Seq<u8>, j: int)
    requires
        0 <= j <= t.len(),
    ensures
        j <= digits_end(t, j) <= t.len(),
    decreases t.len() - j,
{
    if is_digit(byte_at(t, j)) {
        lemma_digits_end(t, j + 1);
    }
}

/// A date-time ends within the text, and after its start where it is one.
pub proof fn lemma_date_time_end(t: Seq<u8>, j: int)
    requires
        0 <= j <= t.len(),
    ensures
        j <= date_time_end(t, j) <= t.len(),
{
    if is_date(t, j) {
        if is_time(t, j + 11) && byte_at(t, j + 19) == '.' as u8 && is_digit(byte_at(t, j + 20)) {
            lemma_digits_end(t, j + 20);
        }
    } else if is_time(t, j) && byte_at(t, j + 8) == '.' as u8 && is_digit(byte_at(t, j + 9)) {
        lemma_digits_end(t, j + 9);
    }
}

pub proof fn lemma_atom_moves(t: Seq<u8>, j: int, out: Seq<Symbol>)
    requires
        0 <= j <= t.len(),
    ensures
        moved_on(t, j, atom(t, j, out)),
{
    let b = byte_at(t, j);
    let d = if b == ('+' as u8) || b == ('-' as u8) {
        j + 1
    } else {
        j
    };
    lemma_date_time_end(t, j);
    if d <= t.len() {
        lemma_decimal_end(t, d, NumberPart::Whole, false);
        if radix_of(byte_at(t, d + 1)) != 10 && byte_at(t, d) == ('0' as u8) {
            lemma_radix_digits_end(t, d + 2, radix_of(byte_at(t, d + 1)), false);
        }
    }
}

/// Every value ends after where it starts, within the text.
pub proof fn lemma_value_moves(t: Seq<u8>, j: int, out: Seq<Symbol>)
    requires
        0 <= j <= t.len(),
    ensures
        moved_on(t, j, value(t, j, out)),
    decreases t.len() - j, 3int,
{
    let b = byte_at(t, j);
    if is_blank(b) {
        lemma_value_moves(t, j + 1, out);
    } else if b == ('\r' as u8) && byte_at(t, j + 1) != ('\n' as u8) {
    } else if is_quote(b) {
        lemma_string_moves(t, j, out);
    } else if b == ('{' as u8) {
        lemma_inline_table_moves(t, j, out);
    } else if b == ('[' as u8) {
        lemma_array_moves(t, j, out);
    } else {
        lemma_atom_moves(t, j, out);
    }
}

pub proof fn lemma_array_moves(t: Seq<u8>, i: int, out: Seq<Symbol>)
    requires
        0 <= i < t.len(),
    ensures
        moved_on(t, i, array(t, i, out)),
    decreases t.len() - i, 2int,
{
    lemma_array_gap(t, i + 1);
    let o = out.push(marker(Sym::Array, i));
    if let Ok(j) = array_gap(t, i + 1) {
        if byte_at(t, j) != (']' as u8) {
            lemma_array_items_moves(t, j, o);
        }
    }
}

pub proof fn lemma_array_items_moves(t: Seq<u8>, j: int, out: Seq<Symbol>)
    requires
        0 <= j <= t.len(),
    ensures
        moved_on(t, j, array_items(t, j, out)),
    decreases t.len() - j, 4int,
{
    let r = value(t, j, out);
    if let Ok((k, o)) = r {
        if moved_on(t, j, r) {
            lemma_array_gap(t, k);
            if let Ok(g) = array_gap(t, k) {
                if byte_at(t, g) == (',' as u8) {
                    lemma_array_gap(t, g + 1);
                    if let Ok(h) = array_gap(t, g + 1) {
                        if byte_at(t, h) != (']' as u8) {
                            lemma_array_items_moves(t, h, o);
                        }
                    }
                }
            }
        }
    }
}

pub proof fn lemma_inline_table_moves(t: Seq<u8>, i: int, out: Seq<Symbol>)
    requires
        0 <= i < t.len(),
    ensures
        moved_on(t, i, inline_table(t, i, out)),
    decreases t.len() - i, 2int,
{
    lemma_blank_end(t, i + 1);
    let j = blank_end(t, i + 1);
    if byte_at(t, j) != ('}' as u8) {
        lemma_inline_pairs_moves(t, j, out.push(marker(Sym::InlineTable, i)));
    }
}

pub proof fn lemma_inline_pairs_moves(t: Seq<u8>, j: int, out: Seq<Symbol>)
    requires
        0 <= j <= t.len(),
    ensures
        moved_on(t, j, inline_pairs(t, j, out)),
    decreases t.len() - j, 4int,
{
    if starts_key(t, j) {
        lemma_key_segment_moves(t, j, out);
        if let Ok((k, o1)) = key_segment(t, j, out) {
            lemma_assign_path_moves(t, k, false, o1);
            if let Ok((m, o2)) = assign_path(t, k, false, o1) {
                let r = value(t, m, o2);
                if let Ok((n, o3)) = r {
                    if moved_on(t, m, r) {
                        lemma_blank_end(t, n);
                        let g = blank_end(t, n);
                        if byte_at(t, g) == (',' as u8) {
                            lemma_blank_end(t, g + 1);
                            lemma_inline_pairs_moves(t, blank_end(t, g + 1), o3);
                        }
                    }
                }
            }
        }
    }
}

pub proof fn lemma_key_value_moves(t: Seq<u8>, j: int, out: Seq<Symbol>)
    requires
        starts_key(t, j),
    ensures
        moved_on(t, j, key_value(t, j, out)),
{
    lemma_key_segment_moves(t, j, out);
    if let Ok((k, o1)) = key_segment(t, j, out) {
        lemma_assign_path_moves(t, k, false, o1);
        if let Ok((m, o2)) = assign_path(t, k, false, o1) {
            lemma_value_moves(t, m, o2);
            if let Ok((n, o3)) = value(t, m, o2) {
                lemma_line_end(t, n);
            }
        }
    }
}

} // verus!
