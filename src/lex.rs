//! The scanner: a cursor over the bytes of the text and the symbols found
//! so far. Each routine is proved to do what its namesake in
//! [`crate::grammar`] describes.
use vstd::prelude::*;
use vstd::slice::slice_subrange;
use vstd::string::StringSliceAdditionalSpecFns;

use crate::grammar::{
    array, array_gap, array_items, assign_path, atom, bare_key, basic_end, basic_string, blank_end,
    byte_at, comment_end, date_time, decimal_end, digits_end, document, ends_number, header_path,
    inline_pairs, inline_table, is_bare, is_blank, is_date, is_digit, is_digit_in, is_literal_stop,
    is_quote, is_time, key_end, key_line_error, key_segment, key_value, lemma_array_gap,
    lemma_assign_path_moves, lemma_blank_end, lemma_comment_end, lemma_date_time_end,
    lemma_decimal_end, lemma_digits_end, lemma_key_segment_moves, lemma_key_value_moves,
    lemma_radix_digits_end, lemma_table_moves, lemma_value_moves, line_end, literal_stop,
    literal_string, ml_basic_end, ml_basic_string, ml_literal_string, number, offset_end,
    radix_digits_end, radix_of, single_line_string, special_float, starts_date_time, starts_key,
    string, table, time_end, triple_from, two_digits, value, word_at, word_false, word_inf,
    word_nan, word_true, NumberPart, Scanned,
};
use crate::search::{first_of_three, first_triple, is_one_of, is_triple};
use crate::symbol::{marker, spanned, Error, Sym, Symbol};

verus! {

/// A scanner over `text`: a cursor, the byte under it, and the symbols
/// produced so far.
pub struct Lex<'a> {
    pub text: &'a str,
    index: usize,
    current: u8,
    symbols: Vec<Symbol>,
}

fn is_bare_byte(b: u8) -> (r: bool)
    ensures
        r == is_bare(b),
{
    ('a' as u8 <= b && b <= 'z' as u8) || ('A' as u8 <= b && b <= 'Z' as u8) || ('0' as u8 <= b
        && b <= '9' as u8) || b == '_' as u8 || b == '-' as u8
}

fn is_blank_byte(b: u8) -> (r: bool)
    ensures
        r == is_blank(b),
{
    b == ' ' as u8 || b == '\t' as u8
}

fn is_digit_byte(b: u8) -> (r: bool)
    ensures
        r == is_digit(b),
{
    '0' as u8 <= b && b <= '9' as u8
}

fn is_quote_byte(b: u8) -> (r: bool)
    ensures
        r == is_quote(b),
{
    b == '"' as u8 || b == '\'' as u8
}

/// The first position from `j` on that holds a stop byte of a literal
/// string is `k`, where no byte in between is one and `k` is one or the end.
proof fn lemma_literal_stop_at(t: Seq<u8>, j: int, k: int)
    requires
        0 <= j <= k <= t.len(),
        forall|m: int| j <= m < k ==> !is_literal_stop(#[trigger] t[m]),
        k == t.len() || is_literal_stop(t[k]),
    ensures
        literal_stop(t, j) == k,
    decreases k - j,
{
    if j < k {
        lemma_literal_stop_at(t, j + 1, k);
    }
}

/// The first triple of `b` from `j` on is at `k`.
proof fn lemma_triple_at(t: Seq<u8>, j: int, k: int, b: u8)
    requires
        0 <= j <= k,
        is_triple(t, k, b),
        forall|m: int| j <= m < k ==> !#[trigger] is_triple(t, m, b),
    ensures
        triple_from(t, j, b) == Some(k),
    decreases k - j,
{
    if j < k {
        lemma_triple_at(t, j + 1, k, b);
    }
}

/// There is no triple of `b` from `j` on.
proof fn lemma_no_triple(t: Seq<u8>, j: int, b: u8)
    requires
        0 <= j,
        forall|m: int| j <= m ==> !#[trigger] is_triple(t, m, b),
    ensures
        triple_from(t, j, b) == None::<int>,
    decreases t.len() - j,
{
    if j + 3 <= t.len() {
        lemma_no_triple(t, j + 1, b);
    }
}

impl<'a> Lex<'a> {
    /// The bytes of the text.
    pub closed spec fn bytes(&self) -> Seq<u8> {
        self.text.spec_bytes()
    }

    /// The cursor.
    pub closed spec fn pos(&self) -> int {
        self.index as int
    }

    /// The symbols produced so far.
    pub closed spec fn emitted(&self) -> Seq<Symbol> {
        self.symbols@
    }

    /// The cursor lies within the text, and the cached byte is the one under it.
    pub closed spec fn wf(&self) -> bool {
        &&& self.index <= self.bytes().len()
        &&& self.bytes().len() <= usize::MAX
        &&& self.current == byte_at(self.bytes(), self.index as int)
    }

    /// A routine's result `r` in the terms of the grammar: the cursor and the
    /// symbols, or the error.
    pub closed spec fn outcome(&self, r: Result<(), Error>) -> Scanned {
        match r {
            Ok(_) => Ok((self.index as int, self.symbols@)),
            Err(e) => Err(e),
        }
    }

    /// Like `outcome`, for routines that produce no symbols.
    pub closed spec fn landed(&self, r: Result<(), Error>) -> Result<int, Error> {
        match r {
            Ok(_) => Ok(self.index as int),
            Err(e) => Err(e),
        }
    }

    pub fn new(text: &'a str) -> (r: Lex<'a>)
        ensures
            r.wf(),
            r.bytes() == text.spec_bytes(),
            r.pos() == 0,
            r.emitted() == Seq::<Symbol>::empty(),
    {
        let bytes = text.as_bytes();
        let current = if bytes.len() > 0 {
            bytes[0]
        } else {
            0
        };
        Lex { text, index: 0, current, symbols: Vec::new() }
    }

    /// The symbols produced so far.
    pub fn symbols(&self) -> (r: &[Symbol])
        ensures
            r@ == self.emitted(),
    {
        self.symbols.as_slice()
    }

    /// The cursor.
    pub fn position(&self) -> (r: usize)
        ensures
            r == self.pos(),
    {
        self.index
    }

    fn byte(&self, i: usize) -> (b: u8)
        ensures
            b == byte_at(self.bytes(), i as int),
    {
        let bytes = self.text.as_bytes();
        if i < bytes.len() {
            bytes[i]
        } else {
            0
        }
    }

    fn peek(&self) -> (b: u8)
        requires
            self.wf(),
        ensures
            b == byte_at(self.bytes(), self.index + 1),
    {
        if self.index < self.text.as_bytes().len() {
            self.byte(self.index + 1)
        } else {
            0
        }
    }

    fn peek2(&self) -> (b: u8)
        requires
            self.wf(),
        ensures
            b == byte_at(self.bytes(), self.index + 2),
    {
        if self.index < self.text.as_bytes().len() && self.index + 1 < self.text.as_bytes().len() {
            self.byte(self.index + 2)
        } else {
            0
        }
    }

    fn next(&mut self)
        requires
            old(self).wf(),
            old(self).index < old(self).bytes().len(),
        ensures
            final(self).wf(),
            final(self).text == old(self).text,
            final(self).index == old(self).index + 1,
            final(self).symbols == old(self).symbols,
    {
        self.index = self.index + 1;
        self.current = self.byte(self.index);
    }

    fn advance(&mut self, index: usize)
        requires
            old(self).wf(),
            index <= old(self).bytes().len(),
        ensures
            final(self).wf(),
            final(self).text == old(self).text,
            final(self).index == index,
            final(self).symbols == old(self).symbols,
    {
        self.index = index;
        self.current = self.byte(self.index);
    }

    fn eat(&mut self, c: u8) -> (r: bool)
        requires
            old(self).wf(),
            c != 0,
        ensures
            final(self).wf(),
            final(self).text == old(self).text,
            r == (old(self).current == c),
            final(self).index == if r {
                old(self).index + 1
            } else {
                old(self).index as int
            },
            final(self).symbols == old(self).symbols,
    {
        if self.current == c {
            self.next();
            true
        } else {
            false
        }
    }

    fn push(&mut self, sym: Sym)
        requires
            old(self).wf(),
        ensures
            final(self).wf(),
            final(self).text == old(self).text,
            final(self).index == old(self).index,
            final(self).symbols@ == old(self).symbols@.push(marker(sym, old(self).index as int)),
    {
        let symbol = Symbol::new(sym, self.index);
        self.symbols.push(symbol);
    }

    fn push_span(&mut self, sym: Sym, lo: usize, hi: usize)
        requires
            old(self).wf(),
        ensures
            final(self).wf(),
            final(self).text == old(self).text,
            final(self).index == old(self).index,
            final(self).symbols@ == old(self).symbols@.push(spanned(sym, lo as int, hi as int)),
    {
        let symbol = Symbol::with_span(sym, lo, hi);
        self.symbols.push(symbol);
    }

    fn err_unterminated_string(&self, start: usize) -> (r: Result<(), Error>)
        ensures
            r == Err::<(), Error>(Error::UnterminatedString { start, pos: self.index }),
    {
        Err(Error::UnterminatedString { start, pos: self.index })
    }

    fn err_too_many_quotes_in_string(&self, start: usize) -> (r: Result<(), Error>)
        ensures
            r == Err::<(), Error>(Error::TooManyQuotesInString { start, pos: self.index }),
    {
        Err(Error::TooManyQuotesInString { start, pos: self.index })
    }

    fn err_illegal_control_character(&self) -> (r: Result<(), Error>)
        ensures
            r == Err::<(), Error>(Error::ControlCharacter { pos: self.index }),
    {
        Err(Error::ControlCharacter { pos: self.index })
    }

    fn err_illegal_multiline_string(&self) -> (r: Result<(), Error>)
        ensures
            r == Err::<(), Error>(Error::MultilineString { pos: self.index }),
    {
        Err(Error::MultilineString { pos: self.index })
    }

    fn err_unconsumed_input(&self) -> (r: Result<(), Error>)
        ensures
            r == Err::<(), Error>(Error::UnconsumedInput { pos: self.index }),
    {
        Err(Error::UnconsumedInput { pos: self.index })
    }

    fn err_expected(&self, c: char) -> (r: Result<(), Error>)
        ensures
            r == Err::<(), Error>(Error::Expected { pos: self.index, c }),
    {
        Err(Error::Expected { pos: self.index, c })
    }

    fn err_missing_delimiter(&self) -> (r: Result<(), Error>)
        ensures
            r == Err::<(), Error>(Error::MissingDelimiter { pos: self.index }),
    {
        Err(Error::MissingDelimiter { pos: self.index })
    }

    fn err_unexpected(&self) -> (r: Result<(), Error>)
        ensures
            r == Err::<(), Error>(Error::Unexpected { pos: self.index }),
    {
        Err(Error::Unexpected { pos: self.index })
    }

    /// The error for a line ending under the cursor inside a key path.
    fn err_multiline_key(&self) -> (r: Result<(), Error>)
        requires
            self.wf(),
        ensures
            r == Err::<(), Error>(key_line_error(self.bytes(), self.index as int)),
    {
        if self.current == '\r' as u8 && self.peek() != '\n' as u8 {
            self.err_illegal_control_character()
        } else {
            Err(Error::MultilineKey { pos: self.index })
        }
    }

    /// A comment, from its `#` under the cursor.
    fn consume_comment(&mut self) -> (r: Result<(), Error>)
        requires
            old(self).wf(),
            old(self).current == '#' as u8,
        ensures
            final(self).wf(),
            final(self).text == old(self).text,
            final(self).symbols == old(self).symbols,
            final(self).landed(r) == comment_end(old(self).bytes(), old(self).index + 1),
    {
        let ghost t = self.bytes();
        self.next();
        loop
            invariant
                self.wf(),
                self.text == old(self).text,
                self.symbols == old(self).symbols,
                self.bytes() == t,
                comment_end(t, old(self).index + 1) == comment_end(t, self.index as int),
            decreases t.len() - self.index,
        {
            let c = self.current;
            if c == '\n' as u8 || c == 0 {
                return Ok(());
            } else if c == '\r' as u8 {
                if self.peek() != '\n' as u8 {
                    return self.err_illegal_control_character();
                }
                self.next();
                self.next();
                return Ok(());
            } else if (1 <= c && c <= 8) || (10 <= c && c <= 31) || c == 127 {
                return self.err_illegal_control_character();
            }
            self.next();
        }
    }

    /// The rest of a line: blanks, an optional comment, the line ending.
    fn consume_line(&mut self) -> (r: Result<(), Error>)
        requires
            old(self).wf(),
        ensures
            final(self).wf(),
            final(self).text == old(self).text,
            final(self).symbols == old(self).symbols,
            final(self).landed(r) == line_end(old(self).bytes(), old(self).index as int),
    {
        let ghost t = self.bytes();
        loop
            invariant
                self.wf(),
                self.text == old(self).text,
                self.symbols == old(self).symbols,
                self.bytes() == t,
                line_end(t, old(self).index as int) == line_end(t, self.index as int),
            decreases t.len() - self.index,
        {
            let c = self.current;
            if c == '\r' as u8 {
                if self.peek() != '\n' as u8 {
                    return self.err_illegal_control_character();
                }
                self.next();
                self.next();
                return Ok(());
            } else if is_blank_byte(c) {
                self.next();
            } else if c == '\n' as u8 || c == 0 {
                return Ok(());
            } else if c == '#' as u8 {
                return self.consume_comment();
            } else {
                return self.err_unexpected();
            }
        }
    }

    /// A bare key, from its first byte under the cursor.
    fn scan_key(&mut self) -> (r: Result<(), Error>)
        requires
            old(self).wf(),
            is_bare(old(self).current),
        ensures
            final(self).wf(),
            final(self).text == old(self).text,
            final(self).outcome(r) == bare_key(
                old(self).bytes(),
                old(self).index as int,
                old(self).symbols@,
            ),
    {
        let ghost t = self.bytes();
        let start = self.index;
        self.next();
        loop
            invariant
                self.wf(),
                self.text == old(self).text,
                self.symbols == old(self).symbols,
                self.bytes() == t,
                start == old(self).index,
                start < self.index,
                key_end(t, start + 1) == key_end(t, self.index as int),
            ensures
                self.wf(),
                self.text == old(self).text,
                self.symbols == old(self).symbols,
                start < self.index,
                key_end(t, start + 1) == Ok::<int, Error>(self.index as int),
            decreases t.len() - self.index,
        {
            let c = self.current;
            if is_bare_byte(c) {
                self.next();
            } else if is_blank_byte(c) || c == '=' as u8 || c == '.' as u8 || c == ']' as u8 || c
                == '\n' as u8 || c == '\r' as u8 {
                break ;
            } else {
                return self.err_unexpected();
            }
        }
        self.push_span(Sym::Key, start, self.index - 1);
        Ok(())
    }

    /// A basic string, from its opening quote under the cursor.
    fn scan_basic_string(&mut self) -> (r: Result<(), Error>)
        requires
            old(self).wf(),
            old(self).current == '"' as u8,
        ensures
            final(self).wf(),
            final(self).text == old(self).text,
            final(self).outcome(r) == basic_string(
                old(self).bytes(),
                old(self).index as int,
                old(self).symbols@,
            ),
    {
        let ghost t = self.bytes();
        self.next();
        let start = self.index;
        let mut slash_count: usize = 0;
        loop
            invariant
                self.wf(),
                self.text == old(self).text,
                self.symbols == old(self).symbols,
                self.bytes() == t,
                start == old(self).index + 1,
                start <= self.index,
                slash_count <= self.index - start,
                basic_end(t, start as int, start as int, 0) == basic_end(
                    t,
                    start as int,
                    self.index as int,
                    slash_count as nat,
                ),
            ensures
                self.wf(),
                self.text == old(self).text,
                self.symbols == old(self).symbols,
                self.current == '"' as u8,
                basic_end(t, start as int, start as int, 0) == Ok::<int, Error>(self.index as int),
            decreases t.len() - self.index,
        {
            let c = self.current;
            if c == '"' as u8 {
                if slash_count % 2 == 0 {
                    break ;
                }
                slash_count = 0;
            } else if c == '\\' as u8 {
                slash_count = slash_count + 1;
            } else if c == '\n' as u8 || c == 0 {
                return self.err_unterminated_string(start);
            } else {
                slash_count = 0;
            }
            self.next();
        }
        self.push_span(Sym::String, start, self.index);
        self.next();
        Ok(())
    }

    /// A multi-line basic string, from the first quote of its `"""` under
    /// the cursor. Counts the run of unescaped quotes and the run of
    /// backslashes; a run of three to five quotes closes it.
    fn scan_multiline_basic_string(&mut self) -> (r: Result<(), Error>)
        requires
            old(self).wf(),
            is_triple(old(self).bytes(), old(self).index as int, '"' as u8),
        ensures
            final(self).wf(),
            final(self).text == old(self).text,
            final(self).outcome(r) == ml_basic_string(
                old(self).bytes(),
                old(self).index as int,
                old(self).symbols@,
            ),
    {
        let ghost t = self.bytes();
        self.next();
        self.next();
        self.next();
        let start = self.index;
        let mut quote_count: usize = 0;
        let mut slash_count: usize = 0;
        loop
            invariant
                self.wf(),
                self.text == old(self).text,
                self.symbols == old(self).symbols,
                self.bytes() == t,
                start == old(self).index + 3,
                start <= self.index,
                quote_count <= self.index - start,
                slash_count <= self.index - start,
                ml_basic_end(t, start as int, start as int, 0, 0) == ml_basic_end(
                    t,
                    start as int,
                    self.index as int,
                    quote_count as nat,
                    slash_count as nat,
                ),
            decreases t.len() - self.index,
        {
            let c = self.current;
            if c == '"' as u8 {
                if slash_count % 2 == 0 {
                    quote_count = quote_count + 1;
                } else {
                    quote_count = 0;
                }
                slash_count = 0;
            } else if 3 <= quote_count && quote_count <= 5 {
                let extra = quote_count - 3;
                self.push_span(Sym::String, start, self.index - extra);
                return Ok(());
            } else if quote_count >= 6 {
                return self.err_too_many_quotes_in_string(start);
            } else if c == '\\' as u8 {
                slash_count = slash_count + 1;
                quote_count = 0;
            } else if c == 0 {
                return self.err_unterminated_string(start);
            } else {
                quote_count = 0;
                slash_count = 0;
            }
            self.next();
        }
    }

    /// A multi-line literal string, from the first quote of its `'''` under
    /// the cursor. Finds the closing `'''` with one search, then takes up to
    /// two more quotes into the body.
    fn scan_multiline_literal_string(&mut self) -> (r: Result<(), Error>)
        requires
            old(self).wf(),
            is_triple(old(self).bytes(), old(self).index as int, '\'' as u8),
        ensures
            final(self).wf(),
            final(self).text == old(self).text,
            final(self).outcome(r) == ml_literal_string(
                old(self).bytes(),
                old(self).index as int,
                old(self).symbols@,
            ),
    {
        let ghost t = self.bytes();
        self.next();
        self.next();
        self.next();
        let start = self.index;
        let bytes = self.text.as_bytes();
        let rest = slice_subrange(bytes, start, bytes.len());
        let q = '\'' as u8;
        match first_triple(q, rest) {
            Some(k) => {
                proof {
                    assert forall|m: int| start <= m < start + k implies !#[trigger] is_triple(
                        t,
                        m,
                        q,
                    ) by {
                        if is_triple(t, m, q) {
                            assert(is_triple(rest@, m - start, q));
                        }
                    }
                    assert(is_triple(t, start + k, q)) by {
                        assert(rest@[k as int] == t[start + k]);
                        assert(rest@[k + 1] == t[start + k + 1]);
                        assert(rest@[k + 2] == t[start + k + 2]);
                    }
                    lemma_triple_at(t, start as int, start + k, q);
                }
                self.advance(start + k + 3);
                if self.eat(q) {
                    if self.eat(q) {
                        if self.current == q {
                            return self.err_too_many_quotes_in_string(start);
                        }
                    }
                }
                self.push_span(Sym::String, start, self.index - 3);
                Ok(())
            },
            None => {
                proof {
                    assert forall|m: int| start <= m implies !#[trigger] is_triple(t, m, q) by {
                        if is_triple(t, m, q) {
                            assert(is_triple(rest@, m - start, q));
                        }
                    }
                    lemma_no_triple(t, start as int, q);
                }
                self.advance(bytes.len());
                self.err_unterminated_string(start)
            },
        }
    }

    /// A literal string, from its opening quote under the cursor. Finds its
    /// end with one search for a line feed, a quote or NUL.
    fn scan_literal_string(&mut self) -> (r: Result<(), Error>)
        requires
            old(self).wf(),
            old(self).current == '\'' as u8,
        ensures
            final(self).wf(),
            final(self).text == old(self).text,
            final(self).outcome(r) == literal_string(
                old(self).bytes(),
                old(self).index as int,
                old(self).symbols@,
            ),
    {
        let ghost t = self.bytes();
        self.next();
        let start = self.index;
        let bytes = self.text.as_bytes();
        let rest = slice_subrange(bytes, start, bytes.len());
        let (lf, q, nul) = ('\n' as u8, '\'' as u8, 0u8);
        match first_of_three(lf, q, nul, rest) {
            Some(k) => {
                let at = start + k;
                proof {
                    assert forall|m: int| start <= m < at implies !is_literal_stop(
                        #[trigger] t[m],
                    ) by {
                        assert(rest@[m - start] == t[m]);
                        assert(!is_one_of(rest@, m - start, lf, q, nul));
                    }
                    assert(rest@[k as int] == t[at as int]);
                    lemma_literal_stop_at(t, start as int, at as int);
                }
                if bytes[at] == q {
                    let hi = if at == start {
                        at
                    } else {
                        at - 1
                    };
                    self.advance(at + 1);
                    self.push_span(Sym::String, start, hi);
                    Ok(())
                } else {
                    self.advance(at);
                    self.err_unterminated_string(start)
                }
            },
            None => {
                proof {
                    assert forall|m: int| start <= m < t.len() implies !is_literal_stop(
                        #[trigger] t[m],
                    ) by {
                        assert(rest@[m - start] == t[m]);
                        assert(!is_one_of(rest@, m - start, lf, q, nul));
                    }
                    lemma_literal_stop_at(t, start as int, t.len() as int);
                }
                self.advance(bytes.len());
                self.err_unterminated_string(start)
            },
        }
    }

    /// A string of any form, from its opening quote under the cursor.
    fn scan_string(&mut self) -> (r: Result<(), Error>)
        requires
            old(self).wf(),
            is_quote(old(self).current),
        ensures
            final(self).wf(),
            final(self).text == old(self).text,
            final(self).outcome(r) == string(
                old(self).bytes(),
                old(self).index as int,
                old(self).symbols@,
            ),
    {
        let c = self.current;
        if c == self.peek() && c == self.peek2() {
            if c == '\'' as u8 {
                self.scan_multiline_literal_string()
            } else {
                self.scan_multiline_basic_string()
            }
        } else if c == '\'' as u8 {
            self.scan_literal_string()
        } else {
            self.scan_basic_string()
        }
    }

    /// A single-line string, from its opening quote under the cursor.
    fn scan_single_line_string(&mut self) -> (r: Result<(), Error>)
        requires
            old(self).wf(),
            is_quote(old(self).current),
        ensures
            final(self).wf(),
            final(self).text == old(self).text,
            final(self).outcome(r) == single_line_string(
                old(self).bytes(),
                old(self).index as int,
                old(self).symbols@,
            ),
    {
        let c = self.current;
        if c == self.peek() && c == self.peek2() {
            self.err_illegal_multiline_string()
        } else if c == '\'' as u8 {
            self.scan_literal_string()
        } else {
            self.scan_basic_string()
        }
    }
    /// A key segment, bare or quoted, from its first byte under the cursor.
    fn scan_key_segment(&mut self) -> (r: Result<(), Error>)
        requires
            old(self).wf(),
            starts_key(old(self).bytes(), old(self).index as int),
        ensures
            final(self).wf(),
            final(self).text == old(self).text,
            final(self).outcome(r) == key_segment(
                old(self).bytes(),
                old(self).index as int,
                old(self).symbols@,
            ),
            r is Ok ==> old(self).index < final(self).index,
    {
        proof {
            lemma_key_segment_moves(self.bytes(), self.index as int, self.symbols@);
        }
        if is_bare_byte(self.current) {
            self.scan_key()
        } else {
            self.scan_single_line_string()
        }
    }

    /// The rest of the key path of an assignment, from the cursor, up to and
    /// including its `=`.
    fn scan_dotted(&mut self) -> (r: Result<(), Error>)
        requires
            old(self).wf(),
        ensures
            final(self).wf(),
            final(self).text == old(self).text,
            final(self).outcome(r) == assign_path(
                old(self).bytes(),
                old(self).index as int,
                false,
                old(self).symbols@,
            ),
    {
        let ghost t = self.bytes();
        let mut saw_dot = false;
        loop
            invariant
                self.wf(),
                self.text == old(self).text,
                self.bytes() == t,
                assign_path(t, old(self).index as int, false, old(self).symbols@) == assign_path(
                    t,
                    self.index as int,
                    saw_dot,
                    self.symbols@,
                ),
            decreases t.len() - self.index,
        {
            let c = self.current;
            if c == '\r' as u8 || c == '\n' as u8 {
                return self.err_multiline_key();
            } else if is_blank_byte(c) {
                self.next();
            } else if c == '.' as u8 {
                if saw_dot {
                    return self.err_unexpected();
                }
                saw_dot = true;
                self.next();
            } else if c == '=' as u8 {
                if saw_dot {
                    return self.err_unexpected();
                }
                self.push(Sym::Assign);
                self.next();
                return Ok(());
            } else if (is_bare_byte(c) || is_quote_byte(c)) && saw_dot {
                if let Err(e) = self.scan_key_segment() {
                    return Err(e);
                }
                saw_dot = false;
            } else {
                return self.err_unexpected();
            }
        }
    }

    /// A table header, from its `[` under the cursor, with the rest of its
    /// line.
    fn scan_table(&mut self) -> (r: Result<(), Error>)
        requires
            old(self).wf(),
            old(self).current == '[' as u8,
        ensures
            final(self).wf(),
            final(self).text == old(self).text,
            final(self).outcome(r) == table(
                old(self).bytes(),
                old(self).index as int,
                old(self).symbols@,
            ),
    {
        let ghost t = self.bytes();
        self.next();
        let is_array = self.eat('[' as u8);
        self.push(
            if is_array {
                Sym::ArrayOfTable
            } else {
                Sym::Table
            },
        );
        let ghost j = self.index as int;
        let ghost o = self.symbols@;
        let mut saw_dot = true;
        loop
            invariant_except_break
                header_path(t, j, true, o) == header_path(
                    t,
                    self.index as int,
                    saw_dot,
                    self.symbols@,
                ),
            invariant
                self.wf(),
                self.text == old(self).text,
                self.bytes() == t,
                is_array == (byte_at(t, old(self).index + 1) == '[' as u8),
                j == if is_array {
                    old(self).index + 2
                } else {
                    old(self).index + 1
                },
                o == old(self).symbols@.push(
                    marker(
                        if is_array {
                            Sym::ArrayOfTable
                        } else {
                            Sym::Table
                        },
                        j,
                    ),
                ),
            ensures
                self.wf(),
                self.text == old(self).text,
                header_path(t, j, true, o) == Ok::<(int, Seq<Symbol>), Error>(
                    (self.index as int, self.symbols@),
                ),
            decreases t.len() - self.index,
        {
            let c = self.current;
            if c == '\r' as u8 || c == '\n' as u8 {
                return self.err_multiline_key();
            } else if is_blank_byte(c) {
                self.next();
            } else if c == '.' as u8 {
                if saw_dot {
                    return self.err_unexpected();
                }
                saw_dot = true;
                self.next();
            } else if c == ']' as u8 {
                if saw_dot {
                    return self.err_unexpected();
                }
                self.next();
                break ;
            } else if (is_bare_byte(c) || is_quote_byte(c)) && saw_dot {
                if let Err(e) = self.scan_key_segment() {
                    return Err(e);
                }
                saw_dot = false;
            } else {
                return self.err_unexpected();
            }
        }
        if is_array && !self.eat(']' as u8) {
            return self.err_expected(']');
        }
        if let Err(e) = self.consume_line() {
            return Err(e);
        }
        self.push(Sym::TableEnd);
        Ok(())
    }

    /// Moves the cursor past blanks.
    fn skip_blanks(&mut self)
        requires
            old(self).wf(),
        ensures
            final(self).wf(),
            final(self).text == old(self).text,
            final(self).symbols == old(self).symbols,
            final(self).index == blank_end(old(self).bytes(), old(self).index as int),
    {
        let ghost t = self.bytes();
        while is_blank_byte(self.current)
            invariant
                self.wf(),
                self.text == old(self).text,
                self.symbols == old(self).symbols,
                self.bytes() == t,
                blank_end(t, old(self).index as int) == blank_end(t, self.index as int),
            decreases t.len() - self.index,
        {
            self.next();
        }
    }

    /// Moves the cursor past blanks, line endings and comments.
    fn skip_array_gap(&mut self) -> (r: Result<(), Error>)
        requires
            old(self).wf(),
        ensures
            final(self).wf(),
            final(self).text == old(self).text,
            final(self).symbols == old(self).symbols,
            final(self).landed(r) == array_gap(old(self).bytes(), old(self).index as int),
    {
        let ghost t = self.bytes();
        loop
            invariant
                self.wf(),
                self.text == old(self).text,
                self.symbols == old(self).symbols,
                self.bytes() == t,
                array_gap(t, old(self).index as int) == array_gap(t, self.index as int),
            decreases t.len() - self.index,
        {
            let c = self.current;
            if is_blank_byte(c) || c == '\n' as u8 {
                self.next();
            } else if c == '\r' as u8 {
                if self.peek() != '\n' as u8 {
                    return self.err_illegal_control_character();
                }
                self.next();
                self.next();
            } else if c == '#' as u8 {
                let ghost j = self.index as int;
                proof {
                    lemma_comment_end(t, j + 1);
                }
                if let Err(e) = self.consume_comment() {
                    return Err(e);
                }
            } else {
                return Ok(());
            }
        }
    }

    /// Whether the bytes under and after the cursor start with `w`.
    fn at_word(&self, w: &Vec<u8>) -> (r: bool)
        requires
            self.wf(),
        ensures
            r == word_at(self.bytes(), self.index as int, w@),
    {
        let ghost t = self.bytes();
        let bytes = self.text.as_bytes();
        if w.len() > bytes.len() - self.index {
            return false;
        }
        let mut k: usize = 0;
        while k < w.len()
            invariant
                self.wf(),
                t == self.bytes(),
                bytes@ == t,
                k <= w.len(),
                self.index + w.len() <= t.len(),
                forall|m: int| 0 <= m < k ==> t[self.index + m] == w@[m],
            decreases w.len() - k,
        {
            if bytes[self.index + k] != w[k] {
                proof {
                    assert(t.subrange(self.index as int, self.index + w.len())[k as int] != w@[k as int]);
                }
                return false;
            }
            k = k + 1;
        }
        proof {
            assert(t.subrange(self.index as int, self.index + w.len()) =~= w@);
        }
        true
    }

    /// The digits of an integer in `radix`, from the cursor.
    fn scan_radix_digits(&mut self, radix: u8) -> (r: Result<(), Error>)
        requires
            old(self).wf(),
        ensures
            final(self).wf(),
            final(self).text == old(self).text,
            final(self).symbols == old(self).symbols,
            final(self).landed(r) == radix_digits_end(
                old(self).bytes(),
                old(self).index as int,
                radix,
                false,
            ),
    {
        let ghost t = self.bytes();
        let mut allow_underscore = false;
        loop
            invariant
                self.wf(),
                self.text == old(self).text,
                self.symbols == old(self).symbols,
                self.bytes() == t,
                radix_digits_end(t, old(self).index as int, radix, false) == radix_digits_end(
                    t,
                    self.index as int,
                    radix,
                    allow_underscore,
                ),
            decreases t.len() - self.index,
        {
            let c = self.current;
            if is_digit_in_radix(c, radix) {
                allow_underscore = true;
                self.next();
            } else if c == '_' as u8 && allow_underscore {
                allow_underscore = false;
                self.next();
            } else if ends_number_byte(c) && allow_underscore {
                return Ok(());
            } else {
                return self.err_unexpected();
            }
        }
    }

    /// The digits of a decimal number, from the cursor, with an optional
    /// fraction and exponent. Yields the part the number ends in.
    fn scan_decimal(&mut self) -> (r: Result<NumberPart, Error>)
        requires
            old(self).wf(),
        ensures
            final(self).wf(),
            final(self).text == old(self).text,
            final(self).symbols == old(self).symbols,
            decimal_end(old(self).bytes(), old(self).index as int, NumberPart::Whole, false) == match r {
                Ok(part) => Ok((final(self).index as int, part)),
                Err(e) => Err(e),
            },
    {
        let ghost t = self.bytes();
        let mut part = NumberPart::Whole;
        let mut allow_underscore = false;
        loop
            invariant
                self.wf(),
                self.text == old(self).text,
                self.symbols == old(self).symbols,
                self.bytes() == t,
                decimal_end(t, old(self).index as int, NumberPart::Whole, false) == decimal_end(
                    t,
                    self.index as int,
                    part,
                    allow_underscore,
                ),
            decreases t.len() - self.index,
        {
            let c = self.current;
            if '0' as u8 <= c && c <= '9' as u8 {
                allow_underscore = true;
                self.next();
            } else if c == '_' as u8 && allow_underscore {
                allow_underscore = false;
                self.next();
            } else if c == '.' as u8 && allow_underscore && part == NumberPart::Whole {
                part = NumberPart::Fraction;
                allow_underscore = false;
                self.next();
            } else if (c == 'e' as u8 || c == 'E' as u8) && allow_underscore && part
                != NumberPart::Exponent {
                let sign = self.peek();
                self.next();
                if sign == '+' as u8 || sign == '-' as u8 {
                    self.next();
                }
                part = NumberPart::Exponent;
                allow_underscore = false;
            } else if ends_number_byte(c) && allow_underscore {
                return Ok(part);
            } else {
                return Err(Error::Unexpected { pos: self.index });
            }
        }
    }

    /// A number whose first byte, past its sign, is under the cursor; its
    /// span starts at `start`.
    fn scan_number(&mut self, start: usize) -> (r: Result<(), Error>)
        requires
            old(self).wf(),
            start <= old(self).index,
        ensures
            final(self).wf(),
            final(self).text == old(self).text,
            final(self).outcome(r) == number(
                old(self).bytes(),
                start as int,
                old(self).index as int,
                old(self).symbols@,
            ),
    {
        let ghost t = self.bytes();
        let ghost d = self.index as int;
        let radix = radix_of_byte(self.peek());
        if self.current == '0' as u8 && radix != 10 {
            self.next();
            self.next();
            proof {
                lemma_radix_digits_end(t, d + 2, radix, false);
            }
            if let Err(e) = self.scan_radix_digits(radix) {
                return Err(e);
            }
            self.push_span(Sym::Integer, start, self.index - 1);
            Ok(())
        } else {
            proof {
                lemma_decimal_end(t, d, NumberPart::Whole, false);
            }
            match self.scan_decimal() {
                Ok(part) => {
                    let kind = if part == NumberPart::Whole {
                        Sym::Integer
                    } else {
                        Sym::Float
                    };
                    self.push_span(kind, start, self.index - 1);
                    Ok(())
                },
                Err(e) => Err(e),
            }
        }
    }

    /// `inf` or `nan` under the cursor, as a float whose span starts at
    /// `start`.
    fn scan_special_float(&mut self, start: usize) -> (r: Result<(), Error>)
        requires
            old(self).wf(),
            start <= old(self).index,
        ensures
            final(self).wf(),
            final(self).text == old(self).text,
            final(self).outcome(r) == special_float(
                old(self).bytes(),
                start as int,
                old(self).index as int,
                old(self).symbols@,
            ),
    {
        let i = self.index;
        if self.at_word(&inf_word()) || self.at_word(&nan_word()) {
            self.advance(i + 3);
            self.push_span(Sym::Float, start, i + 2);
            Ok(())
        } else {
            self.err_unexpected()
        }
    }

    /// The byte `c` places after position `p`, or `0` past the end.
    fn byte_after(&self, p: usize, c: usize) -> (b: u8)
        requires
            self.wf(),
            p <= self.bytes().len(),
        ensures
            b == byte_at(self.bytes(), p + c),
    {
        if c < self.text.as_bytes().len() - p {
            self.byte(p + c)
        } else {
            0
        }
    }

    fn two_digits_at(&self, p: usize, c: usize) -> (r: bool)
        requires
            self.wf(),
            p <= self.bytes().len(),
        ensures
            r == two_digits(self.bytes(), p + c),
    {
        if c < self.text.as_bytes().len() - p {
            is_digit_byte(self.byte_after(p, c)) && is_digit_byte(self.byte_after(p, c + 1))
        } else {
            false
        }
    }

    fn is_date_at(&self, p: usize) -> (r: bool)
        requires
            self.wf(),
            p <= self.bytes().len(),
        ensures
            r == is_date(self.bytes(), p as int),
    {
        self.two_digits_at(p, 0) && self.two_digits_at(p, 2) && self.byte_after(p, 4) == '-' as u8
            && self.two_digits_at(p, 5) && self.byte_after(p, 7) == '-' as u8
            && self.two_digits_at(p, 8)
    }

    fn is_time_at(&self, p: usize) -> (r: bool)
        requires
            self.wf(),
            p <= self.bytes().len(),
        ensures
            r == is_time(self.bytes(), p as int),
    {
        self.two_digits_at(p, 0) && self.byte_after(p, 2) == ':' as u8 && self.two_digits_at(p, 3)
            && self.byte_after(p, 5) == ':' as u8 && self.two_digits_at(p, 6)
    }

    fn starts_date_time_at(&self, p: usize) -> (r: bool)
        requires
            self.wf(),
            p <= self.bytes().len(),
        ensures
            r == starts_date_time(self.bytes(), p as int),
    {
        (self.two_digits_at(p, 0) && self.two_digits_at(p, 2) && self.byte_after(p, 4) == '-' as u8)
            || (self.two_digits_at(p, 0) && self.byte_after(p, 2) == ':' as u8)
    }

    fn digits_end_from(&self, p: usize) -> (r: usize)
        requires
            self.wf(),
            p <= self.bytes().len(),
        ensures
            r == digits_end(self.bytes(), p as int),
    {
        let ghost t = self.bytes();
        let bytes = self.text.as_bytes();
        let mut e = p;
        while e < bytes.len() && is_digit_byte(bytes[e])
            invariant
                self.wf(),
                t == self.bytes(),
                bytes@ == t,
                p <= e <= t.len(),
                digits_end(t, p as int) == digits_end(t, e as int),
            decreases t.len() - e,
        {
            e = e + 1;
        }
        e
    }

    fn time_end_at(&self, p: usize) -> (r: usize)
        requires
            self.wf(),
            p <= self.bytes().len(),
            is_time(self.bytes(), p as int),
        ensures
            r == time_end(self.bytes(), p as int),
            r <= self.bytes().len(),
    {
        if self.byte_after(p, 8) == '.' as u8 && is_digit_byte(self.byte_after(p, 9)) {
            proof {
                lemma_digits_end(self.bytes(), p + 9);
            }
            self.digits_end_from(p + 9)
        } else {
            p + 8
        }
    }

    fn offset_end_at(&self, k: usize) -> (r: usize)
        requires
            self.wf(),
            k <= self.bytes().len(),
        ensures
            r == offset_end(self.bytes(), k as int),
    {
        let b = self.byte(k);
        if b == 'Z' as u8 || b == 'z' as u8 {
            k + 1
        } else if (b == '+' as u8 || b == '-' as u8) && self.two_digits_at(k, 1) && self.byte_after(
            k,
            3,
        ) == ':' as u8 && self.two_digits_at(k, 4) {
            k + 6
        } else {
            k
        }
    }

    /// A date-time, from its first digit under the cursor.
    fn scan_date_time(&mut self) -> (r: Result<(), Error>)
        requires
            old(self).wf(),
        ensures
            final(self).wf(),
            final(self).text == old(self).text,
            final(self).outcome(r) == date_time(
                old(self).bytes(),
                old(self).index as int,
                old(self).symbols@,
            ),
    {
        let j = self.index;
        proof {
            lemma_date_time_end(self.bytes(), j as int);
        }
        let e = if self.is_date_at(j) {
            let d = j + 10;
            let b = self.byte(d);
            if (b == 'T' as u8 || b == 't' as u8 || (b == ' ' as u8 && is_digit_byte(
                self.byte_after(d, 1),
            ))) && self.is_time_at(d + 1) {
                let k = self.time_end_at(d + 1);
                self.offset_end_at(k)
            } else {
                d
            }
        } else if self.is_time_at(j) {
            self.time_end_at(j)
        } else {
            j
        };
        if j < e && ends_number_byte(self.byte(e)) {
            self.advance(e);
            self.push_span(Sym::DateTime, j, e - 1);
            Ok(())
        } else {
            Err(Error::Unexpected { pos: e })
        }
    }

    /// A boolean, a number, `inf`, `nan` or a date-time, from the cursor.
    fn scan_atom(&mut self) -> (r: Result<(), Error>)
        requires
            old(self).wf(),
        ensures
            final(self).wf(),
            final(self).text == old(self).text,
            final(self).outcome(r) == atom(
                old(self).bytes(),
                old(self).index as int,
                old(self).symbols@,
            ),
    {
        let c = self.current;
        let start = self.index;
        if c == 't' as u8 || c == 'f' as u8 {
            let w = if c == 't' as u8 {
                true_word()
            } else {
                false_word()
            };
            if self.at_word(&w) {
                let n = w.len();
                self.advance(start + n);
                self.push_span(Sym::Bool, start, start + n - 1);
                Ok(())
            } else {
                self.err_unexpected()
            }
        } else if c == 'i' as u8 || c == 'n' as u8 {
            self.scan_special_float(start)
        } else if c == '+' as u8 || c == '-' as u8 {
            let d = self.peek();
            self.next();
            if d == 'i' as u8 || d == 'n' as u8 {
                self.scan_special_float(start)
            } else {
                self.scan_number(start)
            }
        } else if is_digit_byte(c) {
            if self.starts_date_time_at(start) {
                self.scan_date_time()
            } else {
                self.scan_number(start)
            }
        } else {
            self.err_unexpected()
        }
    }
    /// A value, from the cursor: blanks first, then a string, an inline
    /// table, an array or a word.
    fn scan_value(&mut self) -> (r: Result<(), Error>)
        requires
            old(self).wf(),
        ensures
            final(self).wf(),
            final(self).text == old(self).text,
            final(self).outcome(r) == value(
                old(self).bytes(),
                old(self).index as int,
                old(self).symbols@,
            ),
        decreases old(self).bytes().len() - old(self).index, 3int,
    {
        let ghost t = self.bytes();
        loop
            invariant
                self.wf(),
                self.text == old(self).text,
                self.bytes() == t,
                self.symbols == old(self).symbols,
                old(self).index <= self.index,
                value(t, old(self).index as int, old(self).symbols@) == value(
                    t,
                    self.index as int,
                    self.symbols@,
                ),
            decreases t.len() - self.index,
        {
            let c = self.current;
            if is_blank_byte(c) {
                self.next();
            } else if c == '\r' as u8 && self.peek() != '\n' as u8 {
                return self.err_illegal_control_character();
            } else if is_quote_byte(c) {
                return self.scan_string();
            } else if c == '{' as u8 {
                return self.scan_inline_table();
            } else if c == '[' as u8 {
                return self.scan_array();
            } else {
                return self.scan_atom();
            }
        }
    }

    /// An array, from its `[` under the cursor.
    fn scan_array(&mut self) -> (r: Result<(), Error>)
        requires
            old(self).wf(),
            old(self).current == '[' as u8,
        ensures
            final(self).wf(),
            final(self).text == old(self).text,
            final(self).outcome(r) == array(
                old(self).bytes(),
                old(self).index as int,
                old(self).symbols@,
            ),
        decreases old(self).bytes().len() - old(self).index, 2int,
    {
        let ghost t = self.bytes();
        let ghost i = self.index as int;
        self.push(Sym::Array);
        self.next();
        proof {
            lemma_array_gap(t, i + 1);
        }
        if let Err(e) = self.skip_array_gap() {
            return Err(e);
        }
        if self.current == ']' as u8 {
            self.push(Sym::ArrayEnd);
            self.next();
            return Ok(());
        }
        loop
            invariant
                self.wf(),
                self.text == old(self).text,
                self.bytes() == t,
                i == old(self).index,
                i < self.index <= t.len(),
                array(t, i, old(self).symbols@) == array_items(
                    t,
                    self.index as int,
                    self.symbols@,
                ),
            decreases t.len() - self.index,
        {
            let ghost j = self.index as int;
            let ghost o = self.symbols@;
            proof {
                lemma_value_moves(t, j, o);
            }
            if let Err(e) = self.scan_value() {
                return Err(e);
            }
            let ghost k = self.index as int;
            proof {
                lemma_array_gap(t, k);
            }
            if let Err(e) = self.skip_array_gap() {
                return Err(e);
            }
            let c = self.current;
            if c == ']' as u8 {
                self.push(Sym::ArrayEnd);
                self.next();
                return Ok(());
            } else if c == ',' as u8 {
                let ghost g = self.index as int;
                self.next();
                proof {
                    lemma_array_gap(t, g + 1);
                }
                if let Err(e) = self.skip_array_gap() {
                    return Err(e);
                }
                if self.current == ']' as u8 {
                    self.push(Sym::ArrayEnd);
                    self.next();
                    return Ok(());
                }
            } else {
                return self.err_missing_delimiter();
            }
        }
    }

    /// An inline table, from its `{` under the cursor.
    fn scan_inline_table(&mut self) -> (r: Result<(), Error>)
        requires
            old(self).wf(),
            old(self).current == '{' as u8,
        ensures
            final(self).wf(),
            final(self).text == old(self).text,
            final(self).outcome(r) == inline_table(
                old(self).bytes(),
                old(self).index as int,
                old(self).symbols@,
            ),
        decreases old(self).bytes().len() - old(self).index, 2int,
    {
        let ghost t = self.bytes();
        let ghost i = self.index as int;
        self.push(Sym::InlineTable);
        self.next();
        proof {
            lemma_blank_end(t, i + 1);
        }
        self.skip_blanks();
        if self.current == '}' as u8 {
            self.push(Sym::InlineTableEnd);
            self.next();
            return Ok(());
        }
        loop
            invariant
                self.wf(),
                self.text == old(self).text,
                self.bytes() == t,
                i == old(self).index,
                i < self.index <= t.len(),
                inline_table(t, i, old(self).symbols@) == inline_pairs(
                    t,
                    self.index as int,
                    self.symbols@,
                ),
            decreases t.len() - self.index,
        {
            let c = self.current;
            if !(is_bare_byte(c) || is_quote_byte(c)) {
                return self.err_unexpected();
            }
            if let Err(e) = self.scan_key_segment() {
                return Err(e);
            }
            let ghost k = self.index as int;
            let ghost o1 = self.symbols@;
            proof {
                lemma_assign_path_moves(t, k, false, o1);
            }
            if let Err(e) = self.scan_dotted() {
                return Err(e);
            }
            let ghost m = self.index as int;
            let ghost o2 = self.symbols@;
            proof {
                lemma_value_moves(t, m, o2);
            }
            if let Err(e) = self.scan_value() {
                return Err(e);
            }
            let ghost n = self.index as int;
            proof {
                lemma_blank_end(t, n);
            }
            self.skip_blanks();
            let c = self.current;
            if c == ',' as u8 {
                let ghost g = self.index as int;
                self.next();
                proof {
                    lemma_blank_end(t, g + 1);
                }
                self.skip_blanks();
            } else if c == '}' as u8 {
                self.push(Sym::InlineTableEnd);
                self.next();
                return Ok(());
            } else {
                return self.err_missing_delimiter();
            }
        }
    }

    /// Scans the whole text from the cursor on: appends the symbols of the
    /// document, ending with `Eof` at the end of the text, or stops at the
    /// first lexical error.
    pub fn scan(&mut self) -> (r: Result<(), Error>)
        requires
            old(self).wf(),
        ensures
            final(self).wf(),
            final(self).bytes() == old(self).bytes(),
            match r {
                Ok(()) => document(old(self).bytes(), old(self).pos(), old(self).emitted()) == Ok::<
                    (int, Seq<Symbol>),
                    Error,
                >((final(self).pos(), final(self).emitted())),
                Err(e) => document(old(self).bytes(), old(self).pos(), old(self).emitted()) == Err::<
                    (int, Seq<Symbol>),
                    Error,
                >(e),
            },
    {
        let ghost t = self.bytes();
        loop
            invariant
                self.wf(),
                self.text == old(self).text,
                self.bytes() == t,
                document(t, old(self).index as int, old(self).symbols@) == document(
                    t,
                    self.index as int,
                    self.symbols@,
                ),
            decreases t.len() - self.index,
        {
            let ghost j = self.index as int;
            let ghost o = self.symbols@;
            let c = self.current;
            if c == '\r' as u8 {
                if self.peek() != '\n' as u8 {
                    return self.err_illegal_control_character();
                }
                self.next();
                self.next();
            } else if c == '\n' as u8 || is_blank_byte(c) {
                self.next();
            } else if c == '#' as u8 {
                proof {
                    lemma_comment_end(t, j + 1);
                }
                if let Err(e) = self.consume_comment() {
                    return Err(e);
                }
            } else if c == '[' as u8 {
                proof {
                    lemma_table_moves(t, j, o);
                }
                if let Err(e) = self.scan_table() {
                    return Err(e);
                }
            } else if is_bare_byte(c) || is_quote_byte(c) {
                proof {
                    lemma_key_value_moves(t, j, o);
                }
                if let Err(e) = self.scan_key_value() {
                    return Err(e);
                }
            } else if c == 0 {
                if self.index != self.text.as_bytes().len() {
                    return self.err_unconsumed_input();
                }
                self.push(Sym::Eof);
                return Ok(());
            } else {
                return self.err_unexpected();
            }
        }
    }

    /// A `key = value` line, from the first byte of the key under the
    /// cursor.
    fn scan_key_value(&mut self) -> (r: Result<(), Error>)
        requires
            old(self).wf(),
            starts_key(old(self).bytes(), old(self).index as int),
        ensures
            final(self).wf(),
            final(self).text == old(self).text,
            final(self).outcome(r) == key_value(
                old(self).bytes(),
                old(self).index as int,
                old(self).symbols@,
            ),
    {
        if let Err(e) = self.scan_key_segment() {
            return Err(e);
        }
        if let Err(e) = self.scan_dotted() {
            return Err(e);
        }
        if let Err(e) = self.scan_value() {
            return Err(e);
        }
        self.consume_line()
    }
}

fn is_digit_in_radix(b: u8, radix: u8) -> (r: bool)
    ensures
        r == is_digit_in(b, radix),
{
    if radix == 16 {
        ('0' as u8 <= b && b <= '9' as u8) || ('a' as u8 <= b && b <= 'f' as u8) || ('A' as u8 <= b
            && b <= 'F' as u8)
    } else if radix == 8 {
        '0' as u8 <= b && b <= '7' as u8
    } else if radix == 2 {
        b == '0' as u8 || b == '1' as u8
    } else {
        '0' as u8 <= b && b <= '9' as u8
    }
}

fn radix_of_byte(b: u8) -> (r: u8)
    ensures
        r == radix_of(b),
{
    if b == 'x' as u8 || b == 'X' as u8 {
        16
    } else if b == 'o' as u8 || b == 'O' as u8 {
        8
    } else if b == 'b' as u8 || b == 'B' as u8 {
        2
    } else {
        10
    }
}

fn ends_number_byte(b: u8) -> (r: bool)
    ensures
        r == ends_number(b),
{
    is_blank_byte(b) || b == 0 || b == '#' as u8 || b == ',' as u8 || b == '\n' as u8 || b
        == '\r' as u8 || b == ']' as u8 || b == '}' as u8
}

fn true_word() -> (w: Vec<u8>)
    ensures
        w@ == word_true(),
{
    vec!['t' as u8, 'r' as u8, 'u' as u8, 'e' as u8]
}

fn false_word() -> (w: Vec<u8>)
    ensures
        w@ == word_false(),
{
    vec!['f' as u8, 'a' as u8, 'l' as u8, 's' as u8, 'e' as u8]
}

fn inf_word() -> (w: Vec<u8>)
    ensures
        w@ == word_inf(),
{
    vec!['i' as u8, 'n' as u8, 'f' as u8]
}

fn nan_word() -> (w: Vec<u8>)
    ensures
        w@ == word_nan(),
{
    vec!['n' as u8, 'a' as u8, 'n' as u8]
}

} // verus!
