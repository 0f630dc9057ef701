use vstd::prelude::*;

verus! {

/// The first lexical violation met by the scanner, with its byte offsets.
#[derive(Clone, Copy, Debug, PartialEq, Eq, Structural)]
pub enum Error {
    /// An illegal control character in a comment, or a carriage return
    /// that is not followed by a line feed.
    ControlCharacter { pos: usize },
    /// A multi-line string holds too many consecutive quote characters.
    TooManyQuotesInString { start: usize, pos: usize },
    /// A string was not terminated.
    UnterminatedString { start: usize, pos: usize },
    /// A line ending was met inside a key.
    MultilineKey { pos: usize },
    /// A multi-line string stands where only single-line strings are allowed.
    MultilineString { pos: usize },
    /// Elements of an array or an inline table are neither separated nor closed.
    MissingDelimiter { pos: usize },
    /// The scan stopped before the end of the text.
    UnconsumedInput { pos: usize },
    /// A required character is missing.
    Expected { pos: usize, c: char },
    /// Any other violation of the grammar.
    Unexpected { pos: usize },
}

/// A byte range of the text, with `lo <= hi <= ` the length of the text.
/// For keys, booleans, numbers, date-times and literal strings `'…'` with a
/// body, `lo` and `hi` are the first and the last byte; an empty literal
/// string `''` has both at its closing quote; for the other strings `lo` is
/// the first byte of the body and `hi` lies after it, as the string
/// routines of `grammar` state; for punctuation and `Eof` both are the
/// position of the symbol.
#[derive(Clone, Copy, Debug, PartialEq, Eq, Structural)]
pub struct Span {
    pub lo: usize,
    pub hi: usize,
}

/// The kinds of symbols.
#[derive(Clone, Copy, Debug, PartialEq, Eq, Structural)]
pub enum Sym {
    Eof,
    Table,
    ArrayOfTable,
    TableEnd,
    InlineTable,
    InlineTableEnd,
    Array,
    ArrayEnd,
    Assign,
    Key,
    String,
    Integer,
    Float,
    Bool,
    DateTime,
}

/// A kind together with the span of text it stands for.
#[derive(Clone, Copy, Debug, PartialEq, Eq, Structural)]
pub struct Symbol {
    pub sym: Sym,
    pub span: Span,
}

/// A symbol whose span is the single position `pos`.
pub open spec fn marker(sym: Sym, pos: int) -> Symbol {
    Symbol { sym, span: Span { lo: pos as usize, hi: pos as usize } }
}

/// A symbol whose span runs from `lo` to `hi`.
pub open spec fn spanned(sym: Sym, lo: int, hi: int) -> Symbol {
    Symbol { sym, span: Span { lo: lo as usize, hi: hi as usize } }
}

impl Symbol {
    pub fn new(sym: Sym, pos: usize) -> (r: Symbol)
        ensures
            r == marker(sym, pos as int),
    {
        Symbol { sym, span: Span { lo: pos, hi: pos } }
    }

    pub fn with_span(sym: Sym, lo: usize, hi: usize) -> (r: Symbol)
        ensures
            r == spanned(sym, lo as int, hi as int),
    {
        Symbol { sym, span: Span { lo, hi } }
    }

    pub fn sym(&self) -> (r: Sym)
        ensures
            r == self.sym,
    {
        self.sym
    }

    pub fn span(&self) -> (r: Span)
        ensures
            r == self.span,
    {
        self.span
    }
}

} // verus!
