use tomlex::{Error, Lex, Sym, Symbol};

fn scan(text: &str) -> Result<Vec<Symbol>, Error> {
    let mut lex = Lex::new(text);
    lex.scan().map(|()| lex.symbols().to_vec())
}

fn key(lo: usize, hi: usize) -> Symbol {
    Symbol::with_span(Sym::Key, lo, hi)
}

fn at(sym: Sym, pos: usize) -> Symbol {
    Symbol::new(sym, pos)
}

fn span(sym: Sym, lo: usize, hi: usize) -> Symbol {
    Symbol::with_span(sym, lo, hi)
}

#[test]
fn array_missing_comma() {
    assert_eq!(scan("a = [true false]"), Err(Error::MissingDelimiter { pos: 10 }));
}

#[test]
fn inline_table_trailing_comma() {
    assert_eq!(scan("colors = { red = true, }"), Err(Error::Unexpected { pos: 23 }));
}

#[test]
fn inline_table_missing_comma() {
    assert_eq!(scan("t = {a = 1 b = 2}"), Err(Error::MissingDelimiter { pos: 11 }));
}

#[test]
fn array_of_integers() {
    let expected = vec![
        key(0, 0),
        at(Sym::Assign, 2),
        at(Sym::Array, 4),
        span(Sym::Integer, 5, 5),
        span(Sym::Integer, 8, 8),
        at(Sym::ArrayEnd, 9),
        at(Sym::Eof, 10),
    ];
    assert_eq!(scan("a = [1, 2]"), Ok(expected));
}

#[test]
fn array_over_lines_with_comment_and_trailing_comma() {
    let expected = vec![
        key(0, 0),
        at(Sym::Assign, 2),
        at(Sym::Array, 4),
        span(Sym::Integer, 7, 7),
        span(Sym::Integer, 15, 15),
        at(Sym::ArrayEnd, 18),
        at(Sym::Eof, 19),
    ];
    assert_eq!(scan("a = [\n 1, # c\n 2,\n]"), Ok(expected));
}

#[test]
fn empty_array() {
    let expected = vec![key(0, 0), at(Sym::Assign, 2), at(Sym::Array, 4), at(Sym::ArrayEnd, 5), at(Sym::Eof, 6)];
    assert_eq!(scan("a = []"), Ok(expected));
}

#[test]
fn inline_table_pairs() {
    let expected = vec![
        key(0, 0),
        at(Sym::Assign, 2),
        at(Sym::InlineTable, 4),
        key(6, 6),
        at(Sym::Assign, 8),
        span(Sym::Integer, 10, 10),
        at(Sym::InlineTableEnd, 12),
        at(Sym::Eof, 13),
    ];
    assert_eq!(scan("x = { y = 1 }"), Ok(expected));
}

#[test]
fn empty_inline_table() {
    let expected = vec![key(0, 0), at(Sym::Assign, 2), at(Sym::InlineTable, 4), at(Sym::InlineTableEnd, 5), at(Sym::Eof, 6)];
    assert_eq!(scan("x = {}"), Ok(expected));
}

#[test]
fn hexadecimal_integer_with_separator() {
    let expected = vec![key(0, 0), at(Sym::Assign, 2), span(Sym::Integer, 4, 10), at(Sym::Eof, 11)];
    assert_eq!(scan("n = 0xff_ff"), Ok(expected));
}

#[test]
fn signed_float_with_exponent() {
    let expected = vec![key(0, 0), at(Sym::Assign, 2), span(Sym::Float, 4, 10), at(Sym::Eof, 11)];
    assert_eq!(scan("n = -3.5e+2"), Ok(expected));
}

#[test]
fn signed_infinity() {
    let expected = vec![key(0, 0), at(Sym::Assign, 2), span(Sym::Float, 4, 7), at(Sym::Eof, 8)];
    assert_eq!(scan("f = +inf"), Ok(expected));
}

#[test]
fn boolean_false() {
    let expected = vec![key(0, 0), at(Sym::Assign, 2), span(Sym::Bool, 4, 8), at(Sym::Eof, 9)];
    assert_eq!(scan("b = false"), Ok(expected));
}

#[test]
fn misspelt_boolean() {
    assert_eq!(scan("b = fals"), Err(Error::Unexpected { pos: 4 }));
}

#[test]
fn double_underscore_in_number() {
    assert_eq!(scan("n = 1__2"), Err(Error::Unexpected { pos: 6 }));
}

#[test]
fn trailing_underscore_in_number() {
    assert_eq!(scan("n = 1_"), Err(Error::Unexpected { pos: 6 }));
}

#[test]
fn binary_digit_out_of_range() {
    assert_eq!(scan("n = 0b102"), Err(Error::Unexpected { pos: 8 }));
}

#[test]
fn local_date() {
    let expected = vec![key(0, 0), at(Sym::Assign, 2), span(Sym::DateTime, 4, 13), at(Sym::Eof, 14)];
    assert_eq!(scan("d = 1979-05-27"), Ok(expected));
}

#[test]
fn date_time_in_utc() {
    let expected = vec![key(0, 0), at(Sym::Assign, 2), span(Sym::DateTime, 4, 23), at(Sym::Eof, 24)];
    assert_eq!(scan("d = 1979-05-27T07:32:00Z"), Ok(expected));
}

#[test]
fn date_time_with_fraction_and_offset() {
    let expected = vec![key(0, 0), at(Sym::Assign, 2), span(Sym::DateTime, 4, 32), at(Sym::Eof, 33)];
    assert_eq!(scan("d = 1979-05-27 07:32:00.999-07:00"), Ok(expected));
}

#[test]
fn local_time() {
    let expected = vec![key(0, 0), at(Sym::Assign, 2), span(Sym::DateTime, 4, 11), at(Sym::Eof, 12)];
    assert_eq!(scan("t = 07:32:00"), Ok(expected));
}

#[test]
fn short_date() {
    assert_eq!(scan("d = 1979-05-2"), Err(Error::Unexpected { pos: 4 }));
}

#[test]
fn date_followed_by_letter() {
    assert_eq!(scan("d = 1979-05-27x"), Err(Error::Unexpected { pos: 14 }));
}

#[test]
fn basic_string_with_escaped_quote() {
    let expected = vec![key(0, 0), at(Sym::Assign, 2), span(Sym::String, 5, 9), at(Sym::Eof, 10)];
    assert_eq!(scan("s = \"a\\\"b\""), Ok(expected));
}

#[test]
fn basic_string_unterminated_at_newline() {
    assert_eq!(scan("s = \"ab\ncd\""), Err(Error::UnterminatedString { start: 5, pos: 7 }));
}

#[test]
fn multiline_basic_no_trailing_quotes() {
    let expected = vec![key(0, 0), at(Sym::Assign, 2), span(Sym::String, 7, 12), at(Sym::Eof, 12)];
    assert_eq!(scan("s = \"\"\"ab\"\"\""), Ok(expected));
}

#[test]
fn multiline_basic_one_trailing_quote() {
    let expected = vec![key(0, 0), at(Sym::Assign, 2), span(Sym::String, 7, 12), at(Sym::Eof, 13)];
    assert_eq!(scan("s = \"\"\"ab\"\"\"\""), Ok(expected));
}

#[test]
fn multiline_basic_two_trailing_quotes() {
    let expected = vec![key(0, 0), at(Sym::Assign, 2), span(Sym::String, 7, 12), at(Sym::Eof, 14)];
    assert_eq!(scan("s = \"\"\"ab\"\"\"\"\""), Ok(expected));
}

#[test]
fn multiline_basic_three_trailing_quotes() {
    assert_eq!(
        scan("s = \"\"\"ab\"\"\"\"\"\""),
        Err(Error::TooManyQuotesInString { start: 7, pos: 15 })
    );
}

#[test]
fn multiline_basic_unterminated() {
    assert_eq!(scan("s = \"\"\"ab"), Err(Error::UnterminatedString { start: 7, pos: 9 }));
}

#[test]
fn multiline_literal_one_trailing_quote() {
    let expected = vec![key(0, 0), at(Sym::Assign, 2), span(Sym::String, 7, 10), at(Sym::Eof, 13)];
    assert_eq!(scan("s = '''ab''''"), Ok(expected));
}

#[test]
fn multiline_literal_too_many_quotes() {
    assert_eq!(scan("s = '''ab''''''"), Err(Error::TooManyQuotesInString { start: 7, pos: 14 }));
}

#[test]
fn multiline_literal_unterminated() {
    assert_eq!(scan("s = '''ab"), Err(Error::UnterminatedString { start: 7, pos: 9 }));
}

#[test]
fn literal_string_unterminated_at_newline() {
    assert_eq!(scan("s = 'ab\nc'"), Err(Error::UnterminatedString { start: 5, pos: 7 }));
}

#[test]
fn empty_literal_string() {
    let expected = vec![key(0, 0), at(Sym::Assign, 2), span(Sym::String, 5, 5), at(Sym::Eof, 6)];
    assert_eq!(scan("s = ''"), Ok(expected));
}

#[test]
fn dotted_key_assignment() {
    let expected = vec![key(0, 0), key(2, 2), at(Sym::Assign, 4), span(Sym::Integer, 6, 6), at(Sym::Eof, 7)];
    assert_eq!(scan("a.b = 1"), Ok(expected));
}

#[test]
fn dotted_key_without_blanks() {
    let expected = vec![key(0, 0), key(2, 2), at(Sym::Assign, 3), span(Sym::Integer, 4, 4), at(Sym::Eof, 5)];
    assert_eq!(scan("a.b=1"), Ok(expected));
}

#[test]
fn double_dot_in_key() {
    assert_eq!(scan("a..b = 1"), Err(Error::Unexpected { pos: 2 }));
}

#[test]
fn quoted_key() {
    let expected = vec![span(Sym::String, 1, 2), at(Sym::Assign, 4), span(Sym::Integer, 6, 6), at(Sym::Eof, 7)];
    assert_eq!(scan("\"k\" = 1"), Ok(expected));
}

#[test]
fn array_of_tables_header() {
    let expected = vec![at(Sym::ArrayOfTable, 2), key(2, 2), at(Sym::TableEnd, 5), at(Sym::Eof, 5)];
    assert_eq!(scan("[[a]]"), Ok(expected));
}

#[test]
fn newline_inside_table_key() {
    assert_eq!(scan("[a\nb]"), Err(Error::MultilineKey { pos: 2 }));
}

#[test]
fn nul_after_value() {
    assert_eq!(scan("a = 1\0"), Err(Error::UnconsumedInput { pos: 5 }));
}

#[test]
fn lone_carriage_return_after_value() {
    assert_eq!(scan("a = 1\r"), Err(Error::ControlCharacter { pos: 5 }));
}

#[test]
fn value_on_next_line() {
    assert_eq!(scan("a =\n1"), Err(Error::Unexpected { pos: 3 }));
}

#[test]
fn trailing_text_after_value() {
    assert_eq!(scan("a = 1 b"), Err(Error::Unexpected { pos: 6 }));
}

#[test]
fn eof_once_at_end() {
    let text = "[t]\na = 'x' # c\r\nb = [1, {c = 2}]\n";
    let syms = scan(text).unwrap();
    let eofs: Vec<&Symbol> = syms.iter().filter(|s| s.sym() == Sym::Eof).collect();
    assert_eq!(eofs.len(), 1);
    assert_eq!(*syms.last().unwrap(), Symbol::new(Sym::Eof, text.len()));
}

#[test]
fn repeated_scans_agree() {
    let text = "a = { b = [1, 2 }";
    assert_eq!(scan(text), scan(text));
    assert!(scan(text).is_err());
}

#[test]
fn position_after_scan() {
    let text = "x = 1\n";
    let mut lex = Lex::new(text);
    assert_eq!(lex.scan(), Ok(()));
    assert_eq!(lex.position(), text.len());
}

#[test]
fn spans_extract_content() {
    let text = "key = true\nn = 0x1F\ns = 'lit'\nd = 2024-01-02\n";
    let syms = scan(text).unwrap();
    let closed: Vec<&str> = syms
        .iter()
        .filter(|s| s.sym() != Sym::Assign && s.sym() != Sym::Eof)
        .map(|s| &text[s.span().lo..=s.span().hi])
        .collect();
    assert_eq!(closed, vec!["key", "true", "n", "0x1F", "s", "lit", "d", "2024-01-02"]);
}

#[test]
fn nested_values() {
    let expected = vec![
        key(0, 0),
        at(Sym::Assign, 2),
        at(Sym::Array, 4),
        at(Sym::Array, 5),
        span(Sym::Integer, 6, 6),
        at(Sym::ArrayEnd, 7),
        at(Sym::InlineTable, 10),
        key(11, 11),
        at(Sym::Assign, 12),
        span(Sym::Integer, 13, 13),
        at(Sym::InlineTableEnd, 14),
        at(Sym::ArrayEnd, 15),
        at(Sym::Eof, 16),
    ];
    assert_eq!(scan("a = [[1], {b=2}]"), Ok(expected));
}

#[test]
fn spans_in_document_order() {
    let text = "[a.'b']\nx = [1, \"two\", { y = ''}] # c\nz = 1979-05-27\n";
    let syms = scan(text).unwrap();
    for pair in syms.windows(2) {
        assert!(pair[0].span().lo <= pair[1].span().lo, "{:?}", pair);
    }
    for s in &syms {
        assert!(s.span().lo <= s.span().hi && s.span().hi <= text.len(), "{:?}", s);
    }
}
