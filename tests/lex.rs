use tomlex::{Error, Lex, Sym, Symbol};

fn fail(text: &str, err: Error) {
    let mut lex = Lex::new(text);
    let res = lex.scan();
    assert_eq!(res, Err(err), "input {:?}", text);
}

fn succ(text: &str, syms: &[Symbol]) {
    let mut lex = Lex::new(text);
    let res = lex.scan();
    assert_eq!(res, Ok(()), "input {:?}", text);
    assert_eq!(lex.symbols(), syms, "input {:?}", text);
}

#[test]
fn basic_fail() {
    fail("=", Error::Unexpected { pos: 0 });
    fail("\0", Error::UnconsumedInput { pos: 0 });
}

#[test]
fn basic_success() {
    succ("", &[Symbol::new(Sym::Eof, 0)]);
    succ(
        "hello = 'world'",
        &[
            Symbol::with_span(Sym::Key, 0, 4),
            Symbol::new(Sym::Assign, 6),
            Symbol::with_span(Sym::String, 9, 13),
            Symbol::new(Sym::Eof, 15),
        ],
    );
    succ(
        "hello = 'world' # zing bing bang",
        &[
            Symbol::with_span(Sym::Key, 0, 4),
            Symbol::new(Sym::Assign, 6),
            Symbol::with_span(Sym::String, 9, 13),
            Symbol::new(Sym::Eof, 32),
        ],
    );
}

#[test]
fn comment_fail() {
    fail("# He\u{1}llo,\n# World", Error::ControlCharacter { pos: 4 });
    fail("# He\rllo,\r\n# World!", Error::ControlCharacter { pos: 4 });
}

#[test]
fn comment_success() {
    succ("# Hello,\n# World!", &[Symbol::new(Sym::Eof, 17)]);
    succ("# Hello,\r\n# World!", &[Symbol::new(Sym::Eof, 18)]);
}

#[test]
fn tables_fail() {
    fail("[.]", Error::Unexpected { pos: 1 });
    fail("[hello", Error::Unexpected { pos: 6 });
    fail("[hello.]", Error::Unexpected { pos: 7 });
    fail("[.world]", Error::Unexpected { pos: 1 });
    fail("[hello.\nworld]", Error::MultilineKey { pos: 7 });
    fail("[hello.'''world''']", Error::MultilineString { pos: 7 });
    fail(r#"[hello."""world"""]"#, Error::MultilineString { pos: 7 });
    fail("[[.]]", Error::Unexpected { pos: 2 });
    fail("[[hello", Error::Unexpected { pos: 7 });
    fail("[[hello]", Error::Expected { pos: 8, c: ']' });
    fail("[[hello.]]", Error::Unexpected { pos: 8 });
    fail("[[.world]]", Error::Unexpected { pos: 2 });
    fail("[[hello.\nworld]]", Error::MultilineKey { pos: 8 });
    fail("[[hello.'''world''']]", Error::MultilineString { pos: 8 });
    fail(r#"[[hello."""world"""]]"#, Error::MultilineString { pos: 8 });
}

#[test]
fn tables_success() {
    succ(
        "[test-1]",
        &[
            Symbol::new(Sym::Table, 1),
            Symbol::with_span(Sym::Key, 1, 6),
            Symbol::new(Sym::TableEnd, 8),
            Symbol::new(Sym::Eof, 8),
        ],
    );
    succ(
        "[hello.world]",
        &[
            Symbol::new(Sym::Table, 1),
            Symbol::with_span(Sym::Key, 1, 5),
            Symbol::with_span(Sym::Key, 7, 11),
            Symbol::new(Sym::TableEnd, 13),
            Symbol::new(Sym::Eof, 13),
        ],
    );
    succ(
        r#"[hello."zing bing bang"]"#,
        &[
            Symbol::new(Sym::Table, 1),
            Symbol::with_span(Sym::Key, 1, 5),
            Symbol::with_span(Sym::String, 8, 22),
            Symbol::new(Sym::TableEnd, 24),
            Symbol::new(Sym::Eof, 24),
        ],
    );
}
