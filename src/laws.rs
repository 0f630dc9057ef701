//! Laws of the grammar: what holds of every symbol stream that a scan
//! yields, and of the quote runs that close multi-line basic strings.
use vstd::prelude::*;

use crate::grammar::{
    array, array_gap, array_items, assign_path, atom, bare_key, basic_end, blank_end, byte_at,
    comment_end, date_time, date_time_end, decimal_end, document, header_path, inline_pairs,
    inline_table, is_bare, is_key_stop, is_literal_stop, is_quote, key_end, key_segment, key_value,
    lemma_array_gap, lemma_assign_path_moves, lemma_basic_end, lemma_blank_end, lemma_comment_end,
    lemma_date_time_end, lemma_decimal_end, lemma_header_path_moves, lemma_key_segment_moves,
    lemma_line_end, lemma_ml_basic_end, lemma_radix_digits_end, lemma_triple_from,
    lemma_value_moves, lex, line_end, literal_string, ml_basic_end, ml_basic_string, moved_on,
    number, radix_digits_end, radix_of, single_line_string, special_float, starts_date_time,
    starts_key, string, table, triple_from, value, word_at, word_false, word_true, NumberPart,
    Scanned,
};
use crate::search::is_triple;
use crate::symbol::{marker, spanned, Error, Sym, Symbol};

verus! {

/// The span `[lo, hi]` holds a bare key: one or more bare-key bytes.
pub open spec fn holds_bare_key(t: Seq<u8>, lo: int, hi: int) -> bool {
    &&& 0 <= lo <= hi < t.len()
    &&& forall|m: int| lo <= m <= hi ==> is_bare(#[trigger] t[m])
    &&& !is_bare(byte_at(t, hi + 1))
}

/// The span `[lo, hi]` holds the word `true` or the word `false`.
pub open spec fn holds_bool(t: Seq<u8>, lo: int, hi: int) -> bool {
    0 <= lo <= hi < t.len() && (t.subrange(lo, hi + 1) == word_true() || t.subrange(lo, hi + 1)
        == word_false())
}

/// Whether the kind is that of a number or a date-time.
pub open spec fn is_numeric(sym: Sym) -> bool {
    sym == Sym::Integer || sym == Sym::Float || sym == Sym::DateTime
}

/// The quote `q` stands right before `lo` and at `hi`: the span of a basic
/// string `"…"`, whose body is `[lo, hi)`, and of an empty literal string
/// `''`, which is the position of its closing quote.
pub open spec fn between_quotes(t: Seq<u8>, lo: int, hi: int, q: u8) -> bool {
    1 <= lo <= hi < t.len() && t[lo - 1] == q && t[hi] == q
}

/// The span of a literal string `'…'` with a body: the body is `[lo, hi]`,
/// between single quotes, and holds no single quote, line feed or NUL.
pub open spec fn holds_literal_body(t: Seq<u8>, lo: int, hi: int) -> bool {
    &&& 1 <= lo <= hi && hi + 1 < t.len()
    &&& t[lo - 1] == '\'' as u8 && t[hi + 1] == '\'' as u8
    &&& forall|m: int| lo <= m <= hi ==> !is_literal_stop(#[trigger] t[m])
}

/// The span of a string: one of the forms that the four kinds of strings
/// give. A multi-line literal string's span `[lo, hi)` is its body, between
/// `'''` and the closing `'''`; a multi-line basic string's starts after its
/// opening `"""` and ends right after three quotes of its closing run.
pub open spec fn holds_string(t: Seq<u8>, lo: int, hi: int) -> bool {
    ||| between_quotes(t, lo, hi, '"' as u8)
    ||| between_quotes(t, lo, hi, '\'' as u8) && lo == hi
    ||| holds_literal_body(t, lo, hi)
    ||| 3 <= lo <= hi && is_triple(t, lo - 3, '\'' as u8) && is_triple(t, hi, '\'' as u8)
    ||| 3 <= lo && lo + 3 <= hi && is_triple(t, lo - 3, '"' as u8) && is_triple(
        t,
        hi - 3,
        '"' as u8,
    )
}

/// What the span of a symbol that is not `Eof` says of the text: it lies
/// within the text with `lo <= hi`; a key's span holds a whole bare key, a
/// boolean's the word itself, a number's or a date-time's its first and its
/// last byte, and a string's has one of the forms of `holds_string`.
pub open spec fn faithful(t: Seq<u8>, s: Symbol) -> bool {
    let (lo, hi) = (s.span.lo as int, s.span.hi as int);
    &&& s.sym != Sym::Eof
    &&& lo <= hi <= t.len()
    &&& s.sym == Sym::Key ==> holds_bare_key(t, lo, hi)
    &&& s.sym == Sym::Bool ==> holds_bool(t, lo, hi)
    &&& is_numeric(s.sym) ==> hi < t.len()
    &&& s.sym == Sym::String ==> holds_string(t, lo, hi)
}

pub open spec fn all_faithful(t: Seq<u8>, o: Seq<Symbol>) -> bool {
    forall|m: int| 0 <= m < o.len() ==> faithful(t, #[trigger] o[m])
}

/// The symbols `o` are in document order (their spans start at
/// non-decreasing positions), and none starts after `j`.
pub open spec fn in_order_upto(o: Seq<Symbol>, j: int) -> bool {
    &&& forall|a: int, b: int|
        #![trigger o[a], o[b]]
        0 <= a < b < o.len() ==> o[a].span.lo <= o[b].span.lo
    &&& forall|m: int| 0 <= m < o.len() ==> (#[trigger] o[m]).span.lo <= j
}

/// The symbols `o`, found before position `j`, are faithful and in order.
pub open spec fn fits(t: Seq<u8>, o: Seq<Symbol>, j: int) -> bool {
    all_faithful(t, o) && in_order_upto(o, j)
}

/// A routine's result, where it succeeds, holds only faithful symbols, in
/// order, none starting after where the routine ended.
pub open spec fn keeps(t: Seq<u8>, r: Scanned) -> bool {
    r matches Ok((k, o)) ==> fits(t, o, k)
}

/// A symbol that starts between `from` and `to` extends symbols that fit
/// before `from`.
proof fn lemma_push(t: Seq<u8>, out: Seq<Symbol>, s: Symbol, from: int, to: int)
    requires
        fits(t, out, from),
        faithful(t, s),
        from <= s.span.lo <= to,
    ensures
        fits(t, out.push(s), to),
{
    let o = out.push(s);
    assert forall|m: int| 0 <= m < o.len() implies faithful(t, #[trigger] o[m]) by {
        if m < out.len() {
            assert(o[m] == out[m]);
        }
    }
    assert forall|a: int, b: int| 0 <= a < b < o.len() implies #[trigger] o[a].span.lo
        <= #[trigger] o[b].span.lo by {
        assert(o[a] == out[a]);
        if b < out.len() {
            assert(o[b] == out[b]);
        }
    }
    assert forall|m: int| 0 <= m < o.len() implies (#[trigger] o[m]).span.lo <= to by {
        if m < out.len() {
            assert(o[m] == out[m]);
        }
    }
}

/// Symbols that fit before `j` fit before any later position.
proof fn lemma_later(t: Seq<u8>, o: Seq<Symbol>, j: int, k: int)
    requires
        fits(t, o, j),
        j <= k,
    ensures
        fits(t, o, k),
{
}

proof fn lemma_key_end_run(t: Seq<u8>, j: int)
    requires
        0 <= j <= t.len(),
    ensures
        key_end(t, j) matches Ok(k) ==> j <= k < t.len() && is_key_stop(t[k]) && forall|m: int|
            j <= m < k ==> is_bare(#[trigger] t[m]),
    decreases t.len() - j,
{
    if is_bare(byte_at(t, j)) {
        lemma_key_end_run(t, j + 1);
    }
}

proof fn lemma_bare_key_faithful(t: Seq<u8>, i: int, out: Seq<Symbol>)
    requires
        t.len() <= usize::MAX,
        fits(t, out, i),
        is_bare(byte_at(t, i)),
    ensures
        keeps(t, bare_key(t, i, out)),
{
    lemma_key_end_run(t, i + 1);
    if let Ok(k) = key_end(t, i + 1) {
        let s = spanned(Sym::Key, i, k - 1);
        assert(holds_bare_key(t, i, k - 1)) by {
            assert forall|m: int| i <= m <= k - 1 implies is_bare(#[trigger] t[m]) by {
                if m > i {
                    assert(i + 1 <= m < k);
                }
            }
        }
        lemma_push(t, out, s, i, k);
    }
}

proof fn lemma_string_faithful(t: Seq<u8>, i: int, out: Seq<Symbol>)
    requires
        t.len() <= usize::MAX,
        fits(t, out, i),
        0 <= i < t.len(),
        is_quote(t[i]),
    ensures
        keeps(t, string(t, i, out)),
        keeps(t, single_line_string(t, i, out)),
{
    lemma_basic_end(t, i + 1, i + 1, 0);
    if let Ok(j) = basic_end(t, i + 1, i + 1, 0) {
        if t[i] == '"' as u8 {
            lemma_push(t, out, spanned(Sym::String, i + 1, j), i, j + 1);
        }
    }
    crate::grammar::lemma_literal_stop(t, i + 1);
    if literal_string(t, i, out) is Ok && t[i] == '\'' as u8 {
        let k = crate::grammar::literal_stop(t, i + 1);
        let hi = if k == i + 1 {
            k
        } else {
            k - 1
        };
        lemma_push(t, out, spanned(Sym::String, i + 1, hi), i, k + 1);
    }
    if is_triple(t, i, '\'' as u8) {
        lemma_triple_from(t, i + 3, '\'' as u8);
        if let Some(k) = triple_from(t, i + 3, '\'' as u8) {
            let p = k + 3;
            let extra: int = if byte_at(t, p) != '\'' as u8 {
                0
            } else if byte_at(t, p + 1) != '\'' as u8 {
                1
            } else {
                2
            };
            lemma_push(t, out, spanned(Sym::String, i + 3, p + extra - 3), i, p + extra);
        }
    }
    if is_triple(t, i, '"' as u8) {
        lemma_ml_basic_end(t, i + 3, i + 3, 0, 0);
        if let Ok((k, hi)) = ml_basic_end(t, i + 3, i + 3, 0, 0) {
            lemma_push(t, out, spanned(Sym::String, i + 3, hi), i, k);
        }
    }
}

proof fn lemma_key_segment_faithful(t: Seq<u8>, j: int, out: Seq<Symbol>)
    requires
        t.len() <= usize::MAX,
        fits(t, out, j),
        starts_key(t, j),
    ensures
        keeps(t, key_segment(t, j, out)),
{
    if is_bare(byte_at(t, j)) {
        lemma_bare_key_faithful(t, j, out);
    } else {
        lemma_string_faithful(t, j, out);
    }
}

proof fn lemma_assign_path_faithful(t: Seq<u8>, j: int, saw_dot: bool, out: Seq<Symbol>)
    requires
        t.len() <= usize::MAX,
        fits(t, out, j),
        0 <= j <= t.len(),
    ensures
        keeps(t, assign_path(t, j, saw_dot, out)),
    decreases t.len() - j,
{
    let b = byte_at(t, j);
    if b == '\r' as u8 || b == '\n' as u8 {
    } else if b == ' ' as u8 || b == '\t' as u8 {
        lemma_later(t, out, j, j + 1);
        lemma_assign_path_faithful(t, j + 1, saw_dot, out);
    } else if b == '.' as u8 {
        if !saw_dot {
            lemma_later(t, out, j, j + 1);
            lemma_assign_path_faithful(t, j + 1, true, out);
        }
    } else if b == '=' as u8 {
        if !saw_dot {
            lemma_push(t, out, marker(Sym::Assign, j), j, j + 1);
        }
    } else if starts_key(t, j) && saw_dot {
        lemma_key_segment_faithful(t, j, out);
        lemma_key_segment_moves(t, j, out);
        if let Ok((k, o)) = key_segment(t, j, out) {
            lemma_assign_path_faithful(t, k, false, o);
        }
    }
}

proof fn lemma_header_path_faithful(t: Seq<u8>, j: int, saw_dot: bool, out: Seq<Symbol>)
    requires
        t.len() <= usize::MAX,
        fits(t, out, j),
        0 <= j <= t.len(),
    ensures
        keeps(t, header_path(t, j, saw_dot, out)),
    decreases t.len() - j,
{
    let b = byte_at(t, j);
    if b == '\r' as u8 || b == '\n' as u8 {
    } else if b == ' ' as u8 || b == '\t' as u8 {
        lemma_later(t, out, j, j + 1);
        lemma_header_path_faithful(t, j + 1, saw_dot, out);
    } else if b == '.' as u8 {
        if !saw_dot {
            lemma_later(t, out, j, j + 1);
            lemma_header_path_faithful(t, j + 1, true, out);
        }
    } else if b == ']' as u8 {
        lemma_later(t, out, j, j + 1);
    } else if starts_key(t, j) && saw_dot {
        lemma_key_segment_faithful(t, j, out);
        lemma_key_segment_moves(t, j, out);
        if let Ok((k, o)) = key_segment(t, j, out) {
            lemma_header_path_faithful(t, k, false, o);
        }
    }
}

proof fn lemma_table_faithful(t: Seq<u8>, i: int, out: Seq<Symbol>)
    requires
        t.len() <= usize::MAX,
        fits(t, out, i),
        0 <= i < t.len(),
        t[i] == '[' as u8,
    ensures
        keeps(t, table(t, i, out)),
{
    let is_array = byte_at(t, i + 1) == '[' as u8;
    let j = if is_array {
        i + 2
    } else {
        i + 1
    };
    let kind = if is_array {
        Sym::ArrayOfTable
    } else {
        Sym::Table
    };
    let o0 = out.push(marker(kind, j));
    lemma_push(t, out, marker(kind, j), i, j);
    lemma_header_path_faithful(t, j, true, o0);
    lemma_header_path_moves(t, j, true, o0);
    if let Ok((k, o)) = header_path(t, j, true, o0) {
        let k2 = if is_array {
            k + 1
        } else {
            k
        };
        if !is_array || byte_at(t, k) == ']' as u8 {
            lemma_line_end(t, k2);
            if let Ok(m) = line_end(t, k2) {
                lemma_push(t, o, marker(Sym::TableEnd, m), k, m);
            }
        }
    }
}

proof fn lemma_number_faithful(t: Seq<u8>, s: int, d: int, out: Seq<Symbol>)
    requires
        t.len() <= usize::MAX,
        fits(t, out, s),
        0 <= s <= d <= t.len(),
    ensures
        keeps(t, number(t, s, d, out)),
{
    let radix = radix_of(byte_at(t, d + 1));
    if byte_at(t, d) == '0' as u8 && radix != 10 {
        lemma_radix_digits_end(t, d + 2, radix, false);
        if let Ok(e) = radix_digits_end(t, d + 2, radix, false) {
            lemma_push(t, out, spanned(Sym::Integer, s, e - 1), s, e);
        }
    } else {
        lemma_decimal_end(t, d, NumberPart::Whole, false);
        if let Ok((e, part)) = decimal_end(t, d, NumberPart::Whole, false) {
            let kind = if part == NumberPart::Whole {
                Sym::Integer
            } else {
                Sym::Float
            };
            lemma_push(t, out, spanned(kind, s, e - 1), s, e);
        }
    }
}

proof fn lemma_atom_faithful(t: Seq<u8>, j: int, out: Seq<Symbol>)
    requires
        t.len() <= usize::MAX,
        fits(t, out, j),
        0 <= j <= t.len(),
    ensures
        keeps(t, atom(t, j, out)),
{
    let b = byte_at(t, j);
    if b == 't' as u8 || b == 'f' as u8 {
        let w = if b == 't' as u8 {
            word_true()
        } else {
            word_false()
        };
        if word_at(t, j, w) {
            lemma_push(t, out, spanned(Sym::Bool, j, j + w.len() - 1), j, j + w.len());
        }
    } else if b == 'i' as u8 || b == 'n' as u8 {
        if special_float(t, j, j, out) is Ok {
            lemma_push(t, out, spanned(Sym::Float, j, j + 2), j, j + 3);
        }
    } else if b == '+' as u8 || b == '-' as u8 {
        let c = byte_at(t, j + 1);
        if c == 'i' as u8 || c == 'n' as u8 {
            if special_float(t, j, j + 1, out) is Ok {
                lemma_push(t, out, spanned(Sym::Float, j, j + 3), j, j + 4);
            }
        } else {
            lemma_number_faithful(t, j, j + 1, out);
        }
    } else if '0' as u8 <= b <= '9' as u8 {
        if starts_date_time(t, j) {
            lemma_date_time_end(t, j);
            if date_time(t, j, out) is Ok {
                lemma_push(
                    t,
                    out,
                    spanned(Sym::DateTime, j, date_time_end(t, j) - 1),
                    j,
                    date_time_end(t, j),
                );
            }
        } else {
            lemma_number_faithful(t, j, j, out);
        }
    }
}

proof fn lemma_value_faithful(t: Seq<u8>, j: int, out: Seq<Symbol>)
    requires
        t.len() <= usize::MAX,
        fits(t, out, j),
        0 <= j <= t.len(),
    ensures
        keeps(t, value(t, j, out)),
    decreases t.len() - j, 3int,
{
    let b = byte_at(t, j);
    if b == ' ' as u8 || b == '\t' as u8 {
        lemma_later(t, out, j, j + 1);
        lemma_value_faithful(t, j + 1, out);
    } else if b == '\r' as u8 && byte_at(t, j + 1) != '\n' as u8 {
    } else if is_quote(b) {
        lemma_string_faithful(t, j, out);
    } else if b == '{' as u8 {
        lemma_inline_table_faithful(t, j, out);
    } else if b == '[' as u8 {
        lemma_array_faithful(t, j, out);
    } else {
        lemma_atom_faithful(t, j, out);
    }
}

proof fn lemma_array_faithful(t: Seq<u8>, i: int, out: Seq<Symbol>)
    requires
        t.len() <= usize::MAX,
        fits(t, out, i),
        0 <= i < t.len(),
    ensures
        keeps(t, array(t, i, out)),
    decreases t.len() - i, 2int,
{
    let o = out.push(marker(Sym::Array, i));
    lemma_push(t, out, marker(Sym::Array, i), i, i);
    lemma_array_gap(t, i + 1);
    if let Ok(j) = array_gap(t, i + 1) {
        if byte_at(t, j) == ']' as u8 {
            lemma_push(t, o, marker(Sym::ArrayEnd, j), i, j + 1);
        } else {
            lemma_later(t, o, i, j);
            lemma_array_items_faithful(t, j, o);
        }
    }
}

proof fn lemma_array_items_faithful(t: Seq<u8>, j: int, out: Seq<Symbol>)
    requires
        t.len() <= usize::MAX,
        fits(t, out, j),
        0 <= j <= t.len(),
    ensures
        keeps(t, array_items(t, j, out)),
    decreases t.len() - j, 4int,
{
    let r = value(t, j, out);
    lemma_value_faithful(t, j, out);
    if let Ok((k, o)) = r {
        if moved_on(t, j, r) {
            lemma_array_gap(t, k);
            if let Ok(g) = array_gap(t, k) {
                if byte_at(t, g) == ']' as u8 {
                    lemma_push(t, o, marker(Sym::ArrayEnd, g), k, g + 1);
                } else if byte_at(t, g) == ',' as u8 {
                    lemma_array_gap(t, g + 1);
                    if let Ok(h) = array_gap(t, g + 1) {
                        if byte_at(t, h) == ']' as u8 {
                            lemma_push(t, o, marker(Sym::ArrayEnd, h), k, h + 1);
                        } else {
                            lemma_later(t, o, k, h);
                            lemma_array_items_faithful(t, h, o);
                        }
                    }
                }
            }
        }
    }
}

proof fn lemma_inline_table_faithful(t: Seq<u8>, i: int, out: Seq<Symbol>)
    requires
        t.len() <= usize::MAX,
        fits(t, out, i),
        0 <= i < t.len(),
    ensures
        keeps(t, inline_table(t, i, out)),
    decreases t.len() - i, 2int,
{
    let o = out.push(marker(Sym::InlineTable, i));
    lemma_push(t, out, marker(Sym::InlineTable, i), i, i);
    lemma_blank_end(t, i + 1);
    let j = blank_end(t, i + 1);
    if byte_at(t, j) == '}' as u8 {
        lemma_push(t, o, marker(Sym::InlineTableEnd, j), i, j + 1);
    } else {
        lemma_later(t, o, i, j);
        lemma_inline_pairs_faithful(t, j, o);
    }
}

proof fn lemma_inline_pairs_faithful(t: Seq<u8>, j: int, out: Seq<Symbol>)
    requires
        t.len() <= usize::MAX,
        fits(t, out, j),
        0 <= j <= t.len(),
    ensures
        keeps(t, inline_pairs(t, j, out)),
    decreases t.len() - j, 4int,
{
    if starts_key(t, j) {
        lemma_key_segment_faithful(t, j, out);
        lemma_key_segment_moves(t, j, out);
        if let Ok((k, o1)) = key_segment(t, j, out) {
            lemma_assign_path_faithful(t, k, false, o1);
            lemma_assign_path_moves(t, k, false, o1);
            if let Ok((m, o2)) = assign_path(t, k, false, o1) {
                let r = value(t, m, o2);
                lemma_value_faithful(t, m, o2);
                if let Ok((n, o3)) = r {
                    if moved_on(t, m, r) {
                        lemma_blank_end(t, n);
                        let g = blank_end(t, n);
                        if byte_at(t, g) == ',' as u8 {
                            lemma_blank_end(t, g + 1);
                            lemma_later(t, o3, n, blank_end(t, g + 1));
                            lemma_inline_pairs_faithful(t, blank_end(t, g + 1), o3);
                        } else if byte_at(t, g) == '}' as u8 {
                            lemma_push(t, o3, marker(Sym::InlineTableEnd, g), n, g + 1);
                        }
                    }
                }
            }
        }
    }
}

proof fn lemma_key_value_faithful(t: Seq<u8>, j: int, out: Seq<Symbol>)
    requires
        t.len() <= usize::MAX,
        fits(t, out, j),
        starts_key(t, j),
    ensures
        keeps(t, key_value(t, j, out)),
{
    lemma_key_segment_faithful(t, j, out);
    lemma_key_segment_moves(t, j, out);
    if let Ok((k, o1)) = key_segment(t, j, out) {
        lemma_assign_path_faithful(t, k, false, o1);
        lemma_assign_path_moves(t, k, false, o1);
        if let Ok((m, o2)) = assign_path(t, k, false, o1) {
            lemma_value_faithful(t, m, o2);
            lemma_value_moves(t, m, o2);
            if let Ok((n, o3)) = value(t, m, o2) {
                lemma_line_end(t, n);
                if let Ok(p) = line_end(t, n) {
                    lemma_later(t, o3, n, p);
                }
            }
        }
    }
}

/// Where the document from `j` on scans, it ends at the end of the text
/// with one `Eof` there, after faithful symbols only.
proof fn lemma_document(t: Seq<u8>, j: int, out: Seq<Symbol>)
    requires
        t.len() <= usize::MAX,
        fits(t, out, j),
        0 <= j <= t.len(),
    ensures
        document(t, j, out) matches Ok((k, o)) ==> k == t.len() && o.len() >= 1 && o.last()
            == marker(Sym::Eof, t.len() as int) && fits(t, o.drop_last(), t.len() as int),
    decreases t.len() - j,
{
    let b = byte_at(t, j);
    if b == '\r' as u8 {
        if byte_at(t, j + 1) == '\n' as u8 {
            lemma_later(t, out, j, j + 2);
            lemma_document(t, j + 2, out);
        }
    } else if b == '\n' as u8 || b == ' ' as u8 || b == '\t' as u8 {
        lemma_later(t, out, j, j + 1);
        lemma_document(t, j + 1, out);
    } else if b == '#' as u8 {
        lemma_comment_end(t, j + 1);
        if let Ok(k) = comment_end(t, j + 1) {
            lemma_later(t, out, j, k);
            lemma_document(t, k, out);
        }
    } else if b == '[' as u8 {
        lemma_table_faithful(t, j, out);
        crate::grammar::lemma_table_moves(t, j, out);
        if let Ok((k, o)) = table(t, j, out) {
            lemma_document(t, k, o);
        }
    } else if starts_key(t, j) {
        lemma_key_value_faithful(t, j, out);
        crate::grammar::lemma_key_value_moves(t, j, out);
        if let Ok((k, o)) = key_value(t, j, out) {
            lemma_document(t, k, o);
        }
    } else if b == 0 && j == t.len() {
        assert(out.push(marker(Sym::Eof, j)).drop_last() =~= out);
    }
}

/// Span extraction: in the symbols of a successful scan, every symbol but
/// the final `Eof` has a span within the text with `lo <= hi`, a key's span
/// holds exactly a bare key (a maximal run of bare-key bytes), a boolean's
/// holds exactly `true` or `false`, a number's or a date-time's runs from
/// its first to its last byte, and a string's has one of the forms of `holds_string`.
pub proof fn law_spans_hold_their_content(t: Seq<u8>)
    requires
        t.len() <= usize::MAX,
    ensures
        lex(t) matches Ok(syms) ==> forall|m: int|
            0 <= m < syms.len() - 1 ==> faithful(t, #[trigger] syms[m]),
{
    lemma_document(t, 0, Seq::empty());
    if let Ok((k, syms)) = document(t, 0, Seq::empty()) {
        assert forall|m: int| 0 <= m < syms.len() - 1 implies faithful(t, #[trigger] syms[m]) by {
            assert(syms.drop_last()[m] == syms[m]);
        }
    }
}

/// Document order: in the symbols of a successful scan, no symbol's span
/// starts before the span of an earlier symbol.
pub proof fn law_spans_in_document_order(t: Seq<u8>)
    requires
        t.len() <= usize::MAX,
    ensures
        lex(t) matches Ok(syms) ==> forall|a: int, b: int|
            #![trigger syms[a], syms[b]]
            0 <= a < b < syms.len() ==> syms[a].span.lo <= syms[b].span.lo,
{
    lemma_document(t, 0, Seq::empty());
    if let Ok((k, syms)) = document(t, 0, Seq::empty()) {
        let d = syms.drop_last();
        assert forall|a: int, b: int| 0 <= a < b < syms.len() implies #[trigger] syms[a].span.lo
            <= #[trigger] syms[b].span.lo by {
            assert(syms[a] == d[a]);
            if b < syms.len() - 1 {
                assert(syms[b] == d[b]);
            }
        }
    }
}

/// Total coverage: a scan of the whole text that succeeds ends with the
/// cursor at the end of the text, and its symbols hold exactly one `Eof`,
/// the last, at that position.
pub proof fn law_total_coverage(t: Seq<u8>)
    requires
        t.len() <= usize::MAX,
    ensures
        document(t, 0, Seq::empty()) matches Ok((k, syms)) ==> {
            &&& k == t.len()
            &&& syms.len() >= 1
            &&& syms.last() == marker(Sym::Eof, t.len() as int)
            &&& forall|m: int| 0 <= m < syms.len() - 1 ==> (#[trigger] syms[m]).sym != Sym::Eof
        },
{
    lemma_document(t, 0, Seq::empty());
    if let Ok((k, syms)) = document(t, 0, Seq::empty()) {
        assert forall|m: int| 0 <= m < syms.len() - 1 implies (#[trigger] syms[m]).sym
            != Sym::Eof by {
            assert(syms.drop_last()[m] == syms[m]);
        }
    }
}

/// Determinism: the outcome of a scan, its symbols or its error with the
/// error's offsets, is a function of the bytes of the text alone, so texts
/// with the same bytes scan alike, however often they are scanned.
pub proof fn law_scan_is_deterministic(a: Seq<u8>, b: Seq<u8>)
    requires
        a == b,
    ensures
        lex(a) == lex(b),
        document(a, 0, Seq::empty()) == document(b, 0, Seq::empty()),
{
}

/// Bytes that leave the quote and backslash counts of a multi-line basic
/// string at zero.
pub open spec fn is_plain(b: u8) -> bool {
    b != '"' as u8 && b != '\\' as u8 && b != 0
}

proof fn lemma_plain_run(t: Seq<u8>, start: int, j: int, n: int)
    requires
        0 <= j,
        0 <= n,
        j + n <= t.len(),
        forall|m: int| j <= m < j + n ==> is_plain(#[trigger] t[m]),
    ensures
        ml_basic_end(t, start, j, 0, 0) == ml_basic_end(t, start, j + n, 0, 0),
    decreases n,
{
    if n > 0 {
        lemma_plain_run(t, start, j + 1, n - 1);
    }
}

proof fn lemma_quote_steps(t: Seq<u8>, start: int, j: int, n: int, quotes: nat)
    requires
        0 <= j,
        0 <= n,
        j + n <= t.len(),
        forall|m: int| j <= m < j + n ==> #[trigger] t[m] == '"' as u8,
    ensures
        ml_basic_end(t, start, j, quotes, 0) == ml_basic_end(t, start, j + n, quotes + n as nat, 0),
    decreases n,
{
    if n > 0 {
        lemma_quote_steps(t, start, j + 1, n - 1, quotes + 1);
    }
}

/// Quote runs of multi-line basic strings: where the body of a `"""…"""`
/// string opening at `i` is `len` plain bytes followed by `extra` quotes,
/// and the closing `"""` comes next, one or two such quotes stay inside
/// the string's span, while three or more are `TooManyQuotesInString`.
pub proof fn law_quote_run(t: Seq<u8>, i: int, len: int, extra: int, out: Seq<Symbol>)
    requires
        0 <= i,
        0 <= len,
        0 <= extra,
        is_triple(t, i, '"' as u8),
        i + 3 + len + extra + 3 <= t.len(),
        forall|m: int| i + 3 <= m < i + 3 + len ==> is_plain(#[trigger] t[m]),
        forall|m: int| i + 3 + len <= m < i + 3 + len + extra + 3 ==> #[trigger] t[m] == '"' as u8,
        byte_at(t, i + 3 + len + extra + 3) != '"' as u8,
    ensures
        ({
            let (body_end, close_end) = (i + 3 + len + extra, i + 3 + len + extra + 3);
            &&& 1 <= extra <= 2 ==> ml_basic_string(t, i, out) == Ok::<(int, Seq<Symbol>), Error>(
                (close_end, out.push(spanned(Sym::String, i + 3, close_end - extra))),
            ) && body_end <= close_end - extra
            &&& extra >= 3 ==> ml_basic_string(t, i, out) == Err::<(int, Seq<Symbol>), Error>(
                Error::TooManyQuotesInString { start: (i + 3) as usize, pos: close_end as usize },
            )
        }),
{
    let start = i + 3;
    lemma_plain_run(t, start, start, len);
    lemma_quote_steps(t, start, start + len, extra + 3, 0);
}

} // verus!
