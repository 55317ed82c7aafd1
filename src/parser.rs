//! The cursor over the input and the acceptors of the grammar.
//!
//! An acceptor reads from the cursor's position. Where its rule matches, it
//! leaves the cursor after the match and returns the value. Where it does not,
//! it leaves the cursor on the first character the rule could not interpret.
use vstd::prelude::*;
use vstd::std_specs::iter::IteratorSpec;

use crate::grammar::{
    array_body, array_value, at, digits_end, exponent_end, fraction_end, hex_end, integer_end,
    is_digit, is_hex, is_ws, items, location, member, members,
    number_end, object_body, object_value, scalar, string_end, symbols_end, value, word_end,
    ws_end, document, MAX_DEPTH,
};
use crate::value::{deep_items, deep_members, put_member, Json};
pub use crate::value::{JsonValue, ParseError};

verus! {

broadcast use vstd::std_specs::vec::group_vec_axioms;

/// The text being parsed, the position reached in it, and that position's row
/// and column.
pub struct Cursor {
    text: Vec<char>,
    pos: usize,
    row: usize,
    col: usize,
}

impl Cursor {
    /// The whole text.
    pub closed spec fn text(&self) -> Seq<char> {
        self.text@
    }

    /// How many characters have been read.
    pub closed spec fn pos(&self) -> int {
        self.pos as int
    }

    /// The position lies in the text, and the row and column are its own.
    pub closed spec fn wf(&self) -> bool {
        &&& self.pos <= self.text.len()
        &&& location(self.text@, self.pos as int) == (self.row as int, self.col as int)
    }

    /// Row of the position, counted from 0.
    pub fn row(&self) -> (r: usize)
        requires
            self.wf(),
        ensures
            r == location(self.text(), self.pos()).0,
    {
        self.row
    }

    /// Column of the position, counted from 0.
    pub fn col(&self) -> (r: usize)
        requires
            self.wf(),
        ensures
            r == location(self.text(), self.pos()).1,
    {
        self.col
    }

    /// How many characters are left.
    pub fn remaining(&self) -> (r: usize)
        requires
            self.wf(),
        ensures
            r == self.text().len() - self.pos(),
    {
        self.text.len() - self.pos
    }

    /// The character `k` places after the position, if there is one.
    fn peek_at(&self, k: usize) -> (r: Option<char>)
        requires
            self.wf(),
        ensures
            r == (if self.pos() + k < self.text().len() {
                Some(self.text()[self.pos() + k])
            } else {
                None
            }),
    {
        if k < self.text.len() - self.pos {
            Some(self.text[self.pos + k])
        } else {
            None
        }
    }

    fn peek(&self) -> (r: Option<char>)
        requires
            self.wf(),
        ensures
            r == (if self.pos() < self.text().len() {
                Some(self.text()[self.pos()])
            } else {
                None
            }),
    {
        self.peek_at(0)
    }

    /// Step over the next character.
    fn advance(&mut self)
        requires
            old(self).wf(),
            old(self).pos() < old(self).text().len(),
        ensures
            final(self).wf(),
            final(self).text() == old(self).text(),
            final(self).pos() == old(self).pos() + 1,
    {
        proof {
            lemma_location_bounds(self.text@, self.pos as int);
        }
        if self.text[self.pos] == '\n' {
            self.row = self.row + 1;
            self.col = 0;
        } else {
            self.col = self.col + 1;
        }
        self.pos = self.pos + 1;
    }

    /// Step over `expected` where it comes next; otherwise stay.
    fn accept(&mut self, expected: char) -> (r: bool)
        requires
            old(self).wf(),
        ensures
            final(self).wf(),
            final(self).text() == old(self).text(),
            r == at(old(self).text(), old(self).pos(), expected),
            final(self).pos() == old(self).pos() + if r {
                1int
            } else {
                0int
            },
    {
        if self.peek() == Some(expected) {
            self.advance();
            true
        } else {
            false
        }
    }
}

proof fn lemma_location_bounds(s: Seq<char>, n: int)
    requires
        0 <= n,
    ensures
        0 <= location(s, n).0 <= n,
        0 <= location(s, n).1 <= n,
    decreases n,
{
    if n > 0 {
        lemma_location_bounds(s, n - 1);
    }
}

/// The cursor moved forward over the same text.
pub open spec fn moved(a: &Cursor, b: &Cursor) -> bool {
    &&& b.wf()
    &&& b.text() == a.text()
    &&& a.pos() <= b.pos()
}

/// The cursor stands where a rule's result says.
pub open spec fn landed(c: &Cursor, r: Result<int, int>) -> bool {
    c.pos() == match r {
        Ok(e) => e,
        Err(p) => p,
    }
}

/// An acceptor's value and the cursor agree with the rule's result.
pub open spec fn produced(r: Option<JsonValue>, c: &Cursor, g: Result<(Json, int), int>) -> bool {
    match g {
        Ok((v, e)) => r is Some && r->0.deep() == v && c.pos() == e,
        Err(p) => r is None && c.pos() == p,
    }
}

fn is_ws_char(ch: char) -> (r: bool)
    ensures
        r == is_ws(ch),
{
    ch == ' ' || ch == '\n' || ch == '\r' || ch == '\t'
}

fn is_digit_char(ch: char) -> (r: bool)
    ensures
        r == is_digit(ch),
{
    '0' <= ch && ch <= '9'
}

fn is_hex_char(ch: char) -> (r: bool)
    ensures
        r == is_hex(ch),
{
    ('0' <= ch && ch <= '9') || ('a' <= ch && ch <= 'f') || ('A' <= ch && ch <= 'F')
}

/// Steps over a run of spaces, newlines, carriage returns and tabs.
pub fn accept_whitespace(c: &mut Cursor)
    requires
        old(c).wf(),
    ensures
        moved(old(c), final(c)),
        final(c).pos() == ws_end(old(c).text(), old(c).pos()),
{
    loop
        invariant
            moved(old(c), c),
            ws_end(c.text(), c.pos()) == ws_end(old(c).text(), old(c).pos()),
        decreases c.text().len() - c.pos(),
    {
        match c.peek() {
            Some(ch) => {
                if is_ws_char(ch) {
                    c.advance();
                } else {
                    return;
                }
            },
            None => {
                return;
            },
        }
    }
}

fn accept_digits(c: &mut Cursor)
    requires
        old(c).wf(),
    ensures
        moved(old(c), final(c)),
        final(c).pos() == digits_end(old(c).text(), old(c).pos()),
{
    loop
        invariant
            moved(old(c), c),
            digits_end(c.text(), c.pos()) == digits_end(old(c).text(), old(c).pos()),
        decreases c.text().len() - c.pos(),
    {
        match c.peek() {
            Some(ch) => {
                if is_digit_char(ch) {
                    c.advance();
                } else {
                    return;
                }
            },
            None => {
                return;
            },
        }
    }
}

fn accept_integer(c: &mut Cursor) -> (r: bool)
    requires
        old(c).wf(),
    ensures
        moved(old(c), final(c)),
        r == integer_end(old(c).text(), old(c).pos()) is Ok,
        landed(final(c), integer_end(old(c).text(), old(c).pos())),
{
    c.accept('-');
    if c.accept('0') {
        return true;
    }
    match c.peek() {
        Some(ch) => {
            if '1' <= ch && ch <= '9' {
                c.advance();
                accept_digits(c);
                true
            } else {
                false
            }
        },
        None => false,
    }
}

fn accept_fraction(c: &mut Cursor)
    requires
        old(c).wf(),
    ensures
        moved(old(c), final(c)),
        final(c).pos() == fraction_end(old(c).text(), old(c).pos()),
{
    if c.peek() == Some('.') {
        match c.peek_at(1) {
            Some(ch) => {
                if is_digit_char(ch) {
                    c.advance();
                    c.advance();
                    accept_digits(c);
                }
            },
            None => {},
        }
    }
}

fn accept_exponent(c: &mut Cursor)
    requires
        old(c).wf(),
    ensures
        moved(old(c), final(c)),
        final(c).pos() == exponent_end(old(c).text(), old(c).pos()),
{
    let e = c.peek();
    if e == Some('e') || e == Some('E') {
        let sign = c.peek_at(1);
        let k: usize = if sign == Some('+') || sign == Some('-') {
            2
        } else {
            1
        };
        match c.peek_at(k) {
            Some(ch) => {
                if is_digit_char(ch) {
                    let mut n: usize = 0;
                    while n <= k
                        invariant
                            moved(old(c), c),
                            n <= k + 1,
                            c.pos() == old(c).pos() + n,
                            old(c).pos() + k < c.text().len(),
                        decreases k + 1 - n,
                    {
                        c.advance();
                        n = n + 1;
                    }
                    accept_digits(c);
                }
            },
            None => {},
        }
    }
}

/// Relies on `String`'s `FromIterator<&char>`: the string holds the characters
/// in their order.
#[verifier::external_body]
fn string_of(chars: &[char]) -> (r: String)
    ensures
        r@ == chars@,
{
    String::from_iter(chars)
}

/// The characters from `from` up to `to`, as a string.
fn text_between(c: &Cursor, from: usize, to: usize) -> (r: String)
    requires
        c.wf(),
        from <= to <= c.text().len(),
    ensures
        r@ == c.text().subrange(from as int, to as int),
{
    let mut out: Vec<char> = Vec::new();
    let mut k: usize = from;
    while k < to
        invariant
            from <= k <= to <= c.text.len(),
            out@ == c.text@.subrange(from as int, k as int),
        decreases to - k,
    {
        out.push(c.text[k]);
        k = k + 1;
    }
    string_of(out.as_slice())
}

fn number(c: &mut Cursor) -> (r: Option<JsonValue>)
    requires
        old(c).wf(),
    ensures
        moved(old(c), final(c)),
        produced(
            r,
            final(c),
            scalar(
                number_end(old(c).text(), old(c).pos()),
                Json::Num(old(c).text().subrange(old(c).pos(), final(c).pos())),
            ),
        ),
{
    let start = c.pos;
    if !accept_integer(c) {
        return None;
    }
    accept_fraction(c);
    accept_exponent(c);
    Some(JsonValue::NUMBER(text_between(c, start, c.pos)))
}

/// Steps over the exact word `w`; where it breaks off, stays on the first
/// character that differs.
fn accept_word(c: &mut Cursor, w: &[char]) -> (r: bool)
    requires
        old(c).wf(),
    ensures
        moved(old(c), final(c)),
        r == word_end(old(c).text(), old(c).pos(), w@) is Ok,
        landed(final(c), word_end(old(c).text(), old(c).pos(), w@)),
{
    let mut k: usize = 0;
    assert(w@.skip(0) =~= w@);
    while k < w.len()
        invariant
            moved(old(c), c),
            k <= w.len(),
            word_end(old(c).text(), old(c).pos(), w@) == word_end(
                c.text(),
                c.pos(),
                w@.skip(k as int),
            ),
        decreases w.len() - k,
    {
        assert(w@.skip(k as int).drop_first() =~= w@.skip(k + 1));
        if !c.accept(w[k]) {
            return false;
        }
        k = k + 1;
    }
    assert(w@.skip(k as int).len() == 0);
    true
}

fn hex4(c: &mut Cursor) -> (r: bool)
    requires
        old(c).wf(),
    ensures
        moved(old(c), final(c)),
        r == hex_end(old(c).text(), old(c).pos(), 4) is Ok,
        r ==> final(c).pos() == old(c).pos() + 4,
        landed(final(c), hex_end(old(c).text(), old(c).pos(), 4)),
{
    let mut n: usize = 0;
    while n < 4
        invariant
            moved(old(c), c),
            n <= 4,
            c.pos() == old(c).pos() + n,
            hex_end(old(c).text(), old(c).pos(), 4) == hex_end(
                c.text(),
                c.pos(),
                (4 - n) as nat,
            ),
        decreases 4 - n,
    {
        match c.peek() {
            Some(ch) => {
                if is_hex_char(ch) {
                    c.advance();
                } else {
                    return false;
                }
            },
            None => {
                return false;
            },
        }
        n = n + 1;
    }
    true
}

/// The body of a string up to and including its closing quote. Escape
/// sequences are kept as they are written.
fn accept_symbols(c: &mut Cursor) -> (r: bool)
    requires
        old(c).wf(),
    ensures
        moved(old(c), final(c)),
        r == symbols_end(old(c).text(), old(c).pos()) is Ok,
        r ==> final(c).pos() > old(c).pos(),
        landed(final(c), symbols_end(old(c).text(), old(c).pos())),
{
    loop
        invariant
            moved(old(c), c),
            symbols_end(old(c).text(), old(c).pos()) == symbols_end(c.text(), c.pos()),
        decreases c.text().len() - c.pos(),
    {
        match c.peek() {
            None => {
                return false;
            },
            Some(ch) => {
                if ch == '"' {
                    c.advance();
                    return true;
                } else if ch == '\\' {
                    match c.peek_at(1) {
                        None => {
                            c.advance();
                            return false;
                        },
                        Some(e) => {
                            if e == '"' || e == '\\' || e == '/' || e == 'b' || e == 'f' || e
                                == 'n' || e == 'r' || e == 't' {
                                c.advance();
                                c.advance();
                            } else if e == 'u' {
                                c.advance();
                                c.advance();
                                if !hex4(c) {
                                    return false;
                                }
                            } else {
                                c.advance();
                                return false;
                            }
                        },
                    }
                } else {
                    c.advance();
                }
            },
        }
    }
}

/// A string literal; its content is what stands between the quotes.
fn string_text(c: &mut Cursor) -> (r: Option<String>)
    requires
        old(c).wf(),
    ensures
        moved(old(c), final(c)),
        r is Some == string_end(old(c).text(), old(c).pos()) is Ok,
        landed(final(c), string_end(old(c).text(), old(c).pos())),
        r is Some ==> r->0@ == old(c).text().subrange(old(c).pos() + 1, final(c).pos() - 1),
{
    let start = c.pos;
    if !c.accept('"') {
        return None;
    }
    if !accept_symbols(c) {
        return None;
    }
    Some(text_between(c, start + 1, c.pos - 1))
}

/// The sequence of values that result from `prefix` and then `r`.
pub open spec fn after<T>(prefix: Seq<T>, r: Result<(Seq<T>, int), int>) -> Result<
    (Seq<T>, int),
    int,
> {
    match r {
        Ok((rest, e)) => Ok((prefix + rest, e)),
        Err(p) => Err(p),
    }
}

fn parse_value(c: &mut Cursor, d: usize) -> (r: Option<JsonValue>)
    requires
        old(c).wf(),
    ensures
        moved(old(c), final(c)),
        produced(r, final(c), value(old(c).text(), old(c).pos(), d as nat)),
    decreases d, 1usize,
{
    accept_whitespace(c);
    let bare = match c.peek() {
        None => None,
        Some(ch) => {
            if ch == '"' {
                match string_text(c) {
                    Some(t) => Some(JsonValue::STRING(t)),
                    None => None,
                }
            } else if ch == '-' || is_digit_char(ch) {
                number(c)
            } else if ch == '{' {
                parse_object(c, d)
            } else if ch == '[' {
                parse_array(c, d)
            } else if ch == 't' {
                literal(c, &['t', 'r', 'u', 'e'], JsonValue::TRUE)
            } else if ch == 'f' {
                literal(c, &['f', 'a', 'l', 's', 'e'], JsonValue::FALSE)
            } else if ch == 'n' {
                literal(c, &['n', 'u', 'l', 'l'], JsonValue::NULL)
            } else {
                None
            }
        },
    };
    match bare {
        Some(v) => {
            accept_whitespace(c);
            Some(v)
        },
        None => None,
    }
}

fn literal(c: &mut Cursor, w: &[char], v: JsonValue) -> (r: Option<JsonValue>)
    requires
        old(c).wf(),
    ensures
        moved(old(c), final(c)),
        produced(r, final(c), scalar(word_end(old(c).text(), old(c).pos(), w@), v.deep())),
{
    if accept_word(c, w) {
        Some(v)
    } else {
        None
    }
}

fn parse_array(c: &mut Cursor, d: usize) -> (r: Option<JsonValue>)
    requires
        old(c).wf(),
    ensures
        moved(old(c), final(c)),
        produced(r, final(c), array_value(old(c).text(), old(c).pos(), d as nat)),
    decreases d, 0usize,
{
    if d == 0 || !c.accept('[') {
        return None;
    }
    match parse_elements(c, d - 1) {
        Some(items) => {
            proof {
                assert(deep_items(items@) =~= JsonValue::ARRAY(items).deep()->Arr_0);
            }
            Some(JsonValue::ARRAY(items))
        },
        None => None,
    }
}

/// What follows `[`, up to and including `]`.
fn parse_elements(c: &mut Cursor, d: usize) -> (r: Option<Vec<JsonValue>>)
    requires
        old(c).wf(),
    ensures
        moved(old(c), final(c)),
        match array_body(old(c).text(), old(c).pos(), d as nat) {
            Ok((v, e)) => r is Some && deep_items(r->0@) == v && final(c).pos() == e,
            Err(p) => r is None && final(c).pos() == p,
        },
    decreases d, 4usize,
{
    let ghost i0 = c.pos();
    accept_whitespace(c);
    if c.accept(']') {
        proof {
            assert(deep_items(Seq::<JsonValue>::empty()) =~= Seq::<Json>::empty());
        }
        return Some(Vec::new());
    }
    let ghost s = c.text();
    let ghost j = c.pos();
    let mut acc: Vec<JsonValue> = Vec::new();
    assert(array_body(s, i0, d as nat) == items(s, j, d as nat));
    assert(after(deep_items(acc@), items(s, j, d as nat)) =~= items(s, j, d as nat)) by {
        match items(s, j, d as nat) {
            Ok((rest, e)) => {
                assert(deep_items(acc@) + rest =~= rest);
            },
            Err(_) => {},
        }
    }
    loop
        invariant
            moved(old(c), c),
            c.text() == s,
            array_body(s, old(c).pos(), d as nat) == items(s, j, d as nat),
            items(s, j, d as nat) == after(deep_items(acc@), items(s, c.pos(), d as nat)),
        decreases c.text().len() - c.pos(),
    {
        let ghost p = c.pos();
        let ghost before = acc@;
        match parse_value(c, d) {
            None => {
                assert(items(s, p, d as nat) == Err::<(Seq<Json>, int), int>(c.pos()));
                return None;
            },
            Some(v) => {
                let ghost vd = v.deep();
                acc.push(v);
                assert(deep_items(acc@) =~= deep_items(before).push(vd));
                if c.accept(',') {
                    assert(after(deep_items(before), items(s, p, d as nat)) == after(
                        deep_items(acc@),
                        items(s, c.pos(), d as nat),
                    )) by {
                        match items(s, c.pos(), d as nat) {
                            Ok((rest, e)) => {
                                assert(deep_items(before) + (seq![vd] + rest) =~= deep_items(acc@)
                                    + rest);
                            },
                            Err(_) => {},
                        }
                    }
                } else if c.accept(']') {
                    assert(deep_items(before) + seq![vd] =~= deep_items(acc@));
                    return Some(acc);
                } else {
                    assert(items(s, p, d as nat) == Err::<(Seq<Json>, int), int>(c.pos()));
                    return None;
                }
            },
        }
    }
}

fn parse_object(c: &mut Cursor, d: usize) -> (r: Option<JsonValue>)
    requires
        old(c).wf(),
    ensures
        moved(old(c), final(c)),
        produced(r, final(c), object_value(old(c).text(), old(c).pos(), d as nat)),
    decreases d, 0usize,
{
    if d == 0 || !c.accept('{') {
        return None;
    }
    match parse_members(c, d - 1) {
        Some(m) => {
            proof {
                assert(deep_members(m@) =~= JsonValue::OBJECT(m).deep()->Obj_0);
            }
            Some(JsonValue::OBJECT(m))
        },
        None => None,
    }
}

/// A key, `:` and a value.
fn parse_member(c: &mut Cursor, d: usize) -> (r: Option<(String, JsonValue)>)
    requires
        old(c).wf(),
    ensures
        moved(old(c), final(c)),
        match member(old(c).text(), old(c).pos(), d as nat) {
            Ok((k, v, e)) => match r {
                Some((rk, rv)) => rk@ == k && rv.deep() == v && final(c).pos() == e,
                None => false,
            },
            Err(p) => r is None && final(c).pos() == p,
        },
    decreases d, 2usize,
{
    accept_whitespace(c);
    let key = match string_text(c) {
        Some(k) => k,
        None => {
            return None;
        },
    };
    accept_whitespace(c);
    if !c.accept(':') {
        return None;
    }
    match parse_value(c, d) {
        Some(v) => Some((key, v)),
        None => None,
    }
}

/// What follows `{`, up to and including `}`.
fn parse_members(c: &mut Cursor, d: usize) -> (r: Option<Vec<(String, JsonValue)>>)
    requires
        old(c).wf(),
    ensures
        moved(old(c), final(c)),
        match object_body(old(c).text(), old(c).pos(), d as nat) {
            Ok((m, e)) => r is Some && deep_members(r->0@) == m && final(c).pos() == e,
            Err(p) => r is None && final(c).pos() == p,
        },
    decreases d, 4usize,
{
    let ghost i0 = c.pos();
    accept_whitespace(c);
    let ghost s = c.text();
    let ghost j = c.pos();
    let mut acc: Vec<(String, JsonValue)> = Vec::new();
    assert(deep_members(acc@) =~= Seq::empty());
    if c.accept('}') {
        return Some(acc);
    }
    assert(object_body(s, i0, d as nat) == members(s, j, d as nat, Seq::empty()));
    loop
        invariant
            moved(old(c), c),
            c.text() == s,
            object_body(s, old(c).pos(), d as nat) == members(s, j, d as nat, Seq::empty()),
            members(s, j, d as nat, Seq::empty()) == members(
                s,
                c.pos(),
                d as nat,
                deep_members(acc@),
            ),
        decreases c.text().len() - c.pos(),
    {
        let ghost p = c.pos();
        let ghost before = deep_members(acc@);
        match parse_member(c, d) {
            None => {
                assert(members(s, p, d as nat, before) == Err::<(Seq<(Seq<char>, Json)>, int), int>(
                    c.pos(),
                ));
                return None;
            },
            Some((key, v)) => {
                put_member(&mut acc, key, v);
                if c.accept(',') {
                } else if c.accept('}') {
                    assert(members(s, p, d as nat, before) == Ok::<
                        (Seq<(Seq<char>, Json)>, int),
                        int,
                    >((deep_members(acc@), c.pos())));
                    return Some(acc);
                } else {
                    assert(members(s, p, d as nat, before) == Err::<
                        (Seq<(Seq<char>, Json)>, int),
                        int,
                    >(c.pos()));
                    return None;
                }
            },
        }
    }
}



/// The message of an error at position `q`: the character found there, or
/// the end of the input.
pub open spec fn error_message(s: Seq<char>, q: int) -> Seq<char> {
    if 0 <= q < s.len() {
        "unexpected symbol "@ + seq!['\x27', s[q], '\x27']
    } else {
        "unexpected end of input"@
    }
}

/// `e` reports position `q` of `s`.
pub open spec fn reports(e: ParseError, s: Seq<char>, q: int) -> bool {
    &&& e.row == location(s, q).0
    &&& e.col == location(s, q).1
    &&& e.msg@ == error_message(s, q)
}

/// A public acceptor's result and the cursor agree with the rule's result.
pub open spec fn answered(
    r: Result<JsonValue, ParseError>,
    c: &Cursor,
    g: Result<(Json, int), int>,
) -> bool {
    match g {
        Ok((v, e)) => r is Ok && r->Ok_0.deep() == v && c.pos() == e,
        Err(p) => r is Err && c.pos() == p && reports(r->Err_0, c.text(), p),
    }
}

/// Relies on `format!`: a `char` is written as itself.
#[verifier::external_body]
fn unexpected_symbol(ch: char) -> (r: String)
    ensures
        r@ == "unexpected symbol "@ + seq!['\x27', ch, '\x27'],
{
    format!("unexpected symbol '{}'", ch)
}

/// The error at the cursor's position.
pub fn error_here(c: &Cursor) -> (e: ParseError)
    requires
        c.wf(),
    ensures
        reports(e, c.text(), c.pos()),
{
    let msg = match c.peek() {
        Some(ch) => unexpected_symbol(ch),
        None => "unexpected end of input".to_owned(),
    };
    ParseError { row: c.row, col: c.col, msg }
}

fn answer(c: &Cursor, r: Option<JsonValue>) -> (a: Result<JsonValue, ParseError>)
    requires
        c.wf(),
    ensures
        r is Some ==> a == Ok::<JsonValue, ParseError>(r->0),
        r is None ==> a is Err && reports(a->Err_0, c.text(), c.pos()),
{
    match r {
        Some(v) => Ok(v),
        None => Err(error_here(c)),
    }
}

/// A cursor at the start of `content`.
pub fn prepare_environment(content: String) -> (c: Cursor)
    ensures
        c.wf(),
        c.text() == content@,
        c.pos() == 0,
{
    broadcast use vstd::string::group_string_axioms;

    let mut text: Vec<char> = Vec::new();
    let mut it = content.as_str().chars();
    loop
        invariant
            text@ + it.remaining() == content@,
            it.obeys_prophetic_iter_laws(),
            it.decrease() is Some,
        ensures
            text@ == content@,
        decreases it.decrease()->0,
    {
        let ghost before = it.remaining();
        match it.next() {
            Some(ch) => {
                assert(text@.push(ch) + it.remaining() =~= text@ + before);
                text.push(ch);
            },
            None => {
                assert(text@ =~= content@);
                break;
            },
        }
    }
    Cursor { text, pos: 0, row: 0, col: 0 }
}

/// A value with the whitespace around it.
pub fn accept_value(c: &mut Cursor) -> (r: Result<JsonValue, ParseError>)
    requires
        old(c).wf(),
    ensures
        moved(old(c), final(c)),
        answered(r, final(c), value(old(c).text(), old(c).pos(), MAX_DEPTH as nat)),
{
    let v = parse_value(c, MAX_DEPTH);
    answer(c, v)
}

/// An array that opens at the cursor.
pub fn accept_array(c: &mut Cursor) -> (r: Result<JsonValue, ParseError>)
    requires
        old(c).wf(),
    ensures
        moved(old(c), final(c)),
        answered(r, final(c), array_value(old(c).text(), old(c).pos(), MAX_DEPTH as nat)),
{
    let v = parse_array(c, MAX_DEPTH);
    answer(c, v)
}

/// An object that opens at the cursor.
pub fn accept_object(c: &mut Cursor) -> (r: Result<JsonValue, ParseError>)
    requires
        old(c).wf(),
    ensures
        moved(old(c), final(c)),
        answered(r, final(c), object_value(old(c).text(), old(c).pos(), MAX_DEPTH as nat)),
{
    let v = parse_object(c, MAX_DEPTH);
    answer(c, v)
}

/// A string literal at the cursor.
pub fn accept_string(c: &mut Cursor) -> (r: Result<JsonValue, ParseError>)
    requires
        old(c).wf(),
    ensures
        moved(old(c), final(c)),
        answered(
            r,
            final(c),
            scalar(
                string_end(old(c).text(), old(c).pos()),
                Json::Str(old(c).text().subrange(old(c).pos() + 1, final(c).pos() - 1)),
            ),
        ),
{
    let v = match string_text(c) {
        Some(t) => Some(JsonValue::STRING(t)),
        None => None,
    };
    answer(c, v)
}

/// A number literal at the cursor; the value keeps the literal's text.
pub fn accept_number(c: &mut Cursor) -> (r: Result<JsonValue, ParseError>)
    requires
        old(c).wf(),
    ensures
        moved(old(c), final(c)),
        answered(
            r,
            final(c),
            scalar(
                number_end(old(c).text(), old(c).pos()),
                Json::Num(old(c).text().subrange(old(c).pos(), final(c).pos())),
            ),
        ),
{
    let v = number(c);
    answer(c, v)
}

/// The word `true` at the cursor.
pub fn accept_true(c: &mut Cursor) -> (r: Result<JsonValue, ParseError>)
    requires
        old(c).wf(),
    ensures
        moved(old(c), final(c)),
        answered(
            r,
            final(c),
            scalar(word_end(old(c).text(), old(c).pos(), seq!['t', 'r', 'u', 'e']), Json::True),
        ),
{
    let v = literal(c, &['t', 'r', 'u', 'e'], JsonValue::TRUE);
    answer(c, v)
}

/// The word `false` at the cursor.
pub fn accept_false(c: &mut Cursor) -> (r: Result<JsonValue, ParseError>)
    requires
        old(c).wf(),
    ensures
        moved(old(c), final(c)),
        answered(
            r,
            final(c),
            scalar(
                word_end(old(c).text(), old(c).pos(), seq!['f', 'a', 'l', 's', 'e']),
                Json::False,
            ),
        ),
{
    let v = literal(c, &['f', 'a', 'l', 's', 'e'], JsonValue::FALSE);
    answer(c, v)
}

/// The word `null` at the cursor.
pub fn accept_null(c: &mut Cursor) -> (r: Result<JsonValue, ParseError>)
    requires
        old(c).wf(),
    ensures
        moved(old(c), final(c)),
        answered(
            r,
            final(c),
            scalar(word_end(old(c).text(), old(c).pos(), seq!['n', 'u', 'l', 'l']), Json::Null),
        ),
{
    let v = literal(c, &['n', 'u', 'l', 'l'], JsonValue::NULL);
    answer(c, v)
}

/// Parses a whole document: a value with the whitespace around it. What
/// follows the value is not looked at. On failure the error gives the row,
/// column and character of the first position that could not be interpreted.
pub fn parse_document(content: String) -> (r: Result<JsonValue, ParseError>)
    ensures
        match document(content@) {
            Ok(v) => r is Ok && r->Ok_0.deep() == v,
            Err(p) => r is Err && reports(r->Err_0, content@, p),
        },
{
    let mut c = prepare_environment(content);
    accept_value(&mut c)
}

} // verus!
