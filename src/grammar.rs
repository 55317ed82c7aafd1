//! The JSON grammar as mathematical functions over the input characters.
//!
//! Every function takes the whole text `s` and a position `i` and says how far
//! the rule reaches from there: `Ok(end)` when it matches `s[i..end]`, or
//! `Err(p)` with `p` the first position the rule could not interpret.
use vstd::prelude::*;

use crate::profile::{type_of, JsonType};
use crate::value::{keys_of, lemma_put_distinct, put, Json};

verus! {

/// How deep arrays and objects may nest before the input is refused.
pub const MAX_DEPTH: usize = 128;

pub open spec fn is_ws(c: char) -> bool {
    c == ' ' || c == '\n' || c == '\r' || c == '\t'
}

pub open spec fn is_digit(c: char) -> bool {
    '0' <= c && c <= '9'
}

pub open spec fn is_nonzero_digit(c: char) -> bool {
    '1' <= c && c <= '9'
}

pub open spec fn is_hex(c: char) -> bool {
    is_digit(c) || ('a' <= c && c <= 'f') || ('A' <= c && c <= 'F')
}

/// The characters that may follow a backslash on their own.
pub open spec fn is_simple_escape(c: char) -> bool {
    c == '"' || c == '\\' || c == '/' || c == 'b' || c == 'f' || c == 'n' || c == 'r' || c == 't'
}

/// `s` holds `c` at position `i`.
pub open spec fn at(s: Seq<char>, i: int, c: char) -> bool {
    0 <= i < s.len() && s[i] == c
}

/// Row and column of position `n`: a newline starts a new row at column 0.
pub open spec fn location(s: Seq<char>, n: int) -> (int, int)
    decreases n,
{
    if n <= 0 {
        (0, 0)
    } else {
        let (row, col) = location(s, n - 1);
        if s[n - 1] == '\n' {
            (row + 1, 0)
        } else {
            (row, col + 1)
        }
    }
}

/// End of the run of whitespace that starts at `i`.
pub open spec fn ws_end(s: Seq<char>, i: int) -> int
    decreases s.len() - i,
{
    if 0 <= i < s.len() && is_ws(s[i]) {
        ws_end(s, i + 1)
    } else {
        i
    }
}

/// End of the run of decimal digits that starts at `i`.
pub open spec fn digits_end(s: Seq<char>, i: int) -> int
    decreases s.len() - i,
{
    if 0 <= i < s.len() && is_digit(s[i]) {
        digits_end(s, i + 1)
    } else {
        i
    }
}

/// The exact word `w` at `i`.
pub open spec fn word_end(s: Seq<char>, i: int, w: Seq<char>) -> Result<int, int>
    decreases w.len(),
{
    if w.len() == 0 {
        Ok(i)
    } else if at(s, i, w[0]) {
        word_end(s, i + 1, w.drop_first())
    } else {
        Err(i)
    }
}

/// Optional minus sign, then `0` or a nonzero digit and more digits.
pub open spec fn integer_end(s: Seq<char>, i: int) -> Result<int, int> {
    let j = if at(s, i, '-') {
        i + 1
    } else {
        i
    };
    if at(s, j, '0') {
        Ok(j + 1)
    } else if 0 <= j < s.len() && is_nonzero_digit(s[j]) {
        Ok(digits_end(s, j + 1))
    } else {
        Err(j)
    }
}

/// A `.` and at least one digit; where that is missing the fraction is empty.
pub open spec fn fraction_end(s: Seq<char>, k: int) -> int {
    if at(s, k, '.') && 0 <= k + 1 < s.len() && is_digit(s[k + 1]) {
        digits_end(s, k + 2)
    } else {
        k
    }
}

/// `e` or `E`, an optional sign and at least one digit; where that is missing
/// the exponent is empty.
pub open spec fn exponent_end(s: Seq<char>, f: int) -> int {
    if at(s, f, 'e') || at(s, f, 'E') {
        let g = if at(s, f + 1, '+') || at(s, f + 1, '-') {
            f + 2
        } else {
            f + 1
        };
        if 0 <= g < s.len() && is_digit(s[g]) {
            digits_end(s, g + 1)
        } else {
            f
        }
    } else {
        f
    }
}

pub open spec fn number_end(s: Seq<char>, i: int) -> Result<int, int> {
    match integer_end(s, i) {
        Ok(k) => Ok(exponent_end(s, fraction_end(s, k))),
        Err(p) => Err(p),
    }
}

/// `n` hexadecimal digits from `j`.
pub open spec fn hex_end(s: Seq<char>, j: int, n: nat) -> Result<int, int>
    decreases n,
{
    if n == 0 {
        Ok(j)
    } else if 0 <= j < s.len() && is_hex(s[j]) {
        hex_end(s, j + 1, (n - 1) as nat)
    } else {
        Err(j)
    }
}

/// The body of a string from `j` up to and including its closing quote.
pub open spec fn symbols_end(s: Seq<char>, j: int) -> Result<int, int>
    decreases s.len() - j,
{
    if !(0 <= j < s.len()) {
        Err(j)
    } else if s[j] == '"' {
        Ok(j + 1)
    } else if s[j] == '\\' {
        if 0 <= j + 1 < s.len() && is_simple_escape(s[j + 1]) {
            symbols_end(s, j + 2)
        } else if at(s, j + 1, 'u') {
            // `hex_end` only succeeds at `j + 6` within the text; saying so
            // here lets the recursion be seen to shrink.
            match hex_end(s, j + 2, 4) {
                Ok(e) => if e == j + 6 && e <= s.len() {
                    symbols_end(s, e)
                } else {
                    Err(e)
                },
                Err(p) => Err(p),
            }
        } else {
            Err(j + 1)
        }
    } else {
        symbols_end(s, j + 1)
    }
}

pub open spec fn string_end(s: Seq<char>, i: int) -> Result<int, int> {
    if at(s, i, '"') {
        symbols_end(s, i + 1)
    } else {
        Err(i)
    }
}

/// The value a scalar rule gives for the text it matched.
pub open spec fn scalar(r: Result<int, int>, v: Json) -> Result<(Json, int), int> {
    match r {
        Ok(e) => Ok((v, e)),
        Err(p) => Err(p),
    }
}

/// A value with the whitespace around it, nested at most `d` levels deep.
pub open spec fn value(s: Seq<char>, i: int, d: nat) -> Result<(Json, int), int>
    decreases d, 1int, 0int,
{
    let j = ws_end(s, i);
    let bare = if !(0 <= j < s.len()) {
        Err(j)
    } else if s[j] == '"' {
        match string_end(s, j) {
            Ok(e) => Ok((Json::Str(s.subrange(j + 1, e - 1)), e)),
            Err(p) => Err(p),
        }
    } else if s[j] == '-' || is_digit(s[j]) {
        match number_end(s, j) {
            Ok(e) => Ok((Json::Num(s.subrange(j, e)), e)),
            Err(p) => Err(p),
        }
    } else if s[j] == '{' {
        object_value(s, j, d)
    } else if s[j] == '[' {
        array_value(s, j, d)
    } else if s[j] == 't' {
        scalar(word_end(s, j, seq!['t', 'r', 'u', 'e']), Json::True)
    } else if s[j] == 'f' {
        scalar(word_end(s, j, seq!['f', 'a', 'l', 's', 'e']), Json::False)
    } else if s[j] == 'n' {
        scalar(word_end(s, j, seq!['n', 'u', 'l', 'l']), Json::Null)
    } else {
        Err(j)
    };
    match bare {
        Ok((v, e)) => Ok((v, ws_end(s, e))),
        Err(p) => Err(p),
    }
}

/// An array that opens at `i`.
pub open spec fn array_value(s: Seq<char>, i: int, d: nat) -> Result<(Json, int), int>
    decreases d, 0int, 0int,
{
    if !at(s, i, '[') || d == 0 {
        Err(i)
    } else {
        match array_body(s, i + 1, (d - 1) as nat) {
            Ok((items, e)) => Ok((Json::Arr(items), e)),
            Err(p) => Err(p),
        }
    }
}

/// What follows `[`: `]`, or elements separated by `,` and then `]`.
pub open spec fn array_body(s: Seq<char>, i: int, d: nat) -> Result<(Seq<Json>, int), int>
    decreases d, 4int, 0int,
{
    let j = ws_end(s, i);
    if at(s, j, ']') {
        Ok((Seq::empty(), j + 1))
    } else {
        items(s, j, d)
    }
}

/// Elements from `i` to the closing `]`.
pub open spec fn items(s: Seq<char>, i: int, d: nat) -> Result<(Seq<Json>, int), int>
    decreases d, 3int, s.len() - i,
{
    // A value never ends before it starts; `k >= i` states it for the
    // recursion's measure.
    match value(s, i, d) {
        Err(p) => Err(p),
        Ok((v, k)) => if at(s, k, ',') && k >= i {
            match items(s, k + 1, d) {
                Ok((rest, e)) => Ok((seq![v] + rest, e)),
                Err(p) => Err(p),
            }
        } else if at(s, k, ']') {
            Ok((seq![v], k + 1))
        } else {
            Err(k)
        },
    }
}

/// An object that opens at `i`.
pub open spec fn object_value(s: Seq<char>, i: int, d: nat) -> Result<(Json, int), int>
    decreases d, 0int, 0int,
{
    if !at(s, i, '{') || d == 0 {
        Err(i)
    } else {
        match object_body(s, i + 1, (d - 1) as nat) {
            Ok((members, e)) => Ok((Json::Obj(members), e)),
            Err(p) => Err(p),
        }
    }
}

/// What follows `{`: `}`, or members separated by `,` and then `}`.
pub open spec fn object_body(s: Seq<char>, i: int, d: nat) -> Result<
    (Seq<(Seq<char>, Json)>, int),
    int,
>
    decreases d, 4int, 0int,
{
    let j = ws_end(s, i);
    if at(s, j, '}') {
        Ok((Seq::empty(), j + 1))
    } else {
        members(s, j, d, Seq::empty())
    }
}

/// A key, `:` and a value, the whitespace around each.
pub open spec fn member(s: Seq<char>, i: int, d: nat) -> Result<(Seq<char>, Json, int), int>
    decreases d, 2int, 0int,
{
    let k0 = ws_end(s, i);
    match string_end(s, k0) {
        Err(p) => Err(p),
        Ok(ke) => {
            let k1 = ws_end(s, ke);
            if !at(s, k1, ':') {
                Err(k1)
            } else {
                match value(s, k1 + 1, d) {
                    Err(p) => Err(p),
                    Ok((v, k)) => Ok((s.subrange(k0 + 1, ke - 1), v, k)),
                }
            }
        },
    }
}

/// Members from `i` to the closing `}`, put into `acc` one after the other:
/// a repeated key keeps its place and takes the later value.
pub open spec fn members(s: Seq<char>, i: int, d: nat, acc: Seq<(Seq<char>, Json)>) -> Result<
    (Seq<(Seq<char>, Json)>, int),
    int,
>
    decreases d, 3int, s.len() - i,
{
    match member(s, i, d) {
        Err(p) => Err(p),
        Ok((key, v, k)) => {
            let next = put(acc, key, v);
            // As in `items`, `k >= i` always holds.
            if at(s, k, ',') && k >= i {
                members(s, k + 1, d, next)
            } else if at(s, k, '}') {
                Ok((next, k + 1))
            } else {
                Err(k)
            }
        },
    }
}

/// A whole document: a value with the whitespace around it. What follows is
/// not looked at.
pub open spec fn document(s: Seq<char>) -> Result<Json, int> {
    match value(s, 0, MAX_DEPTH as nat) {
        Ok((v, _)) => Ok(v),
        Err(p) => Err(p),
    }
}

/// The kind of value that a literal opening with `c` stands for.
pub open spec fn opening_kind(c: char) -> JsonType {
    if c == '"' {
        JsonType::STRING
    } else if c == '{' {
        JsonType::OBJECT
    } else if c == '[' {
        JsonType::ARRAY
    } else if c == 't' {
        JsonType::TRUE
    } else if c == 'f' {
        JsonType::FALSE
    } else if c == 'n' {
        JsonType::NULL
    } else {
        JsonType::NUMBER
    }
}

/// Whatever a value parses to is of the kind its first character, after the
/// leading whitespace, announces: an object for `{`, an array for `[`, a
/// string for a quote, a number for a minus sign or a digit, and `true`,
/// `false` or `null` for their first letters.
pub proof fn lemma_value_kind(s: Seq<char>, i: int, d: nat)
    requires
        value(s, i, d) is Ok,
    ensures
        0 <= ws_end(s, i) < s.len(),
        type_of(value(s, i, d)->Ok_0.0) == opening_kind(s[ws_end(s, i)]),
        s[ws_end(s, i)] == '-' || is_digit(s[ws_end(s, i)]) ==> value(s, i, d)->Ok_0.0 is Num,
{
}

/// A document that parses is of the kind its first character after the
/// leading whitespace announces.
pub proof fn lemma_document_kind(s: Seq<char>)
    requires
        document(s) is Ok,
    ensures
        0 <= ws_end(s, 0) < s.len(),
        type_of(document(s)->Ok_0) == opening_kind(s[ws_end(s, 0)]),
{
    lemma_value_kind(s, 0, MAX_DEPTH as nat);
}

/// A run of whitespace from `i` to the end is taken whole.
pub proof fn lemma_whitespace_run(s: Seq<char>, i: int)
    requires
        0 <= i <= s.len(),
        forall|j: int| i <= j < s.len() ==> is_ws(#[trigger] s[j]),
    ensures
        ws_end(s, i) == s.len(),
    decreases s.len() - i,
{
    if i < s.len() {
        lemma_whitespace_run(s, i + 1);
    }
}

/// Whitespace is skipped once: from where a run ends, nothing more is taken.
pub proof fn lemma_whitespace_idempotent(s: Seq<char>, i: int)
    ensures
        ws_end(s, ws_end(s, i)) == ws_end(s, i),
    decreases s.len() - i,
{
    if 0 <= i < s.len() && is_ws(s[i]) {
        lemma_whitespace_idempotent(s, i + 1);
    }
}

proof fn lemma_members_distinct(
    s: Seq<char>,
    i: int,
    d: nat,
    acc: Seq<(Seq<char>, Json)>,
)
    requires
        keys_of(acc).no_duplicates(),
        members(s, i, d, acc) is Ok,
    ensures
        keys_of(members(s, i, d, acc)->Ok_0.0).no_duplicates(),
    decreases s.len() - i,
{
    let (key, v, k) = member(s, i, d)->Ok_0;
    lemma_put_distinct(acc, key, v);
    if at(s, k, ',') && k >= i {
        lemma_members_distinct(s, k + 1, d, put(acc, key, v));
    }
}

/// An object that opens at `i` holds each key once: a repeated key keeps
/// only its last value.
pub proof fn lemma_object_keys_distinct(s: Seq<char>, i: int, d: nat)
    requires
        object_value(s, i, d) is Ok,
    ensures
        object_value(s, i, d)->Ok_0.0 is Obj,
        keys_of(object_value(s, i, d)->Ok_0.0->Obj_0).no_duplicates(),
{
    let j = ws_end(s, i + 1);
    if !at(s, j, '}') {
        assert(keys_of(Seq::<(Seq<char>, Json)>::empty()) =~= Seq::<Seq<char>>::empty());
        lemma_members_distinct(s, j, (d - 1) as nat, Seq::empty());
    } else {
        assert(keys_of(Seq::<(Seq<char>, Json)>::empty()) =~= Seq::<Seq<char>>::empty());
    }
}

} // verus!
