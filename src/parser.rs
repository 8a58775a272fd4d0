//! The reader: a state machine that turns bytes into one object per call.
//!
//! The spec functions `read_value`, `read_list`, `read_dot`, `read_close`,
//! `read_integer`, `read_symbol` and `read_text` are the states of the
//! machine: each looks at the next byte and says where reading goes on. `read`
//! runs the same machine over an `Input`, recursing for list elements and for
//! the quoted value, and its contract is that it yields what `read_value`
//! says.

use crate::input::Input;
use crate::types::{Datum, Handle};
use vstd::prelude::*;
use vstd::string::to_string_from_display_ensures_for_str;
use vstd::utf8::{decode_utf8, valid_utf8};

verus! {

// The bytes that the grammar names.
pub const SPACE: u8 = 0x20;
pub const TAB: u8 = 0x09;
pub const NEWLINE: u8 = 0x0a;
pub const OPEN: u8 = 0x28;
pub const CLOSE: u8 = 0x29;
pub const DQUOTE: u8 = 0x22;
pub const QUOTE: u8 = 0x27;
pub const BACKSLASH: u8 = 0x5c;
pub const DOT: u8 = 0x2e;
pub const PLUS: u8 = 0x2b;
pub const MINUS: u8 = 0x2d;
pub const ZERO: u8 = 0x30;
pub const NINE: u8 = 0x39;

/// Why a read failed. Every error ends the read in progress.
#[derive(Clone, Copy, Debug, PartialEq, Eq)]
pub enum ReadError {
    UnexpectedCloseParen,
    UnexpectedByte(u8),
    UnterminatedList,
    ExpectedCloseParen,
    UnterminatedString,
    InvalidDotUsage,
    InvalidTextEncoding,
    IntegerOverflow,
    UnderlyingIoFailure,
    PushbackOverflow,
}

/// Bytes that separate tokens without being part of any.
pub open spec fn is_space(b: u8) -> bool {
    b == SPACE || b == TAB || b == NEWLINE
}

/// Bytes that end an integer or a symbol.
pub open spec fn is_delimiter(b: u8) -> bool {
    is_space(b) || b == OPEN || b == CLOSE
}

pub open spec fn is_digit(b: u8) -> bool {
    ZERO <= b <= NINE
}

pub open spec fn is_sign(b: u8) -> bool {
    b == PLUS || b == MINUS
}

/// Letters, digits, and `! $ % & * + - . / : < = > ? @ ^ _ ~`.
pub open spec fn is_symbol_byte(b: u8) -> bool {
    ||| 0x61 <= b <= 0x7a
    ||| 0x41 <= b <= 0x5a
    ||| is_digit(b)
    ||| b == 0x21 || b == 0x24 || b == 0x25 || b == 0x26 || b == 0x2a
    ||| b == PLUS || b == MINUS || b == DOT || b == 0x2f || b == 0x3a
    ||| b == 0x3c || b == 0x3d || b == 0x3e || b == 0x3f || b == 0x40
    ||| b == 0x5e || b == 0x5f || b == 0x7e
}

/// The value of a run of decimal digits.
pub open spec fn digits_value(d: Seq<u8>) -> int
    decreases d.len(),
{
    if d.len() == 0 {
        0
    } else {
        digits_value(d.drop_last()) * 10 + (d.last() - ZERO)
    }
}

/// The value of an integer token: digits with an optional leading sign.
pub open spec fn token_value(t: Seq<u8>) -> int {
    if t.len() > 0 && t[0] == MINUS {
        -digits_value(t.drop_first())
    } else if t.len() > 0 && t[0] == PLUS {
        digits_value(t.drop_first())
    } else {
        digits_value(t)
    }
}

/// The symbol spelled by `t`; a lone `.` is no symbol.
pub open spec fn symbol_of(t: Seq<u8>) -> Result<Datum, ReadError> {
    if t == seq![DOT] {
        Err(ReadError::InvalidDotUsage)
    } else if !valid_utf8(t) {
        Err(ReadError::InvalidTextEncoding)
    } else {
        Ok(Datum::Symbol(decode_utf8(t)))
    }
}

/// The integer spelled by `t`, a sign followed by digits or digits alone. A
/// sign with no digit is a symbol.
pub open spec fn integer_of(t: Seq<u8>) -> Result<Datum, ReadError> {
    if t.len() == 1 && is_sign(t[0]) {
        symbol_of(t)
    } else if i64::MIN <= token_value(t) <= i64::MAX {
        Ok(Datum::Integer(token_value(t)))
    } else {
        Err(ReadError::IntegerOverflow)
    }
}

/// The text held by the bytes `t` of a string literal.
pub open spec fn text_of(t: Seq<u8>) -> Result<Datum, ReadError> {
    if valid_utf8(t) {
        Ok(Datum::Text(decode_utf8(t)))
    } else {
        Err(ReadError::InvalidTextEncoding)
    }
}

/// The chain of pairs whose elements are all but the last item, and whose
/// final tail is the last item.
pub open spec fn chain_of(items: Seq<Datum>) -> Datum
    decreases items.len(),
{
    if items.len() == 0 {
        Datum::Nil
    } else if items.len() == 1 {
        items[0]
    } else {
        Datum::Pair(Box::new(items[0]), Box::new(chain_of(items.drop_first())))
    }
}

pub open spec fn quote_symbol() -> Seq<char> {
    seq!['q', 'u', 'o', 't', 'e']
}

/// What a read yields, and the bytes it leaves unread.
pub type Outcome = (Result<Datum, ReadError>, Seq<u8>);

/// Reading a value from `s`: the starting state.
pub open spec fn read_value(s: Seq<u8>) -> Outcome
    decreases s.len(), 0int,
{
    if s.len() == 0 {
        (Ok(Datum::EndOfInput), s)
    } else {
        let c = s[0];
        let t = s.drop_first();
        if is_space(c) {
            read_value(t)
        } else if c == OPEN {
            read_list(Seq::empty(), t)
        } else if c == DQUOTE {
            read_text(Seq::empty(), t)
        } else if c == QUOTE {
            let (r, rest) = read_value(t);
            match r {
                Ok(v) => (
                    Ok(chain_of(seq![Datum::Symbol(quote_symbol()), v, Datum::Nil])),
                    rest,
                ),
                Err(e) => (Err(e), rest),
            }
        } else if c == CLOSE {
            (Err(ReadError::UnexpectedCloseParen), t)
        } else if is_digit(c) || is_sign(c) {
            read_integer(seq![c], t)
        } else if is_symbol_byte(c) {
            read_symbol(seq![c], t)
        } else {
            (Err(ReadError::UnexpectedByte(c)), t)
        }
    }
}

/// Inside a list whose elements so far are `acc`.
pub open spec fn read_list(acc: Seq<Datum>, s: Seq<u8>) -> Outcome
    decreases s.len(), 2int,
{
    if s.len() == 0 {
        (Err(ReadError::UnterminatedList), s)
    } else {
        let c = s[0];
        let t = s.drop_first();
        if is_space(c) {
            read_list(acc, t)
        } else if c == CLOSE {
            (Ok(chain_of(acc.push(Datum::Nil))), t)
        } else if c == DOT {
            read_dot(acc, t)
        } else {
            let (r, rest) = read_value(s);
            match r {
                Ok(v) => if rest.len() < s.len() {
                    read_list(acc.push(v), rest)
                } else {
                    (Err(ReadError::UnterminatedList), rest)
                },
                Err(e) => (Err(e), rest),
            }
        }
    }
}

/// Inside a list, just after a `.`: a dotted tail when a space follows, else
/// the first byte of a symbol.
pub open spec fn read_dot(acc: Seq<Datum>, s: Seq<u8>) -> Outcome
    decreases s.len() + 1, 1int,
{
    if s.len() == 0 {
        (Err(ReadError::UnterminatedList), s)
    } else if is_space(s[0]) {
        if acc.len() == 0 {
            (Err(ReadError::InvalidDotUsage), s.drop_first())
        } else {
            let (r, rest) = read_value(s.drop_first());
            match r {
                Ok(v) => read_close(acc.push(v), rest),
                Err(e) => (Err(e), rest),
            }
        }
    } else {
        let (r, rest) = read_value(seq![DOT] + s);
        match r {
            Ok(v) => if rest.len() < s.len() + 1 {
                read_list(acc.push(v), rest)
            } else {
                (Err(ReadError::UnterminatedList), rest)
            },
            Err(e) => (Err(e), rest),
        }
    }
}

/// After the tail of a dotted list: only spaces and `)` may follow.
pub open spec fn read_close(acc: Seq<Datum>, s: Seq<u8>) -> Outcome
    decreases s.len(),
{
    if s.len() == 0 {
        (Err(ReadError::UnterminatedList), s)
    } else if is_space(s[0]) {
        read_close(acc, s.drop_first())
    } else if s[0] == CLOSE {
        (Ok(chain_of(acc)), s.drop_first())
    } else {
        (Err(ReadError::ExpectedCloseParen), s.drop_first())
    }
}

/// Inside a token that so far spells an integer.
pub open spec fn read_integer(acc: Seq<u8>, s: Seq<u8>) -> Outcome
    decreases s.len(),
{
    if s.len() == 0 || is_delimiter(s[0]) {
        (integer_of(acc), s)
    } else if is_digit(s[0]) {
        read_integer(acc.push(s[0]), s.drop_first())
    } else if is_symbol_byte(s[0]) {
        read_symbol(acc.push(s[0]), s.drop_first())
    } else {
        (Err(ReadError::UnexpectedByte(s[0])), s.drop_first())
    }
}

/// Inside a symbol.
pub open spec fn read_symbol(acc: Seq<u8>, s: Seq<u8>) -> Outcome
    decreases s.len(),
{
    if s.len() == 0 || is_delimiter(s[0]) {
        (symbol_of(acc), s)
    } else if is_symbol_byte(s[0]) {
        read_symbol(acc.push(s[0]), s.drop_first())
    } else {
        (Err(ReadError::UnexpectedByte(s[0])), s.drop_first())
    }
}

/// Inside a string literal: a backslash makes the byte after it literal.
pub open spec fn read_text(acc: Seq<u8>, s: Seq<u8>) -> Outcome
    decreases s.len(),
{
    if s.len() == 0 {
        (Err(ReadError::UnterminatedString), s)
    } else if s[0] == DQUOTE {
        (text_of(acc), s.drop_first())
    } else if s[0] == BACKSLASH {
        if s.len() == 1 {
            (Err(ReadError::UnterminatedString), s.drop_first())
        } else {
            read_text(acc.push(s[1]), s.subrange(2, s.len() as int))
        }
    } else {
        read_text(acc.push(s[0]), s.drop_first())
    }
}

/// Whether a handle, or an error, is the outcome `expected` of a read.
pub open spec fn yields(r: Result<Handle, ReadError>, expected: Result<Datum, ReadError>) -> bool {
    match r {
        Ok(h) => expected == Ok::<Datum, ReadError>(h.datum()),
        Err(e) => expected == Err::<Datum, ReadError>(e),
    }
}

/// The values of a run of handles.
pub open spec fn data_of(v: Seq<Handle>) -> Seq<Datum> {
    v.map_values(|h: Handle| h.datum())
}

/// Bytes that a token begun as an integer holds while it still may be one: a
/// digit or a sign, then digits.
pub open spec fn integer_prefix(t: Seq<u8>) -> bool {
    &&& t.len() >= 1
    &&& (is_digit(t[0]) || is_sign(t[0]))
    &&& forall|i: int| 1 <= i < t.len() ==> is_digit(#[trigger] t[i])
}

proof fn lemma_close_shrinks(acc: Seq<Datum>, s: Seq<u8>)
    ensures
        read_close(acc, s).1.len() <= s.len(),
    decreases s.len(),
{
    if s.len() > 0 && is_space(s[0]) {
        lemma_close_shrinks(acc, s.drop_first());
    }
}

proof fn lemma_symbol_shrinks(acc: Seq<u8>, s: Seq<u8>)
    ensures
        read_symbol(acc, s).1.len() <= s.len(),
    decreases s.len(),
{
    if s.len() > 0 && !is_delimiter(s[0]) && is_symbol_byte(s[0]) {
        lemma_symbol_shrinks(acc.push(s[0]), s.drop_first());
    }
}

proof fn lemma_integer_shrinks(acc: Seq<u8>, s: Seq<u8>)
    ensures
        read_integer(acc, s).1.len() <= s.len(),
    decreases s.len(),
{
    if s.len() > 0 && !is_delimiter(s[0]) {
        if is_digit(s[0]) {
            lemma_integer_shrinks(acc.push(s[0]), s.drop_first());
        } else if is_symbol_byte(s[0]) {
            lemma_symbol_shrinks(acc.push(s[0]), s.drop_first());
        }
    }
}

proof fn lemma_text_shrinks(acc: Seq<u8>, s: Seq<u8>)
    ensures
        read_text(acc, s).1.len() <= s.len(),
    decreases s.len(),
{
    if s.len() > 1 && s[0] != DQUOTE {
        if s[0] == BACKSLASH {
            lemma_text_shrinks(acc.push(s[1]), s.subrange(2, s.len() as int));
        } else {
            lemma_text_shrinks(acc.push(s[0]), s.drop_first());
        }
    } else if s.len() == 1 && s[0] != DQUOTE && s[0] != BACKSLASH {
        lemma_text_shrinks(acc.push(s[0]), s.drop_first());
    }
}

/// A read never hands back more than it was given, and from non-empty input it
/// always takes at least one byte.
pub proof fn lemma_value_shrinks(s: Seq<u8>)
    ensures
        read_value(s).1.len() <= s.len(),
        s.len() > 0 ==> read_value(s).1.len() < s.len(),
    decreases s.len(), 0int,
{
    if s.len() > 0 {
        let c = s[0];
        let t = s.drop_first();
        if is_space(c) {
            lemma_value_shrinks(t);
        } else if c == OPEN {
            lemma_list_shrinks(Seq::empty(), t);
        } else if c == DQUOTE {
            lemma_text_shrinks(Seq::empty(), t);
        } else if c == QUOTE {
            lemma_value_shrinks(t);
        } else if c == CLOSE {
        } else if is_digit(c) || is_sign(c) {
            lemma_integer_shrinks(seq![c], t);
        } else if is_symbol_byte(c) {
            lemma_symbol_shrinks(seq![c], t);
        }
    }
}

proof fn lemma_list_shrinks(acc: Seq<Datum>, s: Seq<u8>)
    ensures
        read_list(acc, s).1.len() <= s.len(),
    decreases s.len(), 2int,
{
    if s.len() > 0 {
        let c = s[0];
        let t = s.drop_first();
        if is_space(c) {
            lemma_list_shrinks(acc, t);
        } else if c == CLOSE {
        } else if c == DOT {
            lemma_dot_shrinks(acc, t);
        } else {
            lemma_value_shrinks(s);
            let (r, rest) = read_value(s);
            if r is Ok && rest.len() < s.len() {
                lemma_list_shrinks(acc.push(r->Ok_0), rest);
            }
        }
    }
}

proof fn lemma_dot_shrinks(acc: Seq<Datum>, s: Seq<u8>)
    ensures
        read_dot(acc, s).1.len() <= s.len(),
    decreases s.len() + 1, 1int,
{
    if s.len() > 0 {
        if is_space(s[0]) {
            if acc.len() > 0 {
                lemma_value_shrinks(s.drop_first());
                let (r, rest) = read_value(s.drop_first());
                if r is Ok {
                    lemma_close_shrinks(acc.push(r->Ok_0), rest);
                }
            }
        } else {
            lemma_value_shrinks(seq![DOT] + s);
            let (r, rest) = read_value(seq![DOT] + s);
            if r is Ok && rest.len() < s.len() + 1 {
                lemma_list_shrinks(acc.push(r->Ok_0), rest);
            }
        }
    }
}

/// Relies on `String::from_utf8`: it accepts exactly the valid UTF-8 byte
/// strings, and the string it returns holds the characters they encode.
#[verifier::external_body]
fn string_from_utf8(bytes: Vec<u8>) -> (r: Option<String>)
    ensures
        match r {
            Some(s) => valid_utf8(bytes@) && s@ == decode_utf8(bytes@),
            None => !valid_utf8(bytes@),
        },
{
    String::from_utf8(bytes).ok()
}

fn is_space_byte(byte: u8) -> (r: bool)
    ensures
        r == is_space(byte),
{
    byte == SPACE || byte == TAB || byte == NEWLINE
}

fn is_delimiter_byte(byte: u8) -> (r: bool)
    ensures
        r == is_delimiter(byte),
{
    is_space_byte(byte) || byte == OPEN || byte == CLOSE
}

fn is_digit_byte(byte: u8) -> (r: bool)
    ensures
        r == is_digit(byte),
{
    ZERO <= byte && byte <= NINE
}

/// Whether `byte` may stand in a symbol.
pub fn is_symbol_char(byte: u8) -> (r: bool)
    ensures
        r == is_symbol_byte(byte),
{
    (0x61 <= byte && byte <= 0x7a) || (0x41 <= byte && byte <= 0x5a) || is_digit_byte(byte)
        || byte == 0x21 || byte == 0x24 || byte == 0x25 || byte == 0x26 || byte == 0x2a
        || byte == PLUS || byte == MINUS || byte == DOT || byte == 0x2f || byte == 0x3a
        || byte == 0x3c || byte == 0x3d || byte == 0x3e || byte == 0x3f || byte == 0x40
        || byte == 0x5e || byte == 0x5f || byte == 0x7e
}

/// Builds the chain of pairs from the front items of `vec` to its last item,
/// which becomes the final tail; a proper list ends in `Nil`.
pub fn make_list(vec: Vec<Handle>) -> (r: Handle)
    requires
        vec.len() >= 1,
    ensures
        r.datum() == chain_of(data_of(vec@)),
{
    let ghost items = data_of(vec@);
    let ghost n = vec@.len() as int;
    let mut vec = vec;
    let mut prev = vec.pop().unwrap();
    assert(items.subrange(n - 1, n) =~= seq![prev.datum()]);
    while vec.len() > 0
        invariant
            0 <= vec.len() < n,
            n == items.len(),
            forall|i: int| 0 <= i < vec.len() ==> #[trigger] vec@[i].datum() == items[i],
            prev.datum() == chain_of(items.subrange(vec.len() as int, n)),
        decreases vec.len(),
    {
        let k = vec.len();
        let e = vec.pop().unwrap();
        assert(items.subrange(k - 1, n).drop_first() =~= items.subrange(k as int, n));
        prev = Handle::new_cons(e, prev);
    }
    assert(items.subrange(0, n) =~= items);
    prev
}

/// The symbol spelled by `vec`; a lone `.` is refused.
pub fn make_symbol(vec: Vec<u8>) -> (r: Result<Handle, ReadError>)
    ensures
        yields(r, symbol_of(vec@)),
{
    if vec.len() == 1 && vec[0] == DOT {
        assert(vec@ =~= seq![DOT]);
        return Err(ReadError::InvalidDotUsage);
    }
    assert(vec@ != seq![DOT]) by {
        if vec@ == seq![DOT] {
            assert(vec@[0] == DOT);
        }
    }
    match string_from_utf8(vec) {
        Some(s) => Ok(Handle::new_symbol(s)),
        None => Err(ReadError::InvalidTextEncoding),
    }
}

/// The magnitude past which no integer token fits in an `i64`.
const MAGNITUDE_LIMIT: u128 = 9223372036854775808;

proof fn lemma_digits_grow(d: Seq<u8>, k: int)
    requires
        0 <= k <= d.len(),
        forall|i: int| 0 <= i < d.len() ==> is_digit(#[trigger] d[i]),
    ensures
        digits_value(d.subrange(0, k)) <= digits_value(d),
        0 <= digits_value(d),
    decreases d.len(),
{
    if d.len() > 0 {
        let e = d.drop_last();
        if k == d.len() {
            lemma_digits_grow(e, 0);
            assert(d.subrange(0, k) =~= d);
        } else {
            lemma_digits_grow(e, k);
            assert(e.subrange(0, k) =~= d.subrange(0, k));
        }
    } else {
        assert(d.subrange(0, k) =~= d);
    }
}

/// The integer spelled by `v`, a sign followed by digits or digits alone; a
/// sign alone is a symbol, and a value beyond `i64` an overflow.
pub fn make_int(v: &Vec<u8>) -> (r: Result<Handle, ReadError>)
    requires
        integer_prefix(v@),
    ensures
        yields(r, integer_of(v@)),
{
    if v.len() == 1 && (v[0] == PLUS || v[0] == MINUS) {
        return make_symbol(v.clone());
    }
    let negative = v[0] == MINUS;
    let start: usize = if v[0] == PLUS || v[0] == MINUS { 1 } else { 0 };
    let ghost digits = v@.subrange(start as int, v@.len() as int);
    assert(forall|i: int| 0 <= i < digits.len() ==> is_digit(#[trigger] digits[i]));
    assert(token_value(v@) == if negative { -digits_value(digits) } else { digits_value(digits) })
        by {
        assert(v@.drop_first() =~= v@.subrange(1, v@.len() as int));
        assert(v@.subrange(0, v@.len() as int) =~= v@);
    }
    let mut magnitude: u128 = 0;
    let mut i: usize = start;
    while i < v.len()
        invariant
            start <= i <= v.len(),
            digits == v@.subrange(start as int, v@.len() as int),
            forall|j: int| 0 <= j < digits.len() ==> is_digit(#[trigger] digits[j]),
            magnitude as int == digits_value(digits.subrange(0, i - start)),
            magnitude <= MAGNITUDE_LIMIT,
            token_value(v@) == if negative {
                -digits_value(digits)
            } else {
                digits_value(digits)
            },
            !(v@.len() == 1 && is_sign(v@[0])),
        decreases v.len() - i,
    {
        assert(digits[i - start] == v@[i as int]);
        let d = v[i] - ZERO;
        let ghost before = digits.subrange(0, i - start);
        assert(digits.subrange(0, i - start + 1).drop_last() =~= before);
        let next = magnitude * 10 + d as u128;
        assert(digits_value(digits.subrange(0, i - start + 1)) == next);
        if next > MAGNITUDE_LIMIT {
            proof {
                let sub = digits.subrange(0, i - start + 1);
                assert(sub.last() == v@[i as int]);
                assert(digits_value(sub) == next);
                lemma_digits_grow(digits, i - start + 1);
                assert(digits_value(digits) > MAGNITUDE_LIMIT);
            }
            return Err(ReadError::IntegerOverflow);
        }
        magnitude = next;
        i = i + 1;
    }
    assert(digits.subrange(0, digits.len() as int) =~= digits);
    if negative {
        if magnitude == MAGNITUDE_LIMIT {
            Ok(Handle::new_int64(i64::MIN))
        } else {
            Ok(Handle::new_int64(-(magnitude as i64)))
        }
    } else if magnitude == MAGNITUDE_LIMIT {
        Err(ReadError::IntegerOverflow)
    } else {
        Ok(Handle::new_int64(magnitude as i64))
    }
}

/// The text held by the bytes of a string literal.
pub fn make_string(vec: Vec<u8>) -> (r: Result<Handle, ReadError>)
    ensures
        yields(r, text_of(vec@)),
{
    match string_from_utf8(vec) {
        Some(s) => Ok(Handle::new_string(s)),
        None => Err(ReadError::InvalidTextEncoding),
    }
}

/// Where the reader stands within the value it is reading.
enum ParseState {
    Start,
    List(Vec<Handle>),
    MaybeDot(Vec<Handle>),
    ListEnd(Vec<Handle>),
    Int(Vec<u8>),
    Symbol(Vec<u8>),
    Text(Vec<u8>),
}

impl ParseState {
    /// What reading on from this state, with `s` left to read, yields.
    spec fn resume(&self, s: Seq<u8>) -> Outcome {
        match self {
            ParseState::Start => read_value(s),
            ParseState::List(v) => read_list(data_of(v@), s),
            ParseState::MaybeDot(v) => read_dot(data_of(v@), s),
            ParseState::ListEnd(v) => read_close(data_of(v@), s),
            ParseState::Int(v) => read_integer(v@, s),
            ParseState::Symbol(v) => read_symbol(v@, s),
            ParseState::Text(v) => read_text(v@, s),
        }
    }

    /// The input that reading on from this state may still reread.
    spec fn span(&self, s: Seq<u8>) -> int {
        match self {
            ParseState::MaybeDot(_) => s.len() + 1int,
            _ => s.len() as int,
        }
    }

    spec fn rank(&self) -> int {
        match self {
            ParseState::List(_) => 2,
            ParseState::MaybeDot(_) => 1,
            _ => 0,
        }
    }

    spec fn inv(&self) -> bool {
        match self {
            ParseState::ListEnd(v) => v.len() >= 1,
            ParseState::Int(v) => integer_prefix(v@),
            _ => true,
        }
    }
}

fn quote_name() -> (r: String)
    ensures
        r@ == quote_symbol(),
{
    broadcast use to_string_from_display_ensures_for_str;

    let r = "quote".to_string();
    proof {
        reveal_strlit("quote");
    }
    r
}

proof fn lemma_data_push(v: Seq<Handle>, h: Handle)
    ensures
        data_of(v.push(h)) == data_of(v).push(h.datum()),
{
    assert(data_of(v.push(h)) =~= data_of(v).push(h.datum()));
}

/// Reads the next value from `input`: `EndOfInput` when only spaces are left,
/// else the value whose text comes first, or the error that ends the read.
pub fn read(input: &mut Input) -> (r: Result<Handle, ReadError>)
    requires
        old(input).wf(),
    ensures
        final(input).wf(),
        yields(r, read_value(old(input)@).0),
        r is Ok ==> final(input)@ == read_value(old(input)@).1,
    decreases old(input)@.len(),
{
    let ghost goal = read_value(input@);
    let ghost start_len = input@.len();
    let mut state = ParseState::Start;
    loop
        invariant
            input.wf(),
            state.inv(),
            state.resume(input@) == goal,
            goal == read_value(old(input)@),
            start_len == old(input)@.len(),
            input@.len() <= start_len,
            state is MaybeDot ==> input.pushed() <= 1,
            !(state is Start) ==> state.span(input@) < start_len,
        decreases state.span(input@), state.rank(),
    {
        let ghost s = input@;
        let c = input.get();
        proof {
            if s.len() > 0 {
                assert(s.drop_first() == input@);
            }
        }
        state = match state {
            ParseState::Start => match c {
                None => return Ok(Handle::new_eof()),
                Some(c) => {
                    if is_space_byte(c) {
                        ParseState::Start
                    } else if c == OPEN {
                        let v: Vec<Handle> = Vec::new();
                        assert(data_of(v@) =~= Seq::<Datum>::empty());
                        ParseState::List(v)
                    } else if c == DQUOTE {
                        ParseState::Text(Vec::new())
                    } else if c == QUOTE {
                        let name = quote_name();
                        let value = read(input);
                        match value {
                            Ok(value) => {
                                let mut items = Vec::new();
                                items.push(Handle::new_symbol(name));
                                items.push(value);
                                items.push(Handle::new_nil());
                                let ghost d = data_of(items@);
                                assert(d =~= seq![
                                    Datum::Symbol(quote_symbol()),
                                    value.datum(),
                                    Datum::Nil,
                                ]);
                                return Ok(make_list(items));
                            },
                            Err(e) => return Err(e),
                        }
                    } else if c == CLOSE {
                        return Err(ReadError::UnexpectedCloseParen);
                    } else if is_digit_byte(c) || c == PLUS || c == MINUS {
                        let mut v = Vec::new();
                        v.push(c);
                        assert(v@ =~= seq![c]);
                        ParseState::Int(v)
                    } else if is_symbol_char(c) {
                        let mut v = Vec::new();
                        v.push(c);
                        assert(v@ =~= seq![c]);
                        ParseState::Symbol(v)
                    } else {
                        return Err(ReadError::UnexpectedByte(c));
                    }
                },
            },
            ParseState::List(mut v) => match c {
                None => return Err(ReadError::UnterminatedList),
                Some(c) => {
                    if is_space_byte(c) {
                        ParseState::List(v)
                    } else if c == CLOSE {
                        let nil = Handle::new_nil();
                        proof {
                            lemma_data_push(v@, nil);
                        }
                        v.push(nil);
                        return Ok(make_list(v));
                    } else if c == DOT {
                        ParseState::MaybeDot(v)
                    } else {
                        let _ = input.push(c);
                        assert(input@ =~= s);
                        proof {
                            lemma_value_shrinks(s);
                        }
                        match read(input) {
                            Ok(h) => {
                                proof {
                                    lemma_data_push(v@, h);
                                }
                                v.push(h);
                                ParseState::List(v)
                            },
                            Err(e) => return Err(e),
                        }
                    }
                },
            },
            ParseState::MaybeDot(mut v) => match c {
                None => return Err(ReadError::UnterminatedList),
                Some(c) => {
                    if is_space_byte(c) {
                        if v.len() == 0 {
                            return Err(ReadError::InvalidDotUsage);
                        }
                        proof {
                            lemma_value_shrinks(input@);
                        }
                        match read(input) {
                            Ok(h) => {
                                proof {
                                    lemma_data_push(v@, h);
                                }
                                v.push(h);
                                ParseState::ListEnd(v)
                            },
                            Err(e) => return Err(e),
                        }
                    } else {
                        let _ = input.push(c);
                        let _ = input.push(DOT);
                        assert(input@ =~= seq![DOT] + s);
                        proof {
                            lemma_value_shrinks(seq![DOT] + s);
                        }
                        match read(input) {
                            Ok(h) => {
                                proof {
                                    lemma_data_push(v@, h);
                                }
                                v.push(h);
                                ParseState::List(v)
                            },
                            Err(e) => return Err(e),
                        }
                    }
                },
            },
            ParseState::ListEnd(v) => match c {
                None => return Err(ReadError::UnterminatedList),
                Some(c) => {
                    if is_space_byte(c) {
                        ParseState::ListEnd(v)
                    } else if c == CLOSE {
                        return Ok(make_list(v));
                    } else {
                        return Err(ReadError::ExpectedCloseParen);
                    }
                },
            },
            ParseState::Int(mut v) => match c {
                None => return make_int(&v),
                Some(c) => {
                    if is_delimiter_byte(c) {
                        let _ = input.push(c);
                        assert(input@ =~= s);
                        return make_int(&v);
                    } else if is_digit_byte(c) {
                        v.push(c);
                        ParseState::Int(v)
                    } else if is_symbol_char(c) {
                        v.push(c);
                        ParseState::Symbol(v)
                    } else {
                        return Err(ReadError::UnexpectedByte(c));
                    }
                },
            },
            ParseState::Symbol(mut v) => match c {
                None => return make_symbol(v),
                Some(c) => {
                    if is_delimiter_byte(c) {
                        let _ = input.push(c);
                        assert(input@ =~= s);
                        return make_symbol(v);
                    } else if is_symbol_char(c) {
                        v.push(c);
                        ParseState::Symbol(v)
                    } else {
                        return Err(ReadError::UnexpectedByte(c));
                    }
                },
            },
            ParseState::Text(mut v) => match c {
                None => return Err(ReadError::UnterminatedString),
                Some(c) => {
                    if c == DQUOTE {
                        return make_string(v);
                    } else if c == BACKSLASH {
                        let ghost t = input@;
                        match input.get() {
                            None => return Err(ReadError::UnterminatedString),
                            Some(d) => {
                                assert(t.drop_first() =~= s.subrange(2, s.len() as int));
                                v.push(d);
                                ParseState::Text(v)
                            },
                        }
                    } else {
                        v.push(c);
                        ParseState::Text(v)
                    }
                },
            },
        };
    }
}

} // verus!
