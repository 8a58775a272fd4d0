//! Reading what the printer wrote gives back the value that was printed.

use crate::parser::{
    chain_of, digits_value, integer_of, integer_prefix, is_delimiter, is_digit, is_sign, is_space,
    is_symbol_byte, quote_symbol, read_close, read_dot, read_integer, read_list, read_symbol,
    read_text, read_value, symbol_of, text_of, token_value, ReadError, BACKSLASH, CLOSE, DOT,
    DQUOTE, OPEN, QUOTE, SPACE, ZERO,
};
use crate::printer::{decimal, digits_of, render, render_rest};
use crate::types::Datum;
use vstd::prelude::*;
use vstd::utf8::{
    decode_utf8, decode_utf8_encode_utf8, encode_utf8, encode_utf8_decode_utf8,
    encode_utf8_valid_utf8, is_ascii_chars, is_ascii_chars_encode_utf8, valid_utf8,
};

verus! {

broadcast use {encode_utf8_decode_utf8, encode_utf8_valid_utf8};

/// A token that reads as an integer: a digit or a sign, then digits, and at
/// least one digit in all.
pub open spec fn is_integer_token(b: Seq<u8>) -> bool {
    integer_prefix(b) && !(b.len() == 1 && is_sign(b[0]))
}

/// The bytes of a symbol that reads back as itself.
pub open spec fn symbol_spelling(b: Seq<u8>) -> bool {
    &&& b.len() >= 1
    &&& forall|i: int| 0 <= i < b.len() ==> is_symbol_byte(#[trigger] b[i])
    &&& b != seq![DOT]
    &&& !is_integer_token(b)
}

/// The bytes of a string that print without need of escapes.
pub open spec fn plain_text(b: Seq<u8>) -> bool {
    forall|i: int| 0 <= i < b.len() ==> #[trigger] b[i] != DQUOTE && b[i] != BACKSLASH
}

/// A value whose text reads back as itself: its symbols are well spelled, its
/// integers fit in `i64`, its strings are plain, and it holds no end-of-input
/// marker.
pub open spec fn readable(d: Datum) -> bool
    decreases d, 0int,
{
    match d {
        Datum::Nil => true,
        Datum::Pair(a, r) => readable(*a) && readable_rest(*r),
        Datum::Symbol(cs) => symbol_spelling(encode_utf8(cs)),
        Datum::Integer(n) => i64::MIN <= n <= i64::MAX,
        Datum::Text(cs) => plain_text(encode_utf8(cs)),
        Datum::EndOfInput => false,
    }
}

/// The remainder of a list whose text reads back as itself.
pub open spec fn readable_rest(d: Datum) -> bool
    decreases d, 1int,
{
    match d {
        Datum::Nil => true,
        Datum::Pair(a, r) => readable(*a) && readable_rest(*r),
        _ => readable(d),
    }
}

/// The list whose first elements are `acc` and whose remainder is `tail`.
pub open spec fn prepend(acc: Seq<Datum>, tail: Datum) -> Datum
    decreases acc.len(),
{
    if acc.len() == 0 {
        tail
    } else {
        Datum::Pair(Box::new(acc[0]), Box::new(prepend(acc.drop_first(), tail)))
    }
}

/// What may follow a token without becoming part of it.
pub open spec fn ends_token(t: Seq<u8>) -> bool {
    t.len() == 0 || is_delimiter(t[0])
}

proof fn lemma_chain_push(acc: Seq<Datum>, x: Datum)
    requires
        acc.len() >= 1,
    ensures
        chain_of(acc.push(x)) == prepend(acc, x),
    decreases acc.len(),
{
    assert(acc.push(x).drop_first() =~= acc.drop_first().push(x));
    if acc.len() > 1 {
        lemma_chain_push(acc.drop_first(), x);
    } else {
        assert(acc.drop_first().push(x) =~= seq![x]);
    }
}

proof fn lemma_prepend_push(acc: Seq<Datum>, a: Datum, r: Datum)
    ensures
        prepend(acc.push(a), r) == prepend(acc, Datum::Pair(Box::new(a), Box::new(r))),
    decreases acc.len(),
{
    let p = Datum::Pair(Box::new(a), Box::new(r));
    if acc.len() > 0 {
        assert(acc.push(a).drop_first() =~= acc.drop_first().push(a));
        assert(acc.push(a)[0] == acc[0]);
        lemma_prepend_push(acc.drop_first(), a, r);
        assert(prepend(acc.push(a), r) == Datum::Pair(
            Box::new(acc[0]),
            Box::new(prepend(acc.drop_first().push(a), r)),
        ));
    } else {
        assert(acc.push(a).drop_first() =~= Seq::<Datum>::empty());
        assert(acc.push(a)[0] == a);
        assert(prepend(Seq::<Datum>::empty(), r) == r);
        assert(prepend(acc.push(a), r) == p);
    }
}

proof fn lemma_digits_of(m: nat)
    ensures
        digits_of(m).len() >= 1,
        forall|i: int| 0 <= i < digits_of(m).len() ==> is_digit(#[trigger] digits_of(m)[i]),
        digits_value(digits_of(m)) == m,
    decreases m,
{
    let d = digits_of(m);
    if m >= 10 {
        lemma_digits_of(m / 10);
        assert(d.drop_last() =~= digits_of(m / 10));
        assert(d.last() == (ZERO + m % 10) as u8);
        assert(d.last() - ZERO == m % 10);
        assert(digits_value(d) == digits_value(d.drop_last()) * 10 + (d.last() - ZERO));
        assert(m == (m / 10) * 10 + m % 10);
    } else {
        assert(d.drop_last() =~= Seq::<u8>::empty());
        assert(d.last() == (ZERO + m) as u8);
        assert(digits_value(d) == digits_value(d.drop_last()) * 10 + (d.last() - ZERO));
    }
}

proof fn lemma_symbol_run(acc: Seq<u8>, ds: Seq<u8>, t: Seq<u8>)
    requires
        forall|i: int| 0 <= i < ds.len() ==> is_symbol_byte(#[trigger] ds[i]),
        ends_token(t),
    ensures
        read_symbol(acc, ds + t) == (symbol_of(acc + ds), t),
    decreases ds.len(),
{
    if ds.len() == 0 {
        assert(ds + t =~= t);
        assert(acc + ds =~= acc);
    } else {
        assert((ds + t)[0] == ds[0]);
        assert((ds + t).drop_first() =~= ds.drop_first() + t);
        assert(acc.push(ds[0]) + ds.drop_first() =~= acc + ds);
        lemma_symbol_run(acc.push(ds[0]), ds.drop_first(), t);
    }
}

proof fn lemma_integer_run(acc: Seq<u8>, ds: Seq<u8>, t: Seq<u8>)
    requires
        integer_prefix(acc),
        forall|i: int| 0 <= i < ds.len() ==> is_symbol_byte(#[trigger] ds[i]),
        ends_token(t),
    ensures
        read_integer(acc, ds + t) == (if integer_prefix(acc + ds) {
            integer_of(acc + ds)
        } else {
            symbol_of(acc + ds)
        }, t),
    decreases ds.len(),
{
    if ds.len() == 0 {
        assert(ds + t =~= t);
        assert(acc + ds =~= acc);
    } else {
        let x = ds[0];
        assert((ds + t)[0] == x);
        assert((ds + t).drop_first() =~= ds.drop_first() + t);
        assert(acc.push(x) + ds.drop_first() =~= acc + ds);
        if is_digit(x) {
            assert(integer_prefix(acc.push(x)));
            lemma_integer_run(acc.push(x), ds.drop_first(), t);
        } else {
            assert((acc + ds)[acc.len() as int] == x);
            lemma_symbol_run(acc.push(x), ds.drop_first(), t);
        }
    }
}

proof fn lemma_text_run(acc: Seq<u8>, b: Seq<u8>, t: Seq<u8>)
    requires
        plain_text(b),
    ensures
        read_text(acc, b + seq![DQUOTE] + t) == (text_of(acc + b), t),
    decreases b.len(),
{
    let s = b + seq![DQUOTE] + t;
    if b.len() == 0 {
        assert(s.drop_first() =~= t);
        assert(acc + b =~= acc);
    } else {
        assert(s[0] == b[0]);
        assert(s.drop_first() =~= b.drop_first() + seq![DQUOTE] + t);
        assert(acc.push(b[0]) + b.drop_first() =~= acc + b);
        lemma_text_run(acc.push(b[0]), b.drop_first(), t);
    }
}

/// The first bytes of the text of a readable value.
proof fn lemma_render_head(d: Datum)
    requires
        readable(d),
    ensures
        render(d).len() >= 1,
        !is_space(render(d)[0]),
        render(d)[0] != CLOSE,
        render(d)[0] == DOT ==> render(d).len() >= 2 && !is_space(render(d)[1]),
{
    match d {
        Datum::Symbol(cs) => {
            let b = encode_utf8(cs);
            if b[0] == DOT {
                if b.len() == 1 {
                    assert(b =~= seq![DOT]);
                }
                assert(is_symbol_byte(b[1]));
            }
            assert(is_symbol_byte(b[0]));
        },
        Datum::Integer(n) => {
            if n < 0 {
                lemma_digits_of((-n) as nat);
            } else {
                lemma_digits_of(n as nat);
            }
        },
        _ => {},
    }
}

/// Reading the text of a readable value, followed by anything that ends a
/// token, yields the value and leaves what followed.
pub proof fn lemma_value_round_trip(d: Datum, t: Seq<u8>)
    requires
        readable(d),
        ends_token(t),
    ensures
        read_value(render(d) + t) == (Ok::<Datum, ReadError>(d), t),
    decreases d, 0int,
{
    let s = render(d) + t;
    match d {
        Datum::Nil => {
            assert(s[0] == OPEN);
            assert(s.drop_first()[0] == CLOSE);
            assert(s.drop_first().drop_first() =~= t);
            assert(seq![Datum::Nil] =~= Seq::<Datum>::empty().push(Datum::Nil));
            assert(chain_of(seq![Datum::Nil]) == Datum::Nil);
            assert(read_list(Seq::empty(), s.drop_first()) == (
                Ok::<Datum, ReadError>(Datum::Nil),
                t,
            ));
            assert(read_value(s) == read_list(Seq::<Datum>::empty(), s.drop_first()));
            assert(read_value(s) == (Ok::<Datum, ReadError>(d), t));
        },
        Datum::Pair(a, r) => {
            let y = render_rest(*r) + seq![CLOSE] + t;
            assert(s.drop_first() =~= render(*a) + y);
            assert(y.len() > 0 && (y[0] == SPACE || y[0] == CLOSE)) by {
                match *r {
                    Datum::Nil => {},
                    Datum::Pair(_, _) => {},
                    _ => {},
                }
            }
            lemma_element_round_trip(Seq::empty(), *a, y);
            assert(Seq::<Datum>::empty().push(*a) =~= seq![*a]);
            lemma_rest_round_trip(seq![*a], *r, t);
            assert(seq![*a].drop_first() =~= Seq::<Datum>::empty());
            assert(prepend(Seq::<Datum>::empty(), *r) == *r);
            assert(prepend(seq![*a], *r) == d);
            assert(s[0] == OPEN);
            assert(read_value(s) == (Ok::<Datum, ReadError>(d), t));
        },
        Datum::Symbol(cs) => {
            let b = encode_utf8(cs);
            assert(is_symbol_byte(b[0]));
            assert(s[0] == b[0]);
            assert(s.drop_first() =~= b.drop_first() + t);
            assert(seq![b[0]] + b.drop_first() =~= b);
            if is_digit(b[0]) || is_sign(b[0]) {
                lemma_integer_run(seq![b[0]], b.drop_first(), t);
            } else {
                lemma_symbol_run(seq![b[0]], b.drop_first(), t);
            }
            assert(read_value(s) == (Ok::<Datum, ReadError>(d), t));
        },
        Datum::Integer(n) => {
            let b = decimal(n);
            let m: nat = if n < 0 { (-n) as nat } else { n as nat };
            lemma_digits_of(m);
            assert(s[0] == b[0]);
            assert(s.drop_first() =~= b.drop_first() + t);
            assert(seq![b[0]] + b.drop_first() =~= b);
            assert(forall|i: int|
                0 <= i < b.drop_first().len() ==> is_digit(#[trigger] b.drop_first()[i]));
            assert(integer_prefix(b));
            if n < 0 {
                assert(b.drop_first() =~= digits_of(m));
            }
            assert(token_value(b) == n);
            lemma_integer_run(seq![b[0]], b.drop_first(), t);
            assert(read_value(s) == (Ok::<Datum, ReadError>(d), t));
        },
        Datum::Text(cs) => {
            let b = encode_utf8(cs);
            assert(s.drop_first() =~= b + seq![DQUOTE] + t);
            lemma_text_run(Seq::empty(), b, t);
            assert(Seq::<u8>::empty() + b =~= b);
            assert(read_value(s) == (Ok::<Datum, ReadError>(d), t));
        },
        Datum::EndOfInput => {},
    }
}

/// Inside a list, reading the text of a readable element followed by a space
/// or `)` adds the element to those read so far.
proof fn lemma_element_round_trip(acc: Seq<Datum>, a: Datum, y: Seq<u8>)
    requires
        readable(a),
        y.len() > 0,
        y[0] == SPACE || y[0] == CLOSE,
    ensures
        read_list(acc, render(a) + y) == read_list(acc.push(a), y),
    decreases a, 1int,
{
    let s = render(a) + y;
    lemma_render_head(a);
    lemma_value_round_trip(a, y);
    assert(s[0] == render(a)[0]);
    assert(read_value(s) == (Ok::<Datum, ReadError>(a), y));
    assert(y.len() < s.len());
    if s[0] == DOT {
        let u = s.drop_first();
        assert(u[0] == render(a)[1]);
        assert(seq![DOT] + u =~= s);
        assert(read_list(acc, s) == read_dot(acc, u));
        assert(y.len() < u.len() + 1);
    }
}

/// Inside a list whose elements so far are `acc`, reading the text of the
/// remainder `r` and the closing `)` yields the whole list.
proof fn lemma_rest_round_trip(acc: Seq<Datum>, r: Datum, t: Seq<u8>)
    requires
        acc.len() >= 1,
        readable_rest(r),
    ensures
        read_list(acc, render_rest(r) + seq![CLOSE] + t) == (Ok::<Datum, ReadError>(
            prepend(acc, r),
        ), t),
    decreases r, 2int,
{
    let s = render_rest(r) + seq![CLOSE] + t;
    match r {
        Datum::Nil => {
            assert(s =~= seq![CLOSE] + t);
            assert(s[0] == CLOSE);
            assert(s.drop_first() =~= t);
            lemma_chain_push(acc, Datum::Nil);
            assert(read_list(acc, s) == (
                Ok::<Datum, ReadError>(chain_of(acc.push(Datum::Nil))),
                t,
            ));
            assert(read_list(acc, s) == (Ok::<Datum, ReadError>(prepend(acc, r)), t));
        },
        Datum::Pair(a2, r2) => {
            let y = render_rest(*r2) + seq![CLOSE] + t;
            assert(s.drop_first() =~= render(*a2) + y);
            assert(y.len() > 0 && (y[0] == SPACE || y[0] == CLOSE)) by {
                match *r2 {
                    Datum::Nil => {},
                    Datum::Pair(_, _) => {},
                    _ => {},
                }
            }
            lemma_element_round_trip(acc, *a2, y);
            lemma_rest_round_trip(acc.push(*a2), *r2, t);
            lemma_prepend_push(acc, *a2, *r2);
            assert(s[0] == SPACE);
            assert(Datum::Pair(Box::new(*a2), Box::new(*r2)) == r);
            assert(read_list(acc, s) == (Ok::<Datum, ReadError>(prepend(acc, r)), t));
        },
        _ => {
            let u = render(r) + seq![CLOSE] + t;
            assert(s.drop_first().drop_first() =~= seq![SPACE] + u);
            assert(s.drop_first().drop_first().drop_first() =~= u);
            assert(u =~= render(r) + (seq![CLOSE] + t));
            lemma_value_round_trip(r, seq![CLOSE] + t);
            assert((seq![CLOSE] + t).drop_first() =~= t);
            lemma_chain_push(acc, r);
            assert(render_rest(r) == seq![SPACE, DOT, SPACE] + render(r));
            let s1 = s.drop_first();
            let s2 = s1.drop_first();
            assert(s[0] == SPACE && s1[0] == DOT && s2[0] == SPACE);
            assert(read_close(acc.push(r), seq![CLOSE] + t) == (Ok::<Datum, ReadError>(
                chain_of(acc.push(r)),
            ), t));
            assert(s2.drop_first() =~= u);
            assert(read_dot(acc, s2) == read_close(acc.push(r), seq![CLOSE] + t));
            assert(read_list(acc, s1) == read_dot(acc, s2));
            assert(read_list(acc, s) == read_list(acc, s1));
            assert(read_list(acc, s) == (Ok::<Datum, ReadError>(prepend(acc, r)), t));
        },
    }
}

/// Printing a value and reading the text back gives the same value, for every
/// value that is readable or is the end of input.
pub proof fn lemma_print_read(d: Datum)
    requires
        readable(d) || d == Datum::EndOfInput,
    ensures
        read_value(render(d)).0 == Ok::<Datum, ReadError>(d),
{
    if d != Datum::EndOfInput {
        lemma_value_round_trip(d, Seq::empty());
        assert(render(d) + Seq::<u8>::empty() =~= render(d));
    }
}

/// The shape of every value that a read yields: its symbols are well spelled
/// and its integers fit in `i64`.
pub open spec fn well_formed(d: Datum) -> bool
    decreases d,
{
    match d {
        Datum::Pair(a, r) => well_formed(*a) && well_formed(*r),
        Datum::Symbol(cs) => symbol_spelling(encode_utf8(cs)),
        Datum::Integer(n) => i64::MIN <= n <= i64::MAX,
        _ => true,
    }
}

/// A value with no end-of-input marker inside a pair and no string that holds
/// a `"` or a `\`.
pub open spec fn plain(d: Datum) -> bool
    decreases d,
{
    match d {
        Datum::Pair(a, r) => *a != Datum::EndOfInput && *r != Datum::EndOfInput && plain(*a)
            && plain(*r),
        Datum::Text(cs) => plain_text(encode_utf8(cs)),
        _ => true,
    }
}

proof fn lemma_plain_readable(d: Datum)
    requires
        well_formed(d),
        plain(d),
        d != Datum::EndOfInput,
    ensures
        readable(d),
        readable_rest(d),
    decreases d,
{
    if let Datum::Pair(a, r) = d {
        lemma_plain_readable(*a);
        lemma_plain_readable(*r);
        assert(readable(d));
        assert(readable_rest(d));
    } else if d != Datum::Nil {
        assert(readable_rest(d) == readable(d));
    }
}

/// The bytes of a token that has become a symbol.
spec fn symbol_acc(acc: Seq<u8>) -> bool {
    &&& acc.len() >= 1
    &&& forall|i: int| 0 <= i < acc.len() ==> is_symbol_byte(#[trigger] acc[i])
    &&& !integer_prefix(acc)
}

proof fn lemma_symbol_of_formed(acc: Seq<u8>)
    requires
        acc.len() >= 1,
        forall|i: int| 0 <= i < acc.len() ==> is_symbol_byte(#[trigger] acc[i]),
        !is_integer_token(acc),
        symbol_of(acc) is Ok,
    ensures
        well_formed(symbol_of(acc)->Ok_0),
{
    assert(valid_utf8(acc));
    decode_utf8_encode_utf8(acc);
    assert(encode_utf8(decode_utf8(acc)) == acc);
}

proof fn lemma_symbol_formed(acc: Seq<u8>, s: Seq<u8>)
    requires
        symbol_acc(acc),
        read_symbol(acc, s).0 is Ok,
    ensures
        well_formed(read_symbol(acc, s).0->Ok_0),
    decreases s.len(),
{
    if s.len() == 0 || is_delimiter(s[0]) {
        lemma_symbol_of_formed(acc);
    } else if is_symbol_byte(s[0]) {
        let next = acc.push(s[0]);
        assert(next[0] == acc[0]);
        if is_digit(acc[0]) || is_sign(acc[0]) {
            assert(!(forall|i: int| 1 <= i < acc.len() ==> is_digit(#[trigger] acc[i])));
            let i = choose|i: int| 1 <= i < acc.len() && !is_digit(#[trigger] acc[i]);
            assert(next[i] == acc[i]);
        }
        assert forall|i: int| 0 <= i < next.len() implies is_symbol_byte(#[trigger] next[i]) by {
            if i < acc.len() {
                assert(next[i] == acc[i]);
            }
        }
        lemma_symbol_formed(next, s.drop_first());
    }
}

proof fn lemma_integer_formed(acc: Seq<u8>, s: Seq<u8>)
    requires
        integer_prefix(acc),
        read_integer(acc, s).0 is Ok,
    ensures
        well_formed(read_integer(acc, s).0->Ok_0),
    decreases s.len(),
{
    if s.len() == 0 || is_delimiter(s[0]) {
        if acc.len() == 1 && is_sign(acc[0]) {
            assert(is_symbol_byte(acc[0]));
            lemma_symbol_of_formed(acc);
        }
    } else if is_digit(s[0]) {
        lemma_integer_formed(acc.push(s[0]), s.drop_first());
    } else if is_symbol_byte(s[0]) {
        let next = acc.push(s[0]);
        assert(next[acc.len() as int] == s[0]);
        assert forall|i: int| 0 <= i < next.len() implies is_symbol_byte(#[trigger] next[i]) by {
            if i < acc.len() {
                assert(next[i] == acc[i]);
                if i >= 1 {
                    assert(is_digit(acc[i]));
                }
            }
        }
        lemma_symbol_formed(next, s.drop_first());
    }
}

proof fn lemma_text_is_text(acc: Seq<u8>, s: Seq<u8>)
    requires
        read_text(acc, s).0 is Ok,
    ensures
        read_text(acc, s).0->Ok_0 is Text,
    decreases s.len(),
{
    if s.len() > 0 && s[0] != DQUOTE {
        if s[0] == BACKSLASH {
            if s.len() > 1 {
                lemma_text_is_text(acc.push(s[1]), s.subrange(2, s.len() as int));
            }
        } else {
            lemma_text_is_text(acc.push(s[0]), s.drop_first());
        }
    }
}

proof fn lemma_chain_formed(items: Seq<Datum>)
    requires
        forall|i: int| 0 <= i < items.len() ==> well_formed(#[trigger] items[i]),
    ensures
        well_formed(chain_of(items)),
    decreases items.len(),
{
    if items.len() > 1 {
        assert forall|i: int| 0 <= i < items.drop_first().len() implies well_formed(
            #[trigger] items.drop_first()[i],
        ) by {
            assert(items.drop_first()[i] == items[i + 1]);
        }
        lemma_chain_formed(items.drop_first());
    }
}

proof fn lemma_push_formed(acc: Seq<Datum>, x: Datum)
    requires
        forall|i: int| 0 <= i < acc.len() ==> well_formed(#[trigger] acc[i]),
        well_formed(x),
    ensures
        forall|i: int| 0 <= i < acc.push(x).len() ==> well_formed(#[trigger] acc.push(x)[i]),
{
    assert forall|i: int| 0 <= i < acc.push(x).len() implies well_formed(
        #[trigger] acc.push(x)[i],
    ) by {
        if i < acc.len() {
            assert(acc.push(x)[i] == acc[i]);
        }
    }
}

proof fn lemma_close_formed(acc: Seq<Datum>, s: Seq<u8>)
    requires
        forall|i: int| 0 <= i < acc.len() ==> well_formed(#[trigger] acc[i]),
        read_close(acc, s).0 is Ok,
    ensures
        well_formed(read_close(acc, s).0->Ok_0),
    decreases s.len(),
{
    if s.len() > 0 && is_space(s[0]) {
        lemma_close_formed(acc, s.drop_first());
    } else {
        lemma_chain_formed(acc);
    }
}

proof fn lemma_value_formed(s: Seq<u8>)
    requires
        read_value(s).0 is Ok,
    ensures
        well_formed(read_value(s).0->Ok_0),
    decreases s.len(), 0int,
{
    if s.len() > 0 {
        let c = s[0];
        let t = s.drop_first();
        if is_space(c) {
            lemma_value_formed(t);
        } else if c == OPEN {
            lemma_list_formed(Seq::empty(), t);
        } else if c == DQUOTE {
            lemma_text_is_text(Seq::empty(), t);
        } else if c == QUOTE {
            lemma_value_formed(t);
            let v = read_value(t).0->Ok_0;
            let items = seq![Datum::Symbol(quote_symbol()), v, Datum::Nil];
            let q = quote_symbol();
            assert(is_ascii_chars(q));
            is_ascii_chars_encode_utf8(q);
            let b = encode_utf8(q);
            assert(b[0] == 0x71u8 && b[1] == 0x75u8 && b[2] == 0x6fu8 && b[3] == 0x74u8 && b[4]
                == 0x65u8);
            assert(b != seq![DOT]) by {
                if b == seq![DOT] {
                    assert(b.len() == 1);
                }
            }
            assert(forall|i: int| 0 <= i < b.len() ==> is_symbol_byte(#[trigger] b[i]));
            assert(well_formed(items[0]));
            lemma_chain_formed(items);
        } else if is_digit(c) || is_sign(c) {
            lemma_integer_formed(seq![c], t);
        } else if is_symbol_byte(c) {
            lemma_symbol_formed(seq![c], t);
        }
    }
}

proof fn lemma_list_formed(acc: Seq<Datum>, s: Seq<u8>)
    requires
        forall|i: int| 0 <= i < acc.len() ==> well_formed(#[trigger] acc[i]),
        read_list(acc, s).0 is Ok,
    ensures
        well_formed(read_list(acc, s).0->Ok_0),
    decreases s.len(), 2int,
{
    if s.len() > 0 {
        let c = s[0];
        let t = s.drop_first();
        if is_space(c) {
            lemma_list_formed(acc, t);
        } else if c == CLOSE {
            lemma_push_formed(acc, Datum::Nil);
            lemma_chain_formed(acc.push(Datum::Nil));
        } else if c == DOT {
            lemma_dot_formed(acc, t);
        } else {
            let (r, rest) = read_value(s);
            lemma_value_formed(s);
            lemma_push_formed(acc, r->Ok_0);
            lemma_list_formed(acc.push(r->Ok_0), rest);
        }
    }
}

proof fn lemma_dot_formed(acc: Seq<Datum>, s: Seq<u8>)
    requires
        forall|i: int| 0 <= i < acc.len() ==> well_formed(#[trigger] acc[i]),
        read_dot(acc, s).0 is Ok,
    ensures
        well_formed(read_dot(acc, s).0->Ok_0),
    decreases s.len() + 1, 1int,
{
    if is_space(s[0]) {
        let (r, rest) = read_value(s.drop_first());
        lemma_value_formed(s.drop_first());
        lemma_push_formed(acc, r->Ok_0);
        lemma_close_formed(acc.push(r->Ok_0), rest);
    } else {
        let (r, rest) = read_value(seq![DOT] + s);
        lemma_value_formed(seq![DOT] + s);
        lemma_push_formed(acc, r->Ok_0);
        lemma_list_formed(acc.push(r->Ok_0), rest);
    }
}

/// Reading what was printed of a value read from any input gives that value
/// again, unless a string in it holds a `"` or a `\`, or the end of input
/// stands inside it (as after a `'` with nothing left to quote).
pub proof fn lemma_reread(s: Seq<u8>)
    requires
        read_value(s).0 is Ok,
        plain(read_value(s).0->Ok_0),
    ensures
        read_value(render(read_value(s).0->Ok_0)).0 == read_value(s).0,
{
    let d = read_value(s).0->Ok_0;
    if d != Datum::EndOfInput {
        lemma_value_formed(s);
        lemma_plain_readable(d);
    }
    lemma_print_read(d);
}

} // verus!
