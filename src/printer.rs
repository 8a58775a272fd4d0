//! The printer: the text form of an object, the dual of the reader.

use crate::parser::{CLOSE, DOT, DQUOTE, MINUS, OPEN, SPACE, ZERO};
use crate::types::{Datum, Handle, Object};
use vstd::prelude::*;
use vstd::utf8::encode_utf8;

verus! {

/// The decimal digits of `m`, without leading zeros.
pub open spec fn digits_of(m: nat) -> Seq<u8>
    decreases m,
{
    if m < 10 {
        seq![(ZERO + m) as u8]
    } else {
        digits_of(m / 10).push((ZERO + m % 10) as u8)
    }
}

/// The decimal form of `n`, with a `-` when it is negative.
pub open spec fn decimal(n: int) -> Seq<u8> {
    if n < 0 {
        seq![MINUS] + digits_of((-n) as nat)
    } else {
        digits_of(n as nat)
    }
}

/// The text of a value. A string is quoted but not escaped; the end of input
/// prints as nothing.
pub open spec fn render(d: Datum) -> Seq<u8>
    decreases d, 0int,
{
    match d {
        Datum::Nil => seq![OPEN, CLOSE],
        Datum::Pair(a, r) => seq![OPEN] + render(*a) + render_rest(*r) + seq![CLOSE],
        Datum::Symbol(cs) => encode_utf8(cs),
        Datum::Integer(n) => decimal(n),
        Datum::Text(cs) => seq![DQUOTE] + encode_utf8(cs) + seq![DQUOTE],
        Datum::EndOfInput => Seq::empty(),
    }
}

/// The text that follows the first element of a list whose remainder is `d`:
/// each further element after a space, then ` . ` and the tail unless the
/// list is proper.
pub open spec fn render_rest(d: Datum) -> Seq<u8>
    decreases d, 1int,
{
    match d {
        Datum::Nil => Seq::empty(),
        Datum::Pair(a, r) => seq![SPACE] + render(*a) + render_rest(*r),
        _ => seq![SPACE, DOT, SPACE] + render(d),
    }
}

fn write_digits(m: u64, out: &mut Vec<u8>)
    ensures
        final(out)@ == old(out)@ + digits_of(m as nat),
    decreases m,
{
    if m >= 10 {
        write_digits(m / 10, out);
    }
    out.push(ZERO + (m % 10) as u8);
    assert(final(out)@ =~= old(out)@ + digits_of(m as nat));
}

fn write_int(n: i64, out: &mut Vec<u8>)
    ensures
        final(out)@ == old(out)@ + decimal(n as int),
{
    if n < 0 {
        out.push(MINUS);
        let m: u64 = (-(n as i128)) as u64;
        write_digits(m, out);
        assert(final(out)@ =~= old(out)@ + decimal(n as int));
    } else {
        write_digits(n as u64, out);
    }
}

fn write_bytes(s: &String, out: &mut Vec<u8>)
    ensures
        final(out)@ == old(out)@ + encode_utf8(s@),
{
    let b = s.as_str().as_bytes();
    out.extend_from_slice(b);
}

/// How many objects a value is built from: what the printer's recursion and
/// its walk along a list both consume.
pub open spec fn size(d: Datum) -> nat
    decreases d,
{
    match d {
        Datum::Pair(a, r) => 1 + size(*a) + size(*r),
        _ => 1,
    }
}

/// Appends the text of `value` to `out`. A list is written by walking along
/// its chain of pairs: each element after a space, then the tail after ` . `
/// unless the chain ends in `Nil`.
pub fn write_value(value: &Handle, out: &mut Vec<u8>)
    ensures
        final(out)@ == old(out)@ + render(value.datum()),
    decreases size(value.datum()),
{
    match value.borrow() {
        Object::Cons(car, cdr) => {
            out.push(OPEN);
            write_value(car, out);
            let ghost prefix = out@;
            let mut next: &Handle = cdr;
            loop
                invariant_except_break
                    prefix + render_rest(cdr.datum()) == out@ + render_rest(next.datum()),
                invariant
                    size(next.datum()) < size(value.datum()),
                ensures
                    out@ == prefix + render_rest(cdr.datum()),
                decreases size(next.datum()),
            {
                match next.borrow() {
                    Object::Cons(a, d) => {
                        let ghost before = out@;
                        out.push(SPACE);
                        write_value(a, out);
                        assert(before + render_rest(next.datum()) =~= out@ + render_rest(
                            d.datum(),
                        ));
                        next = d;
                    },
                    Object::Empty => {
                        assert(out@ =~= out@ + render_rest(next.datum()));
                        break ;
                    },
                    _ => {
                        let ghost before = out@;
                        out.push(SPACE);
                        out.push(DOT);
                        out.push(SPACE);
                        write_value(next, out);
                        assert(out@ =~= before + render_rest(next.datum()));
                        break ;
                    },
                }
            }
            out.push(CLOSE);
        },
        Object::Empty => {
            out.push(OPEN);
            out.push(CLOSE);
        },
        Object::Symbol(s) => write_bytes(s, out),
        Object::Int64(n) => write_int(*n, out),
        Object::String(s) => {
            out.push(DQUOTE);
            write_bytes(s, out);
            out.push(DQUOTE);
        },
        Object::Eof => {},
    }
    assert(final(out)@ =~= old(out)@ + render(value.datum()));
}

/// The text of `value`.
pub fn print(value: &Handle) -> (r: Vec<u8>)
    ensures
        r@ == render(value.datum()),
{
    let mut out = Vec::new();
    write_value(value, &mut out);
    assert(out@ =~= render(value.datum()));
    out
}

} // verus!
