use bread_scheme::input::Input;
use bread_scheme::parser::{
    is_symbol_char, make_int, make_list, make_string, make_symbol, read, ReadError,
};
use bread_scheme::printer::{print, write_value};
use bread_scheme::types::{Handle, Object};

fn read_str(input: &str) -> Result<Handle, ReadError> {
    read(&mut Input::new(input.as_bytes().to_vec()))
}

fn read_bytes(input: &[u8]) -> Result<Handle, ReadError> {
    read(&mut Input::new(input.to_vec()))
}

fn sym(s: &str) -> Handle {
    Handle::new_symbol(s.to_string())
}

fn num(n: i64) -> Handle {
    Handle::new_int64(n)
}

fn cons(a: Handle, d: Handle) -> Handle {
    Handle::new_cons(a, d)
}

fn nil() -> Handle {
    Handle::new_nil()
}

fn text_of(h: &Handle) -> String {
    String::from_utf8(print(h)).unwrap()
}

#[test]
fn eof() {
    assert_eq!(read_str("").unwrap(), Handle::new_eof());
    assert_eq!(read_str("   ").unwrap(), Handle::new_eof());
    assert_eq!(read_str(" \n").unwrap(), Handle::new_eof());
}

#[test]
fn list() {
    assert_eq!(read_str("()").unwrap(), Handle::new_nil());
    assert_eq!(
        read_str("(1)").unwrap(),
        Handle::new_cons(Handle::new_int64(1), Handle::new_nil())
    );
    assert_eq!(
        read_str("(1 2)").unwrap(),
        Handle::new_cons(
            Handle::new_int64(1),
            Handle::new_cons(Handle::new_int64(2), Handle::new_nil())
        )
    );
    assert_eq!(
        read_str("(1  2 . 3)").unwrap(),
        Handle::new_cons(
            Handle::new_int64(1),
            Handle::new_cons(Handle::new_int64(2), Handle::new_int64(3))
        )
    );
    assert_eq!(
        read_str("(1 .a)").unwrap(),
        Handle::new_cons(
            Handle::new_int64(1),
            Handle::new_cons(Handle::new_symbol(".a".to_string()), Handle::new_nil())
        )
    );
}

#[test]
fn dotted_list_structure() {
    assert_eq!(
        read_str("(1 2 . 3)").unwrap(),
        cons(num(1), cons(num(2), num(3)))
    );
}

#[test]
fn quote_shorthand() {
    assert_eq!(
        read_str("'x").unwrap(),
        cons(sym("quote"), cons(sym("x"), nil()))
    );
    assert_eq!(
        read_str("'(1 2)").unwrap(),
        cons(sym("quote"), cons(cons(num(1), cons(num(2), nil())), nil()))
    );
}

#[test]
fn atoms() {
    assert_eq!(read_str("42").unwrap(), num(42));
    assert_eq!(read_str("-17 ").unwrap(), num(-17));
    assert_eq!(read_str("+5").unwrap(), num(5));
    assert_eq!(read_str("1+").unwrap(), sym("1+"));
    assert_eq!(read_str("-").unwrap(), sym("-"));
    assert_eq!(read_str("+").unwrap(), sym("+"));
    assert_eq!(read_str("hello-World?").unwrap(), sym("hello-World?"));
    assert_eq!(
        read_str("\"a b\"").unwrap(),
        Handle::new_string("a b".to_string())
    );
}

#[test]
fn integer_limits() {
    assert_eq!(read_str("9223372036854775807").unwrap(), num(i64::MAX));
    assert_eq!(read_str("-9223372036854775808").unwrap(), num(i64::MIN));
    assert_eq!(
        read_str("9223372036854775808"),
        Err(ReadError::IntegerOverflow)
    );
    assert_eq!(
        read_str("-9223372036854775809"),
        Err(ReadError::IntegerOverflow)
    );
    assert_eq!(
        read_str("123456789012345678901234567890"),
        Err(ReadError::IntegerOverflow)
    );
}

#[test]
fn string_escapes_take_next_byte() {
    assert_eq!(
        read_str("\"a\\\"b\"").unwrap(),
        Handle::new_string("a\"b".to_string())
    );
    assert_eq!(
        read_str("\"a\\\\b\"").unwrap(),
        Handle::new_string("a\\b".to_string())
    );
    assert_eq!(
        read_str("\"(x)\"").unwrap(),
        Handle::new_string("(x)".to_string())
    );
}

#[test]
fn read_errors() {
    assert_eq!(read_str(")"), Err(ReadError::UnexpectedCloseParen));
    assert_eq!(read_str("(1 2"), Err(ReadError::UnterminatedList));
    assert_eq!(read_str("(1 ."), Err(ReadError::UnterminatedList));
    assert_eq!(read_str("(1 . 2"), Err(ReadError::UnterminatedList));
    assert_eq!(read_str("(1 . 2 3)"), Err(ReadError::ExpectedCloseParen));
    assert_eq!(read_str("\"abc"), Err(ReadError::UnterminatedString));
    assert_eq!(read_str("\"abc\\"), Err(ReadError::UnterminatedString));
    assert_eq!(read_str("( . 1)"), Err(ReadError::InvalidDotUsage));
    assert_eq!(read_str("."), Err(ReadError::InvalidDotUsage));
    assert_eq!(read_str("(1 .)"), Err(ReadError::InvalidDotUsage));
    assert_eq!(read_str("#t"), Err(ReadError::UnexpectedByte(b'#')));
    assert_eq!(read_str("ab#"), Err(ReadError::UnexpectedByte(b'#')));
    assert_eq!(read_bytes(b"\"\xff\""), Err(ReadError::InvalidTextEncoding));
}

#[test]
fn consecutive_reads_share_the_source() {
    let mut input = Input::new(b"a (b) 3".to_vec());
    assert_eq!(read(&mut input).unwrap(), sym("a"));
    assert_eq!(read(&mut input).unwrap(), cons(sym("b"), nil()));
    assert_eq!(read(&mut input).unwrap(), num(3));
    assert_eq!(read(&mut input).unwrap(), Handle::new_eof());
}

#[test]
fn pushback_capacity() {
    let mut input = Input::new(b"z".to_vec());
    assert_eq!(input.push(b'a'), Ok(()));
    assert_eq!(input.push(b'b'), Ok(()));
    assert_eq!(input.push(b'c'), Err(ReadError::PushbackOverflow));
    assert_eq!(input.get(), Some(b'b'));
    assert_eq!(input.get(), Some(b'a'));
    assert_eq!(input.get(), Some(b'z'));
    assert_eq!(input.get(), None);
}

#[test]
fn pending_bytes() {
    let mut input = Input::new(b"   \nx".to_vec());
    assert!(input.has_pending());
    input.clear_pending_space();
    assert_eq!(input.get(), Some(b'x'));
    assert!(!input.has_pending());

    let mut input = Input::new(b"  y".to_vec());
    input.clear_pending_space();
    assert_eq!(input.get(), Some(b'y'));
}

#[test]
fn printing() {
    assert_eq!(text_of(&nil()), "()");
    assert_eq!(text_of(&num(-120)), "-120");
    assert_eq!(text_of(&num(0)), "0");
    assert_eq!(text_of(&num(i64::MIN)), "-9223372036854775808");
    assert_eq!(text_of(&sym("abc")), "abc");
    assert_eq!(text_of(&Handle::new_string("hi there".to_string())), "\"hi there\"");
    assert_eq!(text_of(&Handle::new_eof()), "");
    assert_eq!(text_of(&cons(num(1), cons(num(2), nil()))), "(1 2)");
    assert_eq!(text_of(&cons(num(1), cons(num(2), num(3)))), "(1 2 . 3)");
    assert_eq!(
        text_of(&cons(cons(sym("a"), nil()), cons(nil(), nil()))),
        "((a) ())"
    );
}

#[test]
fn print_then_read_again() {
    for src in [
        "(define (f x) (+ x 1))",
        "(1 .a \"s t\" . -7)",
        "'(a . b)",
        "  ( 1\t2\n3 )",
        "\"\"",
        "1+",
    ] {
        let first = read_str(src).unwrap();
        let again = read_bytes(&print(&first)).unwrap();
        assert_eq!(again, first);
    }
}

#[test]
fn borrow_sees_object() {
    let h = cons(num(1), nil());
    match h.borrow() {
        Object::Cons(a, d) => {
            assert_eq!(*a, num(1));
            assert_eq!(*d, nil());
        }
        _ => panic!("expected a pair"),
    }
}

#[test]
fn quote_of_end_of_input() {
    assert_eq!(
        read_str("'").unwrap(),
        cons(sym("quote"), cons(Handle::new_eof(), nil()))
    );
}

#[test]
fn tabs_separate_list_elements() {
    assert_eq!(
        read_str("(a\tb\t. c)").unwrap(),
        cons(sym("a"), cons(sym("b"), sym("c")))
    );
}

#[test]
fn builders() {
    assert_eq!(make_list(vec![nil()]), nil());
    assert_eq!(make_list(vec![num(1), num(2), nil()]), cons(num(1), cons(num(2), nil())));
    assert_eq!(make_list(vec![num(1), num(2)]), cons(num(1), num(2)));
    assert_eq!(make_int(&b"-042".to_vec()), Ok(num(-42)));
    assert_eq!(make_int(&b"7".to_vec()), Ok(num(7)));
    assert_eq!(make_int(&b"-".to_vec()), Ok(sym("-")));
    assert_eq!(make_symbol(b"ab".to_vec()), Ok(sym("ab")));
    assert_eq!(make_symbol(b".".to_vec()), Err(ReadError::InvalidDotUsage));
    assert_eq!(
        make_string("h\u{e9}".as_bytes().to_vec()),
        Ok(Handle::new_string("h\u{e9}".to_string()))
    );
    assert_eq!(make_string(vec![0xc3]), Err(ReadError::InvalidTextEncoding));
}

#[test]
fn symbol_bytes() {
    for b in b"azAZ09!$%&*+-./:<=>?@^_~".iter() {
        assert!(is_symbol_char(*b), "{}", *b as char);
    }
    for b in b" \t\n()\"';#[]{}|,`\\".iter() {
        assert!(!is_symbol_char(*b), "{}", *b as char);
    }
}

#[test]
fn write_value_appends() {
    let mut out = b"> ".to_vec();
    write_value(&cons(sym("x"), nil()), &mut out);
    assert_eq!(out, b"> (x)".to_vec());
}
