use geoconverter::geo_parsing::parsing_ascii::{
    parse_ascii_first_byte_separately, parse_integer, BuffChannel,
};
use geoconverter::{parse_ascii, real_literals};
use geoconverter::{ParseError, ReaderElement, Real64};

fn readings(input: &[u8]) -> Vec<Option<Real64>> {
    real_literals(input)
        .iter()
        .map(|t| {
            std::str::from_utf8(t)
                .ok()
                .and_then(|s| s.parse::<f64>().ok())
                .map(|x| Real64 { bits: x.to_bits() })
        })
        .collect()
}

fn read(input: &str) -> Result<String, ParseError> {
    parse_ascii(input.as_bytes(), &readings(input.as_bytes())).map(|v| format!("{:?}", v))
}

fn float(x: f64) -> String {
    format!("Float(Real64 {{ bits: {} }})", x.to_bits())
}

#[test]
fn scalars_are_read_from_text() {
    assert_eq!(read("true ").unwrap(), "Bool(true)");
    assert_eq!(read("false,").unwrap(), "Bool(false)");
    assert_eq!(read("12 ").unwrap(), "Int(12)");
    assert_eq!(read("-12]").unwrap(), "Int(-12)");
    assert_eq!(read("+12\n").unwrap(), "Int(12)");
    assert_eq!(read("007 ").unwrap(), "Int(7)");
    assert_eq!(read("9223372036854775807 ").unwrap(), "Int(9223372036854775807)");
    assert_eq!(read("-9223372036854775808 ").unwrap(), "Int(-9223372036854775808)");
    assert_eq!(read("1.5 ").unwrap(), float(1.5));
    assert_eq!(read("-.5 ").unwrap(), float(-0.5));
    assert_eq!(read("1e3 ").unwrap(), float(1000.0));
    assert_eq!(read("1.25e-2 ").unwrap(), float(0.0125));
    assert_eq!(read("\"hi\"").unwrap(), "Text(\"hi\")");
    assert_eq!(read("\"\"").unwrap(), "Text(\"\")");
}

#[test]
fn an_integer_too_large_is_read_as_a_real() {
    assert_eq!(read("9223372036854775808 ").unwrap(), float(9223372036854775808.0));
    assert_eq!(read("-9223372036854775809 ").unwrap(), float(-9223372036854775809.0));
    assert_eq!(
        real_literals(b"[9223372036854775808, 5, 1.5]"),
        vec![b"9223372036854775808".to_vec(), b"1.5".to_vec()]
    );
}

#[test]
fn nothing_but_whitespace_is_null() {
    assert_eq!(read("").unwrap(), "Null");
    assert_eq!(read(" \t\r\n\x0c ").unwrap(), "Null");
}

#[test]
fn containers_are_read_from_text() {
    assert_eq!(read("[]").unwrap(), "Array([])");
    assert_eq!(read(" [ ] ").unwrap(), "Array([])");
    assert_eq!(read("{}").unwrap(), "KeyValueObject([])");
    assert_eq!(read("{ \n }").unwrap(), "KeyValueObject([])");
    assert_eq!(
        read("[1 , \"a\" ,[true, false ],{ \"k\" : [ ] }]").unwrap(),
        "Array([Int(1), Text(\"a\"), Array([Bool(true), Bool(false)]), KeyValueObject([KeyValueEntry { key: \"k\", value: Array([]) }])])"
    );
    assert_eq!(
        read("{\"a\":1,\"b\":2,\"a\":3}").unwrap(),
        "KeyValueObject([KeyValueEntry { key: \"a\", value: Int(3) }, KeyValueEntry { key: \"b\", value: Int(2) }])"
    );
    // what follows the value is not looked at
    assert_eq!(read("[1] garbage").unwrap(), "Array([Int(1)])");
}

#[test]
fn whitespace_inside_strings_stays() {
    assert_eq!(read("\"a b\tc\n d\"").unwrap(), "Text(\"a b\\tc\\n d\")");
    assert_eq!(read("[ \" x \" , \"  \" ]").unwrap(), "Array([Text(\" x \"), Text(\"  \")])");
}

#[test]
fn a_backslash_takes_the_next_byte_along() {
    // the text keeps the backslashes as they stand
    assert_eq!(read(r#""a\"b""#).unwrap(), r#"Text("a\\\"b")"#);
    assert_eq!(read(r#""a\\""#).unwrap(), r#"Text("a\\\\")"#);
    assert_eq!(read(r#"["\\", 1]"#).unwrap(), r#"Array([Text("\\\\"), Int(1)])"#);
    assert_eq!(read(r#""a\"#), Err(ParseError::UnexpectedEnd));
    assert_eq!(read(r#""a\""#), Err(ParseError::UnexpectedEnd));
}

#[test]
fn bytes_that_are_no_text_are_read_leniently() {
    let input: Vec<u8> = vec![b'"', b'a', 0xff, b'b', b'"'];
    match parse_ascii(&input, &vec![]).unwrap() {
        ReaderElement::Text(s) => assert_eq!(s, "a\u{fffd}b"),
        other => panic!("unexpected {:?}", other),
    }
    let input: Vec<u8> = vec![b'"', 0xc3, 0xa9, b'"'];
    match parse_ascii(&input, &vec![]).unwrap() {
        ReaderElement::Text(s) => assert_eq!(s, "\u{e9}"),
        other => panic!("unexpected {:?}", other),
    }
}

#[test]
fn each_text_error_has_its_input() {
    // a token at the very end of the input is cut short
    assert_eq!(read("12"), Err(ParseError::UnexpectedEnd));
    assert_eq!(read("true"), Err(ParseError::UnexpectedEnd));
    assert_eq!(read("\"abc"), Err(ParseError::UnexpectedEnd));
    assert_eq!(read("["), Err(ParseError::UnexpectedEnd));
    assert_eq!(read("[1"), Err(ParseError::UnexpectedEnd));
    assert_eq!(read("[1 "), Err(ParseError::UnexpectedEnd));
    assert_eq!(read("[1,"), Err(ParseError::UnexpectedEnd));
    assert_eq!(read("{"), Err(ParseError::UnexpectedEnd));
    assert_eq!(read("{\"a\""), Err(ParseError::UnexpectedEnd));
    assert_eq!(read("{\"a\":"), Err(ParseError::UnexpectedEnd));
    assert_eq!(read("{\"a\":1"), Err(ParseError::UnexpectedEnd));
    assert_eq!(read("@"), Err(ParseError::UnexpectedByte));
    assert_eq!(read("]"), Err(ParseError::UnexpectedByte));
    assert_eq!(read("[1,]"), Err(ParseError::UnexpectedByte));
    assert_eq!(read("[,1]"), Err(ParseError::UnexpectedByte));
    assert_eq!(read("{,}"), Err(ParseError::UnexpectedByte));
    assert_eq!(read("null "), Err(ParseError::UnknownKeyword));
    assert_eq!(read("True "), Err(ParseError::UnknownKeyword));
    assert_eq!(read("true1 "), Err(ParseError::UnknownKeyword));
    assert_eq!(read("1.2.3 "), Err(ParseError::BadNumber));
    assert_eq!(read("1-2 "), Err(ParseError::BadNumber));
    assert_eq!(read("- "), Err(ParseError::BadNumber));
    assert_eq!(read(". "), Err(ParseError::BadNumber));
    assert_eq!(read("1e "), Err(ParseError::BadNumber));
    assert_eq!(read("[1 2]"), Err(ParseError::BadSeparator));
    assert_eq!(read("[1 : 2]"), Err(ParseError::BadSeparator));
    assert_eq!(read("{\"a\":1 \"b\":2}"), Err(ParseError::BadSeparator));
    assert_eq!(read("{\"a\":1]"), Err(ParseError::BadSeparator));
    assert_eq!(read("{\"a\" 1}"), Err(ParseError::BadKey));
    assert_eq!(read("{\"a\",1}"), Err(ParseError::BadKey));
    assert_eq!(read("{1:2}"), Err(ParseError::BadKey));
    assert_eq!(read("{[]:2}"), Err(ParseError::BadKey));
}

#[test]
fn the_first_error_in_the_text_decides() {
    // the number that does not read stands before the bracket that is missing
    assert_eq!(read("[1.2.3, 4"), Err(ParseError::BadNumber));
    assert_eq!(read("[4, 1.2.3"), Err(ParseError::UnexpectedEnd));
    assert_eq!(read("[1 2, 1.2.3 ]"), Err(ParseError::BadSeparator));
    // the key is looked at once its value was read
    assert_eq!(read("{1:1.2.3 }"), Err(ParseError::BadNumber));
}

#[test]
fn a_real_without_a_reading_is_a_bad_number() {
    let input = b"[1.5, 2.5]";
    assert_eq!(real_literals(input), vec![b"1.5".to_vec(), b"2.5".to_vec()]);
    assert_eq!(parse_ascii(input, &vec![]).err(), Some(ParseError::BadNumber));
    let one = vec![Some(Real64 { bits: 1.5f64.to_bits() })];
    assert_eq!(parse_ascii(input, &one).err(), Some(ParseError::BadNumber));
    let holes = vec![Some(Real64 { bits: 1.5f64.to_bits() }), None];
    assert_eq!(parse_ascii(input, &holes).err(), Some(ParseError::BadNumber));
    let both = vec![Some(Real64 { bits: 7 }), Some(Real64 { bits: 9 })];
    assert_eq!(
        format!("{:?}", parse_ascii(input, &both).unwrap()),
        "Array([Float(Real64 { bits: 7 }), Float(Real64 { bits: 9 })])"
    );
}

#[test]
fn real_literals_stop_at_the_first_error() {
    assert_eq!(real_literals(b"[1.5, @, 2.5]"), vec![b"1.5".to_vec()]);
    assert_eq!(real_literals(b"[1, 2, \"3.5\"]"), Vec::<Vec<u8>>::new());
    assert_eq!(real_literals(b"{\"a\":1e5,\"a\":.5}"), vec![b"1e5".to_vec(), b".5".to_vec()]);
}

#[test]
fn a_first_byte_read_before_is_put_back() {
    let tree = parse_ascii_first_byte_separately(b'[', b"1, 2]", &vec![]).unwrap();
    assert_eq!(format!("{:?}", tree), "Array([Int(1), Int(2)])");
}

#[test]
fn long_inputs_span_many_chunks() {
    let mut text = String::from("[");
    for i in 0..60000 {
        text.push_str(&format!("{}, ", i));
    }
    text.push_str("\"end\"]");
    assert!(text.len() > 3 * 128 * 1024);
    match parse_ascii(text.as_bytes(), &vec![]).unwrap() {
        ReaderElement::Array(items) => {
            assert_eq!(items.len(), 60001);
            assert_eq!(format!("{:?}", items[59999]), "Int(59999)");
            assert_eq!(format!("{:?}", items[60000]), "Text(\"end\")");
        }
        other => panic!("unexpected {:?}", other),
    }
}

#[test]
fn integers_are_parsed_as_the_language_parses_them() {
    for text in [
        "0", "-0", "+0", "1", "-1", "+1", "0001", "9223372036854775807", "9223372036854775808",
        "-9223372036854775808", "-9223372036854775809", "", "+", "-", "--1", "+-1", "1-", "1.0",
        "1e3", "12a", "99999999999999999999999",
    ] {
        assert_eq!(parse_integer(text.as_bytes()), text.parse::<i64>().ok(), "parsing {:?}", text);
    }
}

#[test]
fn channel_peeks_consumes_and_gets() {
    let input = b"ab cd";
    let mut chan = BuffChannel::new(input, 2, 0);
    assert_eq!(chan.buffer(), b"");
    assert_eq!(chan.peek(), Some(b'a'));
    assert_eq!(chan.peek(), Some(b'a'));
    assert_eq!(chan.consume(), Some(()));
    assert_eq!(chan.buffer(), b"a");
    assert_eq!(chan.get(), Some(b'b'));
    assert_eq!(chan.buffer(), b"ab");
    chan.reset_buffer();
    assert_eq!(chan.buffer(), b"");
    assert_eq!(chan.get(), Some(b' '));
    assert_eq!(chan.get(), Some(b'c'));
    assert_eq!(chan.buffer(), b" c");
    assert_eq!(chan.peek(), Some(b'd'));
    chan.reset_buffer();
    assert_eq!(chan.get(), Some(b'd'));
    assert_eq!(chan.buffer(), b"d");
    assert_eq!(chan.peek(), None);
    assert_eq!(chan.consume(), None);
    assert_eq!(chan.get(), None);
    assert_eq!(chan.buffer(), b"d");
}

#[test]
fn channel_skips_whitespace() {
    let input = b"  \t\nx \r\x0c y  ";
    let mut chan = BuffChannel::new(input, 0, 3);
    assert_eq!(chan.peek_skip_whitespaces(), Some(b'x'));
    assert_eq!(chan.peek(), Some(b'x'));
    assert_eq!(chan.get_skip_whitespaces(), Some(b'x'));
    assert_eq!(chan.get_skip_whitespaces(), Some(b'y'));
    assert_eq!(chan.peek_skip_whitespaces(), None);
    assert_eq!(chan.get_skip_whitespaces(), None);
    assert_eq!(chan.peek(), None);
}

#[test]
fn channel_without_chunks_sees_nothing() {
    let mut chan = BuffChannel::new(b"abc", 0, 0);
    assert_eq!(chan.peek(), None);
    assert_eq!(chan.get(), None);
    let mut chan = BuffChannel::new(b"abc", 1, 0);
    assert_eq!(chan.get(), Some(b'a'));
    assert_eq!(chan.get(), Some(b'b'));
    assert_eq!(chan.get(), Some(b'c'));
    assert_eq!(chan.get(), None);
}

#[test]
fn channel_peeks_under_both_spellings() {
    let mut chan = BuffChannel::new(b" \tq r", 0, 3);
    assert_eq!(chan.peak(), Some(b' '));
    assert_eq!(chan.peek(), Some(b' '));
    assert_eq!(chan.peak_skip_whitespaces(), Some(b'q'));
    assert_eq!(chan.peak(), Some(b'q'));
    assert_eq!(chan.get(), Some(b'q'));
    assert_eq!(chan.peak_skip_whitespaces(), Some(b'r'));
    assert_eq!(chan.get(), Some(b'r'));
    assert_eq!(chan.peak_skip_whitespaces(), None);
    assert_eq!(chan.peak(), None);
}
