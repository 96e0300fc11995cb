use jsondoc::lex::{decimal_string, Lex};
use jsondoc::parse::{check_eof, check_next_byte, parse_array, parse_object, parse_value};
use jsondoc::scan::{
    float_syntax, parse_false, parse_null, parse_num, parse_string, parse_true, parse_whitespace,
    read_integer,
};
use jsondoc::error::{Error, IntFault};
use jsondoc::json::Json;

#[test]
fn tracker_moves_and_formats() {
    let mut lex = Lex::new(0, 1, 1);
    lex.incr_col(4);
    assert_eq!(lex, Lex::new(4, 1, 5));
    assert_eq!(lex.format("here"), "here at offset:4 line:1 col:5");
    lex.set(10, 3, 0);
    assert_eq!((lex.off, lex.row, lex.col), (10, 3, 0));
}

#[test]
fn decimal_strings() {
    assert_eq!(decimal_string(0), "0");
    assert_eq!(decimal_string(7), "7");
    assert_eq!(decimal_string(1234567890), "1234567890");
    assert_eq!(decimal_string(-45), "-45");
    assert_eq!(decimal_string(i128::MAX), i128::MAX.to_string());
    assert_eq!(decimal_string(i128::MIN), i128::MIN.to_string());
}

#[test]
fn whitespace_counts_rows_and_columns() {
    let text = b" \t\r\n  x";
    let mut lex = Lex::new(0, 1, 1);
    parse_whitespace(text, &mut lex);
    assert_eq!(lex, Lex::new(6, 2, 2));
    parse_whitespace(text, &mut lex);
    assert_eq!(lex, Lex::new(6, 2, 2));
    let mut end = Lex::new(7, 2, 3);
    parse_whitespace(text, &mut end);
    assert_eq!(end, Lex::new(7, 2, 3));
}

#[test]
fn literals_look_at_their_word_only() {
    let mut lex = Lex::new(0, 1, 1);
    assert_eq!(parse_null(b"nullx", &mut lex).ok(), Some(Json::Null));
    assert_eq!(lex, Lex::new(4, 1, 5));
    let mut lex = Lex::new(1, 1, 2);
    assert_eq!(parse_true(b" true", &mut lex).ok(), Some(Json::Bool(true)));
    assert_eq!(lex.off, 5);
    let mut lex = Lex::new(0, 1, 1);
    assert_eq!(parse_false(b"false", &mut lex).ok(), Some(Json::Bool(false)));
    assert_eq!(lex.off, 5);
    let mut lex = Lex::new(0, 1, 1);
    assert!(parse_false(b"fals", &mut lex).is_err());
    assert_eq!(lex, Lex::new(0, 1, 1));
}

#[test]
fn numbers_move_the_tracker_over_the_run() {
    let mut lex = Lex::new(0, 1, 1);
    assert_eq!(parse_num(b"123,", &mut lex).ok(), Some(Json::Integer(123)));
    assert_eq!(lex, Lex::new(3, 1, 4));
    let mut lex = Lex::new(0, 1, 1);
    assert!(parse_num(b"1-2 ", &mut lex).is_err());
    assert_eq!(lex, Lex::new(3, 1, 4));
    let mut lex = Lex::new(0, 1, 1);
    assert_eq!(
        parse_num(b"-1.5e+3]", &mut lex).ok(),
        Some(Json::Float("-1.5e+3".to_string()))
    );
    assert_eq!(lex.off, 7);
}

#[test]
fn integer_faults() {
    assert_eq!(read_integer(b"0"), Ok(0));
    assert_eq!(read_integer(b"-0"), Ok(0));
    assert_eq!(read_integer(b"+12"), Ok(12));
    assert_eq!(read_integer(b"007"), Ok(7));
    assert_eq!(read_integer(b""), Err(IntFault::Empty));
    assert_eq!(read_integer(b"-"), Err(IntFault::InvalidDigit));
    assert_eq!(read_integer(b"1+"), Err(IntFault::InvalidDigit));
    assert_eq!(
        read_integer(b"170141183460469231731687303715884105728"),
        Err(IntFault::PosOverflow)
    );
    assert_eq!(
        read_integer(b"-170141183460469231731687303715884105729"),
        Err(IntFault::NegOverflow)
    );
    assert_eq!(
        read_integer(b"99999999999999999999999999999999999999999999"),
        Err(IntFault::PosOverflow)
    );
}

#[test]
fn grammar_of_floats() {
    for ok in ["1.0", "1.", ".5", "-0.5", "+3e7", "1E-2", "10", "1.5e+10", "-.5E0"] {
        assert!(float_syntax(ok.as_bytes()), "{}", ok);
        assert_eq!(ok.parse::<f64>().is_ok(), true, "{}", ok);
    }
    for bad in ["", ".", "e5", "1e", "1e+", "--1", "1.2.3", "1e5.0", "+", "-e1", "1ee1", "1-"] {
        assert!(!float_syntax(bad.as_bytes()), "{}", bad);
        assert_eq!(bad.parse::<f64>().is_ok(), false, "{}", bad);
    }
}

#[test]
fn string_failures_name_their_place() {
    let mut lex = Lex::new(0, 1, 1);
    match parse_string(br#""ab\x""#, &mut lex) {
        Err(Error::Parse(m)) => {
            assert_eq!(m, "invalid string string escape type at offset:4 line:1 col:5")
        }
        other => panic!("{:?}", other),
    }
    assert_eq!(lex, Lex::new(4, 1, 5));
    let mut lex = Lex::new(0, 1, 1);
    match parse_string(br#""\udc00""#, &mut lex) {
        Err(Error::Parse(m)) => {
            assert_eq!(m, "invalid string codepoint 56320 at offset:2 line:1 col:3")
        }
        other => panic!("{:?}", other),
    }
    let mut lex = Lex::new(0, 1, 1);
    match parse_string(br#""\u12"#, &mut lex) {
        Err(Error::Parse(m)) => {
            assert_eq!(m, "incomplete string escape code 12 at offset:0 line:1 col:1")
        }
        other => panic!("{:?}", other),
    }
    let mut lex = Lex::new(0, 1, 1);
    match parse_string(br#""\u12g4""#, &mut lex) {
        Err(Error::Parse(m)) => {
            assert_eq!(m, "invalid string escape code 'g' at offset:0 line:1 col:1")
        }
        other => panic!("{:?}", other),
    }
    let mut lex = Lex::new(0, 1, 1);
    match parse_string(b"\"abc", &mut lex) {
        Err(Error::Parse(m)) => assert_eq!(m, "incomplete string at offset:0 line:1 col:1"),
        other => panic!("{:?}", other),
    }
    let mut lex = Lex::new(0, 1, 1);
    match parse_string(b"abc", &mut lex) {
        Err(Error::Parse(m)) => assert_eq!(m, "not a string at offset:0 line:1 col:1"),
        other => panic!("{:?}", other),
    }
}

#[test]
fn escape_failures_cite_what_stands_there() {
    let cases: [(&[u8], &str); 7] = [
        (b"\"\\uab", "incomplete string escape code ab at offset:0 line:1 col:1"),
        (b"\"\\u", "incomplete string escape code 0 at offset:0 line:1 col:1"),
        (b"\"\\uABC", "incomplete string escape code abc at offset:0 line:1 col:1"),
        (b"\"\\u00\"", "invalid string escape code '\"' at offset:0 line:1 col:1"),
        (b"\"\\u0\n00\"", "invalid string escape code '\\n' at offset:0 line:1 col:1"),
        (
            "\"\\u1\u{e9}\"".as_bytes(),
            "invalid string escape code '\u{e9}' at offset:0 line:1 col:1",
        ),
        (b"\"\\u1\xff\"", "invalid string escape code '\u{fffd}' at offset:0 line:1 col:1"),
    ];
    for (text, expected) in cases.iter() {
        let mut lex = Lex::new(0, 1, 1);
        match parse_string(text, &mut lex) {
            Err(Error::Parse(m)) => assert_eq!(&m, expected),
            other => panic!("{:?}", other),
        }
    }
    let mut lex = Lex::new(0, 1, 1);
    match parse_string(b"\"\\ud83d\\u12", &mut lex) {
        Err(Error::Parse(m)) => {
            assert_eq!(m, "incomplete string escape code 12 at offset:0 line:1 col:1")
        }
        other => panic!("{:?}", other),
    }
}

#[test]
fn strings_of_bytes_that_are_no_text_are_refused() {
    let mut lex = Lex::new(0, 1, 1);
    match parse_string(b"\"\xff\"", &mut lex) {
        Err(Error::Parse(m)) => {
            assert_eq!(m, "invalid utf-8 in string at offset:0 line:1 col:1")
        }
        other => panic!("{:?}", other),
    }
    let mut lex = Lex::new(0, 1, 1);
    assert!(parse_value(b"[\"\xc3\"]", &mut lex).is_err());
}

#[test]
fn eof_and_next_byte() {
    let lex = Lex::new(2, 1, 3);
    assert!(check_eof(b"ab", &lex).is_err());
    assert!(check_eof(b"abc", &lex).is_ok());
    let mut lex = Lex::new(1, 1, 2);
    assert!(check_next_byte(b"a:b", &mut lex, b':').is_ok());
    assert_eq!(lex, Lex::new(2, 1, 3));
    match check_next_byte(b"a:b", &mut lex, b':') {
        Err(Error::Parse(m)) => assert_eq!(m, "invalid token 58 at offset:2 line:1 col:3"),
        other => panic!("{:?}", other),
    }
    let mut lex = Lex::new(3, 1, 4);
    match check_next_byte(b"a:b", &mut lex, b':') {
        Err(Error::Parse(m)) => assert_eq!(m, "missing token 58 at offset:3 line:1 col:4"),
        other => panic!("{:?}", other),
    }
}

#[test]
fn containers_from_their_opening_byte() {
    let mut lex = Lex::new(1, 1, 2);
    assert_eq!(
        parse_array(b" [ 1 , 2 ] ", &mut lex).ok(),
        Json::from_str("[1,2]").ok()
    );
    assert_eq!(lex.off, 10);
    let mut lex = Lex::new(0, 1, 1);
    assert_eq!(
        parse_object(b"{ \"a\" : [ ] }x", &mut lex).ok(),
        Json::from_str("{\"a\":[]}").ok()
    );
    assert_eq!(lex.off, 13);
    let mut lex = Lex::new(0, 1, 1);
    match parse_array(b"[ ,1]", &mut lex) {
        Err(Error::Parse(m)) => assert_eq!(m, "expected ',' at offset:2 line:1 col:3"),
        other => panic!("{:?}", other),
    }
    let mut lex = Lex::new(0, 1, 1);
    match parse_object(b"{\"a\":1", &mut lex) {
        Err(Error::Parse(m)) => assert_eq!(m, "unexpected eof at offset:6 line:1 col:7"),
        other => panic!("{:?}", other),
    }
    let mut lex = Lex::new(0, 1, 1);
    match parse_object(b"{\"a\":1;", &mut lex) {
        Err(Error::Parse(m)) => assert_eq!(m, "invalid token 59 at offset:6 line:1 col:7"),
        other => panic!("{:?}", other),
    }
}

#[test]
fn parse_value_from_a_position() {
    let text = b"[1]\n  {\"k\": 2}";
    let mut lex = Lex::new(3, 1, 4);
    let value = parse_value(text, &mut lex).unwrap();
    assert_eq!(value.to_string(), "{\"k\":2}");
    assert_eq!(lex, Lex::new(14, 2, 10));
}

fn words(alphabet: &[u8], longest: usize) -> Vec<Vec<u8>> {
    let mut all: Vec<Vec<u8>> = vec![Vec::new()];
    let mut last: Vec<Vec<u8>> = vec![Vec::new()];
    for _ in 0..longest {
        let mut next: Vec<Vec<u8>> = Vec::new();
        for word in last.iter() {
            for b in alphabet.iter() {
                let mut longer = word.clone();
                longer.push(*b);
                next.push(longer);
            }
        }
        all.extend(next.iter().cloned());
        last = next;
    }
    all
}

#[test]
fn float_grammar_is_that_of_native_floats() {
    for word in words(b"07+-.eE", 6) {
        let text = std::str::from_utf8(&word).unwrap();
        assert_eq!(
            float_syntax(&word),
            text.parse::<f64>().is_ok(),
            "{:?}",
            text
        );
    }
}

fn native(text: &str) -> Result<i128, IntFault> {
    match text.parse::<i128>() {
        Ok(v) => Ok(v),
        Err(e) => Err(match e.kind() {
            std::num::IntErrorKind::Empty => IntFault::Empty,
            std::num::IntErrorKind::InvalidDigit => IntFault::InvalidDigit,
            std::num::IntErrorKind::PosOverflow => IntFault::PosOverflow,
            std::num::IntErrorKind::NegOverflow => IntFault::NegOverflow,
            _ => unreachable!(),
        }),
    }
}

#[test]
fn integers_are_read_as_native_integers() {
    for word in words(b"09+-", 7) {
        let text = std::str::from_utf8(&word).unwrap();
        assert_eq!(read_integer(&word), native(text), "{:?}", text);
    }
    let large = "170141183460469231731687303715884105727";
    for tail in words(b"09+-", 3) {
        for head in ["", "+", "-"] {
            let mut text = String::from(head);
            text.push_str(large);
            text.push_str(std::str::from_utf8(&tail).unwrap());
            assert_eq!(read_integer(text.as_bytes()), native(&text), "{:?}", text);
        }
    }
    for text in [
        "170141183460469231731687303715884105727",
        "170141183460469231731687303715884105728",
        "170141183460469231731687303715884105729",
        "-170141183460469231731687303715884105727",
        "-170141183460469231731687303715884105728",
        "-170141183460469231731687303715884105729",
        "+170141183460469231731687303715884105727",
        "0000000000000000000000000000000000000000000000000000001",
        "1701411834604692317316873037158841057270",
        "-1701411834604692317316873037158841057280",
        "340282366920938463463374607431768211455",
        "340282366920938463463374607431768211456",
    ] {
        assert_eq!(
            read_integer(text.as_bytes()).ok(),
            text.parse::<i128>().ok(),
            "{:?}",
            text
        );
    }
}
