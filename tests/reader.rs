use sexpr_reader::{read, to_atom, to_text, Decimal, ReadError, ScanState, SymbolicExpr};

fn number(text: &str) -> SymbolicExpr {
    SymbolicExpr::Number(Decimal::from_text(String::from(text)).unwrap())
}

fn symbol(text: &str) -> SymbolicExpr {
    SymbolicExpr::Symbol(String::from(text))
}

fn value(e: &SymbolicExpr) -> f64 {
    match e {
        SymbolicExpr::Number(d) => d.as_str().parse::<f64>().unwrap(),
        _ => panic!("not a number: {:?}", e),
    }
}

#[test]
fn decimal_reads_as_one_number() {
    let r = read("12.3").unwrap();
    assert_eq!(r, vec![number("12.3")]);
    assert_eq!(value(&r[0]), 12.3);
}

#[test]
fn integer_reads_as_one_number() {
    let r = read("42").unwrap();
    assert_eq!(r, vec![number("42")]);
    assert_eq!(value(&r[0]), 42.0);
}

#[test]
fn operator_reads_as_one_symbol() {
    assert_eq!(read("+").unwrap(), vec![symbol("+")]);
}

#[test]
fn symbol_keeps_digits_dots_and_case() {
    assert_eq!(read("Foo.9-x").unwrap(), vec![symbol("Foo.9-x")]);
    assert_eq!(read(".5").unwrap(), vec![symbol(".5")]);
}

#[test]
fn empty_list() {
    assert_eq!(read("()").unwrap(), vec![SymbolicExpr::ListExpr(vec![])]);
}

#[test]
fn nested_application() {
    let r = read("(+ 1 2)").unwrap();
    assert_eq!(
        r,
        vec![SymbolicExpr::ListExpr(vec![symbol("+"), number("1"), number("2")])]
    );
    match &r[0] {
        SymbolicExpr::ListExpr(xs) => {
            assert_eq!(value(&xs[1]), 1.0);
            assert_eq!(value(&xs[2]), 2.0);
        }
        _ => panic!("expected a list"),
    }
}

#[test]
fn several_top_level_forms_in_order() {
    let r = read("1 2").unwrap();
    assert_eq!(r, vec![number("1"), number("2")]);
    assert_eq!(value(&r[0]), 1.0);
    assert_eq!(value(&r[1]), 2.0);
}

#[test]
fn nested_lists_and_atoms() {
    let r = read("(define (sq x) (* x x)) sq").unwrap();
    assert_eq!(
        r,
        vec![
            SymbolicExpr::ListExpr(vec![
                symbol("define"),
                SymbolicExpr::ListExpr(vec![symbol("sq"), symbol("x")]),
                SymbolicExpr::ListExpr(vec![symbol("*"), symbol("x"), symbol("x")]),
            ]),
            symbol("sq"),
        ]
    );
}

#[test]
fn parens_end_atoms() {
    assert_eq!(
        read("(a(b)12)").unwrap(),
        vec![SymbolicExpr::ListExpr(vec![
            symbol("a"),
            SymbolicExpr::ListExpr(vec![symbol("b")]),
            number("12"),
        ])]
    );
}

#[test]
fn empty_and_blank_input() {
    assert_eq!(read("").unwrap(), vec![]);
    assert_eq!(read(" \t\n\r ").unwrap(), vec![]);
}

#[test]
fn unmatched_open() {
    assert_eq!(read("(+ 1"), Err(ReadError::UnmatchedOpen));
    assert_eq!(read("(()"), Err(ReadError::UnmatchedOpen));
}

#[test]
fn unmatched_close() {
    assert_eq!(read(")"), Err(ReadError::UnmatchedClose));
    assert_eq!(read("(a))"), Err(ReadError::UnmatchedClose));
}

#[test]
fn trailing_dot_is_invalid_atom() {
    assert_eq!(read("12."), Err(ReadError::InvalidAtom));
    assert_eq!(read("(12.)"), Err(ReadError::InvalidAtom));
    assert_eq!(read("12. 3"), Err(ReadError::InvalidAtom));
}

#[test]
fn bad_character_in_number() {
    assert_eq!(read("12a"), Err(ReadError::InvalidNumber));
    assert_eq!(read("1.2.3"), Err(ReadError::InvalidNumber));
    assert_eq!(read("1..2"), Err(ReadError::InvalidNumber));
    assert_eq!(read("1.x"), Err(ReadError::InvalidNumber));
}

#[test]
fn first_error_wins() {
    assert_eq!(read(") (12."), Err(ReadError::UnmatchedClose));
    assert_eq!(read("(12a"), Err(ReadError::InvalidNumber));
}

#[test]
fn whitespace_runs_read_as_one_space() {
    assert_eq!(read("(+  1\n2)"), read("(+ 1 2)"));
    assert_eq!(read("\t( a \r\n\t b )  "), read("(a b)"));
    assert_eq!(read("1\n\n\t2"), read("1 2"));
}

#[test]
fn canonical_text_reads_back_the_same() {
    let source = "(define  (sq x)\n\t(* x x))  3.25 (()) sym";
    let first = read(source).unwrap();
    let text = to_text(&first);
    assert_eq!(text, "(define (sq x) (* x x)) 3.25 (()) sym");
    assert_eq!(read(&text).unwrap(), first);
}

#[test]
fn canonical_text_of_atoms_and_lists() {
    assert_eq!(to_text(&vec![]), "");
    assert_eq!(to_text(&vec![number("7")]), "7");
    assert_eq!(
        to_text(&vec![SymbolicExpr::ListExpr(vec![symbol("+"), number("1"), number("2")])]),
        "(+ 1 2)"
    );
    assert_eq!(to_text(&vec![SymbolicExpr::ListExpr(vec![])]), "()");
}

#[test]
fn deep_nesting_is_read_without_recursion() {
    let depth = 10_000;
    let mut source = String::new();
    for _ in 0..depth {
        source.push('(');
    }
    for _ in 0..depth {
        source.push(')');
    }
    let mut level = read(&source).unwrap();
    let mut seen = 0;
    while let Some(e) = level.pop() {
        assert!(level.is_empty());
        match e {
            SymbolicExpr::ListExpr(inner) => {
                seen += 1;
                level = inner;
            }
            _ => panic!("expected a list"),
        }
    }
    assert_eq!(seen, depth);
}

#[test]
fn to_atom_by_state() {
    assert_eq!(to_atom(ScanState::Symbol, String::from("abc")), Ok(symbol("abc")));
    assert_eq!(to_atom(ScanState::Integer, String::from("17")), Ok(number("17")));
    assert_eq!(to_atom(ScanState::Floating, String::from("1.5")), Ok(number("1.5")));
    assert_eq!(to_atom(ScanState::Start, String::new()), Err(ReadError::InvalidAtom));
    assert_eq!(
        to_atom(ScanState::IncompleteFloating, String::from("1.")),
        Err(ReadError::InvalidAtom)
    );
}

#[test]
fn to_atom_rejects_malformed_number_text() {
    assert_eq!(
        to_atom(ScanState::Integer, String::from("1.2.3")),
        Err(ReadError::NumberFormat(String::from("1.2.3")))
    );
    assert_eq!(
        to_atom(ScanState::Floating, String::from("")),
        Err(ReadError::NumberFormat(String::new()))
    );
}

#[test]
fn decimal_from_text() {
    assert!(Decimal::from_text(String::from("0")).is_ok());
    assert!(Decimal::from_text(String::from("10.05")).is_ok());
    assert_eq!(Decimal::from_text(String::from("10.05")).unwrap().as_str(), "10.05");
    for text in [".5", "5.", "-5", "+1", "1e5", "1E-3", "2.5e+10", "inf", "-Infinity", "NaN"] {
        assert!(Decimal::from_text(String::from(text)).is_ok(), "{}", text);
        assert!(text.parse::<f64>().is_ok(), "{}", text);
    }
    for text in ["", ".", "-", "1.2.3", "1e", "e5", "1e+", "--1", "in", "infinit", "1 ", "0x10", "1_0"] {
        assert_eq!(Decimal::from_text(String::from(text)), Err(String::from(text)));
        assert!(text.parse::<f64>().is_err(), "{}", text);
    }
}

#[test]
fn to_atom_accepts_float_text() {
    for text in ["1e5", "1E5", "5.", ".5", "+1", "-2.5e-3", "inf", "INF", "infinity", "nan"] {
        assert_eq!(to_atom(ScanState::Integer, String::from(text)), Ok(number(text)));
        assert_eq!(to_atom(ScanState::Floating, String::from(text)), Ok(number(text)));
    }
    assert_eq!(value(&number("1e5")), 100000.0);
    assert_eq!(value(&number("-2.5e-3")), -0.0025);
    assert!(value(&number("nan")).is_nan());
}

#[test]
fn canonical_text_of_float_only_number_is_not_read_back() {
    let text = to_text(&vec![number("1e5")]);
    assert_eq!(text, "1e5");
    assert_eq!(read(&text), Err(ReadError::InvalidNumber));
}

#[test]
fn error_messages() {
    assert_eq!(ReadError::InvalidAtom.message(), "Invalid atom");
    assert_eq!(ReadError::InvalidNumber.message(), "Invalid number");
    assert_eq!(ReadError::NumberFormat(String::from("x")).message(), "Cannot parse number");
    assert_eq!(ReadError::UnmatchedClose.message(), "Missing '('");
    assert_eq!(ReadError::UnmatchedOpen.message(), "Unmatched '('");
}
