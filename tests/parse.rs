use formula::lexer::{chars_of, tokenize, Tok};
use formula::parser::{binding, expr, Assoc};
use formula::{parse, Comp, ErrorKind, Expr, Fml, Op, Quant};

fn num(n: i64) -> Expr {
    Expr::Num(n)
}

fn var(x: &str) -> Expr {
    Expr::Var(x.to_owned())
}

fn bin(op: Op, l: Expr, r: Expr) -> Expr {
    Expr::Op {
        op,
        l: Box::new(l),
        r: Box::new(r),
    }
}

// 123 + 456 + x > y^2
fn fml1() -> Fml {
    Fml::Prim {
        comp: Comp::Gt,
        l: bin(Op::Add, bin(Op::Add, num(123), num(456)), var("x")),
        r: bin(Op::Pow, var("y"), num(2)),
    }
}

fn lhs_of(s: &str) -> Expr {
    match parse(s).unwrap() {
        Fml::Prim { l, .. } => l,
        other => panic!("not a comparison: {:?}", other),
    }
}

#[test]
fn test_parse_fml() {
    let actual_fml = parse("123 + 456 + x > y^2").unwrap();
    let expected_fml = fml1();
    assert_eq!(actual_fml, expected_fml);
}

#[test]
fn test_parse_fml_with_quants() {
    let actual_fml = parse("(A y) 123 + 456 + x > y^2").unwrap();
    let expected_fml = Fml::Quant {
        quant: Quant::Forall,
        var: "y".to_owned(),
        inner: Box::new(fml1()),
    };
    assert_eq!(actual_fml, expected_fml);
}

#[test]
fn multiplication_binds_tighter_than_addition() {
    assert_eq!(
        lhs_of("1 + 2 * 3 = 0"),
        bin(Op::Add, num(1), bin(Op::Mul, num(2), num(3)))
    );
    assert_eq!(
        lhs_of("1 * 2 + 3 = 0"),
        bin(Op::Add, bin(Op::Mul, num(1), num(2)), num(3))
    );
    assert_eq!(
        lhs_of("a - b ^ c = 0"),
        bin(Op::Sub, var("a"), bin(Op::Pow, var("b"), var("c")))
    );
}

#[test]
fn subtraction_groups_left() {
    assert_eq!(
        lhs_of("1 - 2 - 3 = 0"),
        bin(Op::Sub, bin(Op::Sub, num(1), num(2)), num(3))
    );
    assert_eq!(
        lhs_of("1 - 2 + 3 = 0"),
        bin(Op::Add, bin(Op::Sub, num(1), num(2)), num(3))
    );
}

#[test]
fn power_groups_right() {
    assert_eq!(
        lhs_of("2 ^ 3 ^ 4 = 0"),
        bin(Op::Pow, num(2), bin(Op::Pow, num(3), num(4)))
    );
}

#[test]
fn parentheses_group() {
    assert_eq!(
        lhs_of("(1 + 2) * 3 = 0"),
        bin(Op::Mul, bin(Op::Add, num(1), num(2)), num(3))
    );
    assert_eq!(
        lhs_of("((x)) = 0"),
        var("x")
    );
}

#[test]
fn quantifiers_nest_in_source_order() {
    let expected = Fml::Quant {
        quant: Quant::Forall,
        var: "y".to_owned(),
        inner: Box::new(Fml::Quant {
            quant: Quant::Exists,
            var: "x".to_owned(),
            inner: Box::new(Fml::Prim {
                comp: Comp::Eq,
                l: var("x"),
                r: var("y"),
            }),
        }),
    };
    assert_eq!(parse("(A y) (E x) x = y").unwrap(), expected);
}

#[test]
fn all_six_relations() {
    let cases = [
        ("x = y", Comp::Eq),
        ("x /= y", Comp::Ne),
        ("x < y", Comp::Lt),
        ("x > y", Comp::Gt),
        ("x <= y", Comp::Le),
        ("x >= y", Comp::Ge),
    ];
    for (text, comp) in cases {
        let expected = Fml::Prim {
            comp,
            l: var("x"),
            r: var("y"),
        };
        assert_eq!(parse(text).unwrap(), expected);
    }
}

#[test]
fn relation_symbols() {
    assert_eq!(Comp::Eq.symbol(), "=");
    assert_eq!(Comp::Ne.symbol(), "/=");
    assert_eq!(Comp::Lt.symbol(), "<");
    assert_eq!(Comp::Gt.symbol(), ">");
    assert_eq!(Comp::Le.symbol(), "<=");
    assert_eq!(Comp::Ge.symbol(), ">=");
}

#[test]
fn identifiers_keep_their_text() {
    assert_eq!(
        parse("foo_1 = Bar2").unwrap(),
        Fml::Prim {
            comp: Comp::Eq,
            l: var("foo_1"),
            r: var("Bar2"),
        }
    );
}

#[test]
fn quantifier_letter_as_variable() {
    assert_eq!(
        parse("(A + 1) = E").unwrap(),
        Fml::Prim {
            comp: Comp::Eq,
            l: bin(Op::Add, var("A"), num(1)),
            r: var("E"),
        }
    );
}

#[test]
fn largest_literal() {
    assert_eq!(lhs_of("9223372036854775807 = 0"), num(i64::MAX));
}

#[test]
fn literal_too_large() {
    let e = parse("x = 9223372036854775808").unwrap_err();
    assert_eq!(e.kind, ErrorKind::NumberTooLarge);
    assert_eq!(e.pos, 4);
}

#[test]
fn dangling_operator() {
    let e = parse("1 + 2 >").unwrap_err();
    assert_eq!(e.kind, ErrorKind::ExpectedOperand);
    assert_eq!(e.pos, 7);
    let e = parse("1 + > 2").unwrap_err();
    assert_eq!(e.kind, ErrorKind::ExpectedOperand);
    assert_eq!(e.pos, 4);
}

#[test]
fn unmatched_parenthesis() {
    let e = parse("(1 + 2 = 3").unwrap_err();
    assert_eq!(e.kind, ErrorKind::ExpectedCloseParen);
    assert_eq!(e.pos, 7);
}

#[test]
fn missing_comparison() {
    let e = parse("1 + 2").unwrap_err();
    assert_eq!(e.kind, ErrorKind::ExpectedComparison);
    assert_eq!(e.pos, 5);
}

#[test]
fn trailing_input() {
    let e = parse("x = y z").unwrap_err();
    assert_eq!(e.kind, ErrorKind::TrailingInput);
    assert_eq!(e.pos, 6);
}

#[test]
fn unexpected_character() {
    let e = parse("x = y % 2").unwrap_err();
    assert_eq!(e.kind, ErrorKind::UnexpectedChar);
    assert_eq!(e.pos, 6);
    let e = parse("x / y = 2").unwrap_err();
    assert_eq!(e.kind, ErrorKind::UnexpectedChar);
    assert_eq!(e.pos, 2);
}

#[test]
fn empty_input() {
    let e = parse("").unwrap_err();
    assert_eq!(e.kind, ErrorKind::ExpectedOperand);
    assert_eq!(e.pos, 0);
    assert!(!e.describe().is_empty());
}

#[test]
fn tokens_carry_offsets() {
    let s = "(E n)  n<=12";
    let cs = chars_of(s);
    let (toks, offs) = tokenize(s, &cs).unwrap();
    assert_eq!(
        toks,
        vec![
            Tok::LParen,
            Tok::Ident("E".to_owned()),
            Tok::Ident("n".to_owned()),
            Tok::RParen,
            Tok::Ident("n".to_owned()),
            Tok::Rel(Comp::Le),
            Tok::Num(12),
        ]
    );
    assert_eq!(offs, vec![0, 1, 3, 4, 7, 8, 10]);
}

#[test]
fn expression_reducer_stops_at_weaker_operator() {
    let toks = vec![
        Tok::Num(1),
        Tok::Bin(Op::Mul),
        Tok::Num(2),
        Tok::Bin(Op::Add),
        Tok::Num(3),
    ];
    let (e, next) = expr(&toks, 0, 2).unwrap();
    assert_eq!(e, bin(Op::Mul, num(1), num(2)));
    assert_eq!(next, 3);
}

#[test]
fn precedence_table() {
    assert_eq!(binding(Op::Add), (1, Assoc::Left));
    assert_eq!(binding(Op::Sub), (1, Assoc::Left));
    assert_eq!(binding(Op::Mul), (2, Assoc::Left));
    assert_eq!(binding(Op::Pow), (3, Assoc::Right));
}

#[test]
fn fully_parenthesised_text_reads_back() {
    let tree = bin(
        Op::Sub,
        bin(Op::Sub, num(1), bin(Op::Pow, var("a"), num(2))),
        bin(Op::Mul, var("b"), bin(Op::Add, num(3), var("c"))),
    );
    assert_eq!(lhs_of("((1 - (a ^ 2)) - (b * (3 + c))) = 0"), tree);
    assert_eq!(lhs_of("1 - a ^ 2 - b * (3 + c) = 0"), tree);
}

#[test]
fn clone_is_deep_and_equal() {
    let f = parse("(E k) (A y) k * (y + 1) /= 2 ^ k").unwrap();
    let g = f.clone();
    assert_eq!(f, g);
    let e = lhs_of("a - (b - c) = 0");
    assert_eq!(e.clone(), e);
}

#[test]
fn error_descriptions() {
    let e = parse("1 + 2").unwrap_err();
    assert_eq!(e.describe(), "expected one of `=`, `/=`, `<`, `>`, `<=`, `>=`");
    let e = parse("x = y z").unwrap_err();
    assert_eq!(e.describe(), "expected end of input");
    let e = parse("(x = y").unwrap_err();
    assert_eq!(e.describe(), "expected `)`");
}

#[test]
fn long_left_chain() {
    assert_eq!(
        lhs_of("1 - 2 + 3 - 4 = 0"),
        bin(
            Op::Sub,
            bin(Op::Add, bin(Op::Sub, num(1), num(2)), num(3)),
            num(4)
        )
    );
    assert_eq!(
        lhs_of("a * b * c * d = 0"),
        bin(
            Op::Mul,
            bin(Op::Mul, bin(Op::Mul, var("a"), var("b")), var("c")),
            var("d")
        )
    );
}

#[test]
fn long_power_chain() {
    assert_eq!(
        lhs_of("2 ^ 3 ^ 4 ^ 5 = 0"),
        bin(
            Op::Pow,
            num(2),
            bin(Op::Pow, num(3), bin(Op::Pow, num(4), num(5)))
        )
    );
}

#[test]
fn prefix_added_to_accepted_text() {
    let s = "x * 2 <= y";
    let inner = parse(s).unwrap();
    let f = parse(&format!("(E v1) {}", s)).unwrap();
    assert_eq!(
        f,
        Fml::Quant {
            quant: Quant::Exists,
            var: "v1".to_owned(),
            inner: Box::new(inner),
        }
    );
}

#[test]
fn three_prefixes_in_order() {
    let f = parse("(E a) (A b) (E c) a + b = c").unwrap();
    let body = Fml::Prim {
        comp: Comp::Eq,
        l: bin(Op::Add, var("a"), var("b")),
        r: var("c"),
    };
    let expected = Fml::Quant {
        quant: Quant::Exists,
        var: "a".to_owned(),
        inner: Box::new(Fml::Quant {
            quant: Quant::Forall,
            var: "b".to_owned(),
            inner: Box::new(Fml::Quant {
                quant: Quant::Exists,
                var: "c".to_owned(),
                inner: Box::new(body),
            }),
        }),
    };
    assert_eq!(f, expected);
}
