use lvm::{
    ast::{CN, E, FN, NN},
    err::LErrEnum,
    num::{FloatFact, FloatOp},
    parse::parse,
};

/// Reads a source; a number with a fraction is worked out here and handed
/// to the reader, which does no floating-point arithmetic itself.
fn read(input: &str) -> Result<Vec<NN>, LErrEnum> {
    let mut floats: Vec<FloatFact> = Vec::new();
    loop {
        match parse(input, &floats) {
            Err(LErrEnum::FloatNeeded(FloatOp::Decimal { neg, digits, scale })) => {
                let text = format!("{}{}e-{}", if neg { "-" } else { "" }, digits, scale);
                let bits = text.parse::<f64>().unwrap().to_bits();
                floats.push(FloatFact::Decimal { neg, digits, scale, bits });
            }
            other => return other,
        }
    }
}

fn parse_ok(input: &str) -> Vec<NN> {
    let p = read(input);
    assert!(p.is_ok(), "parse failed for '{}': {:?}", input, p.err());
    p.unwrap()
}

#[test]
fn parse_int() {
    let ast = parse_ok("42");
    assert_eq!(ast.len(), 1);
    assert_eq!(ast[0].n, E::INT(42));
}

#[test]
fn parse_negative_int() {
    let ast = parse_ok("-10");
    assert_eq!(ast.len(), 1);
    assert_eq!(ast[0].n, E::INT(-10));
}

#[test]
fn parse_float() {
    let ast = parse_ok("3.14");
    assert_eq!(ast.len(), 1);
    assert_eq!(ast[0].n, E::FT(3.14f64.to_bits()));
}

#[test]
fn parse_string() {
    let ast = parse_ok("\"hello\"");
    assert_eq!(ast.len(), 1);
    assert_eq!(ast[0].n, E::ST("hello".to_string()));
}

#[test]
fn parse_monadic_apply() {
    let ast = parse_ok("(-| 5)");
    assert_eq!(ast.len(), 1);
    match &ast[0].n {
        E::APPLY { train, args } => {
            assert_eq!(train.len(), 1);
            assert_eq!(train[0].n, E::MFN(FN::Minus));
            assert_eq!(args.len(), 1);
            assert_eq!(args[0].n, E::INT(5));
        }
        other => panic!("expected APPLY, got {:?}", other),
    }
}

#[test]
fn parse_dyadic_apply() {
    let ast = parse_ok("(+| 1 2)");
    assert_eq!(ast.len(), 1);
    match &ast[0].n {
        E::APPLY { train, args } => {
            assert_eq!(train.len(), 1);
            assert_eq!(train[0].n, E::MFN(FN::Plus));
            assert_eq!(args.len(), 2);
            assert_eq!(args[0].n, E::INT(1));
            assert_eq!(args[1].n, E::INT(2));
        }
        other => panic!("expected APPLY, got {:?}", other),
    }
}

#[test]
fn parse_train() {
    let ast = parse_ok("(+/!| 10)");
    assert_eq!(ast.len(), 1);
    match &ast[0].n {
        E::APPLY { train, args } => {
            assert_eq!(train.len(), 2);
            match &train[0].n {
                E::MCO { o, co } => {
                    assert_eq!(o.n, E::MFN(FN::Plus));
                    assert_eq!(co.n, E::CN(CN::Fold));
                }
                other => panic!("expected MCO, got {:?}", other),
            }
            assert_eq!(train[1].n, E::MFN(FN::Bang));
            assert_eq!(args.len(), 1);
            assert_eq!(args[0].n, E::INT(10));
        }
        other => panic!("expected APPLY, got {:?}", other),
    }
}

#[test]
fn parse_list_literal() {
    let ast = parse_ok("(1 2 3)");
    assert_eq!(ast.len(), 1);
    match &ast[0].n {
        E::LIST(elems) => {
            assert_eq!(elems.len(), 3);
            assert_eq!(elems[0].n, E::INT(1));
            assert_eq!(elems[1].n, E::INT(2));
            assert_eq!(elems[2].n, E::INT(3));
        }
        other => panic!("expected LIST, got {:?}", other),
    }
}

#[test]
fn parse_nested_list() {
    let ast = parse_ok("((1 2) (3 4))");
    assert_eq!(ast.len(), 1);
    match &ast[0].n {
        E::LIST(rows) => {
            assert_eq!(rows.len(), 2);
            match &rows[0].n {
                E::LIST(r) => {
                    assert_eq!(r.len(), 2);
                    assert_eq!(r[0].n, E::INT(1));
                    assert_eq!(r[1].n, E::INT(2));
                }
                other => panic!("expected inner LIST, got {:?}", other),
            }
        }
        other => panic!("expected LIST, got {:?}", other),
    }
}

#[test]
fn parse_lambda() {
    let ast = parse_ok("(λ (x) (+| x 1))");
    assert_eq!(ast.len(), 1);
    match &ast[0].n {
        E::LAMBDA { params, body } => {
            assert_eq!(params, &vec!["x".to_string()]);
            assert_eq!(body.len(), 1);
        }
        other => panic!("expected LAMBDA, got {:?}", other),
    }
}

#[test]
fn parse_doblock() {
    let ast = parse_ok("(↻ (: x 5) (+| x 3))");
    assert_eq!(ast.len(), 1);
    match &ast[0].n {
        E::DOBLOCK(exprs) => {
            assert_eq!(exprs.len(), 2);
            match &exprs[0].n {
                E::ASEXP { name, rhs } => {
                    assert_eq!(name, "x");
                    assert_eq!(rhs.n, E::INT(5));
                }
                other => panic!("expected ASEXP, got {:?}", other),
            }
        }
        other => panic!("expected DOBLOCK, got {:?}", other),
    }
}

#[test]
fn parse_assign() {
    let ast = parse_ok("(: x 42)");
    assert_eq!(ast.len(), 1);
    match &ast[0].n {
        E::ASEXP { name, rhs } => {
            assert_eq!(name, "x");
            assert_eq!(rhs.n, E::INT(42));
        }
        other => panic!("expected ASEXP, got {:?}", other),
    }
}

#[test]
fn parse_comment() {
    let ast = parse_ok("; this is a comment\n42");
    assert_eq!(ast.len(), 1);
    assert_eq!(ast[0].n, E::INT(42));
}

#[test]
fn parse_spans_count_characters() {
    let ast = parse_ok("(ρ!:| (3 2) 6)");
    assert_eq!((ast[0].start, ast[0].end), (0, 14));
    match &ast[0].n {
        E::APPLY { train, args } => {
            assert_eq!(train[0].n, E::MFN(FN::Rho));
            assert_eq!(train[1].n, E::MOP(FN::Bang));
            assert_eq!((train[1].start, train[1].end), (2, 4));
            assert_eq!((args[0].start, args[0].end), (6, 11));
            assert_eq!(args[1].n, E::INT(6));
        }
        other => panic!("expected APPLY, got {:?}", other),
    }
}

#[test]
fn parse_doubled_quote() {
    let ast = parse_ok("\"say \"\"hi\"\"\"");
    assert_eq!(ast[0].n, E::ST("say \"hi\"".to_string()));
}

#[test]
fn parse_rejects_what_is_no_expression() {
    assert!(matches!(read("(+| 1"), Err(LErrEnum::ExprExpected)));
    assert!(matches!(read(")"), Err(LErrEnum::TermExpected(_))));
    assert!(matches!(read("#"), Err(LErrEnum::Standard(_))));
    assert!(matches!(read("\"open"), Err(LErrEnum::Standard(_))));
    assert!(matches!(read("99999999999"), Err(LErrEnum::IntExpected(_))));
    assert!(matches!(read("99999999999999999999999"), Err(LErrEnum::IntExpected(_))));
    assert!(matches!(read("(λ x 1)"), Err(LErrEnum::ValueExpected(_))));
    assert!(matches!(read("(: 1 2)"), Err(LErrEnum::ValueExpected(_))));
}

#[test]
fn parse_by_the_reader() {
    let none: Vec<FloatFact> = Vec::new();
    assert_eq!(lvm::LP::parse("(1 2)", &none).unwrap(), parse("(1 2)", &none).unwrap());
    assert_eq!(lvm::pf("7 8", &none), NN::nd(E::INT(7)));
}

#[test]
fn parse_asks_for_a_fraction() {
    let none: Vec<FloatFact> = Vec::new();
    match parse("-2.50", &none) {
        Err(LErrEnum::FloatNeeded(FloatOp::Decimal { neg, digits, scale })) => {
            assert_eq!((neg, digits, scale), (true, 250, 2));
        }
        other => panic!("expected a request, got {:?}", other),
    }
    assert_eq!(parse_ok("-2.50")[0].n, E::FT((-2.5f64).to_bits()));
}

#[test]
fn parse_integers_at_their_ends() {
    assert_eq!(parse_ok("2147483647")[0].n, E::INT(2147483647));
    assert_eq!(parse_ok("-2147483648")[0].n, E::INT(-2147483648));
    assert!(matches!(read("2147483648"), Err(LErrEnum::IntExpected(_))));
    assert!(matches!(read("-2147483649"), Err(LErrEnum::IntExpected(_))));
    match read("18446744073709551616") {
        Err(LErrEnum::IntExpected(e)) => {
            assert_eq!((e.error.as_str(), e.start, e.end), ("18446744073709551616", 0, 20))
        }
        other => panic!("expected a number too large, got {:?}", other),
    }
    assert!(matches!(read("0.18446744073709551616"), Err(LErrEnum::FloatExpected(_))));
    assert_eq!(parse_ok("007")[0].n, E::INT(7));
    assert_eq!(parse_ok("1.50")[0].n, E::FT(1.5f64.to_bits()));
    assert_eq!(parse_ok("(-| 1 -2)").len(), 1);
}

#[test]
fn parse_tells_apart_trains_and_lists() {
    assert!(matches!(parse_ok("(f| 1)")[0].n, E::APPLY { .. }));
    assert!(matches!(parse_ok("(f g | 1)")[0].n, E::APPLY { .. }));
    assert!(matches!(parse_ok("(f g)")[0].n, E::LIST(_)));
    assert!(matches!(parse_ok("()")[0].n, E::LIST(_)));
    assert!(matches!(parse_ok("(| 1)")[0].n, E::APPLY { .. }));
    match &parse_ok("(/+ f| 1)")[0].n {
        E::APPLY { train, .. } => {
            assert_eq!(train[0].n, E::CN(CN::Fold));
            assert_eq!(train[1].n, E::MFN(FN::Plus));
            assert_eq!(train[2].n, E::FVAL("f".to_string()));
        }
        other => panic!("expected APPLY, got {:?}", other),
    }
    assert_eq!(parse_ok("1 2\n; rest\n(3)").len(), 3);
}
