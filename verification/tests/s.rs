use lvm::{
    ast::{CN, E, FN, NN},
    err::{err, LErr, LErrEnum},
    num::{FloatOp, FloatText},
    show::{fmt_list, gen_sep, put_int, put_nat, show},
};

fn num(i: i32) -> NN {
    NN::nd(E::INT(i))
}

fn nums(xs: &[i32]) -> NN {
    NN::nd(E::LIST(xs.iter().map(|i| num(*i)).collect()))
}

fn text(n: &NN) -> String {
    show(n, &Vec::new()).unwrap()
}

#[test]
fn shows_scalars() {
    assert_eq!(text(&num(0)), "0");
    assert_eq!(text(&num(42)), "42");
    assert_eq!(text(&num(-2147483648)), "-2147483648");
    assert_eq!(text(&NN::nd(E::BOOL(true))), "1");
    assert_eq!(text(&NN::nd(E::BOOL(false))), "0");
    assert_eq!(text(&NN::nd(E::ST("hi".to_string()))), "\"hi\"");
    assert_eq!(text(&NN::nd(E::VAL("x".to_string()))), "x");
}

#[test]
fn shows_a_number_with_a_fraction_from_the_table() {
    let half = NN::nd(E::FT(0.5f64.to_bits()));
    match show(&half, &Vec::new()) {
        Err(LErrEnum::FloatNeeded(FloatOp::Show { bits })) => assert_eq!(bits, 0.5f64.to_bits()),
        other => panic!("expected a request, got {:?}", other),
    }
    let texts = vec![FloatText { bits: 0.5f64.to_bits(), text: format!("{}", 0.5f64) }];
    assert_eq!(show(&half, &texts).unwrap(), "0.5");
    let list = NN::nd(E::LIST(vec![num(1), half]));
    assert_eq!(show(&list, &texts).unwrap(), "1 0.5");
}

#[test]
fn shows_what_was_read() {
    let none = Vec::new();
    for source in ["(+/!:f| 1 2)", "(: x (λ (a b) (-| a b)))", "(↻ 1 \"two\" x)", "(ρ| x)"] {
        let ast = lvm::parse(source, &none).unwrap();
        assert_eq!(text(&ast[0]), source);
    }
}

#[test]
fn shows_lists() {
    assert_eq!(text(&nums(&[])), "()");
    assert_eq!(text(&nums(&[1, 2, 3])), "1 2 3");
    let grid = NN::nd(E::LIST(vec![nums(&[1, 20, 3]), nums(&[400, 5])]));
    assert_eq!(text(&grid), "  1 20 3\n400  5");
    let mixed = NN::nd(E::LIST(vec![nums(&[1, 2]), num(3)]));
    assert_eq!(text(&mixed), "1 2 3");
}

#[test]
fn shows_forms() {
    let train = vec![
        NN::nd(E::MCO { o: NN::ndb(E::MFN(FN::Plus)), co: NN::ndb(E::CN(CN::Fold)) }),
        NN::nd(E::MOP(FN::Bang)),
        NN::nd(E::FVAL("f".to_string())),
    ];
    let apply = NN::nd(E::APPLY { train, args: vec![num(1), nums(&[2, 3])] });
    assert_eq!(text(&apply), "(+/!:f| 1 2 3)");
    let bind = NN::nd(E::ASEXP { name: "x".to_string(), rhs: NN::ndb(E::INT(5)) });
    assert_eq!(text(&bind), "(: x 5)");
    let block = NN::nd(E::DOBLOCK(vec![bind, num(2)]));
    assert_eq!(text(&block), "(↻ (: x 5) 2)");
    let f = NN::nd(E::LAMBDA { params: vec!["a".to_string(), "b".to_string()], body: vec![num(1)] });
    assert_eq!(text(&f), "(λ (a b) 1)");
    let value = NN::nd(E::UFNV { arity: 2, ops: vec![], consts: vec![] });
    assert_eq!(text(&value), "λ/2");
    assert_eq!(text(&NN::nd(E::CN(CN::ScanL))), "\\");
    assert_eq!(text(&NN::nd(E::DFN(FN::Rho))), "ρ");
}

#[test]
fn lays_out_a_grid() {
    let rows = vec![
        vec!["a".to_string(), "bbb".to_string()],
        vec!["cc".to_string()],
        vec!["d".to_string(), "e".to_string(), "f".to_string()],
    ];
    assert_eq!(fmt_list(&rows), " a bbb\ncc\n d   e f");
    assert_eq!(fmt_list(&Vec::new()), "");
}

#[test]
fn appends_with_a_separator() {
    let none = Vec::new();
    assert_eq!(gen_sep(";", "", &num(1), &none).unwrap(), "1");
    assert_eq!(gen_sep(";", "1", &num(2), &none).unwrap(), "1;2");
}

#[test]
fn words_each_failure() {
    let at = |t: &str| LErr { error: t.to_string(), start: 3, end: 4 };
    assert_eq!(err("x", 3, 14).message(), "x, 3.14");
    assert_eq!(LErrEnum::Standard(at("#")).message(), "Error during runtime #.");
    assert_eq!(LErrEnum::TrainExpected(at("1")).message(), "Expected Train element here got 1");
    assert_eq!(LErrEnum::FnExpected(at("/")).message(), "Expected Function element here got /");
    assert_eq!(LErrEnum::TermExpected(at(")")).message(), "Expected Term element here got )");
    assert_eq!(LErrEnum::ValueExpected(at("y")).message(), "Expected Value here got y");
    assert_eq!(LErrEnum::MonadicFunctionExpected.message(), "Expected Monadic function here");
    assert_eq!(LErrEnum::ExprExpected.message(), "Expected Expression here");
    assert_eq!(LErrEnum::IntExpected(at("9")).message(), "Expected Int here: 9");
    assert_eq!(LErrEnum::FloatExpected(at("9.9")).message(), "Expected Float here: 9.9");
    assert_eq!(LErrEnum::Type(FN::Div).message(), "÷: values of a kind it does not take");
    assert_eq!(LErrEnum::NotImplemented(FN::Mult).message(), "×: not implemented");
    assert_eq!(LErrEnum::Arithmetic(FN::Bang).message(), "!: no such number");
    assert_eq!(LErrEnum::EmptyDomain(FN::Plus).message(), "+: nothing to work on");
    assert_eq!(LErrEnum::Nothing.message(), "None returned");
    assert_eq!(LErrEnum::Underflow.message(), "Stack underflow");
    assert_eq!(LErrEnum::Overflow.message(), "Stack overflow");
    assert_eq!(LErrEnum::Arity.message(), "Wrong number of arguments");
    assert_eq!(LErrEnum::Unbound.message(), "Name without a value");
    assert_eq!(LErrEnum::NotCallable.message(), "Expected Function value here");
    assert_eq!(LErrEnum::BadCode.message(), "Code that is no program");
    assert_eq!(LErrEnum::Exhausted.message(), "Out of steps");
    let ask = LErrEnum::FloatNeeded(FloatOp::Floor { bits: 0 });
    assert_eq!(ask.clone().message(), "Floating-point result needed");
}

#[test]
fn numerals_of_the_widest_integers() {
    let mut out = String::from("x");
    put_int(&mut out, i64::MIN);
    assert_eq!(out, "x-9223372036854775808");
    let mut out = String::new();
    put_int(&mut out, i64::MAX);
    assert_eq!(out, "9223372036854775807");
    let mut out = String::new();
    put_int(&mut out, -1);
    put_int(&mut out, 0);
    assert_eq!(out, "-10");
    let mut out = String::new();
    put_nat(&mut out, u64::MAX);
    assert_eq!(out, "18446744073709551615");
    assert_eq!(text(&num(i32::MIN)), "-2147483648");
}
