use lvm::{
    ast::{E, NN},
    byte::{Env, I},
    err::LErrEnum,
    num::{FloatFact, FloatOp},
    parse::pf,
    vm::V,
};

/// Works out the floating-point result that the library asks for.
fn fact(op: FloatOp) -> FloatFact {
    match op {
        FloatOp::Divide { num, den } => {
            FloatFact::Quotient { num, den, bits: (f64::from(num) / f64::from(den)).to_bits() }
        }
        FloatOp::Floor { bits } => {
            FloatFact::Floor { bits, floor: f64::from_bits(bits).floor() as i32 }
        }
        FloatOp::Decimal { neg, digits, scale } => {
            let text = format!("{}{}e-{}", if neg { "-" } else { "" }, digits, scale);
            FloatFact::Decimal { neg, digits, scale, bits: text.parse::<f64>().unwrap().to_bits() }
        }
        FloatOp::Show { .. } => panic!("nothing is shown here"),
    }
}

/// Compiles and runs a line after the lines that left `env`.
fn eval_in(env: Env, source: &str) -> (Result<Option<NN>, LErrEnum>, Env, usize) {
    let mut floats: Vec<FloatFact> = Vec::new();
    let b = loop {
        match I::fstring_in(env.clone(), source, &floats) {
            Err(LErrEnum::FloatNeeded(op)) => floats.push(fact(op)),
            Err(e) => return (Err(e), env, 0),
            Ok(b) => break b,
        }
    };
    let mut vm = V::new(b);
    for f in &floats {
        vm.learn(*f);
    }
    loop {
        match vm.r() {
            Err(LErrEnum::FloatNeeded(op)) => vm.learn(fact(op)),
            Err(e) => return (Err(e), vm.env(), vm.s.len()),
            Ok(()) => return (Ok(vm.pop_last().cloned()), vm.env(), vm.s.len()),
        }
    }
}

fn eval(source: &str) -> Result<Option<NN>, LErrEnum> {
    eval_in(Env::new(), source).0
}

fn value(source: &str) -> NN {
    eval(source).unwrap().unwrap()
}

fn num(i: i32) -> NN {
    NN::nd(E::INT(i))
}

fn nums(xs: &[i32]) -> NN {
    NN::nd(E::LIST(xs.iter().map(|i| num(*i)).collect()))
}

fn assert_pop_last(source: &str, node: NN) {
    let none: Vec<FloatFact> = Vec::new();
    let byte_code = I::fstring(source, &none);
    let mut vm = V::new(byte_code.unwrap());
    vm.r().unwrap();
    assert_eq!(&node, vm.pop_last().unwrap());
}

#[test]
fn unary() {
    assert_pop_last("-2", NN::nd(E::INT(-2)));
}

#[test]
fn binary() {
    let none: Vec<FloatFact> = Vec::new();
    assert_pop_last("(+| 2 2)", pf("4", &none));
    assert_pop_last("(-| 1 2)", value("-1"));
}

#[test]
fn lists() {
    let none: Vec<FloatFact> = Vec::new();
    assert_pop_last("(!| 4)", pf("(0 1 2 3)", &none))
}

#[test]
fn combinator() {
    let none: Vec<FloatFact> = Vec::new();
    assert_pop_last("(+/!| 10)", pf("45", &none))
}

#[test]
fn hello_world() {
    let none: Vec<FloatFact> = Vec::new();
    assert_pop_last("\"hello world\"", pf("\"hello world\"", &none))
}

#[test]
fn negates_an_integer() {
    assert_eq!(value("(-| 2)"), num(-2));
}

#[test]
fn adds_two_integers() {
    assert_eq!(value("(+| 2 2)"), num(4));
}

#[test]
fn subtracts_right_from_left() {
    assert_eq!(value("(-| 1 2)"), num(-1));
}

#[test]
fn ranges_from_zero() {
    assert_eq!(value("(!| 4)"), nums(&[0, 1, 2, 3]));
    assert_eq!(value("(!| 0)"), nums(&[]));
    assert_eq!(value("(!| -3)"), nums(&[]));
}

#[test]
fn folds_a_range() {
    assert_eq!(value("(+/| (!| 10))"), num(45));
    assert_eq!(value("(+/!| 10)"), num(45));
    assert_eq!(value("(-/| (10 1 2))"), num(7));
    assert_eq!(value("(+/| (5))"), num(5));
}

#[test]
fn fold_of_nothing_fails() {
    assert!(matches!(eval("(+/| ())"), Err(LErrEnum::EmptyDomain(lvm::FN::Plus))));
    assert!(matches!(eval("(+/| 3)"), Err(LErrEnum::Type(lvm::FN::Plus))));
}

#[test]
fn list_literal_is_itself() {
    assert_eq!(value("(1 2 3)"), nums(&[1, 2, 3]));
}

#[test]
fn literals_come_back() {
    assert_eq!(value("7"), num(7));
    assert_eq!(value("-7"), num(-7));
    assert_eq!(value("\"a\"\"b\""), NN::nd(E::ST("a\"b".to_string())));
    assert_eq!(value("2.5"), NN::nd(E::FT(2.5f64.to_bits())));
    assert_eq!(value("((1 2) (3))"), NN::nd(E::LIST(vec![nums(&[1, 2]), nums(&[3])])));
    assert_eq!(value("()"), nums(&[]));
}

#[test]
fn truth_counts_as_an_integer() {
    assert_eq!(value("(=| 0)"), num(1));
    assert_eq!(value("(=| 5)"), num(0));
    assert_eq!(value("(=| 0)"), NN::nd(E::BOOL(true)));
    assert_ne!(value("(=| 0)"), num(2));
    assert_eq!(value("(=| (0 3 (0)))"), NN::nd(E::LIST(vec![num(1), num(0), nums(&[1])])));
}

#[test]
fn block_gives_its_last_value() {
    assert_eq!(value("(↻ (+| 1 2) (+| 3 4))"), num(7));
    assert_eq!(value("(↻ (: x 5) (+| x 3))"), num(8));
}

#[test]
fn binding_survives_the_line() {
    let (r, env, depth) = eval_in(Env::new(), "(: x 5)");
    assert_eq!(r.unwrap(), None);
    assert_eq!(depth, 0);
    let (r, _, _) = eval_in(env, "x");
    assert_eq!(r.unwrap(), Some(num(5)));
}

#[test]
fn binding_leaves_the_stack_alone() {
    let (r, env, depth) = eval_in(Env::new(), "(: x (+| (-| 4) (!| 3)))");
    assert!(matches!(r, Err(LErrEnum::Type(lvm::FN::Plus))));
    assert_eq!(env.lookup.get("x"), None);
    assert!(depth > 0);
    let (r, env, depth) = eval_in(Env::new(), "(: x (+| 2 (ρ| 1 7)))");
    assert!(matches!(r, Err(LErrEnum::Type(lvm::FN::Plus))));
    assert_eq!((env.lookup.get("x"), depth > 0), (None, true));
    let (r, env, depth) = eval_in(Env::new(), "(: x (+| 2 (-| 9 4)))");
    assert_eq!((r.unwrap(), depth), (None, 0));
    let at = env.lookup.get("x").unwrap() as usize;
    assert_eq!(at, env.var.len() - 1);
    assert_eq!(env.var[at], num(7));
}

#[test]
fn every_value_is_popped() {
    let (r, _, depth) = eval_in(Env::new(), "1 (+| 2 3) (-| 4) \"five\" (!| 6)");
    assert_eq!(r.unwrap(), Some(nums(&[0, 1, 2, 3, 4, 5])));
    assert_eq!(depth, 0);
}

#[test]
fn the_same_line_gives_the_same() {
    let (a, env_a, _) = eval_in(Env::new(), "(: x (+/!| 5)) (+| x 1)");
    let (b, env_b, _) = eval_in(Env::new(), "(: x (+/!| 5)) (+| x 1)");
    assert_eq!(a.unwrap(), b.unwrap());
    assert_eq!(env_a.var, env_b.var);
    assert_eq!(env_a.lookup.get("x"), env_b.lookup.get("x"));
    assert_eq!(env_a.lookup.entries.len(), env_b.lookup.entries.len());
}

#[test]
fn train_runs_from_the_right() {
    assert_eq!(value("(!-| -3)"), nums(&[0, 1, 2]));
    assert!(matches!(eval("(-!| -3)"), Err(LErrEnum::Type(lvm::FN::Minus))));
    assert_eq!(value("(=-| 0)"), num(1));
}

#[test]
fn dyadic_train_applies_the_rest_to_the_right() {
    assert_eq!(value("(+-| 10 3)"), num(7));
    assert_eq!(value("(ρ!:| (3 2) 6)"), NN::nd(E::LIST(vec![nums(&[0, 1, 2]), nums(&[3, 4, 5])])));
    assert_eq!(value("(-:| 10 3)"), num(-3));
}

#[test]
fn reshapes_a_range() {
    let want = NN::nd(E::LIST(vec![nums(&[0, 1, 2]), nums(&[3, 4, 5])]));
    assert_eq!(value("(ρ| (3 2) (!| 6))"), want);
}

#[test]
fn reshape_starts_the_source_over() {
    let want = NN::nd(E::LIST(vec![nums(&[1, 2]), nums(&[1, 2]), nums(&[1, 2])]));
    assert_eq!(value("(ρ| (2 3) (1 2))"), want);
    assert_eq!(value("(ρ| 5 (1 2))"), nums(&[1, 2, 1, 2, 1]));
    assert_eq!(value("(ρ| 3 9)"), nums(&[9, 9, 9]));
    assert_eq!(value("(ρ| 3)"), nums(&[0, 0, 0]));
    assert_eq!(value("(ρ| (2 0) 9)"), nums(&[]));
    assert_eq!(value("(ρ| (0 2) 9)"), NN::nd(E::LIST(vec![nums(&[]), nums(&[])])));
}

#[test]
fn reshape_rejects_a_bad_shape() {
    assert!(matches!(eval("(ρ| -1 9)"), Err(LErrEnum::Arithmetic(lvm::FN::Rho))));
    assert!(matches!(eval("(ρ| (2 -1) 9)"), Err(LErrEnum::Arithmetic(lvm::FN::Rho))));
    assert!(matches!(eval("(ρ| (100000 100000) 9)"), Err(LErrEnum::Arithmetic(lvm::FN::Rho))));
    assert!(matches!(eval("(ρ| \"a\" 9)"), Err(LErrEnum::Type(lvm::FN::Rho))));
    assert!(matches!(eval("(ρ| (2 \"a\") 9)"), Err(LErrEnum::Type(lvm::FN::Rho))));
    assert!(matches!(eval("(ρ| 2 ())"), Err(LErrEnum::EmptyDomain(lvm::FN::Rho))));
    assert_eq!(value("(ρ| 0 ())"), nums(&[]));
}

#[test]
fn reshape_to_an_empty_dimension() {
    let rows = match value("(ρ| (70000 0 70000) 1)").n {
        E::LIST(rows) => rows,
        other => panic!("a list was expected, not {:?}", other),
    };
    assert_eq!(rows.len(), 70000);
    assert!(rows.iter().all(|row| *row == nums(&[])));
    assert_eq!(value("(ρ| (70000 70000 0) 1)"), nums(&[]));
    assert_eq!(value("(ρ| (70000 70000 0) ())"), nums(&[]));
    assert_eq!(value("(ρ| (2147483647 2147483647 2147483647 0 2) 1)"), NN::nd(E::LIST(vec![nums(&[]), nums(&[])])));
    assert!(matches!(eval("(ρ| (0 70000 70000) 1)"), Err(LErrEnum::Arithmetic(lvm::FN::Rho))));
    assert!(matches!(eval("(ρ| (70000 70000) ())"), Err(LErrEnum::Arithmetic(lvm::FN::Rho))));
    assert!(matches!(eval("(ρ| (3 0 -1) 1)"), Err(LErrEnum::Arithmetic(lvm::FN::Rho))));
}

#[test]
fn calls_a_function() {
    assert_eq!(value("(: inc (λ (x) (+| x 1))) (inc| 41)"), num(42));
    assert_eq!(value("(: sub (λ (x y) (-| x y))) (sub| 10 3)"), num(7));
    assert_eq!(value("(: twice (λ (f x) (f f| x))) (: inc (λ (x) (+| x 1))) (twice| inc 5)"), num(7));
}

#[test]
fn function_keeps_what_it_saw() {
    let (_, env, _) = eval_in(Env::new(), "(: x 5)");
    let (_, env, _) = eval_in(env, "(: f (λ (y) (+| x y)))");
    let (r, env, _) = eval_in(env, "(f| 1)");
    assert_eq!(r.unwrap(), Some(num(6)));
    let (_, env, _) = eval_in(env, "(: x 100)");
    let (r, env, _) = eval_in(env, "(f| 1)");
    assert_eq!(r.unwrap(), Some(num(6)));
    let (r, _, _) = eval_in(env, "x");
    assert_eq!(r.unwrap(), Some(num(100)));
}

#[test]
fn function_of_two_keeps_what_it_saw() {
    let (_, env, _) = eval_in(Env::new(), "(: k 10)");
    let (_, env, _) = eval_in(env, "(: g (λ (a b) (-| (+| a k) b)))");
    let (r, env, _) = eval_in(env, "(g| 5 2)");
    assert_eq!(r.unwrap(), Some(num(13)));
    let (_, env, _) = eval_in(env, "(: k 0) (: a 7) (: b 9)");
    let (r, env, _) = eval_in(env, "(g| 5 2)");
    assert_eq!(r.unwrap(), Some(num(13)));
    let (r, _, _) = eval_in(env, "(g| 2 5)");
    assert_eq!(r.unwrap(), Some(num(7)));
}

#[test]
fn function_does_not_see_what_its_own_line_binds() {
    let r = eval("(: x 5) (: f (λ (y) (+| x y))) (f| 1)");
    assert!(matches!(r, Err(LErrEnum::Unbound)));
}

#[test]
fn function_gives_the_same_with_more_steps() {
    let (_, env, _) = eval_in(Env::new(), "(: x 5)");
    let (_, env, _) = eval_in(env, "(: f (λ (y) (+| x (-| y))))");
    let none: Vec<FloatFact> = Vec::new();
    let b = I::fstring_in(env, "(f| 2)", &none).unwrap();
    let mut tight = V::with_limits(b.clone(), 8, 1, 13);
    assert!(tight.r().is_ok());
    assert_eq!(tight.pop_last(), Some(&num(3)));
    let mut wide = V::with_limits(b.clone(), 8, 40, 4000);
    assert!(wide.r().is_ok());
    assert_eq!(wide.pop_last(), Some(&num(3)));
    let mut tired = V::with_limits(b.clone(), 8, 1, 12);
    assert!(matches!(tired.r(), Err(LErrEnum::Exhausted)));
    let mut flat = V::with_limits(b, 8, 0, 4000);
    assert!(matches!(flat.r(), Err(LErrEnum::Overflow)));
}

#[test]
fn line_leaves_other_names_alone() {
    let (_, env, _) = eval_in(Env::new(), "(: x 5) (: y (1 2 3))");
    let (_, env, _) = eval_in(env, "(: z (+| x 1)) (: x (↻ (: w 2) (-| w)))");
    let (r, env, _) = eval_in(env, "y");
    assert_eq!(r.unwrap(), Some(nums(&[1, 2, 3])));
    let (r, env, _) = eval_in(env, "x");
    assert_eq!(r.unwrap(), Some(num(-2)));
    let (r, env, _) = eval_in(env, "z");
    assert_eq!(r.unwrap(), Some(num(6)));
    let (r, _, _) = eval_in(env, "w");
    assert_eq!(r.unwrap(), Some(num(2)));
}

#[test]
fn call_checks_the_number_of_arguments() {
    assert!(matches!(eval("(: f (λ (x y) x)) (f| 1)"), Err(LErrEnum::Arity)));
    assert!(matches!(eval("(: f (λ (x) x)) (f| 1 2)"), Err(LErrEnum::Arity)));
    assert!(matches!(eval("(: f 3) (f| 1)"), Err(LErrEnum::NotCallable)));
    assert!(matches!(eval("(g| 1)"), Err(LErrEnum::Unbound)));
    assert!(matches!(eval("y"), Err(LErrEnum::Unbound)));
}

#[test]
fn calls_may_not_nest_without_end() {
    let r = eval("(: f (λ (g x) (g| g x))) (f| f 1)");
    assert!(matches!(r, Err(LErrEnum::Overflow)));
}

#[test]
fn division_asks_for_the_quotient() {
    let none: Vec<FloatFact> = Vec::new();
    let b = I::fstring("(÷| 4 1)", &none).unwrap();
    let mut vm = V::new(b);
    match vm.r() {
        Err(LErrEnum::FloatNeeded(FloatOp::Divide { num, den })) => {
            assert_eq!((num, den), (1, 4));
            vm.learn(fact(FloatOp::Divide { num, den }));
        }
        other => panic!("expected a request, got {:?}", other),
    }
    assert!(vm.error.is_some());
    vm.r().unwrap();
    assert!(vm.error.is_none());
    assert_eq!(vm.pop_last().unwrap(), &NN::nd(E::FT(0.25f64.to_bits())));
}

#[test]
fn divides_and_floors() {
    assert_eq!(value("(÷| 2 7)"), NN::nd(E::FT(3.5f64.to_bits())));
    assert_eq!(value("(_| 3.7)"), num(3));
    assert_eq!(value("(_| -3.2)"), num(-4));
    assert_eq!(value("(_| (÷| 2 7))"), num(3));
    assert_eq!(
        value("(÷| (2 4) (1 1))"),
        NN::nd(E::LIST(vec![NN::nd(E::FT(0.5f64.to_bits())), NN::nd(E::FT(0.25f64.to_bits()))]))
    );
    assert!(matches!(eval("(÷| 0 7)"), Err(LErrEnum::Arithmetic(lvm::FN::Div))));
    assert!(matches!(eval("(_| 3)"), Err(LErrEnum::Type(lvm::FN::Min))));
}

#[test]
fn arithmetic_of_the_primitives() {
    assert_eq!(value("(¯| 3 9)"), num(9));
    assert_eq!(value("(_| 3 9)"), num(3));
    assert_eq!(value("(!| 3 10)"), num(1));
    assert_eq!(value("(!| 3 -7)"), num(2));
    assert_eq!(value("(!| -3 7)"), num(-2));
    assert_eq!(value("(!| -3 -7)"), num(-1));
    assert_eq!(value("(+| (1 2 3) (10 20 30))"), nums(&[11, 22, 33]));
    assert_eq!(value("(+| ((1 2) 3) ((10 20) 30))"), NN::nd(E::LIST(vec![nums(&[11, 22]), num(33)])));
    assert_eq!(value("(¯| (=| 0) (=| 1))"), NN::nd(E::BOOL(true)));
    assert_eq!(value("(+| (=| 0) (=| 0))"), num(2));
    assert_eq!(value("(+| (=| 0) 5)"), num(6));
    assert_eq!(value("(&| (=| (0 1 0)) (7 8 9))"), nums(&[7, 9]));
    assert_eq!(value("(+\\| (1 2) 10)"), nums(&[11, 12]));
    assert_eq!(
        value("(+\\| (1 2) (10 20))"),
        NN::nd(E::LIST(vec![nums(&[11, 21]), nums(&[12, 22])]))
    );
}

#[test]
fn arithmetic_that_has_no_result() {
    assert!(matches!(eval("(!| 0 7)"), Err(LErrEnum::Arithmetic(lvm::FN::Bang))));
    assert!(matches!(eval("(+| 2147483647 1)"), Err(LErrEnum::Arithmetic(lvm::FN::Plus))));
    assert!(matches!(eval("(-| -2147483648)"), Err(LErrEnum::Arithmetic(lvm::FN::Minus))));
    assert!(matches!(eval("(+| (1 2) (1 2 3))"), Err(LErrEnum::Type(lvm::FN::Plus))));
    assert!(matches!(eval("(+| (1 2) 3)"), Err(LErrEnum::Type(lvm::FN::Plus))));
    assert!(matches!(eval("(+| \"a\" 3)"), Err(LErrEnum::Type(lvm::FN::Plus))));
    assert!(matches!(eval("(&| (1 2) (1 2 3))"), Err(LErrEnum::Type(lvm::FN::Amp))));
    assert!(matches!(eval("(×| 2 3)"), Err(LErrEnum::NotImplemented(lvm::FN::Mult))));
    assert!(matches!(eval("(×| 3)"), Err(LErrEnum::NotImplemented(lvm::FN::Mult))));
    assert!(matches!(eval("(+| 3)"), Err(LErrEnum::NotImplemented(lvm::FN::Plus))));
    assert!(matches!(eval("(=| 3 3)"), Err(LErrEnum::NotImplemented(lvm::FN::Eq))));
    assert!(matches!(eval("(+\\| 1 2)"), Err(LErrEnum::Type(lvm::FN::Plus))));
}

#[test]
fn failure_keeps_what_was_bound() {
    let (r, env, _) = eval_in(Env::new(), "(: x 5) (+| 1 \"a\")");
    assert!(matches!(r, Err(LErrEnum::Type(lvm::FN::Plus))));
    let (r, _, _) = eval_in(env, "x");
    assert_eq!(r.unwrap(), Some(num(5)));
}
