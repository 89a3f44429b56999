use lvm::{
    ast::{bool_to_int, copy_node, float_eq, oc, od, om, CN, E, FN, NN},
    num::{find_decimal, find_floor, find_quotient, FloatFact},
    prim::{dyadic, fold, monadic, scan},
    do_amp, do_conversion, do_mathdiv, do_mathmod, do_max, do_min, do_minus, do_plus, do_rho,
    do_temp, mo_bang, mo_eq, mo_min, mo_minus, mo_rho, mo_temp, LErrEnum,
};

fn num(i: i32) -> NN {
    NN::nd(E::INT(i))
}

fn nums(xs: &[i32]) -> NN {
    NN::nd(E::LIST(xs.iter().map(|i| num(*i)).collect()))
}

fn truth(b: bool) -> NN {
    NN::nd(E::BOOL(b))
}

#[test]
fn nodes_are_equal_whatever_their_span() {
    assert_eq!(NN::new(3, 9, E::INT(1)), num(1));
    assert_eq!(truth(true), num(1));
    assert_eq!(num(0), truth(false));
    assert_ne!(truth(true), num(0));
    assert_eq!(nums(&[1, 0]), NN::nd(E::LIST(vec![truth(true), truth(false)])));
    assert_ne!(nums(&[1, 0]), nums(&[1]));
    assert_ne!(NN::nd(E::ST("1".to_string())), num(1));
    assert_ne!(NN::nd(E::VAL("x".to_string())), NN::nd(E::FVAL("x".to_string())));
    assert_eq!(E::ASEXP { name: "x".into(), rhs: NN::ndb(E::INT(1)) }, E::ASEXP { name: "x".into(), rhs: NN::ndb(E::BOOL(true)) });
    assert_eq!(copy_node(&nums(&[1, 2])), nums(&[1, 2]));
    assert_eq!(NN::ndv(E::INT(1)), vec![num(1)]);
    assert_eq!((om(FN::Plus), od(FN::Plus), oc(CN::Fold)), (E::MFN(FN::Plus), E::DFN(FN::Plus), E::CN(CN::Fold)));
    assert_eq!((bool_to_int(true), bool_to_int(false)), (1, 0));
}

#[test]
fn numbers_with_fractions_are_equal_as_numbers() {
    let bits = |x: f64| x.to_bits();
    assert!(float_eq(bits(1.5), bits(1.5)));
    assert!(!float_eq(bits(1.5), bits(2.5)));
    assert!(float_eq(bits(0.0), bits(-0.0)));
    assert!(!float_eq(bits(f64::NAN), bits(f64::NAN)));
    assert!(float_eq(bits(f64::INFINITY), bits(f64::INFINITY)));
    assert!(!float_eq(bits(f64::INFINITY), bits(f64::NEG_INFINITY)));
    assert_eq!(NN::nd(E::FT(bits(0.0))), NN::nd(E::FT(bits(-0.0))));
    assert_ne!(NN::nd(E::FT(bits(f64::NAN))), NN::nd(E::FT(bits(f64::NAN))));
}

#[test]
fn table_gives_the_first_fact() {
    let table = vec![
        FloatFact::Quotient { num: 1, den: 2, bits: 10 },
        FloatFact::Floor { bits: 10, floor: 0 },
        FloatFact::Quotient { num: 1, den: 2, bits: 11 },
        FloatFact::Decimal { neg: false, digits: 5, scale: 1, bits: 10 },
    ];
    assert_eq!(find_quotient(&table, 1, 2), Some(10));
    assert_eq!(find_quotient(&table, 2, 1), None);
    assert_eq!(find_floor(&table, 10), Some(0));
    assert_eq!(find_floor(&table, 11), None);
    assert_eq!(find_decimal(&table, false, 5, 1), Some(10));
    assert_eq!(find_decimal(&table, true, 5, 1), None);
}

#[test]
fn primitives_by_name() {
    assert_eq!(do_plus(&num(2), &num(3)).unwrap(), num(5));
    assert_eq!(do_minus(&num(2), &num(3)).unwrap(), num(-1));
    assert_eq!(do_max(&num(2), &num(3)).unwrap(), num(3));
    assert_eq!(do_max(&truth(false), &truth(false)).unwrap(), truth(false));
    assert_eq!(do_max(&truth(false), &num(0)).unwrap(), num(0));
    assert_eq!(do_min(&num(2), &num(3)).unwrap(), num(2));
    assert_eq!(do_min(&truth(true), &truth(false)).unwrap(), num(0));
    assert_eq!(do_mathmod(&num(3), &num(10)).unwrap(), num(1));
    assert_eq!(do_amp(&NN::nd(E::LIST(vec![truth(true), num(1), truth(false)])), &nums(&[4, 5, 6])).unwrap(), nums(&[4]));
    assert_eq!(do_rho(&num(2), &nums(&[7])).unwrap(), nums(&[7, 7]));
    assert_eq!(mo_rho(&nums(&[2, 1])).unwrap(), NN::nd(E::LIST(vec![nums(&[0, 0])])));
    assert_eq!(mo_minus(&num(5)).unwrap(), num(-5));
    assert_eq!(mo_bang(&num(3)).unwrap(), nums(&[0, 1, 2]));
    assert_eq!(mo_eq(&num(0)).unwrap(), truth(true));
    assert!(matches!(mo_eq(&truth(true)), Err(LErrEnum::Type(FN::Eq))));
    assert!(matches!(mo_minus(&truth(true)), Err(LErrEnum::Type(FN::Minus))));
    assert!(matches!(mo_bang(&nums(&[1])), Err(LErrEnum::Type(FN::Bang))));
    assert!(matches!(mo_temp(FN::Amp, &num(1)), Err(LErrEnum::NotImplemented(FN::Amp))));
    assert!(matches!(do_temp(FN::Eq, &num(1), &num(1)), Err(LErrEnum::NotImplemented(FN::Eq))));
    let floats = vec![FloatFact::Quotient { num: 3, den: 4, bits: 0.75f64.to_bits() }, FloatFact::Floor { bits: 0.75f64.to_bits(), floor: 0 }];
    assert_eq!(do_mathdiv(&num(4), &num(3), &floats).unwrap(), NN::nd(E::FT(0.75f64.to_bits())));
    assert_eq!(mo_min(&NN::nd(E::FT(0.75f64.to_bits())), &floats).unwrap(), num(0));
    assert_eq!(monadic(FN::Minus, &num(1), &floats).unwrap(), num(-1));
    assert_eq!(dyadic(FN::Minus, &num(1), &num(3), &floats).unwrap(), num(-2));
}

#[test]
fn lanes_of_two_lists() {
    let none = Vec::new();
    let a: Vec<NN> = (0..1000).map(num).collect();
    let b: Vec<NN> = (0..1000).map(|i| num(2 * i)).collect();
    let want: Vec<NN> = (0..1000).map(|i| num(3 * i)).collect();
    assert_eq!(do_conversion(FN::Plus, &a, &b, &none).unwrap(), NN::nd(E::LIST(want)));
    assert!(matches!(do_conversion(FN::Plus, &a, &b[1..].to_vec(), &none), Err(LErrEnum::Type(FN::Plus))));
    let mut odd = b.clone();
    odd[7] = NN::nd(E::ST("x".to_string()));
    odd[500] = num(i32::MAX);
    assert!(matches!(do_conversion(FN::Plus, &a, &odd, &none), Err(LErrEnum::Type(FN::Plus))));
    odd[7] = num(0);
    assert!(matches!(do_conversion(FN::Plus, &a, &odd, &none), Err(LErrEnum::Arithmetic(FN::Plus))));
}

#[test]
fn fold_and_scan_by_name() {
    let none = Vec::new();
    assert_eq!(fold(FN::Minus, &nums(&[10, 1, 2]), &none).unwrap(), num(7));
    assert_eq!(fold(FN::Max, &nums(&[3, 9, 4]), &none).unwrap(), num(9));
    assert!(matches!(fold(FN::Plus, &nums(&[]), &none), Err(LErrEnum::EmptyDomain(FN::Plus))));
    assert!(matches!(fold(FN::Plus, &NN::nd(E::LIST(vec![num(1), nums(&[1])])), &none), Err(LErrEnum::Type(FN::Plus))));
    assert_eq!(scan(FN::Minus, &nums(&[10, 20]), &num(1), &none).unwrap(), nums(&[9, 19]));
    assert_eq!(scan(FN::Bang, &nums(&[3, 5]), &nums(&[0, 1, 2, 3]), &none).unwrap(), NN::nd(E::LIST(vec![nums(&[0, 1, 2, 0]), nums(&[0, 1, 2, 3])])));
    assert!(matches!(scan(FN::Minus, &num(1), &num(1), &none), Err(LErrEnum::Type(FN::Minus))));
}

#[test]
fn remainder_at_the_ends_of_the_integers() {
    let min = i32::MIN;
    let max = i32::MAX;
    assert_eq!(do_mathmod(&num(-1), &num(min)).unwrap(), num(0));
    assert_eq!(do_mathmod(&num(1), &num(min)).unwrap(), num(0));
    assert_eq!(do_mathmod(&num(max), &num(min)).unwrap(), num(max - 1));
    assert_eq!(do_mathmod(&num(min), &num(max)).unwrap(), num(-1));
    assert_eq!(do_mathmod(&num(min), &num(min)).unwrap(), num(0));
    assert_eq!(do_mathmod(&num(2), &num(max)).unwrap(), num(1));
    assert_eq!(do_mathmod(&num(-2), &num(max)).unwrap(), num(-1));
    assert_eq!(do_mathmod(&num(7), &num(0)).unwrap(), num(0));
    assert!(matches!(do_mathmod(&num(0), &num(7)), Err(LErrEnum::Arithmetic(FN::Bang))));
    assert!(matches!(do_minus(&num(min), &num(1)), Err(LErrEnum::Arithmetic(FN::Minus))));
    assert!(matches!(do_minus(&num(0), &num(min)), Err(LErrEnum::Arithmetic(FN::Minus))));
    assert_eq!(do_minus(&num(-1), &num(min)).unwrap(), num(max));
    assert_eq!(do_plus(&num(min), &num(max)).unwrap(), num(-1));
    assert_eq!(do_max(&num(min), &num(max)).unwrap(), num(max));
    assert_eq!(do_min(&num(min), &num(max)).unwrap(), num(min));
    assert!(matches!(mo_minus(&num(min)), Err(LErrEnum::Arithmetic(FN::Minus))));
    assert_eq!(mo_minus(&num(max)).unwrap(), num(-max));
}
