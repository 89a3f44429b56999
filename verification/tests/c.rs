use lvm::{
    ast::{CN, E, FN, NN},
    byte::{Env, B, I, SET},
    err::LErrEnum,
    names::Names,
    op::{make_op, OP},
    get_cnop, get_fnop,
    vm::V,
};

fn num(i: i32) -> NN {
    NN::nd(E::INT(i))
}

fn apply(train: Vec<E>, args: Vec<NN>) -> NN {
    NN::nd(E::APPLY { train: train.into_iter().map(NN::nd).collect(), args })
}

fn code(ops: Vec<OP>) -> Vec<u8> {
    ops.into_iter().flat_map(make_op).collect()
}

fn compile(n: NN) -> Result<B, LErrEnum> {
    I::fast(&vec![n])
}

#[test]
fn code_of_a_monadic_application() {
    let b = compile(apply(vec![E::MFN(FN::Minus)], vec![num(1)])).unwrap();
    let want = code(vec![
        OP::CONST(0),
        OP::MBL(9),
        OP::MO(get_fnop(FN::Minus)),
        OP::END,
        OP::POP,
    ]);
    assert_eq!(b.op, want);
    assert_eq!(b.var, vec![num(1)]);
    assert!(b.lookup.entries.is_empty());
}

#[test]
fn code_of_a_dyadic_train() {
    let train = vec![
        E::MFN(FN::Plus),
        E::MCO { o: NN::ndb(E::MFN(FN::Max)), co: NN::ndb(E::CN(CN::Fold)) },
        E::MOP(FN::Bang),
    ];
    let b = compile(apply(train, vec![num(1), num(5)])).unwrap();
    let want = code(vec![
        OP::CONST(0),
        OP::CONST(1),
        OP::DBL(18),
        OP::MO(get_fnop(FN::Bang)),
        OP::MO(get_fnop(FN::Max)),
        OP::CO(get_cnop(CN::Fold)),
        OP::DO(get_fnop(FN::Plus)),
        OP::END,
        OP::POP,
    ]);
    assert_eq!(b.op, want);
    assert_eq!(b.var, vec![num(5), num(1)]);
}

#[test]
fn code_of_a_combinator_that_stands_alone() {
    let train = vec![E::CN(CN::Fold), E::MFN(FN::Plus)];
    let b = compile(apply(train, vec![num(1)])).unwrap();
    let want = code(vec![
        OP::CONST(0),
        OP::MBL(11),
        OP::MO(get_fnop(FN::Plus)),
        OP::CO(get_cnop(CN::Fold)),
        OP::END,
        OP::POP,
    ]);
    assert_eq!(b.op, want);
}

#[test]
fn code_of_a_function() {
    let body = apply(vec![E::MFN(FN::Minus)], vec![NN::nd(E::VAL("x".to_string()))]);
    let f = NN::nd(E::LAMBDA { params: vec!["x".to_string()], body: vec![body] });
    let b = compile(f).unwrap();
    let inner = code(vec![OP::STORE(0), OP::LOAD(1), OP::MBL(12), OP::MO(2), OP::END, OP::END]);
    let mut want = code(vec![OP::JMP(16)]);
    want.extend(inner.clone());
    want.extend(code(vec![OP::CONST(2), OP::POP]));
    assert_eq!(b.op, want);
    let x = NN::nd(E::ST("x".to_string()));
    assert_eq!(b.var.len(), 3);
    assert_eq!(b.var[0], x);
    assert_eq!(b.var[1], x);
    match &b.var[2].n {
        E::UFNV { arity, ops, consts } => {
            assert_eq!(*arity, 1);
            assert_eq!(ops, &inner);
            assert_eq!(consts, &vec![x.clone(), x]);
        }
        other => panic!("expected a function, got {:?}", other),
    }
}

#[test]
fn code_of_names_bound_and_not_bound() {
    let mut env = Env::new();
    env.var.push(num(7));
    env.lookup.insert("x", 0);
    let line = vec![
        NN::nd(E::VAL("x".to_string())),
        NN::nd(E::ASEXP { name: "x".to_string(), rhs: NN::ndb(E::INT(8)) }),
        NN::nd(E::VAL("x".to_string())),
        NN::nd(E::LIST(vec![NN::nd(E::VAL("y".to_string()))])),
    ];
    let b = I::fast_in(env.clone(), &line[..3].to_vec()).unwrap();
    let want = code(vec![
        OP::CONST(0),
        OP::POP,
        OP::CONST(1),
        OP::STORE(2),
        OP::LOAD(3),
        OP::POP,
    ]);
    assert_eq!(b.op, want);
    assert_eq!(b.lookup.get("x"), Some(0));
    let mut vm = V::new(b);
    vm.r().unwrap();
    assert_eq!(vm.pop_last().unwrap(), &num(8));
    let frozen = I::fast_in(env.clone(), &vec![NN::nd(E::LIST(vec![NN::nd(E::VAL("x".to_string()))]))]);
    assert_eq!(frozen.unwrap().var[1], NN::nd(E::LIST(vec![num(7)])));
    match I::fast_in(env, &line[3..].to_vec()) {
        Err(LErrEnum::ValueExpected(e)) => assert_eq!(e.error, "y"),
        other => panic!("expected a name without a value, got {:?}", other),
    }
}

#[test]
fn compiler_rejects_what_has_no_code() {
    assert!(matches!(compile(apply(vec![], vec![num(1)])), Err(LErrEnum::TrainExpected(_))));
    assert!(matches!(compile(apply(vec![E::INT(1)], vec![num(1)])), Err(LErrEnum::TrainExpected(_))));
    assert!(matches!(compile(apply(vec![E::CN(CN::Fold)], vec![num(1)])), Err(LErrEnum::TrainExpected(_))));
    assert!(matches!(
        compile(apply(vec![E::MFN(FN::Plus)], vec![num(1), num(2), num(3)])),
        Err(LErrEnum::Standard(_))
    ));
    assert!(matches!(compile(apply(vec![E::MFN(FN::Plus)], vec![])), Err(LErrEnum::Standard(_))));
    let scan = E::MCO { o: NN::ndb(E::MFN(FN::Plus)), co: NN::ndb(E::CN(CN::ScanL)) };
    assert!(matches!(compile(apply(vec![scan], vec![num(1)])), Err(LErrEnum::FnExpected(_))));
    let fold = E::MCO { o: NN::ndb(E::MFN(FN::Plus)), co: NN::ndb(E::CN(CN::Fold)) };
    assert!(matches!(compile(apply(vec![fold], vec![num(1), num(2)])), Err(LErrEnum::FnExpected(_))));
    let each = E::MCO { o: NN::ndb(E::MFN(FN::Plus)), co: NN::ndb(E::CN(CN::Each)) };
    assert!(matches!(compile(apply(vec![each], vec![num(1)])), Err(LErrEnum::FnExpected(_))));
    let odd = E::MCO { o: NN::ndb(E::INT(1)), co: NN::ndb(E::CN(CN::Fold)) };
    assert!(matches!(compile(apply(vec![odd], vec![num(1)])), Err(LErrEnum::MonadicFunctionExpected)));
    let nested = NN::nd(E::LIST(vec![apply(vec![E::MFN(FN::Minus)], vec![num(1)])]));
    assert!(matches!(compile(nested), Err(LErrEnum::TermExpected(_))));
    assert!(matches!(compile(NN::nd(E::MFN(FN::Plus))), Err(LErrEnum::Standard(_))));
    let bind = |rhs: E| NN::nd(E::ASEXP { name: "x".to_string(), rhs: NN::ndb(rhs) });
    let twice = bind(E::ASEXP { name: "y".to_string(), rhs: NN::ndb(E::INT(1)) });
    assert!(matches!(compile(twice), Err(LErrEnum::Standard(_))));
    let none = apply(vec![E::MFN(FN::Minus)], vec![bind(E::INT(1))]);
    assert!(matches!(compile(none), Err(LErrEnum::Standard(_))));
}

#[test]
fn compiler_counts_what_a_u16_counts() {
    let mut env = Env::new();
    for i in 0..65536 {
        env.var.push(num(i));
    }
    assert!(matches!(I::fast_in(env, &vec![num(1)]), Err(LErrEnum::Overflow)));
    let many: Vec<NN> = (0..16384).map(num).collect();
    assert!(matches!(I::fast(&many), Err(LErrEnum::Overflow)));
    let some: Vec<NN> = (0..16383).map(num).collect();
    assert_eq!(I::fast(&some).unwrap().op.len(), 65532);
}

#[test]
fn instruction_for_a_role() {
    assert_eq!(I::get_op(SET::MBL, 7), OP::MBL(7));
    assert_eq!(I::get_op(SET::DBL, 7), OP::DBL(7));
    assert_eq!(SET::default(), SET::MBL);
}

#[test]
fn compiler_patches_an_operand() {
    let mut i = I::new();
    assert_eq!(i.addop(OP::JMP(0)).unwrap(), 3);
    assert_eq!(i.addop(OP::POP).unwrap(), 4);
    assert_eq!(i.addvar(num(3)).unwrap(), 0);
    i.addlookup("three", 0);
    i.upop(0x1234, 0);
    assert_eq!(i.b.op, vec![3, 0x12, 0x34, 2]);
    assert_eq!(i.b.lookup.get("three"), Some(0));
    i.addmap(&NN::nd(E::VAL("three".to_string())), 7);
    assert_eq!(i.b.lookup.get("three"), Some(7));
}

#[test]
fn names_bind_anew() {
    let mut names = Names::new();
    assert_eq!(names.get("a"), None);
    names.insert("a", 1);
    names.insert("b", 2);
    names.insert("a", 3);
    assert_eq!(names.get("a"), Some(3));
    assert_eq!(names.get("b"), Some(2));
    assert_eq!(names.entries.len(), 2);
    assert_eq!(names.clone().get("a"), Some(3));
}

fn machine(ops: Vec<OP>, var: Vec<NN>) -> V {
    V::new(B { op: code(ops), var, lookup: Names::new() })
}

#[test]
fn machine_rejects_what_is_no_program() {
    assert!(matches!(machine(vec![OP::POP], vec![]).r(), Err(LErrEnum::Underflow)));
    assert!(matches!(machine(vec![OP::CONST(1)], vec![num(1)]).r(), Err(LErrEnum::BadCode)));
    assert!(matches!(machine(vec![OP::CO(1)], vec![]).r(), Err(LErrEnum::BadCode)));
    assert!(matches!(machine(vec![OP::MO(77)], vec![]).r(), Err(LErrEnum::BadCode)));
    assert!(matches!(machine(vec![OP::MBL(0)], vec![]).r(), Err(LErrEnum::Underflow)));
    assert!(matches!(machine(vec![OP::GETL], vec![]).r(), Err(LErrEnum::Unbound)));
    assert!(matches!(machine(vec![OP::STORE(0)], vec![num(1)]).r(), Err(LErrEnum::BadCode)));
    let mut cut = V::new(B { op: vec![1, 0], var: vec![num(1)], lookup: Names::new() });
    assert!(matches!(cut.r(), Err(LErrEnum::BadCode)));
    let mut odd = V::new(B { op: vec![6], var: vec![], lookup: Names::new() });
    assert!(matches!(odd.r(), Err(LErrEnum::BadCode)));
    let mut scan = machine(vec![OP::CONST(0), OP::MO(1), OP::CO(2)], vec![num(1)]);
    assert!(matches!(scan.r(), Err(LErrEnum::BadCode)));
}

#[test]
fn machine_keeps_to_its_limits() {
    let b = B { op: code(vec![OP::CONST(0), OP::CONST(0), OP::CONST(0)]), var: vec![num(1)], lookup: Names::new() };
    let mut small = V::with_limits(b.clone(), 2, 2, 100);
    assert!(matches!(small.r(), Err(LErrEnum::Overflow)));
    assert_eq!(small.s.len(), 2);
    let mut tired = V::with_limits(b.clone(), 512, 512, 2);
    assert!(matches!(tired.r(), Err(LErrEnum::Exhausted)));
    let mut enough = V::with_limits(b, 512, 512, 3);
    assert!(enough.r().is_ok());
    let mut spin = V::with_limits(
        B { op: code(vec![OP::JMP(3), OP::END, OP::JMP(3)]), var: vec![], lookup: Names::new() },
        512,
        512,
        1000,
    );
    assert!(matches!(spin.r(), Err(LErrEnum::Exhausted)));
    let mut jumps = machine(vec![OP::JMP(0)], vec![]);
    assert!(matches!(jumps.r(), Err(LErrEnum::Overflow)));
    assert_eq!(jumps.context.len(), 512);
}

#[test]
fn machine_reads_the_fixed_names() {
    let mut lookup = Names::new();
    lookup.insert("w", 0);
    lookup.insert("a", 1);
    let b = B { op: code(vec![OP::GETL, OP::GETR, OP::DO(2), OP::POP]), var: vec![num(10), num(3)], lookup };
    let mut vm = V::new(b);
    vm.r().unwrap();
    assert_eq!(vm.pop_last().unwrap(), &num(-7));
    assert_eq!(vm.s, vec![num(-7)]);
}

#[test]
fn machine_end_without_frame_is_the_end() {
    let mut vm = machine(vec![OP::CONST(0), OP::END, OP::POP], vec![num(1)]);
    vm.r().unwrap();
    assert!(vm.pop_last().is_none());
    assert_eq!(vm.s, vec![num(1)]);
}

#[test]
fn machine_stack_by_hand() {
    let mut vm = machine(vec![], vec![]);
    assert!(matches!(vm.pop(), Err(LErrEnum::Underflow)));
    assert!(matches!(vm.dup(), Err(LErrEnum::Underflow)));
    vm.push(num(1)).unwrap();
    assert!(matches!(vm.ddup(), Err(LErrEnum::Underflow)));
    vm.push(num(2)).unwrap();
    vm.ddup().unwrap();
    vm.dup().unwrap();
    assert_eq!(vm.s, vec![num(1), num(2), num(1), num(1)]);
    assert_eq!(vm.get().unwrap(), num(1));
    vm.cmo(None, FN::Minus).unwrap();
    vm.cdo(None, FN::Plus).unwrap();
    assert_eq!(vm.s, vec![num(1), num(2), num(0)]);
    vm.cmo(Some(CN::Fold), FN::Plus).unwrap_err();
    assert_eq!(vm.pop().unwrap(), num(0));
    assert_eq!(vm.pop_last().unwrap(), &num(0));
    assert_eq!(vm.cget().ip, 0);
    vm.cpush(lvm::vm::C::new(9, lvm::vm::BL::DBL)).unwrap();
    assert_eq!(vm.cget().ip, 9);
    assert_eq!(vm.place().unwrap(), 0);
    assert_eq!(vm.cpop().unwrap().ip, 9);
    assert!(matches!(vm.cpop(), Err(LErrEnum::Underflow)));
    assert_eq!(vm.place().unwrap(), 1);
}

#[test]
fn programs_are_equal_by_what_they_hold() {
    let a = compile(apply(vec![E::MFN(FN::Minus)], vec![NN::new(4, 5, E::INT(1))])).unwrap();
    let mut b = B { op: a.op.clone(), var: vec![NN::nd(E::BOOL(true))], lookup: Names::new() };
    assert_eq!(a, b);
    assert_eq!(a.clone(), a);
    b.lookup.insert("x", 0);
    assert_ne!(a, b);
    let mut c = a.clone();
    c.lookup.insert("x", 0);
    assert_eq!(c, b);
    c.lookup.insert("x", 1);
    assert_ne!(c, b);
    b.lookup.insert("y", 1);
    assert_ne!(c, b);
    b.op.push(2);
    assert_ne!(a, b);
}

#[test]
fn machine_reads_an_operand() {
    let vm = machine(vec![OP::POP, OP::JMP(0x0102)], vec![]);
    assert_eq!(vm.get_usize(1), 0x0102);
}

#[test]
fn machine_copies_as_the_train_around_does() {
    let two = vec![num(1), num(2)];
    let mut vm = machine(vec![OP::CONST(0), OP::DUP(0)], two.clone());
    vm.r().unwrap();
    assert_eq!(vm.s, vec![num(1), num(1)]);
    let mut vm = machine(
        vec![OP::CONST(0), OP::CONST(1), OP::DBL(0), OP::DUP(0), OP::END, OP::END],
        two.clone(),
    );
    vm.r().unwrap();
    assert_eq!(vm.s, vec![num(1), num(2), num(1)]);
    assert!(vm.context.is_empty());
    let mut vm = machine(
        vec![OP::CONST(0), OP::CONST(1), OP::DBL(0), OP::DBL(0), OP::END],
        two.clone(),
    );
    vm.r().unwrap();
    assert_eq!(vm.s, vec![num(1), num(1), num(2)]);
    assert_eq!(vm.context.len(), 1);
    let mut vm = machine(
        vec![OP::CONST(0), OP::CONST(1), OP::DBL(0), OP::DBL(0), OP::END, OP::END],
        two,
    );
    assert!(matches!(vm.r(), Err(LErrEnum::Underflow)));
    assert_eq!(vm.s, vec![num(1), num(1), num(2)]);
}

#[test]
fn machine_applies_inside_a_dyadic_train_below_the_top() {
    let mut vm = machine(
        vec![OP::CONST(0), OP::CONST(1), OP::DBL(0), OP::MO(2)],
        vec![num(1), num(2)],
    );
    vm.r().unwrap();
    assert_eq!(vm.s, vec![num(1), num(2), num(-1), num(2)]);
    let mut vm = machine(vec![OP::CONST(0), OP::CONST(1), OP::DO(2)], vec![num(1), num(2)]);
    vm.r().unwrap();
    assert_eq!(vm.s, vec![num(1), num(1)]);
}
