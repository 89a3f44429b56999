use lvm::{
    ast::{CN, FN},
    byte_to_co, byte_to_fn, byte_to_op, get_cnop, get_fnop, get_op,
    op::{fetch, make_op, OP},
    op_to_co, u16_to_u8, u8_to_u,
};

#[test]
fn make_op_constant() {
    assert_eq!(vec![0x01, 255, 254], make_op(OP::CONST(65534)));
}

#[test]
fn make_op_pop() {
    assert_eq!(vec![0x02], make_op(OP::POP));
}

#[test]
fn make_op_add() {
    assert_eq!(vec![12, 1], make_op(OP::MO(get_fnop(FN::Plus))));
}

#[test]
fn make_op_of_a_primitive_is_two_bytes() {
    assert_eq!(vec![13, 10], make_op(OP::DO(get_fnop(FN::Rho))));
    assert_eq!(vec![14, 2], make_op(OP::CO(get_cnop(CN::ScanL))));
}

#[test]
fn bytes_of_a_u16() {
    assert_eq!(u16_to_u8(0x1234), [0x12, 0x34]);
    assert_eq!(u16_to_u8(0), [0, 0]);
    assert_eq!(u8_to_u(0x12, 0x34), 0x1234);
    assert_eq!(u8_to_u(255, 255), 65535);
}

#[test]
fn opcodes_are_fixed() {
    let all = [
        (OP::CONST(0), 1),
        (OP::POP, 2),
        (OP::JMP(0), 3),
        (OP::GETL, 4),
        (OP::GETR, 5),
        (OP::DUP(0), 8),
        (OP::MBL(0), 9),
        (OP::DBL(0), 10),
        (OP::END, 11),
        (OP::MO(0), 12),
        (OP::DO(0), 13),
        (OP::CO(0), 14),
        (OP::STORE(0), 15),
        (OP::LOAD(0), 16),
        (OP::MCALL(0), 17),
        (OP::DCALL(0), 18),
    ];
    for (op, byte) in all {
        assert_eq!(get_op(op), byte);
        assert_eq!(byte_to_op(byte), Some(op));
    }
    for byte in [0u8, 6, 7, 19, 255] {
        assert_eq!(byte_to_op(byte), None);
    }
}

#[test]
fn identifiers_are_fixed() {
    let fns = [
        (FN::Plus, 1),
        (FN::Minus, 2),
        (FN::Max, 3),
        (FN::Min, 4),
        (FN::Eq, 5),
        (FN::Amp, 6),
        (FN::Bang, 7),
        (FN::Mult, 8),
        (FN::Div, 9),
        (FN::Rho, 10),
    ];
    for (f, id) in fns {
        assert_eq!(get_fnop(f), id);
        assert_eq!(byte_to_fn(id), f);
    }
    for (c, id) in [(CN::Fold, 1), (CN::ScanL, 2), (CN::Each, 3)] {
        assert_eq!(get_cnop(c), id);
        assert_eq!(byte_to_co(id), c);
    }
    assert_eq!(op_to_co(OP::CO(0), 2), Some(CN::ScanL));
    assert_eq!(op_to_co(OP::END, 2), None);
}

#[test]
fn symbols_are_fixed() {
    for (f, s) in [
        (FN::Plus, "+"),
        (FN::Minus, "-"),
        (FN::Mult, "×"),
        (FN::Div, "÷"),
        (FN::Max, "¯"),
        (FN::Min, "_"),
        (FN::Eq, "="),
        (FN::Amp, "&"),
        (FN::Bang, "!"),
        (FN::Rho, "ρ"),
    ] {
        assert_eq!(f.as_str(), s);
        assert_eq!(FN::from_string(s), f);
    }
    for (c, s) in [(CN::Fold, "/"), (CN::ScanL, "\\"), (CN::Each, "ǁ")] {
        assert_eq!(c.as_str(), s);
        assert_eq!(CN::from_string(s), c);
    }
    assert_eq!(FN::from_char('x'), None);
    assert_eq!(CN::from_char('+'), None);
}

#[test]
fn fetch_reads_what_make_op_wrote() {
    let ops = [OP::CONST(513), OP::MO(7), OP::END, OP::DCALL(65535)];
    let code: Vec<u8> = ops.iter().flat_map(|op| make_op(*op)).collect();
    assert_eq!(fetch(&code, 0), Some(OP::CONST(513)));
    assert_eq!(fetch(&code, 3), Some(OP::MO(7)));
    assert_eq!(fetch(&code, 5), Some(OP::END));
    assert_eq!(fetch(&code, 6), Some(OP::DCALL(65535)));
    assert_eq!(fetch(&code, 9), None);
    assert_eq!(fetch(&code, 7), None);
    assert_eq!(fetch(&vec![12], 0), None);
}
