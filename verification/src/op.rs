//! The instructions of the machine and their bytes.

use vstd::prelude::*;

use crate::ast::{CN, FN};

verus! {

// The opcodes. 6 and 7 stand for no instruction.
pub const CONST: u8 = 1;
pub const POP: u8 = 2;
pub const JMP: u8 = 3;
pub const GETL: u8 = 4;
pub const GETR: u8 = 5;
pub const DUP: u8 = 8;
pub const MBL: u8 = 9;
pub const DBL: u8 = 10;
pub const END: u8 = 11;
pub const MO: u8 = 12;
pub const DO: u8 = 13;
pub const CO: u8 = 14;
pub const STORE: u8 = 15;
pub const LOAD: u8 = 16;
pub const MCALL: u8 = 17;
pub const DCALL: u8 = 18;

// The identifiers of the primitives.
pub const FNPLUS: u8 = 1;
pub const FNMINUS: u8 = 2;
pub const FNMAX: u8 = 3;
pub const FNMIN: u8 = 4;
pub const FNEQ: u8 = 5;
pub const FNAMP: u8 = 6;
pub const FNBANG: u8 = 7;
pub const FNMULT: u8 = 8;
pub const FNDIV: u8 = 9;
pub const FNRHO: u8 = 10;

// The identifiers of the combinators.
pub const COFOLD: u8 = 1;
pub const COSCANL: u8 = 2;
pub const COEACH: u8 = 3;

/// One instruction of the machine. An address or a pool index is a `u16`,
/// the identifier of a primitive or of a combinator is one byte.
#[derive(Debug, Copy, Clone, PartialEq, Eq, Structural)]
pub enum OP {
    /// Push the constant at a pool index.
    CONST(u16),
    /// Drop the top of the value stack.
    POP,
    /// Jump to an address.
    JMP(u16),
    /// Push the value bound to `w`.
    GETL,
    /// Push the value bound to `a`.
    GETR,
    /// Duplicate for a train nested in another train.
    DUP(u16),
    /// Enter a monadic train.
    MBL(u16),
    /// Enter a dyadic train.
    DBL(u16),
    /// Leave the current train.
    END,
    /// Apply a primitive to one argument.
    MO(u8),
    /// Apply a primitive to two arguments.
    DO(u8),
    /// The combinator that modifies the `MO` or `DO` just before it.
    CO(u8),
    /// Bind the top of the stack to the name at a pool index.
    STORE(u16),
    /// Push the value bound to the name at a pool index.
    LOAD(u16),
    /// Call the function bound to the name at a pool index with one argument.
    MCALL(u16),
    /// Call the function bound to the name at a pool index with two arguments.
    DCALL(u16),
}

/// The byte that identifies each kind of instruction.
pub open spec fn opcode_of(op: OP) -> u8 {
    match op {
        OP::CONST(_) => CONST,
        OP::POP => POP,
        OP::JMP(_) => JMP,
        OP::GETL => GETL,
        OP::GETR => GETR,
        OP::DUP(_) => DUP,
        OP::MBL(_) => MBL,
        OP::DBL(_) => DBL,
        OP::END => END,
        OP::MO(_) => MO,
        OP::DO(_) => DO,
        OP::CO(_) => CO,
        OP::STORE(_) => STORE,
        OP::LOAD(_) => LOAD,
        OP::MCALL(_) => MCALL,
        OP::DCALL(_) => DCALL,
    }
}

/// How many operand bytes follow the opcode: none, one identifier byte, or
/// the two bytes of a `u16`.
pub open spec fn operand_len(op: OP) -> nat {
    match op {
        OP::POP | OP::GETL | OP::GETR | OP::END => 0,
        OP::MO(_) | OP::DO(_) | OP::CO(_) => 1,
        _ => 2,
    }
}

/// The operand of an instruction as a number, zero where it has none.
pub open spec fn operand_of(op: OP) -> int {
    match op {
        OP::POP | OP::GETL | OP::GETR | OP::END => 0,
        OP::MO(a) | OP::DO(a) | OP::CO(a) => a as int,
        OP::CONST(a)
        | OP::JMP(a)
        | OP::DUP(a)
        | OP::MBL(a)
        | OP::DBL(a)
        | OP::STORE(a)
        | OP::LOAD(a)
        | OP::MCALL(a)
        | OP::DCALL(a) => a as int,
    }
}

/// The instruction of a given opcode with its operand set to zero, if the
/// byte is an opcode at all.
pub open spec fn op_of_byte(by: u8) -> Option<OP> {
    if by == CONST {
        Some(OP::CONST(0))
    } else if by == POP {
        Some(OP::POP)
    } else if by == JMP {
        Some(OP::JMP(0))
    } else if by == GETL {
        Some(OP::GETL)
    } else if by == GETR {
        Some(OP::GETR)
    } else if by == DUP {
        Some(OP::DUP(0))
    } else if by == MBL {
        Some(OP::MBL(0))
    } else if by == DBL {
        Some(OP::DBL(0))
    } else if by == END {
        Some(OP::END)
    } else if by == MO {
        Some(OP::MO(0))
    } else if by == DO {
        Some(OP::DO(0))
    } else if by == CO {
        Some(OP::CO(0))
    } else if by == STORE {
        Some(OP::STORE(0))
    } else if by == LOAD {
        Some(OP::LOAD(0))
    } else if by == MCALL {
        Some(OP::MCALL(0))
    } else if by == DCALL {
        Some(OP::DCALL(0))
    } else {
        None
    }
}

/// The same kind of instruction with another operand.
pub open spec fn with_operand(op: OP, x: int) -> OP {
    match op {
        OP::CONST(_) => OP::CONST(x as u16),
        OP::JMP(_) => OP::JMP(x as u16),
        OP::DUP(_) => OP::DUP(x as u16),
        OP::MBL(_) => OP::MBL(x as u16),
        OP::DBL(_) => OP::DBL(x as u16),
        OP::STORE(_) => OP::STORE(x as u16),
        OP::LOAD(_) => OP::LOAD(x as u16),
        OP::MCALL(_) => OP::MCALL(x as u16),
        OP::DCALL(_) => OP::DCALL(x as u16),
        OP::MO(_) => OP::MO(x as u8),
        OP::DO(_) => OP::DO(x as u8),
        OP::CO(_) => OP::CO(x as u8),
        OP::POP => OP::POP,
        OP::GETL => OP::GETL,
        OP::GETR => OP::GETR,
        OP::END => OP::END,
    }
}

/// The identifier byte of each primitive.
pub open spec fn fn_id(fun: FN) -> u8 {
    match fun {
        FN::Plus => FNPLUS,
        FN::Minus => FNMINUS,
        FN::Mult => FNMULT,
        FN::Div => FNDIV,
        FN::Max => FNMAX,
        FN::Min => FNMIN,
        FN::Eq => FNEQ,
        FN::Amp => FNAMP,
        FN::Bang => FNBANG,
        FN::Rho => FNRHO,
    }
}

/// The identifier byte of each combinator.
pub open spec fn co_id(cn: CN) -> u8 {
    match cn {
        CN::Fold => COFOLD,
        CN::ScanL => COSCANL,
        CN::Each => COEACH,
    }
}

/// The primitive that an identifier byte stands for.
pub open spec fn fn_of_id(by: u8) -> Option<FN> {
    if by == FNPLUS {
        Some(FN::Plus)
    } else if by == FNMINUS {
        Some(FN::Minus)
    } else if by == FNMAX {
        Some(FN::Max)
    } else if by == FNMIN {
        Some(FN::Min)
    } else if by == FNEQ {
        Some(FN::Eq)
    } else if by == FNAMP {
        Some(FN::Amp)
    } else if by == FNBANG {
        Some(FN::Bang)
    } else if by == FNMULT {
        Some(FN::Mult)
    } else if by == FNDIV {
        Some(FN::Div)
    } else if by == FNRHO {
        Some(FN::Rho)
    } else {
        None
    }
}

/// The combinator that an identifier byte stands for.
pub open spec fn co_of_id(by: u8) -> Option<CN> {
    if by == COFOLD {
        Some(CN::Fold)
    } else if by == COSCANL {
        Some(CN::ScanL)
    } else if by == COEACH {
        Some(CN::Each)
    } else {
        None
    }
}

/// The bytes of an instruction: the opcode, then the operand, a `u16` with
/// its high byte first.
pub open spec fn encoding(op: OP) -> Seq<u8> {
    match op {
        OP::POP | OP::GETL | OP::GETR | OP::END => seq![opcode_of(op)],
        OP::MO(a) | OP::DO(a) | OP::CO(a) => seq![opcode_of(op), a],
        _ => seq![
            opcode_of(op),
            (operand_of(op) / 256) as u8,
            (operand_of(op) % 256) as u8,
        ],
    }
}

/// The instruction that starts at `ip` in `ops`, with its operand, if an
/// opcode stands there and all its operand bytes are inside `ops`.
pub open spec fn decoding(ops: Seq<u8>, ip: int) -> Option<OP> {
    if 0 <= ip < ops.len() {
        match op_of_byte(ops[ip]) {
            Some(op) => {
                if ip + operand_len(op) < ops.len() {
                    if operand_len(op) == 2 {
                        Some(with_operand(op, ops[ip + 1] * 256 + ops[ip + 2]))
                    } else if operand_len(op) == 1 {
                        Some(with_operand(op, ops[ip + 1] as int))
                    } else {
                        Some(op)
                    }
                } else {
                    None
                }
            },
            None => None,
        }
    } else {
        None
    }
}

/// Splits a `u16` into its high and its low byte.
pub fn u16_to_u8(integer: u16) -> (bytes: [u8; 2])
    ensures
        bytes[0] == integer / 256,
        bytes[1] == integer % 256,
{
    [(integer / 256) as u8, (integer % 256) as u8]
}

/// Joins a high and a low byte into one number.
pub fn u8_to_u(int1: u8, int2: u8) -> (joined: usize)
    ensures
        joined == int1 * 256 + int2,
{
    (int1 as usize) * 256 + (int2 as usize)
}

fn make_o(code: u8, data: u16) -> (output: Vec<u8>)
    ensures
        output@ == seq![code, (data / 256) as u8, (data % 256) as u8],
{
    let bytes = u16_to_u8(data);
    let mut output: Vec<u8> = Vec::new();
    output.push(code);
    output.push(bytes[0]);
    output.push(bytes[1]);
    assert(output@ =~= seq![code, (data / 256) as u8, (data % 256) as u8]);
    output
}

/// The opcode of an instruction.
pub fn get_op(op: OP) -> (code: u8)
    ensures
        code == opcode_of(op),
{
    match op {
        OP::CONST(_) => CONST,
        OP::POP => POP,
        OP::JMP(_) => JMP,
        OP::GETL => GETL,
        OP::GETR => GETR,
        OP::DUP(_) => DUP,
        OP::MBL(_) => MBL,
        OP::DBL(_) => DBL,
        OP::END => END,
        OP::MO(_) => MO,
        OP::DO(_) => DO,
        OP::CO(_) => CO,
        OP::STORE(_) => STORE,
        OP::LOAD(_) => LOAD,
        OP::MCALL(_) => MCALL,
        OP::DCALL(_) => DCALL,
    }
}

/// The identifier byte of a primitive.
pub fn get_fnop(fun: FN) -> (id: u8)
    ensures
        id == fn_id(fun),
        fn_of_id(id) == Some(fun),
{
    match fun {
        FN::Plus => FNPLUS,
        FN::Minus => FNMINUS,
        FN::Mult => FNMULT,
        FN::Div => FNDIV,
        FN::Max => FNMAX,
        FN::Min => FNMIN,
        FN::Eq => FNEQ,
        FN::Amp => FNAMP,
        FN::Bang => FNBANG,
        FN::Rho => FNRHO,
    }
}

/// The identifier byte of a combinator.
pub fn get_cnop(cn: CN) -> (id: u8)
    ensures
        id == co_id(cn),
        co_of_id(id) == Some(cn),
{
    match cn {
        CN::Fold => COFOLD,
        CN::ScanL => COSCANL,
        CN::Each => COEACH,
    }
}

/// Encodes one instruction.
pub fn make_op(op: OP) -> (bytes: Vec<u8>)
    ensures
        bytes@ == encoding(op),
        bytes@.len() == 1 + operand_len(op),
        decoding(bytes@, 0) == Some(op),
{
    let code = get_op(op);
    let bytes = match op {
        OP::POP | OP::GETL | OP::GETR | OP::END => {
            let mut v: Vec<u8> = Vec::new();
            v.push(code);
            v
        },
        OP::MO(a) | OP::DO(a) | OP::CO(a) => {
            let mut v: Vec<u8> = Vec::new();
            v.push(code);
            v.push(a);
            v
        },
        OP::CONST(a)
        | OP::JMP(a)
        | OP::MBL(a)
        | OP::DBL(a)
        | OP::DUP(a)
        | OP::STORE(a)
        | OP::LOAD(a)
        | OP::MCALL(a)
        | OP::DCALL(a) => make_o(code, a),
    };
    assert(bytes@ =~= encoding(op));
    proof {
        lemma_decoding_of_encoding(op, Seq::empty(), Seq::empty());
        assert(Seq::<u8>::empty() + encoding(op) + Seq::<u8>::empty() =~= encoding(op));
    }
    bytes
}

/// The instruction that a byte is the opcode of, with its operand set to
/// zero; `None` where the byte is no opcode.
pub fn byte_to_op(by: u8) -> (op: Option<OP>)
    ensures
        op == op_of_byte(by),
        op matches Some(o) ==> opcode_of(o) == by && operand_of(o) == 0,
        op is None <==> forall|o: OP| opcode_of(o) != by,
{
    let op = match by {
        1 => Some(OP::CONST(0)),
        2 => Some(OP::POP),
        3 => Some(OP::JMP(0)),
        4 => Some(OP::GETL),
        5 => Some(OP::GETR),
        8 => Some(OP::DUP(0)),
        9 => Some(OP::MBL(0)),
        10 => Some(OP::DBL(0)),
        11 => Some(OP::END),
        12 => Some(OP::MO(0)),
        13 => Some(OP::DO(0)),
        14 => Some(OP::CO(0)),
        15 => Some(OP::STORE(0)),
        16 => Some(OP::LOAD(0)),
        17 => Some(OP::MCALL(0)),
        18 => Some(OP::DCALL(0)),
        _ => None,
    };
    proof {
        if let Some(o) = op {
            assert(opcode_of(o) == by);
        } else {
            assert forall|o: OP| opcode_of(o) != by by {
                assert(1 <= opcode_of(o) <= 5 || 8 <= opcode_of(o) <= 18);
            }
        }
    }
    op
}

/// The primitive of an identifier byte.
pub fn byte_to_fn(by: u8) -> (fun: FN)
    requires
        fn_of_id(by) is Some,
    ensures
        fn_of_id(by) == Some(fun),
        fn_id(fun) == by,
{
    match by {
        1 => FN::Plus,
        2 => FN::Minus,
        3 => FN::Max,
        4 => FN::Min,
        5 => FN::Eq,
        6 => FN::Amp,
        7 => FN::Bang,
        8 => FN::Mult,
        9 => FN::Div,
        _ => FN::Rho,
    }
}

/// The combinator of an identifier byte.
pub fn byte_to_co(by: u8) -> (cn: CN)
    requires
        co_of_id(by) is Some,
    ensures
        co_of_id(by) == Some(cn),
        co_id(cn) == by,
{
    match by {
        1 => CN::Fold,
        2 => CN::ScanL,
        _ => CN::Each,
    }
}

/// The combinator that follows a primitive: `op` is the instruction found
/// behind the primitive and `co` the byte behind that. There is one only
/// where `op` is a `CO`.
pub fn op_to_co(op: OP, co: u8) -> (cn: Option<CN>)
    requires
        op is CO ==> co_of_id(co) is Some,
    ensures
        cn == (if op is CO {
            co_of_id(co)
        } else {
            None
        }),
{
    match op {
        OP::CO(_) => Some(byte_to_co(co)),
        _ => None,
    }
}

/// Reads the instruction at `ip` with its operand. `None` where no opcode
/// stands at `ip` or the operand runs past the end of `ops`.
pub fn fetch(ops: &Vec<u8>, ip: usize) -> (op: Option<OP>)
    ensures
        op == decoding(ops@, ip as int),
{
    if ip >= ops.len() {
        return None;
    }
    match byte_to_op(ops[ip]) {
        None => None,
        Some(op) => match op {
            OP::POP | OP::GETL | OP::GETR | OP::END => Some(op),
            OP::MO(_) | OP::DO(_) | OP::CO(_) => {
                if ops.len() - ip <= 1 {
                    None
                } else {
                    let a = ops[ip + 1];
                    Some(
                        match op {
                            OP::MO(_) => OP::MO(a),
                            OP::DO(_) => OP::DO(a),
                            _ => OP::CO(a),
                        },
                    )
                }
            },
            _ => {
                if ops.len() - ip <= 2 {
                    None
                } else {
                    let x = u8_to_u(ops[ip + 1], ops[ip + 2]) as u16;
                    Some(
                        match op {
                            OP::CONST(_) => OP::CONST(x),
                            OP::JMP(_) => OP::JMP(x),
                            OP::DUP(_) => OP::DUP(x),
                            OP::MBL(_) => OP::MBL(x),
                            OP::DBL(_) => OP::DBL(x),
                            OP::STORE(_) => OP::STORE(x),
                            OP::LOAD(_) => OP::LOAD(x),
                            OP::MCALL(_) => OP::MCALL(x),
                            _ => OP::DCALL(x),
                        },
                    )
                }
            },
        },
    }
}

/// Decoding inverts encoding: wherever the bytes of an instruction stand in
/// a byte sequence, reading at their start gives the instruction back.
pub proof fn lemma_decoding_of_encoding(op: OP, before: Seq<u8>, after: Seq<u8>)
    ensures
        decoding(before + encoding(op) + after, before.len() as int) == Some(op),
{
    let all = before + encoding(op) + after;
    let ip = before.len() as int;
    assert(all[ip] == opcode_of(op));
    if operand_len(op) == 2 {
        let x = operand_of(op);
        assert(all[ip + 1] == (x / 256) as u8);
        assert(all[ip + 2] == (x % 256) as u8);
        assert(0 <= x < 65536);
        assert(all[ip + 1] * 256 + all[ip + 2] == x);
    } else if operand_len(op) == 1 {
        assert(all[ip + 1] == operand_of(op));
    }
}

} // verus!
