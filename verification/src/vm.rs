//! The stack machine.

use vstd::prelude::*;

use crate::ast::{copy_bytes, copy_nodes, lemma_term_of, nodes_of, CN, E, FN, NN, Node, Term};
use crate::byte::{B, Env, Program, Scope};
use crate::err::{Fault, LErrEnum};
use crate::names::Names;
use crate::num::FloatFact;
use crate::op::{
    byte_to_co, byte_to_fn, co_of_id, decoding, fetch, fn_of_id, operand_len, u8_to_u, OP,
};
use crate::prim::{agrees, dyad, dyadic, fold, folded, monad, monadic, result_of, scan, scanned};

verus! {

/// How deep the value stack and the control stack may grow, and how deep
/// calls may nest, unless a machine is made with other limits.
pub const STACK_SIZE: usize = 512;

/// The kind of a control frame: which instruction pushed it.
#[derive(Debug, Copy, Clone, PartialEq, Eq, Structural)]
pub enum BL {
    JMP,
    DUP,
    DBL,
    MBL,
}

/// A control frame: its kind and the address that its instruction named.
#[derive(Debug, Copy, Clone, PartialEq, Eq, Structural)]
pub struct C {
    pub ip: usize,
    pub t: BL,
}

impl C {
    /// A frame of kind `t` for the address `ip`.
    pub fn new(ip: usize, t: BL) -> (c: C)
        ensures
            c == (C { ip, t }),
    {
        C { ip, t }
    }
}

/// The state of a machine, as mathematics.
pub struct Machine {
    /// The code.
    pub ops: Seq<u8>,
    /// The constant pool.
    pub consts: Seq<Node>,
    /// The name table.
    pub names: Map<Seq<char>, u16>,
    /// The value stack, its top last.
    pub stack: Seq<Node>,
    /// The control stack, its top last.
    pub control: Seq<C>,
    /// The address of the next instruction.
    pub ip: int,
    /// The value that was popped last.
    pub last: Option<Node>,
    /// How deep each stack may grow.
    pub limit: nat,
    /// How deep calls may still nest.
    pub depth: nat,
    /// How many instructions may still run.
    pub fuel: nat,
    /// The results of floating-point arithmetic that the machine may use.
    pub floats: Seq<FloatFact>,
}

/// The machine after an instruction that changed nothing but the stacks:
/// it stands at `next` and has one step less to run.
pub open spec fn moved(m: Machine, stack: Seq<Node>, control: Seq<C>, next: int) -> Machine {
    Machine { stack, control, ip: next, fuel: (m.fuel - 1) as nat, ..m }
}

/// Whether the innermost control frame is that of a dyadic train.
pub open spec fn in_dyadic(control: Seq<C>) -> bool {
    control.len() > 0 && control.last().t == BL::DBL
}

/// The name that is held as a text at index `i` of the pool.
pub open spec fn name_at(consts: Seq<Node>, i: int) -> Option<Seq<char>> {
    if 0 <= i < consts.len() && consts[i].n is Str {
        Some(consts[i].n->Str_0)
    } else {
        None
    }
}

/// The value that a name is bound to.
pub open spec fn bound_value(m: Machine, name: Seq<char>) -> Result<Node, Fault> {
    if !m.names.contains_key(name) {
        Err(Fault::Unbound)
    } else if m.names[name] >= m.consts.len() {
        Err(Fault::BadCode)
    } else {
        Ok(m.consts[m.names[name] as int])
    }
}

/// Pushing a value.
pub open spec fn do_push(m: Machine, v: Node, next: int) -> Result<Machine, Fault> {
    if m.stack.len() >= m.limit {
        Err(Fault::Overflow)
    } else {
        Ok(moved(m, m.stack.push(v), m.control, next))
    }
}

/// `CONST`: pushes the constant at an index.
pub open spec fn do_const(m: Machine, i: u16, next: int) -> Result<Machine, Fault> {
    if i >= m.consts.len() {
        Err(Fault::BadCode)
    } else {
        do_push(m, m.consts[i as int], next)
    }
}

/// `POP`: drops the top of the stack and keeps it as the value popped last.
pub open spec fn do_pop(m: Machine, next: int) -> Result<Machine, Fault> {
    if m.stack.len() == 0 {
        Err(Fault::Underflow)
    } else {
        Ok(Machine { last: Some(m.stack.last()), ..moved(m, m.stack.drop_last(), m.control, next) })
    }
}

/// Pushing a control frame above a new value stack.
pub open spec fn do_enter(m: Machine, stack: Seq<Node>, c: C, next: int) -> Result<
    Machine,
    Fault,
> {
    if stack.len() > m.limit || m.control.len() >= m.limit {
        Err(Fault::Overflow)
    } else {
        Ok(moved(m, stack, m.control.push(c), next))
    }
}

/// `JMP`: pushes a frame and goes on at the address.
pub open spec fn do_jmp(m: Machine, a: u16) -> Result<Machine, Fault> {
    do_enter(m, m.stack, C { ip: a as usize, t: BL::JMP }, a as int)
}

/// The stack with its top value pushed once more.
pub open spec fn doubled(stack: Seq<Node>) -> Seq<Node>
    recommends
        stack.len() >= 1,
{
    stack.push(stack.last())
}

/// The stack with its two top values pushed once more, in their order.
pub open spec fn doubled_pair(stack: Seq<Node>) -> Seq<Node>
    recommends
        stack.len() >= 2,
{
    stack.push(stack[stack.len() - 2]).push(stack[stack.len() - 1])
}

/// `MBL`: enters a monadic train, with a second copy of the argument.
pub open spec fn do_mbl(m: Machine, a: u16, next: int) -> Result<Machine, Fault> {
    if m.stack.len() < 1 {
        Err(Fault::Underflow)
    } else {
        do_enter(m, doubled(m.stack), C { ip: a as usize, t: BL::MBL }, next)
    }
}

/// `DBL`: enters a dyadic train, with a second copy of both arguments.
pub open spec fn do_dbl(m: Machine, a: u16, next: int) -> Result<Machine, Fault> {
    if m.stack.len() < 2 {
        Err(Fault::Underflow)
    } else {
        do_enter(m, doubled_pair(m.stack), C { ip: a as usize, t: BL::DBL }, next)
    }
}

/// `DUP`: enters a train inside a train, and copies as the train around it
/// did: both arguments inside a dyadic train, else the top one.
pub open spec fn do_dup(m: Machine, a: u16, next: int) -> Result<Machine, Fault> {
    if in_dyadic(m.control) {
        if m.stack.len() < 2 {
            Err(Fault::Underflow)
        } else {
            do_enter(m, doubled_pair(m.stack), C { ip: a as usize, t: BL::DUP }, next)
        }
    } else {
        if m.stack.len() < 1 {
            Err(Fault::Underflow)
        } else {
            do_enter(m, doubled(m.stack), C { ip: a as usize, t: BL::DUP }, next)
        }
    }
}

/// `END`: leaves the innermost frame. With no frame left the program is
/// over. At the end of a monadic train the result, on top, replaces the
/// copy of the argument below it. At the end of a dyadic train the result,
/// second from the top, replaces the four values that the train worked on;
/// inside another dyadic train it goes below the value that is then on top.
pub open spec fn do_end(m: Machine, next: int) -> Result<Machine, Fault> {
    let n = m.stack.len() as int;
    if m.control.len() == 0 {
        Ok(moved(m, m.stack, m.control, m.ops.len() as int))
    } else {
        let rest = m.control.drop_last();
        match m.control.last().t {
            BL::MBL => if n < 2 {
                Err(Fault::Underflow)
            } else {
                Ok(moved(m, m.stack.take(n - 2).push(m.stack[n - 1]), rest, next))
            },
            BL::DBL => if in_dyadic(rest) {
                if n < 5 {
                    Err(Fault::Underflow)
                } else {
                    Ok(
                        moved(
                            m,
                            m.stack.take(n - 5).push(m.stack[n - 2]).push(m.stack[n - 5]),
                            rest,
                            next,
                        ),
                    )
                }
            } else {
                if n < 4 {
                    Err(Fault::Underflow)
                } else {
                    Ok(moved(m, m.stack.take(n - 4).push(m.stack[n - 2]), rest, next))
                }
            },
            _ => Ok(moved(m, m.stack, rest, next)),
        }
    }
}

/// The combinator that stands behind a primitive whose own bytes end at
/// `next`, and the address behind both.
pub open spec fn companion(ops: Seq<u8>, next: int) -> Result<(Option<CN>, int), Fault> {
    match decoding(ops, next) {
        Some(OP::CO(id)) => match co_of_id(id) {
            Some(c) => Ok((Some(c), next + 2)),
            None => Err(Fault::BadCode),
        },
        _ => Ok((None, next)),
    }
}

/// A primitive in the monadic role, alone or with a combinator: only the
/// fold goes with that role.
pub open spec fn applied_monad(f: FN, co: Option<CN>, arg: Node, table: Seq<FloatFact>) -> Result<
    Node,
    Fault,
> {
    match co {
        None => monad(f, arg, table),
        Some(CN::Fold) => folded(f, arg, table),
        Some(_) => Err(Fault::BadCode),
    }
}

/// A primitive in the dyadic role, alone or with a combinator: only the
/// scan goes with that role.
pub open spec fn applied_dyad(
    f: FN,
    co: Option<CN>,
    l: Node,
    r: Node,
    table: Seq<FloatFact>,
) -> Result<Node, Fault> {
    match co {
        None => dyad(f, l, r, table),
        Some(CN::ScanL) => scanned(f, l, r, table),
        Some(_) => Err(Fault::BadCode),
    }
}

/// Where a function of one argument finds it, and leaves its result: on
/// top of the stack, but inside a dyadic train one below the top, the top
/// being the left argument that waits for the dyadic primitive.
pub open spec fn monadic_place(m: Machine) -> Result<int, Fault> {
    if in_dyadic(m.control) {
        if m.stack.len() < 2 {
            Err(Fault::Underflow)
        } else {
            Ok(m.stack.len() - 2)
        }
    } else {
        if m.stack.len() < 1 {
            Err(Fault::Underflow)
        } else {
            Ok(m.stack.len() - 1)
        }
    }
}

/// `MO`: applies a primitive to one argument.
pub open spec fn do_mo(m: Machine, id: u8, next: int) -> Result<Machine, Fault> {
    match fn_of_id(id) {
        None => Err(Fault::BadCode),
        Some(f) => match companion(m.ops, next) {
            Err(e) => Err(e),
            Ok((co, after)) => match monadic_place(m) {
                Err(e) => Err(e),
                Ok(at) => match applied_monad(f, co, m.stack[at], m.floats) {
                    Err(e) => Err(e),
                    Ok(v) => Ok(moved(m, m.stack.update(at, v), m.control, after)),
                },
            },
        },
    }
}

/// The stack after a function of two arguments: the left argument, on
/// top, and the right one below it have made way for the result, twice.
pub open spec fn after_dyadic(stack: Seq<Node>, v: Node) -> Seq<Node>
    recommends
        stack.len() >= 2,
{
    stack.take(stack.len() - 2).push(v).push(v)
}

/// `DO`: applies a primitive to two arguments.
pub open spec fn do_do(m: Machine, id: u8, next: int) -> Result<Machine, Fault> {
    let n = m.stack.len() as int;
    match fn_of_id(id) {
        None => Err(Fault::BadCode),
        Some(f) => match companion(m.ops, next) {
            Err(e) => Err(e),
            Ok((co, after)) => if n < 2 {
                Err(Fault::Underflow)
            } else {
                match applied_dyad(f, co, m.stack[n - 1], m.stack[n - 2], m.floats) {
                    Err(e) => Err(e),
                    Ok(v) => Ok(moved(m, after_dyadic(m.stack, v), m.control, after)),
                }
            },
        },
    }
}

/// `GETL` and `GETR`: push the value bound to a fixed name.
pub open spec fn do_get(m: Machine, name: Seq<char>, next: int) -> Result<Machine, Fault> {
    match bound_value(m, name) {
        Err(e) => Err(e),
        Ok(v) => do_push(m, v, next),
    }
}

/// `LOAD`: pushes the value bound to the name at a pool index.
pub open spec fn do_load(m: Machine, i: u16, next: int) -> Result<Machine, Fault> {
    match name_at(m.consts, i as int) {
        None => Err(Fault::BadCode),
        Some(name) => do_get(m, name, next),
    }
}

/// `STORE`: takes the top of the stack into the pool, at a new index, and
/// binds the name at a pool index to it.
pub open spec fn do_store(m: Machine, i: u16, next: int) -> Result<Machine, Fault> {
    match name_at(m.consts, i as int) {
        None => Err(Fault::BadCode),
        Some(name) => if m.stack.len() == 0 {
            Err(Fault::Underflow)
        } else if m.consts.len() > u16::MAX {
            Err(Fault::Overflow)
        } else {
            Ok(
                Machine {
                    consts: m.consts.push(m.stack.last()),
                    names: m.names.insert(name, m.consts.len() as u16),
                    ..moved(m, m.stack.drop_last(), m.control, next)
                },
            )
        },
    }
}

/// The function that a call names: the value bound to the name at a pool
/// index, which must be a function of `arity` arguments.
pub open spec fn callee(m: Machine, i: u16, arity: usize) -> Result<Node, Fault> {
    match name_at(m.consts, i as int) {
        None => Err(Fault::BadCode),
        Some(name) => match bound_value(m, name) {
            Err(e) => Err(e),
            Ok(v) => match v.n {
                Term::Fun { arity: a, ops: _, consts: _ } => if a == arity {
                    Ok(v)
                } else {
                    Err(Fault::Arity)
                },
                _ => Err(Fault::NotCallable),
            },
        },
    }
}

/// The machine that runs the body of a function: its own code and
/// constants, no names, the arguments on the value stack and no frames.
pub open spec fn inner(
    fun: Node,
    args: Seq<Node>,
    limit: nat,
    depth: nat,
    fuel: nat,
    floats: Seq<FloatFact>,
) -> Machine {
    Machine {
        ops: fun.n->Fun_ops,
        consts: fun.n->Fun_consts,
        names: Map::empty(),
        stack: args,
        control: Seq::empty(),
        ip: 0,
        last: None,
        limit,
        depth,
        fuel,
        floats,
    }
}

/// What a run that is over has to give: the top of the stack.
pub open spec fn outcome(end: (Machine, Option<Fault>)) -> Result<Node, Fault> {
    match end.1 {
        Some(e) => Err(e),
        None => if end.0.stack.len() == 0 {
            Err(Fault::Underflow)
        } else {
            Ok(end.0.stack.last())
        },
    }
}

/// The result of a function on arguments: what the run of its body gives,
/// in a machine of its own. It depends on the function, the arguments and
/// the limits and floating-point results of the machine that calls, and on
/// nothing else of that machine.
pub open spec fn call(
    fun: Node,
    args: Seq<Node>,
    limit: nat,
    depth: nat,
    fuel: nat,
    floats: Seq<FloatFact>,
) -> Result<Node, Fault>
    decreases depth, fuel, 3nat,
{
    if !(fun.n is Fun) {
        Err(Fault::NotCallable)
    } else if args.len() > limit {
        Err(Fault::Overflow)
    } else {
        outcome(run(inner(fun, args, limit, depth, fuel, floats)))
    }
}

/// `MCALL`: calls a function of one argument.
pub open spec fn do_mcall(m: Machine, i: u16, next: int) -> Result<Machine, Fault>
    decreases m.depth, m.fuel, 0nat,
{
    match callee(m, i, 1) {
        Err(e) => Err(e),
        Ok(fun) => match monadic_place(m) {
            Err(e) => Err(e),
            Ok(at) => if m.fuel == 0 {
                Err(Fault::Exhausted)
            } else if m.depth == 0 {
                Err(Fault::Overflow)
            } else {
                match call(
                    fun,
                    seq![m.stack[at]],
                    m.limit,
                    (m.depth - 1) as nat,
                    (m.fuel - 1) as nat,
                    m.floats,
                ) {
                    Err(e) => Err(e),
                    Ok(v) => Ok(moved(m, m.stack.update(at, v), m.control, next)),
                }
            },
        },
    }
}

/// `DCALL`: calls a function of two arguments, the left one first.
pub open spec fn do_dcall(m: Machine, i: u16, next: int) -> Result<Machine, Fault>
    decreases m.depth, m.fuel, 0nat,
{
    let n = m.stack.len() as int;
    match callee(m, i, 2) {
        Err(e) => Err(e),
        Ok(fun) => if n < 2 {
            Err(Fault::Underflow)
        } else if m.fuel == 0 {
            Err(Fault::Exhausted)
        } else if m.depth == 0 {
            Err(Fault::Overflow)
        } else {
            match call(
                fun,
                seq![m.stack[n - 1], m.stack[n - 2]],
                m.limit,
                (m.depth - 1) as nat,
                (m.fuel - 1) as nat,
                m.floats,
            ) {
                Err(e) => Err(e),
                Ok(v) => Ok(moved(m, after_dyadic(m.stack, v), m.control, next)),
            }
        },
    }
}

/// One instruction: the machine after it, or the failure, which leaves the
/// machine as it was.
pub open spec fn step(m: Machine) -> Result<Machine, Fault>
    decreases m.depth, m.fuel, 1nat,
{
    if m.fuel == 0 {
        Err(Fault::Exhausted)
    } else {
        match decoding(m.ops, m.ip) {
            None => Err(Fault::BadCode),
            Some(op) => {
                let next = m.ip + 1 + operand_len(op);
                match op {
                    OP::CONST(i) => do_const(m, i, next),
                    OP::POP => do_pop(m, next),
                    OP::JMP(a) => do_jmp(m, a),
                    OP::GETL => do_get(m, seq!['w'], next),
                    OP::GETR => do_get(m, seq!['a'], next),
                    OP::DUP(a) => do_dup(m, a, next),
                    OP::MBL(a) => do_mbl(m, a, next),
                    OP::DBL(a) => do_dbl(m, a, next),
                    OP::END => do_end(m, next),
                    OP::MO(id) => do_mo(m, id, next),
                    OP::DO(id) => do_do(m, id, next),
                    OP::CO(_) => Err(Fault::BadCode),
                    OP::STORE(i) => do_store(m, i, next),
                    OP::LOAD(i) => do_load(m, i, next),
                    OP::MCALL(i) => do_mcall(m, i, next),
                    OP::DCALL(i) => do_dcall(m, i, next),
                }
            },
        }
    }
}

/// Whether the program is over: no instruction stands at the address of
/// the next one.
pub open spec fn halted(m: Machine) -> bool {
    m.ip < 0 || m.ip >= m.ops.len()
}

/// The run of a machine: one instruction after the other until the
/// program is over, an instruction fails, or no step is left. It gives the
/// machine at the end and the failure, if there was one.
pub open spec fn run(m: Machine) -> (Machine, Option<Fault>)
    decreases m.depth, m.fuel, 2nat,
{
    if halted(m) {
        (m, None)
    } else if m.fuel == 0 {
        (m, Some(Fault::Exhausted))
    } else {
        match step(m) {
            Err(e) => (m, Some(e)),
            Ok(m2) => run(Machine { depth: m.depth, fuel: (m.fuel - 1) as nat, ..m2 }),
        }
    }
}


/// The machine that is about to run a program from its start, with empty
/// stacks.
pub open spec fn fresh(
    p: Program,
    limit: nat,
    depth: nat,
    fuel: nat,
    floats: Seq<FloatFact>,
) -> Machine {
    Machine {
        ops: p.ops,
        consts: p.consts,
        names: p.names,
        stack: Seq::empty(),
        control: Seq::empty(),
        ip: 0,
        last: None,
        limit,
        depth,
        fuel,
        floats,
    }
}

/// Whether what an instruction did to a machine is what its specification
/// says: on success the machine is the one specified, and on failure the
/// failure is the one specified and the machine is as it was.
pub open spec fn lands(
    before: Machine,
    after: Machine,
    res: Result<(), LErrEnum>,
    s: Result<Machine, Fault>,
) -> bool {
    match res {
        Ok(_) => s == Ok::<Machine, Fault>(after),
        Err(e) => s == Err::<Machine, Fault>(e@) && after == before,
    }
}

/// The content of a sequence of nodes with one more at its end.
pub proof fn lemma_nodes_push(l: Seq<NN>, x: NN)
    ensures
        nodes_of(l.push(x)) == nodes_of(l).push(x@),
{
    assert(nodes_of(l.push(x)) =~= nodes_of(l).push(x@));
}

/// A stack machine that runs a compiled program.
pub struct V {
    /// The program; its pool and name table grow as the program binds names.
    pub b: B,
    /// The value stack.
    pub s: Vec<NN>,
    /// The control stack.
    pub context: Vec<C>,
    /// The address of the next instruction.
    pub ip: usize,
    /// The value that was popped last.
    pub last: Option<NN>,
    /// The failure that ended the last run, if one did.
    pub error: Option<LErrEnum>,
    /// How deep each stack may grow.
    pub limit: usize,
    /// How deep calls may still nest.
    pub depth: usize,
    /// How many instructions may still run.
    pub fuel: u64,
    /// The results of floating-point arithmetic that the machine may use.
    pub floats: Vec<FloatFact>,
}

impl View for V {
    type V = Machine;

    open spec fn view(&self) -> Machine {
        Machine {
            ops: self.b.op@,
            consts: nodes_of(self.b.var@),
            names: self.b.lookup@,
            stack: nodes_of(self.s@),
            control: self.context@,
            ip: self.ip as int,
            last: match self.last {
                Some(n) => Some(n@),
                None => None,
            },
            limit: self.limit as nat,
            depth: self.depth as nat,
            fuel: self.fuel as nat,
            floats: self.floats@,
        }
    }
}

impl V {
    /// A machine for a program, with the usual limits: stacks and calls
    /// 512 deep, and as many steps as a `u64` counts.
    pub fn new(b: B) -> (v: V)
        ensures
            v@ == fresh(b@, STACK_SIZE as nat, STACK_SIZE as nat, u64::MAX as nat, Seq::empty()),
            v.error is None,
    {
        V::with_limits(b, STACK_SIZE, STACK_SIZE, u64::MAX)
    }

    /// A machine for a program, with limits of the caller's choice.
    pub fn with_limits(b: B, limit: usize, depth: usize, fuel: u64) -> (v: V)
        ensures
            v@ == fresh(b@, limit as nat, depth as nat, fuel as nat, Seq::empty()),
            v.error is None,
    {
        let v = V {
            b,
            s: Vec::new(),
            context: Vec::new(),
            ip: 0,
            last: None,
            error: None,
            limit,
            depth,
            fuel,
            floats: Vec::new(),
        };
        assert(nodes_of(v.s@) =~= Seq::empty());
        v
    }

    /// Adds a result of floating-point arithmetic to those that the machine
    /// may use. A result that the machine holds already stays as it is.
    pub fn learn(&mut self, fact: FloatFact)
        ensures
            final(self)@ == (Machine { floats: old(self)@.floats.push(fact), ..old(self)@ }),
            final(self).error == old(self).error,
    {
        self.floats.push(fact);
    }

    /// The constant pool and the name table as they are now.
    pub fn env(&self) -> (e: Env)
        ensures
            e@ == (Scope { consts: self@.consts, names: self@.names }),
    {
        Env { var: copy_nodes(&self.b.var), lookup: self.b.lookup.clone() }
    }

    /// Reads the two operand bytes of the instruction at `ip` as one number.
    pub fn get_usize(&self, ip: usize) -> (x: usize)
        requires
            ip + 2 < self@.ops.len(),
        ensures
            x == self@.ops[ip + 1] * 256 + self@.ops[ip + 2],
    {
        let n = self.b.op.len();
        assert(ip + 2 < n);
        u8_to_u(self.b.op[ip + 1], self.b.op[ip + 2])
    }

    /// Pushes a value. Fails on a full stack.
    pub fn push(&mut self, node: NN) -> (res: Result<(), LErrEnum>)
        ensures
            res is Ok <==> old(self)@.stack.len() < old(self)@.limit,
            match res {
                Ok(_) => final(self)@ == (Machine {
                    stack: old(self)@.stack.push(node@),
                    ..old(self)@
                }),
                Err(e) => e@ == Fault::Overflow && final(self)@ == old(self)@,
            },
            final(self).error == old(self).error,
    {
        if self.s.len() >= self.limit {
            return Err(LErrEnum::Overflow);
        }
        proof {
            lemma_nodes_push(self.s@, node);
        }
        self.s.push(node);
        Ok(())
    }

    /// Takes the top value off the stack, and keeps it as the value popped
    /// last. Fails on an empty stack.
    pub fn pop(&mut self) -> (res: Result<NN, LErrEnum>)
        ensures
            res is Ok <==> old(self)@.stack.len() > 0,
            match res {
                Ok(v) => v@ == old(self)@.stack.last() && final(self)@ == (Machine {
                    stack: old(self)@.stack.drop_last(),
                    last: Some(v@),
                    ..old(self)@
                }),
                Err(e) => e@ == Fault::Underflow && final(self)@ == old(self)@,
            },
            final(self).error == old(self).error,
    {
        match self.s.pop() {
            Some(v) => {
                proof {
                    assert(nodes_of(self.s@) =~= nodes_of(old(self).s@).drop_last());
                }
                self.last = Some(v.clone());
                Ok(v)
            },
            None => Err(LErrEnum::Underflow),
        }
    }

    /// A copy of the top value. Fails on an empty stack.
    pub fn get(&self) -> (res: Result<NN, LErrEnum>)
        ensures
            match res {
                Ok(v) => self@.stack.len() > 0 && v@ == self@.stack.last(),
                Err(e) => e@ == Fault::Underflow && self@.stack.len() == 0,
            },
    {
        if self.s.len() == 0 {
            Err(LErrEnum::Underflow)
        } else {
            Ok(self.s[self.s.len() - 1].clone())
        }
    }

    /// Pushes a control frame. Fails on a full control stack.
    pub fn cpush(&mut self, node: C) -> (res: Result<(), LErrEnum>)
        ensures
            res is Ok <==> old(self)@.control.len() < old(self)@.limit,
            match res {
                Ok(_) => final(self)@ == (Machine {
                    control: old(self)@.control.push(node),
                    ..old(self)@
                }),
                Err(e) => e@ == Fault::Overflow && final(self)@ == old(self)@,
            },
            final(self).error == old(self).error,
    {
        if self.context.len() >= self.limit {
            return Err(LErrEnum::Overflow);
        }
        self.context.push(node);
        Ok(())
    }

    /// The innermost control frame; with no frame, a `DUP` frame at address
    /// zero.
    pub fn cget(&self) -> (c: C)
        ensures
            c == (if self@.control.len() > 0 {
                self@.control.last()
            } else {
                C { ip: 0, t: BL::DUP }
            }),
            (c.t == BL::DBL) == in_dyadic(self@.control),
    {
        if self.context.len() > 0 {
            self.context[self.context.len() - 1]
        } else {
            C { ip: 0, t: BL::DUP }
        }
    }

    /// Takes the innermost control frame off. Fails with no frame.
    pub fn cpop(&mut self) -> (res: Result<C, LErrEnum>)
        ensures
            res is Ok <==> old(self)@.control.len() > 0,
            match res {
                Ok(c) => c == old(self)@.control.last() && final(self)@ == (Machine {
                    control: old(self)@.control.drop_last(),
                    ..old(self)@
                }),
                Err(e) => e@ == Fault::Underflow && final(self)@ == old(self)@,
            },
            final(self).error == old(self).error,
    {
        match self.context.pop() {
            Some(c) => Ok(c),
            None => Err(LErrEnum::Underflow),
        }
    }

    /// Pushes a copy of the top value.
    pub fn dup(&mut self) -> (res: Result<(), LErrEnum>)
        ensures
            match res {
                Ok(_) => old(self)@.stack.len() >= 1 && final(self)@ == (Machine {
                    stack: doubled(old(self)@.stack),
                    ..old(self)@
                }),
                Err(e) => final(self)@ == old(self)@ && e@ == (if old(self)@.stack.len() < 1 {
                    Fault::Underflow
                } else {
                    Fault::Overflow
                }),
            },
            res is Ok <==> 1 <= old(self)@.stack.len() < old(self)@.limit,
            final(self).error == old(self).error,
    {
        if self.s.len() < 1 {
            return Err(LErrEnum::Underflow);
        }
        let node = self.s[self.s.len() - 1].clone();
        self.push(node)
    }

    /// Pushes a copy of the value below the top one.
    pub fn ddup(&mut self) -> (res: Result<(), LErrEnum>)
        ensures
            match res {
                Ok(_) => old(self)@.stack.len() >= 2 && final(self)@ == (Machine {
                    stack: old(self)@.stack.push(old(self)@.stack[old(self)@.stack.len() - 2]),
                    ..old(self)@
                }),
                Err(e) => final(self)@ == old(self)@ && e@ == (if old(self)@.stack.len() < 2 {
                    Fault::Underflow
                } else {
                    Fault::Overflow
                }),
            },
            res is Ok <==> 2 <= old(self)@.stack.len() < old(self)@.limit,
            final(self).error == old(self).error,
    {
        if self.s.len() < 2 {
            return Err(LErrEnum::Underflow);
        }
        let node = self.s[self.s.len() - 2].clone();
        self.push(node)
    }

    /// The value that was popped last, if one was.
    pub fn pop_last(&self) -> (r: Option<&NN>)
        ensures
            match r {
                Some(v) => self@.last == Some(v@),
                None => self@.last is None,
            },
    {
        match &self.last {
            Some(v) => Some(v),
            None => None,
        }
    }
}


/// A copy of a vector of floating-point results.
pub fn copy_facts(l: &Vec<FloatFact>) -> (r: Vec<FloatFact>)
    ensures
        r@ == l@,
{
    let mut r: Vec<FloatFact> = Vec::new();
    let mut i: usize = 0;
    while i < l.len()
        invariant
            i <= l.len(),
            r.len() == i,
            forall|j: int| 0 <= j < i ==> r[j] == l[j],
        decreases l.len() - i,
    {
        r.push(l[i]);
        i += 1;
    }
    assert(r@ =~= l@);
    r
}

/// The primitive of an identifier byte, if the byte is one.
pub fn fn_of_byte(by: u8) -> (r: Option<FN>)
    ensures
        r == fn_of_id(by),
{
    if 1 <= by && by <= 10 {
        Some(byte_to_fn(by))
    } else {
        None
    }
}

/// The combinator of an identifier byte, if the byte is one.
pub fn co_of_byte(by: u8) -> (r: Option<CN>)
    ensures
        r == co_of_id(by),
{
    if 1 <= by && by <= 3 {
        Some(byte_to_co(by))
    } else {
        None
    }
}

/// How many operand bytes an instruction has.
pub fn operands(op: OP) -> (n: usize)
    ensures
        n == operand_len(op),
{
    match op {
        OP::POP | OP::GETL | OP::GETR | OP::END => 0,
        OP::MO(_) | OP::DO(_) | OP::CO(_) => 1,
        _ => 2,
    }
}

/// Applies a primitive in the monadic role, alone or with a combinator.
pub fn apply_monad(f: FN, co: Option<CN>, arg: &NN, floats: &Vec<FloatFact>) -> (res: Result<
    NN,
    LErrEnum,
>)
    ensures
        agrees(res, applied_monad(f, co, arg@, floats@)),
{
    match co {
        None => monadic(f, arg, floats),
        Some(CN::Fold) => fold(f, arg, floats),
        Some(_) => Err(LErrEnum::BadCode),
    }
}

/// Applies a primitive in the dyadic role, alone or with a combinator.
pub fn apply_dyad(
    f: FN,
    co: Option<CN>,
    lhs: &NN,
    rhs: &NN,
    floats: &Vec<FloatFact>,
) -> (res: Result<NN, LErrEnum>)
    ensures
        agrees(res, applied_dyad(f, co, lhs@, rhs@, floats@)),
{
    match co {
        None => dyadic(f, lhs, rhs, floats),
        Some(CN::ScanL) => scan(f, lhs, rhs, floats),
        Some(_) => Err(LErrEnum::BadCode),
    }
}

/// Runs the body of a function on arguments, in a machine of its own, and
/// gives what it leaves on top of its stack.
pub fn invoke(
    fun: &NN,
    args: Vec<NN>,
    limit: usize,
    depth: usize,
    fuel: u64,
    floats: &Vec<FloatFact>,
) -> (res: Result<NN, LErrEnum>)
    ensures
        result_of(res) == call(
            fun@,
            nodes_of(args@),
            limit as nat,
            depth as nat,
            fuel as nat,
            floats@,
        ),
    decreases depth, fuel, 3nat,
{
    proof {
        lemma_term_of(fun.n);
    }
    match &fun.n {
        E::UFNV { arity: _, ops, consts } => {
            if args.len() > limit {
                return Err(LErrEnum::Overflow);
            }
            let mut vm = V {
                b: B { op: copy_bytes(ops), var: copy_nodes(consts), lookup: Names::new() },
                s: args,
                context: Vec::new(),
                ip: 0,
                last: None,
                error: None,
                limit,
                depth,
                fuel,
                floats: copy_facts(floats),
            };
            assert(vm@ == inner(
                fun@,
                nodes_of(args@),
                limit as nat,
                depth as nat,
                fuel as nat,
                floats@,
            ));
            match vm.r() {
                Err(e) => Err(e),
                Ok(_) => vm.get(),
            }
        },
        _ => Err(LErrEnum::NotCallable),
    }
}

impl V {
    /// Goes to the address `next`, one step used.
    fn advance(&mut self, next: usize)
        requires
            old(self).fuel > 0,
        ensures
            final(self)@ == moved(old(self)@, old(self)@.stack, old(self)@.control, next as int),
            final(self).error == old(self).error,
            final(self).s == old(self).s,
            final(self).context == old(self).context,
    {
        self.ip = next;
        self.fuel = self.fuel - 1;
    }

    /// The combinator behind a primitive whose own bytes end at `next`, and
    /// the address behind both.
    pub fn companion(&self, next: usize) -> (res: Result<(Option<CN>, usize), LErrEnum>)
        requires
            next <= self@.ops.len(),
        ensures
            match res {
                Ok((co, after)) => companion(self@.ops, next as int) == Ok::<
                    (Option<CN>, int),
                    Fault,
                >((co, after as int)) && after <= self@.ops.len(),
                Err(e) => companion(self@.ops, next as int) == Err::<(Option<CN>, int), Fault>(e@),
            },
    {
        let n = self.b.op.len();
        match fetch(&self.b.op, next) {
            Some(OP::CO(id)) => match co_of_byte(id) {
                Some(c) => {
                    assert(next + 1 < n);
                    Ok((Some(c), next + 2))
                },
                None => Err(LErrEnum::BadCode),
            },
            _ => Ok((None, next)),
        }
    }

    /// Where a function of one argument finds it on the stack.
    pub fn place(&self) -> (res: Result<usize, LErrEnum>)
        ensures
            match res {
                Ok(at) => monadic_place(self@) == Ok::<int, Fault>(at as int) && at < self.s.len(),
                Err(e) => monadic_place(self@) == Err::<int, Fault>(e@),
            },
    {
        let need: usize = if self.cget().t == BL::DBL {
            2
        } else {
            1
        };
        if self.s.len() < need {
            Err(LErrEnum::Underflow)
        } else {
            Ok(self.s.len() - need)
        }
    }

    /// Applies a primitive in the monadic role to the top of the stack, which
    /// makes way for the result.
    pub fn cmo(&mut self, co: Option<CN>, fun: FN) -> (res: Result<(), LErrEnum>)
        ensures
            match res {
                Ok(_) => old(self)@.stack.len() > 0 && applied_monad(
                    fun,
                    co,
                    old(self)@.stack.last(),
                    old(self)@.floats,
                ) == Ok::<Node, Fault>(final(self)@.stack.last()) && final(self)@ == (Machine {
                    stack: old(self)@.stack.drop_last().push(final(self)@.stack.last()),
                    ..old(self)@
                }),
                Err(e) => final(self)@ == old(self)@ && (if old(self)@.stack.len() == 0 {
                    e@ == Fault::Underflow
                } else {
                    applied_monad(fun, co, old(self)@.stack.last(), old(self)@.floats) == Err::<
                        Node,
                        Fault,
                    >(e@)
                }),
            },
            final(self).error == old(self).error,
    {
        let n = self.s.len();
        if n == 0 {
            return Err(LErrEnum::Underflow);
        }
        let v = apply_monad(fun, co, &self.s[n - 1], &self.floats)?;
        self.s.set(n - 1, v);
        assert(nodes_of(self.s@) =~= nodes_of(old(self).s@).drop_last().push(v@));
        Ok(())
    }

    /// Applies a primitive in the dyadic role to the top of the stack, the
    /// left argument, and the value below it, the right one. Both make way
    /// for the result.
    pub fn cdo(&mut self, co: Option<CN>, fun: FN) -> (res: Result<(), LErrEnum>)
        ensures
            match res {
                Ok(_) => old(self)@.stack.len() >= 2 && applied_dyad(
                    fun,
                    co,
                    old(self)@.stack[old(self)@.stack.len() - 1],
                    old(self)@.stack[old(self)@.stack.len() - 2],
                    old(self)@.floats,
                ) == Ok::<Node, Fault>(final(self)@.stack.last()) && final(self)@ == (Machine {
                    stack: old(self)@.stack.take(old(self)@.stack.len() - 2).push(
                        final(self)@.stack.last(),
                    ),
                    ..old(self)@
                }),
                Err(e) => final(self)@ == old(self)@ && (if old(self)@.stack.len() < 2 {
                    e@ == Fault::Underflow
                } else {
                    applied_dyad(
                        fun,
                        co,
                        old(self)@.stack[old(self)@.stack.len() - 1],
                        old(self)@.stack[old(self)@.stack.len() - 2],
                        old(self)@.floats,
                    ) == Err::<Node, Fault>(e@)
                }),
            },
            final(self).error == old(self).error,
    {
        let n = self.s.len();
        if n < 2 {
            return Err(LErrEnum::Underflow);
        }
        let v = apply_dyad(fun, co, &self.s[n - 1], &self.s[n - 2], &self.floats)?;
        self.s.truncate(n - 2);
        self.s.push(v);
        assert(nodes_of(self.s@) =~= nodes_of(old(self).s@).take(n - 2).push(v@));
        Ok(())
    }

    /// The value that a name is bound to.
    pub fn bound(&self, name: &str) -> (res: Result<NN, LErrEnum>)
        ensures
            result_of(res) == bound_value(self@, name@),
    {
        match self.b.lookup.get(name) {
            None => Err(LErrEnum::Unbound),
            Some(i) => {
                if (i as usize) >= self.b.var.len() {
                    Err(LErrEnum::BadCode)
                } else {
                    Ok(self.b.var[i as usize].clone())
                }
            },
        }
    }

    /// The value bound to the name that is held at index `i` of the pool.
    pub fn bound_at(&self, i: u16) -> (res: Result<NN, LErrEnum>)
        ensures
            result_of(res) == (match name_at(self@.consts, i as int) {
                None => Err(Fault::BadCode),
                Some(name) => bound_value(self@, name),
            }),
    {
        if (i as usize) >= self.b.var.len() {
            return Err(LErrEnum::BadCode);
        }
        match &self.b.var[i as usize].n {
            E::ST(name) => self.bound(name.as_str()),
            _ => Err(LErrEnum::BadCode),
        }
    }

    /// The function that a call names.
    pub fn callee(&self, i: u16, arity: usize) -> (res: Result<NN, LErrEnum>)
        ensures
            result_of(res) == callee(self@, i, arity),
    {
        let v = self.bound_at(i)?;
        proof {
            lemma_term_of(v.n);
        }
        match &v.n {
            E::UFNV { arity: a, ops: _, consts: _ } => {
                if *a == arity {
                    Ok(v)
                } else {
                    Err(LErrEnum::Arity)
                }
            },
            _ => Err(LErrEnum::NotCallable),
        }
    }

    /// Pushes a value and goes on at `next`.
    fn op_push(&mut self, v: NN, next: usize) -> (res: Result<(), LErrEnum>)
        requires
            old(self).fuel > 0,
        ensures
            lands(old(self)@, final(self)@, res, do_push(old(self)@, v@, next as int)),
            final(self).error == old(self).error,
    {
        if self.s.len() >= self.limit {
            return Err(LErrEnum::Overflow);
        }
        proof {
            lemma_nodes_push(self.s@, v);
        }
        self.s.push(v);
        self.advance(next);
        Ok(())
    }

    /// `CONST`.
    fn op_const(&mut self, i: u16, next: usize) -> (res: Result<(), LErrEnum>)
        requires
            old(self).fuel > 0,
        ensures
            lands(old(self)@, final(self)@, res, do_const(old(self)@, i, next as int)),
            final(self).error == old(self).error,
    {
        if (i as usize) >= self.b.var.len() {
            return Err(LErrEnum::BadCode);
        }
        let v = self.b.var[i as usize].clone();
        self.op_push(v, next)
    }

    /// `POP`.
    fn op_pop(&mut self, next: usize) -> (res: Result<(), LErrEnum>)
        requires
            old(self).fuel > 0,
        ensures
            lands(old(self)@, final(self)@, res, do_pop(old(self)@, next as int)),
            final(self).error == old(self).error,
    {
        match self.pop() {
            Err(e) => Err(e),
            Ok(_) => {
                self.advance(next);
                Ok(())
            },
        }
    }

    /// Pushes copies of the `count` values on top, in their order, and a
    /// control frame.
    fn op_enter(&mut self, count: usize, c: C, next: usize) -> (res: Result<(), LErrEnum>)
        requires
            old(self).fuel > 0,
            count <= 2,
        ensures
            lands(
                old(self)@,
                final(self)@,
                res,
                if old(self)@.stack.len() < count {
                    Err(Fault::Underflow)
                } else {
                    do_enter(
                        old(self)@,
                        if count == 0 {
                            old(self)@.stack
                        } else if count == 1 {
                            doubled(old(self)@.stack)
                        } else {
                            doubled_pair(old(self)@.stack)
                        },
                        c,
                        next as int,
                    )
                },
            ),
            final(self).error == old(self).error,
    {
        let n = self.s.len();
        if n < count {
            return Err(LErrEnum::Underflow);
        }
        if n > self.limit || count > self.limit - n || self.context.len() >= self.limit {
            return Err(LErrEnum::Overflow);
        }
        if count == 1 {
            let a = self.s[n - 1].clone();
            proof {
                lemma_nodes_push(self.s@, a);
            }
            self.s.push(a);
        } else if count == 2 {
            let a = self.s[n - 2].clone();
            let b = self.s[n - 1].clone();
            proof {
                lemma_nodes_push(self.s@, a);
                lemma_nodes_push(self.s@.push(a), b);
            }
            self.s.push(a);
            self.s.push(b);
        }
        self.context.push(c);
        self.advance(next);
        Ok(())
    }

    /// `END`.
    fn op_end(&mut self, next: usize) -> (res: Result<(), LErrEnum>)
        requires
            old(self).fuel > 0,
        ensures
            lands(old(self)@, final(self)@, res, do_end(old(self)@, next as int)),
            final(self).error == old(self).error,
    {
        let n = self.s.len();
        let k = self.context.len();
        if k == 0 {
            let end = self.b.op.len();
            self.advance(end);
            return Ok(());
        }
        let c = self.context[k - 1];
        let nested = k >= 2 && self.context[k - 2].t == BL::DBL;
        assert(nested == in_dyadic(self.context@.drop_last()));
        match c.t {
            BL::MBL => {
                if n < 2 {
                    return Err(LErrEnum::Underflow);
                }
                let v = self.s[n - 1].clone();
                self.s.truncate(n - 2);
                self.s.push(v);
                assert(nodes_of(self.s@) =~= nodes_of(old(self).s@).take(n - 2).push(
                    nodes_of(old(self).s@)[n - 1],
                ));
            },
            BL::DBL => {
                if nested {
                    if n < 5 {
                        return Err(LErrEnum::Underflow);
                    }
                    let v = self.s[n - 2].clone();
                    let p = self.s[n - 5].clone();
                    self.s.truncate(n - 5);
                    self.s.push(v);
                    self.s.push(p);
                    assert(nodes_of(self.s@) =~= nodes_of(old(self).s@).take(n - 5).push(
                        nodes_of(old(self).s@)[n - 2],
                    ).push(nodes_of(old(self).s@)[n - 5]));
                } else {
                    if n < 4 {
                        return Err(LErrEnum::Underflow);
                    }
                    let v = self.s[n - 2].clone();
                    self.s.truncate(n - 4);
                    self.s.push(v);
                    assert(nodes_of(self.s@) =~= nodes_of(old(self).s@).take(n - 4).push(
                        nodes_of(old(self).s@)[n - 2],
                    ));
                }
            },
            _ => {},
        }
        self.context.truncate(k - 1);
        assert(self.context@ =~= old(self).context@.drop_last());
        self.advance(next);
        Ok(())
    }

    /// `MO`, with the combinator behind it where one stands there.
    fn op_mo(&mut self, id: u8, next: usize) -> (res: Result<(), LErrEnum>)
        requires
            old(self).fuel > 0,
            next <= old(self)@.ops.len(),
        ensures
            lands(old(self)@, final(self)@, res, do_mo(old(self)@, id, next as int)),
            final(self).error == old(self).error,
    {
        let f = match fn_of_byte(id) {
            Some(f) => f,
            None => {
                return Err(LErrEnum::BadCode);
            },
        };
        let (co, after) = self.companion(next)?;
        let at = self.place()?;
        let v = apply_monad(f, co, &self.s[at], &self.floats)?;
        self.s.set(at, v);
        assert(nodes_of(self.s@) =~= nodes_of(old(self).s@).update(at as int, v@));
        self.advance(after);
        Ok(())
    }

    /// `DO`, with the combinator behind it where one stands there.
    fn op_do(&mut self, id: u8, next: usize) -> (res: Result<(), LErrEnum>)
        requires
            old(self).fuel > 0,
            next <= old(self)@.ops.len(),
        ensures
            lands(old(self)@, final(self)@, res, do_do(old(self)@, id, next as int)),
            final(self).error == old(self).error,
    {
        let f = match fn_of_byte(id) {
            Some(f) => f,
            None => {
                return Err(LErrEnum::BadCode);
            },
        };
        let (co, after) = self.companion(next)?;
        let n = self.s.len();
        if n < 2 {
            return Err(LErrEnum::Underflow);
        }
        let v = apply_dyad(f, co, &self.s[n - 1], &self.s[n - 2], &self.floats)?;
        let w = v.clone();
        self.s.set(n - 2, v);
        self.s.set(n - 1, w);
        assert(nodes_of(self.s@) =~= after_dyadic(nodes_of(old(self).s@), v@));
        self.advance(after);
        Ok(())
    }

    /// `GETL` and `GETR`.
    fn op_get(&mut self, name: &str, next: usize) -> (res: Result<(), LErrEnum>)
        requires
            old(self).fuel > 0,
        ensures
            lands(old(self)@, final(self)@, res, do_get(old(self)@, name@, next as int)),
            final(self).error == old(self).error,
    {
        let v = self.bound(name)?;
        self.op_push(v, next)
    }

    /// `LOAD`.
    fn op_load(&mut self, i: u16, next: usize) -> (res: Result<(), LErrEnum>)
        requires
            old(self).fuel > 0,
        ensures
            lands(old(self)@, final(self)@, res, do_load(old(self)@, i, next as int)),
            final(self).error == old(self).error,
    {
        let v = self.bound_at(i)?;
        self.op_push(v, next)
    }

    /// `STORE`.
    fn op_store(&mut self, i: u16, next: usize) -> (res: Result<(), LErrEnum>)
        requires
            old(self).fuel > 0,
        ensures
            lands(old(self)@, final(self)@, res, do_store(old(self)@, i, next as int)),
            final(self).error == old(self).error,
    {
        if (i as usize) >= self.b.var.len() {
            return Err(LErrEnum::BadCode);
        }
        let name = match &self.b.var[i as usize].n {
            E::ST(name) => name.clone(),
            _ => {
                return Err(LErrEnum::BadCode);
            },
        };
        let n = self.s.len();
        if n == 0 {
            return Err(LErrEnum::Underflow);
        }
        let at = self.b.var.len();
        if at > 65535 {
            return Err(LErrEnum::Overflow);
        }
        let v = self.s[n - 1].clone();
        self.s.truncate(n - 1);
        assert(nodes_of(self.s@) =~= nodes_of(old(self).s@).drop_last());
        proof {
            lemma_nodes_push(self.b.var@, v);
        }
        self.b.var.push(v);
        self.b.lookup.insert(name.as_str(), at as u16);
        self.advance(next);
        Ok(())
    }

    /// `MCALL`.
    fn op_mcall(&mut self, i: u16, next: usize) -> (res: Result<(), LErrEnum>)
        requires
            old(self).fuel > 0,
        ensures
            lands(old(self)@, final(self)@, res, do_mcall(old(self)@, i, next as int)),
            final(self).error == old(self).error,
        decreases old(self).depth, old(self).fuel, 0nat,
    {
        let fun = self.callee(i, 1)?;
        let at = self.place()?;
        if self.depth == 0 {
            return Err(LErrEnum::Overflow);
        }
        let mut args: Vec<NN> = Vec::new();
        args.push(self.s[at].clone());
        assert(nodes_of(args@) =~= seq![self@.stack[at as int]]);
        let v = invoke(&fun, args, self.limit, self.depth - 1, self.fuel - 1, &self.floats)?;
        self.s.set(at, v);
        assert(nodes_of(self.s@) =~= nodes_of(old(self).s@).update(at as int, v@));
        self.advance(next);
        Ok(())
    }

    /// `DCALL`.
    fn op_dcall(&mut self, i: u16, next: usize) -> (res: Result<(), LErrEnum>)
        requires
            old(self).fuel > 0,
        ensures
            lands(old(self)@, final(self)@, res, do_dcall(old(self)@, i, next as int)),
            final(self).error == old(self).error,
        decreases old(self).depth, old(self).fuel, 0nat,
    {
        let fun = self.callee(i, 2)?;
        let n = self.s.len();
        if n < 2 {
            return Err(LErrEnum::Underflow);
        }
        if self.depth == 0 {
            return Err(LErrEnum::Overflow);
        }
        let mut args: Vec<NN> = Vec::new();
        args.push(self.s[n - 1].clone());
        args.push(self.s[n - 2].clone());
        assert(nodes_of(args@) =~= seq![self@.stack[n - 1], self@.stack[n - 2]]);
        let v = invoke(&fun, args, self.limit, self.depth - 1, self.fuel - 1, &self.floats)?;
        let w = v.clone();
        self.s.set(n - 2, v);
        self.s.set(n - 1, w);
        assert(nodes_of(self.s@) =~= after_dyadic(nodes_of(old(self).s@), v@));
        self.advance(next);
        Ok(())
    }

    /// Runs one instruction. A failure leaves the machine as it was.
    pub fn step(&mut self) -> (res: Result<(), LErrEnum>)
        ensures
            lands(old(self)@, final(self)@, res, step(old(self)@)),
            final(self).error == old(self).error,
            res is Ok ==> final(self).depth == old(self).depth && final(self).fuel + 1 == old(
                self,
            ).fuel,
        decreases old(self).depth, old(self).fuel, 1nat,
    {
        if self.fuel == 0 {
            return Err(LErrEnum::Exhausted);
        }
        let op = match fetch(&self.b.op, self.ip) {
            Some(op) => op,
            None => {
                return Err(LErrEnum::BadCode);
            },
        };
        let n = self.b.op.len();
        assert(self.ip + operand_len(op) < n);
        let next = self.ip + 1 + operands(op);
        match op {
            OP::CONST(i) => self.op_const(i, next),
            OP::POP => self.op_pop(next),
            OP::JMP(a) => self.op_enter(0, C::new(a as usize, BL::JMP), a as usize),
            OP::GETL => {
                proof {
                    reveal_strlit("w");
                    assert("w"@ =~= seq!['w']);
                }
                self.op_get("w", next)
            },
            OP::GETR => {
                proof {
                    reveal_strlit("a");
                    assert("a"@ =~= seq!['a']);
                }
                self.op_get("a", next)
            },
            OP::DUP(a) => {
                let count: usize = if self.cget().t == BL::DBL {
                    2
                } else {
                    1
                };
                self.op_enter(count, C::new(a as usize, BL::DUP), next)
            },
            OP::MBL(a) => self.op_enter(1, C::new(a as usize, BL::MBL), next),
            OP::DBL(a) => self.op_enter(2, C::new(a as usize, BL::DBL), next),
            OP::END => self.op_end(next),
            OP::MO(id) => self.op_mo(id, next),
            OP::DO(id) => self.op_do(id, next),
            OP::CO(_) => Err(LErrEnum::BadCode),
            OP::STORE(i) => self.op_store(i, next),
            OP::LOAD(i) => self.op_load(i, next),
            OP::MCALL(i) => self.op_mcall(i, next),
            OP::DCALL(i) => self.op_dcall(i, next),
        }
    }

    /// Runs the program until it is over, an instruction fails, or no step
    /// is left. A failure is returned and kept in `error`; the machine then
    /// stands before the instruction that failed, with the pool and the name
    /// table as the instructions before it left them.
    pub fn r(&mut self) -> (res: Result<(), LErrEnum>)
        ensures
            run(old(self)@) == (
                final(self)@,
                match res {
                    Ok(_) => None::<Fault>,
                    Err(e) => Some(e@),
                },
            ),
            match res {
                Ok(_) => final(self).error is None,
                Err(e) => final(self).error is Some && final(self).error->0@ == e@,
            },
        decreases old(self).depth, old(self).fuel, 2nat,
    {
        self.error = None;
        while self.ip < self.b.op.len()
            invariant
                run(old(self)@) == run(self@),
                self.depth == old(self).depth,
                self.fuel <= old(self).fuel,
                self.error is None,
            decreases self.fuel,
        {
            if self.fuel == 0 {
                self.error = Some(LErrEnum::Exhausted);
                return Err(LErrEnum::Exhausted);
            }
            let ghost before = self@;
            match self.step() {
                Ok(_) => {
                    assert(self@ == (Machine {
                        depth: before.depth,
                        fuel: (before.fuel - 1) as nat,
                        ..self@
                    }));
                },
                Err(e) => {
                    self.error = Some(e.clone());
                    return Err(e);
                },
            }
        }
        Ok(())
    }
}

} // verus!
