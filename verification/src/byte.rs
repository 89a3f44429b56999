//! Compiled programs, environments, and the compiler.

use vstd::prelude::*;
use vstd::std_specs::cmp::PartialEqSpecImpl;

use crate::ast::{
    copy_bytes, copy_nodes, copy_texts, eq_bytes, eq_nodes, lemma_term_of, nodes_of, same_nodes,
    texts_of, val, CN, E, FN, NN, Node, Term,
};
use crate::err::{Fault, Flaw, LErr, LErrEnum};
use crate::names::{str_eq, Names};
use crate::num::FloatFact;
use crate::op::{co_id, encoding, fn_id, get_cnop, get_fnop, make_op, operand_len, u16_to_u8, OP};
use crate::parse::{parse, read};
use crate::sound::{
    functions_well_formed, law_expression_keeps_well_formed, law_program_is_well_formed,
    law_read_functions_well_formed, law_sequence_keeps_well_formed, well_formed,
    well_formed_so_far,
};

verus! {

/// A compiled program: the code, the constant pool that the code refers to
/// by index, and the table of the names that are bound to a pool index.
#[derive(Debug)]
pub struct B {
    /// The code: each instruction is an opcode and its operand bytes.
    pub op: Vec<u8>,
    /// The constant pool.
    pub var: Vec<NN>,
    /// The name table.
    pub lookup: Names,
}

/// The mathematical content of a compiled program.
pub struct Program {
    pub ops: Seq<u8>,
    pub consts: Seq<Node>,
    pub names: Map<Seq<char>, u16>,
}

impl View for B {
    type V = Program;

    open spec fn view(&self) -> Program {
        Program { ops: self.op@, consts: nodes_of(self.var@), names: self.lookup@ }
    }
}

impl Clone for B {
    fn clone(&self) -> (r: B)
        ensures
            r@ == self@,
    {
        B { op: copy_bytes(&self.op), var: copy_nodes(&self.var), lookup: self.lookup.clone() }
    }
}

impl PartialEq for B {
    fn eq(&self, other: &B) -> (r: bool) {
        eq_bytes(&self.op, &other.op) && eq_nodes(&self.var, &other.var) && self.lookup.same(
            &other.lookup,
        )
    }
}

impl PartialEqSpecImpl for B {
    open spec fn obeys_eq_spec() -> bool {
        true
    }

    /// Two programs are equal where their code is the same, their pools
    /// hold equal values, and their names are bound alike.
    open spec fn eq_spec(&self, other: &B) -> bool {
        self@.ops == other@.ops && same_nodes(self@.consts, other@.consts) && self@.names
            == other@.names
    }
}

/// What one line of a session leaves to the next: the constant pool and the
/// name table.
#[derive(Debug)]
pub struct Env {
    pub var: Vec<NN>,
    pub lookup: Names,
}

/// The mathematical content of an environment.
pub struct Scope {
    pub consts: Seq<Node>,
    pub names: Map<Seq<char>, u16>,
}

impl View for Env {
    type V = Scope;

    open spec fn view(&self) -> Scope {
        Scope { consts: nodes_of(self.var@), names: self.lookup@ }
    }
}

impl Clone for Env {
    fn clone(&self) -> (r: Env)
        ensures
            r@ == self@,
    {
        Env { var: copy_nodes(&self.var), lookup: self.lookup.clone() }
    }
}

impl Env {
    /// The environment of a session that has bound nothing yet.
    pub fn new() -> (r: Env)
        ensures
            r@ == (Scope { consts: Seq::empty(), names: Map::empty() }),
    {
        let r = Env { var: Vec::new(), lookup: Names::new() };
        assert(nodes_of(r.var@) =~= Seq::empty());
        r
    }
}


/// The role in which an element of a train is applied: to two arguments or
/// to one.
#[derive(Debug, Default, Copy, Clone, PartialEq, Eq, Structural)]
pub enum SET {
    DBL,
    #[default]
    MBL,
}

/// The state of a compilation, as mathematics: the code and the pool so
/// far, the names that were bound before the program, and the names that
/// the program itself binds, which hide a binding of before.
pub struct Unit {
    pub ops: Seq<u8>,
    pub consts: Seq<Node>,
    pub names: Map<Seq<char>, u16>,
    pub hidden: Seq<Seq<char>>,
}

/// The place of a node in the source, with no text.
pub open spec fn flaw_at(n: Node) -> Flaw {
    Flaw { error: Seq::empty(), start: n.start, end: n.end }
}

/// One more instruction at the end of the code. The code may not grow past
/// what a `u16` can address.
pub open spec fn emitted(u: Unit, op: OP) -> Result<Unit, Fault> {
    if u.ops.len() + 1 + operand_len(op) > u16::MAX {
        Err(Fault::Overflow)
    } else {
        Ok(Unit { ops: u.ops + encoding(op), ..u })
    }
}

/// One more constant at the end of the pool, and its index. The pool may
/// not grow past what a `u16` can index.
pub open spec fn with_const(u: Unit, v: Node) -> Result<(Unit, u16), Fault> {
    if u.consts.len() > u16::MAX {
        Err(Fault::Overflow)
    } else {
        Ok((Unit { consts: u.consts.push(v), ..u }, u.consts.len() as u16))
    }
}

/// A value put into the pool and pushed from there.
pub open spec fn pooled(u: Unit, v: Node) -> Result<Unit, Fault> {
    match with_const(u, v) {
        Err(e) => Err(e),
        Ok((u1, i)) => emitted(u1, OP::CONST(i)),
    }
}

/// The code with the operand of the instruction at `at` set to `addr`.
pub open spec fn patched(ops: Seq<u8>, at: int, addr: int) -> Seq<u8> {
    ops.update(at + 1, (addr / 256) as u8).update(at + 2, (addr % 256) as u8)
}

/// Whether a name has a value that is known when the program is compiled:
/// it was bound before the program, to an index inside the pool, and the
/// program has not bound it anew.
pub open spec fn is_bound(u: Unit, name: Seq<char>) -> bool {
    u.names.contains_key(name) && u.names[name] < u.consts.len() && !u.hidden.contains(name)
}

/// Whether an expression leaves a value on the stack: a binding leaves
/// none, a block what its last expression leaves.
pub open spec fn leaves_value(n: Node) -> bool
    decreases n,
{
    match n.n {
        Term::Assign { .. } => false,
        Term::DoBlock(xs) => xs.len() > 0 && leaves_value(xs.last()),
        _ => true,
    }
}

/// Whether an expression binds the name `x` when it runs: it is a binding
/// of `x`, or such a binding stands in it where it runs with it, in the
/// bound expression of a binding, among the expressions of a block or among
/// the arguments of an application. The body of a function does not run
/// where the function is written down.
pub open spec fn binds(n: Node, x: Seq<char>) -> bool
    decreases n, 0nat,
{
    match n.n {
        Term::Assign { name, rhs } => name == x || binds(*rhs, x),
        Term::DoBlock(xs) => binds_any(xs, xs.len() as int, x),
        Term::Apply { train: _, args } => binds_any(args, args.len() as int, x),
        _ => false,
    }
}

/// Whether one of the first `k` expressions binds the name `x` when it
/// runs.
pub open spec fn binds_any(xs: Seq<Node>, k: int, x: Seq<char>) -> bool
    decreases xs, k,
{
    if k <= 0 || k > xs.len() {
        false
    } else {
        binds_any(xs, k - 1, x) || binds(xs[k - 1], x)
    }
}

/// A literal as the constant it stands for: a scalar or a function as it
/// is, a bound name as its value, a list as the list of what its elements
/// stand for. A name that is not bound has no value here, and nothing else
/// can stand in a list.
pub open spec fn frozen(u: Unit, n: Node) -> Result<Node, Fault>
    decreases n,
{
    match n.n {
        Term::Int(_) => Ok(n),
        Term::Bool(_) => Ok(n),
        Term::Float(_) => Ok(n),
        Term::Str(_) => Ok(n),
        Term::Fun { .. } => Ok(n),
        Term::Val(name) => if is_bound(u, name) {
            Ok(u.consts[u.names[name] as int])
        } else {
            Err(Fault::ValueExpected(Flaw { error: name, start: n.start, end: n.end }))
        },
        Term::List(xs) => match frozen_all(u, xs) {
            Ok(vs) => Ok(Node { n: Term::List(vs), start: n.start, end: n.end }),
            Err(e) => Err(e),
        },
        _ => Err(Fault::TermExpected(flaw_at(n))),
    }
}

/// The constants that the elements of a list stand for, in order, or the
/// first failure.
pub open spec fn frozen_all(u: Unit, xs: Seq<Node>) -> Result<Seq<Node>, Fault>
    decreases xs,
{
    if xs.len() == 0 {
        Ok(Seq::empty())
    } else {
        match frozen_all(u, xs.drop_last()) {
            Err(e) => Err(e),
            Ok(vs) => match frozen(u, xs.last()) {
                Err(e) => Err(e),
                Ok(v) => Ok(vs.push(v)),
            },
        }
    }
}

/// The primitive that an element of a train names, if it names one.
pub open spec fn prim_of(n: Node) -> Option<FN> {
    match n.n {
        Term::Mfn(f) => Some(f),
        Term::Dfn(f) => Some(f),
        Term::Mop(f) => Some(f),
        _ => None,
    }
}

/// Whether the element at place `k` of a train is applied to two
/// arguments: in a train for two arguments the leftmost element is, unless
/// it is marked as monadic.
pub open spec fn dyadic_at(t: Seq<Node>, k: int, two: bool) -> bool {
    two && k == 0 && !(t[k].n is Mop)
}

/// Whether a combinator goes with a role: the fold with the monadic one,
/// the scan with the dyadic one.
pub open spec fn fits(c: CN, dyadic: bool) -> bool {
    (c == CN::Fold && !dyadic) || (c == CN::ScanL && dyadic)
}

/// The instruction that applies a primitive in a role.
pub open spec fn prim_op(f: FN, dyadic: bool) -> OP {
    if dyadic {
        OP::DO(fn_id(f))
    } else {
        OP::MO(fn_id(f))
    }
}

/// The instruction that calls the function named at a pool index in a role.
pub open spec fn call_op(i: u16, dyadic: bool) -> OP {
    if dyadic {
        OP::DCALL(i)
    } else {
        OP::MCALL(i)
    }
}

/// The combinator that stands alone to the left of the element at place
/// `k` of a train, and so belongs to that element.
pub open spec fn trailing(t: Seq<Node>, k: int) -> Option<CN> {
    if k >= 1 && t[k - 1].n is Cn {
        Some(t[k - 1].n->Cn_0)
    } else {
        None
    }
}

/// The code that applies a primitive in a role, with the combinator that
/// belongs to it, if one does. The combinator must go with the role; `at`
/// is the node to blame where it does not.
pub open spec fn applied(u: Unit, f: FN, role: bool, co: Option<CN>, at: Node) -> Result<
    Unit,
    Fault,
> {
    match co {
        None => emitted(u, prim_op(f, role)),
        Some(c) => if fits(c, role) {
            match emitted(u, prim_op(f, role)) {
                Err(e) => Err(e),
                Ok(u1) => emitted(u1, OP::CO(co_id(c))),
            }
        } else {
            Err(Fault::FnExpected(flaw_at(at)))
        },
    }
}

/// The code that calls the function of a name in a role.
pub open spec fn called(u: Unit, name: Seq<char>, dyadic: bool) -> Result<Unit, Fault> {
    match with_const(u, val(Term::Str(name))) {
        Err(e) => Err(e),
        Ok((u1, i)) => emitted(u1, call_op(i, dyadic)),
    }
}

/// The code for the element at place `k` of the train `t`. A primitive is
/// applied in the role of its place, with the combinator that stands alone
/// to the left of it, where one does. Such a combinator has no code of its
/// own, but must have a primitive to the right of it. A name is called as
/// a function.
pub open spec fn element(u: Unit, t: Seq<Node>, k: int, two: bool) -> Result<Unit, Fault> {
    let e = t[k];
    let dyadic = dyadic_at(t, k, two);
    match e.n {
        Term::Mfn(f) => applied(u, f, dyadic, trailing(t, k), t[k - 1]),
        Term::Dfn(f) => applied(u, f, dyadic, trailing(t, k), t[k - 1]),
        Term::Mop(f) => applied(u, f, false, trailing(t, k), t[k - 1]),
        Term::Cn(c) => if k + 1 < t.len() && prim_of(t[k + 1]) is Some {
            Ok(u)
        } else {
            Err(Fault::TrainExpected(flaw_at(e)))
        },
        Term::Mco { o, co } => paired(u, *o, *co, dyadic),
        Term::Dco { o, co } => paired(u, *o, *co, dyadic),
        Term::Val(name) => called(u, name, dyadic),
        Term::FnVal(name) => called(u, name, dyadic),
        _ => Err(Fault::TrainExpected(flaw_at(e))),
    }
}

/// The code for a primitive with a combinator attached to it.
pub open spec fn paired(u: Unit, o: Node, co: Node, dyadic: bool) -> Result<Unit, Fault> {
    match (prim_of(o), co.n) {
        (Some(f), Term::Cn(c)) => applied(u, f, dyadic && !(o.n is Mop), Some(c), co),
        _ => Err(Fault::MonadicFunctionExpected),
    }
}

/// The code for the elements of a train from place `k` on, the rightmost
/// first.
pub open spec fn train_from(u: Unit, t: Seq<Node>, k: int, two: bool) -> Result<Unit, Fault>
    decreases t.len() - k,
{
    if k < 0 || k >= t.len() {
        Ok(u)
    } else {
        match train_from(u, t, k + 1, two) {
            Err(e) => Err(e),
            Ok(u1) => element(u1, t, k, two),
        }
    }
}

/// The code for a train between the instruction that enters it and the
/// `END` that leaves it. The instruction that enters it names the address
/// behind the `END`.
pub open spec fn framed(u: Unit, open: OP, t: Seq<Node>, two: bool) -> Result<Unit, Fault> {
    match emitted(u, open) {
        Err(e) => Err(e),
        Ok(u1) => match train_from(u1, t, 0, two) {
            Err(e) => Err(e),
            Ok(u2) => match emitted(u2, OP::END) {
                Err(e) => Err(e),
                Ok(u3) => Ok(
                    Unit { ops: patched(u3.ops, u.ops.len() as int, u3.ops.len() as int), ..u3 },
                ),
            },
        },
    }
}

/// The code that binds the parameters from place `k` on to the arguments
/// on the stack, the last parameter first.
pub open spec fn stored_from(u: Unit, params: Seq<Seq<char>>, k: int) -> Result<Unit, Fault>
    decreases params.len() - k,
{
    if k < 0 || k >= params.len() {
        Ok(u)
    } else {
        match stored_from(u, params, k + 1) {
            Err(e) => Err(e),
            Ok(u1) => match with_const(u1, val(Term::Str(params[k]))) {
                Err(e) => Err(e),
                Ok((u2, i)) => emitted(u2, OP::STORE(i)),
            },
        }
    }
}

/// The code for an expression.
///
/// A literal goes into the pool and is pushed from there. A name that is
/// bound is pushed from its place in the pool, any other name is loaded
/// when the program runs. A binding is the code of its expression and a
/// `STORE`; from there on the name counts as not bound. A block is the
/// code of its expressions. An application is the code of its arguments,
/// the right one first, and of its train. What is bound, and what a train
/// is applied to, must be an expression that leaves a value.
///
/// A function is compiled apart, with addresses that count from the start
/// of its body: the code that binds its parameters, its body as a block,
/// and an `END`. The function value holds that code and the pool as it is
/// behind the body. The program jumps over the body and pushes the value.
pub open spec fn compiled(u: Unit, n: Node) -> Result<Unit, Fault>
    decreases n, 0nat,
{
    match n.n {
        Term::Int(_) => pooled(u, n),
        Term::Bool(_) => pooled(u, n),
        Term::Float(_) => pooled(u, n),
        Term::Str(_) => pooled(u, n),
        Term::Fun { .. } => pooled(u, n),
        Term::List(_) => match frozen(u, n) {
            Err(e) => Err(e),
            Ok(v) => pooled(u, v),
        },
        Term::Val(name) => if is_bound(u, name) {
            emitted(u, OP::CONST(u.names[name]))
        } else {
            match with_const(u, val(Term::Str(name))) {
                Err(e) => Err(e),
                Ok((u1, i)) => emitted(u1, OP::LOAD(i)),
            }
        },
        Term::Assign { name, rhs } => if !leaves_value(*rhs) {
            Err(Fault::Standard(flaw_at(*rhs)))
        } else {
            match compiled(u, *rhs) {
                Err(e) => Err(e),
                Ok(u1) => match with_const(u1, val(Term::Str(name))) {
                    Err(e) => Err(e),
                    Ok((u2, i)) => match emitted(u2, OP::STORE(i)) {
                        Err(e) => Err(e),
                        Ok(u3) => Ok(Unit { hidden: u3.hidden.push(name), ..u3 }),
                    },
                },
            }
        },
        Term::DoBlock(xs) => sequence(u, xs, xs.len() as int, true),
        Term::Lambda { params, body } => {
            let sub = Unit { ops: Seq::empty(), hidden: u.hidden + params, ..u };
            match stored_from(sub, params, 0) {
                Err(e) => Err(e),
                Ok(s1) => match sequence(s1, body, body.len() as int, true) {
                    Err(e) => Err(e),
                    Ok(s2) => match emitted(s2, OP::END) {
                        Err(e) => Err(e),
                        Ok(s3) => {
                            let addr = u.ops.len() + 3 + s3.ops.len();
                            if addr > u16::MAX {
                                Err(Fault::Overflow)
                            } else {
                                pooled(
                                    Unit {
                                        ops: u.ops + encoding(OP::JMP(addr as u16)) + s3.ops,
                                        consts: s3.consts,
                                        ..u
                                    },
                                    val(
                                        Term::Fun {
                                            arity: params.len() as usize,
                                            ops: s3.ops,
                                            consts: s3.consts,
                                        },
                                    ),
                                )
                            }
                        },
                    },
                },
            }
        },
        Term::Apply { train, args } => if train.len() == 0 {
            Err(Fault::TrainExpected(flaw_at(n)))
        } else if args.len() == 1 {
            if !leaves_value(args[0]) {
                Err(Fault::Standard(flaw_at(args[0])))
            } else {
                match compiled(u, args[0]) {
                    Err(e) => Err(e),
                    Ok(u1) => framed(u1, OP::MBL(0), train, false),
                }
            }
        } else if args.len() == 2 {
            if !leaves_value(args[1]) {
                Err(Fault::Standard(flaw_at(args[1])))
            } else if !leaves_value(args[0]) {
                Err(Fault::Standard(flaw_at(args[0])))
            } else {
                match compiled(u, args[1]) {
                    Err(e) => Err(e),
                    Ok(u1) => match compiled(u1, args[0]) {
                        Err(e) => Err(e),
                        Ok(u2) => framed(u2, OP::DBL(0), train, true),
                    },
                }
            }
        } else {
            Err(Fault::Standard(flaw_at(n)))
        },
        _ => Err(Fault::Standard(flaw_at(n))),
    }
}

/// The code for the first `k` expressions of a sequence. Behind each
/// expression that leaves a value stands a `POP`; with `keep`, not behind
/// the last expression of the sequence, whose value is that of the whole.
pub open spec fn sequence(u: Unit, xs: Seq<Node>, k: int, keep: bool) -> Result<Unit, Fault>
    decreases xs, k,
{
    if k <= 0 || k > xs.len() {
        Ok(u)
    } else {
        match sequence(u, xs, k - 1, keep) {
            Err(e) => Err(e),
            Ok(u1) => match compiled(u1, xs[k - 1]) {
                Err(e) => Err(e),
                Ok(u2) => if leaves_value(xs[k - 1]) && !(keep && k == xs.len()) {
                    emitted(u2, OP::POP)
                } else {
                    Ok(u2)
                },
            },
        }
    }
}

/// The state in which the compilation of a line starts: no code, and the
/// pool and the names that the lines before it left.
pub open spec fn opening(env: Scope) -> Unit {
    Unit { ops: Seq::empty(), consts: env.consts, names: env.names, hidden: Seq::empty() }
}

/// The program for a line: the code of its expressions, each value popped,
/// over the pool and the names that the lines before it left.
pub open spec fn program(env: Scope, ast: Seq<Node>) -> Result<Program, Fault> {
    match sequence(opening(env), ast, ast.len() as int, false) {
        Err(e) => Err(e),
        Ok(u) => Ok(Program { ops: u.ops, consts: u.consts, names: u.names }),
    }
}


/// A compiler: the program that it has built so far, and the names that
/// the program binds itself.
#[derive(Debug)]
pub struct I {
    pub b: B,
    pub hidden: Vec<String>,
}

impl View for I {
    type V = Unit;

    open spec fn view(&self) -> Unit {
        Unit {
            ops: self.b.op@,
            consts: nodes_of(self.b.var@),
            names: self.b.lookup@,
            hidden: texts_of(self.hidden@),
        }
    }
}

/// Whether a step of a compilation did what its specification says: on
/// success the state is the one specified, and a failure is the one
/// specified.
pub open spec fn built(after: Unit, res: Result<u16, LErrEnum>, s: Result<Unit, Fault>) -> bool {
    match res {
        Ok(len) => s == Ok::<Unit, Fault>(after) && len == after.ops.len(),
        Err(e) => s == Err::<Unit, Fault>(e@),
    }
}

/// What a compilation keeps of the state it started from: the names, and
/// the code, the pool and the hidden names as the beginning of what they
/// are now.
pub open spec fn extends(u: Unit, r: Unit) -> bool {
    &&& r.names == u.names
    &&& u.ops.len() <= r.ops.len()
    &&& r.ops.take(u.ops.len() as int) == u.ops
    &&& u.consts.len() <= r.consts.len()
    &&& r.consts.take(u.consts.len() as int) == u.consts
    &&& u.hidden.len() <= r.hidden.len()
    &&& r.hidden.take(u.hidden.len() as int) == u.hidden
}

/// A state extends itself.
pub proof fn lemma_extends_self(u: Unit)
    ensures
        extends(u, u),
{
    assert(u.ops.take(u.ops.len() as int) =~= u.ops);
    assert(u.consts.take(u.consts.len() as int) =~= u.consts);
    assert(u.hidden.take(u.hidden.len() as int) =~= u.hidden);
}

/// What extends an extension extends the state before it.
pub proof fn lemma_extends_chain(a: Unit, b: Unit, c: Unit)
    requires
        extends(a, b),
        extends(b, c),
    ensures
        extends(a, c),
{
    assert(c.ops.take(a.ops.len() as int) =~= c.ops.take(b.ops.len() as int).take(
        a.ops.len() as int,
    ));
    assert(c.consts.take(a.consts.len() as int) =~= c.consts.take(b.consts.len() as int).take(
        a.consts.len() as int,
    ));
    assert(c.hidden.take(a.hidden.len() as int) =~= c.hidden.take(b.hidden.len() as int).take(
        a.hidden.len() as int,
    ));
}

/// One more instruction extends the state.
pub proof fn lemma_emitted_extends(u: Unit, op: OP)
    ensures
        emitted(u, op) matches Ok(r) ==> extends(u, r),
{
    if let Ok(r) = emitted(u, op) {
        lemma_extends_self(u);
        assert(r.ops.take(u.ops.len() as int) =~= u.ops);
    }
}

/// One more constant extends the state.
pub proof fn lemma_with_const_extends(u: Unit, v: Node)
    ensures
        with_const(u, v) matches Ok(r) ==> extends(u, r.0),
{
    if let Ok(r) = with_const(u, v) {
        lemma_extends_self(u);
        assert(r.0.consts.take(u.consts.len() as int) =~= u.consts);
    }
}

/// A value put into the pool and pushed from there extends the state.
pub proof fn lemma_pooled_extends(u: Unit, v: Node)
    ensures
        pooled(u, v) matches Ok(r) ==> extends(u, r),
{
    lemma_with_const_extends(u, v);
    if let Ok((u1, i)) = with_const(u, v) {
        lemma_emitted_extends(u1, OP::CONST(i));
        if let Ok(r) = emitted(u1, OP::CONST(i)) {
            lemma_extends_chain(u, u1, r);
        }
    }
}

/// The code that applies a primitive extends the state.
pub proof fn lemma_applied_extends(u: Unit, f: FN, role: bool, co: Option<CN>, at: Node)
    ensures
        applied(u, f, role, co, at) matches Ok(r) ==> extends(u, r),
{
    lemma_emitted_extends(u, prim_op(f, role));
    if let Some(c) = co {
        if let Ok(u1) = emitted(u, prim_op(f, role)) {
            lemma_emitted_extends(u1, OP::CO(co_id(c)));
            if let Ok(r) = emitted(u1, OP::CO(co_id(c))) {
                lemma_extends_chain(u, u1, r);
            }
        }
    }
}

/// The code of a call by name extends the state.
pub proof fn lemma_called_extends(u: Unit, name: Seq<char>, dyadic: bool)
    ensures
        called(u, name, dyadic) matches Ok(r) ==> extends(u, r),
{
    lemma_with_const_extends(u, val(Term::Str(name)));
    if let Ok((u1, i)) = with_const(u, val(Term::Str(name))) {
        lemma_emitted_extends(u1, call_op(i, dyadic));
        if let Ok(r) = emitted(u1, call_op(i, dyadic)) {
            lemma_extends_chain(u, u1, r);
        }
    }
}

/// The code of an element of a train extends the state.
pub proof fn lemma_element_extends(u: Unit, t: Seq<Node>, k: int, two: bool)
    requires
        0 <= k < t.len(),
    ensures
        element(u, t, k, two) matches Ok(r) ==> extends(u, r),
{
    let e = t[k];
    let dyadic = dyadic_at(t, k, two);
    match e.n {
        Term::Mfn(f) => lemma_applied_extends(u, f, dyadic, trailing(t, k), t[k - 1]),
        Term::Dfn(f) => lemma_applied_extends(u, f, dyadic, trailing(t, k), t[k - 1]),
        Term::Mop(f) => lemma_applied_extends(u, f, false, trailing(t, k), t[k - 1]),
        Term::Cn(c) => lemma_extends_self(u),
        Term::Mco { o, co } => {
            if let (Some(f), Term::Cn(c)) = (prim_of(*o), co.n) {
                lemma_applied_extends(u, f, dyadic && !(o.n is Mop), Some(c), *co);
            }
        },
        Term::Dco { o, co } => {
            if let (Some(f), Term::Cn(c)) = (prim_of(*o), co.n) {
                lemma_applied_extends(u, f, dyadic && !(o.n is Mop), Some(c), *co);
            }
        },
        Term::Val(name) => lemma_called_extends(u, name, dyadic),
        Term::FnVal(name) => lemma_called_extends(u, name, dyadic),
        _ => {},
    }
}

/// The code of a train extends the state.
pub proof fn lemma_train_extends(u: Unit, t: Seq<Node>, k: int, two: bool)
    requires
        0 <= k <= t.len(),
    ensures
        train_from(u, t, k, two) matches Ok(r) ==> extends(u, r),
    decreases t.len() - k,
{
    if k < t.len() {
        lemma_train_extends(u, t, k + 1, two);
        if let Ok(u1) = train_from(u, t, k + 1, two) {
            lemma_element_extends(u1, t, k, two);
            if let Ok(r) = element(u1, t, k, two) {
                lemma_extends_chain(u, u1, r);
            }
        }
    } else {
        lemma_extends_self(u);
    }
}

/// The code of a train in its frame extends the state.
pub proof fn lemma_framed_extends(u: Unit, open: OP, t: Seq<Node>, two: bool)
    requires
        operand_len(open) == 2,
    ensures
        framed(u, open, t, two) matches Ok(r) ==> extends(u, r),
{
    lemma_emitted_extends(u, open);
    if let Ok(u1) = emitted(u, open) {
        lemma_train_extends(u1, t, 0, two);
        if let Ok(u2) = train_from(u1, t, 0, two) {
            lemma_emitted_extends(u2, OP::END);
            if let Ok(u3) = emitted(u2, OP::END) {
                lemma_extends_chain(u, u1, u2);
                lemma_extends_chain(u, u2, u3);
                let r = Unit { ops: patched(u3.ops, u.ops.len() as int, u3.ops.len() as int), ..u3 };
                assert(r.ops.take(u.ops.len() as int) =~= u3.ops.take(u.ops.len() as int));
            }
        }
    }
}

/// The code that binds parameters extends the state.
pub proof fn lemma_stored_extends(u: Unit, params: Seq<Seq<char>>, k: int)
    requires
        0 <= k <= params.len(),
    ensures
        stored_from(u, params, k) matches Ok(r) ==> extends(u, r),
    decreases params.len() - k,
{
    if k < params.len() {
        lemma_stored_extends(u, params, k + 1);
        if let Ok(u1) = stored_from(u, params, k + 1) {
            lemma_with_const_extends(u1, val(Term::Str(params[k])));
            if let Ok((u2, i)) = with_const(u1, val(Term::Str(params[k]))) {
                lemma_emitted_extends(u2, OP::STORE(i));
                if let Ok(r) = emitted(u2, OP::STORE(i)) {
                    lemma_extends_chain(u, u1, u2);
                    lemma_extends_chain(u, u2, r);
                }
            }
        }
    } else {
        lemma_extends_self(u);
    }
}

/// The code of an expression extends the state.
pub proof fn lemma_compiled_extends(u: Unit, n: Node)
    ensures
        compiled(u, n) matches Ok(r) ==> extends(u, r),
    decreases n, 0nat,
{
    match n.n {
        Term::Int(_) => lemma_pooled_extends(u, n),
        Term::Bool(_) => lemma_pooled_extends(u, n),
        Term::Float(_) => lemma_pooled_extends(u, n),
        Term::Str(_) => lemma_pooled_extends(u, n),
        Term::Fun { .. } => lemma_pooled_extends(u, n),
        Term::List(_) => {
            if let Ok(v) = frozen(u, n) {
                lemma_pooled_extends(u, v);
            }
        },
        Term::Val(name) => {
            if is_bound(u, name) {
                lemma_emitted_extends(u, OP::CONST(u.names[name]));
            } else {
                lemma_with_const_extends(u, val(Term::Str(name)));
                if let Ok((u1, i)) = with_const(u, val(Term::Str(name))) {
                    lemma_emitted_extends(u1, OP::LOAD(i));
                    if let Ok(r) = emitted(u1, OP::LOAD(i)) {
                        lemma_extends_chain(u, u1, r);
                    }
                }
            }
        },
        Term::Assign { name, rhs } => {
            lemma_compiled_extends(u, *rhs);
            if !leaves_value(*rhs) {
            } else if let Ok(u1) = compiled(u, *rhs) {
                lemma_with_const_extends(u1, val(Term::Str(name)));
                if let Ok((u2, i)) = with_const(u1, val(Term::Str(name))) {
                    lemma_emitted_extends(u2, OP::STORE(i));
                    if let Ok(u3) = emitted(u2, OP::STORE(i)) {
                        lemma_extends_chain(u, u1, u2);
                        lemma_extends_chain(u, u2, u3);
                        let r = Unit { hidden: u3.hidden.push(name), ..u3 };
                        assert(r.hidden.take(u.hidden.len() as int) =~= u3.hidden.take(
                            u.hidden.len() as int,
                        ));
                    }
                }
            }
        },
        Term::DoBlock(xs) => lemma_sequence_extends(u, xs, xs.len() as int, true),
        Term::Lambda { params, body } => {
            let sub = Unit { ops: Seq::empty(), hidden: u.hidden + params, ..u };
            lemma_stored_extends(sub, params, 0);
            if let Ok(s1) = stored_from(sub, params, 0) {
                lemma_sequence_extends(s1, body, body.len() as int, true);
                if let Ok(s2) = sequence(s1, body, body.len() as int, true) {
                    lemma_emitted_extends(s2, OP::END);
                    if let Ok(s3) = emitted(s2, OP::END) {
                        lemma_extends_chain(sub, s1, s2);
                        lemma_extends_chain(sub, s2, s3);
                        let addr = u.ops.len() + 3 + s3.ops.len();
                        if addr <= u16::MAX {
                            let outer = Unit {
                                ops: u.ops + encoding(OP::JMP(addr as u16)) + s3.ops,
                                consts: s3.consts,
                                ..u
                            };
                            let f = val(
                                Term::Fun {
                                    arity: params.len() as usize,
                                    ops: s3.ops,
                                    consts: s3.consts,
                                },
                            );
                            lemma_extends_self(u);
                            assert(outer.ops.take(u.ops.len() as int) =~= u.ops);
                            assert(extends(u, outer));
                            lemma_pooled_extends(outer, f);
                            if let Ok(r) = pooled(outer, f) {
                                lemma_extends_chain(u, outer, r);
                            }
                        }
                    }
                }
            }
        },
        Term::Apply { train, args } => {
            if train.len() == 0 {
            } else if args.len() == 1 {
                lemma_compiled_extends(u, args[0]);
                if let Ok(u1) = compiled(u, args[0]) {
                    lemma_framed_extends(u1, OP::MBL(0), train, false);
                    if let Ok(r) = framed(u1, OP::MBL(0), train, false) {
                        lemma_extends_chain(u, u1, r);
                    }
                }
            } else if args.len() == 2 {
                lemma_compiled_extends(u, args[1]);
                if let Ok(u1) = compiled(u, args[1]) {
                    lemma_compiled_extends(u1, args[0]);
                    if let Ok(u2) = compiled(u1, args[0]) {
                        lemma_framed_extends(u2, OP::DBL(0), train, true);
                        if let Ok(r) = framed(u2, OP::DBL(0), train, true) {
                            lemma_extends_chain(u, u1, u2);
                            lemma_extends_chain(u, u2, r);
                        }
                    }
                }
            }
        },
        _ => {},
    }
}

/// The code of a sequence of expressions extends the state.
pub proof fn lemma_sequence_extends(u: Unit, xs: Seq<Node>, k: int, keep: bool)
    ensures
        sequence(u, xs, k, keep) matches Ok(r) ==> extends(u, r),
    decreases xs, k,
{
    if k <= 0 || k > xs.len() {
        lemma_extends_self(u);
    } else {
        lemma_sequence_extends(u, xs, k - 1, keep);
        if let Ok(u1) = sequence(u, xs, k - 1, keep) {
            lemma_compiled_extends(u1, xs[k - 1]);
            if let Ok(u2) = compiled(u1, xs[k - 1]) {
                lemma_extends_chain(u, u1, u2);
                if leaves_value(xs[k - 1]) && !(keep && k == xs.len()) {
                    lemma_emitted_extends(u2, OP::POP);
                    if let Ok(r) = emitted(u2, OP::POP) {
                        lemma_extends_chain(u, u2, r);
                    }
                }
            }
        }
    }
}

/// The place of a node in the source, with no text.
pub fn place_at(n: &NN) -> (e: LErr)
    ensures
        e@ == flaw_at(n@),
{
    LErr { error: String::new(), start: n.start, end: n.end }
}

/// A failure of a node in the middle of a list is the failure of the list.
pub proof fn lemma_frozen_all_err(u: Unit, xs: Seq<Node>, k: int, e: Fault)
    requires
        0 <= k <= xs.len(),
        frozen_all(u, xs.take(k)) == Err::<Seq<Node>, Fault>(e),
    ensures
        frozen_all(u, xs) == Err::<Seq<Node>, Fault>(e),
    decreases xs.len() - k,
{
    if k == xs.len() {
        assert(xs.take(k) =~= xs);
    } else {
        assert(xs.take(k + 1).drop_last() =~= xs.take(k));
        lemma_frozen_all_err(u, xs, k + 1, e);
    }
}

impl I {
    /// A compiler for the first line of a session.
    pub fn new() -> (i: I)
        ensures
            i@ == opening(Scope { consts: Seq::empty(), names: Map::empty() }),
    {
        I::seeded(Env::new())
    }

    /// A compiler for a line that follows others, which left `env`.
    pub fn seeded(env: Env) -> (i: I)
        ensures
            i@ == opening(env@),
    {
        let i = I { b: B { op: Vec::new(), var: env.var, lookup: env.lookup }, hidden: Vec::new() };
        assert(texts_of(i.hidden@) =~= Seq::empty());
        i
    }

    /// The instruction that enters a train for a role, with an address.
    pub fn get_op(s: SET, n: u16) -> (op: OP)
        ensures
            op == (match s {
                SET::MBL => OP::MBL(n),
                SET::DBL => OP::DBL(n),
            }),
    {
        match s {
            SET::MBL => OP::MBL(n),
            SET::DBL => OP::DBL(n),
        }
    }

    /// Puts a constant at the end of the pool, and gives its index.
    pub fn addvar(&mut self, n: NN) -> (res: Result<u16, LErrEnum>)
        ensures
            match res {
                Ok(i) => with_const(old(self)@, n@) == Ok::<(Unit, u16), Fault>((final(self)@, i)),
                Err(e) => with_const(old(self)@, n@) == Err::<(Unit, u16), Fault>(e@) && final(self)@ == old(self)@,
            },
    {
        let at = self.b.var.len();
        if at > 65535 {
            return Err(LErrEnum::Overflow);
        }
        assert(nodes_of(self.b.var@.push(n)) =~= nodes_of(self.b.var@).push(n@));
        self.b.var.push(n);
        Ok(at as u16)
    }

    /// Binds a name to an index of the pool.
    pub fn addlookup(&mut self, v: &str, n: u16)
        ensures
            final(self)@ == (Unit { names: old(self)@.names.insert(v@, n), ..old(self)@ }),
    {
        self.b.lookup.insert(v, n);
    }

    /// Binds the name that a node is to an index of the pool.
    pub fn addmap(&mut self, n: &NN, ci: u16)
        requires
            n@.n is Val,
        ensures
            final(self)@ == (Unit {
                names: old(self)@.names.insert(n@.n->Val_0, ci),
                ..old(self)@
            }),
    {
        match &n.n {
            E::VAL(s) => self.addlookup(s.as_str(), ci),
            _ => {},
        }
    }

    /// Puts an instruction at the end of the code, and gives the length of
    /// the code behind it.
    pub fn addop(&mut self, op: OP) -> (res: Result<u16, LErrEnum>)
        ensures
            built(final(self)@, res, emitted(old(self)@, op)),
            res is Err ==> final(self)@ == old(self)@,
    {
        let mut bytes = make_op(op);
        if self.b.op.len() > 65535 - bytes.len() {
            return Err(LErrEnum::Overflow);
        }
        self.b.op.append(&mut bytes);
        Ok(self.b.op.len() as u16)
    }

    /// Sets the operand of the instruction at `i` to `j`.
    pub fn upop(&mut self, j: u16, i: u16)
        requires
            i + 2 < old(self)@.ops.len(),
        ensures
            final(self)@ == (Unit {
                ops: patched(old(self)@.ops, i as int, j as int),
                ..old(self)@
            }),
    {
        let bytes: [u8; 2] = u16_to_u8(j);
        self.b.op.set(i as usize + 1, bytes[0]);
        self.b.op.set(i as usize + 2, bytes[1]);
    }

    /// Whether the program has bound a name itself.
    pub fn is_hidden(&self, name: &str) -> (r: bool)
        ensures
            r == self@.hidden.contains(name@),
    {
        let mut i: usize = 0;
        while i < self.hidden.len()
            invariant
                i <= self.hidden.len(),
                forall|j: int| 0 <= j < i ==> texts_of(self.hidden@)[j] != name@,
            decreases self.hidden.len() - i,
        {
            if str_eq(self.hidden[i].as_str(), name) {
                assert(texts_of(self.hidden@)[i as int] == name@);
                return true;
            }
            i += 1;
        }
        false
    }

    /// The index of the value of a name, where one is known now.
    pub fn known(&self, name: &str) -> (r: Option<u16>)
        ensures
            match r {
                Some(i) => is_bound(self@, name@) && i == self@.names[name@],
                None => !is_bound(self@, name@),
            },
    {
        match self.b.lookup.get(name) {
            None => None,
            Some(i) => {
                if (i as usize) < self.b.var.len() && !self.is_hidden(name) {
                    Some(i)
                } else {
                    None
                }
            },
        }
    }

    /// The constant that a literal stands for.
    #[verifier::loop_isolation(false)]
    pub fn freeze(&self, n: &NN) -> (res: Result<NN, LErrEnum>)
        ensures
            match res {
                Ok(v) => frozen(self@, n@) == Ok::<Node, Fault>(v@),
                Err(e) => frozen(self@, n@) == Err::<Node, Fault>(e@),
            },
        decreases n,
    {
        proof {
            lemma_term_of(n.n);
        }
        match &n.n {
            E::INT(_) | E::BOOL(_) | E::FT(_) | E::ST(_) | E::UFNV { .. } => Ok(n.clone()),
            E::VAL(name) => match self.known(name.as_str()) {
                Some(i) => Ok(self.b.var[i as usize].clone()),
                None => Err(
                    LErrEnum::ValueExpected(LErr { error: name.clone(), start: n.start, end: n.end }),
                ),
            },
            E::LIST(xs) => {
                let mut out: Vec<NN> = Vec::new();
                let mut i: usize = 0;
                assert(nodes_of(xs@).take(0) =~= Seq::empty());
                assert(nodes_of(out@) =~= Seq::empty());
                while i < xs.len()
                    invariant
                        i <= xs.len(),
                        frozen_all(self@, nodes_of(xs@).take(i as int)) == Ok::<Seq<Node>, Fault>(
                            nodes_of(out@),
                        ),
                    decreases xs.len() - i,
                {
                    let ghost before = nodes_of(out@);
                    assert(nodes_of(xs@).take(i as int + 1).drop_last() =~= nodes_of(xs@).take(
                        i as int,
                    ));
                    assert(nodes_of(xs@).take(i as int + 1).last() == xs[i as int]@);
                    match self.freeze(&xs[i]) {
                        Ok(v) => {
                            out.push(v);
                            assert(nodes_of(out@) =~= before.push(v@));
                        },
                        Err(e) => {
                            proof {
                                lemma_frozen_all_err(self@, nodes_of(xs@), i as int + 1, e@);
                            }
                            return Err(e);
                        },
                    }
                    i += 1;
                }
                assert(nodes_of(xs@).take(i as int) =~= nodes_of(xs@));
                let r = NN { n: E::LIST(out), start: n.start, end: n.end };
                proof {
                    lemma_term_of(r.n);
                }
                Ok(r)
            },
            _ => Err(LErrEnum::TermExpected(place_at(n))),
        }
    }

    /// A value put into the pool and pushed from there.
    pub fn pool(&mut self, v: NN) -> (res: Result<(), LErrEnum>)
        ensures
            carried(final(self)@, res, pooled(old(self)@, v@)),
    {
        let i = self.addvar(v)?;
        self.addop(OP::CONST(i))?;
        Ok(())
    }

    /// A name put into the pool as a text, and its index.
    pub fn name(&mut self, name: &str) -> (res: Result<u16, LErrEnum>)
        ensures
            match res {
                Ok(i) => with_const(old(self)@, val(Term::Str(name@))) == Ok::<(Unit, u16), Fault>(
                    (final(self)@, i),
                ),
                Err(e) => with_const(old(self)@, val(Term::Str(name@))) == Err::<
                    (Unit, u16),
                    Fault,
                >(e@),
            },
    {
        self.addvar(NN::nd(E::ST(String::from_str(name))))
    }
}

/// The primitive that an element of a train names, if it names one.
pub fn prim(n: &NN) -> (r: Option<FN>)
    ensures
        r == prim_of(n@),
{
    match n.n {
        E::MFN(f) => Some(f),
        E::DFN(f) => Some(f),
        E::MOP(f) => Some(f),
        _ => None,
    }
}

/// Whether an element of a train is a primitive marked as monadic.
pub fn marked(n: &NN) -> (r: bool)
    ensures
        r == (n@.n is Mop),
{
    match n.n {
        E::MOP(_) => true,
        _ => false,
    }
}

/// Whether a combinator goes with a role.
pub fn suits(c: CN, dyadic: bool) -> (r: bool)
    ensures
        r == fits(c, dyadic),
{
    match c {
        CN::Fold => !dyadic,
        CN::ScanL => dyadic,
        CN::Each => false,
    }
}

/// Whether an expression leaves a value on the stack.
pub fn gives_value(n: &NN) -> (r: bool)
    ensures
        r == leaves_value(n@),
    decreases n,
{
    proof {
        lemma_term_of(n.n);
    }
    match &n.n {
        E::ASEXP { .. } => false,
        E::DOBLOCK(xs) => {
            if xs.len() == 0 {
                false
            } else {
                gives_value(&xs[xs.len() - 1])
            }
        },
        _ => true,
    }
}


/// Whether a compilation that went on from `old` to `after` did what its
/// specification says.
pub open spec fn carried(after: Unit, res: Result<(), LErrEnum>, s: Result<Unit, Fault>) -> bool {
    match res {
        Ok(_) => s == Ok::<Unit, Fault>(after),
        Err(e) => s == Err::<Unit, Fault>(e@),
    }
}

impl I {
    /// The code that applies a primitive in a role, with the combinator that
    /// belongs to it, if one does.
    pub fn prim_code(&mut self, f: FN, role: bool, co: Option<CN>, at: &NN) -> (res: Result<
        (),
        LErrEnum,
    >)
        ensures
            carried(final(self)@, res, applied(old(self)@, f, role, co, at@)),
    {
        let op = if role {
            OP::DO(get_fnop(f))
        } else {
            OP::MO(get_fnop(f))
        };
        match co {
            None => {
                self.addop(op)?;
                Ok(())
            },
            Some(c) => {
                if suits(c, role) {
                    self.addop(op)?;
                    self.addop(OP::CO(get_cnop(c)))?;
                    Ok(())
                } else {
                    Err(LErrEnum::FnExpected(place_at(at)))
                }
            },
        }
    }

    /// The code for a primitive with a combinator attached to it.
    pub fn pair(&mut self, o: &NN, co: &NN, dyadic: bool) -> (res: Result<(), LErrEnum>)
        ensures
            carried(final(self)@, res, paired(old(self)@, o@, co@, dyadic)),
    {
        match (prim(o), &co.n) {
            (Some(f), E::CN(c)) => self.prim_code(f, dyadic && !marked(o), Some(*c), co),
            _ => Err(LErrEnum::MonadicFunctionExpected),
        }
    }

    /// The code that calls the function of a name in a role.
    pub fn call(&mut self, name: &str, dyadic: bool) -> (res: Result<(), LErrEnum>)
        ensures
            carried(final(self)@, res, called(old(self)@, name@, dyadic)),
    {
        let i = self.name(name)?;
        let op = if dyadic {
            OP::DCALL(i)
        } else {
            OP::MCALL(i)
        };
        self.addop(op)?;
        Ok(())
    }

    /// The code for the element at place `k` of a train; `two` says whether
    /// the train is applied to two arguments.
    pub fn fnode(&mut self, t: &Vec<NN>, k: usize, two: bool) -> (res: Result<(), LErrEnum>)
        requires
            k < t.len(),
        ensures
            carried(final(self)@, res, element(old(self)@, nodes_of(t@), k as int, two)),
    {
        let e = &t[k];
        let dyadic = two && k == 0 && !marked(e);
        proof {
            lemma_term_of(e.n);
        }
        match &e.n {
            E::MFN(f) | E::DFN(f) | E::MOP(f) => {
                if k >= 1 {
                    let left = &t[k - 1];
                    match left.n {
                        E::CN(c) => self.prim_code(*f, dyadic, Some(c), left),
                        _ => self.prim_code(*f, dyadic, None, left),
                    }
                } else {
                    self.prim_code(*f, dyadic, None, e)
                }
            },
            E::CN(_) => {
                if k + 1 < t.len() && prim(&t[k + 1]).is_some() {
                    Ok(())
                } else {
                    Err(LErrEnum::TrainExpected(place_at(e)))
                }
            },
            E::MCO { o, co } => self.pair(o, co, dyadic),
            E::DCO { o, co } => self.pair(o, co, dyadic),
            E::VAL(name) => self.call(name.as_str(), dyadic),
            E::FVAL(name) => self.call(name.as_str(), dyadic),
            _ => Err(LErrEnum::TrainExpected(place_at(e))),
        }
    }

    /// The code for the elements of a train, the rightmost first.
    pub fn train(&mut self, t: &Vec<NN>, two: bool) -> (res: Result<(), LErrEnum>)
        ensures
            carried(final(self)@, res, train_from(old(self)@, nodes_of(t@), 0, two)),
    {
        let mut k: usize = t.len();
        while k > 0
            invariant
                k <= t.len(),
                train_from(old(self)@, nodes_of(t@), k as int, two) == Ok::<Unit, Fault>(self@),
            decreases k,
        {
            k -= 1;
            match self.fnode(t, k, two) {
                Ok(_) => {},
                Err(e) => {
                    proof {
                        lemma_train_err(old(self)@, nodes_of(t@), k as int, two, e@);
                    }
                    return Err(e);
                },
            }
        }
        Ok(())
    }

    /// The code for a train between the instruction that enters it and the
    /// `END` that leaves it.
    pub fn frame(&mut self, role: SET, t: &Vec<NN>) -> (res: Result<(), LErrEnum>)
        ensures
            carried(
                final(self)@,
                res,
                framed(
                    old(self)@,
                    match role {
                        SET::MBL => OP::MBL(0),
                        SET::DBL => OP::DBL(0),
                    },
                    nodes_of(t@),
                    role == SET::DBL,
                ),
            ),
    {
        let at = self.b.op.len();
        self.addop(I::get_op(role, 0))?;
        let ghost u1 = self@;
        self.train(t, role == SET::DBL)?;
        proof {
            lemma_train_extends(u1, nodes_of(t@), 0, role == SET::DBL);
        }
        let end = self.addop(OP::END)?;
        self.upop(end, at as u16);
        Ok(())
    }

    /// The code that binds the parameters of a function to the arguments
    /// on the stack, the last parameter first.
    pub fn store(&mut self, params: &Vec<String>) -> (res: Result<(), LErrEnum>)
        ensures
            carried(final(self)@, res, stored_from(old(self)@, texts_of(params@), 0)),
    {
        let mut k: usize = params.len();
        while k > 0
            invariant
                k <= params.len(),
                stored_from(old(self)@, texts_of(params@), k as int) == Ok::<Unit, Fault>(self@),
            decreases k,
        {
            k -= 1;
            let i = match self.name(params[k].as_str()) {
                Ok(i) => i,
                Err(e) => {
                    proof {
                        lemma_stored_err(old(self)@, texts_of(params@), k as int, e@);
                    }
                    return Err(e);
                },
            };
            match self.addop(OP::STORE(i)) {
                Ok(_) => {},
                Err(e) => {
                    proof {
                        lemma_stored_err(old(self)@, texts_of(params@), k as int, e@);
                    }
                    return Err(e);
                },
            }
        }
        Ok(())
    }

    /// Counts the names of `params` among those that the program binds.
    pub fn shadow(&mut self, params: &Vec<String>)
        ensures
            final(self)@ == (Unit {
                hidden: old(self)@.hidden + texts_of(params@),
                ..old(self)@
            }),
    {
        let mut k: usize = 0;
        assert(texts_of(self.hidden@) =~= old(self)@.hidden + texts_of(params@).take(0));
        while k < params.len()
            invariant
                k <= params.len(),
                self.b == old(self).b,
                texts_of(self.hidden@) == old(self)@.hidden + texts_of(params@).take(k as int),
            decreases params.len() - k,
        {
            let ghost before = texts_of(self.hidden@);
            self.hidden.push(params[k].clone());
            assert(texts_of(self.hidden@) =~= before.push(params[k as int]@));
            assert(before.push(params[k as int]@) =~= old(self)@.hidden + texts_of(params@).take(
                k as int + 1,
            ));
            k += 1;
        }
        assert(texts_of(params@).take(k as int) =~= texts_of(params@));
    }

    /// The code for a function: the jump over its body, the body, compiled
    /// apart, and the push of the function value.
    pub fn lambda(&mut self, params: &Vec<String>, body: &Vec<NN>) -> (res: Result<(), LErrEnum>)
        ensures
            carried(
                final(self)@,
                res,
                compiled(
                    old(self)@,
                    Node {
                        n: Term::Lambda { params: texts_of(params@), body: nodes_of(body@) },
                        start: 0,
                        end: 0,
                    },
                ),
            ),
        decreases body, 1nat,
    {
        let ghost start = self@;
        let mut shown = copy_texts(&self.hidden);
        self.shadow(params);
        let mut outer: Vec<u8> = Vec::new();
        core::mem::swap(&mut self.b.op, &mut outer);
        assert(self@ == (Unit {
            ops: Seq::empty(),
            hidden: start.hidden + texts_of(params@),
            ..start
        }));
        let ghost sub = self@;
        self.store(params)?;
        let ghost s1 = self@;
        self.sequence(body, true)?;
        let ghost s2 = self@;
        self.addop(OP::END)?;
        let ghost s3 = self@;
        proof {
            lemma_stored_extends(sub, texts_of(params@), 0);
            lemma_sequence_extends(s1, nodes_of(body@), body.len() as int, true);
            lemma_emitted_extends(s2, OP::END);
        }
        if outer.len() > 65532 || self.b.op.len() > 65532 - outer.len() {
            return Err(LErrEnum::Overflow);
        }
        let addr = outer.len() + 3 + self.b.op.len();
        let f = NN::nd(
            E::UFNV {
                arity: params.len(),
                ops: copy_bytes(&self.b.op),
                consts: copy_nodes(&self.b.var),
            },
        );
        proof {
            lemma_term_of(f.n);
        }
        let mut jump = make_op(OP::JMP(addr as u16));
        outer.append(&mut jump);
        outer.append(&mut self.b.op);
        core::mem::swap(&mut self.b.op, &mut outer);
        core::mem::swap(&mut self.hidden, &mut shown);
        assert(self@ == (Unit {
            ops: start.ops + encoding(OP::JMP(addr as u16)) + s3.ops,
            consts: s3.consts,
            ..start
        }));
        self.pool(f)
    }

    /// The code for an application: the arguments, the right one first,
    /// and the train.
    pub fn apply(&mut self, train: &Vec<NN>, args: &Vec<NN>) -> (res: Result<(), LErrEnum>)
        requires
            train.len() > 0,
            args.len() == 1 || args.len() == 2,
        ensures
            carried(
                final(self)@,
                res,
                compiled(
                    old(self)@,
                    Node {
                        n: Term::Apply { train: nodes_of(train@), args: nodes_of(args@) },
                        start: 0,
                        end: 0,
                    },
                ),
            ),
        decreases args, 1nat,
    {
        if args.len() == 1 {
            assert(nodes_of(args@)[0] == args[0]@);
            if !gives_value(&args[0]) {
                return Err(LErrEnum::Standard(place_at(&args[0])));
            }
            self.inode(&args[0])?;
            self.frame(SET::MBL, train)
        } else {
            assert(nodes_of(args@)[0] == args[0]@);
            assert(nodes_of(args@)[1] == args[1]@);
            if !gives_value(&args[1]) {
                return Err(LErrEnum::Standard(place_at(&args[1])));
            }
            if !gives_value(&args[0]) {
                return Err(LErrEnum::Standard(place_at(&args[0])));
            }
            self.inode(&args[1])?;
            self.inode(&args[0])?;
            self.frame(SET::DBL, train)
        }
    }

    /// The code for a name that stands for a value.
    pub fn value(&mut self, name: &str) -> (res: Result<(), LErrEnum>)
        ensures
            carried(
                final(self)@,
                res,
                compiled(old(self)@, Node { n: Term::Val(name@), start: 0, end: 0 }),
            ),
    {
        match self.known(name) {
            Some(i) => {
                self.addop(OP::CONST(i))?;
            },
            None => {
                let i = self.name(name)?;
                self.addop(OP::LOAD(i))?;
            },
        }
        Ok(())
    }

    /// The code for the binding of a name to the value of an expression.
    pub fn assign(&mut self, name: &String, rhs: &NN) -> (res: Result<(), LErrEnum>)
        ensures
            carried(
                final(self)@,
                res,
                compiled(
                    old(self)@,
                    Node { n: Term::Assign { name: name@, rhs: Box::new(rhs@) }, start: 0, end: 0 },
                ),
            ),
        decreases rhs, 1nat,
    {
        if !gives_value(rhs) {
            return Err(LErrEnum::Standard(place_at(rhs)));
        }
        self.inode(rhs)?;
        let i = self.name(name.as_str())?;
        self.addop(OP::STORE(i))?;
        let ghost before = texts_of(self.hidden@);
        self.hidden.push(name.clone());
        assert(texts_of(self.hidden@) =~= before.push(name@));
        Ok(())
    }

    /// The code for an expression. It leaves the code that was there well
    /// formed, if it was.
    pub fn inode(&mut self, n: &NN) -> (res: Result<(), LErrEnum>)
        ensures
            carried(final(self)@, res, compiled(old(self)@, n@)),
            res is Ok && well_formed_so_far(old(self)@) ==> well_formed_so_far(final(self)@),
        decreases n, 0nat,
    {
        proof {
            lemma_term_of(n.n);
            lemma_compiled_span(self@, n@);
        }
        let res = match &n.n {
            E::INT(_) | E::BOOL(_) | E::FT(_) | E::ST(_) | E::UFNV { .. } => self.pool(n.clone()),
            E::LIST(_) => {
                let v = self.freeze(n)?;
                self.pool(v)
            },
            E::VAL(name) => self.value(name.as_str()),
            E::ASEXP { name, rhs } => self.assign(name, rhs),
            E::DOBLOCK(xs) => self.sequence(xs, true),
            E::LAMBDA { params, body } => self.lambda(params, body),
            E::APPLY { train, args } => {
                if train.len() == 0 {
                    Err(LErrEnum::TrainExpected(place_at(n)))
                } else if args.len() == 1 || args.len() == 2 {
                    self.apply(train, args)
                } else {
                    Err(LErrEnum::Standard(place_at(n)))
                }
            },
            _ => Err(LErrEnum::Standard(place_at(n))),
        };
        proof {
            if res is Ok && well_formed_so_far(old(self)@) {
                law_expression_keeps_well_formed(old(self)@, n@);
            }
        }
        res
    }

    /// The code for the expressions of a sequence, each value popped; with
    /// `keep`, but for the value of the last expression. It leaves the code
    /// that was there well formed, if it was.
    pub fn sequence(&mut self, xs: &Vec<NN>, keep: bool) -> (res: Result<(), LErrEnum>)
        ensures
            carried(
                final(self)@,
                res,
                sequence(old(self)@, nodes_of(xs@), xs.len() as int, keep),
            ),
            res is Ok && well_formed_so_far(old(self)@) ==> well_formed_so_far(final(self)@),
        decreases xs, 0nat,
    {
        let mut k: usize = 0;
        while k < xs.len()
            invariant
                k <= xs.len(),
                sequence(old(self)@, nodes_of(xs@), k as int, keep) == Ok::<Unit, Fault>(self@),
            decreases xs.len() - k,
        {
            assert(nodes_of(xs@)[k as int] == xs[k as int]@);
            match self.inode(&xs[k]) {
                Ok(_) => {},
                Err(e) => {
                    proof {
                        lemma_sequence_err(old(self)@, nodes_of(xs@), k as int + 1, keep, e@);
                    }
                    return Err(e);
                },
            }
            if gives_value(&xs[k]) && !(keep && k + 1 == xs.len()) {
                match self.addop(OP::POP) {
                    Ok(_) => {},
                    Err(e) => {
                        proof {
                            lemma_sequence_err(old(self)@, nodes_of(xs@), k as int + 1, keep, e@);
                        }
                        return Err(e);
                    },
                }
            }
            k += 1;
        }
        proof {
            if well_formed_so_far(old(self)@) {
                law_sequence_keeps_well_formed(old(self)@, nodes_of(xs@), keep);
            }
        }
        Ok(())
    }

    /// Compiles the expressions of a line that follows others, which left
    /// `env`.
    pub fn fast_in(env: Env, a: &Vec<NN>) -> (res: Result<B, LErrEnum>)
        ensures
            match res {
                Ok(b) => program(env@, nodes_of(a@)) == Ok::<Program, Fault>(b@) && well_formed(b@),
                Err(e) => program(env@, nodes_of(a@)) == Err::<Program, Fault>(e@),
            },
    {
        let mut i = I::seeded(env);
        i.sequence(a, false)?;
        proof {
            law_program_is_well_formed(env@, nodes_of(a@));
        }
        Ok(i.b)
    }

    /// Reads and compiles the first line of a session. The code of the
    /// program is well formed, and so is each function in its pool.
    pub fn fstring(s: &str, floats: &Vec<FloatFact>) -> (res: Result<B, LErrEnum>)
        ensures
            match res {
                Ok(b) => read(s@, floats@) is Ok && program(
                    Scope { consts: Seq::empty(), names: Map::empty() },
                    read(s@, floats@)->Ok_0,
                ) == Ok::<Program, Fault>(b@) && well_formed(b@) && functions_well_formed(
                    b@.consts,
                ),
                Err(e) => match read(s@, floats@) {
                    Err(f) => e@ == f,
                    Ok(ast) => program(Scope { consts: Seq::empty(), names: Map::empty() }, ast)
                        == Err::<Program, Fault>(e@),
                },
            },
    {
        I::fstring_in(Env::new(), s, floats)
    }

    /// Reads and compiles a line that follows others, which left `env`. The
    /// code of the program is well formed, and so is each function in its
    /// pool, where those that `env` holds are.
    pub fn fstring_in(env: Env, s: &str, floats: &Vec<FloatFact>) -> (res: Result<B, LErrEnum>)
        ensures
            match res {
                Ok(b) => read(s@, floats@) is Ok && program(env@, read(s@, floats@)->Ok_0) == Ok::<
                    Program,
                    Fault,
                >(b@) && well_formed(b@) && (functions_well_formed(env@.consts)
                    ==> functions_well_formed(b@.consts)),
                Err(e) => match read(s@, floats@) {
                    Err(f) => e@ == f,
                    Ok(ast) => program(env@, ast) == Err::<Program, Fault>(e@),
                },
            },
    {
        let ast = parse(s, floats)?;
        let ghost before = env@;
        let res = I::fast_in(env, &ast);
        proof {
            if res is Ok && functions_well_formed(before.consts) {
                law_read_functions_well_formed(before, s@, floats@);
            }
        }
        res
    }

    /// Compiles the expressions of the first line of a session.
    pub fn fast(a: &Vec<NN>) -> (res: Result<B, LErrEnum>)
        ensures
            match res {
                Ok(b) => program(Scope { consts: Seq::empty(), names: Map::empty() }, nodes_of(a@))
                    == Ok::<Program, Fault>(b@) && well_formed(b@),
                Err(e) => program(Scope { consts: Seq::empty(), names: Map::empty() }, nodes_of(a@))
                    == Err::<Program, Fault>(e@),
            },
    {
        I::fast_in(Env::new(), a)
    }
}

/// A failure at an element of a train is the failure of the train.
pub proof fn lemma_train_err(u: Unit, t: Seq<Node>, k: int, two: bool, e: Fault)
    requires
        0 <= k < t.len(),
        train_from(u, t, k, two) == Err::<Unit, Fault>(e),
    ensures
        train_from(u, t, 0, two) == Err::<Unit, Fault>(e),
    decreases k,
{
    if k > 0 {
        lemma_train_err(u, t, k - 1, two, e);
    }
}

/// A failure at a parameter is the failure of all.
pub proof fn lemma_stored_err(u: Unit, params: Seq<Seq<char>>, k: int, e: Fault)
    requires
        0 <= k < params.len(),
        stored_from(u, params, k) == Err::<Unit, Fault>(e),
    ensures
        stored_from(u, params, 0) == Err::<Unit, Fault>(e),
    decreases k,
{
    if k > 0 {
        lemma_stored_err(u, params, k - 1, e);
    }
}

/// A failure among the first expressions of a sequence is the failure of
/// the sequence.
pub proof fn lemma_sequence_err(u: Unit, xs: Seq<Node>, k: int, keep: bool, e: Fault)
    requires
        0 < k <= xs.len(),
        sequence(u, xs, k, keep) == Err::<Unit, Fault>(e),
    ensures
        sequence(u, xs, xs.len() as int, keep) == Err::<Unit, Fault>(e),
    decreases xs.len() - k,
{
    if k < xs.len() {
        lemma_sequence_err(u, xs, k + 1, keep, e);
    }
}


/// The code for a name, a binding, a function or an application of a
/// train that is not empty to one or two arguments does not depend on
/// where the node stands in the source.
pub proof fn lemma_compiled_span(u: Unit, n: Node)
    ensures
        (n.n is Val || n.n is Assign || n.n is Lambda || (n.n matches Term::Apply { train, args }
            && train.len() > 0 && (args.len() == 1 || args.len() == 2))) ==> compiled(u, n)
            == compiled(u, Node { n: n.n, start: 0, end: 0 }),
{
}

} // verus!
