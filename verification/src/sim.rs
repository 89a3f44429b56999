//! Runs of compiled code: what the code of each kind of expression does to
//! a machine, instruction by instruction.

use vstd::prelude::*;

use crate::ast::{val, CN, FN, Node, Term};
use crate::byte::{
    applied, binds, binds_any, call_op, called, compiled, dyadic_at, element, emitted, extends, framed, frozen,
    is_bound, leaves_value, lemma_compiled_extends, lemma_element_extends, lemma_emitted_extends,
    lemma_extends_chain, lemma_extends_self, lemma_sequence_extends, lemma_train_extends, pooled,
    prim_of, prim_op, sequence, stored_from, trailing, train_from, with_const, Unit,
};
use crate::err::Fault;
use crate::sound::{lemma_pool_before, pool_of};
use crate::op::{co_id, decoding, encoding, fn_id, lemma_decoding_of_encoding, OP};
use crate::vm::{
    companion, do_const, do_dbl, do_do, do_end, do_jmp, do_load, do_mbl, do_mo, do_pop, do_store,
    doubled, doubled_pair, halted, in_dyadic, moved, run, step, BL, C, Machine,
};

verus! {

/// One instruction, as `step` gives it. Proofs about many instructions
/// speak of `next`, and look into `step` for one instruction at a time.
#[verifier::opaque]
pub open spec fn next(m: Machine) -> Result<Machine, Fault> {
    step(m)
}

/// The machine after `k` instructions, if each of them succeeds.
pub open spec fn after(m: Machine, k: nat) -> Option<Machine>
    decreases k,
{
    if k == 0 {
        Some(m)
    } else {
        match next(m) {
            Ok(m2) => after(m2, (k - 1) as nat),
            Err(_) => None,
        }
    }
}

/// Whether the run of a machine ends in a failure: after some
/// instructions that succeed comes one that fails.
pub open spec fn breaks(m: Machine) -> bool {
    exists|k: nat| #[trigger] after(m, k) is Some && next(after(m, k)->0) is Err && !halted(after(m, k)->0)
}

/// An instruction that succeeds uses one step and leaves the code, the
/// limits and the floating-point results as they are.
pub proof fn lemma_step_keeps(m: Machine)
    ensures
        next(m) matches Ok(m1) ==> {
            &&& m1.ops == m.ops
            &&& m1.limit == m.limit
            &&& m1.depth == m.depth
            &&& m1.fuel + 1 == m.fuel
            &&& m1.floats == m.floats
            &&& !halted(m)
        },
{
    reveal(next);
}

/// After one instruction that succeeds.
pub proof fn lemma_after_one(m: Machine)
    requires
        next(m) is Ok,
    ensures
        after(m, 1) == Some(next(m)->Ok_0),
{
    reveal_with_fuel(after, 2);
}

/// Instructions that succeed one after the other.
pub proof fn lemma_after_add(m: Machine, j: nat, m1: Machine, k: nat, m2: Machine)
    requires
        after(m, j) == Some(m1),
        after(m1, k) == Some(m2),
    ensures
        after(m, j + k) == Some(m2),
    decreases j,
{
    if j > 0 {
        lemma_after_add(next(m)->Ok_0, (j - 1) as nat, m1, k, m2);
    }
}

/// The run of a machine is the run of the machine that it is after
/// instructions that succeed.
pub proof fn lemma_run_after(m: Machine, k: nat)
    requires
        after(m, k) is Some,
    ensures
        run(m) == run(after(m, k)->0),
        after(m, k)->0.ops == m.ops,
        after(m, k)->0.floats == m.floats,
        after(m, k)->0.limit == m.limit,
        after(m, k)->0.depth == m.depth,
    decreases k,
{
    if k > 0 {
        lemma_step_keeps(m);
        let m1 = next(m)->Ok_0;
        assert(m1 == (Machine { depth: m.depth, fuel: (m.fuel - 1) as nat, ..m1 }));
        lemma_run_after(m1, (k - 1) as nat);
        assert(run(m) == run(m1)) by {
            reveal(next);
        }
    }
}

/// A run that breaks ends in a failure.
pub proof fn lemma_breaks_run(m: Machine)
    requires
        breaks(m),
    ensures
        run(m).1 is Some,
{
    let k = choose|k: nat| #[trigger]
        after(m, k) is Some && next(after(m, k)->0) is Err && !halted(after(m, k)->0);
    lemma_run_after(m, k);
    reveal(next);
}

/// A run that breaks after instructions that succeed breaks.
pub proof fn lemma_breaks_later(m: Machine, j: nat, m1: Machine)
    requires
        after(m, j) == Some(m1),
        breaks(m1),
    ensures
        breaks(m),
{
    let k = choose|k: nat| #[trigger]
        after(m1, k) is Some && next(after(m1, k)->0) is Err && !halted(after(m1, k)->0);
    lemma_after_add(m, j, m1, k, after(m1, k)->0);
    assert(after(m, j + k) is Some);
}

/// A machine whose next instruction fails breaks.
pub proof fn lemma_breaks_now(m: Machine)
    requires
        next(m) is Err,
        !halted(m),
    ensures
        breaks(m),
{
    assert(after(m, 0) is Some);
}

/// Whether a code holds the bytes that a compilation added when it went
/// from the state `u` to the state `r`.
pub open spec fn holds(ops: Seq<u8>, u: Unit, r: Unit) -> bool {
    ops.len() >= r.ops.len() && forall|i: int| u.ops.len() <= i < r.ops.len() ==> ops[i] == r.ops[i]
}

/// A code that holds what a compilation added holds what a part of that
/// compilation added.
pub proof fn lemma_holds_part(ops: Seq<u8>, u: Unit, a: Unit, b: Unit, r: Unit)
    requires
        holds(ops, u, r),
        u.ops.len() <= a.ops.len(),
        extends(a, b),
        extends(b, r),
    ensures
        holds(ops, a, b),
{
    assert forall|i: int| a.ops.len() <= i < b.ops.len() implies ops[i] == b.ops[i] by {
        assert(r.ops.take(b.ops.len() as int)[i] == b.ops[i]);
    }
}

/// Where a code holds the bytes of an instruction that was compiled, the
/// machine reads that instruction there.
pub proof fn lemma_decode(ops: Seq<u8>, u: Unit, op: OP)
    requires
        emitted(u, op) is Ok,
        holds(ops, u, emitted(u, op)->Ok_0),
    ensures
        decoding(ops, u.ops.len() as int) == Some(op),
{
    let u1 = emitted(u, op)->Ok_0;
    let before = ops.take(u.ops.len() as int);
    let behind = ops.skip(u1.ops.len() as int);
    assert(u1.ops.len() == u.ops.len() + encoding(op).len());
    assert forall|i: int| 0 <= i < encoding(op).len() implies ops[u.ops.len() + i] == encoding(
        op,
    )[i] by {
        assert(u1.ops[u.ops.len() + i] == encoding(op)[i]);
    }
    assert(ops =~= before + encoding(op) + behind);
    lemma_decoding_of_encoding(op, before, behind);
}


/// What the code of an expression does to a machine that it does not
/// break: it leaves the code as it is, puts `extra` values on the stack
/// above those that were there, leaves the frames that were there with none
/// of a dyadic train on top, and leaves the pool that was there, with more
/// constants behind it or none.
pub open spec fn grown(m: Machine, m2: Machine, extra: int) -> bool {
    &&& m2.ops == m.ops
    &&& m2.stack.len() == m.stack.len() + extra
    &&& m2.stack.take(m.stack.len() as int) == m.stack
    &&& m2.control.len() >= m.control.len()
    &&& m2.control.take(m.control.len() as int) == m.control
    &&& !in_dyadic(m2.control)
    &&& m2.consts.len() >= m.consts.len()
    &&& m2.consts.take(m.consts.len() as int) == m.consts
}

/// A machine has grown by nothing from itself.
pub proof fn lemma_grown_self(m: Machine)
    requires
        !in_dyadic(m.control),
    ensures
        grown(m, m, 0),
{
    assert(m.stack.take(m.stack.len() as int) =~= m.stack);
    assert(m.control.take(m.control.len() as int) =~= m.control);
    assert(m.consts.take(m.consts.len() as int) =~= m.consts);
}

/// Growth after growth.
pub proof fn lemma_grown_chain(a: Machine, b: Machine, c: Machine, x: int, y: int)
    requires
        grown(a, b, x),
        grown(b, c, y),
        x >= 0,
        y >= 0,
    ensures
        grown(a, c, x + y),
{
    assert(c.stack.take(a.stack.len() as int) =~= c.stack.take(b.stack.len() as int).take(
        a.stack.len() as int,
    ));
    assert(c.control.take(a.control.len() as int) =~= c.control.take(b.control.len() as int).take(
        a.control.len() as int,
    ));
    assert(c.consts.take(a.consts.len() as int) =~= c.consts.take(b.consts.len() as int).take(
        a.consts.len() as int,
    ));
}

/// What a part of a run gives: how many instructions it took and the
/// machine behind them, or nothing where the run breaks.
pub open spec fn reached(m: Machine, r: Option<(nat, Machine)>, ip: int, extra: int) -> bool {
    match r {
        Some((k, m2)) => after(m, k) == Some(m2) && m2.ip == ip && grown(m, m2, extra),
        None => breaks(m),
    }
}

/// The instruction that pushes a constant from the pool.
pub proof fn sim_const(u: Unit, i: u16, m: Machine) -> (r: Option<(nat, Machine)>)
    requires
        emitted(u, OP::CONST(i)) is Ok,
        holds(m.ops, u, emitted(u, OP::CONST(i))->Ok_0),
        m.ip == u.ops.len(),
        !in_dyadic(m.control),
    ensures
        reached(m, r, emitted(u, OP::CONST(i))->Ok_0.ops.len() as int, 1),
        r matches Some((k, m2)) ==> i < m.consts.len() && m2.stack == m.stack.push(
            m.consts[i as int],
        ) && m2.consts == m.consts && m2.names == m.names && m2.control == m.control && m2.last
            == m.last,
{
    reveal(next);
    lemma_decode(m.ops, u, OP::CONST(i));
    if m.fuel == 0 || next(m) is Err {
        lemma_breaks_now(m);
        None
    } else {
        let m2 = next(m)->Ok_0;
        lemma_after_one(m);
        lemma_grown_self(m);
        assert(next(m) == do_const(m, i, m.ip + 3));
        assert(m2.stack.take(m.stack.len() as int) =~= m.stack);
        Some((1, m2))
    }
}

/// The code of a value that goes through the pool.
pub proof fn sim_pooled(u: Unit, v: Node, m: Machine) -> (r: Option<(nat, Machine)>)
    requires
        pooled(u, v) is Ok,
        holds(m.ops, u, pooled(u, v)->Ok_0),
        m.ip == u.ops.len(),
        !in_dyadic(m.control),
    ensures
        reached(m, r, pooled(u, v)->Ok_0.ops.len() as int, 1),
        r matches Some((k, m2)) ==> u.consts.len() < m.consts.len() && m2.stack == m.stack.push(
            m.consts[u.consts.len() as int],
        ) && m2.consts == m.consts && m2.names == m.names && m2.control == m.control && m2.last
            == m.last,
{
    let u1 = with_const(u, v)->Ok_0.0;
    let i = with_const(u, v)->Ok_0.1;
    sim_const(u1, i, m)
}

/// The instruction that pushes the value of a name.
pub proof fn sim_load(u: Unit, i: u16, m: Machine) -> (r: Option<(nat, Machine)>)
    requires
        emitted(u, OP::LOAD(i)) is Ok,
        holds(m.ops, u, emitted(u, OP::LOAD(i))->Ok_0),
        m.ip == u.ops.len(),
        !in_dyadic(m.control),
    ensures
        reached(m, r, emitted(u, OP::LOAD(i))->Ok_0.ops.len() as int, 1),
        r matches Some((k, m2)) ==> m2.consts == m.consts && m2.names == m.names && m2.control
            == m.control && m2.last == m.last,
{
    reveal(next);
    lemma_decode(m.ops, u, OP::LOAD(i));
    if m.fuel == 0 || next(m) is Err {
        lemma_breaks_now(m);
        None
    } else {
        let m2 = next(m)->Ok_0;
        lemma_after_one(m);
        lemma_grown_self(m);
        assert(next(m) == do_load(m, i, m.ip + 3));
        assert(m2.stack.take(m.stack.len() as int) =~= m.stack);
        Some((1, m2))
    }
}

/// The code of a name that stands for a value.
pub proof fn sim_value(u: Unit, n: Node, m: Machine) -> (r: Option<(nat, Machine)>)
    requires
        n.n is Val,
        compiled(u, n) is Ok,
        holds(m.ops, u, compiled(u, n)->Ok_0),
        m.ip == u.ops.len(),
        !in_dyadic(m.control),
    ensures
        reached(m, r, compiled(u, n)->Ok_0.ops.len() as int, 1),
        r matches Some((k, m2)) ==> m2.consts == m.consts && m2.names == m.names && m2.control
            == m.control && m2.last == m.last,
{
    let name = n.n->Val_0;
    if is_bound(u, name) {
        sim_const(u, u.names[name], m)
    } else {
        let u1 = with_const(u, val(Term::Str(name)))->Ok_0.0;
        let i = with_const(u, val(Term::Str(name)))->Ok_0.1;
        sim_load(u1, i, m)
    }
}

/// Whether a machine is inside the train of an application: the innermost
/// frame is that of the train, and the stack holds the arguments and their
/// copies.
pub open spec fn in_train(m: Machine, two: bool) -> bool {
    &&& m.control.len() > 0
    &&& m.control.last().t == (if two {
        BL::DBL
    } else {
        BL::MBL
    })
    &&& m.stack.len() >= (if two {
        4int
    } else {
        2int
    })
}

/// What an element of a train does to a machine that it does not break:
/// it changes the two values on top of the stack, and nothing else.
pub open spec fn kept(m: Machine, m2: Machine) -> bool {
    &&& m2.ops == m.ops
    &&& m2.control == m.control
    &&& m2.consts == m.consts
    &&& m2.names == m.names
    &&& m2.last == m.last
    &&& m2.stack.len() == m.stack.len()
    &&& m2.stack.take(m.stack.len() - 2) == m.stack.take(m.stack.len() - 2)
}

/// What a part of a train gives: how many instructions it took and the
/// machine behind them, or nothing where the run breaks.
pub open spec fn trained(m: Machine, r: Option<(nat, Machine)>, ip: int) -> bool {
    match r {
        Some((k, m2)) => after(m, k) == Some(m2) && m2.ip == ip && kept(m, m2),
        None => breaks(m),
    }
}

/// Whether an instruction that is no companion of another stands at an
/// address.
pub open spec fn starts(ops: Seq<u8>, ip: int) -> bool {
    decoding(ops, ip) is Some && !(decoding(ops, ip)->0 is CO)
}

/// The states of the compilation of a train: each one exists, is the code
/// of one more element, and is extended by the last one.
pub proof fn lemma_train_states(w: Unit, t: Seq<Node>, k: int, two: bool)
    requires
        train_from(w, t, 0, two) is Ok,
        0 <= k <= t.len(),
    ensures
        train_from(w, t, k, two) is Ok,
        extends(train_from(w, t, k, two)->Ok_0, train_from(w, t, 0, two)->Ok_0),
        extends(w, train_from(w, t, k, two)->Ok_0),
        k < t.len() ==> element(train_from(w, t, k + 1, two)->Ok_0, t, k, two) == train_from(
            w,
            t,
            k,
            two,
        ) && train_from(w, t, k + 1, two) is Ok,
    decreases k,
{
    if k == 0 {
        lemma_extends_self(train_from(w, t, 0, two)->Ok_0);
    } else {
        lemma_train_states(w, t, k - 1, two);
        let wk = train_from(w, t, k, two)->Ok_0;
        lemma_element_extends(wk, t, k - 1, two);
        lemma_extends_chain(wk, train_from(w, t, k - 1, two)->Ok_0, train_from(w, t, 0, two)->Ok_0);
    }
    lemma_train_extends(w, t, k, two);
}

/// The instruction that applies a primitive, with its combinator or
/// without one.
pub proof fn sim_applied(
    u: Unit,
    f: FN,
    role: bool,
    co: Option<CN>,
    at: Node,
    two: bool,
    m: Machine,
) -> (r: Option<(nat, Machine)>)
    requires
        applied(u, f, role, co, at) is Ok,
        holds(m.ops, u, applied(u, f, role, co, at)->Ok_0),
        m.ip == u.ops.len(),
        in_train(m, two),
        starts(m.ops, applied(u, f, role, co, at)->Ok_0.ops.len() as int),
    ensures
        trained(m, r, applied(u, f, role, co, at)->Ok_0.ops.len() as int),
{
    reveal(next);
    let op = prim_op(f, role);
    let u1 = emitted(u, op)->Ok_0;
    let end = applied(u, f, role, co, at)->Ok_0;
    lemma_emitted_extends(u, op);
    lemma_extends_self(u);
    let n = m.stack.len() as int;
    match co {
        Some(c) => {
            lemma_emitted_extends(u1, OP::CO(co_id(c)));
            lemma_holds_part(m.ops, u, u, u1, end);
            lemma_extends_self(end);
            lemma_holds_part(m.ops, u, u1, end, end);
            lemma_decode(m.ops, u, op);
            lemma_decode(m.ops, u1, OP::CO(co_id(c)));
            assert(companion(m.ops, u1.ops.len() as int) == Ok::<(Option<CN>, int), Fault>(
                (Some(c), end.ops.len() as int),
            ));
        },
        None => {
            lemma_decode(m.ops, u, op);
            assert(companion(m.ops, u1.ops.len() as int) == Ok::<(Option<CN>, int), Fault>(
                (None, end.ops.len() as int),
            ));
        },
    }
    if m.fuel == 0 || next(m) is Err {
        lemma_breaks_now(m);
        None
    } else {
        let m2 = next(m)->Ok_0;
        lemma_after_one(m);
        if role {
            assert(next(m) == do_do(m, fn_id(f), u1.ops.len() as int));
            assert(m2.stack.take(n - 2) =~= m.stack.take(n - 2));
        } else {
            assert(next(m) == do_mo(m, fn_id(f), u1.ops.len() as int));
            assert(m2.stack.take(n - 2) =~= m.stack.take(n - 2));
        }
        Some((1, m2))
    }
}

/// The instruction that calls a function by its name.
pub proof fn sim_called(u: Unit, name: Seq<char>, dyadic: bool, two: bool, m: Machine) -> (r:
    Option<(nat, Machine)>)
    requires
        called(u, name, dyadic) is Ok,
        holds(m.ops, u, called(u, name, dyadic)->Ok_0),
        m.ip == u.ops.len(),
        in_train(m, two),
    ensures
        trained(m, r, called(u, name, dyadic)->Ok_0.ops.len() as int),
{
    reveal(next);
    let u1 = with_const(u, val(Term::Str(name)))->Ok_0.0;
    let i = with_const(u, val(Term::Str(name)))->Ok_0.1;
    let n = m.stack.len() as int;
    lemma_decode(m.ops, u1, call_op(i, dyadic));
    if m.fuel == 0 || next(m) is Err {
        lemma_breaks_now(m);
        None
    } else {
        let m2 = next(m)->Ok_0;
        lemma_after_one(m);
        assert(m2.stack.take(n - 2) =~= m.stack.take(n - 2));
        Some((1, m2))
    }
}

/// The code of one element of a train.
pub proof fn sim_element(u: Unit, t: Seq<Node>, k: int, two: bool, m: Machine) -> (r: Option<
    (nat, Machine),
>)
    requires
        0 <= k < t.len(),
        element(u, t, k, two) is Ok,
        holds(m.ops, u, element(u, t, k, two)->Ok_0),
        m.ip == u.ops.len(),
        in_train(m, two),
        starts(m.ops, element(u, t, k, two)->Ok_0.ops.len() as int),
    ensures
        trained(m, r, element(u, t, k, two)->Ok_0.ops.len() as int),
{
    let e = t[k];
    let dyadic = dyadic_at(t, k, two);
    match e.n {
        Term::Mfn(f) => sim_applied(u, f, dyadic, trailing(t, k), t[k - 1], two, m),
        Term::Dfn(f) => sim_applied(u, f, dyadic, trailing(t, k), t[k - 1], two, m),
        Term::Mop(f) => sim_applied(u, f, false, trailing(t, k), t[k - 1], two, m),
        Term::Mco { o, co } => sim_applied(
            u,
            prim_of(*o)->0,
            dyadic && !(o.n is Mop),
            Some(co.n->Cn_0),
            *co,
            two,
            m,
        ),
        Term::Dco { o, co } => sim_applied(
            u,
            prim_of(*o)->0,
            dyadic && !(o.n is Mop),
            Some(co.n->Cn_0),
            *co,
            two,
            m,
        ),
        Term::Val(name) => sim_called(u, name, dyadic, two, m),
        Term::FnVal(name) => sim_called(u, name, dyadic, two, m),
        _ => {
            assert(m.stack.take(m.stack.len() - 2) =~= m.stack.take(m.stack.len() - 2));
            Some((0, m))
        },
    }
}

/// The first instruction of the code of the elements of a train from
/// place `k` down, or the `END` behind the train, is no companion.
pub proof fn lemma_head(w: Unit, t: Seq<Node>, k: int, two: bool, ops: Seq<u8>)
    requires
        train_from(w, t, 0, two) is Ok,
        holds(ops, w, train_from(w, t, 0, two)->Ok_0),
        decoding(ops, train_from(w, t, 0, two)->Ok_0.ops.len() as int) == Some(OP::END),
        -1 <= k < t.len(),
    ensures
        train_from(w, t, k + 1, two) is Ok,
        starts(ops, train_from(w, t, k + 1, two)->Ok_0.ops.len() as int),
    decreases k + 1,
{
    let wf = train_from(w, t, 0, two)->Ok_0;
    if k >= 0 {
        lemma_train_states(w, t, k, two);
        lemma_train_states(w, t, k + 1, two);
        let u = train_from(w, t, k + 1, two)->Ok_0;
        let wk = train_from(w, t, k, two)->Ok_0;
        let e = t[k];
        let dyadic = dyadic_at(t, k, two);
        match e.n {
            Term::Cn(_) => {
                lemma_head(w, t, k - 1, two, ops);
            },
            Term::Val(name) => lemma_head_called(ops, w, u, name, dyadic, wk, wf),
            Term::FnVal(name) => lemma_head_called(ops, w, u, name, dyadic, wk, wf),
            Term::Mfn(f) => lemma_head_applied(
                ops,
                w,
                u,
                f,
                dyadic,
                trailing(t, k),
                t[k - 1],
                wf,
            ),
            Term::Dfn(f) => lemma_head_applied(
                ops,
                w,
                u,
                f,
                dyadic,
                trailing(t, k),
                t[k - 1],
                wf,
            ),
            Term::Mop(f) => lemma_head_applied(ops, w, u, f, false, trailing(t, k), t[k - 1], wf),
            Term::Mco { o, co } => lemma_head_applied(
                ops,
                w,
                u,
                prim_of(*o)->0,
                dyadic && !(o.n is Mop),
                Some(co.n->Cn_0),
                *co,
                wf,
            ),
            Term::Dco { o, co } => lemma_head_applied(
                ops,
                w,
                u,
                prim_of(*o)->0,
                dyadic && !(o.n is Mop),
                Some(co.n->Cn_0),
                *co,
                wf,
            ),
            _ => {},
        }
    }
}

/// The code that applies a primitive starts with an instruction that is
/// no companion.
pub proof fn lemma_head_applied(
    ops: Seq<u8>,
    w: Unit,
    u: Unit,
    f: FN,
    role: bool,
    co: Option<CN>,
    at: Node,
    wf: Unit,
)
    requires
        holds(ops, w, wf),
        w.ops.len() <= u.ops.len(),
        applied(u, f, role, co, at) is Ok,
        extends(applied(u, f, role, co, at)->Ok_0, wf),
    ensures
        starts(ops, u.ops.len() as int),
{
    let op = prim_op(f, role);
    let u1 = emitted(u, op)->Ok_0;
    let end = applied(u, f, role, co, at)->Ok_0;
    lemma_emitted_extends(u, op);
    match co {
        Some(c) => {
            lemma_emitted_extends(u1, OP::CO(co_id(c)));
            lemma_extends_chain(u1, end, wf);
        },
        None => {},
    }
    lemma_holds_part(ops, w, u, u1, wf);
    lemma_decode(ops, u, op);
}

/// The code that calls a function starts with an instruction that is no
/// companion.
pub proof fn lemma_head_called(
    ops: Seq<u8>,
    w: Unit,
    u: Unit,
    name: Seq<char>,
    dyadic: bool,
    wk: Unit,
    wf: Unit,
)
    requires
        holds(ops, w, wf),
        w.ops.len() <= u.ops.len(),
        called(u, name, dyadic) == Ok::<Unit, Fault>(wk),
        extends(wk, wf),
    ensures
        starts(ops, u.ops.len() as int),
{
    let u1 = with_const(u, val(Term::Str(name)))->Ok_0.0;
    let i = with_const(u, val(Term::Str(name)))->Ok_0.1;
    lemma_emitted_extends(u1, call_op(i, dyadic));
    lemma_holds_part(ops, w, u1, wk, wf);
    lemma_decode(ops, u1, call_op(i, dyadic));
}

/// The code of the elements of a train from place `k` down.
pub proof fn sim_train(w: Unit, t: Seq<Node>, k: int, two: bool, m: Machine) -> (r: Option<
    (nat, Machine),
>)
    requires
        train_from(w, t, 0, two) is Ok,
        holds(m.ops, w, train_from(w, t, 0, two)->Ok_0),
        decoding(m.ops, train_from(w, t, 0, two)->Ok_0.ops.len() as int) == Some(OP::END),
        -1 <= k < t.len(),
        train_from(w, t, k + 1, two) is Ok,
        m.ip == train_from(w, t, k + 1, two)->Ok_0.ops.len(),
        in_train(m, two),
    ensures
        trained(m, r, train_from(w, t, 0, two)->Ok_0.ops.len() as int),
    decreases k + 1,
{
    let wf = train_from(w, t, 0, two)->Ok_0;
    if k < 0 {
        assert(m.stack.take(m.stack.len() - 2) =~= m.stack.take(m.stack.len() - 2));
        Some((0, m))
    } else {
        lemma_train_states(w, t, k, two);
        lemma_train_states(w, t, k + 1, two);
        let u = train_from(w, t, k + 1, two)->Ok_0;
        let wk = train_from(w, t, k, two)->Ok_0;
        lemma_element_extends(u, t, k, two);
        lemma_holds_part(m.ops, w, u, wk, wf);
        lemma_head(w, t, k - 1, two, m.ops);
        match sim_element(u, t, k, two, m) {
            None => None,
            Some((j1, m1)) => {
                lemma_run_after(m, j1);
                match sim_train(w, t, k - 1, two, m1) {
                    None => {
                        lemma_breaks_later(m, j1, m1);
                        None
                    },
                    Some((j2, m2)) => {
                        lemma_after_add(m, j1, m1, j2, m2);
                        assert(m2.stack.take(m.stack.len() - 2) =~= m.stack.take(
                            m.stack.len() - 2,
                        ));
                        Some((j1 + j2, m2))
                    },
                }
            },
        }
    }
}


/// The instruction that enters a train: where a code holds the bytes of a
/// train in its frame, the machine reads at the start of them the
/// instruction that enters the train, with the address behind the `END`.
pub proof fn lemma_decode_open(ops: Seq<u8>, u: Unit, open: OP, t: Seq<Node>, two: bool)
    requires
        open == (if two {
            OP::DBL(0)
        } else {
            OP::MBL(0)
        }),
        framed(u, open, t, two) is Ok,
        holds(ops, u, framed(u, open, t, two)->Ok_0),
    ensures
        decoding(ops, u.ops.len() as int) == Some(
            if two {
                OP::DBL(framed(u, open, t, two)->Ok_0.ops.len() as u16)
            } else {
                OP::MBL(framed(u, open, t, two)->Ok_0.ops.len() as u16)
            },
        ),
        framed(u, open, t, two)->Ok_0.ops.len() <= u16::MAX,
{
    let r = framed(u, open, t, two)->Ok_0;
    let u1 = emitted(u, open)->Ok_0;
    let wf = train_from(u1, t, 0, two)->Ok_0;
    let u3 = emitted(wf, OP::END)->Ok_0;
    let at = u.ops.len() as int;
    let addr = u3.ops.len() as int;
    lemma_train_extends(u1, t, 0, two);
    lemma_emitted_extends(wf, OP::END);
    lemma_extends_chain(u1, wf, u3);
    assert(u3.ops.take(u1.ops.len() as int)[at] == u1.ops[at]);
    assert(u1.ops[at] == encoding(open)[0]);
    let full = if two {
        OP::DBL(addr as u16)
    } else {
        OP::MBL(addr as u16)
    };
    let before = ops.take(at);
    let behind = ops.skip(at + 3);
    assert(ops[at] == r.ops[at]);
    assert(ops[at + 1] == r.ops[at + 1]);
    assert(ops[at + 2] == r.ops[at + 2]);
    assert(ops =~= before + encoding(full) + behind);
    lemma_decoding_of_encoding(full, before, behind);
}

/// What the code of a train in its frame does to a machine that it does
/// not break: the result stands where the arguments stood, and nothing
/// else has changed.
pub open spec fn applied_to(m: Machine, m2: Machine, two: bool) -> bool {
    let args = if two {
        2int
    } else {
        1int
    };
    &&& m2.ops == m.ops
    &&& m2.control == m.control
    &&& m2.consts == m.consts
    &&& m2.names == m.names
    &&& m2.last == m.last
    &&& m2.stack.len() == m.stack.len() - args + 1
    &&& m2.stack.take(m.stack.len() - args) == m.stack.take(m.stack.len() - args)
}

/// Where the instructions of a train in its frame stand in a code that
/// holds them.
#[verifier::rlimit(50)]
pub proof fn lemma_frame_parts(ops: Seq<u8>, u: Unit, open: OP, t: Seq<Node>, two: bool)
    requires
        open == (if two {
            OP::DBL(0)
        } else {
            OP::MBL(0)
        }),
        framed(u, open, t, two) is Ok,
        holds(ops, u, framed(u, open, t, two)->Ok_0),
    ensures
        ({
            let r = framed(u, open, t, two)->Ok_0;
            let ua = emitted(u, open)->Ok_0;
            let wf = train_from(ua, t, 0, two)->Ok_0;
            &&& emitted(u, open) is Ok
            &&& train_from(ua, t, 0, two) is Ok
            &&& train_from(ua, t, t.len() as int, two) == Ok::<Unit, Fault>(ua)
            &&& holds(ops, ua, wf)
            &&& ua.ops.len() == u.ops.len() + 3
            &&& r.ops.len() == wf.ops.len() + 1
            &&& r.ops.len() <= u16::MAX
            &&& decoding(ops, u.ops.len() as int) == Some(
                if two {
                    OP::DBL(r.ops.len() as u16)
                } else {
                    OP::MBL(r.ops.len() as u16)
                },
            )
            &&& decoding(ops, wf.ops.len() as int) == Some(OP::END)
        }),
{
    let r = framed(u, open, t, two)->Ok_0;
    let u1 = emitted(u, open)->Ok_0;
    let wf = train_from(u1, t, 0, two)->Ok_0;
    let u3 = emitted(wf, OP::END)->Ok_0;
    lemma_decode_open(ops, u, open, t, two);
    lemma_emitted_extends(u, open);
    lemma_train_extends(u1, t, 0, two);
    lemma_emitted_extends(wf, OP::END);
    assert(holds(ops, u1, wf)) by {
        assert forall|i: int| u1.ops.len() <= i < wf.ops.len() implies ops[i] == wf.ops[i] by {
            assert(u3.ops.take(wf.ops.len() as int)[i] == wf.ops[i]);
        }
    }
    assert(holds(ops, wf, u3)) by {
        assert forall|i: int| wf.ops.len() <= i < u3.ops.len() implies ops[i] == u3.ops[i] by {
            assert(ops[i] == r.ops[i]);
        }
    }
    lemma_decode(ops, wf, OP::END);
}

/// The instruction that enters a train: it pushes the frame and the
/// copies of the arguments.
pub proof fn lemma_open_step(m: Machine, a: u16, two: bool)
    requires
        decoding(m.ops, m.ip) == Some(
            if two {
                OP::DBL(a)
            } else {
                OP::MBL(a)
            },
        ),
        m.stack.len() >= (if two {
            2int
        } else {
            1int
        }),
    ensures
        next(m) matches Ok(m1) ==> {
            &&& m1 == moved(
                m,
                if two {
                    doubled_pair(m.stack)
                } else {
                    doubled(m.stack)
                },
                m.control.push(
                    C {
                        ip: a as usize,
                        t: if two {
                            BL::DBL
                        } else {
                            BL::MBL
                        },
                    },
                ),
                m.ip + 3,
            )
            &&& in_train(m1, two)
        },
{
    reveal(next);
    if step(m) is Ok {
        if two {
            assert(step(m) == do_dbl(m, a, m.ip + 3));
        } else {
            assert(step(m) == do_mbl(m, a, m.ip + 3));
        }
    }
}

/// The `END` of a train that is not inside a dyadic train: the result
/// makes way for the arguments and their copies, and the frame goes.
pub proof fn lemma_close_step(m: Machine, two: bool)
    requires
        decoding(m.ops, m.ip) == Some(OP::END),
        in_train(m, two),
        !in_dyadic(m.control.drop_last()),
    ensures
        next(m) matches Ok(m1) ==> {
            &&& m1 == moved(
                m,
                if two {
                    m.stack.take(m.stack.len() - 4).push(m.stack[m.stack.len() - 2])
                } else {
                    m.stack.take(m.stack.len() - 2).push(m.stack[m.stack.len() - 1])
                },
                m.control.drop_last(),
                m.ip + 1,
            )
        },
{
    reveal(next);
    if step(m) is Ok {
        assert(step(m) == do_end(m, m.ip + 1));
    }
}

/// The code of a train in its frame.
pub proof fn sim_frame(u: Unit, open: OP, t: Seq<Node>, two: bool, m: Machine) -> (r: Option<
    (nat, Machine),
>)
    requires
        open == (if two {
            OP::DBL(0)
        } else {
            OP::MBL(0)
        }),
        framed(u, open, t, two) is Ok,
        holds(m.ops, u, framed(u, open, t, two)->Ok_0),
        m.ip == u.ops.len(),
        !in_dyadic(m.control),
        m.stack.len() >= (if two {
            2int
        } else {
            1int
        }),
    ensures
        match r {
            Some((k, m2)) => after(m, k) == Some(m2) && m2.ip == framed(
                u,
                open,
                t,
                two,
            )->Ok_0.ops.len() && applied_to(m, m2, two),
            None => breaks(m),
        },
{
    let r = framed(u, open, t, two)->Ok_0;
    let ua = emitted(u, open)->Ok_0;
    let wf = train_from(ua, t, 0, two)->Ok_0;
    let len = m.stack.len() as int;
    lemma_frame_parts(m.ops, u, open, t, two);
    if next(m) is Err {
        lemma_breaks_now(m);
        None
    } else {
        let m1 = next(m)->Ok_0;
        lemma_open_step(m, r.ops.len() as u16, two);
        lemma_after_one(m);
        assert(m1.control.drop_last() =~= m.control);
        match sim_train(ua, t, t.len() - 1, two, m1) {
            None => {
                lemma_breaks_later(m, 1, m1);
                None
            },
            Some((j, m2)) => {
                lemma_after_add(m, 1, m1, j, m2);
                if next(m2) is Err {
                    lemma_breaks_now(m2);
                    lemma_breaks_later(m, 1 + j, m2);
                    None
                } else {
                    let m3 = next(m2)->Ok_0;
                    lemma_close_step(m2, two);
                    lemma_after_one(m2);
                    lemma_after_add(m, 1 + j, m2, 1, m3);
                    if two {
                        assert(m3.stack.take(len - 2) =~= m.stack.take(len - 2)) by {
                            assert(m2.stack.take(len) == m1.stack.take(len));
                            assert(m1.stack.take(len) =~= m.stack);
                        }
                    } else {
                        assert(m3.stack.take(len - 1) =~= m.stack.take(len - 1)) by {
                            assert(m2.stack.take(len - 1) == m1.stack.take(len - 1));
                            assert(m1.stack.take(len - 1) =~= m.stack.take(len - 1));
                        }
                    }
                    Some((1 + j + 1, m3))
                }
            },
        }
    }
}

/// The code of a function: the jump over its body and the push of the
/// function value.
#[verifier::rlimit(50)]
pub proof fn sim_lambda(u: Unit, n: Node, m: Machine) -> (r: Option<(nat, Machine)>)
    requires
        n.n is Lambda,
        compiled(u, n) is Ok,
        holds(m.ops, u, compiled(u, n)->Ok_0),
        m.ip == u.ops.len(),
        !in_dyadic(m.control),
    ensures
        reached(m, r, compiled(u, n)->Ok_0.ops.len() as int, 1),
        r matches Some((k, m2)) ==> m2.names == m.names,
{
    reveal(next);
    let params = n.n->Lambda_params;
    let body = n.n->Lambda_body;
    let sub = Unit { ops: Seq::empty(), hidden: u.hidden + params, ..u };
    let s1 = stored_from(sub, params, 0)->Ok_0;
    let s2 = sequence(s1, body, body.len() as int, true)->Ok_0;
    let s3 = emitted(s2, OP::END)->Ok_0;
    let addr = u.ops.len() + 3 + s3.ops.len();
    let jump = OP::JMP(addr as u16);
    let outer = Unit { ops: u.ops + encoding(jump) + s3.ops, consts: s3.consts, ..u };
    let f = val(Term::Fun { arity: params.len() as usize, ops: s3.ops, consts: s3.consts });
    let end = pooled(outer, f)->Ok_0;
    assert(compiled(u, n) == pooled(outer, f));
    let uc = with_const(outer, f)->Ok_0.0;
    let i = with_const(outer, f)->Ok_0.1;
    let at = u.ops.len() as int;
    // the jump
    let before = m.ops.take(at);
    let behind = m.ops.skip(at + 3);
    assert forall|j: int| 0 <= j < 3 implies m.ops[at + j] == encoding(jump)[j] by {
        assert(end.ops[at + j] == encoding(jump)[j]);
    }
    assert(m.ops =~= before + encoding(jump) + behind);
    lemma_decoding_of_encoding(jump, before, behind);
    if m.fuel == 0 || next(m) is Err {
        lemma_breaks_now(m);
        None
    } else {
        let m1 = next(m)->Ok_0;
        lemma_after_one(m);
        assert(next(m) == do_jmp(m, addr as u16));
        assert(m1.control.take(m.control.len() as int) =~= m.control);
        // the push
        match sim_const(uc, i, m1) {
            None => {
                lemma_breaks_later(m, 1, m1);
                None
            },
            Some((j, m2)) => {
                lemma_after_add(m, 1, m1, j, m2);
                assert(m2.stack.take(m.stack.len() as int) =~= m.stack);
                assert(m2.control.take(m.control.len() as int) =~= m.control);
                assert(m2.consts.take(m.consts.len() as int) =~= m.consts);
                Some((1 + j, m2))
            },
        }
    }
}


/// A code that holds what the compilation of an expression added holds
/// what the first part of that compilation added.
pub proof fn lemma_holds_first(ops: Seq<u8>, u: Unit, a: Unit, r: Unit)
    requires
        holds(ops, u, r),
        extends(u, a),
        a.ops.len() <= r.ops.len(),
        r.ops.take(a.ops.len() as int) == a.ops,
    ensures
        holds(ops, u, a),
{
    assert forall|i: int| u.ops.len() <= i < a.ops.len() implies ops[i] == a.ops[i] by {
        assert(r.ops.take(a.ops.len() as int)[i] == a.ops[i]);
    }
}

/// A code that holds what a compilation added holds what the last part of
/// that compilation added.
pub proof fn lemma_holds_last(ops: Seq<u8>, u: Unit, a: Unit, r: Unit)
    requires
        holds(ops, u, r),
        u.ops.len() <= a.ops.len(),
    ensures
        holds(ops, a, r),
{
}

/// The instruction that binds a name to the value on top of the stack.
pub proof fn sim_store(u: Unit, i: u16, m: Machine) -> (r: Option<(nat, Machine)>)
    requires
        emitted(u, OP::STORE(i)) is Ok,
        holds(m.ops, u, emitted(u, OP::STORE(i))->Ok_0),
        m.ip == u.ops.len(),
        m.stack.len() >= 1,
    ensures
        match r {
            Some((k, m2)) => {
                &&& after(m, k) == Some(m2)
                &&& m2.ip == emitted(u, OP::STORE(i))->Ok_0.ops.len()
                &&& m2.ops == m.ops
                &&& m2.stack == m.stack.drop_last()
                &&& m2.control == m.control
                &&& m2.consts == m.consts.push(m.stack.last())
                &&& m.consts.len() <= u16::MAX
                &&& i < m.consts.len()
                &&& m.consts[i as int].n is Str
                &&& m2.names == m.names.insert(m.consts[i as int].n->Str_0, m.consts.len() as u16)
                &&& m2.last == m.last
            },
            None => breaks(m),
        },
{
    reveal(next);
    lemma_decode(m.ops, u, OP::STORE(i));
    if m.fuel == 0 || next(m) is Err {
        lemma_breaks_now(m);
        None
    } else {
        let m2 = next(m)->Ok_0;
        lemma_after_one(m);
        assert(next(m) == do_store(m, i, m.ip + 3));
        Some((1, m2))
    }
}

/// The instruction that drops the value on top of the stack.
pub proof fn sim_pop(u: Unit, m: Machine) -> (r: Option<(nat, Machine)>)
    requires
        emitted(u, OP::POP) is Ok,
        holds(m.ops, u, emitted(u, OP::POP)->Ok_0),
        m.ip == u.ops.len(),
        m.stack.len() >= 1,
    ensures
        match r {
            Some((k, m2)) => {
                &&& after(m, k) == Some(m2)
                &&& m2.ip == emitted(u, OP::POP)->Ok_0.ops.len()
                &&& m2.ops == m.ops
                &&& m2.stack == m.stack.drop_last()
                &&& m2.control == m.control
                &&& m2.consts == m.consts
                &&& m2.names == m.names
                &&& m2.last == Some(m.stack.last())
            },
            None => breaks(m),
        },
{
    reveal(next);
    lemma_decode(m.ops, u, OP::POP);
    if m.fuel == 0 || next(m) is Err {
        lemma_breaks_now(m);
        None
    } else {
        let m2 = next(m)->Ok_0;
        lemma_after_one(m);
        assert(next(m) == do_pop(m, m.ip + 1));
        Some((1, m2))
    }
}

/// Whether a name is bound alike in two tables of names: in both to the
/// same place of the pool, or in neither.
pub open spec fn bound_alike(a: Map<Seq<char>, u16>, b: Map<Seq<char>, u16>, x: Seq<char>) -> bool {
    a.dom().contains(x) == b.dom().contains(x) && (a.dom().contains(x) ==> a[x] == b[x])
}

/// Whether the names that an expression does not bind are bound alike in
/// two tables of names.
pub open spec fn names_kept(a: Map<Seq<char>, u16>, b: Map<Seq<char>, u16>, n: Node) -> bool {
    forall|x: Seq<char>| !binds(n, x) ==> #[trigger] bound_alike(a, b, x)
}

/// Whether the names that none of the first `k` expressions binds are bound
/// alike in two tables of names.
pub open spec fn names_kept_by(
    a: Map<Seq<char>, u16>,
    b: Map<Seq<char>, u16>,
    xs: Seq<Node>,
    k: int,
) -> bool {
    forall|x: Seq<char>| !binds_any(xs, k, x) ==> #[trigger] bound_alike(a, b, x)
}

/// A machine that has grown holds the pool that it held before.
pub proof fn lemma_pool_later(m: Machine, m1: Machine, r: Unit)
    requires
        pool_of(m.consts, r),
        m1.consts.len() >= m.consts.len(),
        m1.consts.take(m.consts.len() as int) == m.consts,
    ensures
        pool_of(m1.consts, r),
{
    assert(m1.consts.take(r.consts.len() as int) =~= m1.consts.take(m.consts.len() as int).take(
        r.consts.len() as int,
    ));
}

/// The names that a binding keeps: those that the bound expression keeps,
/// but for the name that it binds.
pub proof fn lemma_kept_assign(
    a: Map<Seq<char>, u16>,
    b: Map<Seq<char>, u16>,
    c: Map<Seq<char>, u16>,
    n: Node,
    at: u16,
)
    requires
        n.n is Assign,
        names_kept(a, b, *n.n->Assign_rhs),
        c == b.insert(n.n->Assign_name, at),
    ensures
        names_kept(a, c, n),
{
    assert forall|x: Seq<char>| !binds(n, x) implies #[trigger] bound_alike(a, c, x) by {
        assert(bound_alike(a, b, x));
    }
}

/// The names that the code of a binding keeps, in a machine whose pool
/// holds the constants of the code.
pub proof fn lemma_assign_names(u: Unit, n: Node, m: Machine, m1: Machine, m2: Machine)
    requires
        n.n is Assign,
        compiled(u, n) is Ok,
        pool_of(m.consts, compiled(u, n)->Ok_0),
        m1.consts.len() >= m.consts.len(),
        m1.consts.take(m.consts.len() as int) == m.consts,
        pool_of(m.consts, compiled(u, *n.n->Assign_rhs)->Ok_0) ==> names_kept(
            m.names,
            m1.names,
            *n.n->Assign_rhs,
        ),
        ({
            let i = compiled(u, *n.n->Assign_rhs)->Ok_0.consts.len() as int;
            i < m1.consts.len() <= u16::MAX && m2.names == m1.names.insert(
                m1.consts[i].n->Str_0,
                m1.consts.len() as u16,
            )
        }),
    ensures
        names_kept(m.names, m2.names, n),
{
    let name = n.n->Assign_name;
    let end = compiled(u, n)->Ok_0;
    let u1 = compiled(u, *n.n->Assign_rhs)->Ok_0;
    let u2 = with_const(u1, val(Term::Str(name)))->Ok_0.0;
    let i = with_const(u1, val(Term::Str(name)))->Ok_0.1;
    let u3 = emitted(u2, OP::STORE(i))->Ok_0;
    assert(end.consts == u1.consts.push(val(Term::Str(name))));
    assert(end.consts.take(u1.consts.len() as int) =~= u1.consts);
    assert(m.consts.take(u1.consts.len() as int) =~= m.consts.take(end.consts.len() as int).take(
        u1.consts.len() as int,
    ));
    assert(end.consts[i as int] == val(Term::Str(name)));
    assert(m.consts.take(end.consts.len() as int)[i as int] == m.consts[i as int]);
    assert(m1.consts.take(m.consts.len() as int)[i as int] == m1.consts[i as int]);
    lemma_kept_assign(m.names, m1.names, m2.names, n, m1.consts.len() as u16);
}

/// The names that an application to one argument keeps: those that the
/// argument keeps.
pub proof fn lemma_kept_monadic(a: Map<Seq<char>, u16>, b: Map<Seq<char>, u16>, n: Node)
    requires
        n.n is Apply,
        n.n->Apply_args.len() == 1,
        names_kept(a, b, n.n->Apply_args[0]),
    ensures
        names_kept(a, b, n),
{
    let args = n.n->Apply_args;
    assert forall|x: Seq<char>| !binds(n, x) implies #[trigger] bound_alike(a, b, x) by {
        assert(binds(n, x) == binds_any(args, 1, x));
        assert(binds_any(args, 1, x) == (binds_any(args, 0, x) || binds(args[0], x)));
    }
}

/// The names that an application to two arguments keeps: those that both
/// arguments keep.
pub proof fn lemma_kept_dyadic(
    a: Map<Seq<char>, u16>,
    b: Map<Seq<char>, u16>,
    c: Map<Seq<char>, u16>,
    n: Node,
)
    requires
        n.n is Apply,
        n.n->Apply_args.len() == 2,
        names_kept(a, b, n.n->Apply_args[1]),
        names_kept(b, c, n.n->Apply_args[0]),
    ensures
        names_kept(a, c, n),
{
    let args = n.n->Apply_args;
    assert forall|x: Seq<char>| !binds(n, x) implies #[trigger] bound_alike(a, c, x) by {
        assert(binds(n, x) == binds_any(args, 2, x));
        assert(binds_any(args, 2, x) == (binds_any(args, 1, x) || binds(args[1], x)));
        assert(binds_any(args, 1, x) == (binds_any(args, 0, x) || binds(args[0], x)));
        assert(bound_alike(a, b, x));
        assert(bound_alike(b, c, x));
    }
}

/// The names that the first `k` expressions keep: those that the first
/// `k - 1` keep and the next one keeps too.
pub proof fn lemma_kept_more(
    a: Map<Seq<char>, u16>,
    b: Map<Seq<char>, u16>,
    c: Map<Seq<char>, u16>,
    xs: Seq<Node>,
    k: int,
)
    requires
        0 < k <= xs.len(),
        names_kept_by(a, b, xs, k - 1),
        names_kept(b, c, xs[k - 1]),
    ensures
        names_kept_by(a, c, xs, k),
{
    assert forall|x: Seq<char>| !binds_any(xs, k, x) implies #[trigger] bound_alike(a, c, x) by {
        assert(bound_alike(a, b, x));
        assert(bound_alike(b, c, x));
    }
}

/// The code of an expression: a machine that stands at its start, with
/// no frame of a dyadic train on top, either breaks or comes to stand
/// behind it, with one more value on the stack if the expression leaves a
/// value and the stack as it was if it leaves none.
pub proof fn sim_expr(u: Unit, n: Node, m: Machine) -> (r: Option<(nat, Machine)>)
    requires
        compiled(u, n) is Ok,
        holds(m.ops, u, compiled(u, n)->Ok_0),
        m.ip == u.ops.len(),
        !in_dyadic(m.control),
    ensures
        reached(
            m,
            r,
            compiled(u, n)->Ok_0.ops.len() as int,
            if leaves_value(n) {
                1
            } else {
                0
            },
        ),
        r matches Some((k, m2)) ==> pool_of(m.consts, compiled(u, n)->Ok_0) ==> names_kept(
            m.names,
            m2.names,
            n,
        ),
    decreases n, 1nat,
{
    match n.n {
        Term::Int(_) => sim_pooled(u, n, m),
        Term::Bool(_) => sim_pooled(u, n, m),
        Term::Float(_) => sim_pooled(u, n, m),
        Term::Str(_) => sim_pooled(u, n, m),
        Term::Fun { .. } => sim_pooled(u, n, m),
        Term::List(_) => sim_pooled(u, frozen(u, n)->Ok_0, m),
        Term::Val(_) => sim_value(u, n, m),
        Term::Lambda { .. } => sim_lambda(u, n, m),
        Term::DoBlock(xs) => sim_seq(u, xs, xs.len() as int, true, m),
        Term::Assign { .. } => sim_assign(u, n, m),
        Term::Apply { train: _, args } => if args.len() == 1 {
            sim_monadic(u, n, m)
        } else {
            sim_dyadic(u, n, m)
        },
        _ => None,
    }
}

/// The code of a binding: that of the bound expression, and the
/// instruction that binds the name.
pub proof fn sim_assign(u: Unit, n: Node, m: Machine) -> (r: Option<(nat, Machine)>)
    requires
        n.n is Assign,
        compiled(u, n) is Ok,
        holds(m.ops, u, compiled(u, n)->Ok_0),
        m.ip == u.ops.len(),
        !in_dyadic(m.control),
    ensures
        reached(
            m,
            r,
            compiled(u, n)->Ok_0.ops.len() as int,
            if leaves_value(n) {
                1
            } else {
                0
            },
        ),
        r matches Some((k, m2)) ==> pool_of(m.consts, compiled(u, n)->Ok_0) ==> names_kept(
            m.names,
            m2.names,
            n,
        ),
    decreases n, 0nat,
{
    let end = compiled(u, n)->Ok_0;
    let name = n.n->Assign_name;
    let rhs = n.n->Assign_rhs;
    let u1 = compiled(u, *rhs)->Ok_0;
    let u2 = with_const(u1, val(Term::Str(name)))->Ok_0.0;
    let i = with_const(u1, val(Term::Str(name)))->Ok_0.1;
    let u3 = emitted(u2, OP::STORE(i))->Ok_0;
    lemma_compiled_extends(u, *rhs);
    lemma_emitted_extends(u2, OP::STORE(i));
    assert(end.ops == u3.ops);
    assert(u3.ops.take(u1.ops.len() as int) == u1.ops);
    lemma_holds_first(m.ops, u, u1, end);
    match sim_expr(u, *rhs, m) {
        None => None,
        Some((j1, m1)) => {
            lemma_holds_last(m.ops, u, u2, u3);
            match sim_store(u2, i, m1) {
                None => {
                    lemma_breaks_later(m, j1, m1);
                    None
                },
                Some((j2, m2)) => {
                    lemma_after_add(m, j1, m1, j2, m2);
                    assert(m2.stack =~= m.stack);
                    assert(m2.stack.take(m.stack.len() as int) =~= m.stack);
                    assert(m2.consts.take(m.consts.len() as int) =~= m.consts);
                    if pool_of(m.consts, end) {
                        lemma_assign_names(u, n, m, m1, m2);
                    }
                    Some((j1 + j2, m2))
                },
            }
        },
    }
}

/// The code of an application to one argument: that of the argument, and
/// the train in its frame.
pub proof fn sim_monadic(u: Unit, n: Node, m: Machine) -> (r: Option<(nat, Machine)>)
    requires
        n.n is Apply,
        n.n->Apply_args.len() == 1,
        compiled(u, n) is Ok,
        holds(m.ops, u, compiled(u, n)->Ok_0),
        m.ip == u.ops.len(),
        !in_dyadic(m.control),
    ensures
        reached(
            m,
            r,
            compiled(u, n)->Ok_0.ops.len() as int,
            if leaves_value(n) {
                1
            } else {
                0
            },
        ),
        r matches Some((k, m2)) ==> pool_of(m.consts, compiled(u, n)->Ok_0) ==> names_kept(
            m.names,
            m2.names,
            n,
        ),
    decreases n, 0nat,
{
    let end = compiled(u, n)->Ok_0;
    let train = n.n->Apply_train;
    let args = n.n->Apply_args;
    let u1 = compiled(u, args[0])->Ok_0;
    lemma_compiled_extends(u, args[0]);
    crate::byte::lemma_framed_extends(u1, OP::MBL(0), train, false);
    lemma_holds_first(m.ops, u, u1, end);
    match sim_expr(u, args[0], m) {
        None => None,
        Some((j1, m1)) => {
            lemma_holds_last(m.ops, u, u1, end);
            match sim_frame(u1, OP::MBL(0), train, false, m1) {
                None => {
                    lemma_breaks_later(m, j1, m1);
                    None
                },
                Some((j2, m2)) => {
                    lemma_after_add(m, j1, m1, j2, m2);
                    assert(m2.stack.take(m.stack.len() as int) =~= m.stack) by {
                        assert(m2.stack.take(m.stack.len() as int) =~= m2.stack.take(
                            m1.stack.len() - 1,
                        ));
                        assert(m1.stack.take(m1.stack.len() - 1) =~= m1.stack.take(
                            m.stack.len() as int,
                        ));
                    }
                    if pool_of(m.consts, end) {
                        lemma_pool_before(m.consts, u1, end);
                        lemma_kept_monadic(m.names, m1.names, n);
                    }
                    Some((j1 + j2, m2))
                },
            }
        },
    }
}

/// The code of an application to two arguments: that of the right
/// argument, that of the left one, and the train in its frame.
pub proof fn sim_dyadic(u: Unit, n: Node, m: Machine) -> (r: Option<(nat, Machine)>)
    requires
        n.n is Apply,
        n.n->Apply_args.len() != 1,
        compiled(u, n) is Ok,
        holds(m.ops, u, compiled(u, n)->Ok_0),
        m.ip == u.ops.len(),
        !in_dyadic(m.control),
    ensures
        reached(
            m,
            r,
            compiled(u, n)->Ok_0.ops.len() as int,
            if leaves_value(n) {
                1
            } else {
                0
            },
        ),
        r matches Some((k, m2)) ==> pool_of(m.consts, compiled(u, n)->Ok_0) ==> names_kept(
            m.names,
            m2.names,
            n,
        ),
    decreases n, 0nat,
{
    let end = compiled(u, n)->Ok_0;
    let train = n.n->Apply_train;
    let args = n.n->Apply_args;
    let u1 = compiled(u, args[1])->Ok_0;
    let u2 = compiled(u1, args[0])->Ok_0;
    lemma_compiled_extends(u, args[1]);
    lemma_compiled_extends(u1, args[0]);
    crate::byte::lemma_framed_extends(u2, OP::DBL(0), train, true);
    lemma_extends_chain(u, u1, u2);
    assert(end.ops.take(u1.ops.len() as int) =~= end.ops.take(u2.ops.len() as int).take(
        u1.ops.len() as int,
    ));
    lemma_holds_first(m.ops, u, u1, end);
    match sim_expr(u, args[1], m) {
        None => None,
        Some((j1, m1)) => {
            lemma_holds_last(m.ops, u, u1, end);
            lemma_holds_first(m.ops, u1, u2, end);
            match sim_expr(u1, args[0], m1) {
                None => {
                    lemma_breaks_later(m, j1, m1);
                    None
                },
                Some((j2, m2)) => {
                    lemma_after_add(m, j1, m1, j2, m2);
                    lemma_grown_chain(m, m1, m2, 1, 1);
                    lemma_holds_last(m.ops, u, u2, end);
                    match sim_frame(u2, OP::DBL(0), train, true, m2) {
                        None => {
                            lemma_breaks_later(m, j1 + j2, m2);
                            None
                        },
                        Some((j3, m3)) => {
                            lemma_after_add(m, j1 + j2, m2, j3, m3);
                            assert(m3.stack.take(m.stack.len() as int) =~= m.stack) by {
                                assert(m3.stack.take(m.stack.len() as int)
                                    =~= m3.stack.take(m2.stack.len() - 2));
                                assert(m2.stack.take(m2.stack.len() - 2)
                                    =~= m2.stack.take(m.stack.len() as int));
                            }
                            if pool_of(m.consts, end) {
                                lemma_extends_chain(u1, u2, end);
                                lemma_pool_before(m.consts, u1, end);
                                lemma_pool_before(m.consts, u2, end);
                                lemma_pool_later(m, m1, u2);
                                lemma_kept_dyadic(m.names, m1.names, m2.names, n);
                            }
                            Some((j1 + j2 + j3, m3))
                        },
                    }
                },
            }
        },
    }
}

/// How many values the code of the first `k` expressions of a sequence
/// leaves: the value of the last expression of the sequence, where that is
/// kept, and no other.
pub open spec fn left_by(xs: Seq<Node>, k: int, keep: bool) -> int {
    if keep && 0 < k && k == xs.len() && leaves_value(xs[k - 1]) {
        1
    } else {
        0
    }
}

/// The code of the first `k` expressions of a sequence: a machine that
/// stands at its start either breaks or comes to stand behind it, with the
/// stack as it was, but for the value of the last expression where that is
/// kept.
pub proof fn sim_seq(u: Unit, xs: Seq<Node>, k: int, keep: bool, m: Machine) -> (r: Option<
    (nat, Machine),
>)
    requires
        sequence(u, xs, k, keep) is Ok,
        holds(m.ops, u, sequence(u, xs, k, keep)->Ok_0),
        m.ip == u.ops.len(),
        !in_dyadic(m.control),
    ensures
        reached(m, r, sequence(u, xs, k, keep)->Ok_0.ops.len() as int, left_by(xs, k, keep)),
        r matches Some((j, m2)) ==> pool_of(m.consts, sequence(u, xs, k, keep)->Ok_0)
            ==> names_kept_by(m.names, m2.names, xs, k),
    decreases xs, k,
{
    if k <= 0 || k > xs.len() {
        lemma_grown_self(m);
        Some((0, m))
    } else {
        let end = sequence(u, xs, k, keep)->Ok_0;
        let u1 = sequence(u, xs, k - 1, keep)->Ok_0;
        let u2 = compiled(u1, xs[k - 1])->Ok_0;
        let pops = leaves_value(xs[k - 1]) && !(keep && k == xs.len());
        lemma_sequence_extends(u, xs, k - 1, keep);
        lemma_compiled_extends(u1, xs[k - 1]);
        lemma_emitted_extends(u2, OP::POP);
        lemma_extends_self(u2);
        lemma_extends_chain(u1, u2, end);
        lemma_holds_first(m.ops, u, u1, end);
        match sim_seq(u, xs, k - 1, keep, m) {
            None => None,
            Some((j1, m1)) => {
                lemma_holds_last(m.ops, u, u1, end);
                lemma_holds_first(m.ops, u1, u2, end);
                match sim_expr(u1, xs[k - 1], m1) {
                    None => {
                        lemma_breaks_later(m, j1, m1);
                        None
                    },
                    Some((j2, m2)) => {
                        lemma_after_add(m, j1, m1, j2, m2);
                        lemma_grown_chain(
                            m,
                            m1,
                            m2,
                            0,
                            if leaves_value(xs[k - 1]) {
                                1
                            } else {
                                0
                            },
                        );
                        if pops {
                            lemma_holds_last(m.ops, u, u2, end);
                            match sim_pop(u2, m2) {
                                None => {
                                    lemma_breaks_later(m, j1 + j2, m2);
                                    None
                                },
                                Some((j3, m3)) => {
                                    lemma_after_add(m, j1 + j2, m2, j3, m3);
                                    assert(m3.stack =~= m.stack);
                                    assert(m3.stack.take(m.stack.len() as int) =~= m.stack);
                                    if pool_of(m.consts, end) {
                                        lemma_pool_before(m.consts, u1, end);
                                        lemma_pool_before(m.consts, u2, end);
                                        lemma_pool_later(m, m1, u2);
                                        lemma_kept_more(m.names, m1.names, m2.names, xs, k);
                                    }
                                    Some((j1 + j2 + j3, m3))
                                },
                            }
                        } else {
                            if pool_of(m.consts, end) {
                                lemma_pool_before(m.consts, u1, end);
                                lemma_pool_before(m.consts, u2, end);
                                lemma_pool_later(m, m1, u2);
                                lemma_kept_more(m.names, m1.names, m2.names, xs, k);
                            }
                            Some((j1 + j2, m2))
                        }
                    },
                }
            },
        }
    }
}

} // verus!
