//! Calls of functions by name, through the run of a line: what such a line
//! gives is what the function value gives on the argument, so a function
//! gives in a later line what it gave in the line that made it.

use vstd::prelude::*;

use crate::ast::{val, Node, Term};
use crate::budget::law_call_with_more;
use crate::byte::{
    binds, binds_any, called, compiled, element, emitted, extends, framed, lemma_compiled_extends,
    lemma_emitted_extends, lemma_extends_chain, lemma_framed_extends, lemma_train_extends, opening,
    pooled, program, train_from, with_const, Scope, Unit,
};
use crate::err::Fault;
use crate::laws::{
    is_literal, law_other_names_stay, lemma_compiled_literal, lemma_end_alone, lemma_frame_ends, lemma_mbl_alone,
    lemma_one_line, lemma_pop_alone, lemma_stuck,
};
use crate::num::FloatFact;
use crate::op::{decoding, OP};
use crate::sim::{
    after, bound_alike, breaks, holds, lemma_after_add, lemma_after_one, lemma_breaks_later,
    lemma_breaks_run, lemma_decode, lemma_decode_open, lemma_grown_chain, lemma_holds_first,
    lemma_holds_last, lemma_kept_dyadic, lemma_pool_later, lemma_run_after, lemma_step_keeps, next,
    sim_expr, sim_pooled,
};
use crate::sound::lemma_pool_before;
use crate::vm::{
    bound_value, call, callee, do_dbl, do_dcall, do_end, do_mcall, doubled_pair, fresh, halted,
    in_dyadic, monadic_place, moved, name_at, run, BL, C, Machine,
};

verus! {

/// Whether a train is the name of a function and nothing else.
pub open spec fn names_function(t: Seq<Node>, f: Seq<char>) -> bool {
    t.len() == 1 && (t[0].n == Term::Val(f) || t[0].n == Term::FnVal(f))
}

/// What the function value that the name `f` is bound to in a machine
/// gives on the one value on the stack of the machine, called from there
/// after the instruction that enters the train.
pub open spec fn outcome_of(m: Machine, f: Seq<char>) -> Result<Node, Fault> {
    match bound_value(m, f) {
        Err(e) => Err(e),
        Ok(fun) => call(
            fun,
            seq![m.stack[0]],
            m.limit,
            (m.depth - 1) as nat,
            (m.fuel - 2) as nat,
            m.floats,
        ),
    }
}

/// What the function value that the name `f` is bound to in a machine
/// gives on the two values on the stack of the machine, the upper one as
/// the left argument, called from there after the instruction that enters
/// the train.
pub open spec fn outcome_of_pair(m: Machine, f: Seq<char>) -> Result<Node, Fault> {
    match bound_value(m, f) {
        Err(e) => Err(e),
        Ok(fun) => call(
            fun,
            seq![m.stack[1], m.stack[0]],
            m.limit,
            (m.depth - 1) as nat,
            (m.fuel - 2) as nat,
            m.floats,
        ),
    }
}

/// The environment that a run leaves for the lines that follow: the pool
/// and the names of the machine at its end.
pub open spec fn left_by_run(end: Machine) -> Scope {
    Scope { consts: end.consts, names: end.names }
}

/// The instruction that calls a function of one argument.
pub proof fn lemma_mcall_alone(m: Machine, i: u16)
    requires
        decoding(m.ops, m.ip) == Some(OP::MCALL(i)),
    ensures
        next(m) is Ok ==> next(m) == do_mcall(m, i, m.ip + 3),
{
    reveal(next);
}

/// The code of a train that is the name of a function, for one argument:
/// the instruction that enters the train, the name in the pool, and the
/// call.
pub proof fn lemma_train_of_call(u: Unit, t: Seq<Node>, f: Seq<char>)
    requires
        names_function(t, f),
        framed(u, OP::MBL(0), t, false) is Ok,
    ensures
        ({
            let ua = emitted(u, OP::MBL(0));
            let ub = with_const(ua->Ok_0, val(Term::Str(f)));
            let uc = emitted(ub->Ok_0.0, OP::MCALL(ub->Ok_0.1));
            &&& ua is Ok
            &&& ub is Ok
            &&& uc is Ok
            &&& ub->Ok_0.1 == u.consts.len()
            &&& train_from(ua->Ok_0, t, 0, false) == uc
            &&& uc->Ok_0.ops.len() == u.ops.len() + 6
            &&& uc->Ok_0.consts == u.consts.push(val(Term::Str(f)))
            &&& framed(u, OP::MBL(0), t, false)->Ok_0.consts == uc->Ok_0.consts
        }),
{
    let ua = emitted(u, OP::MBL(0))->Ok_0;
    reveal_with_fuel(train_from, 2);
    assert(train_from(ua, t, 1, false) == Ok::<Unit, Fault>(ua));
    assert(element(ua, t, 0, false) == called(ua, f, false));
}

/// The run of a machine that stands before the train that calls the
/// function at the name of index `i`, with the value `v` alone on its
/// stack and no frame of a dyadic train on top: if it does not end in a
/// failure, it pops last what the function gives on `v` and ends with the
/// stack empty.
pub proof fn lemma_call_run(m: Machine, v: Node, i: u16)
    requires
        m.stack == seq![v],
        !in_dyadic(m.control),
        m.ops.len() == m.ip + 8,
        m.ip >= 0,
        decoding(m.ops, m.ip) is Some,
        decoding(m.ops, m.ip)->0 is MBL,
        decoding(m.ops, m.ip + 3) == Some(OP::MCALL(i)),
        decoding(m.ops, m.ip + 6) == Some(OP::END),
        decoding(m.ops, m.ip + 7) == Some(OP::POP),
    ensures
        run(m).1 is None ==> {
            &&& callee(m, i, 1) is Ok
            &&& m.fuel >= 2
            &&& m.depth >= 1
            &&& call(
                callee(m, i, 1)->Ok_0,
                seq![v],
                m.limit,
                (m.depth - 1) as nat,
                (m.fuel - 2) as nat,
                m.floats,
            ) is Ok
            &&& run(m).0.last == Some(
                call(
                    callee(m, i, 1)->Ok_0,
                    seq![v],
                    m.limit,
                    (m.depth - 1) as nat,
                    (m.fuel - 2) as nat,
                    m.floats,
                )->Ok_0,
            )
            &&& run(m).0.stack == Seq::<Node>::empty()
        },
{
    let addr = decoding(m.ops, m.ip)->0->MBL_0;
    if next(m) is Err {
        lemma_stuck(m);
    } else {
        lemma_mbl_alone(m, v, addr);
        lemma_step_keeps(m);
        let m2 = next(m)->Ok_0;
        lemma_after_one(m);
        lemma_run_after(m, 1);
        if next(m2) is Err {
            lemma_stuck(m2);
        } else {
            lemma_step_keeps(m2);
            lemma_mcall_alone(m2, i);
            assert(callee(m2, i, 1) == callee(m, i, 1));
            assert(monadic_place(m2) == Ok::<int, Fault>(1));
            let fun = callee(m, i, 1)->Ok_0;
            let w = call(
                fun,
                seq![v],
                m.limit,
                (m.depth - 1) as nat,
                (m.fuel - 2) as nat,
                m.floats,
            )->Ok_0;
            let m3 = next(m2)->Ok_0;
            assert(m3.stack =~= seq![v, w]);
            lemma_after_one(m2);
            lemma_run_after(m2, 1);
            if next(m3) is Err {
                lemma_stuck(m3);
            } else {
                lemma_step_keeps(m3);
                lemma_end_alone(m3, v, w, m.control, C { ip: addr as usize, t: BL::MBL });
                let m4 = next(m3)->Ok_0;
                lemma_after_one(m3);
                lemma_run_after(m3, 1);
                if next(m4) is Err {
                    lemma_stuck(m4);
                } else {
                    lemma_step_keeps(m4);
                    lemma_pop_alone(m4);
                    let m5 = next(m4)->Ok_0;
                    lemma_after_one(m4);
                    lemma_run_after(m4, 1);
                    assert(m5.stack =~= Seq::<Node>::empty());
                    assert(halted(m5));
                    assert(run(m5) == (m5, None::<Fault>));
                }
            }
        }
    }
}

/// What the line that calls the function of the name `f` on one expression
/// gives, from the machine `m1` that the code of the expression left: the
/// result of the function value that `f` is bound to in `m1`, on the value
/// on the stack of `m1`.
pub proof fn lemma_call_after(
    env: Scope,
    line: Node,
    f: Seq<char>,
    m0: Machine,
    j: nat,
    m1: Machine,
)
    requires
        line.n is Apply,
        names_function(line.n->Apply_train, f),
        line.n->Apply_args.len() == 1,
        program(env, seq![line]) is Ok,
        m0.ops == program(env, seq![line])->Ok_0.ops,
        m0.consts == program(env, seq![line])->Ok_0.consts,
        after(m0, j) == Some(m1),
        m1.ip == compiled(opening(env), line.n->Apply_args[0])->Ok_0.ops.len(),
        m1.stack.len() == 1,
        !in_dyadic(m1.control),
        m1.consts.len() >= m0.consts.len(),
        m1.consts.take(m0.consts.len() as int) == m0.consts,
        run(m0).1 is None,
    ensures
        bound_value(m1, f) is Ok,
        bound_value(m1, f)->Ok_0.n is Fun,
        bound_value(m1, f)->Ok_0.n->Fun_arity == 1,
        m1.fuel >= 2,
        m1.depth >= 1,
        outcome_of(m1, f) is Ok,
        run(m0).0.last == Some(outcome_of(m1, f)->Ok_0),
        run(m0).0.stack == Seq::<Node>::empty(),
{
    let p = program(env, seq![line])->Ok_0;
    let u = opening(env);
    let t = line.n->Apply_train;
    let x = line.n->Apply_args[0];
    lemma_one_line(env, line);
    let u1 = compiled(u, x)->Ok_0;
    assert(compiled(u, line) == framed(u1, OP::MBL(0), t, false));
    lemma_compiled_extends(u, x);
    lemma_frame_ends(p.ops, u, u1, t);
    lemma_train_of_call(u1, t, f);
    let ua = emitted(u1, OP::MBL(0))->Ok_0;
    let ub = with_const(ua, val(Term::Str(f)))->Ok_0.0;
    let i = with_const(ua, val(Term::Str(f)))->Ok_0.1;
    lemma_decode(p.ops, ub, OP::MCALL(i));
    lemma_run_after(m0, j);
    let v = m1.stack[0];
    assert(m1.stack =~= seq![v]);
    lemma_call_run(m1, v, i);
    assert(m1.consts.take(m0.consts.len() as int)[i as int] == m1.consts[i as int]);
    assert(name_at(m1.consts, i as int) == Some(f));
}

/// A call by name gives what the function value gives: the line that
/// applies the name `f` to one expression, run without a failure in a
/// machine that starts with empty stacks, pops last the result of the
/// function value that `f` is bound to when the code of the expression has
/// run, on the value that this code left, and ends with the stack empty.
/// Where the expression does not bind `f`, that is the function value that
/// `f` was bound to before the line.
pub proof fn law_call_line(
    env: Scope,
    line: Node,
    f: Seq<char>,
    limit: nat,
    depth: nat,
    fuel: nat,
    floats: Seq<FloatFact>,
)
    requires
        line.n is Apply,
        names_function(line.n->Apply_train, f),
        line.n->Apply_args.len() == 1,
        program(env, seq![line]) is Ok,
        run(fresh(program(env, seq![line])->Ok_0, limit, depth, fuel, floats)).1 is None,
    ensures
        ({
            let p = program(env, seq![line])->Ok_0;
            let m0 = fresh(p, limit, depth, fuel, floats);
            let end = run(m0).0;
            let x = line.n->Apply_args[0];
            &&& end.stack == Seq::<Node>::empty()
            &&& exists|k: nat| #[trigger]
                after(m0, k) is Some && after(m0, k)->0.ip == compiled(
                    opening(env),
                    x,
                )->Ok_0.ops.len() && after(m0, k)->0.stack.len() == 1 && ({
                    let b = after(m0, k)->0;
                    &&& bound_value(b, f) is Ok
                    &&& bound_value(b, f)->Ok_0.n is Fun
                    &&& bound_value(b, f)->Ok_0.n->Fun_arity == 1
                    &&& b.limit == limit && b.depth == depth && b.floats == floats
                    &&& depth >= 1 && b.fuel >= 2
                    &&& outcome_of(b, f) is Ok
                    &&& end.last == Some(outcome_of(b, f)->Ok_0)
                    &&& b.consts.len() >= env.consts.len()
                    &&& b.consts.take(env.consts.len() as int) == env.consts
                    &&& !binds(x, f) ==> bound_alike(env.names, b.names, f)
                })
        }),
{
    let p = program(env, seq![line])->Ok_0;
    let m0 = fresh(p, limit, depth, fuel, floats);
    let u = opening(env);
    let t = line.n->Apply_train;
    let x = line.n->Apply_args[0];
    lemma_one_line(env, line);
    let u1 = compiled(u, x)->Ok_0;
    let r = compiled(u, line)->Ok_0;
    assert(compiled(u, line) == framed(u1, OP::MBL(0), t, false));
    lemma_compiled_extends(u, x);
    lemma_compiled_extends(u, line);
    lemma_frame_ends(p.ops, u, u1, t);
    crate::byte::lemma_framed_extends(u1, OP::MBL(0), t, false);
    assert(m0.consts.take(r.consts.len() as int) =~= r.consts);
    lemma_pool_before(m0.consts, u1, r);
    match sim_expr(u, x, m0) {
        None => {
            lemma_breaks_run(m0);
        },
        Some((j1, m1)) => {
            lemma_run_after(m0, j1);
            lemma_call_after(env, line, f, m0, j1, m1);
            assert(after(m0, j1) is Some);
            assert(m1.consts.take(env.consts.len() as int) =~= m1.consts.take(
                m0.consts.len() as int,
            ).take(env.consts.len() as int));
            if !binds(x, f) {
                assert(bound_alike(m0.names, m1.names, f));
            }
        },
    }
}

/// A function keeps what it saw, through the lines that follow: the line
/// that applies the name `f` to a literal gives the same value after any
/// lines as it gave before them, if `f` stands for the same function value
/// then as before. Whatever else the lines have bound or bound again, and
/// whatever steps and depth of calls the two runs have, as long as both
/// come to their end, does not count.
pub proof fn law_closure_snapshot(
    before: Scope,
    later: Scope,
    line: Node,
    f: Seq<char>,
    limit: nat,
    depth1: nat,
    fuel1: nat,
    depth2: nat,
    fuel2: nat,
    floats: Seq<FloatFact>,
)
    requires
        line.n is Apply,
        names_function(line.n->Apply_train, f),
        line.n->Apply_args.len() == 1,
        is_literal(line.n->Apply_args[0]),
        before.names.contains_key(f),
        later.names.contains_key(f),
        before.names[f] < before.consts.len(),
        later.names[f] < later.consts.len(),
        before.consts[before.names[f] as int] == later.consts[later.names[f] as int],
        program(before, seq![line]) is Ok,
        program(later, seq![line]) is Ok,
        run(fresh(program(before, seq![line])->Ok_0, limit, depth1, fuel1, floats)).1 is None,
        run(fresh(program(later, seq![line])->Ok_0, limit, depth2, fuel2, floats)).1 is None,
    ensures
        run(fresh(program(before, seq![line])->Ok_0, limit, depth1, fuel1, floats)).0.last is Some,
        run(fresh(program(before, seq![line])->Ok_0, limit, depth1, fuel1, floats)).0.last == run(
            fresh(program(later, seq![line])->Ok_0, limit, depth2, fuel2, floats),
        ).0.last,
{
    let fun = before.consts[before.names[f] as int];
    let a = line.n->Apply_args[0];
    let g1 = lemma_literal_call(before, line, f, limit, depth1, fuel1, floats);
    let g2 = lemma_literal_call(later, line, f, limit, depth2, fuel2, floats);
    let d: nat = if depth1 >= depth2 {
        depth1
    } else {
        depth2
    };
    let g: nat = if g1 >= g2 {
        g1
    } else {
        g2
    };
    law_call_with_more(fun, seq![a], limit, (depth1 - 1) as nat, g1, (d - 1) as nat, g, floats);
    law_call_with_more(fun, seq![a], limit, (depth2 - 1) as nat, g2, (d - 1) as nat, g, floats);
}

/// A function gives after a line what it gave before it: where the name
/// `f` stands for a value of the pool, and a line that does not bind `f`
/// runs without a failure, the line that applies `f` to a literal gives the
/// same value in the environment that the first line left as in the
/// environment before it. The first line may bind any other name, and bind
/// again the names that the function read when it was made.
pub proof fn law_closure_survives_a_line(
    env: Scope,
    ast: Seq<Node>,
    line: Node,
    f: Seq<char>,
    limit: nat,
    depth: nat,
    fuel: nat,
    floats: Seq<FloatFact>,
)
    requires
        line.n is Apply,
        names_function(line.n->Apply_train, f),
        line.n->Apply_args.len() == 1,
        is_literal(line.n->Apply_args[0]),
        env.names.contains_key(f),
        env.names[f] < env.consts.len(),
        !binds_any(ast, ast.len() as int, f),
        program(env, ast) is Ok,
        run(fresh(program(env, ast)->Ok_0, limit, depth, fuel, floats)).1 is None,
        program(env, seq![line]) is Ok,
        run(fresh(program(env, seq![line])->Ok_0, limit, depth, fuel, floats)).1 is None,
        ({
            let later = left_by_run(
                run(fresh(program(env, ast)->Ok_0, limit, depth, fuel, floats)).0,
            );
            &&& program(later, seq![line]) is Ok
            &&& run(fresh(program(later, seq![line])->Ok_0, limit, depth, fuel, floats)).1 is None
        }),
    ensures
        ({
            let later = left_by_run(
                run(fresh(program(env, ast)->Ok_0, limit, depth, fuel, floats)).0,
            );
            run(fresh(program(later, seq![line])->Ok_0, limit, depth, fuel, floats)).0.last == run(
                fresh(program(env, seq![line])->Ok_0, limit, depth, fuel, floats),
            ).0.last
        }),
{
    let end = run(fresh(program(env, ast)->Ok_0, limit, depth, fuel, floats)).0;
    let later = left_by_run(end);
    law_other_names_stay(env, ast, f, limit, depth, fuel, floats);
    assert(end.consts.take(env.consts.len() as int)[env.names[f] as int] == end.consts[env.names[f] as int]);
    law_closure_snapshot(env, later, line, f, limit, depth, fuel, depth, fuel, floats);
}

/// The line that applies the name `f`, bound to a value of the pool, to a
/// literal: run without a failure, it pops last what that value, a
/// function, gives on the literal.
pub proof fn lemma_literal_call(
    env: Scope,
    line: Node,
    f: Seq<char>,
    limit: nat,
    depth: nat,
    fuel: nat,
    floats: Seq<FloatFact>,
) -> (g: nat)
    requires
        line.n is Apply,
        names_function(line.n->Apply_train, f),
        line.n->Apply_args.len() == 1,
        is_literal(line.n->Apply_args[0]),
        env.names.contains_key(f),
        env.names[f] < env.consts.len(),
        program(env, seq![line]) is Ok,
        run(fresh(program(env, seq![line])->Ok_0, limit, depth, fuel, floats)).1 is None,
    ensures
        depth >= 1,
        call(
            env.consts[env.names[f] as int],
            seq![line.n->Apply_args[0]],
            limit,
            (depth - 1) as nat,
            g,
            floats,
        ) is Ok,
        run(fresh(program(env, seq![line])->Ok_0, limit, depth, fuel, floats)).0.last == Some(
            call(
                env.consts[env.names[f] as int],
                seq![line.n->Apply_args[0]],
                limit,
                (depth - 1) as nat,
                g,
                floats,
            )->Ok_0,
        ),
{
    let p = program(env, seq![line])->Ok_0;
    let m0 = fresh(p, limit, depth, fuel, floats);
    let u = opening(env);
    let t = line.n->Apply_train;
    let a = line.n->Apply_args[0];
    lemma_one_line(env, line);
    lemma_compiled_literal(u, a);
    let u1 = compiled(u, a)->Ok_0;
    let r = compiled(u, line)->Ok_0;
    assert(compiled(u, line) == framed(u1, OP::MBL(0), t, false));
    lemma_compiled_extends(u, a);
    lemma_compiled_extends(u, line);
    lemma_frame_ends(p.ops, u, u1, t);
    match sim_pooled(u, a, m0) {
        None => {
            lemma_breaks_run(m0);
            0
        },
        Some((j1, m1)) => {
            lemma_run_after(m0, j1);
            assert(m1.stack =~= seq![m1.stack[0]]);
            assert(m1.consts.take(m0.consts.len() as int) =~= m0.consts);
            lemma_call_after(env, line, f, m0, j1, m1);
            assert(m0.consts.take(u1.consts.len() as int)[u.consts.len() as int]
                == u1.consts[u.consts.len() as int]) by {
                crate::byte::lemma_framed_extends(u1, OP::MBL(0), t, false);
            }
            assert(m0.consts.take(env.consts.len() as int)[env.names[f] as int]
                == env.consts[env.names[f] as int]) by {
                assert(r.consts.take(env.consts.len() as int) == env.consts);
            }
            (m1.fuel - 2) as nat
        },
    }
}

/// The instruction that calls a function of two arguments.
pub proof fn lemma_dcall_alone(m: Machine, i: u16)
    requires
        decoding(m.ops, m.ip) == Some(OP::DCALL(i)),
    ensures
        next(m) is Ok ==> next(m) == do_dcall(m, i, m.ip + 3),
{
    reveal(next);
}

/// The instruction that enters a dyadic train on a stack of two values.
pub proof fn lemma_dbl_alone(m: Machine, r: Node, l: Node, addr: u16)
    requires
        decoding(m.ops, m.ip) == Some(OP::DBL(addr)),
        m.stack == seq![r, l],
    ensures
        next(m) is Ok ==> next(m)->Ok_0 == moved(
            m,
            seq![r, l, r, l],
            m.control.push(C { ip: addr as usize, t: BL::DBL }),
            m.ip + 3,
        ),
{
    reveal(next);
    if next(m) is Ok {
        assert(next(m) == do_dbl(m, addr, m.ip + 3));
        assert(doubled_pair(m.stack) =~= seq![r, l, r, l]);
    }
}

/// The instruction that leaves a dyadic train that stands in no other
/// dyadic train: of the four values that the train worked on, the result,
/// second from the top, is left.
pub proof fn lemma_end_pair(m: Machine, s: Seq<Node>, below: Seq<C>, c: C)
    requires
        decoding(m.ops, m.ip) == Some(OP::END),
        m.stack == s,
        s.len() == 4,
        m.control == below.push(c),
        c.t == BL::DBL,
        !in_dyadic(below),
    ensures
        next(m) is Ok ==> next(m)->Ok_0 == moved(m, seq![s[2]], below, m.ip + 1),
{
    reveal(next);
    if next(m) is Ok {
        assert(next(m) == do_end(m, m.ip + 1));
        assert(m.control.drop_last() =~= below);
        assert(m.stack.take(0).push(m.stack[2]) =~= seq![s[2]]);
    }
}

/// The code of a train that is the name of a function, for two arguments:
/// the instruction that enters the train, the name in the pool, and the
/// call.
pub proof fn lemma_train_of_call_pair(u: Unit, t: Seq<Node>, f: Seq<char>)
    requires
        names_function(t, f),
        framed(u, OP::DBL(0), t, true) is Ok,
    ensures
        ({
            let ua = emitted(u, OP::DBL(0));
            let ub = with_const(ua->Ok_0, val(Term::Str(f)));
            let uc = emitted(ub->Ok_0.0, OP::DCALL(ub->Ok_0.1));
            &&& ua is Ok
            &&& ub is Ok
            &&& uc is Ok
            &&& ub->Ok_0.1 == u.consts.len()
            &&& train_from(ua->Ok_0, t, 0, true) == uc
            &&& uc->Ok_0.ops.len() == u.ops.len() + 6
            &&& uc->Ok_0.consts == u.consts.push(val(Term::Str(f)))
            &&& framed(u, OP::DBL(0), t, true)->Ok_0.consts == uc->Ok_0.consts
        }),
{
    let ua = emitted(u, OP::DBL(0))->Ok_0;
    reveal_with_fuel(train_from, 2);
    assert(train_from(ua, t, 1, true) == Ok::<Unit, Fault>(ua));
    assert(element(ua, t, 0, true) == called(ua, f, true));
}

/// Where the instructions around a train for two arguments stand in a
/// code that ends with the train and a `POP`.
pub proof fn lemma_frame_ends_pair(ops: Seq<u8>, u: Unit, u1: Unit, t: Seq<Node>)
    requires
        extends(u, u1),
        framed(u1, OP::DBL(0), t, true) is Ok,
        emitted(framed(u1, OP::DBL(0), t, true)->Ok_0, OP::POP) is Ok,
        ops == emitted(framed(u1, OP::DBL(0), t, true)->Ok_0, OP::POP)->Ok_0.ops,
    ensures
        ({
            let ua = emitted(u1, OP::DBL(0))->Ok_0;
            let wf = train_from(ua, t, 0, true)->Ok_0;
            &&& emitted(u1, OP::DBL(0)) is Ok
            &&& train_from(ua, t, 0, true) is Ok
            &&& holds(ops, u, u1)
            &&& holds(ops, ua, wf)
            &&& ua.ops.len() == u1.ops.len() + 3
            &&& ops.len() == wf.ops.len() + 2
            &&& decoding(ops, u1.ops.len() as int) is Some
            &&& decoding(ops, u1.ops.len() as int)->0 is DBL
            &&& decoding(ops, wf.ops.len() as int) == Some(OP::END)
            &&& decoding(ops, wf.ops.len() as int + 1) == Some(OP::POP)
        }),
{
    let r = framed(u1, OP::DBL(0), t, true)->Ok_0;
    let ua = emitted(u1, OP::DBL(0))->Ok_0;
    let wf = train_from(ua, t, 0, true)->Ok_0;
    let u3 = emitted(wf, OP::END)->Ok_0;
    lemma_framed_extends(u1, OP::DBL(0), t, true);
    lemma_train_extends(ua, t, 0, true);
    lemma_emitted_extends(wf, OP::END);
    assert(holds(ops, u, r));
    lemma_holds_first(ops, u, u1, r);
    lemma_holds_last(ops, u, u1, r);
    lemma_decode_open(ops, u1, OP::DBL(0), t, true);
    assert(holds(ops, ua, wf)) by {
        assert forall|i: int| ua.ops.len() <= i < wf.ops.len() implies ops[i] == wf.ops[i] by {
            assert(ops[i] == r.ops[i]);
            assert(u3.ops.take(wf.ops.len() as int)[i] == wf.ops[i]);
        }
    }
    assert(holds(ops, wf, u3)) by {
        assert forall|i: int| wf.ops.len() <= i < u3.ops.len() implies ops[i] == u3.ops[i] by {
            assert(ops[i] == r.ops[i]);
        }
    }
    lemma_decode(ops, wf, OP::END);
    lemma_decode(ops, r, OP::POP);
}

/// The run of a machine that stands before the train that calls the
/// function at the name of index `i`, with the right argument `r` and above
/// it the left argument `l` alone on its stack, and no frame of a dyadic
/// train on top: if it does not end in a failure, it pops last what the
/// function gives on `l` and `r` and ends with the stack empty.
pub proof fn lemma_call_run_pair(m: Machine, r: Node, l: Node, i: u16)
    requires
        m.stack == seq![r, l],
        !in_dyadic(m.control),
        m.ops.len() == m.ip + 8,
        m.ip >= 0,
        decoding(m.ops, m.ip) is Some,
        decoding(m.ops, m.ip)->0 is DBL,
        decoding(m.ops, m.ip + 3) == Some(OP::DCALL(i)),
        decoding(m.ops, m.ip + 6) == Some(OP::END),
        decoding(m.ops, m.ip + 7) == Some(OP::POP),
    ensures
        run(m).1 is None ==> {
            &&& callee(m, i, 2) is Ok
            &&& m.fuel >= 2
            &&& m.depth >= 1
            &&& call(
                callee(m, i, 2)->Ok_0,
                seq![l, r],
                m.limit,
                (m.depth - 1) as nat,
                (m.fuel - 2) as nat,
                m.floats,
            ) is Ok
            &&& run(m).0.last == Some(
                call(
                    callee(m, i, 2)->Ok_0,
                    seq![l, r],
                    m.limit,
                    (m.depth - 1) as nat,
                    (m.fuel - 2) as nat,
                    m.floats,
                )->Ok_0,
            )
            &&& run(m).0.stack == Seq::<Node>::empty()
        },
{
    let addr = decoding(m.ops, m.ip)->0->DBL_0;
    if next(m) is Err {
        lemma_stuck(m);
    } else {
        lemma_dbl_alone(m, r, l, addr);
        lemma_step_keeps(m);
        let m2 = next(m)->Ok_0;
        lemma_after_one(m);
        lemma_run_after(m, 1);
        if next(m2) is Err {
            lemma_stuck(m2);
        } else {
            lemma_step_keeps(m2);
            lemma_dcall_alone(m2, i);
            assert(callee(m2, i, 2) == callee(m, i, 2));
            let fun = callee(m, i, 2)->Ok_0;
            assert(seq![m2.stack[3], m2.stack[2]] =~= seq![l, r]);
            let w = call(
                fun,
                seq![l, r],
                m.limit,
                (m.depth - 1) as nat,
                (m.fuel - 2) as nat,
                m.floats,
            )->Ok_0;
            let m3 = next(m2)->Ok_0;
            assert(m3.stack =~= seq![r, l, w, w]);
            lemma_after_one(m2);
            lemma_run_after(m2, 1);
            if next(m3) is Err {
                lemma_stuck(m3);
            } else {
                lemma_step_keeps(m3);
                lemma_end_pair(
                    m3,
                    seq![r, l, w, w],
                    m.control,
                    C { ip: addr as usize, t: BL::DBL },
                );
                let m4 = next(m3)->Ok_0;
                lemma_after_one(m3);
                lemma_run_after(m3, 1);
                if next(m4) is Err {
                    lemma_stuck(m4);
                } else {
                    lemma_step_keeps(m4);
                    lemma_pop_alone(m4);
                    let m5 = next(m4)->Ok_0;
                    lemma_after_one(m4);
                    lemma_run_after(m4, 1);
                    assert(m5.stack =~= Seq::<Node>::empty());
                    assert(halted(m5));
                    assert(run(m5) == (m5, None::<Fault>));
                }
            }
        }
    }
}

/// What the line that calls the function of the name `f` on two
/// expressions gives, from the machine `m1` that the code of the
/// expressions left: the result of the function value that `f` is bound to
/// in `m1`, on the two values on the stack of `m1`.
pub proof fn lemma_call_after_pair(
    env: Scope,
    line: Node,
    f: Seq<char>,
    m0: Machine,
    j: nat,
    m1: Machine,
)
    requires
        line.n is Apply,
        names_function(line.n->Apply_train, f),
        line.n->Apply_args.len() == 2,
        program(env, seq![line]) is Ok,
        m0.ops == program(env, seq![line])->Ok_0.ops,
        m0.consts == program(env, seq![line])->Ok_0.consts,
        after(m0, j) == Some(m1),
        m1.ip == compiled(
            compiled(opening(env), line.n->Apply_args[1])->Ok_0,
            line.n->Apply_args[0],
        )->Ok_0.ops.len(),
        m1.stack.len() == 2,
        !in_dyadic(m1.control),
        m1.consts.len() >= m0.consts.len(),
        m1.consts.take(m0.consts.len() as int) == m0.consts,
        run(m0).1 is None,
    ensures
        bound_value(m1, f) is Ok,
        bound_value(m1, f)->Ok_0.n is Fun,
        bound_value(m1, f)->Ok_0.n->Fun_arity == 2,
        m1.fuel >= 2,
        m1.depth >= 1,
        outcome_of_pair(m1, f) is Ok,
        run(m0).0.last == Some(outcome_of_pair(m1, f)->Ok_0),
        run(m0).0.stack == Seq::<Node>::empty(),
{
    let p = program(env, seq![line])->Ok_0;
    let u1 = compiled(opening(env), line.n->Apply_args[1])->Ok_0;
    let u2 = compiled(u1, line.n->Apply_args[0])->Ok_0;
    let i = u2.consts.len() as u16;
    lemma_call_layout_pair(env, line, f);
    lemma_run_after(m0, j);
    let r = m1.stack[0];
    let l = m1.stack[1];
    assert(m1.stack =~= seq![r, l]);
    lemma_call_run_pair(m1, r, l, i);
    assert(m1.consts.take(m0.consts.len() as int)[i as int] == m1.consts[i as int]);
    assert(name_at(m1.consts, i as int) == Some(f));
}

/// Where the instructions of the line that calls the function of the name
/// `f` on two expressions stand: behind the code of the expressions the
/// instruction that enters the train, the call, the `END` and the `POP`,
/// and the name in the pool behind the constants of the expressions.
pub proof fn lemma_call_layout_pair(env: Scope, line: Node, f: Seq<char>)
    requires
        line.n is Apply,
        names_function(line.n->Apply_train, f),
        line.n->Apply_args.len() == 2,
        program(env, seq![line]) is Ok,
    ensures
        ({
            let p = program(env, seq![line])->Ok_0;
            let u1 = compiled(opening(env), line.n->Apply_args[1])->Ok_0;
            let u2 = compiled(u1, line.n->Apply_args[0])->Ok_0;
            let at = u2.ops.len() as int;
            let i = u2.consts.len() as int;
            &&& compiled(opening(env), line.n->Apply_args[1]) is Ok
            &&& compiled(u1, line.n->Apply_args[0]) is Ok
            &&& p.ops.len() == at + 8
            &&& decoding(p.ops, at) is Some
            &&& decoding(p.ops, at)->0 is DBL
            &&& i <= u16::MAX
            &&& decoding(p.ops, at + 3) == Some(OP::DCALL(i as u16))
            &&& decoding(p.ops, at + 6) == Some(OP::END)
            &&& decoding(p.ops, at + 7) == Some(OP::POP)
            &&& p.consts == u2.consts.push(val(Term::Str(f)))
            &&& p.names == env.names
            &&& holds(p.ops, opening(env), u1)
            &&& holds(p.ops, u1, u2)
        }),
{
    let p = program(env, seq![line])->Ok_0;
    let u = opening(env);
    let t = line.n->Apply_train;
    lemma_one_line(env, line);
    let u1 = compiled(u, line.n->Apply_args[1])->Ok_0;
    let u2 = compiled(u1, line.n->Apply_args[0])->Ok_0;
    assert(compiled(u, line) == framed(u2, OP::DBL(0), t, true));
    lemma_compiled_extends(u, line.n->Apply_args[1]);
    lemma_compiled_extends(u1, line.n->Apply_args[0]);
    lemma_compiled_extends(u, line);
    lemma_extends_chain(u, u1, u2);
    lemma_frame_ends_pair(p.ops, u, u2, t);
    lemma_holds_first(p.ops, u, u1, u2);
    lemma_holds_last(p.ops, u, u1, u2);
    lemma_train_of_call_pair(u2, t, f);
    let ua = emitted(u2, OP::DBL(0))->Ok_0;
    let ub = with_const(ua, val(Term::Str(f)))->Ok_0.0;
    let i = with_const(ua, val(Term::Str(f)))->Ok_0.1;
    lemma_decode(p.ops, ub, OP::DCALL(i));
}

/// A call by name with two arguments gives what the function value gives:
/// the line that applies the name `f` to two expressions, run without a
/// failure in a machine that starts with empty stacks, pops last the result
/// of the function value that `f` is bound to when the code of both
/// expressions has run, on the values that this code left, the value of
/// the first expression as the left argument, and ends with the stack
/// empty. Where the expressions do not bind `f`, that is the function value
/// that `f` was bound to before the line.
pub proof fn law_call_line_pair(
    env: Scope,
    line: Node,
    f: Seq<char>,
    limit: nat,
    depth: nat,
    fuel: nat,
    floats: Seq<FloatFact>,
)
    requires
        line.n is Apply,
        names_function(line.n->Apply_train, f),
        line.n->Apply_args.len() == 2,
        program(env, seq![line]) is Ok,
        run(fresh(program(env, seq![line])->Ok_0, limit, depth, fuel, floats)).1 is None,
    ensures
        ({
            let p = program(env, seq![line])->Ok_0;
            let m0 = fresh(p, limit, depth, fuel, floats);
            let end = run(m0).0;
            let u1 = compiled(opening(env), line.n->Apply_args[1])->Ok_0;
            &&& end.stack == Seq::<Node>::empty()
            &&& exists|k: nat| #[trigger]
                after(m0, k) is Some && after(m0, k)->0.ip == compiled(
                    u1,
                    line.n->Apply_args[0],
                )->Ok_0.ops.len() && after(m0, k)->0.stack.len() == 2 && ({
                    let b = after(m0, k)->0;
                    &&& bound_value(b, f) is Ok
                    &&& bound_value(b, f)->Ok_0.n is Fun
                    &&& bound_value(b, f)->Ok_0.n->Fun_arity == 2
                    &&& b.limit == limit && b.depth == depth && b.floats == floats
                    &&& depth >= 1 && b.fuel >= 2
                    &&& outcome_of_pair(b, f) is Ok
                    &&& end.last == Some(outcome_of_pair(b, f)->Ok_0)
                    &&& b.consts.len() >= env.consts.len()
                    &&& b.consts.take(env.consts.len() as int) == env.consts
                    &&& !binds(line, f) ==> bound_alike(env.names, b.names, f)
                })
        }),
{
    let p = program(env, seq![line])->Ok_0;
    let m0 = fresh(p, limit, depth, fuel, floats);
    let u = opening(env);
    let t = line.n->Apply_train;
    let x = line.n->Apply_args[0];
    let y = line.n->Apply_args[1];
    lemma_one_line(env, line);
    let u1 = compiled(u, y)->Ok_0;
    let u2 = compiled(u1, x)->Ok_0;
    let r = compiled(u, line)->Ok_0;
    assert(compiled(u, line) == framed(u2, OP::DBL(0), t, true));
    lemma_compiled_extends(u, y);
    lemma_compiled_extends(u1, x);
    lemma_compiled_extends(u, line);
    lemma_extends_chain(u, u1, u2);
    lemma_framed_extends(u2, OP::DBL(0), t, true);
    lemma_extends_chain(u1, u2, r);
    lemma_frame_ends_pair(p.ops, u, u2, t);
    assert(m0.consts.take(r.consts.len() as int) =~= r.consts);
    lemma_pool_before(m0.consts, u1, r);
    lemma_pool_before(m0.consts, u2, r);
    lemma_holds_first(m0.ops, u, u1, u2);
    match sim_expr(u, y, m0) {
        None => {
            lemma_breaks_run(m0);
        },
        Some((j1, m1)) => {
            lemma_holds_last(m0.ops, u, u1, u2);
            lemma_pool_later(m0, m1, u2);
            match sim_expr(u1, x, m1) {
                None => {
                    lemma_breaks_later(m0, j1, m1);
                    lemma_breaks_run(m0);
                },
                Some((j2, m2)) => {
                    lemma_after_add(m0, j1, m1, j2, m2);
                    lemma_grown_chain(m0, m1, m2, 1, 1);
                    lemma_run_after(m0, j1 + j2);
                    lemma_call_after_pair(env, line, f, m0, j1 + j2, m2);
                    assert(after(m0, j1 + j2) is Some);
                    assert(m2.consts.take(env.consts.len() as int) =~= m2.consts.take(
                        m0.consts.len() as int,
                    ).take(env.consts.len() as int));
                    if !binds(line, f) {
                        lemma_kept_dyadic(m0.names, m1.names, m2.names, line);
                        assert(bound_alike(m0.names, m2.names, f));
                    }
                },
            }
        },
    }
}

/// The line that applies the name `f`, bound to a value of the pool, to two
/// literals: run without a failure, it pops last what that value, a
/// function, gives on the literals, with some number of steps.
pub proof fn lemma_literal_call_pair(
    env: Scope,
    line: Node,
    f: Seq<char>,
    limit: nat,
    depth: nat,
    fuel: nat,
    floats: Seq<FloatFact>,
) -> (g: nat)
    requires
        line.n is Apply,
        names_function(line.n->Apply_train, f),
        line.n->Apply_args.len() == 2,
        is_literal(line.n->Apply_args[0]),
        is_literal(line.n->Apply_args[1]),
        env.names.contains_key(f),
        env.names[f] < env.consts.len(),
        program(env, seq![line]) is Ok,
        run(fresh(program(env, seq![line])->Ok_0, limit, depth, fuel, floats)).1 is None,
    ensures
        depth >= 1,
        call(
            env.consts[env.names[f] as int],
            seq![line.n->Apply_args[0], line.n->Apply_args[1]],
            limit,
            (depth - 1) as nat,
            g,
            floats,
        ) is Ok,
        run(fresh(program(env, seq![line])->Ok_0, limit, depth, fuel, floats)).0.last == Some(
            call(
                env.consts[env.names[f] as int],
                seq![line.n->Apply_args[0], line.n->Apply_args[1]],
                limit,
                (depth - 1) as nat,
                g,
                floats,
            )->Ok_0,
        ),
{
    let p = program(env, seq![line])->Ok_0;
    let m0 = fresh(p, limit, depth, fuel, floats);
    let x = line.n->Apply_args[0];
    let y = line.n->Apply_args[1];
    lemma_call_layout_pair(env, line, f);
    match lemma_literal_pair_run(env, line, f, m0) {
        None => {
            lemma_breaks_run(m0);
            0
        },
        Some((j, m2)) => {
            lemma_run_after(m0, j);
            assert(m2.consts.take(m0.consts.len() as int) =~= m0.consts);
            lemma_call_after_pair(env, line, f, m0, j, m2);
            assert(seq![m2.stack[1], m2.stack[0]] =~= seq![x, y]);
            (m2.fuel - 2) as nat
        },
    }
}

/// The code of a literal puts the literal at the end of the pool and
/// leaves the names as they are.
pub proof fn lemma_literal_pool(u: Unit, a: Node)
    requires
        is_literal(a),
        compiled(u, a) is Ok,
    ensures
        compiled(u, a) == pooled(u, a),
        compiled(u, a)->Ok_0.consts == u.consts.push(a),
        compiled(u, a)->Ok_0.names == u.names,
{
    lemma_compiled_literal(u, a);
}

/// The code of the two literals that a function is called on, in a machine
/// that holds the program of the line: it leaves the right one and above
/// it the left one on the stack, and the pool and the names as they are.
pub proof fn lemma_literal_pair_run(env: Scope, line: Node, f: Seq<char>, m0: Machine) -> (r:
    Option<(nat, Machine)>)
    requires
        line.n is Apply,
        names_function(line.n->Apply_train, f),
        line.n->Apply_args.len() == 2,
        is_literal(line.n->Apply_args[0]),
        is_literal(line.n->Apply_args[1]),
        env.names.contains_key(f),
        env.names[f] < env.consts.len(),
        program(env, seq![line]) is Ok,
        m0.ops == program(env, seq![line])->Ok_0.ops,
        m0.consts == program(env, seq![line])->Ok_0.consts,
        m0.names == env.names,
        m0.stack == Seq::<Node>::empty(),
        m0.control == Seq::<C>::empty(),
        m0.ip == 0,
    ensures
        match r {
            None => breaks(m0),
            Some((j, m2)) => {
                &&& after(m0, j) == Some(m2)
                &&& m2.ip == compiled(
                    compiled(opening(env), line.n->Apply_args[1])->Ok_0,
                    line.n->Apply_args[0],
                )->Ok_0.ops.len()
                &&& m2.stack == seq![line.n->Apply_args[1], line.n->Apply_args[0]]
                &&& m2.consts == m0.consts
                &&& m2.names == m0.names
                &&& !in_dyadic(m2.control)
                &&& bound_value(m2, f) == Ok::<Node, Fault>(env.consts[env.names[f] as int])
            },
        },
{
    let p = program(env, seq![line])->Ok_0;
    let u = opening(env);
    let t = line.n->Apply_train;
    let x = line.n->Apply_args[0];
    let y = line.n->Apply_args[1];
    lemma_call_layout_pair(env, line, f);
    let u1 = compiled(u, y)->Ok_0;
    let u2 = compiled(u1, x)->Ok_0;
    lemma_literal_pool(u, y);
    lemma_literal_pool(u1, x);
    assert(p.consts[u.consts.len() as int] == y);
    assert(p.consts[u1.consts.len() as int] == x);
    assert(p.consts[env.names[f] as int] == env.consts[env.names[f] as int]);
    match sim_pooled(u, y, m0) {
        None => None,
        Some((j1, m1)) => {
            match sim_pooled(u1, x, m1) {
                None => {
                    lemma_breaks_later(m0, j1, m1);
                    None
                },
                Some((j2, m2)) => {
                    lemma_after_add(m0, j1, m1, j2, m2);
                    assert(m2.stack =~= seq![y, x]);
                    Some((j1 + j2, m2))
                },
            }
        },
    }
}

/// A function of two arguments keeps what it saw, through the lines that
/// follow: the line that applies the name `f` to two literals gives the
/// same value after any lines as it gave before them, if `f` stands for
/// the same function value then as before, whatever else the lines have
/// bound or bound again, and whatever steps and depth of calls the two
/// runs have, as long as both come to their end.
pub proof fn law_closure_snapshot_pair(
    before: Scope,
    later: Scope,
    line: Node,
    f: Seq<char>,
    limit: nat,
    depth1: nat,
    fuel1: nat,
    depth2: nat,
    fuel2: nat,
    floats: Seq<FloatFact>,
)
    requires
        line.n is Apply,
        names_function(line.n->Apply_train, f),
        line.n->Apply_args.len() == 2,
        is_literal(line.n->Apply_args[0]),
        is_literal(line.n->Apply_args[1]),
        before.names.contains_key(f),
        later.names.contains_key(f),
        before.names[f] < before.consts.len(),
        later.names[f] < later.consts.len(),
        before.consts[before.names[f] as int] == later.consts[later.names[f] as int],
        program(before, seq![line]) is Ok,
        program(later, seq![line]) is Ok,
        run(fresh(program(before, seq![line])->Ok_0, limit, depth1, fuel1, floats)).1 is None,
        run(fresh(program(later, seq![line])->Ok_0, limit, depth2, fuel2, floats)).1 is None,
    ensures
        run(fresh(program(before, seq![line])->Ok_0, limit, depth1, fuel1, floats)).0.last is Some,
        run(fresh(program(before, seq![line])->Ok_0, limit, depth1, fuel1, floats)).0.last == run(
            fresh(program(later, seq![line])->Ok_0, limit, depth2, fuel2, floats),
        ).0.last,
{
    let fun = before.consts[before.names[f] as int];
    let args = seq![line.n->Apply_args[0], line.n->Apply_args[1]];
    let g1 = lemma_literal_call_pair(before, line, f, limit, depth1, fuel1, floats);
    let g2 = lemma_literal_call_pair(later, line, f, limit, depth2, fuel2, floats);
    let d: nat = if depth1 >= depth2 {
        depth1
    } else {
        depth2
    };
    let g: nat = if g1 >= g2 {
        g1
    } else {
        g2
    };
    law_call_with_more(fun, args, limit, (depth1 - 1) as nat, g1, (d - 1) as nat, g, floats);
    law_call_with_more(fun, args, limit, (depth2 - 1) as nat, g2, (d - 1) as nat, g, floats);
}

/// A function of two arguments gives after a line what it gave before it:
/// where the name `f` stands for a value of the pool, and a line that does
/// not bind `f` runs without a failure, the line that applies `f` to two
/// literals gives the same value in the environment that the first line
/// left as in the environment before it.
pub proof fn law_closure_survives_a_line_pair(
    env: Scope,
    ast: Seq<Node>,
    line: Node,
    f: Seq<char>,
    limit: nat,
    depth: nat,
    fuel: nat,
    floats: Seq<FloatFact>,
)
    requires
        line.n is Apply,
        names_function(line.n->Apply_train, f),
        line.n->Apply_args.len() == 2,
        is_literal(line.n->Apply_args[0]),
        is_literal(line.n->Apply_args[1]),
        env.names.contains_key(f),
        env.names[f] < env.consts.len(),
        !binds_any(ast, ast.len() as int, f),
        program(env, ast) is Ok,
        run(fresh(program(env, ast)->Ok_0, limit, depth, fuel, floats)).1 is None,
        program(env, seq![line]) is Ok,
        run(fresh(program(env, seq![line])->Ok_0, limit, depth, fuel, floats)).1 is None,
        ({
            let later = left_by_run(
                run(fresh(program(env, ast)->Ok_0, limit, depth, fuel, floats)).0,
            );
            &&& program(later, seq![line]) is Ok
            &&& run(fresh(program(later, seq![line])->Ok_0, limit, depth, fuel, floats)).1 is None
        }),
    ensures
        ({
            let later = left_by_run(
                run(fresh(program(env, ast)->Ok_0, limit, depth, fuel, floats)).0,
            );
            run(fresh(program(later, seq![line])->Ok_0, limit, depth, fuel, floats)).0.last == run(
                fresh(program(env, seq![line])->Ok_0, limit, depth, fuel, floats),
            ).0.last
        }),
{
    let end = run(fresh(program(env, ast)->Ok_0, limit, depth, fuel, floats)).0;
    let later = left_by_run(end);
    law_other_names_stay(env, ast, f, limit, depth, fuel, floats);
    assert(end.consts.take(env.consts.len() as int)[env.names[f] as int] == end.consts[env.names[f] as int]);
    law_closure_snapshot_pair(env, later, line, f, limit, depth, fuel, depth, fuel, floats);
}

} // verus!
