//! Limits that only stop a run: a run that comes to its end within its
//! steps and its depth of calls comes to the same end with more of either.

use vstd::prelude::*;

use crate::ast::Node;
use crate::err::Fault;
use crate::num::FloatFact;
use crate::op::{decoding, OP};
use crate::vm::{call, callee, halted, inner, monadic_place, run, step, Machine};

verus! {

/// A machine with another depth of calls and other steps left, and all
/// else as it is.
pub open spec fn with_budget(m: Machine, depth: nat, fuel: nat) -> Machine {
    Machine { depth, fuel, ..m }
}

/// An instruction that succeeds does the same with more steps and a
/// greater depth of calls left.
pub proof fn lemma_step_with_more(m: Machine, depth: nat, fuel: nat)
    requires
        step(m) is Ok,
        depth >= m.depth,
        fuel >= m.fuel,
    ensures
        step(with_budget(m, depth, fuel)) == Ok::<Machine, Fault>(
            with_budget(step(m)->Ok_0, depth, (fuel - 1) as nat),
        ),
    decreases m.depth, m.fuel, 1nat,
{
    let w = with_budget(m, depth, fuel);
    match decoding(m.ops, m.ip)->0 {
        OP::MCALL(i) => {
            let fun = callee(m, i, 1)->Ok_0;
            let at = monadic_place(m)->Ok_0;
            assert(callee(w, i, 1) == callee(m, i, 1));
            assert(monadic_place(w) == monadic_place(m));
            law_call_with_more(
                fun,
                seq![m.stack[at]],
                m.limit,
                (m.depth - 1) as nat,
                (m.fuel - 1) as nat,
                (depth - 1) as nat,
                (fuel - 1) as nat,
                m.floats,
            );
        },
        OP::DCALL(i) => {
            let fun = callee(m, i, 2)->Ok_0;
            let n = m.stack.len() as int;
            assert(callee(w, i, 2) == callee(m, i, 2));
            law_call_with_more(
                fun,
                seq![m.stack[n - 1], m.stack[n - 2]],
                m.limit,
                (m.depth - 1) as nat,
                (m.fuel - 1) as nat,
                (depth - 1) as nat,
                (fuel - 1) as nat,
                m.floats,
            );
        },
        _ => {},
    }
}

/// A run that comes to its end without a failure comes to the same end
/// with more steps and a greater depth of calls: the machines at the end
/// differ in the steps and the depth that are left, and in nothing else.
pub proof fn lemma_run_with_more(m: Machine, depth: nat, fuel: nat)
    requires
        run(m).1 is None,
        depth >= m.depth,
        fuel >= m.fuel,
    ensures
        run(with_budget(m, depth, fuel)).1 is None,
        run(m).0 == with_budget(
            run(with_budget(m, depth, fuel)).0,
            run(m).0.depth,
            run(m).0.fuel,
        ),
    decreases m.depth, m.fuel, 2nat,
{
    let w = with_budget(m, depth, fuel);
    if halted(m) {
        assert(halted(w));
    } else {
        let m1 = step(m)->Ok_0;
        let m2 = Machine { depth: m.depth, fuel: (m.fuel - 1) as nat, ..m1 };
        lemma_step_with_more(m, depth, fuel);
        let w1 = step(w)->Ok_0;
        let w2 = Machine { depth: w.depth, fuel: (w.fuel - 1) as nat, ..w1 };
        assert(w2 == with_budget(m2, depth, (fuel - 1) as nat));
        lemma_run_with_more(m2, depth, (fuel - 1) as nat);
    }
}

/// A call that has a result has the same result with more steps and a
/// greater depth of calls: the limits decide whether a function comes to
/// its end, not what it gives.
pub proof fn law_call_with_more(
    fun: Node,
    args: Seq<Node>,
    limit: nat,
    depth: nat,
    fuel: nat,
    more_depth: nat,
    more_fuel: nat,
    floats: Seq<FloatFact>,
)
    requires
        call(fun, args, limit, depth, fuel, floats) is Ok,
        more_depth >= depth,
        more_fuel >= fuel,
    ensures
        call(fun, args, limit, more_depth, more_fuel, floats) == call(
            fun,
            args,
            limit,
            depth,
            fuel,
            floats,
        ),
    decreases depth, fuel, 3nat,
{
    let m = inner(fun, args, limit, depth, fuel, floats);
    assert(with_budget(m, more_depth, more_fuel) == inner(
        fun,
        args,
        limit,
        more_depth,
        more_fuel,
        floats,
    ));
    lemma_run_with_more(m, more_depth, more_fuel);
}

} // verus!
