//! What holds of every line, every run and every primitive.

use vstd::prelude::*;

use crate::ast::{val, CN, FN, Node, Term};
use crate::byte::{
    applied, binds_any, compiled, element, emitted, extends, framed, frozen, frozen_all, leaves_value,
    lemma_compiled_extends, lemma_emitted_extends, lemma_extends_chain, lemma_extends_self,
    lemma_framed_extends, lemma_sequence_extends, opening, pooled, program, sequence, train_from,
    with_const, Program, Scope, Unit,
};
use crate::err::Fault;
use crate::num::FloatFact;
use crate::op::{co_id, decoding, encoding, fn_id, lemma_decoding_of_encoding, OP};
use crate::prim::{
    bulk, dims_of, dyad, fold_left, folded, grid, monad, product, reshaped, rows, source_of,
};
use crate::sim::{
    after, bound_alike, holds, lemma_after_add, lemma_after_one, lemma_breaks_later, lemma_breaks_now,
    lemma_breaks_run, lemma_decode, lemma_decode_open, lemma_holds_first, lemma_holds_last,
    lemma_run_after, lemma_step_keeps, next, sim_expr, sim_pop, sim_seq, sim_store, starts,
};
use crate::vm::{
    callee, companion, do_const, do_dcall, do_end, do_mbl, do_mcall, do_mo, do_pop, fresh, halted,
    in_dyadic, monadic_place, moved, run, step, BL, C, Machine,
};

verus! {

/// Whether a node is a literal that names nothing: a scalar, or a list of
/// such literals.
pub open spec fn is_literal(n: Node) -> bool
    decreases n,
{
    match n.n {
        Term::Int(_) => true,
        Term::Bool(_) => true,
        Term::Float(_) => true,
        Term::Str(_) => true,
        Term::List(xs) => forall|i: int| 0 <= i < xs.len() ==> is_literal(#[trigger] xs[i]),
        _ => false,
    }
}

/// A literal that names nothing stands for itself.
pub proof fn lemma_frozen_literal(u: Unit, n: Node)
    requires
        is_literal(n),
    ensures
        frozen(u, n) == Ok::<Node, Fault>(n),
    decreases n,
{
    match n.n {
        Term::List(xs) => {
            lemma_frozen_literals(u, xs);
        },
        _ => {},
    }
}

/// Literals that name nothing stand for themselves.
pub proof fn lemma_frozen_literals(u: Unit, xs: Seq<Node>)
    requires
        forall|i: int| 0 <= i < xs.len() ==> is_literal(#[trigger] xs[i]),
    ensures
        frozen_all(u, xs) == Ok::<Seq<Node>, Fault>(xs),
    decreases xs,
{
    if xs.len() == 0 {
        assert(xs =~= Seq::empty());
    } else {
        assert forall|i: int| 0 <= i < xs.drop_last().len() implies is_literal(
            #[trigger] xs.drop_last()[i],
        ) by {
            assert(xs.drop_last()[i] == xs[i]);
        }
        lemma_frozen_literals(u, xs.drop_last());
        lemma_frozen_literal(u, xs.last());
        assert(xs.drop_last().push(xs.last()) =~= xs);
    }
}

/// The code of a literal that names nothing: the literal goes to the end
/// of the pool and is pushed from there.
pub proof fn lemma_compiled_literal(u: Unit, l: Node)
    requires
        is_literal(l),
    ensures
        compiled(u, l) == pooled(u, l),
{
    lemma_frozen_literal(u, l);
}

/// A literal comes back as it is. The program that is one literal, compiled
/// after any lines whose pool has room for one more constant, runs without
/// a failure in a machine with room for one value and two steps. It leaves
/// the literal as the value popped last and at the end of the pool, the
/// stack empty, and the names as they were.
pub proof fn law_literal_round_trip(
    env: Scope,
    l: Node,
    limit: nat,
    depth: nat,
    fuel: nat,
    floats: Seq<FloatFact>,
)
    requires
        is_literal(l),
        env.consts.len() <= u16::MAX,
        limit >= 1,
        fuel >= 2,
    ensures
        program(env, seq![l]) is Ok,
        ({
            let p = program(env, seq![l])->Ok_0;
            let end = run(fresh(p, limit, depth, fuel, floats));
            &&& end.1 is None
            &&& end.0.last == Some(l)
            &&& end.0.stack == Seq::<Node>::empty()
            &&& end.0.consts == env.consts.push(l)
            &&& end.0.names == env.names
        }),
{
    reveal(next);
    let u = opening(env);
    let c = env.consts.len() as u16;
    lemma_compiled_literal(u, l);
    let u1 = Unit { consts: u.consts.push(l), ..u };
    assert(with_const(u, l) == Ok::<(Unit, u16), Fault>((u1, c)));
    let u2 = Unit { ops: u1.ops + encoding(OP::CONST(c)), ..u1 };
    assert(emitted(u1, OP::CONST(c)) == Ok::<Unit, Fault>(u2));
    assert(compiled(u, l) == Ok::<Unit, Fault>(u2));
    let xs = seq![l];
    assert(sequence(u, xs, 0, false) == Ok::<Unit, Fault>(u));
    assert(xs[0] == l);
    let u3 = Unit { ops: u2.ops + encoding(OP::POP), ..u2 };
    assert(emitted(u2, OP::POP) == Ok::<Unit, Fault>(u3));
    assert(sequence(u, xs, 1, false) == Ok::<Unit, Fault>(u3));
    let p = Program { ops: u3.ops, consts: u3.consts, names: u3.names };
    assert(program(env, xs) == Ok::<Program, Fault>(p));
    let m0 = fresh(p, limit, depth, fuel, floats);
    // the first instruction pushes the literal
    lemma_decoding_of_encoding(OP::CONST(c), Seq::empty(), encoding(OP::POP));
    assert(Seq::<u8>::empty() + encoding(OP::CONST(c)) + encoding(OP::POP) =~= p.ops);
    assert(decoding(p.ops, 0) == Some(OP::CONST(c)));
    assert(p.consts[c as int] == l);
    let m1 = next(m0)->Ok_0;
    assert(next(m0) == do_const(m0, c, 3));
    assert(m1.stack =~= seq![l]);
    assert(m1.ip == 3);
    // the second one pops it
    lemma_decoding_of_encoding(OP::POP, encoding(OP::CONST(c)), Seq::empty());
    assert(encoding(OP::CONST(c)) + encoding(OP::POP) + Seq::<u8>::empty() =~= p.ops);
    assert(decoding(m1.ops, 3) == Some(OP::POP));
    assert(next(m1) == do_pop(m1, 4));
    let m2 = next(m1)->Ok_0;
    assert(m2.stack =~= Seq::<Node>::empty());
    assert(m2.ip == 4);
    assert(p.ops.len() == 4);
    assert(halted(m2));
    reveal_with_fuel(run, 3);
    assert(run(m0) == run(m1));
    assert(run(m1) == run(m2));
    assert(run(m2) == (m2, None::<Fault>));
}


/// Nothing but its input decides a result: compiling is a function of
/// the environment and the expressions, and running is a function of the
/// machine. So the same
/// line on the same environment gives the same program, and two machines
/// in the same state end in the same state with the same failure or none:
/// the same value popped last, the same pool and the same names.
pub proof fn law_purity(
    env1: Scope,
    env2: Scope,
    ast1: Seq<Node>,
    ast2: Seq<Node>,
    m1: Machine,
    m2: Machine,
)
    requires
        env1 == env2,
        ast1 == ast2,
        m1 == m2,
    ensures
        program(env1, ast1) == program(env2, ast2),
        run(m1) == run(m2),
{
}

/// A function keeps what it saw, in a call with one argument: two
/// machines that call the same function value on the same argument, with
/// the same limits and the same floating-point results, get the same
/// result or the same failure, whatever else their pools and their names
/// hold.
pub proof fn law_closure_snapshot_monadic(
    m1: Machine,
    m2: Machine,
    i1: u16,
    i2: u16,
    next1: int,
    next2: int,
)
    requires
        callee(m1, i1, 1) is Ok,
        callee(m1, i1, 1) == callee(m2, i2, 1),
        monadic_place(m1) is Ok,
        monadic_place(m2) is Ok,
        m1.stack[monadic_place(m1)->Ok_0] == m2.stack[monadic_place(m2)->Ok_0],
        m1.limit == m2.limit,
        m1.depth == m2.depth,
        m1.fuel == m2.fuel,
        m1.floats == m2.floats,
    ensures
        match (do_mcall(m1, i1, next1), do_mcall(m2, i2, next2)) {
            (Ok(a), Ok(b)) => a.stack[monadic_place(m1)->Ok_0] == b.stack[monadic_place(m2)->Ok_0],
            (Err(e1), Err(e2)) => e1 == e2,
            _ => false,
        },
{
}

/// A function keeps what it saw, in a call with two arguments: two
/// machines that call the same function value on the same arguments, with
/// the same limits and the same floating-point results, get the same
/// result or the same failure, whatever else their pools and their names
/// hold.
pub proof fn law_closure_snapshot_dyadic(
    m1: Machine,
    m2: Machine,
    i1: u16,
    i2: u16,
    next1: int,
    next2: int,
)
    requires
        callee(m1, i1, 2) is Ok,
        callee(m1, i1, 2) == callee(m2, i2, 2),
        m1.stack.len() >= 2,
        m2.stack.len() >= 2,
        m1.stack[m1.stack.len() - 1] == m2.stack[m2.stack.len() - 1],
        m1.stack[m1.stack.len() - 2] == m2.stack[m2.stack.len() - 2],
        m1.limit == m2.limit,
        m1.depth == m2.depth,
        m1.fuel == m2.fuel,
        m1.floats == m2.floats,
    ensures
        match (do_dcall(m1, i1, next1), do_dcall(m2, i2, next2)) {
            (Ok(a), Ok(b)) => a.stack.last() == b.stack.last(),
            (Err(e1), Err(e2)) => e1 == e2,
            _ => false,
        },
{
}

/// The fold of a list from the left: an empty list has none; the fold of
/// one element is the element; and the fold of a list with one more
/// element at its end is the primitive applied to the fold of the list and
/// to that element.
pub proof fn law_fold_left(f: FN, xs: Seq<Node>, x: Node, table: Seq<FloatFact>)
    ensures
        folded(f, val(Term::List(Seq::empty())), table) == Err::<Node, Fault>(
            Fault::EmptyDomain(f),
        ),
        folded(f, val(Term::List(seq![x])), table) == Ok::<Node, Fault>(x),
        xs.len() > 0 ==> folded(f, val(Term::List(xs.push(x))), table) == (match folded(
            f,
            val(Term::List(xs)),
            table,
        ) {
            Err(e) => Err(e),
            Ok(acc) => dyad(f, acc, x, table),
        }),
{
    assert(seq![x][0] == x);
    if xs.len() > 0 {
        assert(xs.push(x).drop_last() =~= xs);
        assert(xs.push(x).last() == x);
    }
}

/// The scalars of a value, read row by row: those of the elements of a
/// list, or the one value that is no list.
pub open spec fn flat(n: Node) -> Seq<Node>
    decreases n,
{
    match n.n {
        Term::List(xs) => flat_all(xs),
        _ => seq![n],
    }
}

/// The scalars of the values of a sequence, in order.
pub open spec fn flat_all(xs: Seq<Node>) -> Seq<Node>
    decreases xs,
{
    if xs.len() == 0 {
        Seq::empty()
    } else {
        flat_all(xs.drop_last()) + flat(xs.last())
    }
}

/// The scalars of the first rows of an array are the elements of its
/// source, in order, from where the array starts.
pub proof fn lemma_rows_flat(d: Seq<int>, src: Seq<Node>, at: int, k: nat)
    requires
        d.len() > 0,
        forall|i: int| 0 <= i < d.len() ==> #[trigger] d[i] >= 0,
        src.len() > 0,
        forall|i: int| 0 <= i < src.len() ==> !((#[trigger] src[i]).n is List),
    ensures
        flat_all(rows(d, src, at, k)).len() == k * product(d.drop_last()),
        forall|i: int|
            0 <= i < k * product(d.drop_last()) ==> #[trigger] flat_all(rows(d, src, at, k))[i]
                == src[(at + i) % (src.len() as int)],
    decreases d.len(), 0nat, k,
{
    let c = product(d.drop_last());
    let rest = d.drop_last();
    assert forall|i: int| 0 <= i < rest.len() implies #[trigger] rest[i] >= 0 by {
        assert(rest[i] == d[i]);
    }
    crate::prim::lemma_product_bounds(rest);
    if k == 0 {
        assert(0 * c == 0);
    } else {
        let before = rows(d, src, at, (k - 1) as nat);
        let row = grid(rest, src, at + (k - 1) * c);
        lemma_rows_flat(d, src, at, (k - 1) as nat);
        lemma_grid_flat(rest, src, at + (k - 1) * c);
        let all = before.push(row);
        assert(all.drop_last() =~= before);
        assert(all.last() == row);
        assert(flat_all(all) == flat_all(before) + flat(row));
        assert((k - 1) * c + c == k * c) by (nonlinear_arith);
        assert forall|i: int| 0 <= i < k * c implies #[trigger] flat_all(all)[i] == src[(at + i) % (
        src.len() as int)] by {
            if i < (k - 1) * c {
                assert(flat_all(all)[i] == flat_all(before)[i]);
            } else {
                let j = i - (k - 1) * c;
                assert(flat_all(all)[i] == flat(row)[j]);
                assert(at + (k - 1) * c + j == at + i);
            }
        }
    }
}

/// The scalars of an array are the elements of its source, in order, from
/// where the array starts, as many as the product of its dimensions.
pub proof fn lemma_grid_flat(d: Seq<int>, src: Seq<Node>, at: int)
    requires
        forall|i: int| 0 <= i < d.len() ==> #[trigger] d[i] >= 0,
        src.len() > 0,
        forall|i: int| 0 <= i < src.len() ==> !((#[trigger] src[i]).n is List),
    ensures
        flat(grid(d, src, at)).len() == product(d),
        forall|i: int|
            0 <= i < product(d) ==> #[trigger] flat(grid(d, src, at))[i] == src[(at + i) % (
            src.len() as int)],
    decreases d.len(), 1nat, 0nat,
{
    if d.len() == 0 {
        let x = src[at % (src.len() as int)];
        assert(!(x.n is List));
        assert(flat(x) =~= seq![x]);
    } else if d.last() <= 0 {
        assert(d.last() == 0);
        assert(product(d.drop_last()) * 0 == 0);
        assert(flat_all(Seq::<Node>::empty()) =~= Seq::<Node>::empty());
    } else {
        lemma_rows_flat(d, src, at, d.last() as nat);
        assert(d.last() * product(d.drop_last()) == product(d.drop_last()) * d.last())
            by (nonlinear_arith);
    }
}

/// A reshape keeps to its shape and its source: where it has a result, and
/// the source is a scalar or a list of scalars, the result holds as many
/// scalars as the product of the dimensions, and the scalar at each place is
/// the element of the source at that place, the source starting over at its
/// end. A shape with a dimension of zero has a result from any source, and
/// it holds no scalar.
pub proof fn law_shape_conservation(shape: Node, src: Node)
    requires
        reshaped(shape, src) is Ok,
        forall|i: int| 0 <= i < source_of(src).len() ==> !((#[trigger] source_of(src)[i]).n is List),
    ensures
        dims_of(shape) is Some,
        flat(reshaped(shape, src)->Ok_0).len() == product(dims_of(shape)->0),
        product(dims_of(shape)->0) > 0 ==> source_of(src).len() > 0,
        forall|i: int|
            0 <= i < product(dims_of(shape)->0) ==> #[trigger] flat(reshaped(shape, src)->Ok_0)[i]
                == source_of(src)[i % (source_of(src).len() as int)],
{
    let d = dims_of(shape)->0;
    assert forall|i: int| 0 <= i < d.len() implies #[trigger] d[i] >= 0 by {}
    if source_of(src).len() > 0 {
        lemma_grid_flat(d, source_of(src), 0);
    } else {
        let zero = seq![val(Term::Int(0))];
        assert(!(zero[0].n is List));
        crate::prim::lemma_product_bounds(d);
        lemma_grid_flat(d, zero, 0);
    }
}

/// A dimension of zero among dimensions that are not negative makes their
/// product zero: a reshape to such a shape has a result as long as no level
/// of the array is too wide, and the result holds no scalar.
pub proof fn law_empty_shape(d: Seq<int>, z: int)
    requires
        forall|i: int| 0 <= i < d.len() ==> #[trigger] d[i] >= 0,
        0 <= z < d.len(),
        d[z] == 0,
    ensures
        product(d) == 0,
        bulk(d) == bulk(d.skip(z + 1)),
    decreases d.len(),
{
    let rest = d.drop_last();
    if z == d.len() - 1 {
        assert(product(rest) * 0 == 0);
        assert(d.skip(z + 1) =~= Seq::<int>::empty());
    } else {
        law_empty_shape(rest, z);
        assert(0 * d.last() == 0);
        assert(d.skip(z + 1).drop_last() =~= rest.skip(z + 1));
        assert(d.skip(z + 1).last() == d.last());
    }
}

/// Every value of a line is popped: a line of one or more expressions that
/// each leave a
/// value, run without a failure in a machine that starts with empty stacks,
/// ends with the value stack empty again and a value popped last. Just
/// before the last instruction, which pops it, that value was all that the
/// stack held: it is the value that the code of the last expression left.
pub proof fn law_top_level_pop(
    env: Scope,
    ast: Seq<Node>,
    limit: nat,
    depth: nat,
    fuel: nat,
    floats: Seq<FloatFact>,
)
    requires
        ast.len() > 0,
        forall|i: int| 0 <= i < ast.len() ==> leaves_value(#[trigger] ast[i]),
        program(env, ast) is Ok,
        run(fresh(program(env, ast)->Ok_0, limit, depth, fuel, floats)).1 is None,
    ensures
        ({
            let p = program(env, ast)->Ok_0;
            let m0 = fresh(p, limit, depth, fuel, floats);
            let end = run(m0).0;
            &&& end.stack == Seq::<Node>::empty()
            &&& end.last is Some
            &&& exists|k: nat| #[trigger]
                after(m0, k) is Some && after(m0, k)->0.ip == p.ops.len() - 1 && after(
                    m0,
                    k,
                )->0.stack == seq![end.last->0]
        }),
{
    let p = program(env, ast)->Ok_0;
    let m0 = fresh(p, limit, depth, fuel, floats);
    let u = opening(env);
    let n = ast.len() as int;
    let last = ast[n - 1];
    let u1 = sequence(u, ast, n - 1, false)->Ok_0;
    let u2 = compiled(u1, last)->Ok_0;
    let u3 = emitted(u2, OP::POP)->Ok_0;
    assert(sequence(u, ast, n, false) == Ok::<Unit, Fault>(u3));
    assert(p.ops == u3.ops);
    lemma_sequence_extends(u, ast, n - 1, false);
    lemma_compiled_extends(u1, last);
    lemma_emitted_extends(u2, OP::POP);
    lemma_extends_chain(u1, u2, u3);
    assert(holds(m0.ops, u, u3));
    lemma_holds_first(m0.ops, u, u1, u3);
    match sim_seq(u, ast, n - 1, false, m0) {
        None => {
            lemma_breaks_run(m0);
        },
        Some((j1, m1)) => {
            lemma_holds_last(m0.ops, u, u1, u3);
            lemma_holds_first(m0.ops, u1, u2, u3);
            match sim_expr(u1, last, m1) {
                None => {
                    lemma_breaks_later(m0, j1, m1);
                    lemma_breaks_run(m0);
                },
                Some((j2, m2)) => {
                    lemma_after_add(m0, j1, m1, j2, m2);
                    lemma_holds_last(m0.ops, u, u2, u3);
                    assert(m2.stack =~= seq![m2.stack.last()]);
                    match sim_pop(u2, m2) {
                        None => {
                            lemma_breaks_later(m0, j1 + j2, m2);
                            lemma_breaks_run(m0);
                        },
                        Some((j3, m3)) => {
                            lemma_after_add(m0, j1 + j2, m2, j3, m3);
                            lemma_run_after(m0, j1 + j2 + j3);
                            assert(halted(m3));
                            assert(run(m3) == (m3, None::<Fault>));
                            assert(m3.stack =~= Seq::<Node>::empty());
                            assert(after(m0, j1 + j2) is Some);
                        },
                    }
                },
            }
        },
    }
}

/// A binding leaves no value behind: the line that binds the name `x` to
/// the value of
/// an expression, run without a failure in a machine that starts with the
/// values `s` on its stack, ends with the stack as it was. The value that
/// the code of the expression left on top of the stack then stands at the
/// end of the pool, and `x` is bound to that place.
pub proof fn law_assign_invisible(
    env: Scope,
    line: Node,
    s: Seq<Node>,
    limit: nat,
    depth: nat,
    fuel: nat,
    floats: Seq<FloatFact>,
)
    requires
        line.n is Assign,
        program(env, seq![line]) is Ok,
        run(Machine { stack: s, ..fresh(program(env, seq![line])->Ok_0, limit, depth, fuel, floats) }).1
            is None,
    ensures
        ({
            let p = program(env, seq![line])->Ok_0;
            let m0 = Machine { stack: s, ..fresh(p, limit, depth, fuel, floats) };
            let end = run(m0).0;
            let x = line.n->Assign_name;
            let e = *line.n->Assign_rhs;
            &&& end.stack == s
            &&& end.names.contains_key(x)
            &&& end.names[x] == end.consts.len() - 1
            &&& exists|k: nat| #[trigger]
                after(m0, k) is Some && after(m0, k)->0.ip == compiled(
                    opening(env),
                    e,
                )->Ok_0.ops.len() && after(m0, k)->0.stack == s.push(
                    end.consts[end.names[x] as int],
                ) && end.names == after(m0, k)->0.names.insert(x, end.names[x])
        }),
{
    let ast = seq![line];
    let p = program(env, ast)->Ok_0;
    let m0 = Machine { stack: s, ..fresh(p, limit, depth, fuel, floats) };
    let u = opening(env);
    let x = line.n->Assign_name;
    let e = *line.n->Assign_rhs;
    lemma_one_line(env, line);
    lemma_assign_code(u, line);
    let u1 = compiled(u, e)->Ok_0;
    let u2 = with_const(u1, val(Term::Str(x)))->Ok_0.0;
    let i = with_const(u1, val(Term::Str(x)))->Ok_0.1;
    let u3 = emitted(u2, OP::STORE(i))->Ok_0;
    lemma_compiled_extends(u, e);
    lemma_emitted_extends(u2, OP::STORE(i));
    assert(holds(m0.ops, u, u3));
    lemma_holds_first(m0.ops, u, u1, u3);
    match sim_expr(u, e, m0) {
        None => {
            lemma_breaks_run(m0);
        },
        Some((j1, m1)) => {
            lemma_holds_last(m0.ops, u, u2, u3);
            assert(m1.consts.take(m0.consts.len() as int)[i as int] == m0.consts[i as int]);
            assert(m1.stack =~= s.push(m1.stack.last())) by {
                assert(m1.stack.take(s.len() as int) == s);
            }
            match sim_store(u2, i, m1) {
                None => {
                    lemma_breaks_later(m0, j1, m1);
                    lemma_breaks_run(m0);
                },
                Some((j2, m2)) => {
                    lemma_after_add(m0, j1, m1, j2, m2);
                    lemma_run_after(m0, j1 + j2);
                    assert(halted(m2));
                    assert(run(m2) == (m2, None::<Fault>));
                    assert(m2.stack =~= s);
                    assert(after(m0, j1) is Some);
                    assert(m1.consts[i as int] == val(Term::Str(x)));
                    assert(m2.names == m1.names.insert(x, m1.consts.len() as u16));
                    assert(m2.names.contains_key(x));
                    assert(m2.consts[m2.names[x] as int] == m1.stack.last());
                },
            }
        },
    }
}

/// A line leaves alone what it does not bind: after a line, run without a
/// failure, a name that no expression of the line binds is bound as it was
/// before the line, or not bound as before, and the constants that the
/// pool held before the line stand at their places. So the name still
/// stands for the value that it stood for.
pub proof fn law_other_names_stay(
    env: Scope,
    ast: Seq<Node>,
    y: Seq<char>,
    limit: nat,
    depth: nat,
    fuel: nat,
    floats: Seq<FloatFact>,
)
    requires
        program(env, ast) is Ok,
        !binds_any(ast, ast.len() as int, y),
        run(fresh(program(env, ast)->Ok_0, limit, depth, fuel, floats)).1 is None,
    ensures
        ({
            let end = run(fresh(program(env, ast)->Ok_0, limit, depth, fuel, floats)).0;
            &&& end.names.dom().contains(y) == env.names.dom().contains(y)
            &&& env.names.dom().contains(y) ==> end.names[y] == env.names[y]
            &&& end.consts.len() >= env.consts.len()
            &&& end.consts.take(env.consts.len() as int) == env.consts
        }),
{
    let p = program(env, ast)->Ok_0;
    let m0 = fresh(p, limit, depth, fuel, floats);
    let u = opening(env);
    let n = ast.len() as int;
    let r = sequence(u, ast, n, false)->Ok_0;
    lemma_sequence_extends(u, ast, n, false);
    assert(holds(m0.ops, u, r));
    assert(m0.consts.take(r.consts.len() as int) =~= r.consts);
    match sim_seq(u, ast, n, false, m0) {
        None => {
            lemma_breaks_run(m0);
        },
        Some((j, m2)) => {
            lemma_run_after(m0, j);
            assert(halted(m2));
            assert(run(m2) == (m2, None::<Fault>));
            assert(bound_alike(m0.names, m2.names, y));
            assert(m2.consts.take(env.consts.len() as int) =~= m2.consts.take(
                m0.consts.len() as int,
            ).take(env.consts.len() as int));
        },
    }
}

/// The program of a line of one expression: the code of the expression,
/// and a `POP` behind it if it leaves a value.
pub proof fn lemma_one_line(env: Scope, line: Node)
    requires
        program(env, seq![line]) is Ok,
    ensures
        compiled(opening(env), line) is Ok,
        ({
            let r = compiled(opening(env), line)->Ok_0;
            let p = program(env, seq![line])->Ok_0;
            if leaves_value(line) {
                emitted(r, OP::POP) is Ok && p.ops == emitted(r, OP::POP)->Ok_0.ops && p.consts
                    == r.consts && p.names == r.names
            } else {
                p.ops == r.ops && p.consts == r.consts && p.names == r.names
            }
        }),
{
    let ast = seq![line];
    let u = opening(env);
    assert(ast[0] == line);
    assert(sequence(u, ast, 0, false) == Ok::<Unit, Fault>(u));
}

/// The code of a binding: the code of the expression and a `STORE` on the
/// name, which stands in the pool behind the constants of the expression.
pub proof fn lemma_assign_code(u: Unit, line: Node)
    requires
        line.n is Assign,
        compiled(u, line) is Ok,
    ensures
        ({
            let x = line.n->Assign_name;
            let e = *line.n->Assign_rhs;
            let r = compiled(u, line)->Ok_0;
            &&& leaves_value(e)
            &&& compiled(u, e) is Ok
            &&& with_const(compiled(u, e)->Ok_0, val(Term::Str(x))) is Ok
            &&& ({
                let u2 = with_const(compiled(u, e)->Ok_0, val(Term::Str(x)))->Ok_0.0;
                let i = with_const(compiled(u, e)->Ok_0, val(Term::Str(x)))->Ok_0.1;
                &&& emitted(u2, OP::STORE(i)) is Ok
                &&& r.ops == emitted(u2, OP::STORE(i))->Ok_0.ops
                &&& r.consts == u2.consts
                &&& r.names == u2.names
                &&& i < u2.consts.len()
                &&& u2.consts[i as int] == val(Term::Str(x))
            })
        }),
{
}


/// A primitive without a combinator, applied to one argument outside a
/// dyadic train: the instruction puts the result in the place of the value
/// on top of the stack, or fails as the primitive fails.
pub proof fn lemma_mo_alone(m: Machine, f: FN)
    requires
        decoding(m.ops, m.ip) == Some(OP::MO(fn_id(f))),
        starts(m.ops, m.ip + 2),
        !in_dyadic(m.control),
        m.stack.len() >= 1,
        m.fuel > 0,
    ensures
        next(m) == (match monad(f, m.stack.last(), m.floats) {
            Err(e) => Err(e),
            Ok(v) => Ok(moved(m, m.stack.update(m.stack.len() - 1, v), m.control, m.ip + 2)),
        }),
{
    reveal(next);
    assert(companion(m.ops, m.ip + 2) == Ok::<(Option<crate::ast::CN>, int), Fault>(
        (None, m.ip + 2),
    ));
    assert(next(m) == do_mo(m, fn_id(f), m.ip + 2));
}

/// The instruction that drops the value on top of the stack.
pub proof fn lemma_pop_alone(m: Machine)
    requires
        decoding(m.ops, m.ip) == Some(OP::POP),
    ensures
        next(m) is Ok ==> m.stack.len() > 0 && next(m)->Ok_0 == (Machine {
            last: Some(m.stack.last()),
            ..moved(m, m.stack.drop_last(), m.control, m.ip + 1)
        }),
{
    reveal(next);
}

/// A train runs from the right: the line that applies the train of the
/// primitives `f` and `g` to one expression, run without a failure in a
/// machine that starts with empty stacks, pops last the value of `f` on the
/// value of `g` on the value that the code of the expression left, and
/// ends with the stack empty.
pub proof fn law_train_right_to_left(
    env: Scope,
    line: Node,
    f: FN,
    g: FN,
    limit: nat,
    depth: nat,
    fuel: nat,
    floats: Seq<FloatFact>,
)
    requires
        line.n is Apply,
        line.n->Apply_train.len() == 2,
        line.n->Apply_train[0].n == Term::Mfn(f),
        line.n->Apply_train[1].n == Term::Mfn(g),
        line.n->Apply_args.len() == 1,
        program(env, seq![line]) is Ok,
        run(fresh(program(env, seq![line])->Ok_0, limit, depth, fuel, floats)).1 is None,
    ensures
        ({
            let p = program(env, seq![line])->Ok_0;
            let m0 = fresh(p, limit, depth, fuel, floats);
            let end = run(m0).0;
            let x = line.n->Apply_args[0];
            &&& end.stack == Seq::<Node>::empty()
            &&& exists|k: nat| #[trigger]
                after(m0, k) is Some && after(m0, k)->0.ip == compiled(
                    opening(env),
                    x,
                )->Ok_0.ops.len() && after(m0, k)->0.stack.len() == 1 && ({
                    let v = after(m0, k)->0.stack[0];
                    &&& monad(g, v, floats) is Ok
                    &&& monad(f, monad(g, v, floats)->Ok_0, floats) is Ok
                    &&& end.last == Some(monad(f, monad(g, v, floats)->Ok_0, floats)->Ok_0)
                })
        }),
{
    let fs = seq![f, g];
    assert(plain(line.n->Apply_train, fs));
    law_train_of_any_length(env, line, fs, limit, depth, fuel, floats);
    let p = program(env, seq![line])->Ok_0;
    let m0 = fresh(p, limit, depth, fuel, floats);
    let x = line.n->Apply_args[0];
    let k = choose|k: nat| #[trigger]
        after(m0, k) is Some && after(m0, k)->0.ip == compiled(opening(env), x)->Ok_0.ops.len()
            && after(m0, k)->0.stack.len() == 1 && ({
            let v = after(m0, k)->0.stack[0];
            &&& chained(fs, fs.len() - 1, v, floats) is Ok
            &&& run(m0).0.last == Some(chained(fs, fs.len() - 1, v, floats)->Ok_0)
        });
    let v = after(m0, k)->0.stack[0];
    reveal_with_fuel(chained, 3);
    assert(chained(fs, 1, v, floats) == (match monad(g, v, floats) {
        Err(e) => Err(e),
        Ok(w) => monad(f, w, floats),
    }));
}

/// The run of a machine whose next instruction fails, though the program
/// is not over, ends in a failure.
pub proof fn lemma_stuck(m: Machine)
    requires
        next(m) is Err,
        !halted(m),
    ensures
        run(m).1 is Some,
{
    lemma_breaks_now(m);
    lemma_breaks_run(m);
}

/// The instruction that enters a monadic train on a stack of one value.
pub proof fn lemma_mbl_alone(m: Machine, v: Node, addr: u16)
    requires
        decoding(m.ops, m.ip) == Some(OP::MBL(addr)),
        m.stack == seq![v],
    ensures
        next(m) is Ok ==> next(m)->Ok_0 == moved(
            m,
            seq![v, v],
            m.control.push(C { ip: addr as usize, t: BL::MBL }),
            m.ip + 3,
        ),
{
    reveal(next);
    if next(m) is Ok {
        assert(next(m) == do_mbl(m, addr, m.ip + 3));
        assert(m.stack.push(m.stack.last()) =~= seq![v, v]);
    }
}

/// The instruction that leaves a monadic train.
pub proof fn lemma_end_alone(m: Machine, v: Node, w: Node, below: Seq<C>, c: C)
    requires
        decoding(m.ops, m.ip) == Some(OP::END),
        m.stack == seq![v, w],
        m.control == below.push(c),
        c.t == BL::MBL,
    ensures
        next(m) is Ok ==> next(m)->Ok_0 == moved(m, seq![w], below, m.ip + 1),
{
    reveal(next);
    if next(m) is Ok {
        assert(next(m) == do_end(m, m.ip + 1));
        assert(m.control.drop_last() =~= below);
        assert(m.stack.take(0).push(m.stack[1]) =~= seq![w]);
    }
}


/// A primitive with the fold behind it, applied to one argument outside a
/// dyadic train: the instruction puts the fold in the place of the value on
/// top of the stack, or fails as the fold fails.
pub proof fn lemma_mo_fold(m: Machine, f: FN)
    requires
        decoding(m.ops, m.ip) == Some(OP::MO(fn_id(f))),
        decoding(m.ops, m.ip + 2) == Some(OP::CO(co_id(CN::Fold))),
        !in_dyadic(m.control),
        m.stack.len() >= 1,
        m.fuel > 0,
    ensures
        next(m) == (match folded(f, m.stack.last(), m.floats) {
            Err(e) => Err(e),
            Ok(v) => Ok(moved(m, m.stack.update(m.stack.len() - 1, v), m.control, m.ip + 4)),
        }),
{
    reveal(next);
    assert(companion(m.ops, m.ip + 2) == Ok::<(Option<CN>, int), Fault>(
        (Some(CN::Fold), m.ip + 4),
    ));
    assert(step(m) == do_mo(m, fn_id(f), m.ip + 2));
}

/// The code of a train of one primitive with the fold, for one argument:
/// the instruction that enters the train, the primitive, the fold, and
/// the `END`.
pub proof fn lemma_train_of_fold(u: Unit, t: Seq<Node>, f: FN)
    requires
        t.len() == 1,
        t[0].n matches Term::Mco { o, co } && o.n == Term::Mfn(f) && co.n == Term::Cn(CN::Fold),
        framed(u, OP::MBL(0), t, false) is Ok,
    ensures
        ({
            let ua = emitted(u, OP::MBL(0));
            let ub = emitted(ua->Ok_0, OP::MO(fn_id(f)));
            let uc = emitted(ub->Ok_0, OP::CO(co_id(CN::Fold)));
            let ud = emitted(uc->Ok_0, OP::END);
            &&& ua is Ok
            &&& ub is Ok
            &&& uc is Ok
            &&& ud is Ok
            &&& train_from(ua->Ok_0, t, 0, false) == uc
            &&& uc->Ok_0.ops.len() == u.ops.len() + 7
        }),
{
    let ua = emitted(u, OP::MBL(0))->Ok_0;
    reveal_with_fuel(train_from, 2);
    assert(train_from(ua, t, 1, false) == Ok::<Unit, Fault>(ua));
    let co = *t[0].n->Mco_co;
    assert(element(ua, t, 0, false) == applied(ua, f, false, Some(CN::Fold), co));
}

/// Where a code holds the bytes of two instructions that were compiled one
/// after the other, the machine reads them there.
pub proof fn lemma_two_decodes(ops: Seq<u8>, ua: Unit, first: OP, second: OP)
    requires
        emitted(ua, first) is Ok,
        emitted(emitted(ua, first)->Ok_0, second) is Ok,
        holds(ops, ua, emitted(emitted(ua, first)->Ok_0, second)->Ok_0),
    ensures
        decoding(ops, ua.ops.len() as int) == Some(first),
        decoding(ops, emitted(ua, first)->Ok_0.ops.len() as int) == Some(second),
{
    let ub = emitted(ua, first)->Ok_0;
    let uc = emitted(ub, second)->Ok_0;
    lemma_emitted_extends(ua, first);
    lemma_emitted_extends(ub, second);
    lemma_extends_self(uc);
    crate::sim::lemma_holds_part(ops, ua, ua, ub, uc);
    crate::sim::lemma_holds_part(ops, ua, ub, uc, uc);
    lemma_decode(ops, ua, first);
    lemma_decode(ops, ub, second);
}

/// The run of a machine that stands before the train of one primitive
/// with the fold, with the value `v` alone on its stack and no frame of a
/// dyadic train on top: if it does not end in a failure, it pops last the
/// fold of `v` and ends with the stack empty.
pub proof fn lemma_fold_run(m: Machine, v: Node, f: FN)
    requires
        m.stack == seq![v],
        !in_dyadic(m.control),
        m.ops.len() == m.ip + 9,
        m.ip >= 0,
        decoding(m.ops, m.ip) is Some,
        decoding(m.ops, m.ip)->0 is MBL,
        decoding(m.ops, m.ip + 3) == Some(OP::MO(fn_id(f))),
        decoding(m.ops, m.ip + 5) == Some(OP::CO(co_id(CN::Fold))),
        decoding(m.ops, m.ip + 7) == Some(OP::END),
        decoding(m.ops, m.ip + 8) == Some(OP::POP),
    ensures
        run(m).1 is None ==> {
            &&& folded(f, v, m.floats) is Ok
            &&& run(m).0.last == Some(folded(f, v, m.floats)->Ok_0)
            &&& run(m).0.stack == Seq::<Node>::empty()
        },
{
    let addr = decoding(m.ops, m.ip)->0->MBL_0;
    if next(m) is Err {
        lemma_stuck(m);
    } else {
        lemma_mbl_alone(m, v, addr);
        lemma_step_keeps(m);
        let m2 = next(m)->Ok_0;
        lemma_after_one(m);
        lemma_run_after(m, 1);
        if next(m2) is Err {
            lemma_stuck(m2);
        } else {
            lemma_step_keeps(m2);
            lemma_mo_fold(m2, f);
            let fv = folded(f, v, m.floats)->Ok_0;
            let m3 = next(m2)->Ok_0;
            assert(m3.stack =~= seq![v, fv]);
            lemma_after_one(m2);
            lemma_run_after(m2, 1);
            if next(m3) is Err {
                lemma_stuck(m3);
            } else {
                lemma_step_keeps(m3);
                lemma_end_alone(m3, v, fv, m.control, C { ip: addr as usize, t: BL::MBL });
                let m4 = next(m3)->Ok_0;
                lemma_after_one(m3);
                lemma_run_after(m3, 1);
                if next(m4) is Err {
                    lemma_stuck(m4);
                } else {
                    lemma_step_keeps(m4);
                    lemma_pop_alone(m4);
                    let m5 = next(m4)->Ok_0;
                    lemma_after_one(m4);
                    lemma_run_after(m4, 1);
                    assert(m5.stack =~= Seq::<Node>::empty());
                    assert(halted(m5));
                    assert(run(m5) == (m5, None::<Fault>));
                }
            }
        }
    }
}

/// The fold folds from the left: the line that applies a primitive with
/// the fold to
/// one expression, run without a failure in a machine that starts with
/// empty stacks, pops last the fold from the left of the value that the
/// code of the expression left, which then is a list that is not empty,
/// and ends with the stack empty.
#[verifier::rlimit(50)]
pub proof fn law_fold_line(
    env: Scope,
    line: Node,
    f: FN,
    limit: nat,
    depth: nat,
    fuel: nat,
    floats: Seq<FloatFact>,
)
    requires
        line.n is Apply,
        line.n->Apply_train.len() == 1,
        line.n->Apply_train[0].n matches Term::Mco { o, co } && o.n == Term::Mfn(f) && co.n
            == Term::Cn(CN::Fold),
        line.n->Apply_args.len() == 1,
        program(env, seq![line]) is Ok,
        run(fresh(program(env, seq![line])->Ok_0, limit, depth, fuel, floats)).1 is None,
    ensures
        ({
            let p = program(env, seq![line])->Ok_0;
            let m0 = fresh(p, limit, depth, fuel, floats);
            let end = run(m0).0;
            let x = line.n->Apply_args[0];
            &&& end.stack == Seq::<Node>::empty()
            &&& exists|k: nat| #[trigger]
                after(m0, k) is Some && after(m0, k)->0.ip == compiled(
                    opening(env),
                    x,
                )->Ok_0.ops.len() && after(m0, k)->0.stack.len() == 1 && ({
                    let v = after(m0, k)->0.stack[0];
                    &&& v.n is List
                    &&& v.n->List_0.len() > 0
                    &&& fold_left(f, v.n->List_0, floats) is Ok
                    &&& end.last == Some(fold_left(f, v.n->List_0, floats)->Ok_0)
                })
        }),
{
    let p = program(env, seq![line])->Ok_0;
    let m0 = fresh(p, limit, depth, fuel, floats);
    let u = opening(env);
    let t = line.n->Apply_train;
    let x = line.n->Apply_args[0];
    lemma_one_line(env, line);
    let u1 = compiled(u, x)->Ok_0;
    assert(compiled(u, line) == framed(u1, OP::MBL(0), t, false));
    lemma_compiled_extends(u, x);
    lemma_frame_ends(p.ops, u, u1, t);
    lemma_train_of_fold(u1, t, f);
    lemma_two_decodes(
        p.ops,
        emitted(u1, OP::MBL(0))->Ok_0,
        OP::MO(fn_id(f)),
        OP::CO(co_id(CN::Fold)),
    );
    match sim_expr(u, x, m0) {
        None => {
            lemma_breaks_run(m0);
        },
        Some((j1, m1)) => {
            let v = m1.stack[0];
            assert(m1.stack =~= seq![v]);
            lemma_run_after(m0, j1);
            lemma_fold_run(m1, v, f);
            assert(after(m0, j1) is Some);
        },
    }
}


/// The primitives from place `k` down to the first, applied one after the
/// other to a value: the one at place `k` to the value, the one to the left
/// of it to what that gave, and so on.
pub open spec fn chained(fs: Seq<FN>, k: int, w: Node, floats: Seq<FloatFact>) -> Result<
    Node,
    Fault,
>
    decreases k + 1,
{
    if k < 0 || k >= fs.len() {
        Ok(w)
    } else {
        match monad(fs[k], w, floats) {
            Err(e) => Err(e),
            Ok(w2) => chained(fs, k - 1, w2, floats),
        }
    }
}

/// Whether a train is the primitives `fs`, each one alone.
pub open spec fn plain(t: Seq<Node>, fs: Seq<FN>) -> bool {
    t.len() == fs.len() && forall|i: int| 0 <= i < t.len() ==> (#[trigger] t[i]).n == Term::Mfn(fs[i])
}

/// The code of the primitives of a train from place `k` down, in a
/// monadic train on the value `w`: the run breaks, or it comes to stand
/// behind the train with what the primitives give, one after the other, in
/// the place of `w`.
#[verifier::rlimit(50)]
pub proof fn sim_chain(
    ua: Unit,
    t: Seq<Node>,
    fs: Seq<FN>,
    k: int,
    m: Machine,
    v0: Node,
    w: Node,
) -> (r: Option<(nat, Machine)>)
    requires
        plain(t, fs),
        train_from(ua, t, 0, false) is Ok,
        holds(m.ops, ua, train_from(ua, t, 0, false)->Ok_0),
        decoding(m.ops, train_from(ua, t, 0, false)->Ok_0.ops.len() as int) == Some(OP::END),
        -1 <= k < t.len(),
        train_from(ua, t, k + 1, false) is Ok,
        m.ip == train_from(ua, t, k + 1, false)->Ok_0.ops.len(),
        m.stack == seq![v0, w],
        !in_dyadic(m.control),
    ensures
        match r {
            Some((j, m2)) => {
                &&& after(m, j) == Some(m2)
                &&& m2.ip == train_from(ua, t, 0, false)->Ok_0.ops.len()
                &&& m2.ops == m.ops
                &&& m2.control == m.control
                &&& m2.floats == m.floats
                &&& chained(fs, k, w, m.floats) is Ok
                &&& m2.stack == seq![v0, chained(fs, k, w, m.floats)->Ok_0]
            },
            None => crate::sim::breaks(m),
        },
    decreases k + 1,
{
    if k < 0 {
        Some((0, m))
    } else {
        crate::sim::lemma_train_states(ua, t, k, false);
        crate::sim::lemma_train_states(ua, t, k + 1, false);
        let wf = train_from(ua, t, 0, false)->Ok_0;
        let u = train_from(ua, t, k + 1, false)->Ok_0;
        let wk = train_from(ua, t, k, false)->Ok_0;
        assert(t[k].n == Term::Mfn(fs[k]));
        if k >= 1 {
            assert(t[k - 1].n == Term::Mfn(fs[k - 1]));
        }
        assert(element(u, t, k, false) == emitted(u, OP::MO(fn_id(fs[k]))));
        lemma_emitted_extends(u, OP::MO(fn_id(fs[k])));
        crate::sim::lemma_holds_part(m.ops, ua, u, wk, wf);
        lemma_decode(m.ops, u, OP::MO(fn_id(fs[k])));
        crate::sim::lemma_head(ua, t, k - 1, false, m.ops);
        if m.fuel == 0 || next(m) is Err {
            if m.fuel == 0 {
                assert(next(m) is Err) by {
                    reveal(next);
                }
            }
            lemma_breaks_now(m);
            None
        } else {
            lemma_mo_alone(m, fs[k]);
            lemma_step_keeps(m);
            let m1 = next(m)->Ok_0;
            let w2 = monad(fs[k], w, m.floats)->Ok_0;
            assert(m1.stack =~= seq![v0, w2]);
            lemma_after_one(m);
            match sim_chain(ua, t, fs, k - 1, m1, v0, w2) {
                None => {
                    lemma_breaks_later(m, 1, m1);
                    None
                },
                Some((j, m2)) => {
                    lemma_after_add(m, 1, m1, j, m2);
                    Some((1 + j, m2))
                },
            }
        }
    }
}

/// Where the instructions around a train in its frame stand in a code
/// that ends with the train and a `POP`.
pub proof fn lemma_frame_ends(ops: Seq<u8>, u: Unit, u1: Unit, t: Seq<Node>)
    requires
        extends(u, u1),
        framed(u1, OP::MBL(0), t, false) is Ok,
        emitted(framed(u1, OP::MBL(0), t, false)->Ok_0, OP::POP) is Ok,
        ops == emitted(framed(u1, OP::MBL(0), t, false)->Ok_0, OP::POP)->Ok_0.ops,
    ensures
        ({
            let ua = emitted(u1, OP::MBL(0))->Ok_0;
            let wf = train_from(ua, t, 0, false)->Ok_0;
            &&& emitted(u1, OP::MBL(0)) is Ok
            &&& train_from(ua, t, 0, false) is Ok
            &&& holds(ops, u, u1)
            &&& holds(ops, ua, wf)
            &&& ua.ops.len() == u1.ops.len() + 3
            &&& ops.len() == wf.ops.len() + 2
            &&& decoding(ops, u1.ops.len() as int) is Some
            &&& decoding(ops, u1.ops.len() as int)->0 is MBL
            &&& decoding(ops, wf.ops.len() as int) == Some(OP::END)
            &&& decoding(ops, wf.ops.len() as int + 1) == Some(OP::POP)
        }),
{
    let r = framed(u1, OP::MBL(0), t, false)->Ok_0;
    let ua = emitted(u1, OP::MBL(0))->Ok_0;
    let wf = train_from(ua, t, 0, false)->Ok_0;
    let u3 = emitted(wf, OP::END)->Ok_0;
    lemma_framed_extends(u1, OP::MBL(0), t, false);
    crate::byte::lemma_train_extends(ua, t, 0, false);
    lemma_emitted_extends(wf, OP::END);
    assert(holds(ops, u, r));
    lemma_holds_first(ops, u, u1, r);
    lemma_holds_last(ops, u, u1, r);
    lemma_decode_open(ops, u1, OP::MBL(0), t, false);
    assert(holds(ops, ua, wf)) by {
        assert forall|i: int| ua.ops.len() <= i < wf.ops.len() implies ops[i] == wf.ops[i] by {
            assert(ops[i] == r.ops[i]);
            assert(u3.ops.take(wf.ops.len() as int)[i] == wf.ops[i]);
        }
    }
    assert(holds(ops, wf, u3)) by {
        assert forall|i: int| wf.ops.len() <= i < u3.ops.len() implies ops[i] == u3.ops[i] by {
            assert(ops[i] == r.ops[i]);
        }
    }
    lemma_decode(ops, wf, OP::END);
    lemma_decode(ops, r, OP::POP);
}

/// The run of a machine that stands before a train of primitives, each one
/// alone, with the value `v` alone on its stack and no frame of a dyadic
/// train on top: if it does not end in a failure, it pops last what the
/// primitives give on `v`, the rightmost first, and ends with the stack
/// empty.
pub proof fn lemma_chain_run(ua: Unit, t: Seq<Node>, fs: Seq<FN>, m: Machine, v: Node)
    requires
        plain(t, fs),
        train_from(ua, t, 0, false) is Ok,
        holds(m.ops, ua, train_from(ua, t, 0, false)->Ok_0),
        m.ip + 3 == ua.ops.len(),
        m.ip >= 0,
        m.stack == seq![v],
        !in_dyadic(m.control),
        m.ops.len() == train_from(ua, t, 0, false)->Ok_0.ops.len() + 2,
        decoding(m.ops, m.ip) is Some,
        decoding(m.ops, m.ip)->0 is MBL,
        decoding(m.ops, train_from(ua, t, 0, false)->Ok_0.ops.len() as int) == Some(OP::END),
        decoding(m.ops, train_from(ua, t, 0, false)->Ok_0.ops.len() as int + 1) == Some(OP::POP),
    ensures
        run(m).1 is None ==> {
            &&& chained(fs, fs.len() - 1, v, m.floats) is Ok
            &&& run(m).0.last == Some(chained(fs, fs.len() - 1, v, m.floats)->Ok_0)
            &&& run(m).0.stack == Seq::<Node>::empty()
        },
{
    let addr = decoding(m.ops, m.ip)->0->MBL_0;
    if next(m) is Err {
        lemma_stuck(m);
    } else {
        lemma_mbl_alone(m, v, addr);
        lemma_step_keeps(m);
        let m2 = next(m)->Ok_0;
        lemma_after_one(m);
        lemma_run_after(m, 1);
        assert(train_from(ua, t, t.len() as int, false) == Ok::<Unit, Fault>(ua));
        match sim_chain(ua, t, fs, t.len() - 1, m2, v, v) {
            None => {
                lemma_breaks_run(m2);
            },
            Some((j, m3)) => {
                lemma_run_after(m2, j);
                let res = chained(fs, fs.len() - 1, v, m.floats)->Ok_0;
                if next(m3) is Err {
                    lemma_stuck(m3);
                } else {
                    lemma_step_keeps(m3);
                    lemma_end_alone(m3, v, res, m.control, C { ip: addr as usize, t: BL::MBL });
                    let m4 = next(m3)->Ok_0;
                    lemma_after_one(m3);
                    lemma_run_after(m3, 1);
                    if next(m4) is Err {
                        lemma_stuck(m4);
                    } else {
                        lemma_step_keeps(m4);
                        lemma_pop_alone(m4);
                        let m5 = next(m4)->Ok_0;
                        lemma_after_one(m4);
                        lemma_run_after(m4, 1);
                        assert(m5.stack =~= Seq::<Node>::empty());
                        assert(halted(m5));
                        assert(run(m5) == (m5, None::<Fault>));
                    }
                }
            },
        }
    }
}

/// Trains of any length run from the right: the line that applies a train
/// of primitives, each one alone, to one expression, run without a failure
/// in a machine that starts with empty stacks, pops last what the
/// primitives give, the rightmost first, on the value that the code of the
/// expression left, and ends with the stack empty.
pub proof fn law_train_of_any_length(
    env: Scope,
    line: Node,
    fs: Seq<FN>,
    limit: nat,
    depth: nat,
    fuel: nat,
    floats: Seq<FloatFact>,
)
    requires
        line.n is Apply,
        plain(line.n->Apply_train, fs),
        line.n->Apply_args.len() == 1,
        program(env, seq![line]) is Ok,
        run(fresh(program(env, seq![line])->Ok_0, limit, depth, fuel, floats)).1 is None,
    ensures
        ({
            let p = program(env, seq![line])->Ok_0;
            let m0 = fresh(p, limit, depth, fuel, floats);
            let end = run(m0).0;
            let x = line.n->Apply_args[0];
            &&& end.stack == Seq::<Node>::empty()
            &&& exists|k: nat| #[trigger]
                after(m0, k) is Some && after(m0, k)->0.ip == compiled(
                    opening(env),
                    x,
                )->Ok_0.ops.len() && after(m0, k)->0.stack.len() == 1 && ({
                    let v = after(m0, k)->0.stack[0];
                    &&& chained(fs, fs.len() - 1, v, floats) is Ok
                    &&& end.last == Some(chained(fs, fs.len() - 1, v, floats)->Ok_0)
                })
        }),
{
    let p = program(env, seq![line])->Ok_0;
    let m0 = fresh(p, limit, depth, fuel, floats);
    let u = opening(env);
    let t = line.n->Apply_train;
    let x = line.n->Apply_args[0];
    lemma_one_line(env, line);
    let u1 = compiled(u, x)->Ok_0;
    assert(compiled(u, line) == framed(u1, OP::MBL(0), t, false));
    lemma_compiled_extends(u, x);
    lemma_frame_ends(p.ops, u, u1, t);
    let ua = emitted(u1, OP::MBL(0))->Ok_0;
    match sim_expr(u, x, m0) {
        None => {
            lemma_breaks_run(m0);
        },
        Some((j1, m1)) => {
            let v = m1.stack[0];
            assert(m1.stack =~= seq![v]);
            lemma_run_after(m0, j1);
            lemma_chain_run(ua, t, fs, m1, v);
            assert(after(m0, j1) is Some);
        },
    }
}

} // verus!
