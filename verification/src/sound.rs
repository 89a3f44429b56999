//! Well-formed code: what the compiler promises of every program, whatever
//! the program does when it runs.

use vstd::prelude::*;

use crate::ast::{val, CN, FN, Node, Term};
use crate::byte::{
    applied, call_op, called, compiled, dyadic_at, element, emitted, extends, framed, frozen,
    is_bound, leaves_value, lemma_compiled_extends, lemma_element_extends, lemma_emitted_extends,
    lemma_extends_chain, lemma_extends_self, lemma_framed_extends, lemma_sequence_extends,
    lemma_train_extends, lemma_with_const_extends, pooled, prim_of, prim_op, sequence, stored_from,
    train_from, trailing, with_const, Unit,
};
use crate::err::Fault;
use crate::num::FloatFact;
use crate::parse::{
    expr, exprs_from, exprs_until, form, params_until, read, tokens, train_at, train_until, Tok,
    Token,
};
use crate::op::{co_id, co_of_id, decoding, encoding, fn_id, fn_of_id, operand_len, OP};
use crate::sim::{
    holds, lemma_decode, lemma_decode_open, lemma_holds_first, lemma_holds_last, lemma_holds_part,
    lemma_train_states,
};
use crate::byte::{opening, program, Program, Scope};
use crate::vm::{companion, halted, run, step, Machine};

verus! {

/// Whether an instruction fits a pool: an index into the pool lies inside
/// it, and where the instruction wants a name there, a text stands there;
/// the identifier of a primitive or of a combinator is one.
pub open spec fn fits_pool(op: OP, consts: Seq<Node>) -> bool {
    match op {
        OP::CONST(i) => i < consts.len(),
        OP::STORE(i) => i < consts.len() && consts[i as int].n is Str,
        OP::LOAD(i) => i < consts.len() && consts[i as int].n is Str,
        OP::MCALL(i) => i < consts.len() && consts[i as int].n is Str,
        OP::DCALL(i) => i < consts.len() && consts[i as int].n is Str,
        OP::MO(id) => fn_of_id(id) is Some,
        OP::DO(id) => fn_of_id(id) is Some,
        OP::CO(id) => co_of_id(id) is Some,
        _ => true,
    }
}

/// Where the instructions go on behind the instruction `op` at `from`:
/// behind its bytes; for a primitive, behind its combinator too, where it
/// has one; for a jump, at the address that it names. A combinator that
/// belongs to no primitive has no place.
pub open spec fn stride(ops: Seq<u8>, from: int, op: OP) -> Option<int> {
    match op {
        OP::CO(_) => None,
        OP::MO(_) => match companion(ops, from + 2) {
            Ok((_, behind)) => Some(behind),
            Err(_) => None,
        },
        OP::DO(_) => match companion(ops, from + 2) {
            Ok((_, behind)) => Some(behind),
            Err(_) => None,
        },
        OP::JMP(a) => Some(a as int),
        _ => Some(from + 1 + operand_len(op)),
    }
}

/// The address that an instruction names as the end of the train that it
/// enters.
pub open spec fn frame_end(op: OP) -> Option<int> {
    match op {
        OP::MBL(a) => Some(a as int),
        OP::DBL(a) => Some(a as int),
        OP::DUP(a) => Some(a as int),
        _ => None,
    }
}

/// Whether the code between `from` and `to` is well formed over a pool:
/// instructions stand one behind the other from `from` up to `to`, a jump
/// leads forward to one of them, each one fits the pool, and an instruction
/// that enters a train names the address of an instruction further on, or
/// `to`.
pub open spec fn walks(ops: Seq<u8>, consts: Seq<Node>, from: int, to: int) -> bool
    decreases to - from,
{
    if from == to {
        true
    } else if from < 0 || from > to {
        false
    } else {
        match decoding(ops, from) {
            None => false,
            Some(op) => fits_pool(op, consts) && match stride(ops, from, op) {
                None => false,
                Some(next) => from < next <= to && match frame_end(op) {
                    Some(a) => next <= a <= to && walks(ops, consts, next, a) && walks(
                        ops,
                        consts,
                        a,
                        to,
                    ),
                    None => walks(ops, consts, next, to),
                },
            },
        }
    }
}

/// Code that is well formed up to an address, and from there on, is well
/// formed as a whole.
pub proof fn lemma_walks_join(ops: Seq<u8>, consts: Seq<Node>, a: int, b: int, c: int)
    requires
        walks(ops, consts, a, b),
        walks(ops, consts, b, c),
        a <= b <= c,
    ensures
        walks(ops, consts, a, c),
    decreases b - a,
{
    if a < b {
        let op = decoding(ops, a)->0;
        let next = stride(ops, a, op)->0;
        match frame_end(op) {
            Some(e) => {
                lemma_walks_join(ops, consts, e, b, c);
            },
            None => {
                lemma_walks_join(ops, consts, next, b, c);
            },
        }
    }
}

/// Code that is well formed over a pool is well formed over the pool with
/// more constants behind it.
pub proof fn lemma_walks_pool(
    ops: Seq<u8>,
    consts: Seq<Node>,
    more: Seq<Node>,
    from: int,
    to: int,
)
    requires
        walks(ops, consts, from, to),
        consts.len() <= more.len(),
        more.take(consts.len() as int) == consts,
    ensures
        walks(ops, more, from, to),
    decreases to - from,
{
    if from < to {
        let op = decoding(ops, from)->0;
        let next = stride(ops, from, op)->0;
        assert(fits_pool(op, more)) by {
            assert forall|i: int| 0 <= i < consts.len() implies more[i] == consts[i] by {
                assert(more.take(consts.len() as int)[i] == more[i]);
            }
        }
        match frame_end(op) {
            Some(e) => {
                lemma_walks_pool(ops, consts, more, next, e);
                lemma_walks_pool(ops, consts, more, e, to);
            },
            None => {
                lemma_walks_pool(ops, consts, more, next, to);
            },
        }
    }
}

/// Whether a pool holds the constants of a state of a compilation at
/// their places.
pub open spec fn pool_of(consts: Seq<Node>, r: Unit) -> bool {
    consts.len() >= r.consts.len() && consts.take(r.consts.len() as int) == r.consts
}

/// A pool that holds the constants of a state holds those of a state
/// before it.
pub proof fn lemma_pool_before(consts: Seq<Node>, a: Unit, r: Unit)
    requires
        pool_of(consts, r),
        extends(a, r),
    ensures
        pool_of(consts, a),
{
    assert(consts.take(a.consts.len() as int) =~= consts.take(r.consts.len() as int).take(
        a.consts.len() as int,
    ));
}

/// One instruction that is neither a primitive nor a combinator, a jump or
/// the entry to a train, before well-formed code.
pub proof fn walk_one(ops: Seq<u8>, consts: Seq<Node>, u: Unit, op: OP, to: int)
    requires
        emitted(u, op) is Ok,
        holds(ops, u, emitted(u, op)->Ok_0),
        fits_pool(op, consts),
        !(op is MO || op is DO || op is CO || op is JMP || frame_end(op) is Some),
        emitted(u, op)->Ok_0.ops.len() <= to,
        walks(ops, consts, emitted(u, op)->Ok_0.ops.len() as int, to),
    ensures
        walks(ops, consts, u.ops.len() as int, to),
{
    lemma_decode(ops, u, op);
}

/// The push of a value that went into the pool, before well-formed code.
pub proof fn walk_pooled(ops: Seq<u8>, consts: Seq<Node>, u: Unit, v: Node, to: int)
    requires
        pooled(u, v) is Ok,
        holds(ops, u, pooled(u, v)->Ok_0),
        pool_of(consts, pooled(u, v)->Ok_0),
        pooled(u, v)->Ok_0.ops.len() <= to,
        walks(ops, consts, pooled(u, v)->Ok_0.ops.len() as int, to),
    ensures
        walks(ops, consts, u.ops.len() as int, to),
{
    let u1 = with_const(u, v)->Ok_0.0;
    let i = with_const(u, v)->Ok_0.1;
    walk_one(ops, consts, u1, OP::CONST(i), to);
}

/// The code of a name that stands for a value, before well-formed code.
pub proof fn walk_value(ops: Seq<u8>, consts: Seq<Node>, u: Unit, n: Node, to: int)
    requires
        n.n is Val,
        compiled(u, n) is Ok,
        holds(ops, u, compiled(u, n)->Ok_0),
        pool_of(consts, compiled(u, n)->Ok_0),
        compiled(u, n)->Ok_0.ops.len() <= to,
        walks(ops, consts, compiled(u, n)->Ok_0.ops.len() as int, to),
    ensures
        walks(ops, consts, u.ops.len() as int, to),
{
    let name = n.n->Val_0;
    if is_bound(u, name) {
        walk_one(ops, consts, u, OP::CONST(u.names[name]), to);
    } else {
        let u1 = with_const(u, val(Term::Str(name)))->Ok_0.0;
        let i = with_const(u, val(Term::Str(name)))->Ok_0.1;
        assert(consts.take(u1.consts.len() as int)[i as int] == u1.consts[i as int]);
        walk_one(ops, consts, u1, OP::LOAD(i), to);
    }
}


/// The code that applies a primitive, before well-formed code that does
/// not start with a combinator.
pub proof fn walk_applied(
    ops: Seq<u8>,
    consts: Seq<Node>,
    u: Unit,
    f: FN,
    role: bool,
    co: Option<CN>,
    at: Node,
    to: int,
)
    requires
        applied(u, f, role, co, at) is Ok,
        holds(ops, u, applied(u, f, role, co, at)->Ok_0),
        applied(u, f, role, co, at)->Ok_0.ops.len() < to,
        walks(ops, consts, applied(u, f, role, co, at)->Ok_0.ops.len() as int, to),
    ensures
        walks(ops, consts, u.ops.len() as int, to),
{
    let op = prim_op(f, role);
    let u1 = emitted(u, op)->Ok_0;
    let end = applied(u, f, role, co, at)->Ok_0;
    lemma_emitted_extends(u, op);
    lemma_extends_self(u);
    match co {
        Some(c) => {
            lemma_emitted_extends(u1, OP::CO(co_id(c)));
            lemma_holds_part(ops, u, u, u1, end);
            lemma_extends_self(end);
            lemma_holds_part(ops, u, u1, end, end);
            lemma_decode(ops, u, op);
            lemma_decode(ops, u1, OP::CO(co_id(c)));
            assert(companion(ops, u1.ops.len() as int) == Ok::<(Option<CN>, int), Fault>(
                (Some(c), end.ops.len() as int),
            ));
        },
        None => {
            lemma_decode(ops, u, op);
            assert(companion(ops, u1.ops.len() as int) == Ok::<(Option<CN>, int), Fault>(
                (None, end.ops.len() as int),
            ));
        },
    }
    assert(stride(ops, u.ops.len() as int, op) == Some(end.ops.len() as int));
}

/// The code that calls a function by its name, before well-formed code.
pub proof fn walk_called(
    ops: Seq<u8>,
    consts: Seq<Node>,
    u: Unit,
    name: Seq<char>,
    dyadic: bool,
    to: int,
)
    requires
        called(u, name, dyadic) is Ok,
        holds(ops, u, called(u, name, dyadic)->Ok_0),
        pool_of(consts, called(u, name, dyadic)->Ok_0),
        called(u, name, dyadic)->Ok_0.ops.len() <= to,
        walks(ops, consts, called(u, name, dyadic)->Ok_0.ops.len() as int, to),
    ensures
        walks(ops, consts, u.ops.len() as int, to),
{
    let u1 = with_const(u, val(Term::Str(name)))->Ok_0.0;
    let i = with_const(u, val(Term::Str(name)))->Ok_0.1;
    assert(consts.take(u1.consts.len() as int)[i as int] == u1.consts[i as int]);
    walk_one(ops, consts, u1, call_op(i, dyadic), to);
}

/// The code of one element of a train, before well-formed code that does
/// not start with a combinator.
pub proof fn walk_element(
    ops: Seq<u8>,
    consts: Seq<Node>,
    u: Unit,
    t: Seq<Node>,
    k: int,
    two: bool,
    to: int,
)
    requires
        0 <= k < t.len(),
        element(u, t, k, two) is Ok,
        holds(ops, u, element(u, t, k, two)->Ok_0),
        pool_of(consts, element(u, t, k, two)->Ok_0),
        element(u, t, k, two)->Ok_0.ops.len() < to,
        walks(ops, consts, element(u, t, k, two)->Ok_0.ops.len() as int, to),
    ensures
        walks(ops, consts, u.ops.len() as int, to),
{
    let e = t[k];
    let dyadic = dyadic_at(t, k, two);
    match e.n {
        Term::Mfn(f) => walk_applied(ops, consts, u, f, dyadic, trailing(t, k), t[k - 1], to),
        Term::Dfn(f) => walk_applied(ops, consts, u, f, dyadic, trailing(t, k), t[k - 1], to),
        Term::Mop(f) => walk_applied(ops, consts, u, f, false, trailing(t, k), t[k - 1], to),
        Term::Mco { o, co } => walk_applied(
            ops,
            consts,
            u,
            prim_of(*o)->0,
            dyadic && !(o.n is Mop),
            Some(co.n->Cn_0),
            *co,
            to,
        ),
        Term::Dco { o, co } => walk_applied(
            ops,
            consts,
            u,
            prim_of(*o)->0,
            dyadic && !(o.n is Mop),
            Some(co.n->Cn_0),
            *co,
            to,
        ),
        Term::Val(name) => walk_called(ops, consts, u, name, dyadic, to),
        Term::FnVal(name) => walk_called(ops, consts, u, name, dyadic, to),
        _ => {},
    }
}

/// The code of the elements of a train from place `k` down, before
/// well-formed code that does not start with a combinator.
pub proof fn walk_train(
    ops: Seq<u8>,
    consts: Seq<Node>,
    w: Unit,
    t: Seq<Node>,
    k: int,
    two: bool,
    to: int,
)
    requires
        train_from(w, t, 0, two) is Ok,
        holds(ops, w, train_from(w, t, 0, two)->Ok_0),
        pool_of(consts, train_from(w, t, 0, two)->Ok_0),
        train_from(w, t, 0, two)->Ok_0.ops.len() < to,
        walks(ops, consts, train_from(w, t, 0, two)->Ok_0.ops.len() as int, to),
        -1 <= k < t.len(),
    ensures
        train_from(w, t, k + 1, two) is Ok,
        walks(ops, consts, train_from(w, t, k + 1, two)->Ok_0.ops.len() as int, to),
    decreases k + 1,
{
    if k >= 0 {
        let wf = train_from(w, t, 0, two)->Ok_0;
        lemma_train_states(w, t, k, two);
        lemma_train_states(w, t, k + 1, two);
        let u = train_from(w, t, k + 1, two)->Ok_0;
        let wk = train_from(w, t, k, two)->Ok_0;
        walk_train(ops, consts, w, t, k - 1, two, to);
        lemma_element_extends(u, t, k, two);
        lemma_holds_part(ops, w, u, wk, wf);
        lemma_pool_before(consts, wk, wf);
        walk_element(ops, consts, u, t, k, two, to);
    }
}

/// The code of a train in its frame, before well-formed code.
pub proof fn walk_frame(
    ops: Seq<u8>,
    consts: Seq<Node>,
    u: Unit,
    open: OP,
    t: Seq<Node>,
    two: bool,
    to: int,
)
    requires
        open == (if two {
            OP::DBL(0)
        } else {
            OP::MBL(0)
        }),
        framed(u, open, t, two) is Ok,
        holds(ops, u, framed(u, open, t, two)->Ok_0),
        pool_of(consts, framed(u, open, t, two)->Ok_0),
        framed(u, open, t, two)->Ok_0.ops.len() <= to,
        walks(ops, consts, framed(u, open, t, two)->Ok_0.ops.len() as int, to),
    ensures
        walks(ops, consts, u.ops.len() as int, to),
{
    let r = framed(u, open, t, two)->Ok_0;
    let u1 = emitted(u, open)->Ok_0;
    let wf = train_from(u1, t, 0, two)->Ok_0;
    let u3 = emitted(wf, OP::END)->Ok_0;
    lemma_decode_open(ops, u, open, t, two);
    lemma_emitted_extends(u, open);
    lemma_train_extends(u1, t, 0, two);
    lemma_emitted_extends(wf, OP::END);
    assert(holds(ops, u1, wf)) by {
        assert forall|i: int| u1.ops.len() <= i < wf.ops.len() implies ops[i] == wf.ops[i] by {
            assert(u3.ops.take(wf.ops.len() as int)[i] == wf.ops[i]);
        }
    }
    assert(holds(ops, wf, u3)) by {
        assert forall|i: int| wf.ops.len() <= i < u3.ops.len() implies ops[i] == u3.ops[i] by {
            assert(ops[i] == r.ops[i]);
        }
    }
    lemma_decode(ops, wf, OP::END);
    assert(pool_of(consts, wf));
    // the `END`, and before it the train
    assert(walks(ops, consts, wf.ops.len() as int, r.ops.len() as int)) by {
        assert(walks(ops, consts, r.ops.len() as int, r.ops.len() as int));
    }
    assert(train_from(u1, t, t.len() as int, two) == Ok::<Unit, Fault>(u1));
    walk_train(ops, consts, u1, t, t.len() - 1, two, r.ops.len() as int);
}

/// The code of a function, before well-formed code: the jump leads over
/// the body to the push of the function value.
#[verifier::rlimit(50)]
pub proof fn walk_lambda(ops: Seq<u8>, consts: Seq<Node>, u: Unit, n: Node, to: int)
    requires
        n.n is Lambda,
        compiled(u, n) is Ok,
        holds(ops, u, compiled(u, n)->Ok_0),
        pool_of(consts, compiled(u, n)->Ok_0),
        compiled(u, n)->Ok_0.ops.len() <= to,
        walks(ops, consts, compiled(u, n)->Ok_0.ops.len() as int, to),
    ensures
        walks(ops, consts, u.ops.len() as int, to),
{
    let params = n.n->Lambda_params;
    let body = n.n->Lambda_body;
    let sub = Unit { ops: Seq::empty(), hidden: u.hidden + params, ..u };
    let s1 = stored_from(sub, params, 0)->Ok_0;
    let s2 = sequence(s1, body, body.len() as int, true)->Ok_0;
    let s3 = emitted(s2, OP::END)->Ok_0;
    let addr = u.ops.len() + 3 + s3.ops.len();
    let jump = OP::JMP(addr as u16);
    let outer = Unit { ops: u.ops + encoding(jump) + s3.ops, consts: s3.consts, ..u };
    let f = val(Term::Fun { arity: params.len() as usize, ops: s3.ops, consts: s3.consts });
    let end = pooled(outer, f)->Ok_0;
    assert(compiled(u, n) == pooled(outer, f));
    let uc = with_const(outer, f)->Ok_0.0;
    let i = with_const(outer, f)->Ok_0.1;
    let at = u.ops.len() as int;
    let before = ops.take(at);
    let behind = ops.skip(at + 3);
    assert forall|j: int| 0 <= j < 3 implies ops[at + j] == encoding(jump)[j] by {
        assert(end.ops[at + j] == encoding(jump)[j]);
    }
    assert(ops =~= before + encoding(jump) + behind);
    crate::op::lemma_decoding_of_encoding(jump, before, behind);
    walk_one(ops, consts, uc, OP::CONST(i), to);
}

/// The code of an expression, before well-formed code.
pub proof fn walk_expr(ops: Seq<u8>, consts: Seq<Node>, u: Unit, n: Node, to: int)
    requires
        compiled(u, n) is Ok,
        holds(ops, u, compiled(u, n)->Ok_0),
        pool_of(consts, compiled(u, n)->Ok_0),
        compiled(u, n)->Ok_0.ops.len() <= to,
        walks(ops, consts, compiled(u, n)->Ok_0.ops.len() as int, to),
    ensures
        walks(ops, consts, u.ops.len() as int, to),
    decreases n, 0nat,
{
    let end = compiled(u, n)->Ok_0;
    match n.n {
        Term::Int(_) => walk_pooled(ops, consts, u, n, to),
        Term::Bool(_) => walk_pooled(ops, consts, u, n, to),
        Term::Float(_) => walk_pooled(ops, consts, u, n, to),
        Term::Str(_) => walk_pooled(ops, consts, u, n, to),
        Term::Fun { .. } => walk_pooled(ops, consts, u, n, to),
        Term::List(_) => walk_pooled(ops, consts, u, frozen(u, n)->Ok_0, to),
        Term::Val(_) => walk_value(ops, consts, u, n, to),
        Term::Lambda { .. } => walk_lambda(ops, consts, u, n, to),
        Term::DoBlock(xs) => walk_seq(ops, consts, u, xs, xs.len() as int, true, to),
        Term::Assign { name, rhs } => {
            let u1 = compiled(u, *rhs)->Ok_0;
            let u2 = with_const(u1, val(Term::Str(name)))->Ok_0.0;
            let i = with_const(u1, val(Term::Str(name)))->Ok_0.1;
            let u3 = emitted(u2, OP::STORE(i))->Ok_0;
            lemma_compiled_extends(u, *rhs);
            lemma_with_const_extends(u1, val(Term::Str(name)));
            lemma_emitted_extends(u2, OP::STORE(i));
            lemma_extends_chain(u1, u2, u3);
            assert(end.ops == u3.ops);
            assert(end.consts == u3.consts);
            lemma_holds_first(ops, u, u1, end);
            lemma_holds_last(ops, u, u2, u3);
            assert(consts.take(u3.consts.len() as int)[i as int] == u3.consts[i as int]);
            walk_one(ops, consts, u2, OP::STORE(i), to);
            assert(pool_of(consts, u1)) by {
                assert(consts.take(u1.consts.len() as int) =~= consts.take(
                    u3.consts.len() as int,
                ).take(u1.consts.len() as int));
            }
            walk_expr(ops, consts, u, *rhs, to);
        },
        Term::Apply { train, args } => {
            if args.len() == 1 {
                let u1 = compiled(u, args[0])->Ok_0;
                lemma_compiled_extends(u, args[0]);
                lemma_framed_extends(u1, OP::MBL(0), train, false);
                lemma_holds_first(ops, u, u1, end);
                lemma_holds_last(ops, u, u1, end);
                walk_frame(ops, consts, u1, OP::MBL(0), train, false, to);
                lemma_pool_before(consts, u1, end);
                walk_expr(ops, consts, u, args[0], to);
            } else if args.len() == 2 {
                let u1 = compiled(u, args[1])->Ok_0;
                let u2 = compiled(u1, args[0])->Ok_0;
                lemma_compiled_extends(u, args[1]);
                lemma_compiled_extends(u1, args[0]);
                lemma_framed_extends(u2, OP::DBL(0), train, true);
                lemma_extends_chain(u, u1, u2);
                lemma_extends_chain(u1, u2, end);
                lemma_holds_first(ops, u, u1, end);
                lemma_holds_last(ops, u, u1, end);
                lemma_holds_first(ops, u1, u2, end);
                lemma_holds_last(ops, u, u2, end);
                walk_frame(ops, consts, u2, OP::DBL(0), train, true, to);
                lemma_pool_before(consts, u2, end);
                walk_expr(ops, consts, u1, args[0], to);
                lemma_pool_before(consts, u1, end);
                walk_expr(ops, consts, u, args[1], to);
            }
        },
        _ => {},
    }
}

/// The code of the first `k` expressions of a sequence, before well-formed
/// code.
pub proof fn walk_seq(
    ops: Seq<u8>,
    consts: Seq<Node>,
    u: Unit,
    xs: Seq<Node>,
    k: int,
    keep: bool,
    to: int,
)
    requires
        sequence(u, xs, k, keep) is Ok,
        holds(ops, u, sequence(u, xs, k, keep)->Ok_0),
        pool_of(consts, sequence(u, xs, k, keep)->Ok_0),
        sequence(u, xs, k, keep)->Ok_0.ops.len() <= to,
        walks(ops, consts, sequence(u, xs, k, keep)->Ok_0.ops.len() as int, to),
    ensures
        walks(ops, consts, u.ops.len() as int, to),
    decreases xs, k,
{
    if k <= 0 || k > xs.len() {
    } else {
        let end = sequence(u, xs, k, keep)->Ok_0;
        let u1 = sequence(u, xs, k - 1, keep)->Ok_0;
        let u2 = compiled(u1, xs[k - 1])->Ok_0;
        let pops = leaves_value(xs[k - 1]) && !(keep && k == xs.len());
        lemma_sequence_extends(u, xs, k - 1, keep);
        lemma_compiled_extends(u1, xs[k - 1]);
        lemma_emitted_extends(u2, OP::POP);
        lemma_extends_self(u2);
        lemma_extends_chain(u1, u2, end);
        lemma_holds_first(ops, u, u1, end);
        lemma_holds_last(ops, u, u1, end);
        lemma_holds_first(ops, u1, u2, end);
        if pops {
            lemma_holds_last(ops, u, u2, end);
            walk_one(ops, consts, u2, OP::POP, to);
        }
        lemma_pool_before(consts, u2, end);
        walk_expr(ops, consts, u1, xs[k - 1], to);
        lemma_pool_before(consts, u1, end);
        walk_seq(ops, consts, u, xs, k - 1, keep, to);
    }
}

/// The code that binds the parameters from place `k` on, before
/// well-formed code.
pub proof fn walk_stored(
    ops: Seq<u8>,
    consts: Seq<Node>,
    u: Unit,
    params: Seq<Seq<char>>,
    k: int,
    to: int,
)
    requires
        0 <= k <= params.len(),
        stored_from(u, params, k) is Ok,
        holds(ops, u, stored_from(u, params, k)->Ok_0),
        pool_of(consts, stored_from(u, params, k)->Ok_0),
        stored_from(u, params, k)->Ok_0.ops.len() <= to,
        walks(ops, consts, stored_from(u, params, k)->Ok_0.ops.len() as int, to),
    ensures
        walks(ops, consts, u.ops.len() as int, to),
    decreases params.len() - k,
{
    if k < params.len() {
        let end = stored_from(u, params, k)->Ok_0;
        let u1 = stored_from(u, params, k + 1)->Ok_0;
        let u2 = with_const(u1, val(Term::Str(params[k])))->Ok_0.0;
        let i = with_const(u1, val(Term::Str(params[k])))->Ok_0.1;
        crate::byte::lemma_stored_extends(u, params, k + 1);
        lemma_with_const_extends(u1, val(Term::Str(params[k])));
        lemma_emitted_extends(u2, OP::STORE(i));
        lemma_extends_chain(u1, u2, end);
        lemma_holds_first(ops, u, u1, end);
        lemma_holds_last(ops, u, u2, end);
        assert(consts.take(end.consts.len() as int)[i as int] == end.consts[i as int]);
        walk_one(ops, consts, u2, OP::STORE(i), to);
        lemma_pool_before(consts, u1, end);
        walk_stored(ops, consts, u, params, k + 1, to);
    }
}


/// Whether a program is well formed: its code is well formed over its
/// pool from the first byte to the last.
pub open spec fn well_formed(p: Program) -> bool {
    walks(p.ops, p.consts, 0, p.ops.len() as int)
}

/// Every program that the compiler gives is well formed: its code is
/// instructions from the first byte to the last, each jump leads forward to
/// an instruction, each index into the pool lies inside the pool and finds a
/// name where one is wanted, and each instruction that enters a train names
/// the address behind the `END` of that train.
pub proof fn law_program_is_well_formed(env: Scope, ast: Seq<Node>)
    requires
        program(env, ast) is Ok,
    ensures
        well_formed(program(env, ast)->Ok_0),
{
    let p = program(env, ast)->Ok_0;
    let u = opening(env);
    let end = sequence(u, ast, ast.len() as int, false)->Ok_0;
    assert(p.consts.take(end.consts.len() as int) =~= end.consts);
    walk_seq(p.ops, p.consts, u, ast, ast.len() as int, false, p.ops.len() as int);
}

/// Every function value that the compiler makes is well formed: the code
/// of its body, over the pool that it holds, is instructions from the first
/// byte to the last, as that of a program is. It takes as many arguments as
/// the function has parameters.
pub proof fn law_function_is_well_formed(u: Unit, n: Node)
    requires
        n.n is Lambda,
        compiled(u, n) is Ok,
    ensures
        ({
            let made = compiled(u, n)->Ok_0.consts.last();
            &&& compiled(u, n)->Ok_0.consts.len() > 0
            &&& made.n is Fun
            &&& made.n->Fun_arity == n.n->Lambda_params.len() as usize
            &&& walks(made.n->Fun_ops, made.n->Fun_consts, 0, made.n->Fun_ops.len() as int)
        }),
{
    let params = n.n->Lambda_params;
    let body = n.n->Lambda_body;
    let sub = Unit { ops: Seq::empty(), hidden: u.hidden + params, ..u };
    let s1 = stored_from(sub, params, 0)->Ok_0;
    let s2 = sequence(s1, body, body.len() as int, true)->Ok_0;
    let s3 = emitted(s2, OP::END)->Ok_0;
    let to = s3.ops.len() as int;
    crate::byte::lemma_stored_extends(sub, params, 0);
    lemma_sequence_extends(s1, body, body.len() as int, true);
    lemma_emitted_extends(s2, OP::END);
    lemma_extends_self(s3);
    lemma_extends_chain(s1, s2, s3);
    assert(holds(s3.ops, sub, s3));
    lemma_holds_last(s3.ops, sub, s2, s3);
    walk_one(s3.ops, s3.consts, s2, OP::END, to);
    lemma_holds_last(s3.ops, sub, s1, s3);
    lemma_holds_first(s3.ops, s1, s2, s3);
    lemma_pool_before(s3.consts, s2, s3);
    walk_seq(s3.ops, s3.consts, s1, body, body.len() as int, true, to);
    lemma_holds_first(s3.ops, sub, s1, s3);
    lemma_pool_before(s3.consts, s1, s3);
    walk_stored(s3.ops, s3.consts, sub, params, 0, to);
}

/// An instruction that a code holds whole stands in the same place of a
/// code with more bytes behind it.
pub proof fn lemma_decoding_more(ops: Seq<u8>, more: Seq<u8>, ip: int)
    requires
        ops.len() <= more.len(),
        more.take(ops.len() as int) == ops,
        decoding(ops, ip) is Some,
    ensures
        decoding(more, ip) == decoding(ops, ip),
{
    assert forall|i: int| 0 <= i < ops.len() implies more[i] == ops[i] by {
        assert(more.take(ops.len() as int)[i] == more[i]);
    }
}

/// Code that is well formed up to an address is well formed up to there
/// with more bytes behind it, unless a combinator stands at that address
/// then.
pub proof fn lemma_walks_more(ops: Seq<u8>, more: Seq<u8>, consts: Seq<Node>, from: int, to: int)
    requires
        walks(ops, consts, from, to),
        to <= ops.len() <= more.len(),
        more.take(ops.len() as int) == ops,
        !(decoding(more, to) is Some && decoding(more, to)->0 is CO),
    ensures
        walks(more, consts, from, to),
    decreases to - from,
{
    reveal_with_fuel(walks, 2);
    if from < to {
        let op = decoding(ops, from)->0;
        let next = stride(ops, from, op)->0;
        lemma_decoding_more(ops, more, from);
        if op is MO || op is DO {
            if decoding(ops, from + 2) is Some {
                lemma_decoding_more(ops, more, from + 2);
            } else {
                assert(next == from + 2);
                assert(next == to);
            }
        }
        assert(stride(more, from, op) == Some(next));
        match frame_end(op) {
            Some(e) => {
                if e < to {
                    lemma_decoding_more(ops, more, e);
                }
                lemma_walks_more(ops, more, consts, next, e);
                lemma_walks_more(ops, more, consts, e, to);
            },
            None => {
                lemma_walks_more(ops, more, consts, next, to);
            },
        }
    }
}

/// Whether the code that a compilation has built so far is well formed
/// over the pool that it has built so far.
pub open spec fn well_formed_so_far(u: Unit) -> bool {
    walks(u.ops, u.consts, 0, u.ops.len() as int)
}

/// The code of an expression keeps the code before it well formed: where
/// the code that was compiled so far is well formed over its pool, it is
/// well formed with the code of one more expression behind it, over the
/// pool as the expression leaves it. Each jump and each address of a train
/// leads to an instruction, and each index lies inside the pool, in the old
/// code and in the new.
pub proof fn law_expression_keeps_well_formed(u: Unit, n: Node)
    requires
        well_formed_so_far(u),
        compiled(u, n) is Ok,
    ensures
        well_formed_so_far(compiled(u, n)->Ok_0),
{
    let r = compiled(u, n)->Ok_0;
    let a = u.ops.len() as int;
    let b = r.ops.len() as int;
    crate::byte::lemma_compiled_extends(u, n);
    assert(holds(r.ops, u, r));
    assert(r.consts.take(r.consts.len() as int) =~= r.consts);
    walk_expr(r.ops, r.consts, u, n, b);
    lemma_walks_pool(u.ops, u.consts, r.consts, 0, a);
    lemma_walks_more(u.ops, r.ops, r.consts, 0, a);
    lemma_walks_join(r.ops, r.consts, 0, a, b);
}

/// The code of a sequence of expressions keeps the code before it well
/// formed, as the code of one expression does.
pub proof fn law_sequence_keeps_well_formed(u: Unit, xs: Seq<Node>, keep: bool)
    requires
        well_formed_so_far(u),
        sequence(u, xs, xs.len() as int, keep) is Ok,
    ensures
        well_formed_so_far(sequence(u, xs, xs.len() as int, keep)->Ok_0),
{
    let r = sequence(u, xs, xs.len() as int, keep)->Ok_0;
    let a = u.ops.len() as int;
    let b = r.ops.len() as int;
    lemma_sequence_extends(u, xs, xs.len() as int, keep);
    assert(holds(r.ops, u, r));
    assert(r.consts.take(r.consts.len() as int) =~= r.consts);
    walk_seq(r.ops, r.consts, u, xs, xs.len() as int, keep, b);
    lemma_walks_pool(u.ops, u.consts, r.consts, 0, a);
    lemma_walks_more(u.ops, r.ops, r.consts, 0, a);
    lemma_walks_join(r.ops, r.consts, 0, a, b);
}

/// Whether a value, if it is a function, is well formed: the code of its
/// body is well formed over the pool that it holds.
pub open spec fn well_formed_value(v: Node) -> bool {
    v.n is Fun ==> walks(v.n->Fun_ops, v.n->Fun_consts, 0, v.n->Fun_ops.len() as int)
}

/// Whether the functions among the constants of a pool are well formed.
/// Only such a function can be called: a call finds its function at the
/// place of the pool that a name is bound to.
pub open spec fn functions_well_formed(consts: Seq<Node>) -> bool {
    forall|i: int| 0 <= i < consts.len() ==> well_formed_value(#[trigger] consts[i])
}

/// Whether an expression writes down no function value as a literal: the
/// functions of its code are those that its function expressions make.
pub open spec fn writes_no_function(n: Node) -> bool
    decreases n, 0nat,
{
    match n.n {
        Term::Fun { .. } => false,
        Term::Assign { name: _, rhs } => writes_no_function(*rhs),
        Term::DoBlock(xs) => write_no_function(xs, xs.len() as int),
        Term::Lambda { params: _, body } => write_no_function(body, body.len() as int),
        Term::Apply { train: _, args } => write_no_function(args, args.len() as int),
        _ => true,
    }
}

/// Whether the first `k` expressions write down no function value.
pub open spec fn write_no_function(xs: Seq<Node>, k: int) -> bool
    decreases xs, k,
{
    k <= 0 || k > xs.len() || (write_no_function(xs, k - 1) && writes_no_function(xs[k - 1]))
}

/// One more well-formed value leaves the functions of a pool well formed.
pub proof fn lemma_functions_push(consts: Seq<Node>, v: Node)
    requires
        functions_well_formed(consts),
        well_formed_value(v),
    ensures
        functions_well_formed(consts.push(v)),
{
    assert forall|i: int| 0 <= i < consts.push(v).len() implies well_formed_value(
        #[trigger] consts.push(v)[i],
    ) by {
        if i < consts.len() {
            assert(well_formed_value(consts[i]));
        }
    }
}

/// The code that calls a function by its name puts a name into the pool.
pub proof fn lemma_functions_called(u: Unit, name: Seq<char>, dyadic: bool)
    requires
        functions_well_formed(u.consts),
    ensures
        called(u, name, dyadic) matches Ok(r) ==> functions_well_formed(r.consts),
{
    lemma_functions_push(u.consts, val(Term::Str(name)));
}

/// The code of a train puts nothing but names into the pool.
pub proof fn lemma_functions_train(u: Unit, t: Seq<Node>, k: int, two: bool)
    requires
        0 <= k <= t.len(),
        functions_well_formed(u.consts),
    ensures
        train_from(u, t, k, two) matches Ok(r) ==> functions_well_formed(r.consts),
    decreases t.len() - k,
{
    if k < t.len() {
        lemma_functions_train(u, t, k + 1, two);
        if let Ok(u1) = train_from(u, t, k + 1, two) {
            let dyadic = dyadic_at(t, k, two);
            match t[k].n {
                Term::Val(name) => lemma_functions_called(u1, name, dyadic),
                Term::FnVal(name) => lemma_functions_called(u1, name, dyadic),
                _ => {},
            }
        }
    }
}

/// The code that binds parameters puts nothing but names into the pool.
pub proof fn lemma_functions_stored(u: Unit, params: Seq<Seq<char>>, k: int)
    requires
        0 <= k <= params.len(),
        functions_well_formed(u.consts),
    ensures
        stored_from(u, params, k) matches Ok(r) ==> functions_well_formed(r.consts),
    decreases params.len() - k,
{
    if k < params.len() {
        lemma_functions_stored(u, params, k + 1);
        if let Ok(u1) = stored_from(u, params, k + 1) {
            lemma_functions_push(u1.consts, val(Term::Str(params[k])));
        }
    }
}

/// The code of a train in its frame puts nothing but names into the
/// pool.
pub proof fn lemma_functions_framed(u: Unit, open: OP, t: Seq<Node>, two: bool)
    requires
        functions_well_formed(u.consts),
    ensures
        framed(u, open, t, two) matches Ok(r) ==> functions_well_formed(r.consts),
{
    if let Ok(ua) = emitted(u, open) {
        lemma_functions_train(ua, t, 0, two);
    }
}

/// The functions that the code of an expression puts into the pool are
/// well formed: where the functions of the pool are well formed before an
/// expression that writes down no function value is compiled, they are
/// well formed after it. Each function that the expression makes, inside
/// another one too, is among them, with the pool that it holds.
pub proof fn law_functions_stay_well_formed(u: Unit, n: Node)
    requires
        functions_well_formed(u.consts),
        writes_no_function(n),
    ensures
        compiled(u, n) matches Ok(r) ==> functions_well_formed(r.consts),
    decreases n, 1nat,
{
    match n.n {
        Term::Int(_) => lemma_functions_push(u.consts, n),
        Term::Bool(_) => lemma_functions_push(u.consts, n),
        Term::Float(_) => lemma_functions_push(u.consts, n),
        Term::Str(_) => lemma_functions_push(u.consts, n),
        Term::List(_) => {
            if let Ok(v) = frozen(u, n) {
                lemma_functions_push(u.consts, v);
            }
        },
        Term::Val(name) => {
            lemma_functions_push(u.consts, val(Term::Str(name)));
        },
        Term::Assign { .. } => lemma_functions_assign(u, n),
        Term::DoBlock(xs) => law_functions_stay_well_formed_all(u, xs, xs.len() as int, true),
        Term::Lambda { .. } => lemma_functions_lambda(u, n),
        Term::Apply { .. } => lemma_functions_apply(u, n),
        _ => {},
    }
}

/// The functions that the code of a binding puts into the pool are well
/// formed.
pub proof fn lemma_functions_assign(u: Unit, n: Node)
    requires
        n.n is Assign,
        functions_well_formed(u.consts),
        writes_no_function(n),
    ensures
        compiled(u, n) matches Ok(r) ==> functions_well_formed(r.consts),
    decreases n, 0nat,
{
    let name = n.n->Assign_name;
    let rhs = *n.n->Assign_rhs;
    law_functions_stay_well_formed(u, rhs);
    if let Ok(u1) = compiled(u, rhs) {
        lemma_functions_push(u1.consts, val(Term::Str(name)));
    }
}

/// The function that a function expression makes is well formed, and so
/// are the functions that the code of its body put into the pool that it
/// holds.
pub proof fn lemma_functions_lambda(u: Unit, n: Node)
    requires
        n.n is Lambda,
        functions_well_formed(u.consts),
        writes_no_function(n),
    ensures
        compiled(u, n) matches Ok(r) ==> functions_well_formed(r.consts),
    decreases n, 0nat,
{
    let params = n.n->Lambda_params;
    let body = n.n->Lambda_body;
    let sub = Unit { ops: Seq::empty(), hidden: u.hidden + params, ..u };
    lemma_functions_stored(sub, params, 0);
    if let Ok(s1) = stored_from(sub, params, 0) {
        law_functions_stay_well_formed_all(s1, body, body.len() as int, true);
        if let Ok(r) = compiled(u, n) {
            let s2 = sequence(s1, body, body.len() as int, true)->Ok_0;
            let s3 = emitted(s2, OP::END)->Ok_0;
            law_function_is_well_formed(u, n);
            let f = r.consts.last();
            assert(r.consts == s3.consts.push(f));
            lemma_functions_push(s3.consts, f);
        }
    }
}

/// The functions that the code of an application puts into the pool are
/// well formed.
pub proof fn lemma_functions_apply(u: Unit, n: Node)
    requires
        n.n is Apply,
        functions_well_formed(u.consts),
        writes_no_function(n),
    ensures
        compiled(u, n) matches Ok(r) ==> functions_well_formed(r.consts),
    decreases n, 0nat,
{
    let train = n.n->Apply_train;
    let args = n.n->Apply_args;
    if train.len() == 0 {
    } else if args.len() == 1 {
        assert(write_no_function(args, 1));
        assert(writes_no_function(args[0]));
        law_functions_stay_well_formed(u, args[0]);
        if let Ok(u1) = compiled(u, args[0]) {
            lemma_functions_framed(u1, OP::MBL(0), train, false);
        }
    } else if args.len() == 2 {
        assert(write_no_function(args, 2));
        assert(write_no_function(args, 1));
        assert(writes_no_function(args[0]) && writes_no_function(args[1]));
        law_functions_stay_well_formed(u, args[1]);
        if let Ok(u1) = compiled(u, args[1]) {
            law_functions_stay_well_formed(u1, args[0]);
            if let Ok(u2) = compiled(u1, args[0]) {
                lemma_functions_framed(u2, OP::DBL(0), train, true);
            }
        }
    }
}

/// The functions that the code of a sequence of expressions puts into the
/// pool are well formed, as those of one expression are.
pub proof fn law_functions_stay_well_formed_all(u: Unit, xs: Seq<Node>, k: int, keep: bool)
    requires
        functions_well_formed(u.consts),
        write_no_function(xs, k),
    ensures
        sequence(u, xs, k, keep) matches Ok(r) ==> functions_well_formed(r.consts),
    decreases xs, k,
{
    if k <= 0 || k > xs.len() {
    } else {
        law_functions_stay_well_formed_all(u, xs, k - 1, keep);
        if let Ok(u1) = sequence(u, xs, k - 1, keep) {
            law_functions_stay_well_formed(u1, xs[k - 1]);
        }
    }
}

/// The functions in the pool of a program are well formed, where those
/// of the environment are and the line writes down no function value.
pub proof fn law_program_functions_well_formed(env: Scope, ast: Seq<Node>)
    requires
        functions_well_formed(env.consts),
        write_no_function(ast, ast.len() as int),
        program(env, ast) is Ok,
    ensures
        functions_well_formed(program(env, ast)->Ok_0.consts),
{
    law_functions_stay_well_formed_all(opening(env), ast, ast.len() as int, false);
}

/// Whether no expression of a sequence writes down a function value.
pub open spec fn none_writes_function(xs: Seq<Node>) -> bool {
    forall|i: int| 0 <= i < xs.len() ==> writes_no_function(#[trigger] xs[i])
}

/// Where no expression of a sequence writes down a function value, the
/// first `k` of them write down none.
pub proof fn lemma_none_writes(xs: Seq<Node>, k: int)
    requires
        none_writes_function(xs),
    ensures
        write_no_function(xs, k),
    decreases xs.len(), k,
{
    if 0 < k <= xs.len() {
        lemma_none_writes(xs, k - 1);
    }
}

/// An expression that was read writes down no function value.
pub proof fn lemma_expr_writes_none(s: Seq<char>, ts: Seq<Token>, i: int, table: Seq<FloatFact>)
    ensures
        expr(s, ts, i, table) matches Ok((n, j)) ==> writes_no_function(n),
    decreases ts.len() - i, 1nat,
{
    if 0 <= i < ts.len() && ts[i].t is Open {
        lemma_form_writes_none(s, ts, i, table);
    }
}

/// A form that was read writes down no function value.
pub proof fn lemma_form_writes_none(s: Seq<char>, ts: Seq<Token>, i: int, table: Seq<FloatFact>)
    ensures
        form(s, ts, i, table) matches Ok((n, j)) ==> writes_no_function(n),
    decreases ts.len() - i, 0nat,
{
    if let Ok((n, j)) = form(s, ts, i, table) {
        let none = Seq::<Node>::empty();
        match ts[i + 1].t {
            Tok::Lambda => {
                let at = params_until(s, ts, i + 3, Seq::empty())->Ok_0.1;
                lemma_exprs_write_none(s, ts, at + 1, table, none);
                let body = n.n->Lambda_body;
                lemma_none_writes(body, body.len() as int);
            },
            Tok::Loop => {
                lemma_exprs_write_none(s, ts, i + 2, table, none);
                let xs = n.n->DoBlock_0;
                lemma_none_writes(xs, xs.len() as int);
            },
            Tok::Colon => {
                lemma_expr_writes_none(s, ts, i + 3, table);
            },
            _ => {
                if train_at(ts, i + 1) {
                    let b = train_until(s, ts, i + 1, Seq::empty())->Ok_0.1;
                    lemma_exprs_write_none(s, ts, b + 1, table, none);
                    let args = n.n->Apply_args;
                    lemma_none_writes(args, args.len() as int);
                }
            },
        }
    }
}

/// Expressions that were read write down no function value.
pub proof fn lemma_exprs_write_none(
    s: Seq<char>,
    ts: Seq<Token>,
    i: int,
    table: Seq<FloatFact>,
    acc: Seq<Node>,
)
    requires
        none_writes_function(acc),
    ensures
        exprs_until(s, ts, i, table, acc) matches Ok((xs, k)) ==> none_writes_function(xs),
    decreases ts.len() - i, 2nat,
{
    if 0 <= i < ts.len() && !(ts[i].t is Close) {
        lemma_expr_writes_none(s, ts, i, table);
        if let Ok((n, j)) = expr(s, ts, i, table) {
            if i < j <= ts.len() {
                assert forall|a: int| 0 <= a < acc.push(n).len() implies writes_no_function(
                    #[trigger] acc.push(n)[a],
                ) by {
                    if a < acc.len() {
                        assert(acc.push(n)[a] == acc[a]);
                    }
                }
                lemma_exprs_write_none(s, ts, j, table, acc.push(n));
            }
        }
    }
}

/// The expressions of a line that was read write down no function value.
pub proof fn lemma_line_writes_none(
    s: Seq<char>,
    ts: Seq<Token>,
    i: int,
    table: Seq<FloatFact>,
    acc: Seq<Node>,
)
    requires
        none_writes_function(acc),
    ensures
        exprs_from(s, ts, i, table, acc) matches Ok(xs) ==> none_writes_function(xs),
    decreases ts.len() - i,
{
    if 0 <= i < ts.len() {
        lemma_expr_writes_none(s, ts, i, table);
        if let Ok((n, j)) = expr(s, ts, i, table) {
            if i < j <= ts.len() {
                assert forall|a: int| 0 <= a < acc.push(n).len() implies writes_no_function(
                    #[trigger] acc.push(n)[a],
                ) by {
                    if a < acc.len() {
                        assert(acc.push(n)[a] == acc[a]);
                    }
                }
                lemma_line_writes_none(s, ts, j, table, acc.push(n));
            }
        }
    }
}

/// Every function in the pool of a program that was read and compiled is
/// well formed, where those of the environment are: the reader gives no
/// expression that writes down a function value, so each function of the
/// program was made by the compiler.
pub proof fn law_read_functions_well_formed(env: Scope, s: Seq<char>, table: Seq<FloatFact>)
    requires
        functions_well_formed(env.consts),
        read(s, table) is Ok,
        program(env, read(s, table)->Ok_0) is Ok,
    ensures
        write_no_function(read(s, table)->Ok_0, read(s, table)->Ok_0.len() as int),
        functions_well_formed(program(env, read(s, table)->Ok_0)->Ok_0.consts),
{
    let ast = read(s, table)->Ok_0;
    lemma_line_writes_none(s, tokens(s)->Ok_0, 0, table, Seq::empty());
    lemma_none_writes(ast, ast.len() as int);
    law_program_functions_well_formed(env, ast);
}

/// An instruction that succeeds leaves the constants of the pool at their
/// places; it may put one more behind them.
pub proof fn lemma_step_keeps_pool(m: Machine)
    ensures
        step(m) matches Ok(m2) ==> m2.consts.len() >= m.consts.len() && m2.consts.take(
            m.consts.len() as int,
        ) == m.consts,
{
    if let Ok(m2) = step(m) {
        assert(m2.consts.take(m.consts.len() as int) =~= m.consts);
    }
}

/// A run leaves the code as it is and the constants of the pool at their
/// places, so code that is well formed before a run is well formed after
/// it, over the pool as the run leaves it.
pub proof fn law_run_keeps_code_well_formed(m: Machine, from: int, to: int)
    requires
        walks(m.ops, m.consts, from, to),
    ensures
        run(m).0.ops == m.ops,
        run(m).0.consts.len() >= m.consts.len(),
        run(m).0.consts.take(m.consts.len() as int) == m.consts,
        walks(run(m).0.ops, run(m).0.consts, from, to),
    decreases m.fuel,
{
    if halted(m) || m.fuel == 0 || step(m) is Err {
        assert(m.consts.take(m.consts.len() as int) =~= m.consts);
    } else {
        let m1 = step(m)->Ok_0;
        lemma_step_keeps_pool(m);
        crate::sim::lemma_step_keeps(m);
        assert(crate::sim::next(m) == step(m)) by {
            reveal(crate::sim::next);
        }
        let m2 = Machine { depth: m.depth, fuel: (m.fuel - 1) as nat, ..m1 };
        assert(m2 == m1);
        lemma_walks_pool(m.ops, m.consts, m1.consts, from, to);
        law_run_keeps_code_well_formed(m1, from, to);
        let end = run(m1).0;
        assert(end.consts.take(m.consts.len() as int) =~= end.consts.take(
            m1.consts.len() as int,
        ).take(m.consts.len() as int));
    }
}

} // verus!
