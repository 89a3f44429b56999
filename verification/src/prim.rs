//! The primitives and combinators on values.

use rayon::iter::IndexedParallelIterator;
use rayon::iter::IntoParallelRefIterator;
use rayon::iter::ParallelIterator;
use vstd::prelude::*;

use crate::ast::{bool_int, bool_to_int, lemma_term_of, nodes_of, val, E, FN, NN, Node, Term};
use crate::err::{Fault, LErrEnum};
use crate::num::{find_floor, find_quotient, floor_in, quotient_in, FloatFact, FloatOp};

verus! {

/// Whether a computed result is the one that a specification gives: the
/// same value, or the same failure.
pub open spec fn agrees(r: Result<NN, LErrEnum>, s: Result<Node, Fault>) -> bool {
    match (r, s) {
        (Ok(v), Ok(w)) => v@ == w,
        (Err(e), Err(f)) => e@ == f,
        _ => false,
    }
}

/// The mathematical content of a result.
pub open spec fn result_of(r: Result<NN, LErrEnum>) -> Result<Node, Fault> {
    match r {
        Ok(v) => Ok(v@),
        Err(e) => Err(e@),
    }
}

/// The integer that a scalar counts as in arithmetic: an integer itself, a
/// truth value as 0 or 1. Nothing else is a number here.
pub open spec fn as_int(t: Term) -> Option<int> {
    match t {
        Term::Int(i) => Some(i as int),
        Term::Bool(b) => Some(bool_int(b) as int),
        _ => None,
    }
}

/// An integer result of the primitive `f`: the integer as a value where
/// it fits 32 bits, an arithmetic failure where it does not.
pub open spec fn int_result(f: FN, x: int) -> Result<Node, Fault> {
    if i32::MIN <= x <= i32::MAX {
        Ok(val(Term::Int(x as i32)))
    } else {
        Err(Fault::Arithmetic(f))
    }
}

/// The remainder of `a` by `w` that has the sign of `w`.
pub open spec fn floor_mod(a: int, w: int) -> int
    recommends
        w != 0,
{
    let m = a % w;
    if w < 0 && m != 0 {
        m + w
    } else {
        m
    }
}

/// A dyadic arithmetic primitive on two scalars, `l` on the left and `r` on
/// the right. Both must count as integers. Addition, subtraction, maximum
/// and minimum are those of the integers, but the maximum of two truth values
/// is their disjunction. The remainder and the quotient divide the right
/// argument by the left one. The quotient is a 64-bit number taken from
/// `table`.
pub open spec fn scalar_dyad(f: FN, l: Term, r: Term, table: Seq<FloatFact>) -> Result<
    Node,
    Fault,
> {
    match (as_int(l), as_int(r)) {
        (Some(w), Some(a)) => match f {
            FN::Plus => int_result(f, w + a),
            FN::Minus => int_result(f, w - a),
            FN::Max => if l is Bool && r is Bool {
                Ok(val(Term::Bool(w == 1 || a == 1)))
            } else {
                int_result(
                    f,
                    if w >= a {
                        w
                    } else {
                        a
                    },
                )
            },
            FN::Min => int_result(
                f,
                if w <= a {
                    w
                } else {
                    a
                },
            ),
            FN::Bang => if w == 0 {
                Err(Fault::Arithmetic(f))
            } else {
                int_result(f, floor_mod(a, w))
            },
            FN::Div => if w == 0 {
                Err(Fault::Arithmetic(f))
            } else {
                match quotient_in(table, a as i32, w as i32) {
                    Some(bits) => Ok(val(Term::Float(bits))),
                    None => Err(Fault::FloatNeeded(FloatOp::Divide { num: a as i32, den: w as i32 })),
                }
            },
            _ => Err(Fault::NotImplemented(f)),
        },
        _ => Err(Fault::Type(f)),
    }
}

/// A dyadic arithmetic primitive on two values. Two lists must have the same
/// length, and the result is the list of the results on their elements, or
/// the failure of the first element that fails. A list and a scalar do not
/// go together.
pub open spec fn lanes(f: FN, l: Node, r: Node, table: Seq<FloatFact>) -> Result<Node, Fault>
    decreases l,
{
    match (l.n, r.n) {
        (Term::List(x), Term::List(y)) => if x.len() != y.len() {
            Err(Fault::Type(f))
        } else {
            match lanes_all(f, x, y, table) {
                Ok(vs) => Ok(val(Term::List(vs))),
                Err(e) => Err(e),
            }
        },
        (Term::List(_), _) => Err(Fault::Type(f)),
        (_, Term::List(_)) => Err(Fault::Type(f)),
        _ => scalar_dyad(f, l.n, r.n, table),
    }
}

/// A dyadic arithmetic primitive on the elements of two sequences, place by
/// place: the results in order if all are values, else the first failure.
pub open spec fn lanes_all(f: FN, x: Seq<Node>, y: Seq<Node>, table: Seq<FloatFact>) -> Result<
    Seq<Node>,
    Fault,
>
    decreases x,
{
    if x.len() == 0 || y.len() == 0 {
        Ok(Seq::empty())
    } else {
        match lanes_all(f, x.drop_last(), y.drop_last(), table) {
            Err(e) => Err(e),
            Ok(vs) => match lanes(f, x.last(), y.last(), table) {
                Err(e) => Err(e),
                Ok(v) => Ok(vs.push(v)),
            },
        }
    }
}

/// The elements of a list that stand where the other list holds `true`.
pub open spec fn picked(marks: Seq<Node>, items: Seq<Node>) -> Seq<Node>
    recommends
        marks.len() == items.len(),
    decreases marks.len(),
{
    if marks.len() == 0 || items.len() == 0 {
        Seq::empty()
    } else {
        let before = picked(marks.drop_last(), items.drop_last());
        if marks.last().n == Term::Bool(true) {
            before.push(items.last())
        } else {
            before
        }
    }
}

/// The filter: both arguments must be lists of the same length, and the
/// result holds, in order, the elements of the right one that stand where
/// the left one holds `true`.
pub open spec fn filtered(l: Node, r: Node) -> Result<Node, Fault> {
    match (l.n, r.n) {
        (Term::List(x), Term::List(y)) => if x.len() != y.len() {
            Err(Fault::Type(FN::Amp))
        } else {
            Ok(val(Term::List(picked(x, y))))
        },
        _ => Err(Fault::Type(FN::Amp)),
    }
}


/// Where every place gives a value, `lanes_all` gives those values.
pub proof fn lemma_lanes_all_ok(
    f: FN,
    x: Seq<Node>,
    y: Seq<Node>,
    table: Seq<FloatFact>,
    vs: Seq<Node>,
)
    requires
        x.len() == y.len(),
        x.len() == vs.len(),
        forall|i: int| 0 <= i < x.len() ==> lanes(f, x[i], y[i], table) == Ok::<Node, Fault>(vs[i]),
    ensures
        lanes_all(f, x, y, table) == Ok::<Seq<Node>, Fault>(vs),
    decreases x.len(),
{
    if x.len() == 0 {
        assert(vs =~= Seq::empty());
    } else {
        lemma_lanes_all_ok(f, x.drop_last(), y.drop_last(), table, vs.drop_last());
        assert(vs.drop_last().push(vs.last()) =~= vs);
    }
}

/// Where place `k` fails and every place before it gives a value,
/// `lanes_all` gives the failure of place `k`.
pub proof fn lemma_lanes_all_err(
    f: FN,
    x: Seq<Node>,
    y: Seq<Node>,
    table: Seq<FloatFact>,
    k: int,
    e: Fault,
)
    requires
        x.len() == y.len(),
        0 <= k < x.len(),
        lanes(f, x[k], y[k], table) == Err::<Node, Fault>(e),
        forall|j: int| 0 <= j < k ==> lanes(f, x[j], y[j], table) is Ok,
    ensures
        lanes_all(f, x, y, table) == Err::<Seq<Node>, Fault>(e),
    decreases x.len(),
{
    if k == x.len() - 1 {
        let vs = Seq::new(k as nat, |j: int| lanes(f, x[j], y[j], table)->Ok_0);
        lemma_lanes_all_ok(f, x.drop_last(), y.drop_last(), table, vs);
    } else {
        lemma_lanes_all_err(f, x.drop_last(), y.drop_last(), table, k, e);
    }
}

/// The integer that a scalar counts as in arithmetic.
pub fn int_of(e: &E) -> (r: Option<i32>)
    ensures
        match r {
            Some(i) => as_int(e@) == Some(i as int),
            None => as_int(e@) is None,
        },
{
    match e {
        E::INT(i) => Some(*i),
        E::BOOL(b) => Some(bool_to_int(*b)),
        _ => None,
    }
}

/// The integer `x` as a result of the primitive `f`.
pub fn int_value(f: FN, x: i64) -> (r: Result<NN, LErrEnum>)
    ensures
        agrees(r, int_result(f, x as int)),
{
    if -2147483648 <= x && x <= 2147483647 {
        Ok(NN::nd(E::INT(x as i32)))
    } else {
        Err(LErrEnum::Arithmetic(f))
    }
}

/// The remainder of `a` by `w` that has the sign of `w`.
pub fn rem_floor(a: i32, w: i32) -> (m: i64)
    requires
        w != 0,
    ensures
        m == floor_mod(a as int, w as int),
        -2147483648 <= m <= 2147483647,
{
    let aa: u64 = if a < 0 {
        (-(a as i64)) as u64
    } else {
        a as u64
    };
    let ww: u64 = if w < 0 {
        (-(w as i64)) as u64
    } else {
        w as u64
    };
    let m0: u64 = aa % ww;
    // the remainder of `a` by the size of `w`, never negative
    let m1: u64 = if a < 0 && m0 != 0 {
        ww - m0
    } else {
        m0
    };
    proof {
        let ai = a as int;
        let wi = ww as int;
        if a < 0 {
            vstd::arithmetic::div_mod::lemma_fundamental_div_mod(-ai, wi);
            let q = (-ai) / wi;
            if m0 != 0 {
                assert(ai == (-q - 1) * wi + (wi - m0)) by (nonlinear_arith)
                    requires
                        -ai == wi * q + m0,
                ;
                vstd::arithmetic::div_mod::lemma_fundamental_div_mod_converse(
                    ai,
                    wi,
                    -q - 1,
                    wi - m0,
                );
            } else {
                assert(ai == (-q) * wi + 0) by (nonlinear_arith)
                    requires
                        -ai == wi * q + m0,
                        m0 == 0,
                ;
                vstd::arithmetic::div_mod::lemma_fundamental_div_mod_converse(ai, wi, -q, 0);
            }
        }
        assert(m1 == ai % wi);
        if w < 0 {
            lemma_mod_by_negative(ai, wi);
        }
    }
    if w < 0 && m1 != 0 {
        (m1 as i64) + (w as i64)
    } else {
        m1 as i64
    }
}

/// The remainder by a negative number is the remainder by its size.
pub proof fn lemma_mod_by_negative(a: int, w: int)
    requires
        w > 0,
    ensures
        a % (-w) == a % w,
{
    vstd::arithmetic::div_mod::lemma_fundamental_div_mod(a, w);
    let q = a / w;
    let r = a % w;
    assert(a == (-q) * (-w) + r) by (nonlinear_arith)
        requires
            a == w * q + r,
    ;
    lemma_mod_unique(a, -w, -q, r);
}

/// A remainder is fixed by the quotient equation and its range, whatever
/// the sign of the divisor.
pub proof fn lemma_mod_unique(a: int, d: int, q: int, r: int)
    requires
        d != 0,
        a == q * d + r,
        0 <= r,
        d > 0 ==> r < d,
        d < 0 ==> r < -d,
    ensures
        a % d == r,
{
    if d > 0 {
        vstd::arithmetic::div_mod::lemma_fundamental_div_mod_converse(a, d, q, r);
    } else {
        assert(a % d == r) by (nonlinear_arith)
            requires
                d < 0,
                a == q * d + r,
                0 <= r < -d,
        ;
    }
}


/// Applies a dyadic arithmetic primitive to two scalars.
pub fn scalar(f: FN, l: &E, r: &E, floats: &Vec<FloatFact>) -> (res: Result<NN, LErrEnum>)
    ensures
        agrees(res, scalar_dyad(f, l@, r@, floats@)),
{
    let (w, a) = match (int_of(l), int_of(r)) {
        (Some(w), Some(a)) => (w, a),
        _ => {
            return Err(LErrEnum::Type(f));
        },
    };
    match f {
        FN::Plus => int_value(f, w as i64 + a as i64),
        FN::Minus => int_value(f, w as i64 - a as i64),
        FN::Max => {
            match (l, r) {
                (E::BOOL(p), E::BOOL(q)) => Ok(NN::nd(E::BOOL(*p || *q))),
                _ => int_value(
                    f,
                    if w >= a {
                        w as i64
                    } else {
                        a as i64
                    },
                ),
            }
        },
        FN::Min => int_value(
            f,
            if w <= a {
                w as i64
            } else {
                a as i64
            },
        ),
        FN::Bang => {
            if w == 0 {
                Err(LErrEnum::Arithmetic(f))
            } else {
                int_value(f, rem_floor(a, w))
            }
        },
        FN::Div => {
            if w == 0 {
                Err(LErrEnum::Arithmetic(f))
            } else {
                match find_quotient(floats, a, w) {
                    Some(bits) => Ok(NN::nd(E::FT(bits))),
                    None => Err(LErrEnum::FloatNeeded(FloatOp::Divide { num: a, den: w })),
                }
            }
        },
        _ => Err(LErrEnum::NotImplemented(f)),
    }
}

/// Applies a dyadic arithmetic primitive to the elements of two vectors of
/// the same length, place by place, the places spread over the threads of
/// `rayon`'s pool (`par_iter`, `zip`, `map` and `collect` of its indexed
/// parallel iterators). The contract claims that `collect` keeps the
/// places in order, and that each place holds what `do_lanes` returns for
/// the two elements at that place.
#[verifier::external_body]
fn par_zip(f: FN, x: &Vec<NN>, y: &Vec<NN>, floats: &Vec<FloatFact>) -> (out: Vec<
    Result<NN, LErrEnum>,
>)
    requires
        x.len() == y.len(),
    ensures
        out.len() == x.len(),
        forall|i: int|
            0 <= i < x.len() ==> result_of(#[trigger] out[i]) == lanes(f, x[i]@, y[i]@, floats@),
{
    x.par_iter().zip(y.par_iter()).map(|(a, b)| do_lanes(f, a, b, floats)).collect()
}

/// The values of a vector of results in order if all are values, else the
/// first failure.
pub fn collect(rs: &Vec<Result<NN, LErrEnum>>) -> (r: Result<Vec<NN>, LErrEnum>)
    ensures
        match r {
            Ok(vs) => vs.len() == rs.len() && forall|i: int|
                0 <= i < rs.len() ==> result_of(#[trigger] rs[i]) == Ok::<Node, Fault>(vs[i]@),
            Err(e) => exists|k: int|
                0 <= k < rs.len() && result_of(#[trigger] rs[k]) == Err::<Node, Fault>(e@)
                    && forall|j: int| 0 <= j < k ==> (#[trigger] rs[j]) is Ok,
        },
{
    let mut vs: Vec<NN> = Vec::new();
    let mut i: usize = 0;
    while i < rs.len()
        invariant
            i <= rs.len(),
            vs.len() == i,
            forall|j: int| 0 <= j < i ==> result_of(#[trigger] rs[j]) == Ok::<Node, Fault>(vs[j]@),
        decreases rs.len() - i,
    {
        match &rs[i] {
            Ok(v) => {
                vs.push(v.clone());
            },
            Err(e) => {
                let e2 = e.clone();
                assert(result_of(rs[i as int]) == Err::<Node, Fault>(e2@));
                assert forall|j: int| 0 <= j < i implies (#[trigger] rs[j]) is Ok by {
                    assert(result_of(rs[j]) is Ok);
                }
                return Err(e2);
            },
        }
        i += 1;
    }
    Ok(vs)
}

/// Applies a dyadic arithmetic primitive to two lists, element by element.
pub fn do_conversion(f: FN, x: &Vec<NN>, y: &Vec<NN>, floats: &Vec<FloatFact>) -> (res: Result<
    NN,
    LErrEnum,
>)
    ensures
        agrees(
            res,
            if x.len() != y.len() {
                Err(Fault::Type(f))
            } else {
                match lanes_all(f, nodes_of(x@), nodes_of(y@), floats@) {
                    Ok(vs) => Ok(val(Term::List(vs))),
                    Err(e) => Err(e),
                }
            },
        ),
{
    if x.len() != y.len() {
        return Err(LErrEnum::Type(f));
    }
    let rs = par_zip(f, x, y, floats);
    match collect(&rs) {
        Ok(vs) => {
            let out = NN::nd(E::LIST(vs));
            proof {
                lemma_term_of(out.n);
                assert forall|i: int| 0 <= i < x.len() implies lanes(
                    f,
                    nodes_of(x@)[i],
                    nodes_of(y@)[i],
                    floats@,
                ) == Ok::<Node, Fault>(nodes_of(vs@)[i]) by {
                    assert(result_of(rs[i]) == Ok::<Node, Fault>(vs[i]@));
                }
                lemma_lanes_all_ok(f, nodes_of(x@), nodes_of(y@), floats@, nodes_of(vs@));
            }
            Ok(out)
        },
        Err(e) => {
            proof {
                let k = choose|k: int|
                    0 <= k < rs.len() && result_of(#[trigger] rs[k]) == Err::<Node, Fault>(e@)
                        && forall|j: int| 0 <= j < k ==> (#[trigger] rs[j]) is Ok;
                assert forall|j: int| 0 <= j < k implies lanes(
                    f,
                    nodes_of(x@)[j],
                    nodes_of(y@)[j],
                    floats@,
                ) is Ok by {
                    assert(rs[j] is Ok);
                    assert(result_of(rs[j]) is Ok);
                }
                assert(result_of(rs[k]) == lanes(f, x[k]@, y[k]@, floats@));
                lemma_lanes_all_err(f, nodes_of(x@), nodes_of(y@), floats@, k, e@);
            }
            Err(e)
        },
    }
}

/// Applies a dyadic arithmetic primitive to two values: to two scalars, or
/// to two lists element by element.
pub fn do_lanes(f: FN, lhs: &NN, rhs: &NN, floats: &Vec<FloatFact>) -> (res: Result<NN, LErrEnum>)
    ensures
        agrees(res, lanes(f, lhs@, rhs@, floats@)),
{
    proof {
        lemma_term_of(lhs.n);
        lemma_term_of(rhs.n);
    }
    match (&lhs.n, &rhs.n) {
        (E::LIST(x), E::LIST(y)) => do_conversion(f, x, y, floats),
        (E::LIST(_), _) => Err(LErrEnum::Type(f)),
        (_, E::LIST(_)) => Err(LErrEnum::Type(f)),
        _ => scalar(f, &lhs.n, &rhs.n, floats),
    }
}


/// The filter: the elements of the right list that stand where the left
/// list holds `true`.
pub fn do_amp(lhs: &NN, rhs: &NN) -> (res: Result<NN, LErrEnum>)
    ensures
        agrees(res, filtered(lhs@, rhs@)),
{
    proof {
        lemma_term_of(lhs.n);
        lemma_term_of(rhs.n);
    }
    match (&lhs.n, &rhs.n) {
        (E::LIST(l), E::LIST(a)) => {
            if l.len() != a.len() {
                return Err(LErrEnum::Type(FN::Amp));
            }
            let mut out: Vec<NN> = Vec::new();
            let mut i: usize = 0;
            assert(nodes_of(l@).take(0) =~= Seq::empty());
            while i < l.len()
                invariant
                    i <= l.len(),
                    l.len() == a.len(),
                    nodes_of(out@) == picked(nodes_of(l@).take(i as int), nodes_of(a@).take(i as int)),
                decreases l.len() - i,
            {
                let ghost before = nodes_of(out@);
                let keep = match &l[i].n {
                    E::BOOL(true) => true,
                    _ => false,
                };
                if keep {
                    out.push(a[i].clone());
                }
                proof {
                    let m = nodes_of(l@).take(i as int + 1);
                    let t = nodes_of(a@).take(i as int + 1);
                    assert(m.drop_last() =~= nodes_of(l@).take(i as int));
                    assert(t.drop_last() =~= nodes_of(a@).take(i as int));
                    assert(m.last() == l[i as int]@);
                    assert(t.last() == a[i as int]@);
                    assert(keep == (m.last().n == Term::Bool(true)));
                    if keep {
                        assert(nodes_of(out@) =~= before.push(t.last()));
                    } else {
                        assert(nodes_of(out@) =~= before);
                    }
                }
                i += 1;
            }
            assert(nodes_of(l@).take(i as int) =~= nodes_of(l@));
            assert(nodes_of(a@).take(i as int) =~= nodes_of(a@));
            let r = NN::nd(E::LIST(out));
            proof {
                lemma_term_of(r.n);
            }
            Ok(r)
        },
        _ => Err(LErrEnum::Type(FN::Amp)),
    }
}

/// The test for zero: of an integer whether it is zero, of a list the list
/// of the tests of its elements.
pub open spec fn zero_test(r: Node) -> Result<Node, Fault>
    decreases r,
{
    match r.n {
        Term::Int(i) => Ok(val(Term::Bool(i == 0))),
        Term::List(x) => match zero_tests(x) {
            Ok(vs) => Ok(val(Term::List(vs))),
            Err(e) => Err(e),
        },
        _ => Err(Fault::Type(FN::Eq)),
    }
}

/// The tests for zero of the elements of a sequence, in order, or the
/// first failure.
pub open spec fn zero_tests(x: Seq<Node>) -> Result<Seq<Node>, Fault>
    decreases x,
{
    if x.len() == 0 {
        Ok(Seq::empty())
    } else {
        match zero_tests(x.drop_last()) {
            Err(e) => Err(e),
            Ok(vs) => match zero_test(x.last()) {
                Err(e) => Err(e),
                Ok(v) => Ok(vs.push(v)),
            },
        }
    }
}

/// The integers from zero up to, and without, `n`.
pub open spec fn range(n: int) -> Seq<Node> {
    Seq::new(
        if n > 0 {
            n as nat
        } else {
            0
        },
        |i: int| val(Term::Int(i as i32)),
    )
}

/// A monadic primitive on a value. Negation is of an integer, the floor of
/// a 64-bit number and taken from `table`, the test for zero of an integer
/// or a list, the range of an integer, and the array of zeros of a shape.
/// The other primitives have no monadic meaning.
pub open spec fn monad(f: FN, r: Node, table: Seq<FloatFact>) -> Result<Node, Fault> {
    match f {
        FN::Minus => match r.n {
            Term::Int(i) => int_result(f, -(i as int)),
            _ => Err(Fault::Type(f)),
        },
        FN::Min => match r.n {
            Term::Float(bits) => match floor_in(table, bits) {
                Some(i) => Ok(val(Term::Int(i))),
                None => Err(Fault::FloatNeeded(FloatOp::Floor { bits })),
            },
            _ => Err(Fault::Type(f)),
        },
        FN::Eq => zero_test(r),
        FN::Bang => match r.n {
            Term::Int(n) => Ok(val(Term::List(range(n as int)))),
            _ => Err(Fault::Type(f)),
        },
        FN::Rho => reshaped(r, val(Term::Int(0))),
        _ => Err(Fault::NotImplemented(f)),
    }
}

/// A dyadic primitive on two values, `l` on the left and `r` on the right.
pub open spec fn dyad(f: FN, l: Node, r: Node, table: Seq<FloatFact>) -> Result<Node, Fault> {
    match f {
        FN::Mult => Err(Fault::NotImplemented(f)),
        FN::Eq => Err(Fault::NotImplemented(f)),
        FN::Amp => filtered(l, r),
        FN::Rho => reshaped(l, r),
        _ => lanes(f, l, r, table),
    }
}

/// The dimensions that a shape names: an integer names one, a list of
/// integers names each of its elements.
pub open spec fn dims_of(shape: Node) -> Option<Seq<int>> {
    match shape.n {
        Term::Int(n) => Some(seq![n as int]),
        Term::List(x) => if forall|i: int| 0 <= i < x.len() ==> (#[trigger] x[i]).n is Int {
            Some(Seq::new(x.len(), |i: int| x[i].n->Int_0 as int))
        } else {
            None
        },
        _ => None,
    }
}

/// The product of the dimensions: how many elements an array of that shape
/// holds.
pub open spec fn product(d: Seq<int>) -> int
    decreases d.len(),
{
    if d.len() == 0 {
        1
    } else {
        product(d.drop_last()) * d.last()
    }
}

/// The elements that a reshape draws from: those of a list, or the one
/// scalar.
pub open spec fn source_of(src: Node) -> Seq<Node> {
    match src.n {
        Term::List(x) => x,
        _ => seq![src],
    }
}

/// How many lists or scalars the widest level of an array of the
/// dimensions holds: the product of the dimensions from the last one down,
/// as far as none of them is zero. Below an empty list nothing is built, so
/// the dimensions before a zero do not count.
pub open spec fn bulk(d: Seq<int>) -> int
    decreases d.len(),
{
    if d.len() == 0 || d.last() <= 0 {
        1
    } else {
        d.last() * bulk(d.drop_last())
    }
}

/// The array of the dimensions `d` that holds, read row by row, the
/// elements of `src` from place `at` on, starting over at the end of `src`.
/// The last dimension counts the rows, the first one the elements of the
/// innermost lists.
pub open spec fn grid(d: Seq<int>, src: Seq<Node>, at: int) -> Node
    recommends
        src.len() > 0,
    decreases d.len(), 1nat, 0nat,
{
    if d.len() == 0 {
        src[at % (src.len() as int)]
    } else if d.last() <= 0 {
        val(Term::List(Seq::empty()))
    } else {
        val(Term::List(rows(d, src, at, d.last() as nat)))
    }
}

/// The first `k` rows of the array of the dimensions `d`.
pub open spec fn rows(d: Seq<int>, src: Seq<Node>, at: int, k: nat) -> Seq<Node>
    recommends
        d.len() > 0,
        src.len() > 0,
    decreases d.len(), 0nat, k,
{
    if d.len() == 0 || k == 0 {
        Seq::empty()
    } else {
        rows(d, src, at, (k - 1) as nat).push(
            grid(d.drop_last(), src, at + (k - 1) * product(d.drop_last())),
        )
    }
}

/// The reshape: the array of the shape `shape` filled from `src`. A shape
/// that is no integer and no list of integers is a type failure; a negative
/// dimension, or an array with more lists or scalars at one level than an
/// `i32` counts, an arithmetic failure; and nothing to fill an array with
/// from, an empty-domain failure. An array with a dimension of zero holds no
/// scalars: it is built from any source, an empty one too.
pub open spec fn reshaped(shape: Node, src: Node) -> Result<Node, Fault> {
    match dims_of(shape) {
        None => Err(Fault::Type(FN::Rho)),
        Some(d) => if exists|i: int| 0 <= i < d.len() && #[trigger] d[i] < 0 {
            Err(Fault::Arithmetic(FN::Rho))
        } else if bulk(d) > i32::MAX {
            Err(Fault::Arithmetic(FN::Rho))
        } else if source_of(src).len() == 0 {
            if product(d) > 0 {
                Err(Fault::EmptyDomain(FN::Rho))
            } else {
                Ok(grid(d, seq![val(Term::Int(0))], 0))
            }
        } else {
            Ok(grid(d, source_of(src), 0))
        },
    }
}


/// A failure among the first tests is the failure of the whole sequence.
pub proof fn lemma_zero_tests_err(x: Seq<Node>, k: int, e: Fault)
    requires
        0 <= k <= x.len(),
        zero_tests(x.take(k)) == Err::<Seq<Node>, Fault>(e),
    ensures
        zero_tests(x) == Err::<Seq<Node>, Fault>(e),
    decreases x.len() - k,
{
    if k == x.len() {
        assert(x.take(k) =~= x);
    } else {
        assert(x.take(k + 1).drop_last() =~= x.take(k));
        lemma_zero_tests_err(x, k + 1, e);
    }
}

/// Negation of an integer.
pub fn mo_minus(rhs: &NN) -> (res: Result<NN, LErrEnum>)
    ensures
        forall|table: Seq<FloatFact>| agrees(res, #[trigger] monad(FN::Minus, rhs@, table)),
{
    match rhs.n {
        E::INT(i) => int_value(FN::Minus, -(i as i64)),
        _ => Err(LErrEnum::Type(FN::Minus)),
    }
}

/// The floor of a 64-bit number, taken from the table.
pub fn mo_min(rhs: &NN, floats: &Vec<FloatFact>) -> (res: Result<NN, LErrEnum>)
    ensures
        agrees(res, monad(FN::Min, rhs@, floats@)),
{
    match rhs.n {
        E::FT(bits) => match find_floor(floats, bits) {
            Some(i) => Ok(NN::nd(E::INT(i))),
            None => Err(LErrEnum::FloatNeeded(FloatOp::Floor { bits })),
        },
        _ => Err(LErrEnum::Type(FN::Min)),
    }
}

/// The test for zero of an integer, or of each element of a list.
#[verifier::loop_isolation(false)]
pub fn mo_eq(rhs: &NN) -> (res: Result<NN, LErrEnum>)
    ensures
        agrees(res, zero_test(rhs@)),
    decreases rhs,
{
    proof {
        lemma_term_of(rhs.n);
    }
    match &rhs.n {
        E::INT(i) => Ok(NN::nd(E::BOOL(*i == 0))),
        E::LIST(l) => {
            let mut out: Vec<NN> = Vec::new();
            let mut i: usize = 0;
            assert(nodes_of(l@).take(0) =~= Seq::empty());
            assert(nodes_of(out@) =~= Seq::empty());
            while i < l.len()
                invariant
                    i <= l.len(),
                    out.len() == i,
                    zero_tests(nodes_of(l@).take(i as int)) == Ok::<Seq<Node>, Fault>(
                        nodes_of(out@),
                    ),
                decreases l.len() - i,
            {
                let ghost before = nodes_of(out@);
                assert(nodes_of(l@).take(i as int + 1).drop_last() =~= nodes_of(l@).take(i as int));
                assert(nodes_of(l@).take(i as int + 1).last() == l[i as int]@);
                match mo_eq(&l[i]) {
                    Ok(v) => {
                        out.push(v);
                        assert(nodes_of(out@) =~= before.push(v@));
                    },
                    Err(e) => {
                        proof {
                            lemma_zero_tests_err(nodes_of(l@), i as int + 1, e@);
                        }
                        return Err(e);
                    },
                }
                i += 1;
            }
            assert(nodes_of(l@).take(i as int) =~= nodes_of(l@));
            let r = NN::nd(E::LIST(out));
            proof {
                lemma_term_of(r.n);
            }
            Ok(r)
        },
        _ => Err(LErrEnum::Type(FN::Eq)),
    }
}

/// The list of the integers from zero up to, and without, an integer.
pub fn mo_bang(rhs: &NN) -> (res: Result<NN, LErrEnum>)
    ensures
        forall|table: Seq<FloatFact>| agrees(res, #[trigger] monad(FN::Bang, rhs@, table)),
{
    match rhs.n {
        E::INT(n) => {
            let mut out: Vec<NN> = Vec::new();
            let mut i: i32 = 0;
            while i < n
                invariant
                    0 <= i,
                    i <= n || i == 0,
                    out.len() == i,
                    forall|j: int| 0 <= j < i ==> (#[trigger] out[j])@ == val(Term::Int(j as i32)),
                decreases n - i,
            {
                out.push(NN::nd(E::INT(i)));
                i += 1;
            }
            let r = NN::nd(E::LIST(out));
            proof {
                lemma_term_of(r.n);
                assert(nodes_of(out@) =~= range(n as int));
            }
            Ok(r)
        },
        _ => Err(LErrEnum::Type(FN::Bang)),
    }
}

/// A primitive in a role in which it has no meaning.
pub fn mo_temp(f: FN, _rhs: &NN) -> (res: Result<NN, LErrEnum>)
    ensures
        res is Err,
        res->Err_0@ == Fault::NotImplemented(f),
{
    Err(LErrEnum::NotImplemented(f))
}

/// A primitive in a role in which it has no meaning.
pub fn do_temp(f: FN, _lhs: &NN, _rhs: &NN) -> (res: Result<NN, LErrEnum>)
    ensures
        res is Err,
        res->Err_0@ == Fault::NotImplemented(f),
{
    Err(LErrEnum::NotImplemented(f))
}

/// The sum of two values.
pub fn do_plus(lhs: &NN, rhs: &NN) -> (res: Result<NN, LErrEnum>)
    ensures
        forall|table: Seq<FloatFact>| agrees(res, #[trigger] dyad(FN::Plus, lhs@, rhs@, table)),
{
    let floats: Vec<FloatFact> = Vec::new();
    let res = do_lanes(FN::Plus, lhs, rhs, &floats);
    proof {
        assert forall|table: Seq<FloatFact>| agrees(
            res,
            #[trigger] dyad(FN::Plus, lhs@, rhs@, table),
        ) by {
            lemma_lanes_table(FN::Plus, lhs@, rhs@, floats@, table);
        }
    }
    res
}

/// The left value less the right one.
pub fn do_minus(lhs: &NN, rhs: &NN) -> (res: Result<NN, LErrEnum>)
    ensures
        forall|table: Seq<FloatFact>| agrees(res, #[trigger] dyad(FN::Minus, lhs@, rhs@, table)),
{
    let floats: Vec<FloatFact> = Vec::new();
    let res = do_lanes(FN::Minus, lhs, rhs, &floats);
    proof {
        assert forall|table: Seq<FloatFact>| agrees(
            res,
            #[trigger] dyad(FN::Minus, lhs@, rhs@, table),
        ) by {
            lemma_lanes_table(FN::Minus, lhs@, rhs@, floats@, table);
        }
    }
    res
}

/// The larger of two values; of two truth values, whether one holds.
pub fn do_max(lhs: &NN, rhs: &NN) -> (res: Result<NN, LErrEnum>)
    ensures
        forall|table: Seq<FloatFact>| agrees(res, #[trigger] dyad(FN::Max, lhs@, rhs@, table)),
{
    let floats: Vec<FloatFact> = Vec::new();
    let res = do_lanes(FN::Max, lhs, rhs, &floats);
    proof {
        assert forall|table: Seq<FloatFact>| agrees(
            res,
            #[trigger] dyad(FN::Max, lhs@, rhs@, table),
        ) by {
            lemma_lanes_table(FN::Max, lhs@, rhs@, floats@, table);
        }
    }
    res
}

/// The smaller of two values.
pub fn do_min(lhs: &NN, rhs: &NN) -> (res: Result<NN, LErrEnum>)
    ensures
        forall|table: Seq<FloatFact>| agrees(res, #[trigger] dyad(FN::Min, lhs@, rhs@, table)),
{
    let floats: Vec<FloatFact> = Vec::new();
    let res = do_lanes(FN::Min, lhs, rhs, &floats);
    proof {
        assert forall|table: Seq<FloatFact>| agrees(
            res,
            #[trigger] dyad(FN::Min, lhs@, rhs@, table),
        ) by {
            lemma_lanes_table(FN::Min, lhs@, rhs@, floats@, table);
        }
    }
    res
}

/// The remainder of the right value by the left one, with the sign of the
/// left one.
pub fn do_mathmod(lhs: &NN, rhs: &NN) -> (res: Result<NN, LErrEnum>)
    ensures
        forall|table: Seq<FloatFact>| agrees(res, #[trigger] dyad(FN::Bang, lhs@, rhs@, table)),
{
    let floats: Vec<FloatFact> = Vec::new();
    let res = do_lanes(FN::Bang, lhs, rhs, &floats);
    proof {
        assert forall|table: Seq<FloatFact>| agrees(
            res,
            #[trigger] dyad(FN::Bang, lhs@, rhs@, table),
        ) by {
            lemma_lanes_table(FN::Bang, lhs@, rhs@, floats@, table);
        }
    }
    res
}

/// The quotient of the right value by the left one, a 64-bit number taken
/// from the table.
pub fn do_mathdiv(lhs: &NN, rhs: &NN, floats: &Vec<FloatFact>) -> (res: Result<NN, LErrEnum>)
    ensures
        agrees(res, dyad(FN::Div, lhs@, rhs@, floats@)),
{
    do_lanes(FN::Div, lhs, rhs, floats)
}

/// Only the quotient reads the table: the other primitives of arithmetic give
/// the same result whatever it holds.
pub proof fn lemma_lanes_table(
    f: FN,
    l: Node,
    r: Node,
    t1: Seq<FloatFact>,
    t2: Seq<FloatFact>,
)
    requires
        f != FN::Div,
    ensures
        lanes(f, l, r, t1) == lanes(f, l, r, t2),
    decreases l,
{
    match (l.n, r.n) {
        (Term::List(x), Term::List(y)) => {
            if x.len() == y.len() {
                lemma_lanes_all_table(f, x, y, t1, t2);
            }
        },
        _ => {},
    }
}

/// Only the quotient reads the table, place by place.
pub proof fn lemma_lanes_all_table(
    f: FN,
    x: Seq<Node>,
    y: Seq<Node>,
    t1: Seq<FloatFact>,
    t2: Seq<FloatFact>,
)
    requires
        f != FN::Div,
    ensures
        lanes_all(f, x, y, t1) == lanes_all(f, x, y, t2),
    decreases x,
{
    if x.len() == 0 || y.len() == 0 {
    } else {
        lemma_lanes_all_table(f, x.drop_last(), y.drop_last(), t1, t2);
        lemma_lanes_table(f, x.last(), y.last(), t1, t2);
    }
}


/// The integers of a sequence of 32-bit integers.
pub open spec fn ints_of(d: Seq<i32>) -> Seq<int> {
    Seq::new(d.len(), |i: int| d[i] as int)
}

/// The product of one more dimension.
pub proof fn lemma_product_step(d: Seq<int>, k: int)
    requires
        0 <= k < d.len(),
    ensures
        product(d.take(k + 1)) == product(d.take(k)) * d[k],
{
    assert(d.take(k + 1).drop_last() =~= d.take(k));
    assert(d.take(k + 1).last() == d[k]);
}

/// Of dimensions that are not negative, the product is not negative and
/// not above the bulk, and the bulk is at least one.
pub proof fn lemma_product_bounds(d: Seq<int>)
    requires
        forall|i: int| 0 <= i < d.len() ==> #[trigger] d[i] >= 0,
    ensures
        0 <= product(d) <= bulk(d),
        1 <= bulk(d),
    decreases d.len(),
{
    if d.len() > 0 {
        lemma_product_bounds(d.drop_last());
        let p = product(d.drop_last());
        let s = bulk(d.drop_last());
        let x = d.last();
        if x > 0 {
            assert(0 <= p * x <= x * s && 1 <= x * s) by (nonlinear_arith)
                requires
                    0 <= p <= s,
                    1 <= s,
                    x > 0,
            ;
        } else {
            assert(p * x == 0) by (nonlinear_arith)
                requires
                    x == 0,
            ;
        }
    }
}

/// A product, or one more than an `i32` counts where the product is more
/// than that.
pub open spec fn capped(n: int) -> int {
    if n > i32::MAX {
        i32::MAX + 1
    } else {
        n
    }
}

/// The bulk is at least one.
pub proof fn lemma_bulk_positive(d: Seq<int>)
    ensures
        1 <= bulk(d),
    decreases d.len(),
{
    if d.len() > 0 && d.last() > 0 {
        lemma_bulk_positive(d.drop_last());
        let x = d.last();
        let rest = bulk(d.drop_last());
        assert(1 <= x * rest) by (nonlinear_arith)
            requires
                1 <= x,
                1 <= rest,
        ;
    }
}

/// The bulk of the dimensions. `None` where it is more than an `i32`
/// counts.
pub fn bulk_of(d: &Vec<i32>) -> (r: Option<i64>)
    ensures
        match r {
            Some(b) => b == bulk(ints_of(d@)) && b <= i32::MAX,
            None => bulk(ints_of(d@)) > i32::MAX,
        },
{
    let ghost di = ints_of(d@);
    let mut b: i64 = 1;
    let mut i: usize = d.len();
    assert(di.take(i as int) =~= di);
    assert(bulk(di) == 1 * bulk(di));
    while i > 0
        invariant
            di == ints_of(d@),
            i <= d.len(),
            1 <= b <= i32::MAX,
            bulk(di) == b * bulk(di.take(i as int)),
        decreases i,
    {
        let x: i64 = d[i - 1] as i64;
        let ghost rest = bulk(di.take(i as int - 1));
        proof {
            assert(di.take(i as int).drop_last() =~= di.take(i as int - 1));
            assert(di.take(i as int).last() == x);
            lemma_bulk_positive(di.take(i as int - 1));
        }
        if x <= 0 {
            assert(bulk(di.take(i as int)) == 1);
            assert(b * 1 == b);
            return Some(b);
        }
        proof {
            assert(bulk(di.take(i as int)) == x * rest);
            assert(b * (x * rest) == (b * x) * rest && 1 <= b * x <= (b * x) * rest && b * x
                <= 0x7fff_ffff * 0x7fff_ffff) by (nonlinear_arith)
                requires
                    1 <= b <= 0x7fff_ffff,
                    1 <= x <= 0x7fff_ffff,
                    1 <= rest,
            ;
        }
        let b2: i64 = b * x;
        if b2 > 2147483647 {
            return None;
        }
        b = b2;
        i -= 1;
    }
    assert(di.take(0) =~= Seq::empty());
    assert(b * 1 == b);
    Some(b)
}

/// The dimensions that a shape names.
pub fn dims(shape: &NN) -> (r: Option<Vec<i32>>)
    ensures
        match r {
            Some(d) => dims_of(shape@) == Some(ints_of(d@)),
            None => dims_of(shape@) is None,
        },
{
    proof {
        lemma_term_of(shape.n);
    }
    match &shape.n {
        E::INT(n) => {
            let mut d: Vec<i32> = Vec::new();
            d.push(*n);
            assert(ints_of(d@) =~= seq![*n as int]);
            Some(d)
        },
        E::LIST(x) => {
            let mut d: Vec<i32> = Vec::new();
            let mut i: usize = 0;
            while i < x.len()
                invariant
                    i <= x.len(),
                    d.len() == i,
                    shape@.n == Term::List(nodes_of(x@)),
                    forall|j: int| 0 <= j < i ==> (#[trigger] nodes_of(x@)[j]).n == Term::Int(d[j]),
                decreases x.len() - i,
            {
                match x[i].n {
                    E::INT(n) => {
                        d.push(n);
                    },
                    _ => {
                        assert(!(nodes_of(x@)[i as int].n is Int));
                        return None;
                    },
                }
                i += 1;
            }
            assert(ints_of(d@) =~= Seq::new(
                nodes_of(x@).len(),
                |i: int| nodes_of(x@)[i].n->Int_0 as int,
            ));
            Some(d)
        },
        _ => None,
    }
}

/// The products of the first dimensions, each capped: at place `k` that of
/// the first `k`. `None` where a dimension is negative or the bulk does not
/// fit.
pub fn sizes(d: &Vec<i32>) -> (r: Option<Vec<i64>>)
    ensures
        match r {
            Some(cs) => {
                &&& forall|i: int| 0 <= i < d.len() ==> d[i] >= 0
                &&& bulk(ints_of(d@)) <= i32::MAX
                &&& cs.len() == d.len() + 1
                &&& forall|k: int|
                    0 <= k <= d.len() ==> #[trigger] cs[k] == capped(product(ints_of(d@).take(k)))
            },
            None => (exists|i: int| 0 <= i < d.len() && #[trigger] ints_of(d@)[i] < 0) || bulk(
                ints_of(d@),
            ) > i32::MAX,
        },
{
    let ghost di = ints_of(d@);
    let mut i: usize = 0;
    while i < d.len()
        invariant
            i <= d.len(),
            forall|j: int| 0 <= j < i ==> d[j] >= 0,
        decreases d.len() - i,
    {
        if d[i] < 0 {
            assert(ints_of(d@)[i as int] < 0);
            return None;
        }
        i += 1;
    }
    if bulk_of(d).is_none() {
        return None;
    }
    let mut cs: Vec<i64> = Vec::new();
    cs.push(1);
    let mut p: i64 = 1;
    let mut k: usize = 0;
    assert(di.take(0) =~= Seq::empty());
    while k < d.len()
        invariant
            di == ints_of(d@),
            k <= d.len(),
            forall|j: int| 0 <= j < d.len() ==> d[j] >= 0,
            cs.len() == k + 1,
            forall|j: int| 0 <= j <= k ==> #[trigger] cs[j] == capped(product(di.take(j))),
            p == capped(product(di.take(k as int))),
            0 <= p <= i32::MAX + 1,
        decreases d.len() - k,
    {
        let x: i64 = d[k] as i64;
        proof {
            lemma_product_step(di, k as int);
            let pre = di.take(k as int);
            assert forall|j: int| 0 <= j < pre.len() implies #[trigger] pre[j] >= 0 by {
                assert(pre[j] == d[j]);
            }
            lemma_product_bounds(pre);
            let q = product(pre);
            assert(0 <= p * x <= 0x8000_0000 * 0x7fff_ffff) by (nonlinear_arith)
                requires
                    0 <= p <= 0x8000_0000,
                    0 <= x <= 0x7fff_ffff,
            ;
            if q > i32::MAX {
                assert(q * x == 0 && p * x == 0 || q * x > 0x7fff_ffff && p * x > 0x7fff_ffff)
                    by (nonlinear_arith)
                    requires
                        q > 0x7fff_ffff,
                        p == 0x8000_0000,
                        0 <= x,
                ;
            }
        }
        let wider: i64 = p * x;
        p = if wider > 2147483647 {
            2147483648
        } else {
            wider
        };
        cs.push(p);
        k += 1;
    }
    Some(cs)
}

/// Builds the array of the first `k` dimensions of `d`, filled from `src`
/// from place `at` on. `cs` holds the capped products of the first
/// dimensions.
pub fn grid_of(d: &Vec<i32>, cs: &Vec<i64>, k: usize, src: &Vec<NN>, at: i64) -> (r: NN)
    requires
        k <= d.len(),
        cs.len() == d.len() + 1,
        forall|i: int| 0 <= i < d.len() ==> d[i] >= 0,
        forall|j: int|
            0 <= j <= d.len() ==> #[trigger] cs[j] == capped(product(ints_of(d@).take(j))),
        src.len() > 0,
        0 <= at,
        at + product(ints_of(d@).take(k as int)) <= i32::MAX,
    ensures
        r@ == grid(ints_of(d@).take(k as int), nodes_of(src@), at as int),
    decreases k,
{
    let ghost di = ints_of(d@);
    let ghost dk = di.take(k as int);
    if k == 0 {
        let i = (at as usize) % src.len();
        src[i].clone()
    } else {
        let n: i32 = d[k - 1];
        let c: i64 = cs[k - 1];
        let ghost all = product(dk);
        let ghost part = product(dk.drop_last());
        proof {
            lemma_product_step(di, k as int - 1);
            assert(dk.drop_last() =~= di.take(k as int - 1));
            assert(dk.last() == n);
            assert(all == part * n);
            let pre = di.take(k as int - 1);
            assert forall|j: int| 0 <= j < pre.len() implies #[trigger] pre[j] >= 0 by {
                assert(pre[j] == d[j]);
            }
            lemma_product_bounds(pre);
            if n > 0 {
                assert(part <= part * n) by (nonlinear_arith)
                    requires
                        0 <= part,
                        1 <= n,
                ;
            }
        }
        let mut out: Vec<NN> = Vec::new();
        let mut j: i32 = 0;
        assert(nodes_of(out@) =~= rows(dk, nodes_of(src@), at as int, 0));
        while j < n
            invariant
                0 <= j <= n,
                1 <= k <= d.len(),
                di == ints_of(d@),
                dk == di.take(k as int),
                dk.len() == k,
                dk.drop_last() == di.take(k as int - 1),
                cs.len() == d.len() + 1,
                forall|i: int| 0 <= i < d.len() ==> d[i] >= 0,
                forall|j: int| 0 <= j <= d.len() ==> #[trigger] cs[j] == capped(product(di.take(j))),
                src.len() > 0,
                0 <= at,
                0 <= part,
                part == product(dk.drop_last()),
                n > 0 ==> c == part,
                all == part * n,
                at + all <= i32::MAX,
                nodes_of(out@) == rows(dk, nodes_of(src@), at as int, j as nat),
            decreases n - j,
        {
            let ghost before = nodes_of(out@);
            proof {
                assert(0 <= j * c && j * c + c <= c * n) by (nonlinear_arith)
                    requires
                        0 <= j < n,
                        0 <= c,
                ;
            }
            let item = grid_of(d, cs, k - 1, src, at + (j as i64) * c);
            out.push(item);
            proof {
                assert(nodes_of(out@) =~= before.push(item@));
            }
            j += 1;
        }
        let r = NN::nd(E::LIST(out));
        proof {
            lemma_term_of(r.n);
        }
        r
    }
}

/// The reshape: the array of the shape `shape` filled from `src`.
pub fn do_rho(shape: &NN, src: &NN) -> (res: Result<NN, LErrEnum>)
    ensures
        agrees(res, reshaped(shape@, src@)),
{
    let d = match dims(shape) {
        Some(d) => d,
        None => {
            return Err(LErrEnum::Type(FN::Rho));
        },
    };
    let cs = match sizes(&d) {
        Some(cs) => cs,
        None => {
            return Err(LErrEnum::Arithmetic(FN::Rho));
        },
    };
    let ghost di = ints_of(d@);
    proof {
        lemma_term_of(src.n);
        assert(di.take(d.len() as int) =~= di);
        lemma_product_bounds(di);
        assert(!(exists|i: int| 0 <= i < di.len() && #[trigger] di[i] < 0));
    }
    match &src.n {
        E::LIST(x) => {
            if x.len() == 0 {
                if cs[d.len()] > 0 {
                    Err(LErrEnum::EmptyDomain(FN::Rho))
                } else {
                    let mut zero: Vec<NN> = Vec::new();
                    zero.push(NN::nd(E::INT(0)));
                    assert(nodes_of(zero@) =~= seq![val(Term::Int(0))]);
                    Ok(grid_of(&d, &cs, d.len(), &zero, 0))
                }
            } else {
                Ok(grid_of(&d, &cs, d.len(), x, 0))
            }
        },
        _ => {
            let mut one: Vec<NN> = Vec::new();
            one.push(src.clone());
            assert(nodes_of(one@) =~= seq![src@]);
            Ok(grid_of(&d, &cs, d.len(), &one, 0))
        },
    }
}

/// The array of zeros of a shape.
pub fn mo_rho(shape: &NN) -> (res: Result<NN, LErrEnum>)
    ensures
        forall|table: Seq<FloatFact>| agrees(res, #[trigger] monad(FN::Rho, shape@, table)),
{
    let zero = NN::nd(E::INT(0));
    do_rho(shape, &zero)
}

/// Applies a monadic primitive to a value.
pub fn monadic(f: FN, rhs: &NN, floats: &Vec<FloatFact>) -> (res: Result<NN, LErrEnum>)
    ensures
        agrees(res, monad(f, rhs@, floats@)),
{
    match f {
        FN::Minus => mo_minus(rhs),
        FN::Min => mo_min(rhs, floats),
        FN::Eq => mo_eq(rhs),
        FN::Bang => mo_bang(rhs),
        FN::Rho => mo_rho(rhs),
        _ => mo_temp(f, rhs),
    }
}

/// Applies a dyadic primitive to two values.
pub fn dyadic(f: FN, lhs: &NN, rhs: &NN, floats: &Vec<FloatFact>) -> (res: Result<NN, LErrEnum>)
    ensures
        agrees(res, dyad(f, lhs@, rhs@, floats@)),
{
    match f {
        FN::Mult => do_temp(f, lhs, rhs),
        FN::Eq => do_temp(f, lhs, rhs),
        FN::Amp => do_amp(lhs, rhs),
        FN::Rho => do_rho(lhs, rhs),
        _ => do_lanes(f, lhs, rhs, floats),
    }
}


/// The fold of a sequence that is not empty, from the left: the first
/// element where it is the only one, else the primitive applied to the
/// fold of all but the last and to the last.
pub open spec fn fold_left(f: FN, x: Seq<Node>, table: Seq<FloatFact>) -> Result<Node, Fault>
    recommends
        x.len() > 0,
    decreases x.len(),
{
    if x.len() <= 1 {
        Ok(x[0])
    } else {
        match fold_left(f, x.drop_last(), table) {
            Err(e) => Err(e),
            Ok(acc) => dyad(f, acc, x.last(), table),
        }
    }
}

/// The fold combinator on a primitive: the argument must be a list, and an
/// empty one has no fold.
pub open spec fn folded(f: FN, r: Node, table: Seq<FloatFact>) -> Result<Node, Fault> {
    match r.n {
        Term::List(x) => if x.len() == 0 {
            Err(Fault::EmptyDomain(f))
        } else {
            fold_left(f, x, table)
        },
        _ => Err(Fault::Type(f)),
    }
}

/// A failure of the fold of the first elements is the failure of the fold.
pub proof fn lemma_fold_left_err(f: FN, x: Seq<Node>, table: Seq<FloatFact>, k: int, e: Fault)
    requires
        1 <= k <= x.len(),
        fold_left(f, x.take(k), table) == Err::<Node, Fault>(e),
    ensures
        fold_left(f, x, table) == Err::<Node, Fault>(e),
    decreases x.len() - k,
{
    if k == x.len() {
        assert(x.take(k) =~= x);
    } else {
        assert(x.take(k + 1).drop_last() =~= x.take(k));
        lemma_fold_left_err(f, x, table, k + 1, e);
    }
}

/// One row of a scan: the primitive applied to `w` and to each element of
/// `y`, in order, or the first failure.
pub open spec fn scan_row(f: FN, w: Node, y: Seq<Node>, table: Seq<FloatFact>) -> Result<
    Seq<Node>,
    Fault,
>
    decreases y.len(),
{
    if y.len() == 0 {
        Ok(Seq::empty())
    } else {
        match scan_row(f, w, y.drop_last(), table) {
            Err(e) => Err(e),
            Ok(vs) => match dyad(f, w, y.last(), table) {
                Err(e) => Err(e),
                Ok(v) => Ok(vs.push(v)),
            },
        }
    }
}

/// What a scan gives for one element `w` of its left argument: a row where
/// the right argument is a list, else the primitive applied to `w` and to
/// the right argument.
pub open spec fn scan_one(f: FN, w: Node, r: Node, table: Seq<FloatFact>) -> Result<Node, Fault> {
    match r.n {
        Term::List(y) => match scan_row(f, w, y, table) {
            Ok(vs) => Ok(val(Term::List(vs))),
            Err(e) => Err(e),
        },
        _ => dyad(f, w, r, table),
    }
}

/// What a scan gives for each element of its left argument, in order, or
/// the first failure.
pub open spec fn scan_all(f: FN, x: Seq<Node>, r: Node, table: Seq<FloatFact>) -> Result<
    Seq<Node>,
    Fault,
>
    decreases x.len(),
{
    if x.len() == 0 {
        Ok(Seq::empty())
    } else {
        match scan_all(f, x.drop_last(), r, table) {
            Err(e) => Err(e),
            Ok(vs) => match scan_one(f, x.last(), r, table) {
                Err(e) => Err(e),
                Ok(v) => Ok(vs.push(v)),
            },
        }
    }
}

/// The scan combinator on a primitive: the left argument must be a list.
pub open spec fn scanned(f: FN, l: Node, r: Node, table: Seq<FloatFact>) -> Result<Node, Fault> {
    match l.n {
        Term::List(x) => match scan_all(f, x, r, table) {
            Ok(vs) => Ok(val(Term::List(vs))),
            Err(e) => Err(e),
        },
        _ => Err(Fault::Type(f)),
    }
}

/// A failure among the first places of a row is the failure of the row.
pub proof fn lemma_scan_row_err(
    f: FN,
    w: Node,
    y: Seq<Node>,
    table: Seq<FloatFact>,
    k: int,
    e: Fault,
)
    requires
        0 <= k <= y.len(),
        scan_row(f, w, y.take(k), table) == Err::<Seq<Node>, Fault>(e),
    ensures
        scan_row(f, w, y, table) == Err::<Seq<Node>, Fault>(e),
    decreases y.len() - k,
{
    if k == y.len() {
        assert(y.take(k) =~= y);
    } else {
        assert(y.take(k + 1).drop_last() =~= y.take(k));
        lemma_scan_row_err(f, w, y, table, k + 1, e);
    }
}

/// A failure among the first elements of a scan is the failure of the scan.
pub proof fn lemma_scan_all_err(
    f: FN,
    x: Seq<Node>,
    r: Node,
    table: Seq<FloatFact>,
    k: int,
    e: Fault,
)
    requires
        0 <= k <= x.len(),
        scan_all(f, x.take(k), r, table) == Err::<Seq<Node>, Fault>(e),
    ensures
        scan_all(f, x, r, table) == Err::<Seq<Node>, Fault>(e),
    decreases x.len() - k,
{
    if k == x.len() {
        assert(x.take(k) =~= x);
    } else {
        assert(x.take(k + 1).drop_last() =~= x.take(k));
        lemma_scan_all_err(f, x, r, table, k + 1, e);
    }
}

/// Folds a list with a dyadic primitive, from the left.
#[verifier::loop_isolation(false)]
pub fn fold(f: FN, rhs: &NN, floats: &Vec<FloatFact>) -> (res: Result<NN, LErrEnum>)
    ensures
        agrees(res, folded(f, rhs@, floats@)),
{
    proof {
        lemma_term_of(rhs.n);
    }
    match &rhs.n {
        E::LIST(l) => {
            if l.len() == 0 {
                return Err(LErrEnum::EmptyDomain(f));
            }
            let mut acc = l[0].clone();
            let mut i: usize = 1;
            assert(nodes_of(l@).take(1)[0] == l[0]@);
            while i < l.len()
                invariant
                    1 <= i <= l.len(),
                    fold_left(f, nodes_of(l@).take(i as int), floats@) == Ok::<Node, Fault>(acc@),
                decreases l.len() - i,
            {
                assert(nodes_of(l@).take(i as int + 1).drop_last() =~= nodes_of(l@).take(i as int));
                assert(nodes_of(l@).take(i as int + 1).last() == l[i as int]@);
                match dyadic(f, &acc, &l[i], floats) {
                    Ok(v) => {
                        acc = v;
                    },
                    Err(e) => {
                        proof {
                            lemma_fold_left_err(f, nodes_of(l@), floats@, i as int + 1, e@);
                        }
                        return Err(e);
                    },
                }
                i += 1;
            }
            assert(nodes_of(l@).take(i as int) =~= nodes_of(l@));
            Ok(acc)
        },
        _ => Err(LErrEnum::Type(f)),
    }
}

/// What a scan gives for one element `w` of its left argument.
#[verifier::loop_isolation(false)]
pub fn scan_item(f: FN, w: &NN, rhs: &NN, floats: &Vec<FloatFact>) -> (res: Result<NN, LErrEnum>)
    ensures
        agrees(res, scan_one(f, w@, rhs@, floats@)),
{
    proof {
        lemma_term_of(rhs.n);
    }
    match &rhs.n {
        E::LIST(y) => {
            let mut out: Vec<NN> = Vec::new();
            let mut j: usize = 0;
            assert(nodes_of(y@).take(0) =~= Seq::empty());
            assert(nodes_of(out@) =~= Seq::empty());
            while j < y.len()
                invariant
                    j <= y.len(),
                    scan_row(f, w@, nodes_of(y@).take(j as int), floats@) == Ok::<
                        Seq<Node>,
                        Fault,
                    >(nodes_of(out@)),
                decreases y.len() - j,
            {
                let ghost before = nodes_of(out@);
                assert(nodes_of(y@).take(j as int + 1).drop_last() =~= nodes_of(y@).take(j as int));
                assert(nodes_of(y@).take(j as int + 1).last() == y[j as int]@);
                match dyadic(f, w, &y[j], floats) {
                    Ok(v) => {
                        out.push(v);
                        assert(nodes_of(out@) =~= before.push(v@));
                    },
                    Err(e) => {
                        proof {
                            lemma_scan_row_err(f, w@, nodes_of(y@), floats@, j as int + 1, e@);
                        }
                        return Err(e);
                    },
                }
                j += 1;
            }
            assert(nodes_of(y@).take(j as int) =~= nodes_of(y@));
            let r = NN::nd(E::LIST(out));
            proof {
                lemma_term_of(r.n);
            }
            Ok(r)
        },
        _ => dyadic(f, w, rhs, floats),
    }
}

/// Applies a dyadic primitive to each element of a list and to the right
/// argument.
#[verifier::loop_isolation(false)]
pub fn scan(f: FN, lhs: &NN, rhs: &NN, floats: &Vec<FloatFact>) -> (res: Result<NN, LErrEnum>)
    ensures
        agrees(res, scanned(f, lhs@, rhs@, floats@)),
{
    proof {
        lemma_term_of(lhs.n);
    }
    match &lhs.n {
        E::LIST(x) => {
            let mut out: Vec<NN> = Vec::new();
            let mut i: usize = 0;
            assert(nodes_of(x@).take(0) =~= Seq::empty());
            assert(nodes_of(out@) =~= Seq::empty());
            while i < x.len()
                invariant
                    i <= x.len(),
                    scan_all(f, nodes_of(x@).take(i as int), rhs@, floats@) == Ok::<
                        Seq<Node>,
                        Fault,
                    >(nodes_of(out@)),
                decreases x.len() - i,
            {
                let ghost before = nodes_of(out@);
                assert(nodes_of(x@).take(i as int + 1).drop_last() =~= nodes_of(x@).take(i as int));
                assert(nodes_of(x@).take(i as int + 1).last() == x[i as int]@);
                match scan_item(f, &x[i], rhs, floats) {
                    Ok(v) => {
                        out.push(v);
                        assert(nodes_of(out@) =~= before.push(v@));
                    },
                    Err(e) => {
                        proof {
                            lemma_scan_all_err(f, nodes_of(x@), rhs@, floats@, i as int + 1, e@);
                        }
                        return Err(e);
                    },
                }
                i += 1;
            }
            assert(nodes_of(x@).take(i as int) =~= nodes_of(x@));
            let r = NN::nd(E::LIST(out));
            proof {
                lemma_term_of(r.n);
            }
            Ok(r)
        },
        _ => Err(LErrEnum::Type(f)),
    }
}

} // verus!
