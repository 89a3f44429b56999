//! The results of floating-point arithmetic that the library is given.

use vstd::prelude::*;

verus! {

/// An operation on 64-bit IEEE-754 numbers that an evaluation needs. The
/// machine does no such arithmetic itself: it takes the result from a table
/// of facts, and asks for the fact where the table lacks it.
#[derive(Debug, Copy, Clone, PartialEq, Eq, Structural)]
pub enum FloatOp {
    /// The quotient of two integers, each taken as a 64-bit number.
    Divide { num: i32, den: i32 },
    /// The largest integer not above the number with these bits, brought
    /// into the range of `i32`.
    Floor { bits: u64 },
    /// The 64-bit number nearest to a decimal numeral: the number `digits`
    /// divided by ten to the power `scale`, negated where `neg` holds.
    Decimal { neg: bool, digits: u64, scale: u32 },
    /// The numeral that shows the number with these bits.
    Show { bits: u64 },
}

/// One result of 64-bit IEEE-754 arithmetic: the operands and what comes out.
#[derive(Debug, Copy, Clone, PartialEq, Eq, Structural)]
pub enum FloatFact {
    /// `num / den` has the bit pattern `bits`.
    Quotient { num: i32, den: i32, bits: u64 },
    /// The floor of the number with the bit pattern `bits` is `floor`.
    Floor { bits: u64, floor: i32 },
    /// The decimal numeral stands for the number with the bit pattern `bits`.
    Decimal { neg: bool, digits: u64, scale: u32, bits: u64 },
}

impl FloatFact {
    /// Whether this fact gives the result of `op`.
    pub open spec fn answers(self, op: FloatOp) -> bool {
        match (self, op) {
            (FloatFact::Quotient { num, den, bits: _ }, FloatOp::Divide { num: n, den: d }) => num
                == n && den == d,
            (FloatFact::Floor { bits, floor: _ }, FloatOp::Floor { bits: b }) => bits == b,
            (
                FloatFact::Decimal { neg, digits, scale, bits: _ },
                FloatOp::Decimal { neg: n, digits: d, scale: s },
            ) => neg == n && digits == d && scale == s,
            _ => false,
        }
    }
}

/// The bit pattern of the number that a decimal numeral stands for,
/// according to `table`.
pub open spec fn decimal_in(table: Seq<FloatFact>, neg: bool, digits: u64, scale: u32) -> Option<
    u64,
> {
    match fact_for(table, FloatOp::Decimal { neg, digits, scale }) {
        Some(FloatFact::Decimal { neg: _, digits: _, scale: _, bits }) => Some(bits),
        _ => None,
    }
}

/// The first fact in `table` that gives the result of `op`.
pub open spec fn fact_for(table: Seq<FloatFact>, op: FloatOp) -> Option<FloatFact>
    decreases table.len(),
{
    if table.len() == 0 {
        None
    } else if table[0].answers(op) {
        Some(table[0])
    } else {
        fact_for(table.skip(1), op)
    }
}

/// The bit pattern of `num / den` according to `table`.
pub open spec fn quotient_in(table: Seq<FloatFact>, num: i32, den: i32) -> Option<u64> {
    match fact_for(table, FloatOp::Divide { num, den }) {
        Some(FloatFact::Quotient { num: _, den: _, bits }) => Some(bits),
        _ => None,
    }
}

/// The floor of the number with the bit pattern `bits` according to `table`.
pub open spec fn floor_in(table: Seq<FloatFact>, bits: u64) -> Option<i32> {
    match fact_for(table, FloatOp::Floor { bits }) {
        Some(FloatFact::Floor { bits: _, floor }) => Some(floor),
        _ => None,
    }
}

/// Looks up the first fact in `table` that gives the result of `op`.
pub fn find_fact(table: &Vec<FloatFact>, op: FloatOp) -> (r: Option<FloatFact>)
    ensures
        r == fact_for(table@, op),
{
    let mut i: usize = 0;
    assert(table@.skip(0) =~= table@);
    while i < table.len()
        invariant
            i <= table.len(),
            fact_for(table@, op) == fact_for(table@.skip(i as int), op),
        decreases table.len() - i,
    {
        let f = table[i];
        let hit = match (f, op) {
            (FloatFact::Quotient { num, den, bits: _ }, FloatOp::Divide { num: n, den: d }) => num
                == n && den == d,
            (FloatFact::Floor { bits, floor: _ }, FloatOp::Floor { bits: b }) => bits == b,
            (
                FloatFact::Decimal { neg, digits, scale, bits: _ },
                FloatOp::Decimal { neg: n, digits: d, scale: s },
            ) => neg == n && digits == d && scale == s,
            _ => false,
        };
        assert(table@.skip(i as int)[0] == f);
        if hit {
            return Some(f);
        }
        assert(table@.skip(i as int).skip(1) =~= table@.skip(i as int + 1));
        i += 1;
    }
    None
}

/// The bit pattern of `num / den`, if `table` holds it.
pub fn find_quotient(table: &Vec<FloatFact>, num: i32, den: i32) -> (r: Option<u64>)
    ensures
        r == quotient_in(table@, num, den),
{
    match find_fact(table, FloatOp::Divide { num, den }) {
        Some(FloatFact::Quotient { num: _, den: _, bits }) => Some(bits),
        _ => None,
    }
}

/// The floor of the number with the bit pattern `bits`, if `table` holds it.
pub fn find_floor(table: &Vec<FloatFact>, bits: u64) -> (r: Option<i32>)
    ensures
        r == floor_in(table@, bits),
{
    match find_fact(table, FloatOp::Floor { bits }) {
        Some(FloatFact::Floor { bits: _, floor }) => Some(floor),
        _ => None,
    }
}


/// The bit pattern of the number that a decimal numeral stands for, if
/// `table` holds it.
pub fn find_decimal(table: &Vec<FloatFact>, neg: bool, digits: u64, scale: u32) -> (r: Option<u64>)
    ensures
        r == decimal_in(table@, neg, digits, scale),
{
    match find_fact(table, FloatOp::Decimal { neg, digits, scale }) {
        Some(FloatFact::Decimal { neg: _, digits: _, scale: _, bits }) => Some(bits),
        _ => None,
    }
}


/// The numeral that shows a 64-bit IEEE-754 number.
#[derive(Debug)]
pub struct FloatText {
    pub bits: u64,
    pub text: String,
}

/// The numeral that the first entry of `table` for `bits` holds.
pub open spec fn text_in(table: Seq<FloatText>, bits: u64) -> Option<Seq<char>>
    decreases table.len(),
{
    if table.len() == 0 {
        None
    } else if table[0].bits == bits {
        Some(table[0].text@)
    } else {
        text_in(table.skip(1), bits)
    }
}

/// The numeral that shows the number with the bit pattern `bits`, if
/// `table` holds it.
pub fn find_text(table: &Vec<FloatText>, bits: u64) -> (r: Option<String>)
    ensures
        match r {
            Some(t) => text_in(table@, bits) == Some(t@),
            None => text_in(table@, bits) is None,
        },
{
    let mut i: usize = 0;
    assert(table@.skip(0) =~= table@);
    while i < table.len()
        invariant
            i <= table.len(),
            text_in(table@, bits) == text_in(table@.skip(i as int), bits),
        decreases table.len() - i,
    {
        assert(table@.skip(i as int)[0] == table[i as int]);
        if table[i].bits == bits {
            return Some(table[i].text.clone());
        }
        assert(table@.skip(i as int).skip(1) =~= table@.skip(i as int + 1));
        i += 1;
    }
    None
}

} // verus!
