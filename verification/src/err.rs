//! The failures of reading, compiling and running, and their wording.

use vstd::prelude::*;

use crate::ast::FN;
use crate::num::FloatOp;
use crate::parse::push_char;
use crate::show::{decimal_nat, fn_char, put_nat};

verus! {

/// What was found in the source where something else was expected, with the
/// span of source text it stands at.
#[derive(Debug)]
pub struct LErr {
    pub error: String,
    pub start: usize,
    pub end: usize,
}

/// The mathematical content of an `LErr`.
pub struct Flaw {
    pub error: Seq<char>,
    pub start: usize,
    pub end: usize,
}

impl View for LErr {
    type V = Flaw;

    open spec fn view(&self) -> Flaw {
        Flaw { error: self.error@, start: self.start, end: self.end }
    }
}

impl Clone for LErr {
    fn clone(&self) -> (r: LErr)
        ensures
            r@ == self@,
    {
        LErr { error: self.error.clone(), start: self.start, end: self.end }
    }
}

/// An `LErr` for the text `er` found between `start` and `end`.
pub fn err(er: &str, start: usize, end: usize) -> (e: LErr)
    ensures
        e@ == (Flaw { error: er@, start, end }),
{
    LErr { error: String::from_str(er), start, end }
}

/// Every way in which reading, compiling or running a program can fail.
#[derive(Debug)]
pub enum LErrEnum {
    /// A character that starts no token, a text that is not closed, or an
    /// expression of a shape that has no code.
    Standard(LErr),
    /// Something that cannot stand in a train was found in one, or a train
    /// is empty.
    TrainExpected(LErr),
    /// A combinator was attached to a primitive in a role that the
    /// combinator does not go with.
    FnExpected(LErr),
    /// Something that starts no expression was found where one must stand,
    /// or something that is no literal inside a list.
    TermExpected(LErr),
    /// Something that is no name was found where one must stand, or a name
    /// that is not bound where its value is needed at once.
    ValueExpected(LErr),
    /// A combinator was attached to something that is no primitive.
    MonadicFunctionExpected,
    /// The source ends where an expression or a bracket is missing.
    ExprExpected,
    /// A number does not fit the integers of the language.
    IntExpected(LErr),
    /// A number with a fraction could not be read.
    FloatExpected(LErr),
    /// A function was called with the wrong number of arguments.
    Arity,
    /// A primitive was applied to values it does not support.
    Type(FN),
    /// A primitive has no meaning in the role it was applied in.
    NotImplemented(FN),
    /// Division or remainder by zero, a negative dimension, dimensions
    /// too large, or a result that does not fit an integer.
    Arithmetic(FN),
    /// A fold over an empty list, or an array to be filled from nothing.
    EmptyDomain(FN),
    /// A value or a frame was taken from an empty stack.
    Underflow,
    /// A stack, or the nesting of calls, grew past its limit, or the code
    /// or the pool past what a `u16` counts.
    Overflow,
    /// A name has no value.
    Unbound,
    /// Something that is no function was called.
    NotCallable,
    /// The code holds a byte that is no instruction, an operand that is cut
    /// off, or an index that points outside the constant pool.
    BadCode,
    /// The program ran for more steps than the machine allows.
    Exhausted,
    /// The evaluation needs a result of floating-point arithmetic that the
    /// machine's table does not hold.
    FloatNeeded(FloatOp),
    /// Nothing was produced.
    Nothing,
}

/// The mathematical content of an `LErrEnum`.
pub enum Fault {
    Standard(Flaw),
    TrainExpected(Flaw),
    FnExpected(Flaw),
    TermExpected(Flaw),
    ValueExpected(Flaw),
    MonadicFunctionExpected,
    ExprExpected,
    IntExpected(Flaw),
    FloatExpected(Flaw),
    Arity,
    Type(FN),
    NotImplemented(FN),
    Arithmetic(FN),
    EmptyDomain(FN),
    Underflow,
    Overflow,
    Unbound,
    NotCallable,
    BadCode,
    Exhausted,
    FloatNeeded(FloatOp),
    Nothing,
}

impl View for LErrEnum {
    type V = Fault;

    open spec fn view(&self) -> Fault {
        match self {
            LErrEnum::Standard(e) => Fault::Standard(e@),
            LErrEnum::TrainExpected(e) => Fault::TrainExpected(e@),
            LErrEnum::FnExpected(e) => Fault::FnExpected(e@),
            LErrEnum::TermExpected(e) => Fault::TermExpected(e@),
            LErrEnum::ValueExpected(e) => Fault::ValueExpected(e@),
            LErrEnum::MonadicFunctionExpected => Fault::MonadicFunctionExpected,
            LErrEnum::ExprExpected => Fault::ExprExpected,
            LErrEnum::IntExpected(e) => Fault::IntExpected(e@),
            LErrEnum::FloatExpected(e) => Fault::FloatExpected(e@),
            LErrEnum::Arity => Fault::Arity,
            LErrEnum::Type(f) => Fault::Type(*f),
            LErrEnum::NotImplemented(f) => Fault::NotImplemented(*f),
            LErrEnum::Arithmetic(f) => Fault::Arithmetic(*f),
            LErrEnum::EmptyDomain(f) => Fault::EmptyDomain(*f),
            LErrEnum::Underflow => Fault::Underflow,
            LErrEnum::Overflow => Fault::Overflow,
            LErrEnum::Unbound => Fault::Unbound,
            LErrEnum::NotCallable => Fault::NotCallable,
            LErrEnum::BadCode => Fault::BadCode,
            LErrEnum::Exhausted => Fault::Exhausted,
            LErrEnum::FloatNeeded(o) => Fault::FloatNeeded(*o),
            LErrEnum::Nothing => Fault::Nothing,
        }
    }
}

impl Clone for LErrEnum {
    fn clone(&self) -> (r: LErrEnum)
        ensures
            r@ == self@,
    {
        match self {
            LErrEnum::Standard(e) => LErrEnum::Standard(e.clone()),
            LErrEnum::TrainExpected(e) => LErrEnum::TrainExpected(e.clone()),
            LErrEnum::FnExpected(e) => LErrEnum::FnExpected(e.clone()),
            LErrEnum::TermExpected(e) => LErrEnum::TermExpected(e.clone()),
            LErrEnum::ValueExpected(e) => LErrEnum::ValueExpected(e.clone()),
            LErrEnum::MonadicFunctionExpected => LErrEnum::MonadicFunctionExpected,
            LErrEnum::ExprExpected => LErrEnum::ExprExpected,
            LErrEnum::IntExpected(e) => LErrEnum::IntExpected(e.clone()),
            LErrEnum::FloatExpected(e) => LErrEnum::FloatExpected(e.clone()),
            LErrEnum::Arity => LErrEnum::Arity,
            LErrEnum::Type(f) => LErrEnum::Type(*f),
            LErrEnum::NotImplemented(f) => LErrEnum::NotImplemented(*f),
            LErrEnum::Arithmetic(f) => LErrEnum::Arithmetic(*f),
            LErrEnum::EmptyDomain(f) => LErrEnum::EmptyDomain(*f),
            LErrEnum::Underflow => LErrEnum::Underflow,
            LErrEnum::Overflow => LErrEnum::Overflow,
            LErrEnum::Unbound => LErrEnum::Unbound,
            LErrEnum::NotCallable => LErrEnum::NotCallable,
            LErrEnum::BadCode => LErrEnum::BadCode,
            LErrEnum::Exhausted => LErrEnum::Exhausted,
            LErrEnum::FloatNeeded(o) => LErrEnum::FloatNeeded(*o),
            LErrEnum::Nothing => LErrEnum::Nothing,
        }
    }
}


impl Flaw {
    /// The line that tells of the flaw: its text and the span.
    pub open spec fn worded(self) -> Seq<char> {
        self.error + ", "@ + decimal_nat(self.start as nat) + "."@ + decimal_nat(self.end as nat)
    }
}

impl LErr {
    /// The line that tells of the flaw: its text and the span.
    pub fn message(&self) -> (m: String)
        ensures
            m@ == self@.worded(),
    {
        let mut m = self.error.clone();
        m.append(", ");
        put_nat(&mut m, self.start as u64);
        m.append(".");
        put_nat(&mut m, self.end as u64);
        m
    }
}

/// A fixed wording with the text of a flaw behind it.
pub open spec fn with_text(word: Seq<char>, e: Flaw) -> Seq<char> {
    word + e.error
}

/// The symbol of a primitive with a wording behind it.
pub open spec fn with_symbol(f: FN, word: Seq<char>) -> Seq<char> {
    seq![f.symbol()] + word
}

impl Fault {
    /// The one line that tells of the failure.
    pub open spec fn worded(self) -> Seq<char> {
        match self {
            Fault::Standard(e) => with_text("Error during runtime "@, e) + "."@,
            Fault::TrainExpected(e) => with_text("Expected Train element here got "@, e),
            Fault::FnExpected(e) => with_text("Expected Function element here got "@, e),
            Fault::TermExpected(e) => with_text("Expected Term element here got "@, e),
            Fault::ValueExpected(e) => with_text("Expected Value here got "@, e),
            Fault::MonadicFunctionExpected => "Expected Monadic function here"@,
            Fault::ExprExpected => "Expected Expression here"@,
            Fault::IntExpected(e) => with_text("Expected Int here: "@, e),
            Fault::FloatExpected(e) => with_text("Expected Float here: "@, e),
            Fault::Arity => "Wrong number of arguments"@,
            Fault::Type(f) => with_symbol(f, ": values of a kind it does not take"@),
            Fault::NotImplemented(f) => with_symbol(f, ": not implemented"@),
            Fault::Arithmetic(f) => with_symbol(f, ": no such number"@),
            Fault::EmptyDomain(f) => with_symbol(f, ": nothing to work on"@),
            Fault::Underflow => "Stack underflow"@,
            Fault::Overflow => "Stack overflow"@,
            Fault::Unbound => "Name without a value"@,
            Fault::NotCallable => "Expected Function value here"@,
            Fault::BadCode => "Code that is no program"@,
            Fault::Exhausted => "Out of steps"@,
            Fault::FloatNeeded(_) => "Floating-point result needed"@,
            Fault::Nothing => "None returned"@,
        }
    }
}

/// A fixed wording with the text of a flaw behind it.
fn say(word: &str, e: &LErr) -> (m: String)
    ensures
        m@ == with_text(word@, e@),
{
    let mut m = String::from_str(word);
    m.append(e.error.as_str());
    m
}

/// The symbol of a primitive with a wording behind it.
fn blame(f: FN, word: &str) -> (m: String)
    ensures
        m@ == with_symbol(f, word@),
{
    let mut m = String::new();
    push_char(&mut m, fn_char(f));
    m.append(word);
    assert(m@ =~= seq![f.symbol()] + word@);
    m
}

impl LErrEnum {
    /// The one line that tells of the failure.
    pub fn message(&self) -> (m: String)
        ensures
            m@ == self@.worded(),
    {
        match self {
            LErrEnum::Standard(e) => {
                let mut m = say("Error during runtime ", e);
                m.append(".");
                m
            },
            LErrEnum::TrainExpected(e) => say("Expected Train element here got ", e),
            LErrEnum::FnExpected(e) => say("Expected Function element here got ", e),
            LErrEnum::TermExpected(e) => say("Expected Term element here got ", e),
            LErrEnum::ValueExpected(e) => say("Expected Value here got ", e),
            LErrEnum::MonadicFunctionExpected => String::from_str("Expected Monadic function here"),
            LErrEnum::ExprExpected => String::from_str("Expected Expression here"),
            LErrEnum::IntExpected(e) => say("Expected Int here: ", e),
            LErrEnum::FloatExpected(e) => say("Expected Float here: ", e),
            LErrEnum::Arity => String::from_str("Wrong number of arguments"),
            LErrEnum::Type(f) => blame(*f, ": values of a kind it does not take"),
            LErrEnum::NotImplemented(f) => blame(*f, ": not implemented"),
            LErrEnum::Arithmetic(f) => blame(*f, ": no such number"),
            LErrEnum::EmptyDomain(f) => blame(*f, ": nothing to work on"),
            LErrEnum::Underflow => String::from_str("Stack underflow"),
            LErrEnum::Overflow => String::from_str("Stack overflow"),
            LErrEnum::Unbound => String::from_str("Name without a value"),
            LErrEnum::NotCallable => String::from_str("Expected Function value here"),
            LErrEnum::BadCode => String::from_str("Code that is no program"),
            LErrEnum::Exhausted => String::from_str("Out of steps"),
            LErrEnum::FloatNeeded(_) => String::from_str("Floating-point result needed"),
            LErrEnum::Nothing => String::from_str("None returned"),
        }
    }
}

} // verus!
