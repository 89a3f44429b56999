//! A small array language: a reader for its notation, a compiler to a
//! byte code, and a stack machine that runs the byte code.
//!
//! A line of source is read into nodes (`parse`), compiled into a program
//! (`byte`), and run by a machine (`vm`) over the primitives (`prim`). What a
//! line binds is kept in an environment for the lines that follow. The
//! instructions are laid out in `op`, the values and the syntax tree in `ast`,
//! the failures in `err`.
//!
//! The library does no floating-point arithmetic. A value with a fraction is
//! held as its bit pattern, and each result of arithmetic on such values is
//! taken from a table that the caller fills (`num`): where the table lacks a
//! result, the reader, the machine or the printer (`show`) stops with a
//! failure that names the result it needs, and goes on once it is there.
//!
//! `laws` states what holds of lines and primitives in general, `closure`
//! what holds of calls of functions by name, `budget` that the limits of a
//! run only stop it, and `sound` what holds of the code of every program;
//! `sim` holds the reasoning about runs of compiled code that the laws rest
//! on.

pub mod ast;
pub mod budget;
pub mod byte;
pub mod closure;
pub mod err;
pub mod laws;
pub mod names;
pub mod num;
pub mod op;
pub mod parse;
pub mod prim;
pub mod show;
pub mod sim;
pub mod sound;
pub mod vm;

pub use crate::ast::{bool_to_int, oc, od, om, CN, E, FN, NN};
pub use crate::byte::{Env, B, I, SET};
pub use crate::err::{err, LErr, LErrEnum};
pub use crate::names::Names;
pub use crate::num::{FloatFact, FloatOp, FloatText};
pub use crate::parse::{parse, pf, LP};
pub use crate::op::{
    byte_to_co, byte_to_fn, byte_to_op, get_cnop, get_fnop, get_op, make_op, op_to_co, u16_to_u8,
    u8_to_u, OP,
};
pub use crate::prim::{
    do_amp, do_conversion, do_mathdiv, do_mathmod, do_max, do_min, do_minus, do_plus, do_rho,
    do_temp, mo_bang, mo_eq, mo_min, mo_minus, mo_rho, mo_temp,
};
pub use crate::show::{fmt_list, gen_sep, show};
pub use crate::vm::{BL, C, V};
