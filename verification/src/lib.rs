//! Interpreter for a small purely functional language transmitted as ASCII
//! text, together with the contest-side bookkeeping around it: a score
//! board, a best-score table, and an SVG scene builder for problems and
//! solutions.
//!
//! A program is text in, literal text out: the driver tokenizes, parses the
//! prefix grammar, reduces under call-by-need with a step budget, and
//! renders the final boolean, integer or string.
use vstd::prelude::*;

pub mod bigint;
pub mod codec;
pub mod db;
pub mod eval;
pub mod lang;
pub mod render;

use crate::bigint::dec_msb;
use crate::bigint::is_dec_digit;
use crate::codec::decode_string;
use crate::codec::decoded_seq;
use crate::eval::Evaluator;
use crate::eval::Value;
use crate::eval::ValueV;
use crate::eval::eval_spec;
use crate::eval::fresh_machine;
use crate::eval::value_data_wf;
use crate::lang::parse;
use crate::lang::parse_spec;
use crate::lang::tokenize;
use crate::lang::tokens_spec;

verus! {

/// Every way a run of the interpreter can fail. Each failure is terminal for
/// the evaluation that raised it; there are no partial results.
#[derive(Clone, Copy, Debug, PartialEq, Eq, Structural)]
pub enum EvalError {
    /// A token byte outside the printable range, an empty token, or an
    /// unsupported indicator or operator body.
    DecodeError,
    /// A missing operand or leftover tokens after the root expression.
    ParseError,
    /// A variable referenced outside any binding for it.
    UnboundVariable,
    /// An operator applied to a value of the wrong kind.
    TypeMismatch,
    /// A take or drop count outside the bounds of its string.
    IndexOutOfRange,
    /// A division or remainder with a zero divisor.
    DivisionByZero,
    /// The caller-supplied reduction budget ran out.
    StepBudgetExceeded,
}

/// The decimal spelling of an integer: an optional minus sign, then digits
/// with no leading zero. Together with the value this pins the text.
pub open spec fn decimal_text(x: int, t: Seq<u8>) -> bool {
    if x >= 0 {
        t.len() >= 1 && (forall|i: int| 0 <= i < t.len() ==> is_dec_digit(#[trigger] t[i]))
            && dec_msb(t) == x && (t.len() > 1 ==> t[0] != 48)
    } else {
        t.len() >= 2 && t[0] == 45 && (forall|i: int|
            1 <= i < t.len() ==> is_dec_digit(#[trigger] t[i])) && dec_msb(t.skip(1)) == -x && t[1]
            != 48
    }
}

/// ASCII bytes read as characters.
pub open spec fn chars_of(bytes: Seq<u8>) -> Seq<char> {
    bytes.map_values(|b: u8| b as char)
}

/// The surface text of a final value: `true`/`false` for a boolean, the
/// decimal spelling for an integer, the decoded characters for a string. A
/// closure has no surface text.
pub open spec fn rendered(v: ValueV, out: Seq<char>) -> bool {
    match v {
        ValueV::Bool(b) => out == chars_of(
            if b {
                seq![116u8, 114u8, 117u8, 101u8]
            } else {
                seq![102u8, 97u8, 108u8, 115u8, 101u8]
            },
        ),
        ValueV::Int(x) => exists|t: Seq<u8>| #[trigger] decimal_text(x, t) && out == chars_of(t),
        ValueV::Str(s) => out == chars_of(crate::codec::decoded_seq(s)),
        ValueV::Closure(_, _, _) => false,
    }
}

/// The surface text of a terminal value: `true`/`false`, decimal for an
/// integer, decoded characters for a string. A closure has no literal
/// surface form, so it is reported as a value of the wrong kind.
pub fn render_literal(v: &Value) -> (r: Result<Vec<u8>, EvalError>)
    requires
        value_data_wf(*v),
    ensures
        v@ matches ValueV::Bool(b) ==> (r matches Ok(t) && t@ == if b {
            seq![116u8, 114u8, 117u8, 101u8]
        } else {
            seq![102u8, 97u8, 108u8, 115u8, 101u8]
        }),
        v@ matches ValueV::Int(x) ==> (r matches Ok(t) && decimal_text(x, t@)),
        v@ matches ValueV::Str(s) ==> (r matches Ok(t) && t@ == decoded_seq(s)),
        v@ is Closure <==> r == Err::<Vec<u8>, EvalError>(EvalError::TypeMismatch),
{
    match v {
        Value::Bool(b) => {
            let mut t: Vec<u8> = Vec::new();
            if *b {
                t.push(116);
                t.push(114);
                t.push(117);
                t.push(101);
                proof {
                    assert(t@ =~= seq![116u8, 114u8, 117u8, 101u8]);
                }
            } else {
                t.push(102);
                t.push(97);
                t.push(108);
                t.push(115);
                t.push(101);
                proof {
                    assert(t@ =~= seq![102u8, 97u8, 108u8, 115u8, 101u8]);
                }
            }
            Ok(t)
        },
        Value::Int(n) => Ok(n.to_decimal()),
        Value::Str(s) => decode_string(s),
        Value::Closure { .. } => Err(EvalError::TypeMismatch),
    }
}

/// Relies on String::from_utf8: bytes below 128 are one ASCII character
/// each, so the string has exactly those characters. The match only maps
/// the error case, which the precondition rules out.
#[verifier::external_body]
fn ascii_string(bytes: Vec<u8>) -> (r: String)
    requires
        forall|i: int| 0 <= i < bytes@.len() ==> bytes@[i] < 128,
    ensures
        r@.len() == bytes@.len(),
        forall|i: int| 0 <= i < bytes@.len() ==> r@[i] == bytes@[i] as char,
{
    match String::from_utf8(bytes) {
        Ok(s) => s,
        Err(_) => String::new(),
    }
}

/// A program: the raw ASCII source text of one expression.
pub struct Program(pub Vec<u8>);

impl View for Program {
    type V = Seq<u8>;

    open spec fn view(&self) -> Seq<u8> {
        self.0@
    }
}

impl Program {
    /// Wraps source text.
    pub fn new(source: Vec<u8>) -> (p: Program)
        ensures
            p@ == source@,
    {
        Program(source)
    }

    /// Runs the program to a literal within `budget` reduction steps: the
    /// whole text-to-text transform. Tokens and parse follow `tokens_spec`
    /// and `parse_spec` with front-end errors returned unchanged, and the
    /// result is exactly what the call-by-need semantics `eval_spec` gives
    /// the parsed tree: its rendered value, or its error.
    pub fn evaluate(&self, budget: u64) -> (r: Result<String, EvalError>)
        ensures
            (match parse_spec(tokens_spec(self@)) {
                Ok((_, rest)) => rest.len() > 0 ==> r == Err::<String, EvalError>(
                    EvalError::ParseError,
                ),
                Err(e) => r == Err::<String, EvalError>(e),
            }),
            r is Ok ==> (parse_spec(tokens_spec(self@)) matches Ok(pr) && pr.1.len() == 0),
            (match parse_spec(tokens_spec(self@)) {
                Ok((ast, rest)) => rest.len() == 0 ==> ({
                    let (rv, _m2) = eval_spec(ast, None, fresh_machine(budget));
                    match rv {
                        Err(er) => r == Err::<String, EvalError>(er),
                        Ok(v) => if v is Closure {
                            r == Err::<String, EvalError>(EvalError::TypeMismatch)
                        } else {
                            r matches Ok(out) && rendered(v, out@)
                        },
                    }
                }),
                Err(_) => true,
            }),
    {
        match self.evaluate_counted(budget) {
            Ok((s, _)) => Ok(s),
            Err(e) => Err(e),
        }
    }

    /// Like [`Program::evaluate`], but also reports how many thunks were
    /// actually reduced, exactly the force count of the machine the
    /// semantics leaves behind: a binding forced twice reuses its cached
    /// value and counts once.
    pub fn evaluate_counted(&self, budget: u64) -> (r: Result<(String, u64), EvalError>)
        ensures
            (match parse_spec(tokens_spec(self@)) {
                Ok((_, rest)) => rest.len() > 0 ==> r == Err::<(String, u64), EvalError>(
                    EvalError::ParseError,
                ),
                Err(e) => r == Err::<(String, u64), EvalError>(e),
            }),
            r is Ok ==> (parse_spec(tokens_spec(self@)) matches Ok(pr) && pr.1.len() == 0),
            (match parse_spec(tokens_spec(self@)) {
                Ok((ast, rest)) => rest.len() == 0 ==> ({
                    let (rv, m2) = eval_spec(ast, None, fresh_machine(budget));
                    match rv {
                        Err(er) => r == Err::<(String, u64), EvalError>(er),
                        Ok(v) => if v is Closure {
                            r == Err::<(String, u64), EvalError>(EvalError::TypeMismatch)
                        } else {
                            r matches Ok(p) && rendered(v, p.0@) && p.1 as int == m2.forces
                        },
                    }
                }),
                Err(_) => true,
            }),
    {
        let toks = tokenize(&self.0);
        let ast = match parse(&toks) {
            Ok(a) => a,
            Err(e) => {
                return Err(e);
            },
        };
        let mut machine = Evaluator::new(budget);
        proof {
            assert(machine.model() =~= fresh_machine(budget));
        }
        let val = match machine.run(&ast) {
            Ok(v) => v,
            Err(e) => {
                return Err(e);
            },
        };
        let text = match render_literal(&val) {
            Ok(t) => t,
            Err(e) => {
                return Err(e);
            },
        };
        proof {
            assert forall|i: int| 0 <= i < text@.len() implies text@[i] < 128 by {
                assert(value_data_wf(val));
            }
        }
        let out = ascii_string(text);
        proof {
            assert(out@ =~= chars_of(text@));
            match val@ {
                ValueV::Int(x) => {
                    assert(decimal_text(x, text@));
                },
                _ => {},
            }
        }
        Ok((out, machine.forces))
    }
}

} // verus!
