//! Call-by-need reduction of a syntax tree to a literal value.
//!
//! Arguments of an application are never evaluated eagerly: each binding
//! wraps its expression in a thunk, forced at most once and cached. Thunks
//! and environment frames live in arenas inside the evaluator, so shared
//! environments are extended without copying. A caller-supplied step budget
//! bounds the reduction and turns divergence into a reported error.
//!
//! The meaning of a reduction is [`eval_spec`], a big-step semantics over
//! the machine's shape [`MachineV`]; the evaluator returns exactly what it
//! says and leaves exactly the machine it describes.
use vstd::prelude::*;

use crate::EvalError;
use crate::bigint::BigInt;
use crate::bigint::digits_of;
use crate::bigint::int_body_spec;
use crate::bigint::lemma_int_body;
use crate::bigint::lemma_int_round_trip;
use crate::bigint::msbval;
use crate::bigint::tdiv;
use crate::bigint::tmod;
use crate::codec::copy_bytes;
use crate::lang::BinOp;
use crate::lang::ExprV;
use crate::lang::Token;
use crate::lang::UnOp;
use crate::lang::exprv_wf;
use crate::lang::valid_str_body;

verus! {

/// A run-time value in normal form.
pub enum Value {
    Bool(bool),
    Int(BigInt),
    /// Raw body bytes, decoded only when rendered.
    Str(Vec<u8>),
    /// A lambda with the environment captured where it was evaluated.
    Closure { env: Option<usize>, var: BigInt, body: Token },
}

/// The mathematical shape of a value. A closure keeps its environment
/// frame's number.
pub enum ValueV {
    Bool(bool),
    Int(int),
    Str(Seq<u8>),
    Closure(Option<int>, int, ExprV),
}

impl View for Value {
    type V = ValueV;

    open spec fn view(&self) -> ValueV {
        match self {
            Value::Bool(b) => ValueV::Bool(*b),
            Value::Int(n) => ValueV::Int(n@),
            Value::Str(s) => ValueV::Str(s@),
            Value::Closure { env, var, body } => ValueV::Closure(
                match env {
                    Some(e) => Some(*e as int),
                    None => None,
                },
                var@,
                body@,
            ),
        }
    }
}

/// Validity of a value's data: canonical integers, printable string bytes,
/// well-formed closure bodies.
pub open spec fn value_data_wf(v: Value) -> bool {
    match v {
        Value::Bool(_) => true,
        Value::Int(n) => n.wf(),
        Value::Str(s) => valid_str_body(s@),
        Value::Closure { env, var, body } => var.wf() && body.wf() && exprv_wf(body@),
    }
}

/// A closure's environment reference stays within `n_env` frames.
pub open spec fn value_env_ok(v: Value, n_env: int) -> bool {
    match v {
        Value::Closure { env, var, body } => match env {
            Some(e) => (e as int) < n_env,
            None => true,
        },
        _ => true,
    }
}

/// Validity of a value against an arena of `n_env` environment frames.
pub open spec fn value_wf(v: Value, n_env: int) -> bool {
    value_data_wf(v) && value_env_ok(v, n_env)
}

impl Value {
    /// A structurally identical copy.
    pub fn dup(&self) -> (r: Value)
        ensures
            r@ == self@,
            value_data_wf(*self) ==> value_data_wf(r),
            forall|n: int| value_wf(*self, n) ==> value_wf(r, n),
    {
        match self {
            Value::Bool(b) => Value::Bool(*b),
            Value::Int(n) => Value::Int(n.duplicate()),
            Value::Str(s) => Value::Str(copy_bytes(s)),
            Value::Closure { env, var, body } => Value::Closure {
                env: *env,
                var: var.duplicate(),
                body: body.dup(),
            },
        }
    }
}

/// What a unary operator returns on a value: the exact result, or the exact
/// error. A string is read as a base-94 numeral by its digit values; an
/// empty string, like an empty numeral body, is a `DecodeError`. Writing a
/// negative integer as a string is a `TypeMismatch`, since numerals carry no
/// sign.
pub open spec fn unop_spec(op: UnOp, v: ValueV) -> Result<ValueV, EvalError> {
    match op {
        UnOp::Negate => match v {
            ValueV::Int(x) => Ok(ValueV::Int(-x)),
            _ => Err(EvalError::TypeMismatch),
        },
        UnOp::Not => match v {
            ValueV::Bool(b) => Ok(ValueV::Bool(!b)),
            _ => Err(EvalError::TypeMismatch),
        },
        UnOp::StringToInt => match v {
            ValueV::Str(s) => if s.len() > 0 {
                Ok(ValueV::Int(msbval(digits_of(s))))
            } else {
                Err(EvalError::DecodeError)
            },
            _ => Err(EvalError::TypeMismatch),
        },
        UnOp::IntToString => match v {
            ValueV::Int(x) => if x >= 0 {
                Ok(ValueV::Str(int_body_spec(x)))
            } else {
                Err(EvalError::TypeMismatch)
            },
            _ => Err(EvalError::TypeMismatch),
        },
    }
}

/// What a binary operator returns on two values. Arithmetic and comparison
/// need two integers; `Eq` also accepts two booleans or two strings; `Or`
/// and `And` need two booleans and are eager, both operands having been
/// forced already; `Take`/`Drop` need a count `0 <= n <= len`. `Apply` is
/// control, not data, and is handled by the evaluator itself.
pub open spec fn binop_spec(op: BinOp, x: ValueV, y: ValueV) -> Result<ValueV, EvalError> {
    match op {
        BinOp::Add => match (x, y) {
            (ValueV::Int(a), ValueV::Int(b)) => Ok(ValueV::Int(a + b)),
            _ => Err(EvalError::TypeMismatch),
        },
        BinOp::Sub => match (x, y) {
            (ValueV::Int(a), ValueV::Int(b)) => Ok(ValueV::Int(a - b)),
            _ => Err(EvalError::TypeMismatch),
        },
        BinOp::Mul => match (x, y) {
            (ValueV::Int(a), ValueV::Int(b)) => Ok(ValueV::Int(a * b)),
            _ => Err(EvalError::TypeMismatch),
        },
        BinOp::Div => match (x, y) {
            (ValueV::Int(a), ValueV::Int(b)) => if b == 0 {
                Err(EvalError::DivisionByZero)
            } else {
                Ok(ValueV::Int(tdiv(a, b)))
            },
            _ => Err(EvalError::TypeMismatch),
        },
        BinOp::Mod => match (x, y) {
            (ValueV::Int(a), ValueV::Int(b)) => if b == 0 {
                Err(EvalError::DivisionByZero)
            } else {
                Ok(ValueV::Int(tmod(a, b)))
            },
            _ => Err(EvalError::TypeMismatch),
        },
        BinOp::Lt => match (x, y) {
            (ValueV::Int(a), ValueV::Int(b)) => Ok(ValueV::Bool(a < b)),
            _ => Err(EvalError::TypeMismatch),
        },
        BinOp::Gt => match (x, y) {
            (ValueV::Int(a), ValueV::Int(b)) => Ok(ValueV::Bool(a > b)),
            _ => Err(EvalError::TypeMismatch),
        },
        BinOp::Eq => match (x, y) {
            (ValueV::Int(a), ValueV::Int(b)) => Ok(ValueV::Bool(a == b)),
            (ValueV::Bool(a), ValueV::Bool(b)) => Ok(ValueV::Bool(a == b)),
            (ValueV::Str(a), ValueV::Str(b)) => Ok(ValueV::Bool(a == b)),
            _ => Err(EvalError::TypeMismatch),
        },
        BinOp::Or => match (x, y) {
            (ValueV::Bool(a), ValueV::Bool(b)) => Ok(ValueV::Bool(a || b)),
            _ => Err(EvalError::TypeMismatch),
        },
        BinOp::And => match (x, y) {
            (ValueV::Bool(a), ValueV::Bool(b)) => Ok(ValueV::Bool(a && b)),
            _ => Err(EvalError::TypeMismatch),
        },
        BinOp::Concat => match (x, y) {
            (ValueV::Str(a), ValueV::Str(b)) => Ok(ValueV::Str(a + b)),
            _ => Err(EvalError::TypeMismatch),
        },
        BinOp::Take => match (x, y) {
            (ValueV::Int(n), ValueV::Str(s)) => if 0 <= n <= s.len() {
                Ok(ValueV::Str(s.take(n)))
            } else {
                Err(EvalError::IndexOutOfRange)
            },
            _ => Err(EvalError::TypeMismatch),
        },
        BinOp::Drop => match (x, y) {
            (ValueV::Int(n), ValueV::Str(s)) => if 0 <= n <= s.len() {
                Ok(ValueV::Str(s.skip(n)))
            } else {
                Err(EvalError::IndexOutOfRange)
            },
            _ => Err(EvalError::TypeMismatch),
        },
        BinOp::Apply => Err(EvalError::TypeMismatch),
    }
}

/// Take and drop split a string exactly: for a count within the string's
/// length, the taken prefix concatenated with the dropped remainder is the
/// string, take of zero is the empty string, drop of zero is the whole
/// string, and a count outside the range raises `IndexOutOfRange` from
/// both operators.
pub proof fn lemma_take_drop_laws(s: Seq<u8>, n: int)
    ensures
        0 <= n <= s.len() ==> binop_spec(BinOp::Take, ValueV::Int(n), ValueV::Str(s)) == Ok::<
            ValueV,
            EvalError,
        >(ValueV::Str(s.take(n))) && binop_spec(BinOp::Drop, ValueV::Int(n), ValueV::Str(s))
            == Ok::<ValueV, EvalError>(ValueV::Str(s.skip(n))) && s.take(n) + s.skip(n) == s,
        binop_spec(BinOp::Take, ValueV::Int(0), ValueV::Str(s)) == Ok::<ValueV, EvalError>(
            ValueV::Str(Seq::<u8>::empty()),
        ),
        binop_spec(BinOp::Drop, ValueV::Int(0), ValueV::Str(s)) == Ok::<ValueV, EvalError>(
            ValueV::Str(s),
        ),
        !(0 <= n <= s.len()) ==> binop_spec(BinOp::Take, ValueV::Int(n), ValueV::Str(s)) == Err::<
            ValueV,
            EvalError,
        >(EvalError::IndexOutOfRange) && binop_spec(BinOp::Drop, ValueV::Int(n), ValueV::Str(s))
            == Err::<ValueV, EvalError>(EvalError::IndexOutOfRange),
{
    if 0 <= n <= s.len() {
        assert(s.take(n) + s.skip(n) =~= s);
    }
    assert(s.take(0) =~= Seq::<u8>::empty());
    assert(s.skip(0) =~= s);
}

/// Every reduction consumes budget: a run leaves strictly fewer steps than
/// it was given, and never a negative count. A program that cannot finish
/// is therefore stopped within its budget, and the budget-guard arms of
/// [`eval_spec`] are never the ones taken.
pub proof fn lemma_eval_consumes(e: ExprV, env: Option<int>, m: MachineV)
    requires
        m.steps >= 0,
    ensures
        ({
            let (_, m2) = eval_spec(e, env, m);
            0 <= m2.steps <= m.steps && (m.steps > 0 ==> m2.steps < m.steps)
        }),
    decreases m.steps, 0int,
{
    if m.steps > 0 {
        let m0 = MachineV { steps: m.steps - 1, ..m };
        match e {
            ExprV::Unary(_, a) => {
                lemma_eval_consumes(*a, env, m0);
            },
            ExprV::Binary(op, a, b) => {
                if op == BinOp::Apply {
                    lemma_eval_consumes(*a, env, m0);
                    let (rf, m1) = eval_spec(*a, env, m0);
                    match rf {
                        Ok(ValueV::Closure(cenv, var, body)) => {
                            let t_id = m1.thunks.len() as int;
                            let m2 = MachineV {
                                thunks: m1.thunks.push(ThunkV::Todo(*b, env)),
                                envs: m1.envs.push(
                                    FrameV { var, thunk: t_id, parent: cenv },
                                ),
                                ..m1
                            };
                            if 0 <= m2.steps < m.steps {
                                lemma_eval_consumes(body, Some(m1.envs.len() as int), m2);
                            }
                        },
                        _ => {},
                    }
                } else {
                    lemma_eval_consumes(*a, env, m0);
                    let (ra, m1) = eval_spec(*a, env, m0);
                    if ra is Ok && 0 <= m1.steps < m.steps {
                        lemma_eval_consumes(*b, env, m1);
                    }
                }
            },
            ExprV::If(c, t, el) => {
                lemma_eval_consumes(*c, env, m0);
                let (rc, m1) = eval_spec(*c, env, m0);
                match rc {
                    Ok(ValueV::Bool(true)) => if 0 <= m1.steps < m.steps {
                        lemma_eval_consumes(*t, env, m1);
                    },
                    Ok(ValueV::Bool(false)) => if 0 <= m1.steps < m.steps {
                        lemma_eval_consumes(*el, env, m1);
                    },
                    _ => {},
                }
            },
            ExprV::Var(v) => {
                match lookup_spec(env, v, m0.envs) {
                    Some(t) => {
                        lemma_force_consumes(t, m0);
                    },
                    None => {},
                }
            },
            _ => {},
        }
    }
}

/// Forcing consumes no more budget than it was given.
pub proof fn lemma_force_consumes(t: int, m: MachineV)
    requires
        m.steps >= 0,
    ensures
        ({
            let (_, m2) = force_spec(t, m);
            0 <= m2.steps <= m.steps
        }),
    decreases m.steps, 1int,
{
    if 0 <= t < m.thunks.len() {
        match m.thunks[t] {
            ThunkV::Todo(e, env) => {
                lemma_eval_consumes(e, env, m);
            },
            ThunkV::Done(_) => {},
        }
    }
}

/// A conditional forces only its condition and the taken branch: the
/// untaken branch may hold an unbound variable, yet the taken literal comes
/// out. Three steps pay for the conditional, its condition and the branch.
pub proof fn lemma_if_non_strict(x: int, v: int, env: Option<int>, m: MachineV)
    requires
        m.steps >= 3,
    ensures
        eval_spec(
            ExprV::If(
                Box::new(ExprV::Bool(true)),
                Box::new(ExprV::Int(x)),
                Box::new(ExprV::Var(v)),
            ),
            env,
            m,
        ).0 == Ok::<ValueV, EvalError>(ValueV::Int(x)),
        eval_spec(
            ExprV::If(
                Box::new(ExprV::Bool(false)),
                Box::new(ExprV::Var(v)),
                Box::new(ExprV::Int(x)),
            ),
            env,
            m,
        ).0 == Ok::<ValueV, EvalError>(ValueV::Int(x)),
{
    let m0 = MachineV { steps: m.steps - 1, ..m };
    let m1 = MachineV { steps: m.steps - 2, ..m };
    assert(eval_spec(ExprV::Bool(true), env, m0) == (
        Ok::<ValueV, EvalError>(ValueV::Bool(true)),
        m1,
    ));
    assert(eval_spec(ExprV::Bool(false), env, m0) == (
        Ok::<ValueV, EvalError>(ValueV::Bool(false)),
        m1,
    ));
    assert(eval_spec(ExprV::Int(x), env, m1).0 == Ok::<ValueV, EvalError>(ValueV::Int(x)));
}

/// Call-by-need: applying a lambda whose body uses its variable twice to an
/// integer argument reduces the argument exactly once — the force count of
/// the machine left behind is one — and every occurrence denotes the
/// argument's value.
pub proof fn lemma_call_by_need(x: int, k: int, b: u64)
    requires
        b >= 6,
    ensures
        ({
            let body = ExprV::Binary(BinOp::Add, Box::new(ExprV::Var(x)), Box::new(ExprV::Var(x)));
            let prog = ExprV::Binary(
                BinOp::Apply,
                Box::new(ExprV::Lambda(x, Box::new(body))),
                Box::new(ExprV::Int(k)),
            );
            let (rv, m2) = eval_spec(prog, None, fresh_machine(b));
            rv == Ok::<ValueV, EvalError>(ValueV::Int(k + k)) && m2.forces == 1
        }),
{
    let body = ExprV::Binary(BinOp::Add, Box::new(ExprV::Var(x)), Box::new(ExprV::Var(x)));
    let prog = ExprV::Binary(
        BinOp::Apply,
        Box::new(ExprV::Lambda(x, Box::new(body))),
        Box::new(ExprV::Int(k)),
    );
    let m = fresh_machine(b);
    let ma = MachineV { steps: b - 1, ..m };
    let mb = MachineV { steps: b - 2, ..m };
    // The lambda reduces to a closure over the empty environment.
    assert(eval_spec(ExprV::Lambda(x, Box::new(body)), None, ma) == (
        Ok::<ValueV, EvalError>(ValueV::Closure(None, x, body)),
        mb,
    ));
    // Applying it binds the unevaluated argument to a fresh shared thunk.
    let frame = FrameV { var: x, thunk: 0, parent: None };
    let m2 = MachineV {
        thunks: seq![ThunkV::Todo(ExprV::Int(k), None)],
        envs: seq![frame],
        steps: b - 2,
        forces: 0,
    };
    assert(mb.thunks.push(ThunkV::Todo(ExprV::Int(k), None)) =~= m2.thunks);
    assert(mb.envs.push(frame) =~= m2.envs);
    assert(eval_spec(prog, None, m) == eval_spec(body, Some(0), m2));
    // The first occurrence forces the thunk: the argument is reduced and
    // cached, and the force count becomes one.
    let m3 = MachineV { steps: b - 3, ..m2 };
    let m4 = MachineV { steps: b - 4, ..m2 };
    let m5 = MachineV {
        thunks: seq![ThunkV::Done(ValueV::Int(k))],
        envs: seq![frame],
        steps: b - 5,
        forces: 1,
    };
    assert(lookup_spec(Some(0), x, m2.envs) == Some(0int));
    assert(eval_spec(ExprV::Int(k), None, m4) == (
        Ok::<ValueV, EvalError>(ValueV::Int(k)),
        MachineV { steps: b - 5, ..m2 },
    ));
    assert(m4.thunks[0] == ThunkV::Todo(ExprV::Int(k), None));
    assert((MachineV { steps: b - 5, ..m2 }).thunks.update(0, ThunkV::Done(ValueV::Int(k)))
        =~= m5.thunks);
    assert(force_spec(0, m4) == (Ok::<ValueV, EvalError>(ValueV::Int(k)), m5));
    assert(eval_spec(ExprV::Var(x), Some(0), m3) == (Ok::<ValueV, EvalError>(ValueV::Int(k)), m5));
    // The second occurrence reuses the cached value: no further force.
    let m6 = MachineV { steps: b - 6, ..m5 };
    assert(lookup_spec(Some(0), x, m5.envs) == Some(0int));
    assert(m6.thunks[0] == ThunkV::Done(ValueV::Int(k)));
    assert(force_spec(0, m6) == (Ok::<ValueV, EvalError>(ValueV::Int(k)), m6));
    assert(eval_spec(ExprV::Var(x), Some(0), m5) == (Ok::<ValueV, EvalError>(ValueV::Int(k)), m6));
    assert(eval_spec(body, Some(0), m2) == (Ok::<ValueV, EvalError>(ValueV::Int(k + k)), m6));
}

/// Compares two byte vectors.
fn eq_bytes(a: &Vec<u8>, b: &Vec<u8>) -> (r: bool)
    ensures
        r == (a@ == b@),
{
    if a.len() != b.len() {
        proof {
            assert(a@.len() != b@.len());
        }
        return false;
    }
    let mut i: usize = 0;
    while i < a.len()
        invariant
            a@.len() == b@.len(),
            0 <= i <= a@.len(),
            forall|j: int| 0 <= j < i ==> a@[j] == b@[j],
        decreases a@.len() - i,
    {
        if a[i] != b[i] {
            return false;
        }
        i += 1;
    }
    proof {
        assert(a@ =~= b@);
    }
    true
}

/// The first `n` bytes.
fn take_bytes(s: &Vec<u8>, n: usize) -> (r: Vec<u8>)
    requires
        n <= s@.len(),
    ensures
        r@ == s@.take(n as int),
{
    let mut out: Vec<u8> = Vec::new();
    let mut i: usize = 0;
    while i < n
        invariant
            0 <= i <= n <= s@.len(),
            out@ =~= s@.take(n as int).take(i as int),
        decreases n - i,
    {
        proof {
            assert(s@.take(n as int)[i as int] == s@[i as int]);
        }
        out.push(s[i]);
        i += 1;
    }
    proof {
        assert(s@.take(n as int).take(n as int) =~= s@.take(n as int));
    }
    out
}

/// The bytes after the first `n`.
fn drop_bytes(s: &Vec<u8>, n: usize) -> (r: Vec<u8>)
    requires
        n <= s@.len(),
    ensures
        r@ == s@.skip(n as int),
{
    let mut out: Vec<u8> = Vec::new();
    let mut i: usize = n;
    while i < s.len()
        invariant
            n <= i <= s@.len(),
            out@ =~= s@.skip(n as int).take(i - n),
        decreases s@.len() - i,
    {
        proof {
            assert(s@.skip(n as int)[i - n] == s@[i as int]);
        }
        out.push(s[i]);
        i += 1;
    }
    proof {
        assert(s@.skip(n as int).take(s@.len() - n) =~= s@.skip(n as int));
    }
    out
}

/// The bytes of one vector followed by another's.
fn concat_bytes(a: &Vec<u8>, b: &Vec<u8>) -> (r: Vec<u8>)
    ensures
        r@ == a@ + b@,
{
    let mut out = copy_bytes(a);
    let mut i: usize = 0;
    while i < b.len()
        invariant
            0 <= i <= b@.len(),
            out@ =~= a@ + b@.take(i as int),
        decreases b@.len() - i,
    {
        out.push(b[i]);
        i += 1;
        proof {
            assert(a@ + b@.take(i as int) =~= (a@ + b@.take(i - 1)).push(b@[i - 1]));
        }
    }
    proof {
        assert(a@ + b@.take(b@.len() as int) =~= a@ + b@);
    }
    out
}

/// Applies a unary operator to a forced value, following [`unop_spec`]
/// exactly.
fn apply_unop(op: UnOp, v: Value) -> (r: Result<Value, EvalError>)
    requires
        value_data_wf(v),
    ensures
        r matches Ok(out) ==> unop_spec(op, v@) == Ok::<_, EvalError>(out@) && value_data_wf(out)
            && !(out is Closure),
        r matches Err(e) ==> unop_spec(op, v@) == Err::<ValueV, _>(e),
{
    match op {
        UnOp::Negate => match v {
            Value::Int(x) => Ok(Value::Int(x.negated())),
            _ => Err(EvalError::TypeMismatch),
        },
        UnOp::Not => match v {
            Value::Bool(b) => Ok(Value::Bool(!b)),
            _ => Err(EvalError::TypeMismatch),
        },
        UnOp::StringToInt => match v {
            Value::Str(s) => match BigInt::from_body(&s) {
                Ok(n) => Ok(Value::Int(n)),
                Err(e) => Err(e),
            },
            _ => Err(EvalError::TypeMismatch),
        },
        UnOp::IntToString => match v {
            Value::Int(x) => {
                if x.is_negative() {
                    Err(EvalError::TypeMismatch)
                } else {
                    let body = x.to_body();
                    proof {
                        lemma_int_body(x@);
                        lemma_int_round_trip(body@, int_body_spec(x@));
                    }
                    Ok(Value::Str(body))
                }
            },
            _ => Err(EvalError::TypeMismatch),
        },
    }
}

/// Applies a data binary operator to two forced values, following
/// [`binop_spec`] exactly.
fn apply_binop(op: BinOp, x: Value, y: Value) -> (r: Result<Value, EvalError>)
    requires
        op != BinOp::Apply,
        value_data_wf(x),
        value_data_wf(y),
    ensures
        r matches Ok(out) ==> binop_spec(op, x@, y@) == Ok::<_, EvalError>(out@) && value_data_wf(
            out,
        ) && !(out is Closure),
        r matches Err(e) ==> binop_spec(op, x@, y@) == Err::<ValueV, _>(e),
{
    match op {
        BinOp::Add => match (x, y) {
            (Value::Int(a), Value::Int(b)) => Ok(Value::Int(a.add(&b))),
            _ => Err(EvalError::TypeMismatch),
        },
        BinOp::Sub => match (x, y) {
            (Value::Int(a), Value::Int(b)) => Ok(Value::Int(a.sub(&b))),
            _ => Err(EvalError::TypeMismatch),
        },
        BinOp::Mul => match (x, y) {
            (Value::Int(a), Value::Int(b)) => Ok(Value::Int(a.mul(&b))),
            _ => Err(EvalError::TypeMismatch),
        },
        BinOp::Div => match (x, y) {
            (Value::Int(a), Value::Int(b)) => match a.divmod(&b) {
                Ok((q, _)) => Ok(Value::Int(q)),
                Err(e) => Err(e),
            },
            _ => Err(EvalError::TypeMismatch),
        },
        BinOp::Mod => match (x, y) {
            (Value::Int(a), Value::Int(b)) => match a.divmod(&b) {
                Ok((_, m)) => Ok(Value::Int(m)),
                Err(e) => Err(e),
            },
            _ => Err(EvalError::TypeMismatch),
        },
        BinOp::Lt => match (x, y) {
            (Value::Int(a), Value::Int(b)) => Ok(Value::Bool(a.lt(&b))),
            _ => Err(EvalError::TypeMismatch),
        },
        BinOp::Gt => match (x, y) {
            (Value::Int(a), Value::Int(b)) => Ok(Value::Bool(b.lt(&a))),
            _ => Err(EvalError::TypeMismatch),
        },
        BinOp::Eq => match (x, y) {
            (Value::Int(a), Value::Int(b)) => Ok(Value::Bool(a.eq_val(&b))),
            (Value::Bool(a), Value::Bool(b)) => Ok(Value::Bool(a == b)),
            (Value::Str(a), Value::Str(b)) => Ok(Value::Bool(eq_bytes(&a, &b))),
            _ => Err(EvalError::TypeMismatch),
        },
        BinOp::Or => match (x, y) {
            (Value::Bool(a), Value::Bool(b)) => Ok(Value::Bool(a || b)),
            _ => Err(EvalError::TypeMismatch),
        },
        BinOp::And => match (x, y) {
            (Value::Bool(a), Value::Bool(b)) => Ok(Value::Bool(a && b)),
            _ => Err(EvalError::TypeMismatch),
        },
        BinOp::Concat => match (x, y) {
            (Value::Str(a), Value::Str(b)) => Ok(Value::Str(concat_bytes(&a, &b))),
            _ => Err(EvalError::TypeMismatch),
        },
        BinOp::Take => match (x, y) {
            (Value::Int(n), Value::Str(s)) => {
                let zero = BigInt::zero();
                let len = BigInt::from_u64(s.len() as u64);
                if n.lt(&zero) || len.lt(&n) {
                    Err(EvalError::IndexOutOfRange)
                } else {
                    let k = n.to_u64() as usize;
                    Ok(Value::Str(take_bytes(&s, k)))
                }
            },
            _ => Err(EvalError::TypeMismatch),
        },
        BinOp::Drop => match (x, y) {
            (Value::Int(n), Value::Str(s)) => {
                let zero = BigInt::zero();
                let len = BigInt::from_u64(s.len() as u64);
                if n.lt(&zero) || len.lt(&n) {
                    Err(EvalError::IndexOutOfRange)
                } else {
                    let k = n.to_u64() as usize;
                    Ok(Value::Str(drop_bytes(&s, k)))
                }
            },
            _ => Err(EvalError::TypeMismatch),
        },
        BinOp::Apply => Err(EvalError::TypeMismatch),
    }
}

/// A deferred computation: an expression with its environment, replaced by
/// its value the first time it is forced.
pub enum Thunk {
    Todo(Token, Option<usize>),
    Done(Value),
}

/// One binding: a variable number, its thunk, and the enclosing frame.
pub struct EnvNode {
    pub var: BigInt,
    pub thunk: usize,
    pub parent: Option<usize>,
}

/// Validity of a thunk against the arenas.
pub open spec fn thunk_wf(t: Thunk, n_env: int) -> bool {
    match t {
        Thunk::Todo(e, env) => e.wf() && exprv_wf(e@) && (match env {
            Some(i) => (i as int) < n_env,
            None => true,
        }),
        Thunk::Done(v) => value_wf(v, n_env),
    }
}

/// Validity of frame `i`: its parent is an earlier frame, its thunk exists.
pub open spec fn node_wf(nd: EnvNode, i: int, n_thunk: int) -> bool {
    nd.var.wf() && (nd.thunk as int) < n_thunk && (match nd.parent {
        Some(p) => (p as int) < i,
        None => true,
    })
}

/// An environment reference that stays within `n` frames.
pub open spec fn env_ok(e: Option<usize>, n: int) -> bool {
    match e {
        Some(i) => (i as int) < n,
        None => true,
    }
}

/// The shape of a thunk: an expression waiting in an environment, or the
/// value it reduced to.
pub enum ThunkV {
    Todo(ExprV, Option<int>),
    Done(ValueV),
}

/// The shape of one binding frame.
pub struct FrameV {
    pub var: int,
    pub thunk: int,
    pub parent: Option<int>,
}

/// The shape of the whole machine: its two stores, the steps left and the
/// count of thunks reduced so far.
#[verifier::ext_equal]
pub struct MachineV {
    pub thunks: Seq<ThunkV>,
    pub envs: Seq<FrameV>,
    pub steps: int,
    pub forces: int,
}

/// An environment reference as the model sees it.
pub open spec fn opt_view(e: Option<usize>) -> Option<int> {
    match e {
        Some(i) => Some(i as int),
        None => None,
    }
}

/// The shape of a thunk cell.
pub open spec fn thunk_view(t: Thunk) -> ThunkV {
    match t {
        Thunk::Todo(e, env) => ThunkV::Todo(e@, opt_view(env)),
        Thunk::Done(v) => ThunkV::Done(v@),
    }
}

/// The shape of a frame.
pub open spec fn frame_view(f: EnvNode) -> FrameV {
    FrameV { var: f.var@, thunk: f.thunk as int, parent: opt_view(f.parent) }
}

/// The machine a run starts from: empty stores and the whole budget.
pub open spec fn fresh_machine(budget: u64) -> MachineV {
    MachineV { thunks: Seq::empty(), envs: Seq::empty(), steps: budget as int, forces: 0 }
}

/// The innermost binding of `var` along the parent chain from `env`, if
/// any: lookup is by exact number and the nearest frame wins, which is how
/// shadowing resolves. A frame or parent outside the store, which a valid
/// machine never holds, binds nothing.
pub open spec fn lookup_spec(env: Option<int>, var: int, envs: Seq<FrameV>) -> Option<int>
    decreases (match env {
        Some(i) => i + 1,
        None => 0int,
    }),
{
    match env {
        None => None,
        Some(i) => if 0 <= i < envs.len() {
            if envs[i].var == var {
                Some(envs[i].thunk)
            } else {
                match envs[i].parent {
                    Some(p) => if 0 <= p < i {
                        lookup_spec(Some(p), var, envs)
                    } else {
                        None
                    },
                    None => None,
                }
            }
        } else {
            None
        },
    }
}

/// One saturating tick of the force counter.
pub open spec fn bump(n: int) -> int {
    if n < u64::MAX {
        n + 1
    } else {
        n
    }
}

/// The call-by-need semantics: what one reduction of `e` in environment
/// `env` returns, and the machine it leaves behind. Every reduction first
/// takes one step from the budget, so the steps left always shrink; the
/// guards over the steps of an intermediate machine restate that and are
/// never taken on a machine a reduction produced, which
/// [`lemma_eval_consumes`] proves. Memoization is observable
/// through the force count, so the stores are part of the meaning, not an
/// implementation detail.
pub open spec fn eval_spec(e: ExprV, env: Option<int>, m: MachineV) -> (Result<
    ValueV,
    EvalError,
>, MachineV)
    decreases m.steps, 0int,
{
    if m.steps <= 0 {
        (Err(EvalError::StepBudgetExceeded), m)
    } else {
        let m0 = MachineV { steps: m.steps - 1, ..m };
        match e {
            ExprV::Bool(b) => (Ok(ValueV::Bool(b)), m0),
            ExprV::Int(x) => (Ok(ValueV::Int(x)), m0),
            ExprV::Str(s) => (Ok(ValueV::Str(s)), m0),
            ExprV::Unary(op, a) => {
                let (ra, m1) = eval_spec(*a, env, m0);
                match ra {
                    Err(er) => (Err(er), m1),
                    Ok(va) => (unop_spec(op, va), m1),
                }
            },
            ExprV::Binary(op, a, b) => if op == BinOp::Apply {
                let (rf, m1) = eval_spec(*a, env, m0);
                match rf {
                    Err(er) => (Err(er), m1),
                    Ok(vf) => match vf {
                        ValueV::Closure(cenv, var, body) => {
                            let t_id = m1.thunks.len() as int;
                            let e_id = m1.envs.len() as int;
                            let m2 = MachineV {
                                thunks: m1.thunks.push(ThunkV::Todo(*b, env)),
                                envs: m1.envs.push(FrameV { var, thunk: t_id, parent: cenv }),
                                ..m1
                            };
                            if 0 <= m2.steps < m.steps {
                                eval_spec(body, Some(e_id), m2)
                            } else {
                                (Err(EvalError::StepBudgetExceeded), m2)
                            }
                        },
                        _ => (Err(EvalError::TypeMismatch), m1),
                    },
                }
            } else {
                let (ra, m1) = eval_spec(*a, env, m0);
                match ra {
                    Err(er) => (Err(er), m1),
                    Ok(va) => if 0 <= m1.steps < m.steps {
                        let (rb, m2) = eval_spec(*b, env, m1);
                        match rb {
                            Err(er) => (Err(er), m2),
                            Ok(vb) => (binop_spec(op, va, vb), m2),
                        }
                    } else {
                        (Err(EvalError::StepBudgetExceeded), m1)
                    },
                }
            },
            ExprV::If(c, t, el) => {
                let (rc, m1) = eval_spec(*c, env, m0);
                match rc {
                    Err(er) => (Err(er), m1),
                    Ok(vc) => match vc {
                        ValueV::Bool(true) => if 0 <= m1.steps < m.steps {
                            eval_spec(*t, env, m1)
                        } else {
                            (Err(EvalError::StepBudgetExceeded), m1)
                        },
                        ValueV::Bool(false) => if 0 <= m1.steps < m.steps {
                            eval_spec(*el, env, m1)
                        } else {
                            (Err(EvalError::StepBudgetExceeded), m1)
                        },
                        _ => (Err(EvalError::TypeMismatch), m1),
                    },
                }
            },
            ExprV::Lambda(v, b) => (Ok(ValueV::Closure(env, v, *b)), m0),
            ExprV::Var(v) => match lookup_spec(env, v, m0.envs) {
                None => (Err(EvalError::UnboundVariable), m0),
                Some(t) => force_spec(t, m0),
            },
        }
    }
}

/// Forcing a thunk: a reduced thunk hands out its cached value and costs
/// nothing; an unreduced one is evaluated once, cached, and counted.
pub open spec fn force_spec(t: int, m: MachineV) -> (Result<ValueV, EvalError>, MachineV)
    decreases m.steps, 1int,
{
    if !(0 <= t < m.thunks.len()) {
        (Err(EvalError::UnboundVariable), m)
    } else {
        match m.thunks[t] {
            ThunkV::Done(v) => (Ok(v), m),
            ThunkV::Todo(e, env) => if m.steps >= 0 {
                let (r, m1) = eval_spec(e, env, m);
                match r {
                    Err(er) => (Err(er), m1),
                    Ok(v) => (
                        Ok(v),
                        MachineV {
                            thunks: m1.thunks.update(t, ThunkV::Done(v)),
                            forces: bump(m1.forces),
                            ..m1
                        },
                    ),
                }
            } else {
                (Err(EvalError::StepBudgetExceeded), m)
            },
        }
    }
}

/// The reduction machine: thunk and environment arenas, the remaining step
/// budget, and a count of thunks actually reduced.
pub struct Evaluator {
    pub thunks: Vec<Thunk>,
    pub envs: Vec<EnvNode>,
    pub steps: u64,
    pub forces: u64,
}

impl Evaluator {
    /// The machine's shape, the state [`eval_spec`] speaks of.
    pub open spec fn model(&self) -> MachineV {
        MachineV {
            thunks: self.thunks@.map_values(|t: Thunk| thunk_view(t)),
            envs: self.envs@.map_values(|f: EnvNode| frame_view(f)),
            steps: self.steps as int,
            forces: self.forces as int,
        }
    }

    /// Every frame and every thunk is valid against the arenas.
    pub open spec fn wf(&self) -> bool {
        (forall|i: int|
            0 <= i < self.envs@.len() ==> node_wf(
                #[trigger] self.envs@[i],
                i,
                self.thunks@.len() as int,
            )) && (forall|i: int|
            0 <= i < self.thunks@.len() ==> thunk_wf(
                #[trigger] self.thunks@[i],
                self.envs@.len() as int,
            ))
    }

    /// A fresh machine with a step budget.
    pub fn new(budget: u64) -> (r: Evaluator)
        ensures
            r.wf(),
            r.steps == budget,
            r.forces == 0,
            r.model() == fresh_machine(budget),
    {
        let r = Evaluator { thunks: Vec::new(), envs: Vec::new(), steps: budget, forces: 0 };
        proof {
            assert(r.model() =~= fresh_machine(budget));
        }
        r
    }

    /// Finds the innermost binding of `var`, if any: lookup is by exact
    /// number, innermost frame first, which is how shadowing resolves.
    fn lookup(&self, env: Option<usize>, var: &BigInt) -> (r: Option<usize>)
        requires
            self.wf(),
            env_ok(env, self.envs@.len() as int),
            var.wf(),
        ensures
            r matches Some(t) ==> (t as int) < self.thunks@.len(),
            opt_view(r) == lookup_spec(opt_view(env), var@, self.model().envs),
        decreases (match env {
            Some(i) => i as int + 1,
            None => 0int,
        }),
    {
        match env {
            None => None,
            Some(i) => {
                let nd = &self.envs[i];
                if nd.var.eq_val(var) {
                    Some(nd.thunk)
                } else {
                    self.lookup(nd.parent, var)
                }
            },
        }
    }

    /// One reduction step of an expression in an environment. Runs the
    /// budget down and keeps the machine valid; the untaken branch of a
    /// conditional and an unapplied argument are never reduced.
    #[verifier::rlimit(50)]
    #[verifier::spinoff_prover]
    fn eval(&mut self, e: &Token, env: Option<usize>) -> (r: Result<Value, EvalError>)
        requires
            old(self).wf(),
            e.wf(),
            exprv_wf(e@),
            env_ok(env, old(self).envs@.len() as int),
        ensures
            final(self).wf(),
            final(self).envs@.len() >= old(self).envs@.len(),
            final(self).thunks@.len() >= old(self).thunks@.len(),
            final(self).steps <= old(self).steps,
            r matches Ok(v) ==> value_wf(v, final(self).envs@.len() as int),
            ({
                let (rv, m2) = eval_spec(e@, opt_view(env), old(self).model());
                final(self).model() == m2 && (match r {
                    Ok(v) => rv == Ok::<ValueV, EvalError>(v@),
                    Err(er) => rv == Err::<ValueV, EvalError>(er),
                })
            }),
        decreases old(self).steps, 0int,
    {
        if self.steps == 0 {
            return Err(EvalError::StepBudgetExceeded);
        }
        let ghost mm = old(self).model();
        self.steps = self.steps - 1;
        let ghost m0v = MachineV { steps: mm.steps - 1, ..mm };
        proof {
            assert(mm.steps > 0);
            assert(self.model() =~= m0v);
        }
        match e {
            Token::Bool(b) => Ok(Value::Bool(*b)),
            Token::Int(n) => Ok(Value::Int(n.duplicate())),
            Token::S(s) => {
                proof {
                    assert(e@ matches ExprV::Str(ss) && ss == s@);
                    assert(exprv_wf(ExprV::Str(s@)));
                    assert(valid_str_body(s@));
                }
                Ok(Value::Str(copy_bytes(s)))
            },
            Token::Unary(op, a) => {
                proof {
                    assert(e@ matches ExprV::Unary(_, aa) && *aa == (**a)@);
                    assert(exprv_wf((**a)@));
                }
                let v = match self.eval(a, env) {
                    Ok(v) => v,
                    Err(er) => {
                        return Err(er);
                    },
                };
                apply_unop(*op, v)
            },
            Token::Binary(op, a, b) => {
                proof {
                    assert(e@ matches ExprV::Binary(_, aa, bb) && *aa == (**a)@ && *bb == (**b)@);
                    assert(exprv_wf((**a)@) && exprv_wf((**b)@));
                }
                match op {
                    BinOp::Apply => {
                        let f = match self.eval(a, env) {
                            Ok(v) => v,
                            Err(er) => {
                                return Err(er);
                            },
                        };
                        match f {
                            Value::Closure { env: cenv, var, body } => {
                                let ghost m1v = self.model();
                                let t_id = self.thunks.len();
                                let arg = b.dup();
                                proof {
                                    assert(env_ok(env, self.envs@.len() as int));
                                }
                                self.thunks.push(Thunk::Todo(arg, env));
                                proof {
                                    assert forall|i: int|
                                        0 <= i < self.envs@.len() implies node_wf(
                                        #[trigger] self.envs@[i],
                                        i,
                                        self.thunks@.len() as int,
                                    ) by {}
                                }
                                let e_id = self.envs.len();
                                self.envs.push(EnvNode { var, thunk: t_id, parent: cenv });
                                proof {
                                    assert forall|i: int|
                                        0 <= i < self.thunks@.len() implies thunk_wf(
                                        #[trigger] self.thunks@[i],
                                        self.envs@.len() as int,
                                    ) by {}
                                    assert forall|i: int|
                                        0 <= i < self.envs@.len() implies node_wf(
                                        #[trigger] self.envs@[i],
                                        i,
                                        self.thunks@.len() as int,
                                    ) by {}
                                    assert(self.model().thunks =~= m1v.thunks.push(
                                        ThunkV::Todo(arg@, opt_view(env)),
                                    ));
                                    assert(self.model().envs =~= m1v.envs.push(
                                        FrameV {
                                            var: var@,
                                            thunk: t_id as int,
                                            parent: opt_view(cenv),
                                        },
                                    ));
                                    assert(self.model() =~= MachineV {
                                        thunks: m1v.thunks.push(ThunkV::Todo((**b)@, opt_view(env))),
                                        envs: m1v.envs.push(
                                            FrameV {
                                                var: var@,
                                                thunk: m1v.thunks.len() as int,
                                                parent: opt_view(cenv),
                                            },
                                        ),
                                        ..m1v
                                    });
                                }
                                self.eval(&body, Some(e_id))
                            },
                            _ => Err(EvalError::TypeMismatch),
                        }
                    },
                    _ => {
                        let va = match self.eval(a, env) {
                            Ok(v) => v,
                            Err(er) => {
                                return Err(er);
                            },
                        };
                        let vb = match self.eval(b, env) {
                            Ok(v) => v,
                            Err(er) => {
                                return Err(er);
                            },
                        };
                        apply_binop(*op, va, vb)
                    },
                }
            },
            Token::If(c, t, el) => {
                proof {
                    assert(e@ matches ExprV::If(cc, tt, ee) && *cc == (**c)@ && *tt == (**t)@ && *ee
                        == (**el)@);
                    assert(exprv_wf((**c)@) && exprv_wf((**t)@) && exprv_wf((**el)@));
                }
                let vc = match self.eval(c, env) {
                    Ok(v) => v,
                    Err(er) => {
                        return Err(er);
                    },
                };
                match vc {
                    Value::Bool(true) => self.eval(t, env),
                    Value::Bool(false) => self.eval(el, env),
                    _ => Err(EvalError::TypeMismatch),
                }
            },
            Token::Lambda(v, b) => {
                proof {
                    assert(e@ matches ExprV::Lambda(vv, bb) && *bb == (**b)@);
                    assert(exprv_wf((**b)@));
                }
                let clo = Value::Closure { env, var: v.duplicate(), body: (**b).dup() };
                proof {
                    assert(value_wf(clo, self.envs@.len() as int));
                }
                Ok(clo)
            },
            Token::Var(v) => {
                match self.lookup(env, v) {
                    None => Err(EvalError::UnboundVariable),
                    Some(t) => self.force(t),
                }
            },
        }
    }

    /// Forces a thunk: returns its cached value, or reduces its expression
    /// once and caches the result.
    fn force(&mut self, t: usize) -> (r: Result<Value, EvalError>)
        requires
            old(self).wf(),
            (t as int) < old(self).thunks@.len(),
        ensures
            final(self).wf(),
            final(self).envs@.len() >= old(self).envs@.len(),
            final(self).thunks@.len() >= old(self).thunks@.len(),
            final(self).steps <= old(self).steps,
            r matches Ok(v) ==> value_wf(v, final(self).envs@.len() as int),
            ({
                let (rv, m2) = force_spec(t as int, old(self).model());
                final(self).model() == m2 && (match r {
                    Ok(v) => rv == Ok::<ValueV, EvalError>(v@),
                    Err(er) => rv == Err::<ValueV, EvalError>(er),
                })
            }),
        decreases old(self).steps, 1int,
    {
        let todo: (Token, Option<usize>);
        match &self.thunks[t] {
            Thunk::Done(v) => {
                return Ok(v.dup());
            },
            Thunk::Todo(e, env) => {
                todo = (e.dup(), *env);
            },
        }
        let (e, env) = todo;
        let v = match self.eval(&e, env) {
            Ok(v) => v,
            Err(er) => {
                return Err(er);
            },
        };
        let cached = v.dup();
        self.thunks[t] = Thunk::Done(cached);
        proof {
            assert forall|i: int|
                0 <= i < self.thunks@.len() implies thunk_wf(
                #[trigger] self.thunks@[i],
                self.envs@.len() as int,
            ) by {}
            assert forall|i: int|
                0 <= i < self.envs@.len() implies node_wf(
                #[trigger] self.envs@[i],
                i,
                self.thunks@.len() as int,
            ) by {}
        }
        if self.forces < u64::MAX {
            self.forces = self.forces + 1;
        }
        Ok(v)
    }

    /// Reduces a whole program tree to a value within the budget.
    pub fn run(&mut self, e: &Token) -> (r: Result<Value, EvalError>)
        requires
            old(self).wf(),
            e.wf(),
            exprv_wf(e@),
        ensures
            final(self).wf(),
            r matches Ok(v) ==> value_wf(v, final(self).envs@.len() as int),
            ({
                let (rv, m2) = eval_spec(e@, None, old(self).model());
                final(self).model() == m2 && (match r {
                    Ok(v) => rv == Ok::<ValueV, EvalError>(v@),
                    Err(er) => rv == Err::<ValueV, EvalError>(er),
                })
            }),
    {
        self.eval(e, None)
    }
}

} // verus!
