//! Tokens and syntax of the language.
//!
//! A program is whitespace-separated tokens; each token is a one-letter
//! indicator followed by a body. The grammar is an unambiguous prefix tree:
//! every indicator has a fixed arity, so a single forward pass parses the
//! whole program with no backtracking.
use vstd::prelude::*;

use crate::EvalError;
use crate::bigint::BigInt;
use crate::bigint::digits_of;
use crate::bigint::msbval;
use crate::codec::body_byte;

verus! {

/// A token-separating byte: space, newline, tab or carriage return.
pub open spec fn is_ws(b: u8) -> bool {
    b == 32 || b == 10 || b == 9 || b == 13
}

/// Splits the bytes after the current partial token `cur` into tokens.
pub open spec fn split_ws(s: Seq<u8>, cur: Seq<u8>) -> Seq<Seq<u8>>
    decreases s.len(),
{
    if s.len() == 0 {
        if cur.len() == 0 {
            Seq::empty()
        } else {
            seq![cur]
        }
    } else if is_ws(s[0]) {
        if cur.len() == 0 {
            split_ws(s.skip(1), Seq::empty())
        } else {
            seq![cur] + split_ws(s.skip(1), Seq::empty())
        }
    } else {
        split_ws(s.skip(1), cur.push(s[0]))
    }
}

/// The token sequence of a program text: maximal runs of non-whitespace
/// bytes, in order.
pub open spec fn tokens_spec(s: Seq<u8>) -> Seq<Seq<u8>> {
    split_ws(s, Seq::empty())
}

/// Splitting never makes an empty token, and whitespace never enters one.
pub proof fn lemma_tokens_wf(s: Seq<u8>, cur: Seq<u8>)
    requires
        forall|j: int| 0 <= j < cur.len() ==> !is_ws(#[trigger] cur[j]),
    ensures
        forall|k: int|
            0 <= k < split_ws(s, cur).len() ==> (#[trigger] split_ws(s, cur)[k]).len() > 0 && (
            forall|j: int|
                0 <= j < split_ws(s, cur)[k].len() ==> !is_ws(#[trigger] split_ws(s, cur)[k][j])),
    decreases s.len(),
{
    let r = split_ws(s, cur);
    if s.len() == 0 {
        if cur.len() > 0 {
            assert(r == seq![cur]);
            assert(r[0] == cur);
        }
    } else if is_ws(s[0]) {
        lemma_tokens_wf(s.skip(1), Seq::empty());
        let tail = split_ws(s.skip(1), Seq::empty());
        if cur.len() > 0 {
            assert(r == seq![cur] + tail);
            assert forall|k: int| 0 <= k < r.len() implies (#[trigger] r[k]).len() > 0 && (
            forall|j: int| 0 <= j < r[k].len() ==> !is_ws(#[trigger] r[k][j])) by {
                if k == 0 {
                    assert(r[0] == cur);
                } else {
                    assert(r[k] == tail[k - 1]);
                }
            }
        } else {
            assert(r == tail);
            assert forall|k: int| 0 <= k < r.len() implies (#[trigger] r[k]).len() > 0 && (
            forall|j: int| 0 <= j < r[k].len() ==> !is_ws(#[trigger] r[k][j])) by {
                assert(r[k] == tail[k]);
            }
        }
    } else {
        let cur2 = cur.push(s[0]);
        assert forall|j: int| 0 <= j < cur2.len() implies !is_ws(#[trigger] cur2[j]) by {
            if j < cur.len() {
                assert(cur2[j] == cur[j]);
            }
        }
        lemma_tokens_wf(s.skip(1), cur2);
        let tail = split_ws(s.skip(1), cur2);
        assert(r == tail);
        assert forall|k: int| 0 <= k < r.len() implies (#[trigger] r[k]).len() > 0 && (
        forall|j: int| 0 <= j < r[k].len() ==> !is_ws(#[trigger] r[k][j])) by {
            assert(r[k] == tail[k]);
        }
    }
}

/// Splits program text into tokens. Every token is a non-empty run of
/// non-whitespace bytes; whitespace only separates.
pub fn tokenize(src: &Vec<u8>) -> (r: Vec<Vec<u8>>)
    ensures
        r.deep_view() == tokens_spec(src@),
        forall|k: int| 0 <= k < r.deep_view().len() ==> (#[trigger] r.deep_view()[k]).len() > 0,
{
    proof {
        lemma_tokens_wf(src@, Seq::empty());
    }
    let n = src.len();
    let mut out: Vec<Vec<u8>> = Vec::new();
    let mut cur: Vec<u8> = Vec::new();
    let mut i: usize = 0;
    proof {
        assert(src@.skip(0) =~= src@);
        assert(out.deep_view() =~~= Seq::<Seq<u8>>::empty());
    }
    while i < n
        invariant
            n == src@.len(),
            0 <= i <= n,
            tokens_spec(src@) == out.deep_view() + split_ws(src@.skip(i as int), cur@),
        decreases n - i,
    {
        let b = src[i];
        proof {
            assert(src@.skip(i as int)[0] == src@[i as int]);
            assert(src@.skip(i as int).skip(1) =~= src@.skip(i + 1));
        }
        if b == 32 || b == 10 || b == 9 || b == 13 {
            if cur.len() > 0 {
                let ghost old_out = out.deep_view();
                let ghost tok = cur@;
                out.push(cur);
                cur = Vec::new();
                proof {
                    assert(cur@ =~= Seq::<u8>::empty());
                    assert(out.deep_view() =~~= old_out + seq![tok]);
                    assert(old_out + (seq![tok] + split_ws(src@.skip(i + 1), Seq::empty())) =~= (
                    old_out + seq![tok]) + split_ws(src@.skip(i + 1), Seq::empty()));
                }
            } else {
                proof {
                    assert(cur@ =~= Seq::<u8>::empty());
                }
            }
        } else {
            cur.push(b);
        }
        i += 1;
    }
    proof {
        assert(src@.skip(n as int) =~= Seq::<u8>::empty());
    }
    if cur.len() > 0 {
        let ghost old_out = out.deep_view();
        let ghost tok = cur@;
        out.push(cur);
        proof {
            assert(out.deep_view() =~~= old_out + seq![tok]);
        }
    } else {
        proof {
            assert(out.deep_view() + Seq::<Seq<u8>>::empty() =~= out.deep_view());
        }
    }
    out
}

/// A unary operator.
#[derive(Debug, Clone, Copy, PartialEq, Eq, Structural)]
pub enum UnOp {
    /// `U-`: arithmetic complement of an integer.
    Negate,
    /// `U!`: boolean complement.
    Not,
    /// `U#`: a string read as a base-94 numeral.
    StringToInt,
    /// `U$`: an integer written as a base-94 numeral string.
    IntToString,
}

/// A binary operator.
#[derive(Debug, Clone, Copy, PartialEq, Eq, Structural)]
pub enum BinOp {
    /// `B+`
    Add,
    /// `B-`
    Sub,
    /// `B*`
    Mul,
    /// `B/`: truncating division.
    Div,
    /// `B%`: remainder, signed like the dividend.
    Mod,
    /// `B<`
    Lt,
    /// `B>`
    Gt,
    /// `B=`: equality of two integers, two booleans or two strings.
    Eq,
    /// `B|`: eager boolean or.
    Or,
    /// `B&`: eager boolean and.
    And,
    /// `B.`: string concatenation.
    Concat,
    /// `BT`: the first `n` characters of a string.
    Take,
    /// `BD`: a string without its first `n` characters.
    Drop,
    /// `B$`: application of a lambda to an argument.
    Apply,
}

/// An abstract syntax tree node. String literals keep their raw body bytes;
/// they are decoded only when rendered.
#[derive(Debug, PartialEq, Eq)]
pub enum Token {
    /// `T` or `F`.
    Bool(bool),
    /// `I`, a non-negative base-94 numeral.
    Int(BigInt),
    /// `S`, raw body bytes.
    S(Vec<u8>),
    /// `U` and one operand.
    Unary(UnOp, Box<Token>),
    /// `B` and two operands.
    Binary(BinOp, Box<Token>, Box<Token>),
    /// `?`: condition, then-branch, else-branch.
    If(Box<Token>, Box<Token>, Box<Token>),
    /// `L`, a bound variable number and a body.
    Lambda(BigInt, Box<Token>),
    /// `v`, a variable reference.
    Var(BigInt),
}

/// The mathematical shape of a syntax tree: integers as values, strings as
/// byte sequences.
pub enum ExprV {
    Bool(bool),
    Int(int),
    Str(Seq<u8>),
    Unary(UnOp, Box<ExprV>),
    Binary(BinOp, Box<ExprV>, Box<ExprV>),
    If(Box<ExprV>, Box<ExprV>, Box<ExprV>),
    Lambda(int, Box<ExprV>),
    Var(int),
}

impl View for Token {
    type V = ExprV;

    open spec fn view(&self) -> ExprV
        decreases self,
    {
        match self {
            Token::Bool(b) => ExprV::Bool(*b),
            Token::Int(n) => ExprV::Int(n@),
            Token::S(s) => ExprV::Str(s@),
            Token::Unary(op, a) => ExprV::Unary(*op, Box::new((**a)@)),
            Token::Binary(op, a, b) => ExprV::Binary(*op, Box::new((**a)@), Box::new((**b)@)),
            Token::If(c, t, e) => ExprV::If(Box::new((**c)@), Box::new((**t)@), Box::new((**e)@)),
            Token::Lambda(v, b) => ExprV::Lambda(v@, Box::new((**b)@)),
            Token::Var(v) => ExprV::Var(v@),
        }
    }
}

/// Validity of a tree's shape: string bodies printable, numbers and variable
/// identifiers non-negative.
pub open spec fn exprv_wf(e: ExprV) -> bool
    decreases e,
{
    match e {
        ExprV::Bool(_) => true,
        ExprV::Int(n) => n >= 0,
        ExprV::Str(s) => forall|i: int| 0 <= i < s.len() ==> body_byte(#[trigger] s[i]),
        ExprV::Unary(_, a) => exprv_wf(*a),
        ExprV::Binary(_, a, b) => exprv_wf(*a) && exprv_wf(*b),
        ExprV::If(c, t, e2) => exprv_wf(*c) && exprv_wf(*t) && exprv_wf(*e2),
        ExprV::Lambda(v, b) => v >= 0 && exprv_wf(*b),
        ExprV::Var(v) => v >= 0,
    }
}

impl Token {
    /// The representation invariant: every number in the tree is canonical.
    pub open spec fn wf(&self) -> bool
        decreases self,
    {
        match self {
            Token::Bool(_) => true,
            Token::Int(n) => n.wf(),
            Token::S(_) => true,
            Token::Unary(_, a) => a.wf(),
            Token::Binary(_, a, b) => a.wf() && b.wf(),
            Token::If(c, t, e) => c.wf() && t.wf() && e.wf(),
            Token::Lambda(v, b) => v.wf() && b.wf(),
            Token::Var(v) => v.wf(),
        }
    }
}

impl Token {
    /// A structurally identical copy.
    pub fn dup(&self) -> (r: Token)
        ensures
            r@ == self@,
            self.wf() ==> r.wf(),
        decreases self,
    {
        match self {
            Token::Bool(b) => Token::Bool(*b),
            Token::Int(n) => Token::Int(n.duplicate()),
            Token::S(s) => Token::S(crate::codec::copy_bytes(s)),
            Token::Unary(op, a) => Token::Unary(*op, Box::new(a.dup())),
            Token::Binary(op, a, b) => Token::Binary(*op, Box::new(a.dup()), Box::new(b.dup())),
            Token::If(c, t, e) => Token::If(Box::new(c.dup()), Box::new(t.dup()), Box::new(e.dup())),
            Token::Lambda(v, b) => Token::Lambda(v.duplicate(), Box::new(b.dup())),
            Token::Var(v) => Token::Var(v.duplicate()),
        }
    }
}

/// The unary operator named by a `U` token's body.
pub open spec fn unop_of(body: Seq<u8>) -> Option<UnOp> {
    if body == seq![45u8] {
        Some(UnOp::Negate)
    } else if body == seq![33u8] {
        Some(UnOp::Not)
    } else if body == seq![35u8] {
        Some(UnOp::StringToInt)
    } else if body == seq![36u8] {
        Some(UnOp::IntToString)
    } else {
        None
    }
}

/// The binary operator named by a `B` token's body.
pub open spec fn binop_of(body: Seq<u8>) -> Option<BinOp> {
    if body == seq![43u8] {
        Some(BinOp::Add)
    } else if body == seq![45u8] {
        Some(BinOp::Sub)
    } else if body == seq![42u8] {
        Some(BinOp::Mul)
    } else if body == seq![47u8] {
        Some(BinOp::Div)
    } else if body == seq![37u8] {
        Some(BinOp::Mod)
    } else if body == seq![60u8] {
        Some(BinOp::Lt)
    } else if body == seq![62u8] {
        Some(BinOp::Gt)
    } else if body == seq![61u8] {
        Some(BinOp::Eq)
    } else if body == seq![124u8] {
        Some(BinOp::Or)
    } else if body == seq![38u8] {
        Some(BinOp::And)
    } else if body == seq![46u8] {
        Some(BinOp::Concat)
    } else if body == seq![84u8] {
        Some(BinOp::Take)
    } else if body == seq![68u8] {
        Some(BinOp::Drop)
    } else if body == seq![36u8] {
        Some(BinOp::Apply)
    } else {
        None
    }
}

/// A valid numeral body: non-empty printable bytes.
pub open spec fn valid_num_body(body: Seq<u8>) -> bool {
    body.len() > 0 && forall|i: int| 0 <= i < body.len() ==> body_byte(#[trigger] body[i])
}

/// A valid string body: printable bytes, possibly none.
pub open spec fn valid_str_body(body: Seq<u8>) -> bool {
    forall|i: int| 0 <= i < body.len() ==> body_byte(#[trigger] body[i])
}

/// One step of prefix parsing: the expression read from the front of the
/// token list and the tokens left over, or the exact error. A malformed
/// token is a `DecodeError`; running out of tokens is a `ParseError`; the
/// bodies of `T`, `F` and `?` carry nothing and are ignored. A parse always
/// consumes at least one token, so a leftover list as long as the input is
/// no parse at all.
pub open spec fn parse_spec(toks: Seq<Seq<u8>>) -> Result<(ExprV, Seq<Seq<u8>>), EvalError>
    decreases toks.len(),
{
    if toks.len() == 0 {
        Err(EvalError::ParseError)
    } else {
        let tok = toks[0];
        let rest = toks.skip(1);
        if tok.len() == 0 {
            Err(EvalError::DecodeError)
        } else {
            let ind = tok[0];
            let body = tok.skip(1);
            if ind == 84 {  // 'T'
                Ok((ExprV::Bool(true), rest))
            } else if ind == 70 {  // 'F'
                Ok((ExprV::Bool(false), rest))
            } else if ind == 73 {  // 'I'
                if valid_num_body(body) {
                    Ok((ExprV::Int(msbval(digits_of(body))), rest))
                } else {
                    Err(EvalError::DecodeError)
                }
            } else if ind == 83 {  // 'S'
                if valid_str_body(body) {
                    Ok((ExprV::Str(body), rest))
                } else {
                    Err(EvalError::DecodeError)
                }
            } else if ind == 85 {  // 'U'
                match unop_of(body) {
                    None => Err(EvalError::DecodeError),
                    Some(op) => match parse_spec(rest) {
                        Err(e) => Err(e),
                        Ok((a, r1)) => Ok((ExprV::Unary(op, Box::new(a)), r1)),
                    },
                }
            } else if ind == 66 {  // 'B'
                match binop_of(body) {
                    None => Err(EvalError::DecodeError),
                    Some(op) => match parse_spec(rest) {
                        Err(e) => Err(e),
                        Ok((a, r1)) => if r1.len() < toks.len() {
                            match parse_spec(r1) {
                                Err(e) => Err(e),
                                Ok((b, r2)) => Ok((ExprV::Binary(op, Box::new(a), Box::new(b)), r2)),
                            }
                        } else {
                            Err(EvalError::ParseError)
                        },
                    },
                }
            } else if ind == 63 {  // '?'
                {
                    match parse_spec(rest) {
                        Err(e) => Err(e),
                        Ok((c, r1)) => if r1.len() < toks.len() {
                            match parse_spec(r1) {
                                Err(e) => Err(e),
                                Ok((t, r2)) => if r2.len() < toks.len() {
                                    match parse_spec(r2) {
                                        Err(e) => Err(e),
                                        Ok((el, r3)) => Ok(
                                            (
                                                ExprV::If(
                                                    Box::new(c),
                                                    Box::new(t),
                                                    Box::new(el),
                                                ),
                                                r3,
                                            ),
                                        ),
                                    }
                                } else {
                                    Err(EvalError::ParseError)
                                },
                            }
                        } else {
                            Err(EvalError::ParseError)
                        },
                    }
                }
            } else if ind == 76 {  // 'L'
                if valid_num_body(body) {
                    match parse_spec(rest) {
                        Err(e) => Err(e),
                        Ok((b, r1)) => Ok(
                            (ExprV::Lambda(msbval(digits_of(body)), Box::new(b)), r1),
                        ),
                    }
                } else {
                    Err(EvalError::DecodeError)
                }
            } else if ind == 118 {  // 'v'
                if valid_num_body(body) {
                    Ok((ExprV::Var(msbval(digits_of(body))), rest))
                } else {
                    Err(EvalError::DecodeError)
                }
            } else {
                Err(EvalError::DecodeError)
            }
        }
    }
}

/// Copies a token's body, the bytes after its indicator.
fn body_of(tok: &Vec<u8>) -> (r: Vec<u8>)
    requires
        tok@.len() >= 1,
    ensures
        r@ == tok@.skip(1),
{
    let mut out: Vec<u8> = Vec::new();
    let mut i: usize = 1;
    while i < tok.len()
        invariant
            1 <= i <= tok@.len(),
            out@ =~= tok@.skip(1).take(i - 1),
        decreases tok@.len() - i,
    {
        out.push(tok[i]);
        i += 1;
    }
    proof {
        assert(tok@.skip(1).take(tok@.len() - 1) =~= tok@.skip(1));
    }
    out
}


/// Recognises a unary operator body.
fn unop_exec(body: &Vec<u8>) -> (r: Option<UnOp>)
    ensures
        r == unop_of(body@),
{
    proof {
        if body@.len() == 1 {
            assert(body@ =~= seq![body@[0]]);
        } else {
            assert(body@ != seq![45u8] && body@ != seq![33u8] && body@ != seq![35u8] && body@
                != seq![36u8]);
        }
    }
    if body.len() != 1 {
        None
    } else if body[0] == 45 {
        Some(UnOp::Negate)
    } else if body[0] == 33 {
        Some(UnOp::Not)
    } else if body[0] == 35 {
        Some(UnOp::StringToInt)
    } else if body[0] == 36 {
        Some(UnOp::IntToString)
    } else {
        None
    }
}

/// Recognises a binary operator body.
fn binop_exec(body: &Vec<u8>) -> (r: Option<BinOp>)
    ensures
        r == binop_of(body@),
{
    proof {
        if body@.len() == 1 {
            assert(body@ =~= seq![body@[0]]);
        } else {
            assert(body@ != seq![43u8] && body@ != seq![45u8] && body@ != seq![42u8] && body@
                != seq![47u8] && body@ != seq![37u8] && body@ != seq![60u8] && body@ != seq![62u8]
                && body@ != seq![61u8] && body@ != seq![124u8] && body@ != seq![38u8] && body@
                != seq![46u8] && body@ != seq![84u8] && body@ != seq![68u8] && body@ != seq![36u8]);
        }
    }
    if body.len() != 1 {
        None
    } else if body[0] == 43 {
        Some(BinOp::Add)
    } else if body[0] == 45 {
        Some(BinOp::Sub)
    } else if body[0] == 42 {
        Some(BinOp::Mul)
    } else if body[0] == 47 {
        Some(BinOp::Div)
    } else if body[0] == 37 {
        Some(BinOp::Mod)
    } else if body[0] == 60 {
        Some(BinOp::Lt)
    } else if body[0] == 62 {
        Some(BinOp::Gt)
    } else if body[0] == 61 {
        Some(BinOp::Eq)
    } else if body[0] == 124 {
        Some(BinOp::Or)
    } else if body[0] == 38 {
        Some(BinOp::And)
    } else if body[0] == 46 {
        Some(BinOp::Concat)
    } else if body[0] == 84 {
        Some(BinOp::Take)
    } else if body[0] == 68 {
        Some(BinOp::Drop)
    } else if body[0] == 36 {
        Some(BinOp::Apply)
    } else {
        None
    }
}

/// Parses one expression from position `i` of the token list, returning it
/// with the position after it. Follows [`parse_spec`] exactly.
#[verifier::rlimit(50)]
#[verifier::spinoff_prover]
fn parse_expr(toks: &Vec<Vec<u8>>, i: usize) -> (r: Result<(Token, usize), EvalError>)
    requires
        i <= toks@.len(),
    ensures
        r matches Ok(p) ==> i < p.1 <= toks@.len() && p.0.wf() && exprv_wf(p.0@) && parse_spec(
            toks.deep_view().skip(i as int),
        ) == Ok::<_, EvalError>((p.0@, toks.deep_view().skip(p.1 as int))),
        r matches Err(e) ==> parse_spec(toks.deep_view().skip(i as int)) == Err::<
            (ExprV, Seq<Seq<u8>>),
            _,
        >(e),
    decreases toks@.len() - i,
{
    let ghost dv = toks.deep_view();
    let ghost suf = dv.skip(i as int);
    if i >= toks.len() {
        proof {
            assert(suf.len() == 0);
        }
        return Err(EvalError::ParseError);
    }
    let tok = &toks[i];
    proof {
        assert(suf[0] == dv[i as int]);
        assert(dv[i as int] == tok@);
        assert(suf.skip(1) =~= dv.skip(i + 1));
    }
    if tok.len() == 0 {
        return Err(EvalError::DecodeError);
    }
    let ind = tok[0];
    let body = body_of(tok);
    let ghost bodyv = tok@.skip(1);
    if ind == 84 {
        Ok((Token::Bool(true), i + 1))
    } else if ind == 70 {
        Ok((Token::Bool(false), i + 1))
    } else if ind == 73 {
        match BigInt::from_body(&body) {
            Ok(n) => Ok((Token::Int(n), i + 1)),
            Err(e) => Err(e),
        }
    } else if ind == 83 {
        let ok = check_body(&body);
        if ok {
            Ok((Token::S(body), i + 1))
        } else {
            Err(EvalError::DecodeError)
        }
    } else if ind == 85 {
        match unop_exec(&body) {
            None => Err(EvalError::DecodeError),
            Some(op) => match parse_expr(toks, i + 1) {
                Err(e) => Err(e),
                Ok((a, j)) => Ok((Token::Unary(op, Box::new(a)), j)),
            },
        }
    } else if ind == 66 {
        match binop_exec(&body) {
            None => Err(EvalError::DecodeError),
            Some(op) => match parse_expr(toks, i + 1) {
                Err(e) => Err(e),
                Ok((a, j)) => {
                    proof {
                        assert(dv.skip(j as int).len() < suf.len());
                    }
                    match parse_expr(toks, j) {
                        Err(e) => Err(e),
                        Ok((b, k)) => Ok((Token::Binary(op, Box::new(a), Box::new(b)), k)),
                    }
                },
            },
        }
    } else if ind == 63 {
        match parse_expr(toks, i + 1) {
            Err(e) => Err(e),
            Ok((c, j)) => {
                proof {
                    assert(dv.skip(j as int).len() < suf.len());
                }
                match parse_expr(toks, j) {
                    Err(e) => Err(e),
                    Ok((t, k)) => {
                        proof {
                            assert(dv.skip(k as int).len() < suf.len());
                        }
                        match parse_expr(toks, k) {
                            Err(e) => Err(e),
                            Ok((el, m)) => Ok(
                                (Token::If(Box::new(c), Box::new(t), Box::new(el)), m),
                            ),
                        }
                    },
                }
            },
        }
    } else if ind == 76 {
        match BigInt::from_body(&body) {
            Err(e) => Err(e),
            Ok(n) => match parse_expr(toks, i + 1) {
                Err(e) => Err(e),
                Ok((b, j)) => Ok((Token::Lambda(n, Box::new(b)), j)),
            },
        }
    } else if ind == 118 {
        match BigInt::from_body(&body) {
            Err(e) => Err(e),
            Ok(n) => Ok((Token::Var(n), i + 1)),
        }
    } else {
        Err(EvalError::DecodeError)
    }
}

/// Checks that every byte of a body is printable.
fn check_body(body: &Vec<u8>) -> (r: bool)
    ensures
        r == valid_str_body(body@),
{
    let mut k: usize = 0;
    while k < body.len()
        invariant
            0 <= k <= body@.len(),
            forall|j: int| 0 <= j < k ==> body_byte(#[trigger] body@[j]),
        decreases body@.len() - k,
    {
        let b = body[k];
        if b < 33 || b > 126 {
            return false;
        }
        k += 1;
    }
    true
}

/// Parses a whole token list into one expression. A leftover token after
/// the root expression is a `ParseError`; the other outcomes are those of
/// [`parse_spec`].
pub fn parse(src: &Vec<Vec<u8>>) -> (r: Result<Token, EvalError>)
    ensures
        r matches Ok(e) ==> e.wf() && exprv_wf(e@) && parse_spec(src.deep_view()) == Ok::<
            _,
            EvalError,
        >((e@, Seq::<Seq<u8>>::empty())),
        r matches Err(er) ==> match parse_spec(src.deep_view()) {
            Ok((_, rest)) => rest.len() > 0 && er == EvalError::ParseError,
            Err(e2) => er == e2,
        },
{
    let ghost dv = src.deep_view();
    proof {
        assert(dv.skip(0) =~= dv);
    }
    match parse_expr(src, 0) {
        Err(e) => Err(e),
        Ok((e, j)) => {
            if j < src.len() {
                Err(EvalError::ParseError)
            } else {
                proof {
                    assert(dv.skip(j as int) =~= Seq::<Seq<u8>>::empty());
                }
                Ok(e)
            }
        },
    }
}

} // verus!
