use icfp2024::EvalError;
use icfp2024::Program;
use icfp2024::bigint::BigInt;
use icfp2024::codec::decode_string;
use icfp2024::codec::encode_string;
use icfp2024::lang::Token;
use icfp2024::lang::parse;

fn run(src: &[u8]) -> Result<String, EvalError> {
    Program::new(src.to_vec()).evaluate(100_000)
}

#[test]
fn parse_test() {
    let src = vec![b"SB%,,/".to_vec()];
    let program = parse(&src).unwrap();
    assert_eq!(program, Token::S(b"B%,,/".to_vec()));
    assert_eq!(run(b"SB%,,/").unwrap(), "Hello");
}

#[test]
fn string_decode_fixture() {
    // The published alphabet maps these body bytes to this exact word.
    assert_eq!(decode_string(&b"B%,,/".to_vec()).unwrap(), b"Hello".to_vec());
    assert_eq!(encode_string(&b"Hello".to_vec()).unwrap(), b"B%,,/".to_vec());
}

#[test]
fn string_codec_round_trip() {
    let text = b"Hello World! 0123 ~|\n".to_vec();
    let body = encode_string(&text).unwrap();
    assert_eq!(decode_string(&body).unwrap(), text);
    let body2 = b"!\"#$%&'()*+,-./:;<=>?@[\\]^_`|~".to_vec();
    let text2 = decode_string(&body2).unwrap();
    assert_eq!(encode_string(&text2).unwrap(), body2);
}

#[test]
fn integer_codec_round_trip() {
    for v in [0u64, 1, 93, 94, 95, 1337, 15818151, u64::MAX] {
        let n = BigInt::from_u64(v);
        let body = n.to_body();
        let back = BigInt::from_body(&body).unwrap();
        assert!(back.eq_val(&n));
    }
}

#[test]
fn literal_booleans_and_integers() {
    assert_eq!(run(b"T").unwrap(), "true");
    assert_eq!(run(b"F").unwrap(), "false");
    // The body of a boolean token carries nothing and is ignored.
    assert_eq!(run(b"Tx").unwrap(), "true");
    assert_eq!(run(b"I!").unwrap(), "0");
    assert_eq!(run(b"I\"").unwrap(), "1");
    assert_eq!(run(b"I/6").unwrap(), "1337");
    assert_eq!(run(b"U- I(").unwrap(), "-7");
}

#[test]
fn arithmetic_operators() {
    assert_eq!(run(b"B+ I# I$").unwrap(), "5");
    assert_eq!(run(b"B- I$ I#").unwrap(), "1");
    assert_eq!(run(b"B* I$ I#").unwrap(), "6");
    assert_eq!(run(b"B/ U- I( I#").unwrap(), "-3");
    assert_eq!(run(b"B% U- I( I#").unwrap(), "-1");
    assert_eq!(run(b"B/ I( I#").unwrap(), "3");
    assert_eq!(run(b"B% I( I#").unwrap(), "1");
}

#[test]
fn truncating_convention() {
    // -7 divided by 2 truncates toward zero; the remainder keeps the
    // dividend's sign.
    let minus_seven = BigInt::from_u64(7).negated();
    let two = BigInt::from_u64(2);
    let (q, m) = minus_seven.divmod(&two).unwrap();
    assert_eq!(q.to_decimal(), b"-3".to_vec());
    assert_eq!(m.to_decimal(), b"-1".to_vec());
}

#[test]
fn comparison_and_equality() {
    assert_eq!(run(b"B< I! I\"").unwrap(), "true");
    assert_eq!(run(b"B> I! I\"").unwrap(), "false");
    assert_eq!(run(b"B= I# I#").unwrap(), "true");
    assert_eq!(run(b"B= T F").unwrap(), "false");
    assert_eq!(run(b"B= S! S!").unwrap(), "true");
    assert_eq!(run(b"B= S! S\"").unwrap(), "false");
}

#[test]
fn boolean_operators_are_eager() {
    assert_eq!(run(b"B| T F").unwrap(), "true");
    assert_eq!(run(b"B& T F").unwrap(), "false");
    assert_eq!(run(b"U! T").unwrap(), "false");
    // No short-circuit: the second operand is forced even when the first
    // already decides a short-circuiting reading.
    assert_eq!(run(b"B| T B+ T T"), Err(EvalError::TypeMismatch));
}

#[test]
fn string_operators() {
    assert_eq!(run(b"B. S4% S34").unwrap(), "test");
    assert_eq!(run(b"BT I# S!\"#$%").unwrap(), "ab");
    assert_eq!(run(b"BD I# S!\"#$%").unwrap(), "cde");
    assert_eq!(run(b"BT I! S!\"#$%").unwrap(), "");
    assert_eq!(run(b"BD I! S!\"#$%").unwrap(), "abcde");
}

#[test]
fn string_integer_conversions() {
    assert_eq!(run(b"U# S4%34").unwrap(), "15818151");
    assert_eq!(run(b"U$ I4%34").unwrap(), "test");
}

#[test]
fn conditional_is_non_strict() {
    // The untaken branch holds an unbound variable and is never forced.
    assert_eq!(run(b"? T I\" vz").unwrap(), "1");
    assert_eq!(run(b"? F vz I\"").unwrap(), "1");
}

#[test]
fn application_and_shadowing() {
    assert_eq!(run(b"B$ L! v! I\"").unwrap(), "1");
    assert_eq!(run(b"B$ L! B$ L! v! I# I\"").unwrap(), "2");
    // Lexical capture: the outer binding is the one the inner body sees.
    assert_eq!(run(b"B$ B$ L# L$ v# I\" I#").unwrap(), "1");
}

#[test]
fn leading_zero_digits_are_accepted() {
    // No canonicalisation is asked of a numeral body: a zero digit in
    // front changes nothing.
    assert_eq!(run(b"I!#").unwrap(), "2");
    assert_eq!(run(b"I!!").unwrap(), "0");
}

#[test]
fn memoized_call_by_need() {
    // The lambda body uses its variable twice, but the argument is reduced
    // exactly once.
    let program = Program::new(b"B$ L# B+ v# v# I$".to_vec());
    let (out, forces) = program.evaluate_counted(100_000).unwrap();
    assert_eq!(out, "6");
    assert_eq!(forces, 1);
}

#[test]
fn divergence_is_contained() {
    // Self-application diverges; the budget turns it into an error, while a
    // terminating program of similar size completes within the same budget.
    let omega = b"B$ L! B$ v! v! L! B$ v! v!";
    assert_eq!(
        Program::new(omega.to_vec()).evaluate(1_000),
        Err(EvalError::StepBudgetExceeded)
    );
    assert_eq!(
        Program::new(b"B$ L! v! I\"".to_vec()).evaluate(1_000).unwrap(),
        "1"
    );
}

#[test]
fn error_taxonomy() {
    assert_eq!(run(b"X"), Err(EvalError::DecodeError));
    assert_eq!(run(b"U^ T"), Err(EvalError::DecodeError));
    assert_eq!(run(b"I"), Err(EvalError::DecodeError));
    assert_eq!(run(b"B+ I!"), Err(EvalError::ParseError));
    assert_eq!(run(b"T F"), Err(EvalError::ParseError));
    assert_eq!(run(b""), Err(EvalError::ParseError));
    assert_eq!(run(b"v!"), Err(EvalError::UnboundVariable));
    assert_eq!(run(b"B+ T I!"), Err(EvalError::TypeMismatch));
    assert_eq!(run(b"B/ I\" I!"), Err(EvalError::DivisionByZero));
    assert_eq!(run(b"B% I\" I!"), Err(EvalError::DivisionByZero));
    assert_eq!(run(b"BT I% S!\""), Err(EvalError::IndexOutOfRange));
    assert_eq!(run(b"BD I% S!\""), Err(EvalError::IndexOutOfRange));
    assert_eq!(run(b"U- S!"), Err(EvalError::TypeMismatch));
    assert_eq!(run(b"L! v!"), Err(EvalError::TypeMismatch));
}

#[test]
fn whitespace_separates_tokens() {
    assert_eq!(run(b"  B+\tI#\nI$\r\n").unwrap(), "5");
}

#[test]
fn big_integers_do_not_overflow() {
    // 2^70 by repeated doubling: well past any machine word.
    let mut n = BigInt::from_u64(1);
    let two = BigInt::from_u64(2);
    for _ in 0..70 {
        n = n.mul(&two);
    }
    assert_eq!(n.to_decimal(), b"1180591620717411303424".to_vec());
    let (q, m) = n.divmod(&two).unwrap();
    assert_eq!(q.to_decimal(), b"590295810358705651712".to_vec());
    assert!(m.is_zero());
}
