//! The fixed 94-symbol substitution alphabet.
//!
//! A token body carries printable bytes 33..=126. Subtracting 33 gives an
//! index 0..=93 into a fixed table of literal characters: lowercase letters,
//! uppercase letters, digits, punctuation, space and newline, in that order.
//! The same index doubles as the digit value of the base-94 numeral system.
use vstd::prelude::*;

use crate::EvalError;

verus! {

/// Whether `b` may appear in a token body.
pub open spec fn body_byte(b: u8) -> bool {
    33 <= b <= 126
}

/// The literal character stored at index `i` of the alphabet table.
pub open spec fn sym(i: int) -> u8
    recommends
        0 <= i < 94,
{
    if 0 <= i < 26 {
        (97 + i) as u8  // 'a'..='z'
    } else if i < 52 {
        (39 + i) as u8  // 'A'..='Z'
    } else if i < 62 {
        (i - 4) as u8  // '0'..='9'
    } else if i < 77 {
        (i - 29) as u8  // '!'..='/'
    } else if i < 84 {
        (i - 19) as u8  // ':'..='@'
    } else if i < 90 {
        (i + 7) as u8  // '['..='`'
    } else if i == 90 {
        124u8  // '|'
    } else if i == 91 {
        126u8  // '~'
    } else if i == 92 {
        32u8  // space
    } else {
        10u8  // newline
    }
}

/// Whether literal character `c` appears in the alphabet table.
pub open spec fn in_alphabet(c: u8) -> bool {
    (97 <= c <= 122) || (65 <= c <= 90) || (48 <= c <= 57) || (33 <= c <= 47) || (58 <= c <= 64)
        || (91 <= c <= 96) || c == 124 || c == 126 || c == 32 || c == 10
}

/// The alphabet index of literal character `c`, the inverse of [`sym`].
pub open spec fn idx(c: u8) -> int
    recommends
        in_alphabet(c),
{
    if 97 <= c <= 122 {
        c - 97
    } else if 65 <= c <= 90 {
        c - 39
    } else if 48 <= c <= 57 {
        c + 4
    } else if 33 <= c <= 47 {
        c + 29
    } else if 58 <= c <= 64 {
        c + 19
    } else if 91 <= c <= 96 {
        c - 7
    } else if c == 124 {
        90
    } else if c == 126 {
        91
    } else if c == 32 {
        92
    } else {
        93
    }
}

/// The table is a bijection between indices 0..94 and its characters:
/// each index maps to a character of the alphabet and back to itself.
pub proof fn lemma_sym_idx(i: int)
    requires
        0 <= i < 94,
    ensures
        in_alphabet(sym(i)),
        idx(sym(i)) == i,
{
}

/// The other direction of the bijection: each alphabet character maps to an
/// index 0..94 and back to itself.
pub proof fn lemma_idx_sym(c: u8)
    requires
        in_alphabet(c),
    ensures
        0 <= idx(c) < 94,
        sym(idx(c)) == c,
{
}

/// The literal character denoted by body byte `b`.
pub open spec fn decoded(b: u8) -> u8
    recommends
        body_byte(b),
{
    sym(b - 33)
}

/// The body byte that denotes literal character `c`.
pub open spec fn encoded(c: u8) -> u8
    recommends
        in_alphabet(c),
{
    (idx(c) + 33) as u8
}

/// The decoded text of a whole body.
pub open spec fn decoded_seq(body: Seq<u8>) -> Seq<u8> {
    body.map_values(|b: u8| decoded(b))
}

/// The encoded body of a whole text.
pub open spec fn encoded_seq(text: Seq<u8>) -> Seq<u8> {
    text.map_values(|c: u8| encoded(c))
}

/// Copies a byte vector.
pub fn copy_bytes(v: &Vec<u8>) -> (r: Vec<u8>)
    ensures
        r@ == v@,
{
    let mut out: Vec<u8> = Vec::new();
    let mut k: usize = 0;
    while k < v.len()
        invariant
            0 <= k <= v@.len(),
            out@ =~= v@.take(k as int),
        decreases v@.len() - k,
    {
        out.push(v[k]);
        k += 1;
    }
    proof {
        assert(v@.take(v@.len() as int) =~= v@);
    }
    out
}

/// Maps one body byte through the table.
pub fn decode_byte(b: u8) -> (c: u8)
    requires
        body_byte(b),
    ensures
        c == decoded(b),
        in_alphabet(c),
{
    proof {
        lemma_sym_idx(b - 33);
    }
    let i = b - 33;
    if i < 26 {
        97 + i
    } else if i < 52 {
        39 + i
    } else if i < 62 {
        i - 4
    } else if i < 77 {
        i - 29
    } else if i < 84 {
        i - 19
    } else if i < 90 {
        i + 7
    } else if i == 90 {
        124
    } else if i == 91 {
        126
    } else if i == 92 {
        32
    } else {
        10
    }
}

/// Maps one literal character back to its body byte.
pub fn encode_byte(c: u8) -> (b: u8)
    requires
        in_alphabet(c),
    ensures
        b == encoded(c),
        body_byte(b),
{
    proof {
        lemma_idx_sym(c);
    }
    if 97 <= c && c <= 122 {
        c - 97 + 33
    } else if 65 <= c && c <= 90 {
        c - 39 + 33
    } else if 48 <= c && c <= 57 {
        c + 4 + 33
    } else if 33 <= c && c <= 47 {
        c + 29 + 33
    } else if 58 <= c && c <= 64 {
        c + 19 + 33
    } else if 91 <= c && c <= 96 {
        c - 7 + 33
    } else if c == 124 {
        90 + 33
    } else if c == 126 {
        91 + 33
    } else if c == 32 {
        92 + 33
    } else {
        93 + 33
    }
}

/// Decodes a string body into its literal text. Fails exactly when a byte
/// lies outside the printable range 33..=126.
pub fn decode_string(body: &Vec<u8>) -> (r: Result<Vec<u8>, EvalError>)
    ensures
        (forall|i: int| 0 <= i < body@.len() ==> body_byte(body@[i])) <==> r is Ok,
        r matches Err(e) ==> e == EvalError::DecodeError,
        r matches Ok(t) ==> t@ == decoded_seq(body@) && forall|i: int|
            0 <= i < t@.len() ==> in_alphabet(#[trigger] t@[i]),
{
    let mut out: Vec<u8> = Vec::new();
    let mut k: usize = 0;
    while k < body.len()
        invariant
            0 <= k <= body@.len(),
            out@ == decoded_seq(body@.take(k as int)),
            forall|i: int| 0 <= i < k ==> body_byte(body@[i]),
            forall|i: int| 0 <= i < out@.len() ==> in_alphabet(#[trigger] out@[i]),
        decreases body@.len() - k,
    {
        let b = body[k];
        if b < 33 || b > 126 {
            return Err(EvalError::DecodeError);
        }
        out.push(decode_byte(b));
        k += 1;
        proof {
            assert(decoded_seq(body@.take(k as int)) =~= decoded_seq(
                body@.take(k - 1),
            ).push(decoded(body@[k - 1])));
        }
    }
    proof {
        assert(body@.take(body@.len() as int) =~= body@);
    }
    Ok(out)
}

/// Encodes literal text into a string body, the exact inverse of
/// [`decode_string`]. Fails exactly when a character is not in the alphabet.
pub fn encode_string(text: &Vec<u8>) -> (r: Result<Vec<u8>, EvalError>)
    ensures
        (forall|i: int| 0 <= i < text@.len() ==> in_alphabet(#[trigger] text@[i])) <==> r is Ok,
        r matches Err(e) ==> e == EvalError::DecodeError,
        r matches Ok(b) ==> b@ == encoded_seq(text@) && forall|i: int|
            0 <= i < b@.len() ==> body_byte(#[trigger] b@[i]),
{
    let mut out: Vec<u8> = Vec::new();
    let mut k: usize = 0;
    while k < text.len()
        invariant
            0 <= k <= text@.len(),
            out@ == encoded_seq(text@.take(k as int)),
            forall|i: int| 0 <= i < k ==> in_alphabet(#[trigger] text@[i]),
            forall|i: int| 0 <= i < out@.len() ==> body_byte(#[trigger] out@[i]),
        decreases text@.len() - k,
    {
        let c = text[k];
        let ok = (97 <= c && c <= 122) || (65 <= c && c <= 90) || (48 <= c && c <= 57) || (33 <= c
            && c <= 47) || (58 <= c && c <= 64) || (91 <= c && c <= 96) || c == 124 || c == 126
            || c == 32 || c == 10;
        if !ok {
            return Err(EvalError::DecodeError);
        }
        proof {
            lemma_idx_sym(c);
        }
        out.push(encode_byte(c));
        k += 1;
        proof {
            assert(encoded_seq(text@.take(k as int)) =~= encoded_seq(
                text@.take(k - 1),
            ).push(encoded(text@[k - 1])));
        }
    }
    proof {
        assert(text@.take(text@.len() as int) =~= text@);
    }
    Ok(out)
}

/// Round trip: decoding an encoded text gives the text back, for every text
/// made of alphabet characters.
pub proof fn lemma_string_round_trip(text: Seq<u8>)
    requires
        forall|i: int| 0 <= i < text.len() ==> in_alphabet(#[trigger] text[i]),
    ensures
        decoded_seq(encoded_seq(text)) == text,
{
    assert forall|i: int| 0 <= i < text.len() implies decoded_seq(encoded_seq(text))[i] == text[i] by {
        lemma_idx_sym(text[i]);
    }
    assert(decoded_seq(encoded_seq(text)) =~= text);
}

/// Round trip the other way: encoding a decoded body gives the body back,
/// for every body of printable bytes.
pub proof fn lemma_body_round_trip(body: Seq<u8>)
    requires
        forall|i: int| 0 <= i < body.len() ==> body_byte(#[trigger] body[i]),
    ensures
        encoded_seq(decoded_seq(body)) == body,
{
    assert forall|i: int| 0 <= i < body.len() implies encoded_seq(decoded_seq(body))[i] == body[i] by {
        lemma_sym_idx(body[i] - 33);
    }
    assert(encoded_seq(decoded_seq(body)) =~= body);
}

} // verus!
