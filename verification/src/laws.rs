//! Laws the decoder obeys, proved against the ghost parser: the canonical
//! encoding of an integer or a byte string decodes back to itself with an
//! empty remainder, over-deep nesting always fails with `NestingTooDeep`,
//! and a decoded body's consumed prefix and remainder partition the input.

use vstd::prelude::*;
use crate::grammar::{
    digits_value, fits_i64, int_token_value, is_digit, is_digits, is_int_token,
    lemma_decode_sequence_consumed, lemma_first_index_of_exact, spec_decode_sequence,
    spec_decode_value, TOKEN_COLON, TOKEN_END, TOKEN_INT, TOKEN_LIST, TOKEN_MINUS,
};
use crate::value::{DecodeError, SpecValue};

verus! {

/// The decimal digits of `n`, most significant first, with no leading zero
/// except for `0` itself.
pub open spec fn dec_digits(n: nat) -> Seq<u8>
    decreases n,
{
    if n < 10 {
        seq![(48 + n) as u8]
    } else {
        dec_digits(n / 10) + seq![(48 + n % 10) as u8]
    }
}

/// `dec_digits(n)` is a non-empty run of digits denoting `n`.
pub proof fn lemma_dec_digits(n: nat)
    ensures
        dec_digits(n).len() >= 1,
        is_digits(dec_digits(n)),
        digits_value(dec_digits(n)) == n,
    decreases n,
{
    if n < 10 {
        assert(digits_value(dec_digits(n).drop_last()) == 0);
    } else {
        lemma_dec_digits(n / 10);
        let d = dec_digits(n);
        assert(d.drop_last() =~= dec_digits(n / 10));
        assert(d.last() == 48 + n % 10);
        assert(digits_value(d) == digits_value(dec_digits(n / 10)) * 10 + n % 10);
        assert forall|i: int| 0 <= i < d.len() implies is_digit(d[i]) by {
            if i < d.len() - 1 {
                assert(d[i] == dec_digits(n / 10)[i]);
            }
        }
    }
}

/// The shortest decimal rendering of a signed integer: a `-` sign exactly
/// when `n` is negative, then the digits of its magnitude.
pub open spec fn int_literal(n: int) -> Seq<u8> {
    if n < 0 {
        seq![TOKEN_MINUS] + dec_digits((-n) as nat)
    } else {
        dec_digits(n as nat)
    }
}

/// The canonical encoding of the integer `n`: `i`, its decimal rendering,
/// `e`.
pub open spec fn encoded_integer(n: int) -> Seq<u8> {
    seq![TOKEN_INT] + int_literal(n) + seq![TOKEN_END]
}

/// The canonical encoding of the byte string `b`: its length in decimal,
/// `:`, then its bytes.
pub open spec fn encoded_byte_string(b: Seq<u8>) -> Seq<u8> {
    dec_digits(b.len()) + seq![TOKEN_COLON] + b
}

/// For every 64-bit integer `n` and any depth budget, decoding the
/// canonical encoding of `n` yields `Integer(n)` and consumes the whole
/// input, leaving an empty remainder.
pub proof fn lemma_decode_integer_literal(n: i64, depth: nat)
    ensures
        spec_decode_value(encoded_integer(n as int), depth)
            == Ok::<(SpecValue, int), DecodeError>(
                (SpecValue::Integer(n as int), encoded_integer(n as int).len() as int)),
{
    let lit = int_literal(n as int);
    let s = encoded_integer(n as int);
    if n < 0 {
        lemma_dec_digits((-(n as int)) as nat);
        assert(lit[0] == TOKEN_MINUS);
        assert(lit.skip(1) =~= dec_digits((-(n as int)) as nat));
    } else {
        lemma_dec_digits(n as nat);
        assert(lit =~= dec_digits(n as nat));
    }
    assert(s[0] == TOKEN_INT);
    let s1 = s.skip(1);
    assert(s1.len() == lit.len() + 1);
    assert forall|k: int| 0 <= k < lit.len() implies s1[k] == lit[k] by {
        assert(s1[k] == s[k + 1]);
    }
    assert(s1[lit.len() as int] == s[lit.len() as int + 1]);
    assert(s[lit.len() as int + 1] == TOKEN_END);
    assert forall|k: int| 0 <= k < lit.len() implies s1[k] != TOKEN_END by {
        if n < 0 && k == 0 {
        } else {
            assert(is_digit(lit[k]));
        }
    }
    lemma_first_index_of_exact(s1, TOKEN_END, lit.len() as int);
    let tok = s.subrange(1, 1 + lit.len() as int);
    assert(tok =~= lit);
    assert(is_int_token(lit));
    assert(int_token_value(lit) == n as int);
    assert(fits_i64(n as int));
    assert(s.len() == lit.len() + 2);
}

/// For every byte string `b` and any depth budget, decoding the canonical
/// encoding of `b` yields `ByteString(b)` and consumes the whole input,
/// leaving an empty remainder.
pub proof fn lemma_decode_byte_string_literal(b: Seq<u8>, depth: nat)
    ensures
        spec_decode_value(encoded_byte_string(b), depth)
            == Ok::<(SpecValue, int), DecodeError>(
                (SpecValue::ByteString(b), encoded_byte_string(b).len() as int)),
{
    let p = dec_digits(b.len());
    let s = encoded_byte_string(b);
    lemma_dec_digits(b.len());
    assert(is_digit(s[0]));
    assert forall|k: int| 0 <= k < p.len() implies s[k] == p[k] && s[k] != TOKEN_COLON by {
        assert(is_digit(p[k]));
    }
    assert(s[p.len() as int] == TOKEN_COLON);
    lemma_first_index_of_exact(s, TOKEN_COLON, p.len() as int);
    let prefix = s.subrange(0, p.len() as int);
    assert(prefix =~= p);
    assert(digits_value(prefix) == b.len());
    assert(s.len() == p.len() + 1 + b.len());
    assert(s.subrange(p.len() as int + 1, p.len() as int + 1 + b.len() as int) =~= b);
}

/// Nesting beyond the depth budget always fails: an input opening more
/// lists than the budget allows earns `NestingTooDeep`, whatever follows.
pub proof fn lemma_nesting_too_deep(s: Seq<u8>, depth: nat)
    requires
        s.len() > depth,
        forall|i: int| 0 <= i <= depth ==> s[i] == TOKEN_LIST,
    ensures
        spec_decode_value(s, depth) == Err::<(SpecValue, int), DecodeError>(
            DecodeError::NestingTooDeep),
    decreases depth,
{
    if depth > 0 {
        let s1 = s.skip(1);
        assert forall|i: int| 0 <= i <= depth - 1 implies s1[i] == TOKEN_LIST by {
            assert(s1[i] == s[i + 1]);
        }
        lemma_nesting_too_deep(s1, (depth - 1) as nat);
        assert(s1[0] != TOKEN_END);
    }
}

/// A decoded list or dictionary body partitions its input exactly: the
/// remainder's length plus the consumed count equals the input's length, so
/// no byte is gained or lost between recursive reads.
pub proof fn lemma_sequence_partitions_input(s: Seq<u8>, depth: nat)
    ensures
        spec_decode_sequence(s, depth) matches Ok(p)
            ==> s.skip(p.1).len() + p.1 == s.len(),
{
    lemma_decode_sequence_consumed(s, depth);
}

} // verus!
