//! The bencode grammar as a ghost recursive-descent parser.
//!
//! `spec_decode_value` and `spec_decode_sequence` say, for every input and
//! every remaining depth budget, exactly which value a well-formed prefix
//! denotes, how many bytes it occupies, and which error a malformed prefix
//! earns. The executable decoder is proved to return precisely these results.

use vstd::prelude::*;
use crate::value::{DecodeError, SpecValue};

verus! {

/// Leading byte of an integer: `i`.
pub const TOKEN_INT: u8 = 105;
/// Leading byte of a list: `l`.
pub const TOKEN_LIST: u8 = 108;
/// Leading byte of a dictionary: `d`.
pub const TOKEN_DICT: u8 = 100;
/// Terminator of integers, lists and dictionaries: `e`.
pub const TOKEN_END: u8 = 101;
/// Separator between a byte string's length prefix and its bytes: `:`.
pub const TOKEN_COLON: u8 = 58;
/// Sign of a negative integer: `-`.
pub const TOKEN_MINUS: u8 = 45;

/// Whether `b` is an ASCII decimal digit.
pub open spec fn is_digit(b: u8) -> bool {
    48 <= b <= 57
}

/// Whether every byte of `s` is an ASCII decimal digit.
pub open spec fn is_digits(s: Seq<u8>) -> bool {
    forall|i: int| 0 <= i < s.len() ==> is_digit(s[i])
}

/// The number denoted by a run of decimal digits, most significant first.
/// Leading zeros carry no weight: `007` denotes 7.
pub open spec fn digits_value(s: Seq<u8>) -> int
    decreases s.len(),
{
    if s.len() == 0 {
        0
    } else {
        digits_value(s.drop_last()) * 10 + s.last() - 48
    }
}

/// A run of digits denotes a non-negative number.
pub proof fn lemma_digits_value_nonneg(s: Seq<u8>)
    requires
        is_digits(s),
    ensures
        digits_value(s) >= 0,
    decreases s.len(),
{
    if s.len() > 0 {
        assert(is_digits(s.drop_last()));
        lemma_digits_value_nonneg(s.drop_last());
    }
}

/// `v` held at a ceiling: `v` itself below `cap`, and `cap` from there on.
pub open spec fn min_capped(v: int, cap: int) -> int {
    if v < cap {
        v
    } else {
        cap
    }
}

/// The position of the first occurrence of `b` in `s`, if any.
pub open spec fn first_index_of(s: Seq<u8>, b: u8) -> Option<int>
    decreases s.len(),
{
    if s.len() == 0 {
        None
    } else if s[0] == b {
        Some(0int)
    } else {
        match first_index_of(s.skip(1), b) {
            Some(i) => Some(i + 1),
            None => None,
        }
    }
}

/// `first_index_of` finds `b` exactly where it first stands: a found index
/// holds `b` with no earlier occurrence, and `None` means `b` is absent.
pub proof fn lemma_first_index_of(s: Seq<u8>, b: u8)
    ensures
        match first_index_of(s, b) {
            Some(i) => 0 <= i < s.len() && s[i] == b
                && forall|k: int| 0 <= k < i ==> s[k] != b,
            None => forall|k: int| 0 <= k < s.len() ==> s[k] != b,
        },
    decreases s.len(),
{
    if s.len() > 0 && s[0] != b {
        lemma_first_index_of(s.skip(1), b);
        match first_index_of(s.skip(1), b) {
            Some(i) => {
                assert(s[i + 1] == s.skip(1)[i]);
                assert forall|k: int| 0 <= k < i + 1 implies s[k] != b by {
                    if k > 0 {
                        assert(s[k] == s.skip(1)[k - 1]);
                    }
                }
            },
            None => {
                assert forall|k: int| 0 <= k < s.len() implies s[k] != b by {
                    if k > 0 {
                        assert(s[k] == s.skip(1)[k - 1]);
                    }
                }
            },
        }
    }
}

/// Conversely, an occurrence of `b` at `i` with none before it pins
/// `first_index_of` to `Some(i)`.
pub proof fn lemma_first_index_of_exact(s: Seq<u8>, b: u8, i: int)
    requires
        0 <= i < s.len(),
        s[i] == b,
        forall|k: int| 0 <= k < i ==> s[k] != b,
    ensures
        first_index_of(s, b) == Some(i),
    decreases s.len(),
{
    if i > 0 {
        assert(s[0] != b);
        assert forall|k: int| 0 <= k < s.skip(1).len() implies s.skip(1)[k] == s[k + 1] by {}
        lemma_first_index_of_exact(s.skip(1), b, i - 1);
    }
}

/// Whether `s` is a well-formed integer token: an optional `-` followed by
/// one or more digits. A leading `+` is not part of the grammar.
pub open spec fn is_int_token(s: Seq<u8>) -> bool {
    if s.len() >= 1 && s[0] == TOKEN_MINUS {
        s.len() >= 2 && is_digits(s.skip(1))
    } else {
        s.len() >= 1 && is_digits(s)
    }
}

/// The signed number an integer token denotes.
pub open spec fn int_token_value(s: Seq<u8>) -> int {
    if s.len() >= 1 && s[0] == TOKEN_MINUS {
        -digits_value(s.skip(1))
    } else {
        digits_value(s)
    }
}

/// Whether `n` fits a 64-bit signed integer, the bound the value model keeps.
pub open spec fn fits_i64(n: int) -> bool {
    i64::MIN <= n <= i64::MAX
}

/// One integer: `i`, a signed decimal, `e`. The digits run to the first `e`
/// after the opening `i`; a missing terminator, an empty or non-decimal
/// digit run, and a value outside 64 bits all earn `MalformedInteger`.
pub open spec fn spec_decode_integer(s: Seq<u8>) -> Result<(SpecValue, int), DecodeError> {
    match first_index_of(s.skip(1), TOKEN_END) {
        None => Err(DecodeError::MalformedInteger),
        Some(k) => {
            let tok = s.subrange(1, 1 + k);
            if is_int_token(tok) && fits_i64(int_token_value(tok)) {
                Ok((SpecValue::Integer(int_token_value(tok)), k + 2))
            } else {
                Err(DecodeError::MalformedInteger)
            }
        },
    }
}

/// One byte string: a decimal length, `:`, then exactly that many bytes.
/// The length prefix runs to the first `:`; a missing separator or a
/// non-decimal prefix earns `MalformedLength`, and a declared length longer
/// than what remains earns `TruncatedString`.
pub open spec fn spec_decode_string(s: Seq<u8>) -> Result<(SpecValue, int), DecodeError> {
    match first_index_of(s, TOKEN_COLON) {
        None => Err(DecodeError::MalformedLength),
        Some(c) => {
            let prefix = s.subrange(0, c);
            if !is_digits(prefix) {
                Err(DecodeError::MalformedLength)
            } else {
                let n = digits_value(prefix);
                if s.len() - c - 1 < n {
                    Err(DecodeError::TruncatedString)
                } else {
                    Ok((SpecValue::ByteString(s.subrange(c + 1, c + 1 + n)), c + 1 + n))
                }
            }
        },
    }
}

/// Whether every even-indexed element of a flattened dictionary body is a
/// byte string, as dictionary keys must be.
pub open spec fn all_keys_byte_strings(vals: Seq<SpecValue>) -> bool {
    forall|i: int| 0 <= i < vals.len() && i % 2 == 0 ==> vals[i] is ByteString
}

/// The flattened body of a dictionary paired two at a time: even-indexed
/// elements are keys, odd-indexed their values, in input order.
pub open spec fn pair_entries(vals: Seq<SpecValue>) -> Seq<(Seq<u8>, SpecValue)>
    decreases vals.len(),
{
    if vals.len() < 2 {
        Seq::empty()
    } else {
        seq![(vals[0]->ByteString_0, vals[1])] + pair_entries(vals.skip(2))
    }
}

/// Entry `j` of the paired body is the key at `2j` and the value at `2j + 1`.
pub proof fn lemma_pair_entries(vals: Seq<SpecValue>)
    requires
        vals.len() % 2 == 0,
    ensures
        pair_entries(vals).len() == vals.len() / 2,
        forall|j: int| 0 <= j < vals.len() / 2
            ==> pair_entries(vals)[j] == (vals[2 * j]->ByteString_0, vals[2 * j + 1]),
    decreases vals.len(),
{
    if vals.len() >= 2 {
        assert(vals.skip(2).len() % 2 == 0);
        lemma_pair_entries(vals.skip(2));
        assert forall|j: int| 0 <= j < vals.len() / 2 implies
            pair_entries(vals)[j] == (vals[2 * j]->ByteString_0, vals[2 * j + 1]) by {
            if j > 0 {
                assert(pair_entries(vals)[j] == pair_entries(vals.skip(2))[j - 1]);
                assert(vals.skip(2)[2 * (j - 1)] == vals[2 * j]);
                assert(vals.skip(2)[2 * (j - 1) + 1] == vals[2 * j + 1]);
            }
        }
    }
}

/// One bencode value read from the front of `s`, with the count of bytes it
/// occupies: the dispatch is on the leading byte (`i` integer, `l` list,
/// `d` dictionary, digit byte string, anything else `UnknownToken`), and
/// `depth` is the count of container levels still allowed, this value's
/// own included.
pub open spec fn spec_decode_value(s: Seq<u8>, depth: nat) -> Result<(SpecValue, int), DecodeError>
    decreases s.len(), 0nat,
{
    if s.len() == 0 {
        Err(DecodeError::UnknownToken)
    } else if s[0] == TOKEN_INT {
        spec_decode_integer(s)
    } else if s[0] == TOKEN_LIST {
        if depth == 0 {
            Err(DecodeError::NestingTooDeep)
        } else {
            match spec_decode_sequence(s.skip(1), (depth - 1) as nat) {
                Ok((elems, used)) => Ok((SpecValue::List(elems), 1 + used)),
                Err(e) => Err(e),
            }
        }
    } else if s[0] == TOKEN_DICT {
        if depth == 0 {
            Err(DecodeError::NestingTooDeep)
        } else {
            match spec_decode_sequence(s.skip(1), (depth - 1) as nat) {
                Ok((elems, used)) => {
                    if elems.len() % 2 != 0 {
                        Err(DecodeError::OddEntryCount)
                    } else if !all_keys_byte_strings(elems) {
                        Err(DecodeError::NonStringKey)
                    } else {
                        Ok((SpecValue::Dictionary(pair_entries(elems)), 1 + used))
                    }
                },
                Err(e) => Err(e),
            }
        }
    } else if is_digit(s[0]) {
        spec_decode_string(s)
    } else {
        Err(DecodeError::UnknownToken)
    }
}

/// The flattened body of a list or dictionary: values read one after the
/// other from the front of `s` until the terminating `e`, which is consumed.
/// Exhausting the input without a terminator earns `UnterminatedSequence`.
/// Each element's remainder is threaded directly into the next read.
pub open spec fn spec_decode_sequence(s: Seq<u8>, depth: nat) -> Result<(Seq<SpecValue>, int), DecodeError>
    decreases s.len(), 1nat,
{
    if s.len() == 0 {
        Err(DecodeError::UnterminatedSequence)
    } else if s[0] == TOKEN_END {
        Ok((Seq::empty(), 1))
    } else {
        match spec_decode_value(s, depth) {
            Ok((v, used)) => {
                let step = if 1 <= used <= s.len() { used } else { 1int };
                match spec_decode_sequence(s.skip(step), depth) {
                    Ok((elems, used2)) => Ok((seq![v] + elems, step + used2)),
                    Err(e) => Err(e),
                }
            },
            Err(e) => Err(e),
        }
    }
}

/// A successful read of one value consumes at least one byte and at most the
/// whole input: the consumed prefix and the remainder partition the input.
pub proof fn lemma_decode_value_consumed(s: Seq<u8>, depth: nat)
    ensures
        spec_decode_value(s, depth) matches Ok(r) ==> 1 <= r.1 <= s.len(),
    decreases s.len(), 0nat,
{
    if s.len() == 0 {
    } else if s[0] == TOKEN_INT {
        lemma_first_index_of(s.skip(1), TOKEN_END);
    } else if s[0] == TOKEN_LIST || s[0] == TOKEN_DICT {
        if depth > 0 {
            lemma_decode_sequence_consumed(s.skip(1), (depth - 1) as nat);
        }
    } else if is_digit(s[0]) {
        lemma_first_index_of(s, TOKEN_COLON);
        match first_index_of(s, TOKEN_COLON) {
            Some(c) => {
                if is_digits(s.subrange(0, c)) {
                    lemma_digits_value_nonneg(s.subrange(0, c));
                }
            },
            None => {},
        }
    }
}

/// A successful read of a flattened body consumes at least its terminator
/// and at most the whole input.
pub proof fn lemma_decode_sequence_consumed(s: Seq<u8>, depth: nat)
    ensures
        spec_decode_sequence(s, depth) matches Ok(r) ==> 1 <= r.1 <= s.len(),
    decreases s.len(), 1nat,
{
    if s.len() > 0 && s[0] != TOKEN_END {
        lemma_decode_value_consumed(s, depth);
        match spec_decode_value(s, depth) {
            Ok((v, used)) => {
                let step = if 1 <= used <= s.len() { used } else { 1int };
                lemma_decode_sequence_consumed(s.skip(step), depth);
            },
            Err(e) => {},
        }
    }
}

} // verus!
