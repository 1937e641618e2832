//! The executable decoder, proved to return exactly what the ghost parser in
//! `grammar` says for every input.

use vstd::prelude::*;
use crate::grammar::{
    digits_value, is_digit, is_digits, min_capped, spec_decode_integer, spec_decode_sequence,
    spec_decode_string, spec_decode_value, lemma_digits_value_nonneg, lemma_first_index_of,
    lemma_first_index_of_exact, first_index_of, is_int_token, int_token_value, fits_i64,
    all_keys_byte_strings, pair_entries, lemma_pair_entries, lemma_decode_value_consumed,
    TOKEN_COLON, TOKEN_DICT, TOKEN_END, TOKEN_INT, TOKEN_LIST, TOKEN_MINUS,
};
use crate::value::{entry_models, models, DecodeError, SpecValue, Value};

verus! {

/// Reads the digit run `input[start..end]` while holding the accumulator at
/// `cap` once the denoted number reaches it, so that arbitrarily long runs
/// (such as padded lengths) never overflow. Returns `None` at the first
/// non-digit byte.
fn parse_digits_capped(input: &[u8], start: usize, end: usize, cap: u64) -> (r: Option<u64>)
    requires
        start <= end <= input@.len(),
        1 <= cap,
    ensures
        ({
            let ds = input@.subrange(start as int, end as int);
            match r {
                Some(m) => is_digits(ds) && m == min_capped(digits_value(ds), cap as int),
                None => !is_digits(ds),
            }
        }),
{
    let ghost ds = input@.subrange(start as int, end as int);
    let mut acc: u64 = 0;
    let mut i: usize = start;
    while i < end
        invariant
            start <= i <= end <= input@.len(),
            1 <= cap,
            ds == input@.subrange(start as int, end as int),
            is_digits(input@.subrange(start as int, i as int)),
            acc == min_capped(digits_value(input@.subrange(start as int, i as int)), cap as int),
            acc <= cap,
        decreases end - i,
    {
        let b = input[i];
        if b < 48 || b > 57 {
            proof {
                assert(ds[i - start] == b);
                assert(!is_digits(ds));
            }
            return None;
        }
        let d: u64 = (b - 48) as u64;
        let ghost pre = input@.subrange(start as int, i as int);
        let ghost post = input@.subrange(start as int, i + 1int);
        proof {
            assert(post.drop_last() =~= pre);
            assert(post.last() == b);
            assert(digits_value(post) == digits_value(pre) * 10 + d);
            assert(is_digits(pre));
            lemma_digits_value_nonneg(pre);
        }
        if acc == cap {
            // the denoted number is already at or past the cap and can only grow
            proof {
                assert(digits_value(pre) >= cap);
                assert(digits_value(post) >= cap);
            }
        } else if d >= cap {
            proof {
                assert(digits_value(post) >= d >= cap);
            }
            acc = cap;
        } else {
            let q = (cap - d) / 10;
            proof {
                assert(acc == digits_value(pre));
            }
            if acc > q {
                proof {
                    assert(10 * q >= cap - d - 9);
                    assert(10 * acc >= 10 * q + 10);
                    assert(digits_value(post) > cap);
                }
                acc = cap;
            } else {
                proof {
                    assert(10 * q <= cap - d);
                    assert(10 * acc <= 10 * q);
                    assert(digits_value(post) == 10 * acc + d <= cap);
                }
                acc = acc * 10 + d;
            }
        }
        i = i + 1;
    }
    proof {
        assert(input@.subrange(start as int, i as int) =~= ds);
    }
    Some(acc)
}

/// Half of the 64-bit unsigned range: one past `i64::MAX`, the magnitude of
/// `i64::MIN`, and one below the accumulation cap for integer digits.
const I64_MAGNITUDE_BOUND: u64 = 9223372036854775808;

/// Reads one integer, `i<digits>e`, starting at `pos`.
fn decode_integer_at(input: &[u8], pos: usize) -> (r: Result<(Value, usize), DecodeError>)
    requires
        pos < input@.len(),
        input@[pos as int] == TOKEN_INT,
    ensures
        ({
            let s = input@.skip(pos as int);
            match r {
                Ok(p) => pos < p.1 <= input@.len()
                    && spec_decode_integer(s) == Ok::<(SpecValue, int), DecodeError>(
                        (p.0.spec_view(), p.1 - pos)),
                Err(e) => spec_decode_integer(s) == Err::<(SpecValue, int), DecodeError>(e),
            }
        }),
{
    let input_len = input.len();
    let ghost s = input@.skip(pos as int);
    let ghost s1 = s.skip(1);
    proof {
        assert(input@.len() == input_len);
        assert forall|k: int| 0 <= k < s1.len() implies s1[k] == input@[pos + 1 + k] by {
            assert(s1[k] == s[k + 1]);
        }
    }
    let mut j: usize = pos + 1;
    while j < input.len() && input[j] != TOKEN_END
        invariant
            pos + 1 <= j <= input@.len(),
            forall|k: int| pos + 1 <= k < j ==> input@[k] != TOKEN_END,
        decreases input@.len() - j,
    {
        j = j + 1;
    }
    if j == input.len() {
        proof {
            lemma_first_index_of(s1, TOKEN_END);
            match first_index_of(s1, TOKEN_END) {
                Some(i) => {
                    assert(input@[pos + 1 + i] != TOKEN_END);
                    assert(false);
                },
                None => {},
            }
        }
        return Err(DecodeError::MalformedInteger);
    }
    let ghost k0 = j - pos - 1;
    let ghost tok = s.subrange(1, 1 + k0);
    proof {
        assert(s1[k0] == input@[j as int]);
        assert forall|k: int| 0 <= k < k0 implies s1[k] != TOKEN_END by {
            assert(s1[k] == input@[pos + 1 + k]);
        }
        lemma_first_index_of_exact(s1, TOKEN_END, k0);
        assert forall|k: int| 0 <= k < tok.len() implies tok[k] == input@[pos + 1 + k] by {
            assert(tok[k] == s[1 + k]);
        }
    }
    let neg = input[pos + 1] == TOKEN_MINUS;
    let dstart = if neg {
        pos + 2
    } else {
        pos + 1
    };
    if dstart >= j {
        // the digit run is empty: `ie` or `i-e`
        proof {
            assert(!is_int_token(tok));
        }
        return Err(DecodeError::MalformedInteger);
    }
    let ghost ds = input@.subrange(dstart as int, j as int);
    proof {
        if neg {
            assert(tok.skip(1) =~= ds);
        } else {
            assert(tok =~= ds);
        }
    }
    match parse_digits_capped(input, dstart, j, I64_MAGNITUDE_BOUND + 1) {
        None => {
            proof {
                assert(!is_int_token(tok));
            }
            Err(DecodeError::MalformedInteger)
        },
        Some(m) => {
            proof {
                lemma_digits_value_nonneg(ds);
                assert(is_int_token(tok));
            }
            let ghost dv = digits_value(ds);
            if neg {
                proof {
                    assert(int_token_value(tok) == -dv);
                }
                if m <= I64_MAGNITUDE_BOUND {
                    proof {
                        assert(m == dv);
                        assert(fits_i64(-dv));
                    }
                    let v: i64 = if m == I64_MAGNITUDE_BOUND {
                        i64::MIN
                    } else {
                        -(m as i64)
                    };
                    Ok((Value::Integer(v), j + 1))
                } else {
                    proof {
                        assert(dv > I64_MAGNITUDE_BOUND);
                        assert(!fits_i64(-dv));
                    }
                    Err(DecodeError::MalformedInteger)
                }
            } else {
                proof {
                    assert(tok[0] == ds[0]);
                    assert(is_digit(tok[0]));
                    assert(tok[0] != TOKEN_MINUS);
                    assert(int_token_value(tok) == dv);
                }
                if m <= I64_MAGNITUDE_BOUND - 1 {
                    proof {
                        assert(m == dv);
                        assert(fits_i64(dv));
                    }
                    Ok((Value::Integer(m as i64), j + 1))
                } else {
                    proof {
                        assert(dv > I64_MAGNITUDE_BOUND - 1);
                        assert(!fits_i64(dv));
                    }
                    Err(DecodeError::MalformedInteger)
                }
            }
        },
    }
}

/// Reads one byte string, `<len>:<bytes>`, starting at `pos`.
fn decode_string_at(input: &[u8], pos: usize) -> (r: Result<(Value, usize), DecodeError>)
    requires
        pos < input@.len(),
        is_digit(input@[pos as int]),
    ensures
        ({
            let s = input@.skip(pos as int);
            match r {
                Ok(p) => pos < p.1 <= input@.len()
                    && spec_decode_string(s) == Ok::<(SpecValue, int), DecodeError>(
                        (p.0.spec_view(), p.1 - pos)),
                Err(e) => spec_decode_string(s) == Err::<(SpecValue, int), DecodeError>(e),
            }
        }),
{
    let ghost s = input@.skip(pos as int);
    proof {
        assert forall|k: int| 0 <= k < s.len() implies s[k] == input@[pos + k] by {}
    }
    let mut c: usize = pos;
    while c < input.len() && input[c] != TOKEN_COLON
        invariant
            pos <= c <= input@.len(),
            forall|k: int| pos <= k < c ==> input@[k] != TOKEN_COLON,
        decreases input@.len() - c,
    {
        c = c + 1;
    }
    if c == input.len() {
        proof {
            lemma_first_index_of(s, TOKEN_COLON);
            match first_index_of(s, TOKEN_COLON) {
                Some(i) => {
                    assert(input@[pos + i] != TOKEN_COLON);
                    assert(false);
                },
                None => {},
            }
        }
        return Err(DecodeError::MalformedLength);
    }
    proof {
        assert(s[c - pos] == input@[c as int]);
        assert forall|k: int| 0 <= k < c - pos implies s[k] != TOKEN_COLON by {
            assert(s[k] == input@[pos + k]);
        }
        lemma_first_index_of_exact(s, TOKEN_COLON, c - pos);
    }
    let ghost prefix = s.subrange(0, c - pos);
    proof {
        assert(prefix =~= input@.subrange(pos as int, c as int));
        // the leading digit keeps the prefix non-empty
        assert(input@[pos as int] != TOKEN_COLON);
        assert(pos < c);
    }
    let remaining: usize = input.len() - c - 1;
    proof {
        assert(remaining as int == s.len() - (c - pos) - 1);
        assert(usize::MAX <= u64::MAX);
    }
    match parse_digits_capped(input, pos, c, (remaining as u64) + 1) {
        None => {
            proof {
                assert(!is_digits(prefix));
            }
            Err(DecodeError::MalformedLength)
        },
        Some(m) => {
            proof {
                lemma_digits_value_nonneg(prefix);
            }
            let ghost dv = digits_value(prefix);
            if m > remaining as u64 {
                proof {
                    assert(dv > remaining);
                }
                Err(DecodeError::TruncatedString)
            } else {
                proof {
                    assert(m == dv);
                }
                let take: usize = m as usize;
                let mut out: Vec<u8> = Vec::new();
                let mut t: usize = 0;
                while t < take
                    invariant
                        0 <= t <= take,
                        c + 1 + take <= input@.len() <= usize::MAX,
                        out@ == input@.subrange(c + 1, c + 1 + t),
                    decreases take - t,
                {
                    let byte = input[c + 1 + t];
                    out.push(byte);
                    proof {
                        assert(out@ =~= input@.subrange(c + 1, c + 1 + t + 1));
                    }
                    t = t + 1;
                }
                proof {
                    assert(s.subrange(c - pos + 1, c - pos + 1 + dv)
                        =~= input@.subrange(c + 1, c + 1 + take));
                    assert(Value::ByteString(out).spec_view() == SpecValue::ByteString(out@));
                }
                Ok((Value::ByteString(out), c + 1 + take))
            }
        },
    }
}

/// Pairs the flattened body of a dictionary two at a time: even-indexed
/// elements become keys, odd-indexed their values, in input order. Duplicate
/// keys are kept as they stand on the wire.
#[verifier::loop_isolation(false)]
fn pair_dictionary_entries(elems: Vec<Value>) -> (r: Result<Vec<(Vec<u8>, Value)>, DecodeError>)
    ensures
        ({
            let flat = models(elems@);
            match r {
                Ok(entries) => flat.len() % 2 == 0 && all_keys_byte_strings(flat)
                    && entry_models(entries@) == pair_entries(flat),
                Err(e) => (if flat.len() % 2 != 0 {
                    e == DecodeError::OddEntryCount
                } else {
                    e == DecodeError::NonStringKey && !all_keys_byte_strings(flat)
                }),
            }
        }),
{
    let ghost orig = models(elems@);
    if elems.len() % 2 != 0 {
        return Err(DecodeError::OddEntryCount);
    }
    let mut rest = elems;
    let mut entries: Vec<(Vec<u8>, Value)> = Vec::new();
    while rest.len() > 0
        invariant
            rest@.len() % 2 == 0,
            orig.len() == 2 * entries@.len() + rest@.len(),
            forall|i: int| 0 <= i < entries@.len()
                ==> orig[2 * i] == SpecValue::ByteString(entries@[i].0@)
                    && orig[2 * i + 1] == entries@[i].1.spec_view(),
            models(rest@) == orig.skip(2 * entries@.len() as int),
        decreases rest@.len(),
    {
        let ghost done = entries@.len() as int;
        let ghost old_rest = rest@;
        let key = rest.remove(0);
        let val = rest.remove(0);
        proof {
            assert(rest@ =~= old_rest.skip(2));
            assert(models(rest@) =~= models(old_rest).skip(2));
            assert(models(rest@) =~= orig.skip(2 * done + 2));
            assert(orig[2 * done] == models(old_rest)[0]);
            assert(orig[2 * done + 1] == models(old_rest)[1]);
            assert(models(old_rest)[0] == key.spec_view());
            assert(models(old_rest)[1] == val.spec_view());
        }
        match key {
            Value::ByteString(kb) => {
                entries.push((kb, val));
            },
            _ => {
                proof {
                    assert(!(key.spec_view() is ByteString)) by {
                        match key {
                            Value::Integer(_) => {},
                            Value::ByteString(_) => {},
                            Value::List(_) => {},
                            Value::Dictionary(_) => {},
                        }
                    }
                    assert(orig[2 * done] == key.spec_view());
                    assert(2 * done % 2 == 0);
                    assert(!all_keys_byte_strings(orig));
                }
                return Err(DecodeError::NonStringKey);
            },
        }
    }
    proof {
        assert(orig.len() == 2 * entries@.len());
        assert forall|i: int| 0 <= i < orig.len() && i % 2 == 0 implies orig[i] is ByteString by {
            assert(orig[2 * (i / 2)] == SpecValue::ByteString(entries@[i / 2].0@));
        }
        lemma_pair_entries(orig);
        assert(entry_models(entries@) =~= pair_entries(orig));
    }
    Ok(entries)
}

/// Reads one bencode value starting at `pos`, returning it with the
/// position just past its encoding; `depth` is the count of container
/// levels still allowed, this value's own included.
fn decode_value_at(input: &[u8], pos: usize, depth: u64) -> (r: Result<(Value, usize), DecodeError>)
    requires
        pos <= input@.len(),
    ensures
        ({
            let s = input@.skip(pos as int);
            match r {
                Ok(p) => pos < p.1 <= input@.len()
                    && spec_decode_value(s, depth as nat) == Ok::<(SpecValue, int), DecodeError>(
                        (p.0.spec_view(), p.1 - pos)),
                Err(e) => spec_decode_value(s, depth as nat)
                    == Err::<(SpecValue, int), DecodeError>(e),
            }
        }),
    decreases input@.len() - pos, 0int,
{
    let ghost s = input@.skip(pos as int);
    proof {
        assert forall|k: int| 0 <= k < s.len() implies s[k] == input@[pos + k] by {}
    }
    if pos == input.len() {
        return Err(DecodeError::UnknownToken);
    }
    let b = input[pos];
    proof {
        assert(s[0] == b);
    }
    if b == TOKEN_INT {
        decode_integer_at(input, pos)
    } else if b == TOKEN_LIST {
        if depth == 0 {
            return Err(DecodeError::NestingTooDeep);
        }
        proof {
            assert(s.skip(1) =~= input@.skip(pos + 1));
        }
        match decode_sequence_at(input, pos + 1, depth - 1) {
            Ok((elems, end)) => {
                proof {
                    assert(Value::List(elems).spec_view()->List_0 =~= models(elems@));
                }
                Ok((Value::List(elems), end))
            },
            Err(e) => Err(e),
        }
    } else if b == TOKEN_DICT {
        if depth == 0 {
            return Err(DecodeError::NestingTooDeep);
        }
        proof {
            assert(s.skip(1) =~= input@.skip(pos + 1));
        }
        match decode_sequence_at(input, pos + 1, depth - 1) {
            Ok((elems, end)) => {
                match pair_dictionary_entries(elems) {
                    Ok(entries) => {
                        proof {
                            assert(Value::Dictionary(entries).spec_view()->Dictionary_0
                                =~= entry_models(entries@));
                        }
                        Ok((Value::Dictionary(entries), end))
                    },
                    Err(e) => Err(e),
                }
            },
            Err(e) => Err(e),
        }
    } else if b >= 48 && b <= 57 {
        decode_string_at(input, pos)
    } else {
        Err(DecodeError::UnknownToken)
    }
}

/// Reads the flattened body of a list or dictionary starting at `pos`:
/// values one after the other until the terminating `e`, which is consumed.
/// The remainder returned by each element is threaded directly into the next
/// read; nothing is ever re-measured from decoded output.
fn decode_sequence_at(input: &[u8], pos: usize, depth: u64) -> (r: Result<(Vec<Value>, usize), DecodeError>)
    requires
        pos <= input@.len(),
    ensures
        ({
            let s = input@.skip(pos as int);
            match r {
                Ok(p) => pos < p.1 <= input@.len()
                    && spec_decode_sequence(s, depth as nat)
                        == Ok::<(Seq<SpecValue>, int), DecodeError>((models(p.0@), p.1 - pos)),
                Err(e) => spec_decode_sequence(s, depth as nat)
                    == Err::<(Seq<SpecValue>, int), DecodeError>(e),
            }
        }),
    decreases input@.len() - pos, 1int,
{
    let input_len = input.len();
    let ghost s = input@.skip(pos as int);
    let mut cur: usize = pos;
    let mut elems: Vec<Value> = Vec::new();
    proof {
        assert(models(elems@) =~= Seq::<SpecValue>::empty());
        match spec_decode_sequence(s, depth as nat) {
            Ok(p) => {
                assert(Seq::<SpecValue>::empty() + p.0 =~= p.0);
            },
            Err(_) => {},
        }
    }
    loop
        invariant
            input_len == input@.len(),
            pos <= cur <= input_len,
            s == input@.skip(pos as int),
            ({
                let sc = input@.skip(cur as int);
                match spec_decode_sequence(sc, depth as nat) {
                    Ok(p) => spec_decode_sequence(s, depth as nat)
                        == Ok::<(Seq<SpecValue>, int), DecodeError>(
                            (models(elems@) + p.0, (cur - pos) + p.1)),
                    Err(e) => spec_decode_sequence(s, depth as nat)
                        == Err::<(Seq<SpecValue>, int), DecodeError>(e),
                }
            }),
        decreases input@.len() - cur,
    {
        let ghost sc = input@.skip(cur as int);
        if cur == input.len() {
            proof {
                assert(sc.len() == 0);
            }
            return Err(DecodeError::UnterminatedSequence);
        }
        proof {
            assert(sc[0] == input@[cur as int]);
        }
        if input[cur] == TOKEN_END {
            proof {
                assert(models(elems@) + Seq::<SpecValue>::empty() =~= models(elems@));
            }
            return Ok((elems, cur + 1));
        }
        match decode_value_at(input, cur, depth) {
            Err(e) => {
                return Err(e);
            },
            Ok((v, end)) => {
                let ghost used = end - cur;
                proof {
                    lemma_decode_value_consumed(sc, depth as nat);
                    assert(sc.skip(used) =~= input@.skip(end as int));
                }
                let ghost old_elems = elems@;
                elems.push(v);
                proof {
                    assert(models(elems@) =~= models(old_elems) + seq![v.spec_view()]);
                    let tail = spec_decode_sequence(input@.skip(end as int), depth as nat);
                    match tail {
                        Ok(p) => {
                            assert(spec_decode_sequence(sc, depth as nat)
                                == Ok::<(Seq<SpecValue>, int), DecodeError>(
                                    (seq![v.spec_view()] + p.0, used + p.1)));
                            assert(models(old_elems) + (seq![v.spec_view()] + p.0)
                                =~= models(elems@) + p.0);
                        },
                        Err(e) => {
                            assert(spec_decode_sequence(sc, depth as nat)
                                == Err::<(Seq<SpecValue>, int), DecodeError>(e));
                        },
                    }
                }
                cur = end;
            },
        }
    }
}

/// The deepest stack of nested lists and dictionaries `decode` accepts,
/// counting the top-level container itself: adversarial inputs that nest
/// deeper fail with `NestingTooDeep` instead of exhausting the call stack.
pub const DEFAULT_MAX_DEPTH: u64 = 64;

/// Decodes exactly one bencode value from the front of `input`, with at most
/// `max_depth` nested container levels, the value itself included. On
/// success the returned position is where the value's encoding ends:
/// `input[..end]` was consumed and `input[end..]` is the unconsumed
/// remainder.
pub fn decode_value(input: &[u8], max_depth: u64) -> (r: Result<(Value, usize), DecodeError>)
    ensures
        ({
            match r {
                Ok(p) => 0 < p.1 <= input@.len()
                    && spec_decode_value(input@, max_depth as nat)
                        == Ok::<(SpecValue, int), DecodeError>((p.0.spec_view(), p.1 as int)),
                Err(e) => spec_decode_value(input@, max_depth as nat)
                    == Err::<(SpecValue, int), DecodeError>(e),
            }
        }),
{
    proof {
        assert(input@.skip(0) =~= input@);
    }
    decode_value_at(input, 0, max_depth)
}

/// Decodes the flattened body of a list or dictionary from the front of
/// `input`, up to and including its terminating `e`, with at most
/// `max_depth` nested container levels inside each element. On success the returned
/// position is where the body ends; the remainder `input[end..]` follows the
/// terminator.
pub fn decode_sequence(input: &[u8], max_depth: u64) -> (r: Result<(Vec<Value>, usize), DecodeError>)
    ensures
        ({
            match r {
                Ok(p) => 0 < p.1 <= input@.len()
                    && spec_decode_sequence(input@, max_depth as nat)
                        == Ok::<(Seq<SpecValue>, int), DecodeError>((models(p.0@), p.1 as int)),
                Err(e) => spec_decode_sequence(input@, max_depth as nat)
                    == Err::<(Seq<SpecValue>, int), DecodeError>(e),
            }
        }),
{
    proof {
        assert(input@.skip(0) =~= input@);
    }
    decode_sequence_at(input, 0, max_depth)
}

/// Decodes exactly one top-level bencode value with the default nesting
/// budget. Trailing input after the first value is discarded; a caller that
/// needs strict single-value validation can use `decode_value` and check
/// that the returned end position equals the input length.
pub fn decode(input: &[u8]) -> (r: Result<Value, DecodeError>)
    ensures
        ({
            match spec_decode_value(input@, DEFAULT_MAX_DEPTH as nat) {
                Ok(p) => r matches Ok(v) && v.spec_view() == p.0,
                Err(e) => r == Err::<Value, DecodeError>(e),
            }
        }),
{
    match decode_value(input, DEFAULT_MAX_DEPTH) {
        Ok((v, _)) => Ok(v),
        Err(e) => Err(e),
    }
}

} // verus!
