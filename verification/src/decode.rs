//! The decoder: a cursor-based recursive-descent parser turning a byte
//! slice into a sequence of values, with validation of tags, counts,
//! UTF-8 strings, and key invariants. It stops at the first error and
//! reports the error kind; unconsumed trailing bytes are handed back.

use vstd::prelude::*;
use vstd::slice::{slice_subrange, slice_to_vec};

use crate::bytes::{is_nan_bits, is_utf8, check_utf8, u32_of_le, u64_of_le};
use crate::error::DecodeError;
use crate::type_id::{spec_is_tag, spec_tag_byte, TypeIdentifier, TAG_FALSE, TAG_NIL, TAG_NUMBER,
    TAG_STRING, TAG_TABLE, TAG_TRUE};
use crate::value::{
    pairs_model, value_model, values_model, Key, KeyModel, Value, ValueModel, key_model,
};

verus! {

/// Reading a little-endian 32-bit field from the front of a buffer.
pub open spec fn spec_load_u32(s: Seq<u8>) -> Result<(u32, Seq<u8>), DecodeError> {
    if s.len() < 4 {
        Err(DecodeError::UnexpectedEndOfInput)
    } else {
        Ok((u32_of_le(s[0], s[1], s[2], s[3]), s.skip(4)))
    }
}

/// Reading a little-endian 64-bit field from the front of a buffer.
pub open spec fn spec_load_u64(s: Seq<u8>) -> Result<(u64, Seq<u8>), DecodeError> {
    if s.len() < 8 {
        Err(DecodeError::UnexpectedEndOfInput)
    } else {
        Ok((u64_of_le(s[0], s[1], s[2], s[3], s[4], s[5], s[6], s[7]), s.skip(8)))
    }
}

/// Reading a string payload: a 32-bit byte length, then that many
/// bytes, which must be valid UTF-8.
pub open spec fn spec_load_string(s: Seq<u8>) -> Result<(Seq<u8>, Seq<u8>), DecodeError> {
    match spec_load_u32(s) {
        Err(e) => Err(e),
        Ok((n, r)) => if r.len() < n {
            Err(DecodeError::UnexpectedEndOfInput)
        } else if !is_utf8(r.take(n as int)) {
            Err(DecodeError::InvalidUtf8)
        } else {
            Ok((r.take(n as int), r.skip(n as int)))
        },
    }
}

/// Reading one value: a tag byte, then the payload it announces.
pub open spec fn spec_load_value(s: Seq<u8>) -> Result<(ValueModel, Seq<u8>), DecodeError>
    decreases s.len(), 0nat,
{
    if s.len() == 0 {
        Err(DecodeError::UnexpectedEndOfInput)
    } else {
        let tag = s[0];
        let p = s.skip(1);
        if tag == TAG_NIL {
            Ok((ValueModel::Nil, p))
        } else if tag == TAG_FALSE {
            Ok((ValueModel::Boolean(false), p))
        } else if tag == TAG_TRUE {
            Ok((ValueModel::Boolean(true), p))
        } else if tag == TAG_NUMBER {
            match spec_load_u64(p) {
                Ok((bits, r)) => Ok((ValueModel::Number(bits), r)),
                Err(e) => Err(e),
            }
        } else if tag == TAG_STRING {
            match spec_load_string(p) {
                Ok((b, r)) => Ok((ValueModel::String(b), r)),
                Err(e) => Err(e),
            }
        } else if tag == TAG_TABLE {
            match spec_load_table(p) {
                Ok((t, r)) => Ok((ValueModel::Table(t), r)),
                Err(e) => Err(e),
            }
        } else {
            Err(DecodeError::UnknownTypeTag)
        }
    }
}

/// Reading one key: as a value, except that the NIL tag is rejected and
/// a NUMBER payload with NaN bits is rejected.
pub open spec fn spec_load_key(s: Seq<u8>) -> Result<(KeyModel, Seq<u8>), DecodeError>
    decreases s.len(), 0nat,
{
    if s.len() == 0 {
        Err(DecodeError::UnexpectedEndOfInput)
    } else {
        let tag = s[0];
        let p = s.skip(1);
        if tag == TAG_NIL {
            Err(DecodeError::NilKeyDisallowed)
        } else if tag == TAG_FALSE {
            Ok((KeyModel::Boolean(false), p))
        } else if tag == TAG_TRUE {
            Ok((KeyModel::Boolean(true), p))
        } else if tag == TAG_NUMBER {
            match spec_load_u64(p) {
                Ok((bits, r)) => if is_nan_bits(bits) {
                    Err(DecodeError::NaNKeyDisallowed)
                } else {
                    Ok((KeyModel::Number(bits), r))
                },
                Err(e) => Err(e),
            }
        } else if tag == TAG_STRING {
            match spec_load_string(p) {
                Ok((b, r)) => Ok((KeyModel::String(b), r)),
                Err(e) => Err(e),
            }
        } else if tag == TAG_TABLE {
            match spec_load_table(p) {
                Ok((t, r)) => Ok((KeyModel::Table(t), r)),
                Err(e) => Err(e),
            }
        } else {
            Err(DecodeError::UnknownTypeTag)
        }
    }
}

/// Reading a table payload: the array and hash sizes, then that many
/// pairs. A declared total that does not fit 32 bits is rejected
/// instead of wrapping.
pub open spec fn spec_load_table(s: Seq<u8>) -> Result<
    (Seq<(KeyModel, ValueModel)>, Seq<u8>),
    DecodeError,
>
    decreases s.len(), 0nat,
{
    match spec_load_u32(s) {
        Err(e) => Err(e),
        Ok((array_size, r1)) => match spec_load_u32(r1) {
            Err(e) => Err(e),
            Ok((hash_size, r2)) => if array_size + hash_size > 0xFFFF_FFFF {
                Err(DecodeError::CountExceeded)
            } else {
                spec_load_pairs(r2, (array_size + hash_size) as nat)
            },
        },
    }
}

/// Reading one key/value pair. A parsed key always consumes at least
/// its tag byte, so the guard branch never runs; it keeps the recursion
/// visibly well-founded.
pub open spec fn spec_load_pair(s: Seq<u8>) -> Result<
    ((KeyModel, ValueModel), Seq<u8>),
    DecodeError,
>
    decreases s.len(), 1nat,
{
    match spec_load_key(s) {
        Err(e) => Err(e),
        Ok((k, r1)) => if r1.len() >= s.len() {
            Err(DecodeError::UnexpectedEndOfInput)
        } else {
            match spec_load_value(r1) {
                Err(e) => Err(e),
                Ok((v, r2)) => Ok(((k, v), r2)),
            }
        },
    }
}

/// Reading `n` key/value pairs, in order. A parsed pair always consumes
/// input, so the guard branch never runs.
pub open spec fn spec_load_pairs(s: Seq<u8>, n: nat) -> Result<
    (Seq<(KeyModel, ValueModel)>, Seq<u8>),
    DecodeError,
>
    decreases s.len(), 2 + n,
{
    if n == 0 {
        Ok((Seq::empty(), s))
    } else {
        match spec_load_pair(s) {
            Err(e) => Err(e),
            Ok((p, r1)) => if r1.len() >= s.len() {
                Err(DecodeError::UnexpectedEndOfInput)
            } else {
                match spec_load_pairs(r1, (n - 1) as nat) {
                    Err(e) => Err(e),
                    Ok((t, r2)) => Ok((seq![p] + t, r2)),
                }
            },
        }
    }
}

/// Reading `n` values, in order. A parsed value always consumes input,
/// so the guard branch never runs.
pub open spec fn spec_load_values(s: Seq<u8>, n: nat) -> Result<
    (Seq<ValueModel>, Seq<u8>),
    DecodeError,
>
    decreases s.len(), 1 + n,
{
    if n == 0 {
        Ok((Seq::empty(), s))
    } else {
        match spec_load_value(s) {
            Err(e) => Err(e),
            Ok((v, r1)) => if r1.len() >= s.len() {
                Err(DecodeError::UnexpectedEndOfInput)
            } else {
                match spec_load_values(r1, (n - 1) as nat) {
                    Err(e) => Err(e),
                    Ok((vs, r2)) => Ok((seq![v] + vs, r2)),
                }
            },
        }
    }
}

/// Reading a whole tuple envelope: a count byte of at most 250, then
/// that many values. Whatever follows is left unconsumed.
pub open spec fn spec_load(s: Seq<u8>) -> Result<(Seq<ValueModel>, Seq<u8>), DecodeError> {
    if s.len() == 0 {
        Err(DecodeError::UnexpectedEndOfInput)
    } else if s[0] > 250 {
        Err(DecodeError::CountExceeded)
    } else {
        spec_load_values(s.skip(1), s[0] as nat)
    }
}

/// Reads the tuple count byte; fails with `CountExceeded` when it is
/// above 250.
fn load_element_count(data: &[u8], pos: usize) -> (r: Result<(u8, usize), DecodeError>)
    requires
        pos <= data@.len(),
    ensures
        match r {
            Ok((c, end)) => end == pos + 1 && end <= data@.len() && c == data@[pos as int] && c
                <= 250,
            Err(e) => (e == DecodeError::UnexpectedEndOfInput && pos == data@.len()) || (e
                == DecodeError::CountExceeded && pos < data@.len() && data@[pos as int] > 250),
        },
{
    if pos >= data.len() {
        return Err(DecodeError::UnexpectedEndOfInput);
    }
    let count = data[pos];
    if count > 250 {
        Err(DecodeError::CountExceeded)
    } else {
        Ok((count, pos + 1))
    }
}

/// Reads one tag byte and maps it to its kind.
fn load_type_id(data: &[u8], pos: usize) -> (r: Result<(TypeIdentifier, usize), DecodeError>)
    requires
        pos <= data@.len(),
    ensures
        match r {
            Ok((t, end)) => end == pos + 1 && end <= data@.len() && spec_tag_byte(t)
                == data@[pos as int],
            Err(e) => (e == DecodeError::UnexpectedEndOfInput && pos == data@.len()) || (e
                == DecodeError::UnknownTypeTag && pos < data@.len() && !spec_is_tag(
                data@[pos as int],
            )),
        },
{
    if pos >= data.len() {
        return Err(DecodeError::UnexpectedEndOfInput);
    }
    match TypeIdentifier::try_from(data[pos]) {
        Ok(t) => Ok((t, pos + 1)),
        Err(e) => Err(e),
    }
}

/// Reads a little-endian 32-bit field.
fn load_u32(data: &[u8], pos: usize) -> (r: Result<(u32, usize), DecodeError>)
    requires
        pos <= data@.len(),
    ensures
        match r {
            Ok((x, end)) => end == pos + 4 && end <= data@.len() && spec_load_u32(
                data@.skip(pos as int),
            ) == Ok::<_, DecodeError>((x, data@.skip(end as int))),
            Err(e) => spec_load_u32(data@.skip(pos as int)) == Err::<(u32, Seq<u8>), _>(e),
        },
{
    if data.len() - pos < 4 {
        return Err(DecodeError::UnexpectedEndOfInput);
    }
    let x = (data[pos] as u32) | ((data[pos + 1] as u32) << 8) | ((data[pos + 2] as u32) << 16) | ((
    data[pos + 3] as u32) << 24);
    proof {
        assert(data@.skip(pos as int).skip(4) =~= data@.skip(pos + 4));
    }
    Ok((x, pos + 4))
}

/// Reads a little-endian 64-bit field.
fn load_u64(data: &[u8], pos: usize) -> (r: Result<(u64, usize), DecodeError>)
    requires
        pos <= data@.len(),
    ensures
        match r {
            Ok((x, end)) => end == pos + 8 && end <= data@.len() && spec_load_u64(
                data@.skip(pos as int),
            ) == Ok::<_, DecodeError>((x, data@.skip(end as int))),
            Err(e) => spec_load_u64(data@.skip(pos as int)) == Err::<(u64, Seq<u8>), _>(e),
        },
{
    if data.len() - pos < 8 {
        return Err(DecodeError::UnexpectedEndOfInput);
    }
    let x = (data[pos] as u64) | ((data[pos + 1] as u64) << 8) | ((data[pos + 2] as u64) << 16) | ((
    data[pos + 3] as u64) << 24) | ((data[pos + 4] as u64) << 32) | ((data[pos + 5] as u64) << 40)
        | ((data[pos + 6] as u64) << 48) | ((data[pos + 7] as u64) << 56);
    proof {
        assert(data@.skip(pos as int).skip(8) =~= data@.skip(pos + 8));
    }
    Ok((x, pos + 8))
}

/// Reads a string payload: a 32-bit byte length, then that many bytes,
/// validated as UTF-8.
fn load_string(data: &[u8], pos: usize) -> (r: Result<(Vec<u8>, usize), DecodeError>)
    requires
        pos <= data@.len(),
    ensures
        match r {
            Ok((s, end)) => pos < end <= data@.len() && spec_load_string(data@.skip(pos as int))
                == Ok::<_, DecodeError>((s@, data@.skip(end as int))),
            Err(e) => spec_load_string(data@.skip(pos as int)) == Err::<(Seq<u8>, Seq<u8>), _>(e),
        },
{
    let (n32, p) = match load_u32(data, pos) {
        Ok(x) => x,
        Err(e) => {
            return Err(e);
        },
    };
    if ((data.len() - p) as u64) < (n32 as u64) {
        assert(data@.skip(p as int).len() < n32);
        return Err(DecodeError::UnexpectedEndOfInput);
    }
    let n = n32 as usize;
    let sub = slice_subrange(data, p, p + n);
    proof {
        assert(sub@ =~= data@.skip(p as int).take(n32 as int));
        assert(sub@.skip(0) =~= sub@);
    }
    if check_utf8(sub, 0) {
        let v = slice_to_vec(sub);
        proof {
            assert(data@.skip(p as int).skip(n32 as int) =~= data@.skip(p + n));
        }
        Ok((v, p + n))
    } else {
        Err(DecodeError::InvalidUtf8)
    }
}

/// Reads one value, recursing through nested tables.
fn load_value(data: &[u8], pos: usize) -> (r: Result<(Value, usize), DecodeError>)
    requires
        pos <= data@.len(),
    ensures
        match r {
            Ok((v, end)) => pos < end <= data@.len() && spec_load_value(data@.skip(pos as int))
                == Ok::<_, DecodeError>((value_model(v), data@.skip(end as int))),
            Err(e) => spec_load_value(data@.skip(pos as int)) == Err::<(ValueModel, Seq<u8>), _>(
                e,
            ),
        },
    decreases data@.len() - pos, 0nat,
{
    let (ty, p) = match load_type_id(data, pos) {
        Ok(x) => x,
        Err(e) => {
            return Err(e);
        },
    };
    proof {
        assert(data@.skip(pos as int).skip(1) =~= data@.skip(p as int));
    }
    match ty {
        TypeIdentifier::NIL => Ok((Value::Nil, p)),
        TypeIdentifier::FALSE => Ok((Value::Boolean(false), p)),
        TypeIdentifier::TRUE => Ok((Value::Boolean(true), p)),
        TypeIdentifier::NUMBER => match load_u64(data, p) {
            Ok((bits, end)) => Ok((Value::Number(bits), end)),
            Err(e) => Err(e),
        },
        TypeIdentifier::STRING => match load_string(data, p) {
            Ok((s, end)) => Ok((Value::String(s), end)),
            Err(e) => Err(e),
        },
        TypeIdentifier::TABLE => match load_table(data, p) {
            Ok((t, end)) => Ok((Value::Table(t), end)),
            Err(e) => Err(e),
        },
    }
}

/// Reads one key: as a value, except that NIL and NaN numbers are
/// rejected.
fn load_key(data: &[u8], pos: usize) -> (r: Result<(Key, usize), DecodeError>)
    requires
        pos <= data@.len(),
    ensures
        match r {
            Ok((k, end)) => pos < end <= data@.len() && spec_load_key(data@.skip(pos as int))
                == Ok::<_, DecodeError>((key_model(k), data@.skip(end as int))),
            Err(e) => spec_load_key(data@.skip(pos as int)) == Err::<(KeyModel, Seq<u8>), _>(e),
        },
    decreases data@.len() - pos, 0nat,
{
    let (ty, p) = match load_type_id(data, pos) {
        Ok(x) => x,
        Err(e) => {
            return Err(e);
        },
    };
    proof {
        assert(data@.skip(pos as int).skip(1) =~= data@.skip(p as int));
    }
    match ty {
        TypeIdentifier::NIL => Err(DecodeError::NilKeyDisallowed),
        TypeIdentifier::FALSE => Ok((Key::Boolean(false), p)),
        TypeIdentifier::TRUE => Ok((Key::Boolean(true), p)),
        TypeIdentifier::NUMBER => match load_u64(data, p) {
            Ok((bits, end)) => match crate::value::NotNanBits::new(bits) {
                Some(n) => Ok((Key::Number(n), end)),
                None => Err(DecodeError::NaNKeyDisallowed),
            },
            Err(e) => Err(e),
        },
        TypeIdentifier::STRING => match load_string(data, p) {
            Ok((s, end)) => Ok((Key::String(s), end)),
            Err(e) => Err(e),
        },
        TypeIdentifier::TABLE => match load_table(data, p) {
            Ok((t, end)) => Ok((Key::Table(t), end)),
            Err(e) => Err(e),
        },
    }
}

/// Reads one key/value pair.
fn load_key_value(data: &[u8], pos: usize) -> (r: Result<((Key, Value), usize), DecodeError>)
    requires
        pos <= data@.len(),
    ensures
        match r {
            Ok((kv, end)) => pos < end <= data@.len() && spec_load_pair(data@.skip(pos as int))
                == Ok::<_, DecodeError>(
                ((key_model(kv.0), value_model(kv.1)), data@.skip(end as int)),
            ),
            Err(e) => spec_load_pair(data@.skip(pos as int)) == Err::<
                ((KeyModel, ValueModel), Seq<u8>),
                _,
            >(e),
        },
    decreases data@.len() - pos, 1nat,
{
    let (key, mid) = match load_key(data, pos) {
        Ok(x) => x,
        Err(e) => {
            return Err(e);
        },
    };
    match load_value(data, mid) {
        Ok((value, end)) => Ok(((key, value), end)),
        Err(e) => Err(e),
    }
}

/// Reads a table payload: the two size fields, then their total in
/// pairs, recursing for nested tables.
fn load_table(data: &[u8], pos: usize) -> (r: Result<(Vec<(Key, Value)>, usize), DecodeError>)
    requires
        pos <= data@.len(),
    ensures
        match r {
            Ok((t, end)) => pos < end <= data@.len() && spec_load_table(data@.skip(pos as int))
                == Ok::<_, DecodeError>((pairs_model(t@), data@.skip(end as int))),
            Err(e) => spec_load_table(data@.skip(pos as int)) == Err::<
                (Seq<(KeyModel, ValueModel)>, Seq<u8>),
                _,
            >(e),
        },
    decreases data@.len() - pos, 2nat,
{
    let ghost s0 = data@.skip(pos as int);
    let (array_size, p1) = match load_u32(data, pos) {
        Ok(x) => x,
        Err(e) => {
            return Err(e);
        },
    };
    let (hash_size, p2) = match load_u32(data, p1) {
        Ok(x) => x,
        Err(e) => {
            return Err(e);
        },
    };
    let total: u64 = array_size as u64 + hash_size as u64;
    if total > 0xFFFF_FFFF {
        return Err(DecodeError::CountExceeded);
    }
    let ghost start = p2 as int;
    let mut result: Vec<(Key, Value)> = Vec::new();
    let mut cur: usize = p2;
    let mut i: u64 = 0;
    while i < total
        invariant
            pos < p2 <= cur <= data@.len(),
            i <= total <= 0xFFFF_FFFF,
            s0 == data@.skip(pos as int),
            result@.len() == i,
            pairs_model(result@).len() == i,
            spec_load_table(s0) == (match spec_load_pairs(
                data@.skip(cur as int),
                (total - i) as nat,
            ) {
                Ok((t, r)) => Ok::<_, DecodeError>((pairs_model(result@) + t, r)),
                Err(e) => Err::<(Seq<(KeyModel, ValueModel)>, Seq<u8>), _>(e),
            }),
        decreases total - i,
    {
        let ghost old_acc = result@;
        let ghost s_cur = data@.skip(cur as int);
        let (pair, end) = match load_key_value(data, cur) {
            Ok(x) => x,
            Err(e) => {
                return Err(e);
            },
        };
        proof {
            crate::encode::lemma_pairs_model_len(old_acc);
        }
        let ghost pm = (key_model(pair.0), value_model(pair.1));
        result.push(pair);
        proof {
            assert(result@.drop_last() =~= old_acc);
            assert(pairs_model(result@) =~= pairs_model(old_acc).push(pm));
            let inner = spec_load_pairs(data@.skip(end as int), (total - i - 1) as nat);
            assert(data@.skip(end as int).len() < s_cur.len());
            match inner {
                Ok((t, r)) => {
                    assert(pairs_model(old_acc) + (seq![pm] + t) =~= pairs_model(result@) + t);
                },
                Err(_) => {},
            }
        }
        cur = end;
        i = i + 1;
    }
    proof {
        assert(pairs_model(result@) + Seq::<(KeyModel, ValueModel)>::empty() =~= pairs_model(
            result@,
        ));
    }
    Ok((result, cur))
}

/// Parses one tuple envelope from the front of `data`: the values it
/// holds, and whatever bytes follow the envelope, which are returned to
/// the caller rather than treated as an error.
pub fn load(data: &[u8]) -> (r: Result<(&[u8], Vec<Value>), DecodeError>)
    ensures
        match r {
            Ok((rest, vals)) => spec_load(data@) == Ok::<_, DecodeError>(
                (values_model(vals@), rest@),
            ),
            Err(e) => spec_load(data@) == Err::<(Seq<ValueModel>, Seq<u8>), _>(e),
        },
{
    let (count, p) = match load_element_count(data, 0) {
        Ok(x) => x,
        Err(e) => {
            return Err(e);
        },
    };
    let total: u64 = count as u64;
    let mut result: Vec<Value> = Vec::new();
    let mut cur: usize = p;
    let mut i: u64 = 0;
    proof {
        assert(data@.skip(0).skip(1) =~= data@.skip(1));
    }
    while i < total
        invariant
            1 <= cur <= data@.len(),
            i <= total <= 250,
            result@.len() == i,
            spec_load(data@) == (match spec_load_values(
                data@.skip(cur as int),
                (total - i) as nat,
            ) {
                Ok((vs, r)) => Ok::<_, DecodeError>((values_model(result@) + vs, r)),
                Err(e) => Err::<(Seq<ValueModel>, Seq<u8>), _>(e),
            }),
        decreases total - i,
    {
        let ghost old_acc = result@;
        let ghost s_cur = data@.skip(cur as int);
        let (v, end) = match load_value(data, cur) {
            Ok(x) => x,
            Err(e) => {
                return Err(e);
            },
        };
        let ghost vm = value_model(v);
        result.push(v);
        proof {
            assert(values_model(result@) =~= values_model(old_acc).push(vm));
            let inner = spec_load_values(data@.skip(end as int), (total - i - 1) as nat);
            assert(data@.skip(end as int).len() < s_cur.len());
            match inner {
                Ok((vs, r)) => {
                    assert(values_model(old_acc) + (seq![vm] + vs) =~= values_model(result@) + vs);
                },
                Err(_) => {},
            }
        }
        cur = end;
        i = i + 1;
    }
    let rest = slice_subrange(data, cur, data.len());
    proof {
        assert(values_model(result@) + Seq::<ValueModel>::empty() =~= values_model(result@));
        assert(rest@ =~= data@.skip(cur as int));
    }
    Ok((rest, result))
}

} // verus!
