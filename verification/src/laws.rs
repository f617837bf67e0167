//! The laws that relate the encoder and the decoder: decoding an
//! encoded tuple gives back exactly the values that were encoded, with
//! any trailing bytes untouched; every decoded tuple is encodable
//! again; and re-encoding a decoded tuple reproduces a stream that
//! decodes to the same values.

use vstd::prelude::*;

use crate::bytes::{
    is_nan_bits, lemma_u32_le_round_trip, lemma_u64_le_round_trip, u32_le, u64_le,
};
use crate::decode::{
    spec_load, spec_load_key, spec_load_pair, spec_load_pairs, spec_load_string, spec_load_table,
    spec_load_u32, spec_load_u64, spec_load_value, spec_load_values,
};
use crate::encode::{
    lemma_array_size_bounds, lemma_pairs_encodable_index, spec_array_size, spec_save,
    spec_save_key, spec_save_pairs, spec_save_table, spec_save_value, spec_save_values,
};
use crate::error::DecodeError;
use crate::value::{
    key_encodable, pairs_encodable, value_encodable, values_encodable, KeyModel, ValueModel,
};

verus! {

/// A table's pairs are all encodable exactly when each one is.
pub proof fn lemma_pairs_encodable_iff(t: Seq<(KeyModel, ValueModel)>)
    ensures
        pairs_encodable(t) <==> (forall|j: int|
            0 <= j < t.len() ==> key_encodable(#[trigger] t[j].0) && value_encodable(t[j].1)),
{
    if pairs_encodable(t) {
        assert forall|j: int| 0 <= j < t.len() implies key_encodable(#[trigger] t[j].0)
            && value_encodable(t[j].1) by {
            lemma_pairs_encodable_index(t, j);
        }
    }
    if forall|j: int|
        0 <= j < t.len() ==> key_encodable(#[trigger] t[j].0) && value_encodable(t[j].1) {
        lemma_pairs_encodable_from_forall(t);
    }
}

/// A table whose every pair is encodable is encodable as a whole.
pub proof fn lemma_pairs_encodable_from_forall(t: Seq<(KeyModel, ValueModel)>)
    requires
        forall|j: int|
            0 <= j < t.len() ==> key_encodable(#[trigger] t[j].0) && value_encodable(t[j].1),
    ensures
        pairs_encodable(t),
    decreases t.len(),
{
    if t.len() > 0 {
        assert forall|j: int| 0 <= j < t.drop_last().len() implies key_encodable(
            #[trigger] t.drop_last()[j].0,
        ) && value_encodable(t.drop_last()[j].1) by {
            assert(t.drop_last()[j] == t[j]);
        }
        lemma_pairs_encodable_from_forall(t.drop_last());
        assert(t.last() == t[t.len() - 1]);
    }
}

/// Every key encoding starts with its tag byte, so it is never empty.
pub proof fn lemma_save_key_len(k: KeyModel)
    ensures
        spec_save_key(k).len() >= 1,
{
}

/// Every value encoding starts with its tag byte, so it is never empty.
pub proof fn lemma_save_value_len(v: ValueModel)
    ensures
        spec_save_value(v).len() >= 1,
{
}

/// The encoding of a non-empty table's pairs starts with the first
/// pair's key and value, followed by the remaining pairs.
pub proof fn lemma_save_pairs_first(t: Seq<(KeyModel, ValueModel)>)
    requires
        t.len() > 0,
    ensures
        spec_save_pairs(t) == spec_save_key(t[0].0) + spec_save_value(t[0].1) + spec_save_pairs(
            t.skip(1),
        ),
    decreases t.len(),
{
    if t.len() == 1 {
        assert(t.drop_last() =~= Seq::<(KeyModel, ValueModel)>::empty());
        assert(t.skip(1) =~= Seq::<(KeyModel, ValueModel)>::empty());
        assert(spec_save_pairs(t) =~= spec_save_key(t[0].0) + spec_save_value(t[0].1)
            + spec_save_pairs(t.skip(1)));
    } else {
        lemma_save_pairs_first(t.drop_last());
        assert(t.drop_last()[0] == t[0]);
        assert(t.skip(1).drop_last() =~= t.drop_last().skip(1));
        assert(t.skip(1).last() == t.last());
        assert(spec_save_pairs(t.skip(1)) == spec_save_pairs(t.drop_last().skip(1))
            + spec_save_key(t.last().0) + spec_save_value(t.last().1));
        assert(spec_save_pairs(t) =~= spec_save_key(t[0].0) + spec_save_value(t[0].1)
            + spec_save_pairs(t.skip(1)));
    }
}

/// The encoding of a non-empty tuple's values starts with the first
/// value, followed by the remaining values.
pub proof fn lemma_save_values_first(vs: Seq<ValueModel>)
    requires
        vs.len() > 0,
    ensures
        spec_save_values(vs) == spec_save_value(vs[0]) + spec_save_values(vs.skip(1)),
    decreases vs.len(),
{
    if vs.len() == 1 {
        assert(vs.drop_last() =~= Seq::<ValueModel>::empty());
        assert(vs.skip(1) =~= Seq::<ValueModel>::empty());
        assert(spec_save_values(vs) =~= spec_save_value(vs[0]) + spec_save_values(vs.skip(1)));
    } else {
        lemma_save_values_first(vs.drop_last());
        assert(vs.drop_last()[0] == vs[0]);
        assert(vs.skip(1).drop_last() =~= vs.drop_last().skip(1));
        assert(vs.skip(1).last() == vs.last());
        assert(spec_save_values(vs.skip(1)) == spec_save_values(vs.drop_last().skip(1))
            + spec_save_value(vs.last()));
        assert(spec_save_values(vs) =~= spec_save_value(vs[0]) + spec_save_values(vs.skip(1)));
    }
}

/// Reading a 32-bit field from an encoding of `x` gives back `x` and
/// the following bytes.
proof fn lemma_load_u32_of_encoded(x: u32, rest: Seq<u8>)
    ensures
        spec_load_u32(u32_le(x) + rest) == Ok::<_, DecodeError>((x, rest)),
{
    let s = u32_le(x) + rest;
    lemma_u32_le_round_trip(x);
    assert(s.skip(4) =~= rest);
}

/// Reading a 64-bit field from an encoding of `x` gives back `x` and
/// the following bytes.
proof fn lemma_load_u64_of_encoded(x: u64, rest: Seq<u8>)
    ensures
        spec_load_u64(u64_le(x) + rest) == Ok::<_, DecodeError>((x, rest)),
{
    let s = u64_le(x) + rest;
    lemma_u64_le_round_trip(x);
    assert(s.skip(8) =~= rest);
}

/// Decoding the encoding of an encodable key, with any bytes after it,
/// gives back that key and leaves exactly those bytes.
pub proof fn lemma_save_key_load(k: KeyModel, rest: Seq<u8>)
    requires
        key_encodable(k),
    ensures
        spec_load_key(spec_save_key(k) + rest) == Ok::<_, DecodeError>((k, rest)),
    decreases k, 2nat,
{
    let s = spec_save_key(k) + rest;
    match k {
        KeyModel::Boolean(b) => {
            assert(s.skip(1) =~= rest);
        },
        KeyModel::Number(bits) => {
            assert(s.skip(1) =~= u64_le(bits) + rest);
            lemma_load_u64_of_encoded(bits, rest);
            assert(!is_nan_bits(bits));
        },
        KeyModel::String(str) => {
            lemma_save_string_load(str, rest, s);
        },
        KeyModel::Table(t) => {
            assert(s.skip(1) =~= spec_save_table(t).skip(1) + rest);
            lemma_save_table_load(t, rest);
        },
    }
}

/// Decoding the encoding of an encodable value, with any bytes after
/// it, gives back that value and leaves exactly those bytes.
pub proof fn lemma_save_value_load(v: ValueModel, rest: Seq<u8>)
    requires
        value_encodable(v),
    ensures
        spec_load_value(spec_save_value(v) + rest) == Ok::<_, DecodeError>((v, rest)),
    decreases v, 2nat,
{
    let s = spec_save_value(v) + rest;
    match v {
        ValueModel::Nil => {
            assert(s.skip(1) =~= rest);
        },
        ValueModel::Boolean(b) => {
            assert(s.skip(1) =~= rest);
        },
        ValueModel::Number(bits) => {
            assert(s.skip(1) =~= u64_le(bits) + rest);
            lemma_load_u64_of_encoded(bits, rest);
        },
        ValueModel::String(str) => {
            lemma_save_string_load(str, rest, s);
        },
        ValueModel::Table(t) => {
            assert(s.skip(1) =~= spec_save_table(t).skip(1) + rest);
            lemma_save_table_load(t, rest);
        },
    }
}

/// Decoding an encoded string payload gives back its bytes. The caller
/// passes the whole remaining stream `s`, whose head is the string tag.
proof fn lemma_save_string_load(str: Seq<u8>, rest: Seq<u8>, s: Seq<u8>)
    requires
        str.len() <= 0xFFFF_FFFF,
        crate::bytes::is_utf8(str),
        s == seq![crate::type_id::TAG_STRING] + u32_le(str.len() as u32) + str + rest,
    ensures
        spec_load_string(s.skip(1)) == Ok::<_, DecodeError>((str, rest)),
        s.len() >= 1,
        s[0] == crate::type_id::TAG_STRING,
{
    let n = str.len() as u32;
    assert(s.skip(1) =~= u32_le(n) + (str + rest));
    lemma_load_u32_of_encoded(n, str + rest);
    let r = str + rest;
    assert(r.len() >= n);
    assert(r.take(n as int) =~= str);
    assert(r.skip(n as int) =~= rest);
}

/// Decoding an encoded table payload gives back its pairs. The stream
/// the decoder sees starts after the table tag.
proof fn lemma_save_table_load(t: Seq<(KeyModel, ValueModel)>, rest: Seq<u8>)
    requires
        t.len() <= 0xFFFF_FFFF,
        pairs_encodable(t),
    ensures
        spec_load_table(spec_save_table(t).skip(1) + rest) == Ok::<_, DecodeError>((t, rest)),
        spec_save_table(t).len() >= 1,
        spec_save_table(t)[0] == crate::type_id::TAG_TABLE,
    decreases t, 1nat,
{
    lemma_array_size_bounds(t, 0);
    let a = spec_array_size(t) as u32;
    let h = (t.len() - spec_array_size(t)) as u32;
    let p = spec_save_table(t).skip(1) + rest;
    assert(p =~= u32_le(a) + (u32_le(h) + (spec_save_pairs(t) + rest)));
    lemma_load_u32_of_encoded(a, u32_le(h) + (spec_save_pairs(t) + rest));
    lemma_load_u32_of_encoded(h, spec_save_pairs(t) + rest);
    assert(a + h == t.len());
    lemma_save_pairs_load(t, rest);
}

/// Decoding `n` encoded pairs gives them back in order.
proof fn lemma_save_pairs_load(t: Seq<(KeyModel, ValueModel)>, rest: Seq<u8>)
    requires
        pairs_encodable(t),
    ensures
        spec_load_pairs(spec_save_pairs(t) + rest, t.len()) == Ok::<_, DecodeError>((t, rest)),
    decreases t, 0nat,
{
    if t.len() == 0 {
        assert(spec_save_pairs(t) + rest =~= rest);
        assert(Seq::<(KeyModel, ValueModel)>::empty() =~= t);
    } else {
        lemma_pairs_encodable_iff(t);
        lemma_save_pairs_first(t);
        let k0 = t[0].0;
        let v0 = t[0].1;
        let kb = spec_save_key(k0);
        let vb = spec_save_value(v0);
        let pb = spec_save_pairs(t.skip(1));
        let s = spec_save_pairs(t) + rest;
        assert(s =~= kb + (vb + (pb + rest)));
        lemma_save_key_load(k0, vb + (pb + rest));
        lemma_save_key_len(k0);
        lemma_save_value_len(v0);
        lemma_save_value_load(v0, pb + rest);
        assert((vb + (pb + rest)).len() < s.len());
        assert(spec_load_pair(s) == Ok::<_, DecodeError>(((k0, v0), pb + rest)));
        assert((pb + rest).len() < s.len());
        assert forall|j: int|
            0 <= j < t.skip(1).len() implies key_encodable(#[trigger] t.skip(1)[j].0)
            && value_encodable(t.skip(1)[j].1) by {
            assert(t.skip(1)[j] == t[j + 1]);
        }
        lemma_pairs_encodable_iff(t.skip(1));
        lemma_save_pairs_load(t.skip(1), rest);
        assert(seq![(k0, v0)] + t.skip(1) =~= t);
    }
}

/// Decoding `n` encoded values gives them back in order.
#[verifier::rlimit(50)]
proof fn lemma_save_values_load(vs: Seq<ValueModel>, rest: Seq<u8>)
    requires
        forall|i: int| 0 <= i < vs.len() ==> value_encodable(#[trigger] vs[i]),
    ensures
        spec_load_values(spec_save_values(vs) + rest, vs.len()) == Ok::<_, DecodeError>(
            (vs, rest),
        ),
    decreases vs.len(),
{
    if vs.len() == 0 {
        assert(spec_save_values(vs) + rest =~= rest);
        assert(Seq::<ValueModel>::empty() =~= vs);
    } else {
        lemma_save_values_first(vs);
        let v0 = vs[0];
        let vb = spec_save_value(v0);
        let tb = spec_save_values(vs.skip(1));
        let s = spec_save_values(vs) + rest;
        assert(s =~= vb + (tb + rest));
        lemma_save_value_load(v0, tb + rest);
        lemma_save_value_len(v0);
        assert((tb + rest).len() < s.len());
        assert(forall|i: int| 0 <= i < vs.skip(1).len() ==> value_encodable(
            #[trigger] vs.skip(1)[i],
        ));
        lemma_save_values_load(vs.skip(1), rest);
        assert(seq![v0] + vs.skip(1) =~= vs);
    }
}

/// Round trip: loading the saved encoding of any encodable tuple, with
/// any bytes appended after the envelope, gives back exactly the
/// original values and leaves exactly the appended bytes unconsumed.
pub proof fn lemma_save_load_round_trip(vs: Seq<ValueModel>, extra: Seq<u8>)
    requires
        values_encodable(vs),
    ensures
        spec_load(spec_save(vs) + extra) == Ok::<_, DecodeError>((vs, extra)),
{
    let s = spec_save(vs) + extra;
    assert(s[0] == vs.len() as u8);
    assert(s.skip(1) =~= spec_save_values(vs) + extra);
    lemma_save_values_load(vs, extra);
}

/// A decoded value is always encodable again, and decoding consumes at
/// least one byte.
pub proof fn lemma_load_value_wf(s: Seq<u8>)
    ensures
        spec_load_value(s) matches Ok((v, r)) ==> value_encodable(v) && r.len() < s.len(),
    decreases s.len(), 0nat,
{
    if s.len() > 0 && s[0] == crate::type_id::TAG_TABLE {
        lemma_load_table_wf(s.skip(1));
    }
}

/// A decoded key is always encodable again, and decoding consumes at
/// least one byte.
pub proof fn lemma_load_key_wf(s: Seq<u8>)
    ensures
        spec_load_key(s) matches Ok((k, r)) ==> key_encodable(k) && r.len() < s.len(),
    decreases s.len(), 0nat,
{
    if s.len() > 0 && s[0] == crate::type_id::TAG_TABLE {
        lemma_load_table_wf(s.skip(1));
    }
}

/// A decoded table is always encodable again: its pair count fits the
/// 32-bit size fields and every pair is encodable.
pub proof fn lemma_load_table_wf(s: Seq<u8>)
    ensures
        spec_load_table(s) matches Ok((t, r)) ==> t.len() <= 0xFFFF_FFFF && pairs_encodable(t)
            && r.len() < s.len(),
    decreases s.len(), 0nat,
{
    if s.len() >= 8 {
        match spec_load_u32(s) {
            Ok((a, r1)) => match spec_load_u32(r1) {
                Ok((h, r2)) => {
                    if a + h <= 0xFFFF_FFFF {
                        lemma_load_pairs_wf(r2, (a + h) as nat);
                    }
                },
                Err(_) => {},
            },
            Err(_) => {},
        }
    }
}

/// A decoded pair is encodable and consumes at least one byte.
pub proof fn lemma_load_pair_wf(s: Seq<u8>)
    ensures
        spec_load_pair(s) matches Ok((p, r)) ==> key_encodable(p.0) && value_encodable(p.1)
            && r.len() < s.len(),
    decreases s.len(), 1nat,
{
    lemma_load_key_wf(s);
    match spec_load_key(s) {
        Ok((k, r1)) => {
            if r1.len() < s.len() {
                lemma_load_value_wf(r1);
            }
        },
        Err(_) => {},
    }
}

/// Decoded pairs are all encodable, number exactly `n`, and never grow
/// the remaining input.
pub proof fn lemma_load_pairs_wf(s: Seq<u8>, n: nat)
    ensures
        spec_load_pairs(s, n) matches Ok((t, r)) ==> pairs_encodable(t) && t.len() == n
            && r.len() <= s.len(),
    decreases s.len(), 2 + n,
{
    if n == 0 {
        assert(pairs_encodable(Seq::<(KeyModel, ValueModel)>::empty()));
    } else {
        lemma_load_pair_wf(s);
        match spec_load_pair(s) {
            Ok((p, r1)) => {
                if r1.len() < s.len() {
                    lemma_load_pairs_wf(r1, (n - 1) as nat);
                    match spec_load_pairs(r1, (n - 1) as nat) {
                        Ok((t, r2)) => {
                            lemma_pairs_encodable_iff(t);
                            let whole = seq![p] + t;
                            assert forall|j: int| 0 <= j < whole.len() implies key_encodable(
                                #[trigger] whole[j].0,
                            ) && value_encodable(whole[j].1) by {
                                if j > 0 {
                                    assert(whole[j] == t[j - 1]);
                                }
                            }
                            lemma_pairs_encodable_iff(whole);
                        },
                        Err(_) => {},
                    }
                }
            },
            Err(_) => {},
        }
    }
}

/// Decoded values are all encodable, number exactly `n`, and never
/// grow the remaining input.
pub proof fn lemma_load_values_wf(s: Seq<u8>, n: nat)
    ensures
        spec_load_values(s, n) matches Ok((vs, r)) ==> (forall|i: int|
            0 <= i < vs.len() ==> value_encodable(#[trigger] vs[i])) && vs.len() == n && r.len()
            <= s.len(),
    decreases s.len(), 1 + n,
{
    if n > 0 {
        lemma_load_value_wf(s);
        match spec_load_value(s) {
            Ok((v, r1)) => {
                if r1.len() < s.len() {
                    lemma_load_values_wf(r1, (n - 1) as nat);
                    match spec_load_values(r1, (n - 1) as nat) {
                        Ok((vs, r2)) => {
                            let whole = seq![v] + vs;
                            assert forall|i: int| 0 <= i < whole.len() implies value_encodable(
                                #[trigger] whole[i],
                            ) by {
                                if i > 0 {
                                    assert(whole[i] == vs[i - 1]);
                                }
                            }
                        },
                        Err(_) => {},
                    }
                }
            },
            Err(_) => {},
        }
    }
}

/// Whatever a buffer decodes to can be encoded again: the decoded
/// tuple is within the arity bound and every value in it fits the wire
/// format.
pub proof fn lemma_load_wf(s: Seq<u8>)
    ensures
        spec_load(s) matches Ok((vs, r)) ==> values_encodable(vs) && r.len() < s.len(),
{
    if s.len() > 0 && s[0] <= 250 {
        lemma_load_values_wf(s.skip(1), s[0] as nat);
    }
}

/// Idempotence under re-encoding: saving the values decoded from a
/// buffer yields a stream that decodes to exactly the same values, so
/// a second save of those values is byte-identical to the first.
pub proof fn lemma_reencode_idempotent(s: Seq<u8>)
    requires
        spec_load(s) is Ok,
    ensures
        spec_load(spec_save(spec_load(s)->Ok_0.0) + spec_load(s)->Ok_0.1) == spec_load(s),
{
    lemma_load_wf(s);
    let (vs, rest) = spec_load(s)->Ok_0;
    lemma_save_load_round_trip(vs, rest);
}

} // verus!
