//! The encoder: a pure function from a value tree to its canonical
//! byte encoding, including the array-part/hash-part split that
//! mirrors the source interpreter's table layout.

use vstd::prelude::*;

use crate::bytes::{f64_index_bits, f64_index_bits_exec, u32_le, u64_le};
use crate::type_id::{TAG_FALSE, TAG_NIL, TAG_NUMBER, TAG_STRING, TAG_TABLE, TAG_TRUE};
use crate::value::{
    key_model, pairs_encodable, pairs_model, value_model, values_encodable, values_model, Key,
    KeyModel, Value, ValueModel, value_encodable, key_encodable,
};

verus! {

/// Whether some pair of a table has the number key equal to the
/// integer `i`.
pub open spec fn table_has_index(t: Seq<(KeyModel, ValueModel)>, i: u64) -> bool {
    exists|j: int| 0 <= j < t.len() && t[j].0 == KeyModel::Number(f64_index_bits(i))
}

/// The array size of a table, scanned upward from `n` already-confirmed
/// indices: the scan stops at the first integer index with no pair.
pub open spec fn spec_array_size_from(t: Seq<(KeyModel, ValueModel)>, n: nat) -> nat
    decreases t.len() - n,
{
    if n < t.len() && table_has_index(t, (n + 1) as u64) {
        spec_array_size_from(t, n + 1)
    } else {
        n
    }
}

/// The array size of a table: the length of the maximal prefix `n` of
/// the integers such that every index in `1..=n` appears as a number
/// key of some pair.
pub open spec fn spec_array_size(t: Seq<(KeyModel, ValueModel)>) -> nat {
    spec_array_size_from(t, 0)
}

/// The encoding of a key: a tag byte, then the payload.
pub open spec fn spec_save_key(k: KeyModel) -> Seq<u8>
    decreases k, 2nat,
{
    match k {
        KeyModel::Boolean(b) => seq![if b { TAG_TRUE } else { TAG_FALSE }],
        KeyModel::Number(bits) => seq![TAG_NUMBER] + u64_le(bits),
        KeyModel::String(s) => seq![TAG_STRING] + u32_le(s.len() as u32) + s,
        KeyModel::Table(t) => spec_save_table(t),
    }
}

/// The encoding of a value: a tag byte, then the payload.
pub open spec fn spec_save_value(v: ValueModel) -> Seq<u8>
    decreases v, 2nat,
{
    match v {
        ValueModel::Nil => seq![TAG_NIL],
        ValueModel::Boolean(b) => seq![if b { TAG_TRUE } else { TAG_FALSE }],
        ValueModel::Number(bits) => seq![TAG_NUMBER] + u64_le(bits),
        ValueModel::String(s) => seq![TAG_STRING] + u32_le(s.len() as u32) + s,
        ValueModel::Table(t) => spec_save_table(t),
    }
}

/// The encoding of a table: the table tag, the array and hash sizes as
/// little-endian 32-bit fields, then every pair in original order.
pub open spec fn spec_save_table(t: Seq<(KeyModel, ValueModel)>) -> Seq<u8>
    decreases t, 1nat,
{
    seq![TAG_TABLE] + u32_le(spec_array_size(t) as u32) + u32_le(
        (t.len() - spec_array_size(t)) as u32,
    ) + spec_save_pairs(t)
}

/// The encodings of a table's pairs, key then value, in order.
pub open spec fn spec_save_pairs(t: Seq<(KeyModel, ValueModel)>) -> Seq<u8>
    decreases t, 0nat,
{
    if t.len() == 0 {
        Seq::empty()
    } else {
        spec_save_pairs(t.drop_last()) + spec_save_key(t.last().0) + spec_save_value(t.last().1)
    }
}

/// The encodings of a tuple's values, in order.
pub open spec fn spec_save_values(vs: Seq<ValueModel>) -> Seq<u8>
    decreases vs,
{
    if vs.len() == 0 {
        Seq::empty()
    } else {
        spec_save_values(vs.drop_last()) + spec_save_value(vs.last())
    }
}

/// The encoding of a whole tuple envelope: the count byte, then each
/// value's encoding.
pub open spec fn spec_save(vs: Seq<ValueModel>) -> Seq<u8> {
    seq![vs.len() as u8] + spec_save_values(vs)
}

/// The array-size scan never moves below its start nor past the table's
/// length.
pub proof fn lemma_array_size_bounds(t: Seq<(KeyModel, ValueModel)>, n: nat)
    requires
        n <= t.len(),
    ensures
        n <= spec_array_size_from(t, n) <= t.len(),
    decreases t.len() - n,
{
    if n < t.len() && table_has_index(t, (n + 1) as u64) {
        lemma_array_size_bounds(t, n + 1);
    }
}

/// Appends the four little-endian bytes of `x`.
fn push_u32_le(result: &mut Vec<u8>, x: u32)
    ensures
        final(result)@ == old(result)@ + u32_le(x),
{
    result.push((x & 0xFF) as u8);
    result.push(((x >> 8) & 0xFF) as u8);
    result.push(((x >> 16) & 0xFF) as u8);
    result.push(((x >> 24) & 0xFF) as u8);
    assert(result@ =~= old(result)@ + u32_le(x));
}

/// Appends the eight little-endian bytes of `x`.
fn push_u64_le(result: &mut Vec<u8>, x: u64)
    ensures
        final(result)@ == old(result)@ + u64_le(x),
{
    result.push((x & 0xFF) as u8);
    result.push(((x >> 8) & 0xFF) as u8);
    result.push(((x >> 16) & 0xFF) as u8);
    result.push(((x >> 24) & 0xFF) as u8);
    result.push(((x >> 32) & 0xFF) as u8);
    result.push(((x >> 40) & 0xFF) as u8);
    result.push(((x >> 48) & 0xFF) as u8);
    result.push(((x >> 56) & 0xFF) as u8);
    assert(result@ =~= old(result)@ + u64_le(x));
}

/// Every pair of an encodable table is itself encodable.
pub proof fn lemma_pairs_encodable_index(t: Seq<(KeyModel, ValueModel)>, j: int)
    requires
        pairs_encodable(t),
        0 <= j < t.len(),
    ensures
        key_encodable(t[j].0),
        value_encodable(t[j].1),
    decreases t.len(),
{
    if j < t.len() - 1 {
        lemma_pairs_encodable_index(t.drop_last(), j);
    }
}

/// Each pair of a table appears in its model at the same place.
pub proof fn lemma_pairs_model_index(t: Seq<(Key, Value)>, j: int)
    requires
        0 <= j < t.len(),
    ensures
        pairs_model(t).len() == t.len(),
        pairs_model(t)[j] == (key_model(t[j].0), value_model(t[j].1)),
    decreases t.len(),
{
    if j < t.len() - 1 {
        lemma_pairs_model_index(t.drop_last(), j);
    } else {
        lemma_pairs_model_len(t.drop_last());
    }
}

/// A table and its model have the same length.
pub proof fn lemma_pairs_model_len(t: Seq<(Key, Value)>)
    ensures
        pairs_model(t).len() == t.len(),
    decreases t.len(),
{
    if t.len() > 0 {
        lemma_pairs_model_len(t.drop_last());
    }
}

/// Computes the array size of a table: the longest run of integer keys
/// `1..=n` that all appear among the pairs.
fn array_size(table: &Vec<(Key, Value)>) -> (r: usize)
    requires
        table@.len() <= 0xFFFF_FFFF,
    ensures
        r == spec_array_size(pairs_model(table@)),
{
    let ghost tm = pairs_model(table@);
    proof {
        lemma_pairs_model_len(table@);
    }
    let len = table.len();
    let mut size: usize = 0;
    loop
        invariant
            size <= len == table@.len() <= 0xFFFF_FFFF,
            tm == pairs_model(table@),
            tm.len() == len,
            spec_array_size(tm) == spec_array_size_from(tm, size as nat),
        decreases len - size,
    {
        if size == len {
            return size;
        }
        let target = f64_index_bits_exec((size + 1) as u64);
        let mut j: usize = 0;
        let mut found = false;
        while j < len && !found
            invariant
                j <= len == table@.len(),
                tm == pairs_model(table@),
                tm.len() == len,
                target == f64_index_bits((size + 1) as u64),
                found ==> table_has_index(tm, (size + 1) as u64),
                !found ==> forall|i: int|
                    0 <= i < j ==> tm[i].0 != KeyModel::Number(f64_index_bits((size + 1) as u64)),
            decreases len - j,
        {
            proof {
                lemma_pairs_model_index(table@, j as int);
            }
            match &table[j].0 {
                Key::Number(n) => {
                    if n.bits() == target {
                        found = true;
                        proof {
                            assert(tm[j as int].0 == KeyModel::Number(f64_index_bits(
                                (size + 1) as u64,
                            )));
                        }
                    }
                },
                _ => {},
            }
            j = j + 1;
        }
        if found {
            size = size + 1;
        } else {
            proof {
                assert(!table_has_index(tm, (size + 1) as u64)) by {
                    if table_has_index(tm, (size + 1) as u64) {
                        let w = choose|i: int|
                            0 <= i < tm.len() && tm[i].0 == KeyModel::Number(
                                f64_index_bits((size + 1) as u64),
                            );
                        assert(tm[w].0 != KeyModel::Number(f64_index_bits((size + 1) as u64)));
                    }
                }
            }
            return size;
        }
    }
}

/// Writes one key: its tag byte, then its payload, recursing through
/// nested tables.
fn save_key(result: &mut Vec<u8>, key: &Key)
    requires
        key_encodable(key_model(*key)),
    ensures
        final(result)@ == old(result)@ + spec_save_key(key_model(*key)),
    decreases key, 1nat,
{
    match key {
        Key::Boolean(inner) => {
            if *inner {
                result.push(TAG_TRUE);
            } else {
                result.push(TAG_FALSE);
            }
            assert(result@ =~= old(result)@ + spec_save_key(key_model(*key)));
        },
        Key::Number(inner) => {
            result.push(TAG_NUMBER);
            push_u64_le(result, inner.bits());
            assert(result@ =~= old(result)@ + spec_save_key(key_model(*key)));
        },
        Key::String(inner) => {
            result.push(TAG_STRING);
            push_u32_le(result, inner.len() as u32);
            append_bytes(result, inner);
            assert(result@ =~= old(result)@ + spec_save_key(key_model(*key)));
        },
        Key::Table(table) => {
            save_table(result, table);
        },
    }
}

/// Writes one value: its tag byte, then its payload, recursing through
/// nested tables.
fn save_value(result: &mut Vec<u8>, value: &Value)
    requires
        value_encodable(value_model(*value)),
    ensures
        final(result)@ == old(result)@ + spec_save_value(value_model(*value)),
    decreases value, 1nat,
{
    match value {
        Value::Nil => {
            result.push(TAG_NIL);
            assert(result@ =~= old(result)@ + spec_save_value(value_model(*value)));
        },
        Value::Boolean(inner) => {
            if *inner {
                result.push(TAG_TRUE);
            } else {
                result.push(TAG_FALSE);
            }
            assert(result@ =~= old(result)@ + spec_save_value(value_model(*value)));
        },
        Value::Number(inner) => {
            result.push(TAG_NUMBER);
            push_u64_le(result, *inner);
            assert(result@ =~= old(result)@ + spec_save_value(value_model(*value)));
        },
        Value::String(inner) => {
            result.push(TAG_STRING);
            push_u32_le(result, inner.len() as u32);
            append_bytes(result, inner);
            assert(result@ =~= old(result)@ + spec_save_value(value_model(*value)));
        },
        Value::Table(table) => {
            save_table(result, table);
        },
    }
}

/// Appends a byte vector.
fn append_bytes(result: &mut Vec<u8>, bytes: &Vec<u8>)
    ensures
        final(result)@ == old(result)@ + bytes@,
{
    let mut i: usize = 0;
    while i < bytes.len()
        invariant
            i <= bytes@.len(),
            result@ == old(result)@ + bytes@.take(i as int),
        decreases bytes@.len() - i,
    {
        result.push(bytes[i]);
        assert(result@ =~= old(result)@ + bytes@.take(i + 1));
        i = i + 1;
    }
    assert(result@ =~= old(result)@ + bytes@);
}

/// Writes one table: the table tag, the array and hash sizes, then
/// every pair in original order.
fn save_table(result: &mut Vec<u8>, table: &Vec<(Key, Value)>)
    requires
        pairs_model(table@).len() <= 0xFFFF_FFFF,
        pairs_encodable(pairs_model(table@)),
    ensures
        final(result)@ == old(result)@ + spec_save_table(pairs_model(table@)),
    decreases table, 0nat,
{
    let ghost tm = pairs_model(table@);
    proof {
        lemma_pairs_model_len(table@);
        lemma_array_size_bounds(tm, 0);
    }
    let array = array_size(table);
    let hash_size = table.len() - array;
    result.push(TAG_TABLE);
    push_u32_le(result, array as u32);
    push_u32_le(result, hash_size as u32);
    let ghost header = old(result)@ + seq![TAG_TABLE] + u32_le(array as u32) + u32_le(
        hash_size as u32,
    );
    assert(result@ =~= header);
    let mut j: usize = 0;
    while j < table.len()
        invariant
            j <= table@.len() <= 0xFFFF_FFFF,
            tm == pairs_model(table@),
            tm.len() == table@.len(),
            pairs_encodable(tm),
            result@ == header + spec_save_pairs(tm.take(j as int)),
        decreases table@.len() - j,
    {
        proof {
            lemma_pairs_model_index(table@, j as int);
            lemma_pairs_encodable_take_index(tm, j as int);
        }
        save_key(result, &table[j].0);
        save_value(result, &table[j].1);
        proof {
            assert(tm.take(j + 1).drop_last() =~= tm.take(j as int));
            assert(tm.take(j + 1).last() == tm[j as int]);
            assert(result@ =~= header + spec_save_pairs(tm.take(j + 1)));
        }
        j = j + 1;
    }
    proof {
        assert(tm.take(tm.len() as int) =~= tm);
        assert(header + spec_save_pairs(tm) =~= old(result)@ + spec_save_table(tm));
    }
}

/// An encodable table's pair at `j` is encodable.
proof fn lemma_pairs_encodable_take_index(t: Seq<(KeyModel, ValueModel)>, j: int)
    requires
        pairs_encodable(t),
        0 <= j < t.len(),
    ensures
        key_encodable(t[j].0),
        value_encodable(t[j].1),
{
    lemma_pairs_encodable_index(t, j);
}

/// Serializes a tuple of values: the one-byte count, then each value's
/// encoding in order. The count must not exceed 250 and every value
/// must fit the wire format's size fields; `try_save` checks this at
/// run time.
pub fn save(data: &[Value]) -> (r: Vec<u8>)
    requires
        values_encodable(values_model(data@)),
    ensures
        r@ == spec_save(values_model(data@)),
{
    let ghost vm = values_model(data@);
    let mut result: Vec<u8> = Vec::new();
    result.push(data.len() as u8);
    assert(result@ =~= seq![vm.len() as u8]);
    let mut i: usize = 0;
    while i < data.len()
        invariant
            i <= data@.len() <= 250,
            vm == values_model(data@),
            vm.len() == data@.len(),
            values_encodable(vm),
            result@ == seq![vm.len() as u8] + spec_save_values(vm.take(i as int)),
        decreases data@.len() - i,
    {
        assert(vm[i as int] == value_model(data@[i as int]));
        save_value(&mut result, &data[i]);
        proof {
            assert(vm.take(i + 1).drop_last() =~= vm.take(i as int));
            assert(result@ =~= seq![vm.len() as u8] + spec_save_values(vm.take(i + 1)));
        }
        i = i + 1;
    }
    proof {
        assert(vm.take(vm.len() as int) =~= vm);
    }
    result
}

/// Checks that a key fits the wire format, recursing through nested
/// tables.
fn check_key_encodable(key: &Key) -> (r: bool)
    ensures
        r == key_encodable(key_model(*key)),
    decreases key, 1nat,
{
    match key {
        Key::Boolean(_) => true,
        Key::Number(n) => {
            proof {
                use_type_invariant(*n);
                n.lemma_not_nan();
            }
            true
        },
        Key::String(s) => (s.len() as u64) <= 0xFFFF_FFFF && {
            let ok = crate::bytes::check_utf8(s.as_slice(), 0);
            proof {
                assert(s@.skip(0) =~= s@);
            }
            ok
        },
        Key::Table(table) => check_table_encodable(table),
    }
}

/// Checks that a value fits the wire format, recursing through nested
/// tables.
fn check_value_encodable(value: &Value) -> (r: bool)
    ensures
        r == value_encodable(value_model(*value)),
    decreases value, 1nat,
{
    match value {
        Value::Nil => true,
        Value::Boolean(_) => true,
        Value::Number(_) => true,
        Value::String(s) => (s.len() as u64) <= 0xFFFF_FFFF && {
            let ok = crate::bytes::check_utf8(s.as_slice(), 0);
            proof {
                assert(s@.skip(0) =~= s@);
            }
            ok
        },
        Value::Table(table) => check_table_encodable(table),
    }
}

/// Checks that a table's pair count fits 32 bits and that every pair
/// fits the wire format.
fn check_table_encodable(table: &Vec<(Key, Value)>) -> (r: bool)
    ensures
        r == (pairs_model(table@).len() <= 0xFFFF_FFFF && pairs_encodable(pairs_model(table@))),
    decreases table, 0nat,
{
    let ghost tm = pairs_model(table@);
    proof {
        lemma_pairs_model_len(table@);
    }
    if (table.len() as u64) > 0xFFFF_FFFF {
        return false;
    }
    let mut j: usize = 0;
    while j < table.len()
        invariant
            j <= table@.len() <= 0xFFFF_FFFF,
            tm == pairs_model(table@),
            tm.len() == table@.len(),
            pairs_encodable(tm.take(j as int)),
        decreases table@.len() - j,
    {
        proof {
            lemma_pairs_model_index(table@, j as int);
        }
        if !check_key_encodable(&table[j].0) || !check_value_encodable(&table[j].1) {
            proof {
                if pairs_encodable(tm) {
                    lemma_pairs_encodable_index(tm, j as int);
                }
            }
            return false;
        }
        proof {
            assert(tm.take(j + 1).drop_last() =~= tm.take(j as int));
            assert(tm.take(j + 1).last() == tm[j as int]);
            assert(pairs_encodable(tm.take(j + 1)));
        }
        j = j + 1;
    }
    proof {
        assert(tm.take(table@.len() as int) =~= tm);
    }
    true
}

/// Serializes a tuple after checking it against the format's limits:
/// `None` exactly when the tuple has more than 250 values or some
/// value in it does not fit the wire format's size fields or holds an
/// invalid string.
pub fn try_save(data: &[Value]) -> (r: Option<Vec<u8>>)
    ensures
        r is Some <==> values_encodable(values_model(data@)),
        r matches Some(b) ==> b@ == spec_save(values_model(data@)),
{
    let ghost vm = values_model(data@);
    if data.len() > 250 {
        return None;
    }
    let mut i: usize = 0;
    while i < data.len()
        invariant
            i <= data@.len() <= 250,
            vm == values_model(data@),
            vm.len() == data@.len(),
            forall|k: int| 0 <= k < i ==> value_encodable(#[trigger] vm[k]),
        decreases data@.len() - i,
    {
        assert(vm[i as int] == value_model(data@[i as int]));
        if !check_value_encodable(&data[i]) {
            assert(!value_encodable(vm[i as int]));
            return None;
        }
        i = i + 1;
    }
    Some(save(data))
}

} // verus!
