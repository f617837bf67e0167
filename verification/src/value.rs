//! The value model: the `Key` and `Value` sum types, their structural
//! accessors, their mathematical models, and the well-formedness
//! predicates that encoding relies on.
//!
//! Numbers are carried as the 64-bit IEEE-754 bit pattern of the
//! double they stand for; strings are carried as their UTF-8 bytes.

use vstd::prelude::*;

use crate::bytes::{is_nan_bits, is_utf8};

verus! {

/// The number of a table key: a double's bit pattern that is never NaN.
///
/// NaN is rejected at construction, so a `NotNanBits` always compares
/// and orders like the finite-or-infinite double it encodes.
#[derive(Debug, Clone, Copy, PartialEq, Eq, Structural)]
pub struct NotNanBits {
    bits: u64,
}

impl NotNanBits {
    /// The bit pattern this key number carries.
    pub closed spec fn spec_bits(self) -> u64 {
        self.bits
    }

    #[verifier::type_invariant]
    pub closed spec fn wf(self) -> bool {
        !is_nan_bits(self.bits)
    }

    /// Accepts a double's bit pattern; `None` exactly on NaN patterns.
    pub fn new(bits: u64) -> (r: Option<NotNanBits>)
        ensures
            r is Some <==> !is_nan_bits(bits),
            r matches Some(n) ==> n.spec_bits() == bits,
    {
        if (bits >> 52) & 0x7FF == 0x7FF && bits & 0x000F_FFFF_FFFF_FFFF != 0 {
            None
        } else {
            Some(NotNanBits { bits })
        }
    }

    /// A well-formed key number's bit pattern is never that of a NaN.
    pub proof fn lemma_not_nan(self)
        requires
            self.wf(),
        ensures
            !is_nan_bits(self.spec_bits()),
    {
    }

    /// The bit pattern, which is never that of a NaN.
    pub fn bits(self) -> (r: u64)
        ensures
            r == self.spec_bits(),
            !is_nan_bits(r),
    {
        proof {
            use_type_invariant(self);
        }
        self.bits
    }
}

/// A table key: any value kind but nil, and numbers are never NaN.
#[derive(Debug)]
pub enum Key {
    Boolean(bool),
    Number(NotNanBits),
    String(Vec<u8>),
    Table(Vec<(Key, Value)>),
}

/// A decoded value: nil, boolean, a double's bit pattern (unconstrained,
/// NaN and infinities included), UTF-8 text as bytes, or a table held as
/// an ordered sequence of key/value pairs.
#[derive(Debug)]
pub enum Value {
    Nil,
    Boolean(bool),
    Number(u64),
    String(Vec<u8>),
    Table(Vec<(Key, Value)>),
}

/// The mathematical model of a `Key`.
pub enum KeyModel {
    Boolean(bool),
    Number(u64),
    String(Seq<u8>),
    Table(Seq<(KeyModel, ValueModel)>),
}

/// The mathematical model of a `Value`.
pub enum ValueModel {
    Nil,
    Boolean(bool),
    Number(u64),
    String(Seq<u8>),
    Table(Seq<(KeyModel, ValueModel)>),
}

/// The model of a key: numbers become their bit patterns, strings their
/// byte sequences, tables the sequence of their modelled pairs.
pub open spec fn key_model(k: Key) -> KeyModel
    decreases k, 1nat,
{
    match k {
        Key::Boolean(b) => KeyModel::Boolean(b),
        Key::Number(n) => KeyModel::Number(n.spec_bits()),
        Key::String(s) => KeyModel::String(s@),
        Key::Table(t) => KeyModel::Table(pairs_model(t@)),
    }
}

/// The model of a value.
pub open spec fn value_model(v: Value) -> ValueModel
    decreases v, 1nat,
{
    match v {
        Value::Nil => ValueModel::Nil,
        Value::Boolean(b) => ValueModel::Boolean(b),
        Value::Number(bits) => ValueModel::Number(bits),
        Value::String(s) => ValueModel::String(s@),
        Value::Table(t) => ValueModel::Table(pairs_model(t@)),
    }
}

/// The model of a table's pairs, in order.
pub open spec fn pairs_model(t: Seq<(Key, Value)>) -> Seq<(KeyModel, ValueModel)>
    decreases t, 0nat,
{
    if t.len() == 0 {
        Seq::empty()
    } else {
        pairs_model(t.drop_last()).push((key_model(t.last().0), value_model(t.last().1)))
    }
}

impl View for Key {
    type V = KeyModel;

    open spec fn view(&self) -> KeyModel {
        key_model(*self)
    }
}

impl View for Value {
    type V = ValueModel;

    open spec fn view(&self) -> ValueModel {
        value_model(*self)
    }
}

/// The models of a tuple's values, in order.
pub open spec fn values_model(vs: Seq<Value>) -> Seq<ValueModel> {
    vs.map_values(|v: Value| value_model(v))
}

impl Key {
    /// The boolean a key holds, if it is a boolean.
    pub fn get_bool(&self) -> (r: Option<bool>)
        ensures
            r matches Some(b) ==> self@ == KeyModel::Boolean(b),
            r is None ==> !(self@ is Boolean),
    {
        match self {
            Key::Boolean(inner) => Some(*inner),
            _ => None,
        }
    }

    /// The number a key holds, if it is a number.
    pub fn get_number(&self) -> (r: Option<NotNanBits>)
        ensures
            r matches Some(n) ==> self@ == KeyModel::Number(n.spec_bits()),
            r is None ==> !(self@ is Number),
    {
        match self {
            Key::Number(inner) => Some(*inner),
            _ => None,
        }
    }

    /// The UTF-8 bytes a key holds, if it is a string.
    pub fn get_string(&self) -> (r: Option<&Vec<u8>>)
        ensures
            r matches Some(s) ==> self@ == KeyModel::String(s@),
            r is None ==> !(self@ is String),
    {
        match self {
            Key::String(inner) => Some(inner),
            _ => None,
        }
    }

    /// The pairs a key holds, if it is a table.
    pub fn get_table(&self) -> (r: Option<&Vec<(Key, Value)>>)
        ensures
            r matches Some(t) ==> self@ == KeyModel::Table(pairs_model(t@)),
            r is None ==> !(self@ is Table),
    {
        match self {
            Key::Table(inner) => Some(inner),
            _ => None,
        }
    }
}

impl Value {
    /// `Some(())` exactly when the value is nil.
    pub fn get_nil(&self) -> (r: Option<()>)
        ensures
            r is Some <==> self@ is Nil,
    {
        match self {
            Value::Nil => Some(()),
            _ => None,
        }
    }

    /// The boolean a value holds, if it is a boolean.
    pub fn get_bool(&self) -> (r: Option<bool>)
        ensures
            r matches Some(b) ==> self@ == ValueModel::Boolean(b),
            r is None ==> !(self@ is Boolean),
    {
        match self {
            Value::Boolean(inner) => Some(*inner),
            _ => None,
        }
    }

    /// The bit pattern of the number a value holds, if it is a number.
    pub fn get_number(&self) -> (r: Option<u64>)
        ensures
            r matches Some(bits) ==> self@ == ValueModel::Number(bits),
            r is None ==> !(self@ is Number),
    {
        match self {
            Value::Number(inner) => Some(*inner),
            _ => None,
        }
    }

    /// The UTF-8 bytes a value holds, if it is a string.
    pub fn get_string(&self) -> (r: Option<&Vec<u8>>)
        ensures
            r matches Some(s) ==> self@ == ValueModel::String(s@),
            r is None ==> !(self@ is String),
    {
        match self {
            Value::String(inner) => Some(inner),
            _ => None,
        }
    }

    /// The pairs a value holds, if it is a table.
    pub fn get_table(&self) -> (r: Option<&Vec<(Key, Value)>>)
        ensures
            r matches Some(t) ==> self@ == ValueModel::Table(pairs_model(t@)),
            r is None ==> !(self@ is Table),
    {
        match self {
            Value::Table(inner) => Some(inner),
            _ => None,
        }
    }
}

/// Compares two byte vectors.
fn bytes_eq(a: &Vec<u8>, b: &Vec<u8>) -> (r: bool)
    ensures
        r == (a@ == b@),
{
    if a.len() != b.len() {
        return false;
    }
    let mut i: usize = 0;
    while i < a.len()
        invariant
            i <= a@.len() == b@.len(),
            forall|k: int| 0 <= k < i ==> a@[k] == b@[k],
        decreases a@.len() - i,
    {
        if a[i] != b[i] {
            return false;
        }
        i = i + 1;
    }
    proof {
        assert(a@ =~= b@);
    }
    true
}

/// Compares two tables pair by pair, in order.
fn table_deep_eq(a: &Vec<(Key, Value)>, b: &Vec<(Key, Value)>) -> (r: bool)
    ensures
        r == (pairs_model(a@) == pairs_model(b@)),
    decreases a, 0nat,
{
    let ghost am = pairs_model(a@);
    let ghost bm = pairs_model(b@);
    proof {
        crate::encode::lemma_pairs_model_len(a@);
        crate::encode::lemma_pairs_model_len(b@);
    }
    if a.len() != b.len() {
        return false;
    }
    let mut j: usize = 0;
    while j < a.len()
        invariant
            j <= a@.len() == b@.len(),
            am == pairs_model(a@),
            bm == pairs_model(b@),
            am.len() == a@.len() && bm.len() == b@.len(),
            forall|k: int| 0 <= k < j ==> am[k] == bm[k],
        decreases a@.len() - j,
    {
        proof {
            crate::encode::lemma_pairs_model_index(a@, j as int);
            crate::encode::lemma_pairs_model_index(b@, j as int);
        }
        if !a[j].0.deep_eq(&b[j].0) || !a[j].1.deep_eq(&b[j].1) {
            return false;
        }
        assert(am[j as int] == bm[j as int]);
        j = j + 1;
    }
    proof {
        assert(am =~= bm);
    }
    true
}

impl Key {
    /// Structural equality: true exactly when the two keys model the
    /// same mathematical value, nested tables included.
    pub fn deep_eq(&self, other: &Key) -> (r: bool)
        ensures
            r == (self@ == other@),
        decreases self, 1nat,
    {
        match (self, other) {
            (Key::Boolean(x), Key::Boolean(y)) => x == y,
            (Key::Number(x), Key::Number(y)) => x.bits() == y.bits(),
            (Key::String(x), Key::String(y)) => bytes_eq(x, y),
            (Key::Table(x), Key::Table(y)) => table_deep_eq(x, y),
            _ => false,
        }
    }
}

impl Value {
    /// Structural equality: true exactly when the two values model the
    /// same mathematical value, nested tables included.
    pub fn deep_eq(&self, other: &Value) -> (r: bool)
        ensures
            r == (self@ == other@),
        decreases self, 1nat,
    {
        match (self, other) {
            (Value::Nil, Value::Nil) => true,
            (Value::Boolean(x), Value::Boolean(y)) => x == y,
            (Value::Number(x), Value::Number(y)) => x == y,
            (Value::String(x), Value::String(y)) => bytes_eq(x, y),
            (Value::Table(x), Value::Table(y)) => table_deep_eq(x, y),
            _ => false,
        }
    }
}

/// Whether a modelled key can be encoded and decoded back unchanged:
/// numbers are not NaN, string byte lengths and table pair counts fit
/// the wire format's 32-bit size fields, strings are valid UTF-8, and
/// the same holds through nested tables.
pub open spec fn key_encodable(k: KeyModel) -> bool
    decreases k, 1nat,
{
    match k {
        KeyModel::Boolean(_) => true,
        KeyModel::Number(bits) => !is_nan_bits(bits),
        KeyModel::String(s) => s.len() <= 0xFFFF_FFFF && is_utf8(s),
        KeyModel::Table(t) => t.len() <= 0xFFFF_FFFF && pairs_encodable(t),
    }
}

/// Whether a modelled value can be encoded and decoded back unchanged.
pub open spec fn value_encodable(v: ValueModel) -> bool
    decreases v, 1nat,
{
    match v {
        ValueModel::Nil => true,
        ValueModel::Boolean(_) => true,
        ValueModel::Number(_) => true,
        ValueModel::String(s) => s.len() <= 0xFFFF_FFFF && is_utf8(s),
        ValueModel::Table(t) => t.len() <= 0xFFFF_FFFF && pairs_encodable(t),
    }
}

/// Whether every pair of a modelled table is encodable.
pub open spec fn pairs_encodable(t: Seq<(KeyModel, ValueModel)>) -> bool
    decreases t, 0nat,
{
    if t.len() == 0 {
        true
    } else {
        pairs_encodable(t.drop_last()) && key_encodable(t.last().0) && value_encodable(
            t.last().1,
        )
    }
}

/// Whether a modelled tuple can be encoded: at most 250 values, each
/// itself encodable.
pub open spec fn values_encodable(vs: Seq<ValueModel>) -> bool {
    vs.len() <= 250 && forall|i: int| 0 <= i < vs.len() ==> value_encodable(#[trigger] vs[i])
}

} // verus!
