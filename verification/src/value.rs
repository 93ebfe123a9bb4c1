use vstd::prelude::*;
use vstd::utf8::encode_utf8;
use vstd::string::StringSliceAdditionalSpecFns;

use crate::bytes::{bytes_lt, lemma_bytes_lt_trichotomy, compare_bytes};

verus! {

/// A bencoded value.
///
/// Dictionaries keep their entries sorted by the bytes of their keys, each key
/// appearing once, as a `BTreeMap<String, Value>` would (see [`Bencode::wf`]).
#[derive(Debug, PartialEq)]
pub enum Value {
    String(Vec<u8>),
    Integer(i64),
    List(Vec<Value>),
    Dictionary(Vec<(String, Value)>),
}

/// The mathematical content of a [`Value`]: dictionary keys are taken by their
/// UTF-8 bytes.
pub enum Bencode {
    Bytes(Seq<u8>),
    Int(int),
    List(Seq<Bencode>),
    Dict(Seq<(Seq<u8>, Bencode)>),
}

/// The UTF-8 bytes of a dictionary key.
pub open spec fn key_bytes(key: String) -> Seq<u8> {
    encode_utf8(key@)
}

/// The model of a value.
pub open spec fn model(v: Value) -> Bencode
    decreases v,
{
    match v {
        Value::String(bytes) => Bencode::Bytes(bytes@),
        Value::Integer(i) => Bencode::Int(i as int),
        Value::List(values) => Bencode::List(list_model(values@)),
        Value::Dictionary(entries) => Bencode::Dict(dict_model(entries@)),
    }
}

/// The models of a sequence of values.
pub open spec fn list_model(values: Seq<Value>) -> Seq<Bencode>
    decreases values,
{
    if values.len() == 0 {
        Seq::empty()
    } else {
        list_model(values.drop_last()).push(model(values.last()))
    }
}

/// The models of a sequence of dictionary entries.
pub open spec fn dict_model(entries: Seq<(String, Value)>) -> Seq<(Seq<u8>, Bencode)>
    decreases entries,
{
    if entries.len() == 0 {
        Seq::empty()
    } else {
        let last = entries.last();
        dict_model(entries.drop_last()).push((key_bytes(last.0), model(last.1)))
    }
}

/// Inserting `key => value` into a dictionary whose keys are sorted: the entry
/// with an equal key is replaced, otherwise the entry goes before the first
/// greater key. This is what `BTreeMap::insert` does to the sorted entries.
pub open spec fn dict_insert<V>(entries: Seq<(Seq<u8>, V)>, key: Seq<u8>, value: V) -> Seq<(Seq<u8>, V)>
    decreases entries.len(),
{
    if entries.len() == 0 {
        seq![(key, value)]
    } else if entries[0].0 == key {
        seq![(key, value)] + entries.drop_first()
    } else if bytes_lt(key, entries[0].0) {
        seq![(key, value)] + entries
    } else {
        seq![entries[0]] + dict_insert(entries.drop_first(), key, value)
    }
}

/// Keys strictly increasing.
pub open spec fn keys_sorted<V>(entries: Seq<(Seq<u8>, V)>) -> bool {
    forall|i: int, j: int| 0 <= i < j < entries.len() ==> bytes_lt(#[trigger] entries[i].0, #[trigger] entries[j].0)
}

impl Bencode {
    /// Every dictionary, at any depth, has its keys strictly increasing.
    pub open spec fn wf(self) -> bool
        decreases self,
    {
        match self {
            Bencode::Bytes(_) => true,
            Bencode::Int(_) => true,
            Bencode::List(vs) => forall|i: int| 0 <= i < vs.len() ==> (#[trigger] vs[i]).wf(),
            Bencode::Dict(es) => keys_sorted(es) && forall|i: int| 0 <= i < es.len() ==> (#[trigger] es[i]).1.wf(),
        }
    }
}

pub proof fn lemma_list_model_len(values: Seq<Value>)
    ensures
        list_model(values).len() == values.len(),
        forall|i: int| 0 <= i < values.len() ==> #[trigger] list_model(values)[i] == model(values[i]),
    decreases values.len(),
{
    if values.len() > 0 {
        lemma_list_model_len(values.drop_last());
    }
}

pub proof fn lemma_list_model_push(values: Seq<Value>, v: Value)
    ensures
        list_model(values.push(v)) == list_model(values).push(model(v)),
{
    assert(values.push(v).drop_last() =~= values);
}

pub proof fn lemma_dict_model_len(entries: Seq<(String, Value)>)
    ensures
        dict_model(entries).len() == entries.len(),
        forall|i: int| 0 <= i < entries.len() ==> #[trigger] dict_model(entries)[i] == (key_bytes(entries[i].0), model(entries[i].1)),
    decreases entries.len(),
{
    if entries.len() > 0 {
        lemma_dict_model_len(entries.drop_last());
    }
}

/// Unrolls `dict_insert` over a prefix of entries that all precede the key.
proof fn lemma_dict_insert_skip<V>(entries: Seq<(Seq<u8>, V)>, i: int, key: Seq<u8>, value: V)
    requires
        0 <= i <= entries.len(),
        forall|j: int| 0 <= j < i ==> bytes_lt(#[trigger] entries[j].0, key),
    ensures
        dict_insert(entries, key, value) == entries.take(i) + dict_insert(entries.skip(i), key, value),
    decreases i,
{
    if i == 0 {
        assert(entries.skip(0) =~= entries);
        assert(entries.take(0) + dict_insert(entries, key, value) =~= dict_insert(entries, key, value));
    } else {
        lemma_bytes_lt_trichotomy(entries[0].0, key);
        lemma_dict_insert_skip(entries.drop_first(), i - 1, key, value);
        assert(entries.drop_first().skip(i - 1) =~= entries.skip(i));
        assert(seq![entries[0]] + entries.drop_first().take(i - 1) =~= entries.take(i));
        assert(seq![entries[0]] + (entries.drop_first().take(i - 1) + dict_insert(entries.skip(i), key, value))
            =~= entries.take(i) + dict_insert(entries.skip(i), key, value));
    }
}

/// Inserts `key => value` into dictionary entries as `dict_insert` says.
pub(crate) fn insert_entry(entries: &mut Vec<(String, Value)>, key: String, value: Value)
    ensures
        dict_model(final(entries)@) == dict_insert(dict_model(old(entries)@), key_bytes(key), model(value)),
{
    proof { lemma_dict_model_len(entries@); }
    let ghost k = key_bytes(key);
    let ghost es = dict_model(entries@);
    let mut i: usize = 0;
    let key_view = key.as_str().as_bytes();
    let n = entries.len();
    while i < n
        invariant
            0 <= i <= n,
            n == entries.len(),
            entries@ == old(entries)@,
            es == dict_model(entries@),
            es.len() == n,
            k == key_bytes(key),
            key_view@ == k,
            forall|j: int| 0 <= j < i ==> bytes_lt(#[trigger] es[j].0, k),
            forall|j: int| 0 <= j < n ==> #[trigger] es[j] == (key_bytes(entries@[j].0), model(entries@[j].1)),
        ensures
            0 <= i <= n,
            forall|j: int| 0 <= j < i ==> bytes_lt(#[trigger] es[j].0, k),
            i < n ==> !bytes_lt(es[i as int].0, k),
        decreases n - i,
    {
        let entry_key = entries[i].0.as_str().as_bytes();
        if compare_bytes(entry_key, key_view) >= 0 {
            break;
        }
        i = i + 1;
    }
    proof { lemma_dict_insert_skip(es, i as int, k, model(value)); }
    let ghost old_entries = entries@;
    if i < n && compare_bytes(entries[i].0.as_str().as_bytes(), key_view) == 0 {
        let ghost rest = es.skip(i as int);
        assert(rest[0].0 == k);
        entries.set(i, (key, value));
        proof {
            assert(dict_insert(rest, k, model(value)) == seq![(k, model(value))] + rest.drop_first());
            lemma_dict_model_len(entries@);
            assert(dict_model(entries@) =~= es.take(i as int) + dict_insert(rest, k, model(value)));
        }
    } else {
        let ghost rest = es.skip(i as int);
        proof {
            if i < n {
                lemma_bytes_lt_trichotomy(rest[0].0, k);
                assert(bytes_lt(k, rest[0].0));
            }
        }
        entries.insert(i, (key, value));
        proof {
            lemma_dict_model_len(entries@);
            assert(dict_model(entries@) =~= es.take(i as int) + dict_insert(rest, k, model(value)));
        }
    }
}

impl Value {
    /// A byte string holding the UTF-8 bytes of `str`.
    pub fn string(str: &str) -> (v: Value)
        ensures
            model(v) == Bencode::Bytes(str.spec_bytes()),
    {
        Value::String(vstd::slice::slice_to_vec(str.as_bytes()))
    }

    /// An empty list.
    pub fn list() -> (v: Value)
        ensures
            model(v) == Bencode::List(Seq::empty()),
    {
        Value::List(Vec::new())
    }

    /// Appends `value` to a list; any other value comes back unchanged.
    pub fn with_value(self, value: Value) -> (v: Value)
        ensures
            model(v) == match model(self) {
                Bencode::List(vs) => Bencode::List(vs.push(model(value))),
                other => other,
            },
    {
        match self {
            Value::List(mut values) => {
                proof { lemma_list_model_push(values@, value); }
                values.push(value);
                Value::List(values)
            }
            other => other,
        }
    }

    /// An empty dictionary.
    pub fn dictionary() -> (v: Value)
        ensures
            model(v) == Bencode::Dict(Seq::empty()),
    {
        Value::Dictionary(Vec::new())
    }

    /// Inserts `key => value` into a dictionary, replacing an entry with the
    /// same key; any other value comes back unchanged.
    pub fn with_entry(self, key: &str, value: Value) -> (v: Value)
        ensures
            model(v) == match model(self) {
                Bencode::Dict(es) => Bencode::Dict(dict_insert(es, key.spec_bytes(), model(value))),
                other => other,
            },
    {
        match self {
            Value::Dictionary(mut entries) => {
                let key = key.to_owned();
                insert_entry(&mut entries, key, value);
                Value::Dictionary(entries)
            }
            other => other,
        }
    }
}

/// The kind of a value.
#[derive(Debug, Clone, Copy, PartialEq, Eq)]
pub enum ValueType {
    String,
    Integer,
    List,
    Dictionary,
}

impl ValueType {
    /// The kind of `value`.
    pub fn of(value: &Value) -> (t: ValueType)
        ensures
            t == match value {
                Value::String(_) => ValueType::String,
                Value::Integer(_) => ValueType::Integer,
                Value::List(_) => ValueType::List,
                Value::Dictionary(_) => ValueType::Dictionary,
            },
    {
        match value {
            Value::String(_) => ValueType::String,
            Value::Integer(_) => ValueType::Integer,
            Value::List(_) => ValueType::List,
            Value::Dictionary(_) => ValueType::Dictionary,
        }
    }
}

/// A value that was not of the expected kind.
#[derive(Debug)]
pub struct TypeMismatch {
    pub expected: ValueType,
    pub got: Value,
}

impl TypeMismatch {
    pub fn new(expected: ValueType, got: Value) -> (m: TypeMismatch)
        ensures
            m.expected == expected,
            m.got == got,
    {
        TypeMismatch { expected, got }
    }
}

} // verus!
