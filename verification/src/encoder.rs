use vstd::prelude::*;

use crate::value::{Bencode, Value, model, list_model, dict_model, key_bytes, lemma_list_model_len, lemma_dict_model_len};

verus! {

/// The decimal digits of `n`, most significant first, without leading zeros.
pub open spec fn decimal(n: nat) -> Seq<u8>
    decreases n,
{
    if n < 10 {
        seq![(48 + n) as u8]
    } else {
        decimal(n / 10).push((48 + n % 10) as u8)
    }
}

/// `i` in decimal, with a leading `-` when it is negative.
pub open spec fn signed_decimal(i: int) -> Seq<u8> {
    if i < 0 {
        seq![45u8] + decimal((-i) as nat)
    } else {
        decimal(i as nat)
    }
}

/// A byte string: its length in decimal, `:`, then the bytes.
pub open spec fn string_encoding(bytes: Seq<u8>) -> Seq<u8> {
    decimal(bytes.len()) + seq![58u8] + bytes
}

/// The bencoding of a value.
pub open spec fn encoding(v: Bencode) -> Seq<u8>
    decreases v,
{
    match v {
        Bencode::Bytes(bytes) => string_encoding(bytes),
        Bencode::Int(i) => seq![105u8] + signed_decimal(i) + seq![101u8],
        Bencode::List(vs) => seq![108u8] + list_encoding(vs) + seq![101u8],
        Bencode::Dict(es) => seq![100u8] + dict_encoding(es) + seq![101u8],
    }
}

/// The bencodings of the values of a list, one after the other.
pub open spec fn list_encoding(vs: Seq<Bencode>) -> Seq<u8>
    decreases vs,
{
    if vs.len() == 0 {
        Seq::empty()
    } else {
        list_encoding(vs.drop_last()) + encoding(vs.last())
    }
}

/// Each entry of a dictionary as its key's string encoding followed by its value.
pub open spec fn dict_encoding(es: Seq<(Seq<u8>, Bencode)>) -> Seq<u8>
    decreases es,
{
    if es.len() == 0 {
        Seq::empty()
    } else {
        dict_encoding(es.drop_last()) + string_encoding(es.last().0) + encoding(es.last().1)
    }
}

/// Appends the decimal digits of `n`.
pub fn push_decimal(out: &mut Vec<u8>, n: u64)
    ensures
        final(out)@ == old(out)@ + decimal(n as nat),
    decreases n,
{
    if n >= 10 {
        push_decimal(out, n / 10);
    }
    let digit = (n % 10) as u8;
    out.push(48 + digit);
    proof {
        assert(final(out)@ =~= old(out)@ + decimal(n as nat));
    }
}

/// Appends `i` in decimal, with a leading `-` when negative.
pub fn push_signed_decimal(out: &mut Vec<u8>, i: i64)
    ensures
        final(out)@ == old(out)@ + signed_decimal(i as int),
{
    if i < 0 {
        out.push(45);
        let magnitude = (-(i as i128)) as u64;
        push_decimal(out, magnitude);
        assert(final(out)@ =~= old(out)@ + signed_decimal(i as int));
    } else {
        push_decimal(out, i as u64);
    }
}

/// Appends a byte string in bencoding: its length, `:`, then its bytes.
pub fn encode_string(string: &[u8], out: &mut Vec<u8>)
    ensures
        final(out)@ == old(out)@ + string_encoding(string@),
{
    push_decimal(out, string.len() as u64);
    out.push(58);
    let mut i: usize = 0;
    let ghost start = out@;
    while i < string.len()
        invariant
            0 <= i <= string.len(),
            out@ == start + string@.take(i as int),
        decreases string.len() - i,
    {
        out.push(string[i]);
        i = i + 1;
        proof { assert(out@ =~= start + string@.take(i as int)); }
    }
    proof {
        assert(string@.take(i as int) =~= string@);
        assert(final(out)@ =~= old(out)@ + string_encoding(string@));
    }
}

/// Something that can be written out as bytes.
pub trait Encoder {
    /// Appends the encoding of `self` to `out`.
    fn encode(&self, out: &mut Vec<u8>);
}

impl Encoder for Value {
    /// Appends the bencoding of the value; dictionaries come out in the order
    /// of their entries, which [`Value`] keeps sorted by key.
    fn encode(&self, out: &mut Vec<u8>)
        ensures
            final(out)@ == old(out)@ + encoding(model(*self)),
    {
        self.encode_value(out)
    }
}

impl Value {
    fn encode_value(&self, out: &mut Vec<u8>)
        ensures
            final(out)@ == old(out)@ + encoding(model(*self)),
        decreases self,
    {
        match self {
            Value::String(bytes) => {
                encode_string(bytes.as_slice(), out);
            }
            Value::Integer(integer) => {
                out.push(105);
                push_signed_decimal(out, *integer);
                out.push(101);
                assert(final(out)@ =~= old(out)@ + encoding(model(*self)));
            }
            Value::List(values) => {
                out.push(108);
                let ghost start = out@;
                let mut i: usize = 0;
                proof { assert(values@.take(0) =~= Seq::<Value>::empty()); }
                while i < values.len()
                    invariant
                        0 <= i <= values.len(),
                        out@ == start + list_encoding(list_model(values@.take(i as int))),
                        *self is List,
                        (*self)->List_0 == *values,
                    decreases values.len() - i,
                {
                    proof {
                        let ghost s: Value = *self;
                        assert(decreases_to!(s => s->List_0));
                        vstd::std_specs::vec::axiom_vec_index_decreases(s->List_0, i as int);
                        assert(decreases_to!(s => values[i as int]));
                    }
                    values[i].encode_value(out);
                    proof {
                        let s = values@.take(i + 1);
                        assert(s.drop_last() =~= values@.take(i as int));
                        lemma_list_model_len(s);
                        assert(list_model(s).drop_last() =~= list_model(s.drop_last())) by {
                            lemma_list_model_len(s.drop_last());
                        }
                        assert(out@ =~= start + list_encoding(list_model(s)));
                    }
                    i = i + 1;
                }
                out.push(101);
                proof {
                    assert(values@.take(i as int) =~= values@);
                    assert(final(out)@ =~= old(out)@ + encoding(model(*self)));
                }
            }
            Value::Dictionary(entries) => {
                out.push(100);
                let ghost start = out@;
                let mut i: usize = 0;
                proof { assert(entries@.take(0) =~= Seq::<(String, Value)>::empty()); }
                while i < entries.len()
                    invariant
                        0 <= i <= entries.len(),
                        out@ == start + dict_encoding(dict_model(entries@.take(i as int))),
                        *self is Dictionary,
                        (*self)->Dictionary_0 == *entries,
                    decreases entries.len() - i,
                {
                    let key = entries[i].0.as_str().as_bytes();
                    encode_string(key, out);
                    proof {
                        let ghost s: Value = *self;
                        assert(decreases_to!(s => s->Dictionary_0));
                        vstd::std_specs::vec::axiom_vec_index_decreases(s->Dictionary_0, i as int);
                        assert(decreases_to!(s => entries[i as int]));
                        assert(decreases_to!(s => entries[i as int].1));
                    }
                    entries[i].1.encode_value(out);
                    proof {
                        let s = entries@.take(i + 1);
                        assert(s.drop_last() =~= entries@.take(i as int));
                        lemma_dict_model_len(s);
                        assert(dict_model(s).drop_last() =~= dict_model(s.drop_last())) by {
                            lemma_dict_model_len(s.drop_last());
                        }
                        assert(key@ == key_bytes(entries@[i as int].0));
                        assert(out@ =~= start + dict_encoding(dict_model(s)));
                    }
                    i = i + 1;
                }
                out.push(101);
                proof {
                    assert(entries@.take(i as int) =~= entries@);
                    assert(final(out)@ =~= old(out)@ + encoding(model(*self)));
                }
            }
        }
    }
}

} // verus!
