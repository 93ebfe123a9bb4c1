use crate::bytes::{bytes_lt, lemma_bytes_lt_trichotomy};
use crate::encoder::{decimal, dict_encoding, encoding, list_encoding, signed_decimal, string_encoding};
use crate::parser::{
    emit_spec, initial_model, run, signed_i64, step, Frame, ParseError, ParseState, Parser, ParserModel,
};
use crate::value::{dict_insert, keys_sorted, model, Bencode, Value};
use vstd::utf8::valid_utf8;
use vstd::prelude::*;

verus! {

/// The outcome of decoding a whole input: the parser's first error, or the
/// value it finished with, or `Incomplete` where it did not finish.
pub open spec fn decode_outcome(bytes: Seq<u8>) -> Result<crate::value::Bencode, ParseError> {
    let (m, r) = run(initial_model(), bytes);
    match r {
        Err(e) => Err(e),
        Ok(()) => match m.state {
            ParseState::Done(v) => Ok(v),
            _ => Err(ParseError::Incomplete),
        },
    }
}

impl Value {
    /// Decodes a whole input, the bytes of a stream read to its end, as one
    /// bencoded value; whitespace after the value is ignored.
    pub fn decode(bytes: &[u8]) -> (r: Result<Value, ParseError>)
        ensures
            match decode_outcome(bytes@) {
                Ok(v) => r matches Ok(value) && model(value) == v,
                Err(e) => r == Err::<Value, ParseError>(e),
            },
    {
        let mut parser = Parser::new();
        match parser.write(bytes) {
            Ok(_) => parser.result(),
            Err(e) => Err(e),
        }
    }
}

/// Feeding bytes in two parts reads as feeding them at once: the second
/// part is read from where the first left the parser, unless the first
/// already failed.
pub proof fn lemma_run_concat(m: ParserModel, a: Seq<u8>, b: Seq<u8>)
    ensures
        run(m, a + b) == (if run(m, a).1 is Err {
            run(m, a)
        } else {
            run(run(m, a).0, b)
        }),
    decreases a.len(),
{
    if a.len() == 0 {
        assert(a + b =~= b);
    } else {
        assert((a + b)[0] == a[0]);
        assert((a + b).drop_first() =~= a.drop_first() + b);
        let (m2, r) = step(m, a[0]);
        if r is Ok {
            lemma_run_concat(m2, a.drop_first(), b);
        }
    }
}

/// Feeding one byte is one step.
proof fn lemma_run_one(m: ParserModel, x: u8)
    ensures
        run(m, seq![x]) == step(m, x),
{
    reveal_with_fuel(run, 2);
    assert(seq![x].drop_first() =~= Seq::<u8>::empty());
    assert(seq![x][0] == x);
    let (m2, r) = step(m, x);
    if r is Ok {
        assert(r == Ok::<(), ParseError>(()));
    }
}

/// The digits of a positive integer read after `i` (and a sign) leave the
/// parser with that integer, the one past `i64::MAX` wrapped to `i64::MIN`.
proof fn lemma_run_int_digits(m: ParserModel, n: nat, sign: int)
    requires
        m.state == ParseState::Integer(None, sign),
        1 <= n <= i64::MAX + 1,
    ensures
        run(m, decimal(n)) == (
            ParserModel {
                state: ParseState::Integer(Some(if n == i64::MAX + 1 { i64::MIN as int } else { n as int }), sign),
                stack: m.stack,
            },
            Ok::<(), ParseError>(()),
        ),
    decreases n,
{
    if n < 10 {
        lemma_run_one(m, (48 + n) as u8);
    } else {
        lemma_run_int_digits(m, n / 10, sign);
        let d = (48 + n % 10) as u8;
        assert(decimal(n) =~= decimal(n / 10) + seq![d]);
        lemma_run_concat(m, decimal(n / 10), seq![d]);
        let m1 = ParserModel { state: ParseState::Integer(Some((n / 10) as int), sign), stack: m.stack };
        lemma_run_one(m1, d);
        assert((n / 10) * 10 + n % 10 == n) by {
            vstd::arithmetic::div_mod::lemma_fundamental_div_mod(n as int, 10);
        }
        vstd::arithmetic::div_mod::lemma_small_mod(((n / 10) * 10) as nat, 0x1_0000_0000_0000_0000nat);
    }
}

/// The digits of a positive length read from the start of a value leave
/// the parser reading that length.
proof fn lemma_run_length_digits(m: ParserModel, n: nat)
    requires
        m.state is Ready,
        1 <= n <= usize::MAX,
    ensures
        run(m, decimal(n)) == (
            ParserModel { state: ParseState::StringLength(n as int), stack: m.stack },
            Ok::<(), ParseError>(()),
        ),
    decreases n,
{
    if n < 10 {
        lemma_run_one(m, (48 + n) as u8);
    } else {
        lemma_run_length_digits(m, n / 10);
        let d = (48 + n % 10) as u8;
        assert(decimal(n) =~= decimal(n / 10) + seq![d]);
        lemma_run_concat(m, decimal(n / 10), seq![d]);
        let m1 = ParserModel { state: ParseState::StringLength((n / 10) as int), stack: m.stack };
        lemma_run_one(m1, d);
        assert((n / 10) * 10 + n % 10 == n) by {
            vstd::arithmetic::div_mod::lemma_fundamental_div_mod(n as int, 10);
        }
        vstd::arithmetic::div_mod::lemma_small_mod(((n / 10) * 10) as nat, (usize::MAX + 1) as nat);
    }
}

/// Whether the parser reads a value back from its bencoding: integers of
/// `i64` other than zero (which it refuses as a leading zero), byte strings that are not empty (a length starts with a
/// digit from 1) and whose length fits `usize`, dictionary keys of UTF-8 in
/// strictly increasing order.
pub open spec fn decodable(b: Bencode) -> bool
    decreases b,
{
    match b {
        Bencode::Bytes(bs) => 0 < bs.len() <= usize::MAX,
        Bencode::Int(i) => i != 0 && i64::MIN <= i <= i64::MAX,
        Bencode::List(vs) => forall|i: int| 0 <= i < vs.len() ==> decodable(#[trigger] vs[i]),
        Bencode::Dict(es) => {
            &&& keys_sorted(es)
            &&& forall|i: int|
                0 <= i < es.len() ==> {
                    &&& 0 < (#[trigger] es[i]).0.len() <= usize::MAX
                    &&& valid_utf8(es[i].0)
                    &&& decodable(es[i].1)
                }
        },
    }
}

/// Handing a value on does not depend on what the parser was reading, when
/// it succeeds.
proof fn lemma_emit_state(m: ParserModel, m2: ParserModel, v: Bencode)
    requires
        m.stack == m2.stack,
        emit_spec(m, v).1 is Ok,
    ensures
        emit_spec(m2, v) == emit_spec(m, v),
{
}

/// A byte string that is not empty is read back from its encoding, from the
/// start of a value.
proof fn lemma_run_string(m: ParserModel, bs: Seq<u8>)
    requires
        m.state is Ready,
        0 < bs.len() <= usize::MAX,
        emit_spec(m, Bencode::Bytes(bs)).1 is Ok,
    ensures
        run(m, string_encoding(bs)) == emit_spec(m, Bencode::Bytes(bs)),
{
    let n = bs.len();
    lemma_run_length_digits(m, n);
    let m1 = ParserModel { state: ParseState::StringLength(n as int), stack: m.stack };
    lemma_run_one(m1, 58u8);
    let m2 = ParserModel { state: ParseState::StringContents(Seq::empty(), n as int), stack: m.stack };
    lemma_run_contents(m2, bs, (n - 1) as nat);
    let m3 = ParserModel { state: ParseState::StringContents(bs.take(n - 1), n as int), stack: m.stack };
    lemma_run_one(m3, bs[n - 1]);
    assert(bs.take(n - 1).push(bs[n - 1]) =~= bs);
    assert(bs =~= bs.take(n - 1) + seq![bs[n - 1]]);
    lemma_run_concat(m2, bs.take(n - 1), seq![bs[n - 1]]);
    lemma_emit_state(m, m2, Bencode::Bytes(bs));
    assert(string_encoding(bs) =~= decimal(n) + seq![58u8] + bs);
    lemma_run_concat(m, decimal(n), seq![58u8]);
    lemma_run_concat(m, decimal(n) + seq![58u8], bs);
}

/// The first `k` bytes of a string's contents leave the parser holding them.
proof fn lemma_run_contents(m: ParserModel, bs: Seq<u8>, k: nat)
    requires
        m.state == ParseState::StringContents(Seq::empty(), bs.len() as int),
        k < bs.len(),
    ensures
        run(m, bs.take(k as int)) == (
            ParserModel { state: ParseState::StringContents(bs.take(k as int), bs.len() as int), stack: m.stack },
            Ok::<(), ParseError>(()),
        ),
    decreases k,
{
    if k == 0 {
        assert(bs.take(0) =~= Seq::<u8>::empty());
    } else {
        lemma_run_contents(m, bs, (k - 1) as nat);
        assert(bs.take(k as int) =~= bs.take(k - 1) + seq![bs[k - 1]]);
        lemma_run_concat(m, bs.take(k - 1), seq![bs[k - 1]]);
        let m1 = ParserModel {
            state: ParseState::StringContents(bs.take(k - 1), bs.len() as int),
            stack: m.stack,
        };
        lemma_run_one(m1, bs[k - 1]);
        assert(bs.take(k - 1).push(bs[k - 1]) =~= bs.take(k as int));
    }
}

/// An entry whose key comes after every key goes last.
proof fn lemma_dict_insert_last<V>(es: Seq<(Seq<u8>, V)>, k: Seq<u8>, v: V)
    requires
        forall|i: int| 0 <= i < es.len() ==> bytes_lt(#[trigger] es[i].0, k),
    ensures
        dict_insert(es, k, v) == es.push((k, v)),
    decreases es.len(),
{
    if es.len() == 0 {
        assert(seq![(k, v)] =~= es.push((k, v)));
    } else {
        lemma_bytes_lt_trichotomy(es[0].0, k);
        assert(bytes_lt(es[0].0, k));
        lemma_dict_insert_last(es.drop_first(), k, v);
        assert(seq![es[0]] + es.drop_first().push((k, v)) =~= es.push((k, v)));
    }
}

/// A value the parser reads back is read back from its encoding, from the
/// start of a value, and handed on as it was.
proof fn lemma_run_encoding(m: ParserModel, b: Bencode)
    requires
        m.state is Ready,
        decodable(b),
        emit_spec(m, b).1 is Ok,
    ensures
        run(m, encoding(b)) == emit_spec(m, b),
    decreases b,
{
    match b {
        Bencode::Bytes(bs) => lemma_run_string(m, bs),
        Bencode::Int(i) => {
            let n: nat = if i < 0 { (-i) as nat } else { i as nat };
            let sign: int = if i < 0 { -1 } else { 1 };
            let m1 = ParserModel { state: ParseState::Integer(None, 1), stack: m.stack };
            let mi = ParserModel { state: ParseState::Integer(None, sign), stack: m.stack };
            let held: int = if n == i64::MAX + 1 { i64::MIN as int } else { n as int };
            let m3 = ParserModel { state: ParseState::Integer(Some(held), sign), stack: m.stack };
            lemma_run_one(m, 105u8);
            lemma_run_int_digits(mi, n, sign);
            lemma_run_one(m3, 101u8);
            assert(signed_i64(held, sign) == i) by {
                let m64: int = 0x1_0000_0000_0000_0000;
                let x = held * sign;
                if i == i64::MIN {
                    assert(x == 0x8000_0000_0000_0000);
                    vstd::arithmetic::div_mod::lemma_small_mod(x as nat, m64 as nat);
                } else if i < 0 {
                    assert(x == i);
                    vstd::arithmetic::div_mod::lemma_mod_add_multiples_vanish(x, m64);
                    vstd::arithmetic::div_mod::lemma_small_mod((m64 + x) as nat, m64 as nat);
                } else {
                    assert(x == i);
                    vstd::arithmetic::div_mod::lemma_small_mod(x as nat, m64 as nat);
                }
            }
            lemma_emit_state(m, m3, b);
            if i < 0 {
                lemma_run_one(m1, 45u8);
                assert(encoding(b) =~= seq![105u8] + seq![45u8] + decimal(n) + seq![101u8]);
                lemma_run_concat(m, seq![105u8], seq![45u8]);
                lemma_run_concat(m, seq![105u8] + seq![45u8], decimal(n));
                lemma_run_concat(m, seq![105u8] + seq![45u8] + decimal(n), seq![101u8]);
            } else {
                assert(encoding(b) =~= seq![105u8] + decimal(n) + seq![101u8]);
                lemma_run_concat(m, seq![105u8], decimal(n));
                lemma_run_concat(m, seq![105u8] + decimal(n), seq![101u8]);
            }
        },
        Bencode::List(vs) => {
            let ml = ParserModel { state: ParseState::Ready, stack: m.stack.push(Frame::List(Seq::empty())) };
            lemma_run_one(m, 108u8);
            lemma_run_list(m.stack, Seq::empty(), vs);
            assert(Seq::<Bencode>::empty() + vs =~= vs);
            let me = ParserModel { state: ParseState::Ready, stack: m.stack.push(Frame::List(vs)) };
            lemma_run_one(me, 101u8);
            assert(me.stack.drop_last() =~= m.stack);
            assert(encoding(b) =~= seq![108u8] + list_encoding(vs) + seq![101u8]);
            lemma_run_concat(m, seq![108u8], list_encoding(vs));
            lemma_run_concat(m, seq![108u8] + list_encoding(vs), seq![101u8]);
        },
        Bencode::Dict(es) => {
            let md = ParserModel {
                state: ParseState::Ready,
                stack: m.stack.push(Frame::Dictionary(None, Seq::empty())),
            };
            lemma_run_one(m, 100u8);
            assert(Seq::<(Seq<u8>, Bencode)>::empty() + es =~= es);
            lemma_run_dict(m.stack, Seq::empty(), es);
            let me = ParserModel { state: ParseState::Ready, stack: m.stack.push(Frame::Dictionary(None, es)) };
            lemma_run_one(me, 101u8);
            assert(me.stack.drop_last() =~= m.stack);
            assert(encoding(b) =~= seq![100u8] + dict_encoding(es) + seq![101u8]);
            lemma_run_concat(m, seq![100u8], dict_encoding(es));
            lemma_run_concat(m, seq![100u8] + dict_encoding(es), seq![101u8]);
        },
    }
}

/// The values of a list are read into the open list, one after the other.
proof fn lemma_run_list(stack: Seq<Frame>, prefix: Seq<Bencode>, vs: Seq<Bencode>)
    requires
        forall|i: int| 0 <= i < vs.len() ==> decodable(#[trigger] vs[i]),
    ensures
        run(ParserModel { state: ParseState::Ready, stack: stack.push(Frame::List(prefix)) }, list_encoding(vs)) == (
            ParserModel { state: ParseState::Ready, stack: stack.push(Frame::List(prefix + vs)) },
            Ok::<(), ParseError>(()),
        ),
    decreases vs,
{
    let m0 = ParserModel { state: ParseState::Ready, stack: stack.push(Frame::List(prefix)) };
    if vs.len() == 0 {
        assert(prefix + vs =~= prefix);
    } else {
        let init = vs.drop_last();
        let last = vs.last();
        assert(decodable(vs[vs.len() - 1]));
        lemma_run_list(stack, prefix, init);
        let mid = ParserModel { state: ParseState::Ready, stack: stack.push(Frame::List(prefix + init)) };
        assert(mid.stack.drop_last() =~= stack);
        lemma_run_encoding(mid, last);
        lemma_run_concat(m0, list_encoding(init), encoding(last));
        assert((prefix + init).push(last) =~= prefix + vs);
    }
}

/// The entries of a dictionary, keys in increasing order after those of the
/// entries already read, are read into the open dictionary, one after the
/// other.
proof fn lemma_run_dict(stack: Seq<Frame>, prefix: Seq<(Seq<u8>, Bencode)>, es: Seq<(Seq<u8>, Bencode)>)
    requires
        keys_sorted(prefix + es),
        forall|i: int|
            0 <= i < es.len() ==> {
                &&& 0 < (#[trigger] es[i]).0.len() <= usize::MAX
                &&& valid_utf8(es[i].0)
                &&& decodable(es[i].1)
            },
    ensures
        run(
            ParserModel { state: ParseState::Ready, stack: stack.push(Frame::Dictionary(None, prefix)) },
            dict_encoding(es),
        ) == (
            ParserModel { state: ParseState::Ready, stack: stack.push(Frame::Dictionary(None, prefix + es)) },
            Ok::<(), ParseError>(()),
        ),
    decreases es,
{
    let m0 = ParserModel { state: ParseState::Ready, stack: stack.push(Frame::Dictionary(None, prefix)) };
    if es.len() == 0 {
        assert(prefix + es =~= prefix);
    } else {
        let init = es.drop_last();
        let (k, v) = es.last();
        assert(es[es.len() - 1] == (k, v));
        assert(keys_sorted(prefix + init)) by {
            assert forall|i: int, j: int| 0 <= i < j < (prefix + init).len() implies bytes_lt(
                #[trigger] (prefix + init)[i].0,
                #[trigger] (prefix + init)[j].0,
            ) by {
                assert((prefix + init)[i] == (prefix + es)[i]);
                assert((prefix + init)[j] == (prefix + es)[j]);
            }
        }
        assert forall|i: int| 0 <= i < init.len() implies {
            &&& 0 < (#[trigger] init[i]).0.len() <= usize::MAX
            &&& valid_utf8(init[i].0)
            &&& decodable(init[i].1)
        } by {
            assert(init[i] == es[i]);
        }
        lemma_run_dict(stack, prefix, init);
        let mid = ParserModel { state: ParseState::Ready, stack: stack.push(Frame::Dictionary(None, prefix + init)) };
        assert(mid.stack.drop_last() =~= stack);
        lemma_run_string(mid, k);
        let mk = ParserModel { state: ParseState::Ready, stack: stack.push(Frame::Dictionary(Some(k), prefix + init)) };
        assert(emit_spec(mid, Bencode::Bytes(k)) == (mk, Ok::<(), ParseError>(())));
        assert(mk.stack.drop_last() =~= stack);
        lemma_run_encoding(mk, v);
        assert forall|i: int| 0 <= i < (prefix + init).len() implies bytes_lt(#[trigger] (prefix + init)[i].0, k) by {
            assert((prefix + init)[i] == (prefix + es)[i]);
            assert((prefix + es)[(prefix + es).len() - 1] == (k, v));
        }
        lemma_dict_insert_last(prefix + init, k, v);
        assert((prefix + init).push((k, v)) =~= prefix + es);
        assert(dict_encoding(es) =~= dict_encoding(init) + string_encoding(k) + encoding(v));
        lemma_run_concat(m0, dict_encoding(init), string_encoding(k));
        lemma_run_concat(m0, dict_encoding(init) + string_encoding(k), encoding(v));
    }
}

/// Decoding the bencoding of a value gives the value back, for every value
/// the parser reads back (see `decodable`); in particular for the encoding
/// of every `Value` whose model is decodable.
pub proof fn lemma_decode_encoding(b: Bencode)
    requires
        decodable(b),
    ensures
        decode_outcome(encoding(b)) == Ok::<Bencode, ParseError>(b),
{
    lemma_run_encoding(initial_model(), b);
}

} // verus!
