use vstd::prelude::*;
use vstd::utf8::valid_utf8;
use vstd::wrapping::{i64_specs, usize_specs};

use crate::value::{Bencode, Value, model, list_model, dict_model, key_bytes, dict_insert,
    insert_entry, lemma_list_model_push};
use crate::text::string_from_utf8;

verus! {

/// Why bytes could not be parsed as bencoding.
#[derive(Debug, Clone, Copy, PartialEq, Eq)]
pub enum ParseError {
    /// An integer starts with a zero digit (`i03e`, `i-0e`, `i0e`).
    LeadingZero,
    /// An `e` came with no list or dictionary open.
    NothingToClose,
    /// A dictionary key is not valid UTF-8.
    InvalidKey,
    /// A dictionary key is not a byte string.
    NonStringKey,
    /// A byte that cannot come where it came.
    UnexpectedByte(u8),
    /// The input ended before a whole value was read.
    Incomplete,
}

/// What the parser is in the middle of reading.
pub enum ParseState {
    Ready,
    /// The digits read so far, if any, and the sign.
    Integer(Option<int>, int),
    /// The digits of a string's length read so far.
    StringLength(int),
    /// The bytes of a string read so far and the string's length.
    StringContents(Seq<u8>, int),
    /// A whole value has been read.
    Done(Bencode),
}

/// An open list or dictionary.
pub enum Frame {
    List(Seq<Bencode>),
    /// The key waiting for its value, if any, and the entries so far.
    Dictionary(Option<Seq<u8>>, Seq<(Seq<u8>, Bencode)>),
}

/// The state of a parser: what it is reading and the collections it has open,
/// innermost last.
pub struct ParserModel {
    pub state: ParseState,
    pub stack: Seq<Frame>,
}

pub open spec fn is_digit(b: u8) -> bool {
    48 <= b <= 57
}

/// Ten times an integer read so far plus one more digit, wrapping around in
/// `i64` as machine arithmetic does.
pub open spec fn shift_i64(prev: int, digit: int) -> int {
    i64_specs::wrapping_add(i64_specs::wrapping_mul(prev as i64, 10), digit as i64) as int
}

/// Ten times a string length read so far plus one more digit, wrapping
/// around in `usize` as machine arithmetic does.
pub open spec fn shift_usize(prev: int, digit: int) -> int {
    usize_specs::wrapping_add(usize_specs::wrapping_mul(prev as usize, 10), digit as usize) as int
}

/// An integer read with its sign, wrapping around in `i64`.
pub open spec fn signed_i64(x: int, sign: int) -> int {
    i64_specs::wrapping_mul(x as i64, sign as i64) as int
}

/// Hands a finished value to the innermost open collection, or finishes.
pub open spec fn emit_spec(m: ParserModel, v: Bencode) -> (ParserModel, Result<(), ParseError>) {
    if m.stack.len() == 0 {
        (ParserModel { state: ParseState::Done(v), stack: m.stack }, Ok(()))
    } else {
        let rest = m.stack.drop_last();
        match m.stack.last() {
            Frame::List(vs) => (
                ParserModel { state: ParseState::Ready, stack: rest.push(Frame::List(vs.push(v))) },
                Ok(()),
            ),
            Frame::Dictionary(None, es) => match v {
                Bencode::Bytes(key) => if valid_utf8(key) {
                    (
                        ParserModel {
                            state: ParseState::Ready,
                            stack: rest.push(Frame::Dictionary(Some(key), es)),
                        },
                        Ok(()),
                    )
                } else {
                    (m, Err(ParseError::InvalidKey))
                },
                _ => (m, Err(ParseError::NonStringKey)),
            },
            Frame::Dictionary(Some(key), es) => (
                ParserModel {
                    state: ParseState::Ready,
                    stack: rest.push(Frame::Dictionary(None, dict_insert(es, key, v))),
                },
                Ok(()),
            ),
        }
    }
}

/// What one byte does to the parser, tried in this order.
pub open spec fn step(m: ParserModel, b: u8) -> (ParserModel, Result<(), ParseError>) {
    let st = m.state;
    let with_state = |s: ParseState| ParserModel { state: s, stack: m.stack };
    if st is Ready && b == 105 {
        (with_state(ParseState::Integer(None, 1)), Ok(()))
    } else if st matches ParseState::Integer(None, _) && b == 45 {
        (with_state(ParseState::Integer(None, -1)), Ok(()))
    } else if st matches ParseState::Integer(None, _) && b == 48 {
        (m, Err(ParseError::LeadingZero))
    } else if st is Integer && is_digit(b) {
        let prev = match st->Integer_0 { Some(x) => x, None => 0 };
        (with_state(ParseState::Integer(Some(shift_i64(prev, b - 48)), st->Integer_1)), Ok(()))
    } else if st matches ParseState::Integer(Some(_), _) && b == 101 {
        emit_spec(m, Bencode::Int(signed_i64(st->Integer_0->Some_0, st->Integer_1)))
    } else if st is Ready && b == 108 {
        (ParserModel { state: ParseState::Ready, stack: m.stack.push(Frame::List(Seq::empty())) }, Ok(()))
    } else if st is Ready && b == 100 {
        (
            ParserModel {
                state: ParseState::Ready,
                stack: m.stack.push(Frame::Dictionary(None, Seq::empty())),
            },
            Ok(()),
        )
    } else if st is Ready && 49 <= b <= 57 {
        (with_state(ParseState::StringLength(b - 48)), Ok(()))
    } else if st is StringLength && is_digit(b) {
        (with_state(ParseState::StringLength(shift_usize(st->StringLength_0, b - 48))), Ok(()))
    } else if st is StringLength && b == 58 {
        (with_state(ParseState::StringContents(Seq::empty(), st->StringLength_0)), Ok(()))
    } else if st is StringContents {
        let bytes = st->StringContents_0.push(b);
        let length = st->StringContents_1;
        if bytes.len() == length {
            emit_spec(with_state(ParseState::StringContents(Seq::empty(), length)), Bencode::Bytes(bytes))
        } else {
            (with_state(ParseState::StringContents(bytes, length)), Ok(()))
        }
    } else if b == 101 {
        if m.stack.len() == 0 {
            (m, Err(ParseError::NothingToClose))
        } else {
            let popped = ParserModel { state: m.state, stack: m.stack.drop_last() };
            match m.stack.last() {
                Frame::List(vs) => emit_spec(popped, Bencode::List(vs)),
                Frame::Dictionary(_, es) => emit_spec(popped, Bencode::Dict(es)),
            }
        }
    } else if st is Done && (b == 10 || b == 13 || b == 32) {
        (m, Ok(()))
    } else {
        (m, Err(ParseError::UnexpectedByte(b)))
    }
}

/// Feeds bytes one by one, stopping at the first error.
pub open spec fn run(m: ParserModel, bytes: Seq<u8>) -> (ParserModel, Result<(), ParseError>)
    decreases bytes.len(),
{
    if bytes.len() == 0 {
        (m, Ok(()))
    } else {
        let (m2, r) = step(m, bytes[0]);
        if r is Err {
            (m2, r)
        } else {
            run(m2, bytes.drop_first())
        }
    }
}

/// A parser that has just been made.
pub open spec fn initial_model() -> ParserModel {
    ParserModel { state: ParseState::Ready, stack: Seq::empty() }
}

enum State {
    Ready,
    Integer(Option<i64>, i64),
    StringLength(usize),
    StringContents(Vec<u8>, usize),
    Done(Value),
}

enum StackState {
    List(Vec<Value>),
    Dictionary(Option<String>, Vec<(String, Value)>),
}

impl StackState {
    fn new_list() -> (s: StackState)
        ensures
            frame_model(s) == Frame::List(Seq::empty()),
    {
        StackState::List(Vec::new())
    }

    fn new_dictionary() -> (s: StackState)
        ensures
            frame_model(s) == Frame::Dictionary(None, Seq::empty()),
    {
        StackState::Dictionary(None, Vec::new())
    }
}

spec fn state_model(s: State) -> ParseState {
    match s {
        State::Ready => ParseState::Ready,
        State::Integer(x, sign) => ParseState::Integer(
            match x { Some(v) => Some(v as int), None => None },
            sign as int,
        ),
        State::StringLength(l) => ParseState::StringLength(l as int),
        State::StringContents(bytes, l) => ParseState::StringContents(bytes@, l as int),
        State::Done(v) => ParseState::Done(model(v)),
    }
}

spec fn frame_model(f: StackState) -> Frame {
    match f {
        StackState::List(vs) => Frame::List(list_model(vs@)),
        StackState::Dictionary(key, es) => Frame::Dictionary(
            match key { Some(k) => Some(key_bytes(k)), None => None },
            dict_model(es@),
        ),
    }
}

spec fn stack_model(stack: Seq<StackState>) -> Seq<Frame> {
    stack.map_values(|f: StackState| frame_model(f))
}

/// Whether a model is one that the parser can be in: a sign is 1 or -1,
/// digits read are not negative, a string being read is shorter than its length.
pub open spec fn model_wf(m: ParserModel) -> bool {
    match m.state {
        ParseState::Integer(x, sign) => sign == 1 || sign == -1,
        ParseState::StringContents(bytes, l) => bytes.len() < l || l == 0,
        _ => true,
    }
}

/// An incremental bencoding parser: bytes can be written to it in any number
/// of pieces, and [`Parser::result`] gives the value once it is complete.
pub struct Parser {
    state: State,
    stack: Vec<StackState>,
}

impl View for Parser {
    type V = ParserModel;

    closed spec fn view(&self) -> ParserModel {
        ParserModel { state: state_model(self.state), stack: stack_model(self.stack@) }
    }
}

impl Parser {
    /// Whether the parser is in a state it can reach.
    pub closed spec fn wf(&self) -> bool {
        model_wf(self@)
    }

    pub fn new() -> (p: Parser)
        ensures
            p@ == initial_model(),
            p.wf(),
    {
        let p = Parser { state: State::Ready, stack: Vec::new() };
        assert(p@.stack =~= Seq::<Frame>::empty());
        p
    }

    fn emit(&mut self, value: Value) -> (r: Result<(), ParseError>)
        requires
            old(self).wf(),
        ensures
            (final(self)@, r) == emit_spec(old(self)@, model(value)),
            r is Ok ==> final(self).wf(),
            r is Err ==> final(self)@ == old(self)@,
    {
        let ghost m = self@;
        let top = self.stack.pop();
        match top {
            None => {
                self.state = State::Done(value);
                assert(self@.stack =~= m.stack);
                Ok(())
            }
            Some(StackState::List(mut list)) => {
                proof { lemma_list_model_push(list@, value); }
                list.push(value);
                self.stack.push(StackState::List(list));
                self.state = State::Ready;
                assert(self@.stack =~= m.stack.drop_last().push(Frame::List(list_model(list@))));
                Ok(())
            }
            Some(StackState::Dictionary(None, entries)) => {
                match value {
                    Value::String(bytes) => {
                        let key = string_from_utf8(bytes);
                        match key {
                            Some(key) => {
                                self.stack.push(StackState::Dictionary(Some(key), entries));
                                self.state = State::Ready;
                                assert(self@.stack =~= m.stack.drop_last().push(
                                    Frame::Dictionary(Some(key_bytes(key)), dict_model(entries@))));
                                Ok(())
                            }
                            None => {
                                self.stack.push(StackState::Dictionary(None, entries));
                                assert(self@.stack =~= m.stack);
                                Err(ParseError::InvalidKey)
                            }
                        }
                    }
                    _ => {
                        self.stack.push(StackState::Dictionary(None, entries));
                        assert(self@.stack =~= m.stack);
                        Err(ParseError::NonStringKey)
                    }
                }
            }
            Some(StackState::Dictionary(Some(key), mut entries)) => {
                insert_entry(&mut entries, key, value);
                self.stack.push(StackState::Dictionary(None, entries));
                self.state = State::Ready;
                assert(self@.stack =~= m.stack.drop_last().push(Frame::Dictionary(None, dict_model(entries@))));
                Ok(())
            }
        }
    }

    /// Feeds one byte to the parser, as [`step`] says.
    fn consume(&mut self, byte: u8) -> (r: Result<(), ParseError>)
        requires
            old(self).wf(),
        ensures
            (final(self)@, r) == step(old(self)@, byte),
            r is Ok ==> final(self).wf(),
    {
        let ghost m = self@;
        let is_ready = matches!(self.state, State::Ready);
        if is_ready && byte == 105 {
            self.state = State::Integer(None, 1);
            return Ok(());
        }
        if let State::Integer(None, _) = self.state {
            if byte == 45 {
                self.state = State::Integer(None, -1);
                return Ok(());
            }
            if byte == 48 {
                return Err(ParseError::LeadingZero);
            }
        }
        if let State::Integer(integer, sign) = self.state {
            if 48 <= byte && byte <= 57 {
                let digit = (byte - 48) as i64;
                let prev = match integer {
                    Some(x) => x,
                    None => 0,
                };
                self.state = State::Integer(Some(prev.wrapping_mul(10).wrapping_add(digit)), sign);
                return Ok(());
            }
        }
        if let State::Integer(Some(integer), sign) = self.state {
            if byte == 101 {
                return self.emit(Value::Integer(integer.wrapping_mul(sign)));
            }
        }
        if is_ready && byte == 108 {
            self.stack.push(StackState::new_list());
            self.state = State::Ready;
            assert(self@.stack =~= m.stack.push(Frame::List(Seq::empty())));
            return Ok(());
        }
        if is_ready && byte == 100 {
            self.stack.push(StackState::new_dictionary());
            self.state = State::Ready;
            assert(self@.stack =~= m.stack.push(Frame::Dictionary(None, Seq::empty())));
            return Ok(());
        }
        if is_ready && 49 <= byte && byte <= 57 {
            self.state = State::StringLength((byte - 48) as usize);
            return Ok(());
        }
        if let State::StringLength(length) = self.state {
            if 48 <= byte && byte <= 57 {
                let digit = (byte - 48) as usize;
                self.state = State::StringLength(length.wrapping_mul(10).wrapping_add(digit));
                return Ok(());
            }
            if byte == 58 {
                self.state = State::StringContents(Vec::new(), length);
                return Ok(());
            }
        }
        if matches!(self.state, State::StringContents(_, _)) {
            let mut state = State::Ready;
            std::mem::swap(&mut state, &mut self.state);
            if let State::StringContents(mut bytes, length) = state {
                bytes.push(byte);
                if bytes.len() == length {
                    self.state = State::StringContents(Vec::new(), length);
                    return self.emit(Value::String(bytes));
                } else {
                    self.state = State::StringContents(bytes, length);
                    return Ok(());
                }
            }
            self.state = state;
        }
        if byte == 101 {
            let top = self.stack.pop();
            match top {
                Some(StackState::List(list)) => {
                    assert(self@.stack =~= m.stack.drop_last());
                    return self.emit(Value::List(list));
                }
                Some(StackState::Dictionary(_, entries)) => {
                    assert(self@.stack =~= m.stack.drop_last());
                    return self.emit(Value::Dictionary(entries));
                }
                None => {
                    return Err(ParseError::NothingToClose);
                }
            }
        }
        let is_done = matches!(self.state, State::Done(_));
        if is_done && (byte == 10 || byte == 13 || byte == 32) {
            return Ok(());
        }
        Err(ParseError::UnexpectedByte(byte))
    }

    /// Feeds `buf` to the parser and reports how many bytes it took: all of
    /// them, or the first error.
    pub fn write(&mut self, buf: &[u8]) -> (r: Result<usize, ParseError>)
        requires
            old(self).wf(),
        ensures
            final(self)@ == run(old(self)@, buf@).0,
            run(old(self)@, buf@).1 is Ok ==> r == Ok::<usize, ParseError>(buf.len()) && final(self).wf(),
            run(old(self)@, buf@).1 matches Err(e) ==> r == Err::<usize, ParseError>(e),
    {
        let ghost m0 = self@;
        let mut i: usize = 0;
        proof { assert(buf@.skip(0) =~= buf@); }
        while i < buf.len()
            invariant
                0 <= i <= buf.len(),
                self.wf(),
                run(m0, buf@) == run(self@, buf@.skip(i as int)),
                m0 == old(self)@,
            decreases buf.len() - i,
        {
            proof {
                assert(buf@.skip(i as int).drop_first() =~= buf@.skip(i + 1));
                assert(buf@.skip(i as int)[0] == buf@[i as int]);
            }
            let ghost cur = self@;
            let ghost rest = buf@.skip(i as int);
            let r = self.consume(buf[i]);
            proof {
                assert(step(cur, rest[0]) == (self@, r));
                assert(run(cur, rest) == (if r is Err { (self@, r) } else { run(self@, rest.drop_first()) }));
            }
            match r {
                Ok(()) => {}
                Err(e) => {
                    return Err(e);
                }
            }
            i = i + 1;
        }
        proof { assert(buf@.skip(i as int) =~= Seq::<u8>::empty()); }
        Ok(buf.len())
    }

    /// The value that was parsed, if the input is complete.
    pub fn result(self) -> (r: Result<Value, ParseError>)
        ensures
            match self@.state {
                ParseState::Done(v) => r matches Ok(value) && model(value) == v,
                _ => r == Err::<Value, ParseError>(ParseError::Incomplete),
            },
    {
        match self.state {
            State::Done(value) => Ok(value),
            _ => Err(ParseError::Incomplete),
        }
    }
}

} // verus!
