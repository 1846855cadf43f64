//! Hand-written state machine parser for the binary message protocol.

use vstd::prelude::*;

use crate::parse::{
    deliver, end_report, fresh, gap_in, gap_report, lemma_run_concat, lemma_run_empty,
    lemma_run_one, lemma_run_two, plain, results_view, run_at, feed_spec, step, ParseError,
    ParseResult, Parser, ParserModel, Phase, ResultModel,
};
use crate::protocol::{compute_checksum, Message, ESCAPE};

verus! {

/// First byte of the start sequence; it is also the escape byte.
const START_FIRST: u8 = 0xFF;

/// Second byte of the start sequence.
const START_SECOND: u8 = 0x00;

/// States for the state machine parser.
#[derive(Debug)]
enum State {
    /// Seeking start sequence [0xFF, 0x00], managing a gap byte count during the search.
    SeekingStart { gap_count: usize },
    /// Reading the address byte.
    Address,
    /// Reading the destination byte.
    Destination { address: u8 },
    /// Reading the data length byte.
    DataLength { address: u8, destination: u8 },
    /// Reading the data payload.
    Data { address: u8, destination: u8, data_length: u8, data: Vec<u8>, remaining: usize },
    /// Reading the checksum byte.
    Checksum { address: u8, destination: u8, data_length: u8, data: Vec<u8> },
}

/// The phase that a stored state stands for. No state at all means seeking with no gap;
/// a data state with nothing remaining is about to read the checksum.
spec fn phase_of(state: Option<State>) -> Phase {
    match state {
        None => Phase::Seeking { gap: 0 },
        Some(State::SeekingStart { gap_count }) => Phase::Seeking { gap: gap_count as nat },
        Some(State::Address) => Phase::Address,
        Some(State::Destination { address }) => Phase::Destination { address },
        Some(State::DataLength { address, destination }) => Phase::DataLength { address, destination },
        Some(State::Data { address, destination, data_length, data, remaining }) => if remaining == 0 {
            Phase::Checksum { address, destination, data_length, data: data@ }
        } else {
            Phase::Data { address, destination, data_length, data: data@ }
        },
        Some(State::Checksum { address, destination, data_length, data }) => Phase::Checksum {
            address,
            destination,
            data_length,
            data: data@,
        },
    }
}

/// In a data state, the bytes read and the bytes remaining add up to the data length;
/// in a checksum state, all the data has been read.
spec fn state_wf(state: Option<State>) -> bool {
    match state {
        Some(State::Data { data_length, data, remaining, .. }) => data.len() + remaining == data_length,
        Some(State::Checksum { data_length, data, .. }) => data.len() == data_length,
        _ => true,
    }
}

/// The only byte ever held back is the escape byte.
spec fn escape_wf(escape_byte: Option<u8>) -> bool {
    escape_byte is None || escape_byte == Some(0xFFu8)
}

spec fn model_of(state: Option<State>, escape_byte: Option<u8>) -> ParserModel {
    ParserModel { phase: phase_of(state), held_escape: escape_byte is Some }
}

/// State machine parser implementation.
#[derive(Debug)]
pub struct StateMachineParser {
    // An escape byte read from the input stream before reaching its end.
    escape_byte: Option<u8>,
    // Current state of the parser.
    state: Option<State>,
}

impl View for StateMachineParser {
    type V = ParserModel;

    closed spec fn view(&self) -> ParserModel {
        model_of(self.state, self.escape_byte)
    }
}

impl StateMachineParser {
    /// The parser's internal representation is consistent.
    pub closed spec fn wf(&self) -> bool {
        state_wf(self.state) && escape_wf(self.escape_byte)
    }

    /// The parser holds no state and no held-back byte, as before its first feed.
    pub closed spec fn is_empty(&self) -> bool {
        self.state is None && self.escape_byte is None
    }

    pub fn new() -> (p: Self)
        ensures
            p.wf(),
            p.is_empty(),
            p@ == fresh(),
    {
        Self::default()
    }

    /// Whether one feed of `input_len` bytes keeps the count of skipped bytes, and the
    /// position one past the end of the input, within `usize`.
    pub fn fits(&self, input_len: usize) -> (b: bool)
        requires
            self.wf(),
        ensures
            b == self.can_feed(input_len as nat),
    {
        let gap: usize = match &self.state {
            Some(State::SeekingStart { gap_count }) => *gap_count,
            _ => 0,
        };
        let held: usize = if self.escape_byte.is_some() { 1 } else { 0 };
        match gap.checked_add(input_len) {
            Some(total) => match total.checked_add(held) {
                Some(all) => all < usize::MAX,
                None => false,
            },
            None => false,
        }
    }
}

impl Default for StateMachineParser {
    fn default() -> (p: Self)
        ensures
            p.wf(),
            p.is_empty(),
            p@ == fresh(),
    {
        StateMachineParser { escape_byte: None, state: None }
    }
}

impl Parser for StateMachineParser {
    open spec fn can_feed(&self, input_len: nat) -> bool {
        &&& self.wf()
        &&& gap_in(self@) + input_len + (if self@.held_escape { 1nat } else { 0nat }) < usize::MAX
    }

    fn feed(&mut self, input: &[u8]) -> (results: Vec<ParseResult>)
        ensures
            final(self).wf(),
            final(self)@ == feed_spec(old(self)@, input@).0,
            results_view(results@) == feed_spec(old(self)@, input@).1,
    {
        let ghost m0 = self@;
        let ghost bytes = input@;
        let mut input = ParserInput::new(input, self);
        let mut results: Vec<ParseResult> = Vec::new();
        proof {
            assert(input.input@.take(0).len() == 0);
            lemma_run_empty(m0, input.input@.take(0), 0);
            assert(results_view(results@) =~= Seq::<ResultModel>::empty());
        }
        loop
            invariant_except_break
                input.inv(),
                input.buffer_pos <= input.input@.len(),
                input.input@ == bytes,
                run_at(m0, input.input@.take(input.buffer_pos as int), 0) == (input.model(), results_view(results@)),
            ensures
                input.inv(),
                input.input@ == bytes,
                feed_spec(m0, input.input@) == (input.model(), results_view(results@)),
            decreases input.measure(),
        {
            let ghost before = input;
            let ghost before_results = results_view(results@);
            let (should_continue, maybe_result) = input.advance_state();
            proof {
                let a = input.input@.take(before.buffer_pos as int);
                let b = input.consumed_since(before);
                lemma_run_concat(m0, a, b, 0);
                assert(a + b =~= input.input@.take(input.read_to()));
            }
            if let Some(result) = maybe_result {
                results.push(result);
                proof {
                    assert(results_view(results@) =~= before_results + seq![result@]);
                }
            } else {
                proof {
                    assert(results_view(results@) =~= before_results + Seq::<ResultModel>::empty());
                }
            }
            if !should_continue {
                proof {
                    assert(input.input@.take(input.read_to()) =~= input.input@);
                    let r = run_at(m0, input.input@, 0);
                    assert(results_view(results@) =~= r.1 + end_report(r.0));
                }
                break;
            }
        }
        input.finish(self);
        results
    }
}

struct ParserInput<'a> {
    buffer_pos: usize,
    input: &'a [u8],
    escape_byte: Option<u8>,
    state: Option<State>,
}

/// A state that reads a message field.
spec fn reads_field(state: Option<State>) -> bool {
    match state {
        None => false,
        Some(State::SeekingStart { .. }) => false,
        Some(State::Data { remaining, .. }) => remaining > 0,
        _ => true,
    }
}

/// An error in an escape sequence.
spec fn escape_error(r: Option<ParseResult>) -> bool {
    ||| r matches Some(ParseResult::Error(ParseError::InvalidEscapeSequence { .. }))
    ||| r matches Some(ParseResult::Error(ParseError::UnexpectedStartSequence { .. }))
}

/// The results that a step hands back, as a sequence.
spec fn opt_results(r: Option<ParseResult>) -> Seq<ResultModel> {
    match r {
        Some(x) => seq![x@],
        None => Seq::empty(),
    }
}

impl<'a> ParserInput<'a> {
    spec fn model(&self) -> ParserModel {
        model_of(self.state, self.escape_byte)
    }

    /// How far the input has been read. The cursor moves one past the end when a read finds
    /// the input exhausted.
    spec fn read_to(&self) -> int {
        if self.buffer_pos <= self.input@.len() {
            self.buffer_pos as int
        } else {
            self.input@.len() as int
        }
    }

    /// Bytes still to be looked at: the rest of the input and a held escape byte.
    spec fn units(&self) -> nat {
        (self.input@.len() - self.read_to()) as nat + (if self.escape_byte is Some { 1nat } else { 0nat })
    }

    /// Nothing decodable is left: the unread input, a held escape byte included, is empty
    /// or a single 0xFF.
    spec fn nothing_decodable(&self) -> bool {
        ||| self.units() == 0
        ||| (self.units() == 1 && (self.escape_byte is Some || self.input@[self.read_to()] == 0xFF))
    }

    spec fn rank(&self) -> nat {
        match self.state {
            None => 2,
            Some(State::Data { remaining, .. }) => if remaining == 0 { 1 } else { 0 },
            _ => 0,
        }
    }

    spec fn measure(&self) -> nat {
        3 * self.units() + self.rank()
    }

    spec fn inv(&self) -> bool {
        &&& self.buffer_pos <= self.input.len() + 1
        &&& self.input.len() < usize::MAX
        &&& escape_wf(self.escape_byte)
        &&& self.escape_byte is Some ==> (self.buffer_pos == 0 || self.buffer_pos >= self.input@.len())
        &&& state_wf(self.state)
        &&& gap_in(self.model()) + self.units() <= usize::MAX
    }

    /// The bytes of this feed consumed between `before` and `self`.
    spec fn consumed_since(&self, before: Self) -> Seq<u8> {
        self.input@.subrange(before.read_to(), self.read_to())
    }

    /// What one call of `advance_state` did, from `before` to `self`, returning `r`.
    spec fn advanced(&self, before: Self, r: (bool, Option<ParseResult>)) -> bool {
        let run = run_at(before.model(), self.consumed_since(before), before.buffer_pos as nat);
        &&& self.model() == run.0
        &&& if r.0 {
            &&& run.1 == opt_results(r.1)
            &&& self.measure() < before.measure()
            &&& self.buffer_pos <= self.input@.len()
        } else {
            &&& run.1 + end_report(run.0) == opt_results(r.1)
            &&& self.read_to() == self.input@.len()
        }
    }

    /// A reading step ends in an escape error, and either way goes on: the rest of a read
    /// field is determined by the state.
    spec fn field_read(&self, before: Self, r: (bool, Option<ParseResult>)) -> bool {
        &&& !r.0 <==> before.nothing_decodable()
        &&& !r.0 ==> r.1 == Some(ParseResult::Partial) && self.state == before.state
        &&& r.1 matches Some(ParseResult::Error(ParseError::InvalidEscapeSequence { .. })) ==> r.0 && self.state is None
        &&& r.1 matches Some(ParseResult::Error(ParseError::UnexpectedStartSequence { .. })) ==> r.0 && self.state
            == Some(State::Address)
    }

    /// The concrete effect of one call of `advance_state`, by the state it started in: one
    /// step is taken, and the call stops only when nothing decodable is left.
    spec fn stepped(&self, before: Self, r: (bool, Option<ParseResult>)) -> bool {
        match before.state {
            None => {
                &&& r == (true, None::<ParseResult>)
                &&& self.state == Some(State::SeekingStart { gap_count: 0 })
                &&& self.buffer_pos == before.buffer_pos
                &&& self.escape_byte == before.escape_byte
            },
            Some(State::SeekingStart { .. }) => {
                &&& r.0 <==> self.state == Some(State::Address)
                &&& r.0 ==> (r.1 is None || r.1 matches Some(ParseResult::Error(ParseError::Gap(_))))
                &&& !r.0 ==> (r.1 is None && self.state matches Some(State::SeekingStart { .. }))
            },
            Some(State::Address) => {
                &&& self.field_read(before, r)
                &&& r.0 ==> escape_error(r.1) || (r.1 is None && self.state matches Some(State::Destination { .. }))
            },
            Some(State::Destination { address }) => {
                &&& self.field_read(before, r)
                &&& r.0 ==> escape_error(r.1) || (r.1 is None && (self.state matches Some(
                    State::DataLength { address: a, .. },
                ) && a == address))
            },
            Some(State::DataLength { address, destination }) => {
                &&& self.field_read(before, r)
                &&& r.0 ==> escape_error(r.1) || (r.1 is None && (self.state matches Some(
                    State::Data { address: a, destination: d, data_length: l, data: v, remaining: n },
                ) && a == address && d == destination && v@.len() == 0 && n == l))
            },
            Some(State::Data { address, destination, data_length, data, remaining }) => if remaining == 0 {
                &&& r == (true, None::<ParseResult>)
                &&& self.state == Some(State::Checksum { address, destination, data_length, data })
                &&& self.buffer_pos == before.buffer_pos
                &&& self.escape_byte == before.escape_byte
            } else {
                &&& self.field_read(before, r)
                &&& r.0 ==> escape_error(r.1) || (r.1 is None && (self.state matches Some(
                    State::Data { address: a, destination: d, data_length: l, data: v, remaining: n },
                ) && a == address && d == destination && l == data_length && v@.drop_last() == data@
                    && v@.len() == data@.len() + 1 && n == remaining - 1))
            },
            Some(State::Checksum { .. }) => {
                &&& self.field_read(before, r)
                &&& r.0 ==> escape_error(r.1) || (self.state is None && (r.1 matches Some(ParseResult::Complete(_))
                    || r.1 matches Some(ParseResult::Error(ParseError::ChecksumMismatch { .. }))))
            },
        }
    }

    // Advances the state of the parser. This could result in a new or partial message, or an error.
    #[verifier::spinoff_prover]
    #[verifier::rlimit(50)]
    fn advance_state(&mut self) -> (r: (bool, Option<ParseResult>))
        requires
            old(self).inv(),
            old(self).buffer_pos <= old(self).input@.len(),
        ensures
            final(self).inv(),
            final(self).input == old(self).input,
            old(self).buffer_pos <= final(self).buffer_pos,
            final(self).advanced(*old(self), r),
            final(self).stepped(*old(self), r),
            (r.1 == Some(ParseResult::Partial)) <==> (!r.0 && reads_field(old(self).state)),
            !r.0 ==> final(self).state is Some && (r.1 is None || r.1 == Some(ParseResult::Partial)),
            r.1 matches Some(ParseResult::Complete(m)) ==> m@.wf(),
    {
        let ghost before = *self;
        let ghost m0 = self.model();
        match self.take_state() {
            // Kick things off by starting in the seeking start state.
            None => {
                self.set_state(State::SeekingStart { gap_count: 0 });
                proof {
                    lemma_run_empty(m0, self.consumed_since(before), before.buffer_pos as nat);
                }
                (true, None)
            },
            // We're seeking the start sequence [0xFF, 0x00]. We'll do this until we find it or we
            // hit the end of the input stream.
            Some(State::SeekingStart { gap_count }) => {
                let (found_start, gap_count) = self.seek_start(gap_count);
                if found_start {
                    // If we found the start sequence, we're ready to read the address byte.
                    self.set_state(State::Address);
                    // If there were any bytes before the start sequence, we'll return a gap error.
                    if gap_count > 0 {
                        (true, Some(ParseResult::Error(ParseError::Gap(gap_count))))
                    } else {
                        (true, None)
                    }
                } else {
                    // If we didn't find the start sequence, we'll continue seeking on the next
                    // feed, maintaining our gap count.
                    self.set_state(State::SeekingStart { gap_count });
                    (false, None)
                }
            },
            // We're reading the address byte.
            Some(State::Address) => match self.next_escaped_byte(Ghost(Phase::Address)) {
                Ok(Some(address)) => {
                    self.set_state(State::Destination { address });
                    (true, None)
                },
                Ok(None) => {
                    self.set_state(State::Address);
                    (false, Some(ParseResult::Partial))
                },
                Err(error) => (true, Some(ParseResult::Error(error))),
            },
            // We're reading the destination byte.
            Some(State::Destination { address }) => match self.next_escaped_byte(
                Ghost(Phase::Destination { address }),
            ) {
                Ok(Some(destination)) => {
                    self.set_state(State::DataLength { address, destination });
                    (true, None)
                },
                Ok(None) => {
                    self.set_state(State::Destination { address });
                    (false, Some(ParseResult::Partial))
                },
                Err(error) => (true, Some(ParseResult::Error(error))),
            },
            // We're reading the data length byte.
            Some(State::DataLength { address, destination }) => match self.next_escaped_byte(
                Ghost(Phase::DataLength { address, destination }),
            ) {
                Ok(Some(data_length)) => {
                    self.set_state(
                        State::Data {
                            address,
                            destination,
                            data_length,
                            data: Vec::new(),
                            remaining: data_length as usize,
                        },
                    );
                    (true, None)
                },
                Ok(None) => {
                    self.set_state(State::DataLength { address, destination });
                    (false, Some(ParseResult::Partial))
                },
                Err(error) => (true, Some(ParseResult::Error(error))),
            },
            // We're reading the data payload.
            Some(State::Data { address, destination, data_length, mut data, remaining }) => {
                if remaining == 0 {
                    self.set_state(State::Checksum { address, destination, data_length, data });
                    proof {
                        lemma_run_empty(m0, self.consumed_since(before), before.buffer_pos as nat);
                    }
                    (true, None)
                } else {
                    let ghost phase = Phase::Data { address, destination, data_length, data: data@ };
                    match self.next_escaped_byte(Ghost(phase)) {
                        Ok(Some(byte)) => {
                            let ghost read = data@;
                            data.push(byte);
                            proof {
                                assert(data@.drop_last() =~= read);
                            }
                            self.set_state(
                                State::Data {
                                    address,
                                    destination,
                                    data_length,
                                    data,
                                    remaining: remaining - 1,
                                },
                            );
                            (true, None)
                        },
                        Ok(None) => {
                            self.set_state(
                                State::Data { address, destination, data_length, data, remaining },
                            );
                            (false, Some(ParseResult::Partial))
                        },
                        Err(error) => (true, Some(ParseResult::Error(error))),
                    }
                }
            },
            // We're reading the checksum byte.
            Some(State::Checksum { address, destination, data_length, data }) => {
                let ghost phase = Phase::Checksum { address, destination, data_length, data: data@ };
                match self.next_escaped_byte(Ghost(phase)) {
                    Ok(Some(checksum)) => {
                        let calculated = compute_checksum(address, destination, data_length, data.as_slice());
                        if checksum == calculated {
                            let message = Message { address, destination, data_length, data, checksum };
                            (true, Some(ParseResult::Complete(message)))
                        } else {
                            (true, Some(ParseResult::Error(ParseError::ChecksumMismatch { expected: checksum, calculated })))
                        }
                    },
                    Ok(None) => {
                        self.set_state(State::Checksum { address, destination, data_length, data });
                        (false, Some(ParseResult::Partial))
                    },
                    Err(error) => (true, Some(ParseResult::Error(error))),
                }
            },
        }
    }

    // Reads the next byte that takes into account the escape sequence for 0xFF.
    fn next_escaped_byte(&mut self, Ghost(phase): Ghost<Phase>) -> (r: Result<Option<u8>, ParseError>)
        requires
            old(self).inv(),
            old(self).buffer_pos <= old(self).input@.len(),
            !(phase is Seeking),
        ensures
            final(self).input == old(self).input,
            old(self).buffer_pos <= final(self).buffer_pos <= final(self).input@.len() + 1,
            escape_wf(final(self).escape_byte),
            final(self).escape_byte is Some ==> final(self).buffer_pos >= final(self).input@.len(),
            (r matches Ok(None)) <==> old(self).nothing_decodable(),
            !(r matches Ok(None)) ==> final(self).buffer_pos <= final(self).input@.len(),
            ({
                let start = ParserModel { phase, held_escape: old(self).escape_byte is Some };
                let run = run_at(start, final(self).consumed_since(*old(self)), old(self).buffer_pos as nat);
                match r {
                    Ok(Some(v)) => {
                        &&& run == deliver(phase, v)
                        &&& final(self).escape_byte is None
                        &&& final(self).state == old(self).state
                        &&& final(self).units() < old(self).units()
                    },
                    Ok(None) => {
                        &&& run == (ParserModel { phase, held_escape: final(self).escape_byte is Some }, Seq::<ResultModel>::empty())
                        &&& final(self).read_to() == final(self).input@.len()
                        &&& final(self).state == old(self).state
                    },
                    Err(e) => {
                        &&& final(self).escape_byte is None
                        &&& final(self).units() + 2 <= old(self).units()
                        &&& (e is UnexpectedStartSequence || e is InvalidEscapeSequence)
                        &&& e is UnexpectedStartSequence ==> run == (plain(Phase::Address), seq![ResultModel::Error(e)])
                            && final(self).state == Some(State::Address)
                        &&& e is InvalidEscapeSequence ==> run == (fresh(), seq![ResultModel::Error(e)])
                            && final(self).state == old(self).state
                    },
                }
            }),
    {
        let ghost before = *self;
        let ghost start = ParserModel { phase, held_escape: self.escape_byte is Some };
        // The offset into the input stream before we begin reading bytes.
        let offset = self.current_offset();
        match self.next_byte() {
            Some(first) => if first == ESCAPE {
                // We encountered the start of an escape sequence for 0xFF.
                let ghost middle = *self;
                match self.next_byte() {
                    Some(second) => {
                        proof {
                            let consumed = self.consumed_since(before);
                            if before.escape_byte is Some {
                                assert(consumed.len() == 1 && consumed[0] == second);
                                lemma_run_one(start, consumed, before.buffer_pos as nat);
                            } else {
                                assert(consumed.len() == 2 && consumed[0] == first && consumed[1] == second);
                                lemma_run_two(start, consumed, before.buffer_pos as nat);
                            }
                        }
                        if second == ESCAPE {
                            // Next byte was also 0xFF, we're good.
                            proof {
                                if before.escape_byte is None {
                                    let s = step(start, first, before.buffer_pos as nat);
                                    assert(s.1 + deliver(phase, 0xFF).1 =~= deliver(phase, 0xFF).1);
                                }
                            }
                            Ok(Some(ESCAPE))
                        } else if second == START_SECOND {
                            // Next byte was the second half of a start sequence. We're not expecting that in
                            // this context.
                            self.set_state(State::Address);
                            let e = ParseError::UnexpectedStartSequence { offset };
                            proof {
                                if before.escape_byte is None {
                                    let s = step(start, first, before.buffer_pos as nat);
                                    assert(s.1 + seq![ResultModel::Error(e)] =~= seq![ResultModel::Error(e)]);
                                }
                            }
                            Err(e)
                        } else {
                            // Next byte was anything else but 0x0 or 0xFF, which is invalid.
                            let e = ParseError::InvalidEscapeSequence { offset };
                            proof {
                                if before.escape_byte is None {
                                    let s = step(start, first, before.buffer_pos as nat);
                                    assert(s.1 + seq![ResultModel::Error(e)] =~= seq![ResultModel::Error(e)]);
                                }
                            }
                            Err(e)
                        }
                    },
                    None => {
                        // No more bytes in the input stream.
                        // We'll hold onto the escape byte and consider it on the next feed.
                        self.escape_byte = Some(ESCAPE);
                        proof {
                            let consumed = self.consumed_since(before);
                            if before.escape_byte is Some {
                                lemma_run_empty(start, consumed, before.buffer_pos as nat);
                            } else {
                                assert(consumed.len() == 1 && consumed[0] == first);
                                lemma_run_one(start, consumed, before.buffer_pos as nat);
                            }
                        }
                        Ok(None)
                    },
                }
            } else {
                // We encountered a non-escape byte, so return that.
                proof {
                    let consumed = self.consumed_since(before);
                    assert(consumed.len() == 1 && consumed[0] == first);
                    lemma_run_one(start, consumed, before.buffer_pos as nat);
                }
                Ok(Some(first))
            },
            // No more bytes in the input stream.
            None => {
                proof {
                    lemma_run_empty(start, self.consumed_since(before), before.buffer_pos as nat);
                }
                Ok(None)
            },
        }
    }

    fn seek_start(&mut self, gap_count: usize) -> (r: (bool, usize))
        requires
            old(self).buffer_pos <= old(self).input.len(),
            old(self).input.len() < usize::MAX,
            escape_wf(old(self).escape_byte),
            old(self).escape_byte is Some ==> (old(self).buffer_pos == 0 || old(self).buffer_pos == old(self).input@.len()),
            gap_count + old(self).units() <= usize::MAX,
        ensures
            final(self).input == old(self).input,
            final(self).state == old(self).state,
            old(self).buffer_pos <= final(self).buffer_pos <= final(self).input@.len() + 1,
            escape_wf(final(self).escape_byte),
            final(self).escape_byte is Some ==> final(self).buffer_pos >= final(self).input@.len(),
            r.1 + final(self).units() <= gap_count + old(self).units(),
            ({
                let start = ParserModel { phase: Phase::Seeking { gap: gap_count as nat }, held_escape: old(self).escape_byte is Some };
                let run = run_at(start, final(self).consumed_since(*old(self)), old(self).buffer_pos as nat);
                if r.0 {
                    &&& run == (plain(Phase::Address), gap_report(r.1 as nat))
                    &&& final(self).escape_byte is None
                    &&& final(self).units() < old(self).units()
                    &&& final(self).buffer_pos <= final(self).input@.len()
                } else {
                    &&& run == (ParserModel { phase: Phase::Seeking { gap: r.1 as nat }, held_escape: final(self).escape_byte is Some }, Seq::<ResultModel>::empty())
                    &&& final(self).read_to() == final(self).input@.len()
                }
            }),
    {
        let ghost origin = *self;
        let ghost gap0 = gap_count;
        let mut count = gap_count;
        let ghost start = ParserModel { phase: Phase::Seeking { gap: gap_count as nat }, held_escape: origin.escape_byte is Some };
        proof {
            lemma_run_empty(start, self.consumed_since(origin), origin.buffer_pos as nat);
        }
        loop
            invariant
                origin == *old(self),
                gap0 == gap_count,
                start == (ParserModel { phase: Phase::Seeking { gap: gap_count as nat }, held_escape: old(self).escape_byte is Some }),
                gap0 + origin.units() <= usize::MAX,
                self.input == origin.input,
                self.state == origin.state,
                origin.buffer_pos <= self.buffer_pos <= self.input.len(),
                self.input.len() < usize::MAX,
                escape_wf(self.escape_byte),
                self.escape_byte is Some ==> (self.buffer_pos == 0 || self.buffer_pos == self.input@.len()),
                count + self.units() <= gap0 + origin.units(),
                // Either the count matches the model, or the count already includes a 0xFF that
                // the model still holds back, the byte after which is known not to be 0x00.
                ({
                    let run = run_at(start, self.consumed_since(origin), origin.buffer_pos as nat);
                    ||| run == (ParserModel { phase: Phase::Seeking { gap: count as nat }, held_escape: self.escape_byte is Some }, Seq::<ResultModel>::empty())
                    ||| (self.escape_byte is None && self.buffer_pos < self.input@.len()
                        && self.input@[self.buffer_pos as int] != 0 && count >= 1
                        && run == (ParserModel { phase: Phase::Seeking { gap: (count - 1) as nat }, held_escape: true }, Seq::<ResultModel>::empty()))
                }),
            decreases self.units(),
        {
            let ghost prev = *self;
            let ghost prev_run = run_at(start, self.consumed_since(origin), origin.buffer_pos as nat);
            let next = self.next_byte();
            let peeked = self.peek_next_byte();
            proof {
                let a = prev.consumed_since(origin);
                let b = self.consumed_since(prev);
                lemma_run_concat(start, a, b, origin.buffer_pos as nat);
                assert(a + b =~= self.consumed_since(origin));
                if prev.escape_byte is None && prev.buffer_pos < prev.input@.len() {
                    assert(b.len() == 1 && b[0] == prev.input@[prev.buffer_pos as int]);
                    lemma_run_one(prev_run.0, b, prev.buffer_pos as nat);
                } else {
                    lemma_run_empty(prev_run.0, b, prev.buffer_pos as nat);
                }
                assert(prev_run.1 + Seq::<ResultModel>::empty() =~= prev_run.1);
            }
            match next {
                // No byte was consumed (buffer exhausted) so we do not increment count.
                None => {
                    return (false, count);
                },
                Some(byte) => match peeked {
                    Some(after) => {
                        if byte == START_FIRST && after == START_SECOND {
                            // If we encounter the start sequence [0xFF, 0x00], we're done.
                            self.buffer_pos += 1;
                            proof {
                                let a = prev.consumed_since(origin);
                                let b = self.consumed_since(prev);
                                lemma_run_concat(start, a, b, origin.buffer_pos as nat);
                                assert(a + b =~= self.consumed_since(origin));
                                let report = gap_report(count as nat);
                                if prev.escape_byte is Some {
                                    // the held 0xFF was counted already; the 0x00 completes the start
                                    assert(b.len() == 1 && b[0] == after);
                                    lemma_run_one(prev_run.0, b, prev.buffer_pos as nat);
                                } else {
                                    // whether or not a 0xFF before `byte` was counted as a gap byte,
                                    // `byte` leaves the model holding an escape with `count` skipped
                                    assert(b.len() == 2 && b[0] == byte && b[1] == after);
                                    lemma_run_two(prev_run.0, b, prev.buffer_pos as nat);
                                    let s = step(prev_run.0, byte, prev.buffer_pos as nat);
                                    assert(s.0 == ParserModel { phase: Phase::Seeking { gap: count as nat }, held_escape: true });
                                    assert(s.1 + report =~= report);
                                }
                                assert(prev_run.1 + report =~= report);
                            }
                            return (true, count);
                        } else {
                            // If we encounter any other byte, we're still seeking.
                            count += 1;
                        }
                    },
                    None => {
                        if byte == START_FIRST {
                            // If we encounter the first part of the start sequence but are at the end of
                            // the input stream, we'll return false and the current gap count.
                            self.escape_byte = Some(START_FIRST);
                            return (false, count);
                        } else {
                            // If we encounter the end of the input stream, we're done.
                            proof {
                                assert(prev.escape_byte is None);
                                let t = step(prev_run.0, byte, prev.buffer_pos as nat);
                                assert(run_at(start, self.consumed_since(origin), origin.buffer_pos as nat)
                                    == (t.0, prev_run.1 + t.1));
                                assert(t.0 == plain(Phase::Seeking { gap: (count + 1) as nat }));
                                assert(prev_run.1 + t.1 =~= Seq::<ResultModel>::empty());
                            }
                            return (false, count + 1);
                        }
                    },
                },
            }
        }
    }

    fn new(input: &'a [u8], parser: &mut StateMachineParser) -> (pi: Self)
        ensures
            pi.buffer_pos == 0,
            pi.input == input,
            pi.escape_byte == old(parser).escape_byte,
            pi.state == old(parser).state,
            final(parser).escape_byte is None,
            final(parser).state is None,
    {
        ParserInput { buffer_pos: 0, input, escape_byte: parser.escape_byte.take(), state: parser.state.take() }
    }

    /// Hand the held escape byte and the state back to the parser for the next feed.
    fn finish(self, parser: &mut StateMachineParser)
        ensures
            final(parser).escape_byte == self.escape_byte,
            final(parser).state == self.state,
    {
        parser.escape_byte = self.escape_byte;
        parser.state = self.state;
    }

    fn current_offset(&self) -> (offset: usize)
        ensures
            offset == self.buffer_pos,
    {
        self.buffer_pos
    }

    fn peek_next_byte(&self) -> (r: Option<u8>)
        ensures
            r == (if self.buffer_pos < self.input@.len() {
                Some(self.input@[self.buffer_pos as int])
            } else {
                None
            }),
    {
        if self.buffer_pos < self.input.len() {
            Some(self.input[self.buffer_pos])
        } else {
            None
        }
    }

    fn next_byte(&mut self) -> (r: Option<u8>)
        requires
            old(self).buffer_pos <= old(self).input@.len(),
            old(self).input@.len() < usize::MAX,
        ensures
            final(self).input == old(self).input,
            final(self).state == old(self).state,
            final(self).escape_byte is None,
            match old(self).escape_byte {
                Some(b) => r == Some(b) && final(self).buffer_pos == old(self).buffer_pos,
                // the cursor moves on even when the input is exhausted
                None => {
                    &&& final(self).buffer_pos == old(self).buffer_pos + 1
                    &&& r == (if old(self).buffer_pos < old(self).input@.len() {
                        Some(old(self).input@[old(self).buffer_pos as int])
                    } else {
                        None
                    })
                },
            },
    {
        match self.escape_byte.take() {
            Some(b) => Some(b),
            None => {
                let byte = self.peek_next_byte();
                self.buffer_pos += 1;
                byte
            },
        }
    }

    fn set_state(&mut self, state: State)
        ensures
            final(self).state == Some(state),
            final(self).input == old(self).input,
            final(self).buffer_pos == old(self).buffer_pos,
            final(self).escape_byte == old(self).escape_byte,
    {
        self.state = Some(state);
    }

    fn take_state(&mut self) -> (state: Option<State>)
        ensures
            state == old(self).state,
            final(self).state is None,
            final(self).input == old(self).input,
            final(self).buffer_pos == old(self).buffer_pos,
            final(self).escape_byte == old(self).escape_byte,
    {
        self.state.take()
    }
}

} // verus!
