//! Results of parsing the message stream, the parser interface, and the byte-level
//! model of the stream parser that the implementation is verified against.

use vstd::prelude::*;

use crate::protocol::{checksum_of, Message, MessageModel};

verus! {

/// Errors that can occur while parsing the message stream.
#[derive(Clone, Debug, Eq, PartialEq)]
pub enum ParseError {
    /// The calculated checksum did not match the parsed checksum byte.
    ChecksumMismatch { expected: u8, calculated: u8 },
    /// An invalid escape sequence was encountered (0xFF followed by a byte that is not 0x00 at start or 0xFF in body).
    InvalidEscapeSequence {
        /// Offset into the input slice where the invalid sequence started.
        offset: usize,
    },
    /// Bytes were encountered before the start of a message that were not a start sequence (gap).
    Gap(usize),
    /// A start sequence was encountered before a previous message was fully received.
    UnexpectedStartSequence {
        /// Offset into the input slice where the unexpected start sequence started.
        offset: usize,
    },
}

/// A single result from the parser: either a complete message, a partial (incomplete) message indicator, or an error.
#[derive(Clone, Debug, Eq, PartialEq)]
pub enum ParseResult {
    Complete(Message),
    Partial,
    Error(ParseError),
}

/// The mathematical content of a [`ParseResult`].
pub enum ResultModel {
    Complete(MessageModel),
    Partial,
    Error(ParseError),
}

impl View for ParseResult {
    type V = ResultModel;

    open spec fn view(&self) -> ResultModel {
        match self {
            ParseResult::Complete(m) => ResultModel::Complete(m@),
            ParseResult::Partial => ResultModel::Partial,
            ParseResult::Error(e) => ResultModel::Error(*e),
        }
    }
}

/// The contents of a vector of results.
pub open spec fn results_view(v: Seq<ParseResult>) -> Seq<ResultModel> {
    v.map_values(|r: ParseResult| r@)
}

impl vstd::std_specs::convert::FromSpecImpl<Message> for ParseResult {
    open spec fn obeys_from_spec() -> bool {
        true
    }

    open spec fn from_spec(message: Message) -> ParseResult {
        ParseResult::Complete(message)
    }
}

impl From<Message> for ParseResult {
    fn from(message: Message) -> (r: Self) {
        ParseResult::Complete(message)
    }
}

impl vstd::std_specs::convert::FromSpecImpl<ParseError> for ParseResult {
    open spec fn obeys_from_spec() -> bool {
        true
    }

    open spec fn from_spec(error: ParseError) -> ParseResult {
        ParseResult::Error(error)
    }
}

impl From<ParseError> for ParseResult {
    fn from(error: ParseError) -> (r: Self) {
        ParseResult::Error(error)
    }
}

/// Parser trait: stateful consumption of byte slices, producing a list of results per feed.
pub trait Parser {
    /// Whether this parser can take `input_len` more bytes in one feed.
    spec fn can_feed(&self, input_len: nat) -> bool;

    /// Process the given bytes and return any complete messages, partial indicator, or errors.
    /// Partial is pushed when input ends mid-message; the next feed continues from that state.
    fn feed(&mut self, input: &[u8]) -> (results: Vec<ParseResult>)
        requires
            old(self).can_feed(input.len() as nat),
    ;
}

/// Where the stream parser stands between two bytes.
pub enum Phase {
    /// Looking for the start sequence; `gap` bytes were skipped so far.
    Seeking { gap: nat },
    /// Reading the address byte.
    Address,
    /// Reading the destination byte.
    Destination { address: u8 },
    /// Reading the data length byte.
    DataLength { address: u8, destination: u8 },
    /// Reading the data payload; `data` holds the bytes read so far, fewer than `data_length`.
    Data { address: u8, destination: u8, data_length: u8, data: Seq<u8> },
    /// Reading the checksum byte.
    Checksum { address: u8, destination: u8, data_length: u8, data: Seq<u8> },
}

/// The state of the stream parser: its phase, and whether a 0xFF byte is held back
/// because the byte after it has not been seen yet.
pub struct ParserModel {
    pub phase: Phase,
    pub held_escape: bool,
}

/// A state with no held-back byte.
pub open spec fn plain(phase: Phase) -> ParserModel {
    ParserModel { phase, held_escape: false }
}

/// The state of a parser that has not read anything.
pub open spec fn fresh() -> ParserModel {
    plain(Phase::Seeking { gap: 0 })
}

/// The offset reported for an escape sequence whose second byte is at `index`:
/// the position of its 0xFF byte, or 0 when that byte came with an earlier feed.
pub open spec fn escape_offset(index: nat) -> usize {
    if index == 0 {
        0
    } else {
        (index - 1) as usize
    }
}

/// The report of the bytes skipped before a start sequence.
pub open spec fn gap_report(gap: nat) -> Seq<ResultModel> {
    if gap > 0 {
        seq![ResultModel::Error(ParseError::Gap(gap as usize))]
    } else {
        Seq::empty()
    }
}

/// The result of reading a checksum byte `received` for the given fields.
pub open spec fn checksum_report(address: u8, destination: u8, data_length: u8, data: Seq<u8>, received: u8) -> ResultModel {
    let calculated = checksum_of(address, destination, data_length, data);
    if received == calculated {
        ResultModel::Complete(MessageModel { address, destination, data_length, data, checksum: received })
    } else {
        ResultModel::Error(ParseError::ChecksumMismatch { expected: received, calculated })
    }
}

/// The effect of one logical (unescaped) byte `v` on a phase that reads message fields.
pub open spec fn deliver(phase: Phase, v: u8) -> (ParserModel, Seq<ResultModel>) {
    match phase {
        Phase::Seeking { gap } => (plain(phase), Seq::empty()),
        Phase::Address => (plain(Phase::Destination { address: v }), Seq::empty()),
        Phase::Destination { address } => (plain(Phase::DataLength { address, destination: v }), Seq::empty()),
        Phase::DataLength { address, destination } => if v == 0 {
            (plain(Phase::Checksum { address, destination, data_length: v, data: Seq::empty() }), Seq::empty())
        } else {
            (plain(Phase::Data { address, destination, data_length: v, data: Seq::empty() }), Seq::empty())
        },
        Phase::Data { address, destination, data_length, data } => if data.len() + 1 >= data_length {
            (plain(Phase::Checksum { address, destination, data_length, data: data.push(v) }), Seq::empty())
        } else {
            (plain(Phase::Data { address, destination, data_length, data: data.push(v) }), Seq::empty())
        },
        Phase::Checksum { address, destination, data_length, data } => (
            fresh(),
            seq![checksum_report(address, destination, data_length, data, v)],
        ),
    }
}

/// The effect of one raw byte `x`, found at position `index` of the current feed.
pub open spec fn step(m: ParserModel, x: u8, index: nat) -> (ParserModel, Seq<ResultModel>) {
    match m.phase {
        Phase::Seeking { gap } => if m.held_escape {
            if x == 0x00 {
                (plain(Phase::Address), gap_report(gap))
            } else if x == 0xFF {
                (ParserModel { phase: Phase::Seeking { gap: gap + 1 }, held_escape: true }, Seq::empty())
            } else {
                (plain(Phase::Seeking { gap: gap + 2 }), Seq::empty())
            }
        } else if x == 0xFF {
            (ParserModel { phase: m.phase, held_escape: true }, Seq::empty())
        } else {
            (plain(Phase::Seeking { gap: gap + 1 }), Seq::empty())
        },
        _ => if m.held_escape {
            if x == 0xFF {
                deliver(m.phase, 0xFF)
            } else if x == 0x00 {
                (
                    plain(Phase::Address),
                    seq![ResultModel::Error(ParseError::UnexpectedStartSequence { offset: escape_offset(index) })],
                )
            } else {
                (
                    fresh(),
                    seq![ResultModel::Error(ParseError::InvalidEscapeSequence { offset: escape_offset(index) })],
                )
            }
        } else if x == 0xFF {
            (ParserModel { phase: m.phase, held_escape: true }, Seq::empty())
        } else {
            deliver(m.phase, x)
        },
    }
}

/// The effect of the bytes `s`, the first of which is at position `base` of the current feed.
pub open spec fn run_at(m: ParserModel, s: Seq<u8>, base: nat) -> (ParserModel, Seq<ResultModel>)
    decreases s.len(),
{
    if s.len() == 0 {
        (m, Seq::empty())
    } else {
        let before = run_at(m, s.drop_last(), base);
        let last = step(before.0, s.last(), (base + s.len() - 1) as nat);
        (last.0, before.1 + last.1)
    }
}

/// What a feed reports when its input ends: `Partial` in the middle of a message.
pub open spec fn end_report(m: ParserModel) -> Seq<ResultModel> {
    if m.phase is Seeking {
        Seq::empty()
    } else {
        seq![ResultModel::Partial]
    }
}

/// The state after one feed of `input`, and the results that the feed returns.
pub open spec fn feed_spec(m: ParserModel, input: Seq<u8>) -> (ParserModel, Seq<ResultModel>) {
    let r = run_at(m, input, 0);
    (r.0, r.1 + end_report(r.0))
}

/// How many more bytes the gap count of a state may still grow by without overflow.
pub open spec fn gap_in(m: ParserModel) -> nat {
    match m.phase {
        Phase::Seeking { gap } => gap,
        _ => 0,
    }
}

/// Running over two pieces of input one after the other is running over both at once.
pub proof fn lemma_run_concat(m: ParserModel, a: Seq<u8>, b: Seq<u8>, base: nat)
    ensures
        run_at(m, a + b, base) == ({
            let first = run_at(m, a, base);
            let second = run_at(first.0, b, base + a.len());
            (second.0, first.1 + second.1)
        }),
    decreases b.len(),
{
    if b.len() == 0 {
        assert(a + b =~= a);
        assert(run_at(m, a, base).1 + Seq::empty() =~= run_at(m, a, base).1);
    } else {
        lemma_run_concat(m, a, b.drop_last(), base);
        assert((a + b).drop_last() =~= a + b.drop_last());
        assert((a + b).last() == b.last());
        let first = run_at(m, a, base);
        let mid = run_at(first.0, b.drop_last(), base + a.len());
        let t = step(mid.0, b.last(), (base + a.len() + b.len() - 1) as nat);
        assert(first.1 + mid.1 + t.1 =~= first.1 + (mid.1 + t.1));
    }
}

/// Running over no bytes changes nothing.
pub proof fn lemma_run_empty(m: ParserModel, s: Seq<u8>, base: nat)
    requires
        s.len() == 0,
    ensures
        run_at(m, s, base) == (m, Seq::<ResultModel>::empty()),
{
}

/// Running over one byte is one step.
pub proof fn lemma_run_one(m: ParserModel, s: Seq<u8>, base: nat)
    requires
        s.len() == 1,
    ensures
        run_at(m, s, base) == step(m, s[0], base),
{
    assert(s.drop_last().len() == 0);
    lemma_run_empty(m, s.drop_last(), base);
    assert(Seq::<ResultModel>::empty() + step(m, s[0], base).1 =~= step(m, s[0], base).1);
}

/// Running over two bytes is two steps.
pub proof fn lemma_run_two(m: ParserModel, s: Seq<u8>, base: nat)
    requires
        s.len() == 2,
    ensures
        run_at(m, s, base) == ({
            let first = step(m, s[0], base);
            let second = step(first.0, s[1], base + 1);
            (second.0, first.1 + second.1)
        }),
{
    let s1 = s.drop_last();
    assert(s1.len() == 1 && s1[0] == s[0]);
    lemma_run_one(m, s1, base);
}

} // verus!
