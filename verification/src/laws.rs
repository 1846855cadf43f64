//! Properties of the protocol and of the stream parser as a whole.

use vstd::prelude::*;

use crate::parse::{
    deliver, end_report, feed_spec, fresh, gap_report, lemma_run_concat, lemma_run_empty,
    lemma_run_one, lemma_run_two, plain, run_at, step, ParseError, ParserModel, Phase, ResultModel,
};
use crate::generator::bump_last;
use crate::protocol::{checksum_of, encode, escape_all, escaped, lemma_escape_all_push, MessageModel};

verus! {

/// Escaping two pieces one after the other is escaping both at once.
pub proof fn lemma_escape_all_concat(s: Seq<u8>, t: Seq<u8>)
    ensures
        escape_all(s + t) == escape_all(s) + escape_all(t),
    decreases t.len(),
{
    if t.len() == 0 {
        assert(s + t =~= s);
        assert(escape_all(t) =~= Seq::<u8>::empty());
        assert(escape_all(s) + escape_all(t) =~= escape_all(s));
    } else {
        lemma_escape_all_concat(s, t.drop_last());
        assert((s + t).drop_last() =~= s + t.drop_last());
        assert((s + t).last() == t.last());
        assert(escape_all(s) + escape_all(t.drop_last()) + escaped(t.last()) =~= escape_all(s) + (
        escape_all(t.drop_last()) + escaped(t.last())));
    }
}

/// Escaping a single byte.
pub proof fn lemma_escape_all_single(v: u8)
    ensures
        escape_all(seq![v]) == escaped(v),
{
    lemma_escape_all_push(Seq::empty(), v);
    assert(Seq::<u8>::empty().push(v) =~= seq![v]);
    assert(escape_all(Seq::<u8>::empty()) =~= Seq::<u8>::empty());
    assert(Seq::<u8>::empty() + escaped(v) =~= escaped(v));
}

/// While a message is being read, the escaped form of a logical byte delivers that byte.
pub proof fn lemma_read_escaped(phase: Phase, v: u8, base: nat)
    requires
        !(phase is Seeking),
    ensures
        run_at(plain(phase), escaped(v), base) == deliver(phase, v),
{
    if v == 0xFF {
        lemma_run_two(plain(phase), escaped(v), base);
        let first = step(plain(phase), 0xFF, base);
        assert(first.1 + deliver(phase, v).1 =~= deliver(phase, v).1);
    } else {
        lemma_run_one(plain(phase), escaped(v), base);
    }
}

/// The phase reached once `data` of a message of `data_length` bytes has been read.
pub open spec fn data_phase(address: u8, destination: u8, data_length: u8, data: Seq<u8>) -> Phase {
    if data.len() >= data_length {
        Phase::Checksum { address, destination, data_length, data }
    } else {
        Phase::Data { address, destination, data_length, data }
    }
}

/// Reading escaped data bytes appends them to the data read so far.
pub proof fn lemma_read_data(address: u8, destination: u8, data_length: u8, prefix: Seq<u8>, rest: Seq<u8>, base: nat)
    requires
        prefix.len() < data_length,
        prefix.len() + rest.len() <= data_length,
    ensures
        run_at(plain(Phase::Data { address, destination, data_length, data: prefix }), escape_all(rest), base)
            == (plain(data_phase(address, destination, data_length, prefix + rest)), Seq::<ResultModel>::empty()),
    decreases rest.len(),
{
    let start = plain(Phase::Data { address, destination, data_length, data: prefix });
    if rest.len() == 0 {
        assert(escape_all(rest) =~= Seq::<u8>::empty());
        lemma_run_empty(start, escape_all(rest), base);
        assert(prefix + rest =~= prefix);
    } else {
        let front = rest.drop_last();
        let v = rest.last();
        lemma_read_data(address, destination, data_length, prefix, front, base);
        assert(front.push(v) =~= rest);
        lemma_escape_all_push(front, v);
        lemma_run_concat(start, escape_all(front), escaped(v), base);
        let mid = Phase::Data { address, destination, data_length, data: prefix + front };
        assert(data_phase(address, destination, data_length, prefix + front) == mid);
        lemma_read_escaped(mid, v, base + escape_all(front).len());
        assert((prefix + front).push(v) =~= prefix + rest);
        assert(Seq::<ResultModel>::empty() + Seq::<ResultModel>::empty() =~= Seq::<ResultModel>::empty());
    }
}

/// The logical bytes of a message before its checksum.
pub open spec fn body(m: MessageModel) -> Seq<u8> {
    seq![m.address, m.destination, m.data_length] + m.data
}

/// Reading the escaped bytes of a message before its checksum, from the address byte on,
/// leaves the parser waiting for the checksum byte.
pub proof fn lemma_read_body(m: MessageModel, base: nat)
    requires
        m.data.len() == m.data_length,
    ensures
        run_at(plain(Phase::Address), escape_all(body(m)), base) == (
            plain(Phase::Checksum { address: m.address, destination: m.destination, data_length: m.data_length, data: m.data }),
            Seq::<ResultModel>::empty(),
        ),
{
    let a = m.address;
    let d = m.destination;
    let l = m.data_length;
    let e1 = escaped(a);
    let e2 = escaped(d);
    let e3 = escaped(l);
    let e4 = escape_all(m.data);
    assert(body(m) =~= seq![a] + seq![d] + seq![l] + m.data);
    lemma_escape_all_single(a);
    lemma_escape_all_single(d);
    lemma_escape_all_single(l);
    lemma_escape_all_concat(seq![a], seq![d]);
    lemma_escape_all_concat(seq![a] + seq![d], seq![l]);
    lemma_escape_all_concat(seq![a] + seq![d] + seq![l], m.data);
    assert(escape_all(body(m)) == e1 + e2 + e3 + e4);
    let s0 = plain(Phase::Address);
    lemma_read_escaped(Phase::Address, a, base);
    lemma_run_concat(s0, e1, e2, base);
    lemma_read_escaped(Phase::Destination { address: a }, d, base + e1.len());
    lemma_run_concat(s0, e1 + e2, e3, base);
    lemma_read_escaped(Phase::DataLength { address: a, destination: d }, l, base + (e1 + e2).len());
    let s4 = plain(Phase::Checksum { address: a, destination: d, data_length: l, data: m.data });
    lemma_run_concat(s0, e1 + e2 + e3, e4, base);
    if l == 0 {
        assert(m.data =~= Seq::<u8>::empty());
        assert(e4 =~= Seq::<u8>::empty());
        lemma_run_empty(s4, e4, base + (e1 + e2 + e3).len());
    } else {
        lemma_read_data(a, d, l, Seq::empty(), m.data, base + (e1 + e2 + e3).len());
        assert(Seq::<u8>::empty() + m.data =~= m.data);
    }
    let empty = Seq::<ResultModel>::empty();
    assert(empty + empty =~= empty);
}

/// The escaped message splits into its escaped body and its escaped checksum.
pub proof fn lemma_encode_parts(m: MessageModel)
    ensures
        encode(m) == seq![0xFFu8, 0x00u8] + escape_all(body(m)) + escaped(m.checksum),
{
    assert(m.fields() =~= body(m).push(m.checksum));
    lemma_escape_all_push(body(m), m.checksum);
    assert(seq![0xFFu8, 0x00u8] + (escape_all(body(m)) + escaped(m.checksum)) =~= seq![0xFFu8, 0x00u8] + escape_all(body(m)) + escaped(m.checksum));
}

/// Reading the escaped fields of a well-formed message, from the address byte on,
/// completes that message and goes back to seeking.
pub proof fn lemma_read_fields(m: MessageModel, base: nat)
    requires
        m.wf(),
    ensures
        run_at(plain(Phase::Address), escape_all(m.fields()), base) == (fresh(), seq![ResultModel::Complete(m)]),
{
    assert(m.fields() =~= body(m).push(m.checksum));
    lemma_escape_all_push(body(m), m.checksum);
    lemma_read_body(m, base);
    lemma_run_concat(plain(Phase::Address), escape_all(body(m)), escaped(m.checksum), base);
    let phase = Phase::Checksum { address: m.address, destination: m.destination, data_length: m.data_length, data: m.data };
    lemma_read_escaped(phase, m.checksum, base + escape_all(body(m)).len());
    assert(Seq::<ResultModel>::empty() + seq![ResultModel::Complete(m)] =~= seq![ResultModel::Complete(m)]);
}

/// From any seeking state, the wire form of a well-formed message yields that message,
/// after reporting the bytes skipped before it (a held-back 0xFF counts as skipped).
pub proof fn lemma_frame(m: MessageModel, gap: nat, held: bool, base: nat)
    requires
        m.wf(),
    ensures
        run_at(ParserModel { phase: Phase::Seeking { gap }, held_escape: held }, encode(m), base) == (
            fresh(),
            gap_report(gap + (if held { 1nat } else { 0nat })) + seq![ResultModel::Complete(m)],
        ),
{
    let start = ParserModel { phase: Phase::Seeking { gap }, held_escape: held };
    let sq = seq![0xFFu8, 0x00u8];
    let report = gap_report(gap + (if held { 1nat } else { 0nat }));
    lemma_run_two(start, sq, base);
    let first = step(start, 0xFF, base);
    assert(first.1 + report =~= report);
    assert(run_at(start, sq, base) == (plain(Phase::Address), report));
    lemma_run_concat(start, sq, escape_all(m.fields()), base);
    lemma_read_fields(m, base + 2);
}


/// Whether `s` holds a start sequence (0xFF followed by 0x00) anywhere.
pub open spec fn has_start_sequence(s: Seq<u8>) -> bool {
    exists|i: int| 0 <= i < s.len() - 1 && #[trigger] s[i] == 0xFF && s[i + 1] == 0x00
}

/// Whether the last byte of `s` is 0xFF, which the parser holds back.
pub open spec fn ends_with_escape(s: Seq<u8>) -> bool {
    s.len() > 0 && s.last() == 0xFF
}

/// Bytes with no start sequence in them are skipped and counted; a final 0xFF is held back.
pub proof fn lemma_skip(g: Seq<u8>, gap: nat, base: nat)
    requires
        !has_start_sequence(g),
    ensures
        run_at(plain(Phase::Seeking { gap }), g, base) == (
            ParserModel {
                phase: Phase::Seeking { gap: (gap + g.len() - (if ends_with_escape(g) { 1int } else { 0int })) as nat },
                held_escape: ends_with_escape(g),
            },
            Seq::<ResultModel>::empty(),
        ),
    decreases g.len(),
{
    let start = plain(Phase::Seeking { gap });
    if g.len() == 0 {
        lemma_run_empty(start, g, base);
    } else {
        let front = g.drop_last();
        assert(!has_start_sequence(front)) by {
            if has_start_sequence(front) {
                let i = choose|i: int| 0 <= i < front.len() - 1 && #[trigger] front[i] == 0xFF && front[i + 1] == 0x00;
                assert(g[i] == 0xFF && g[i + 1] == 0x00);
            }
        }
        lemma_skip(front, gap, base);
        if ends_with_escape(front) {
            let i = front.len() - 1;
            assert(g[i] == 0xFF);
            assert(!(g[i] == 0xFF && g[i + 1] == 0x00));
        }
        let empty = Seq::<ResultModel>::empty();
        assert(empty + empty =~= empty);
    }
}

/// The wire form of a sequence of messages, one after the other.
pub open spec fn encode_all(messages: Seq<MessageModel>) -> Seq<u8>
    decreases messages.len(),
{
    if messages.len() == 0 {
        Seq::empty()
    } else {
        encode_all(messages.drop_last()) + encode(messages.last())
    }
}

/// Each message reported as complete.
pub open spec fn completes(messages: Seq<MessageModel>) -> Seq<ResultModel> {
    messages.map_values(|m: MessageModel| ResultModel::Complete(m))
}

proof fn lemma_run_messages(messages: Seq<MessageModel>, base: nat)
    requires
        forall|i: int| 0 <= i < messages.len() ==> (#[trigger] messages[i]).wf(),
    ensures
        run_at(fresh(), encode_all(messages), base) == (fresh(), completes(messages)),
    decreases messages.len(),
{
    if messages.len() == 0 {
        lemma_run_empty(fresh(), encode_all(messages), base);
        assert(completes(messages) =~= Seq::<ResultModel>::empty());
    } else {
        let front = messages.drop_last();
        let m = messages.last();
        assert(m.wf()) by {
            assert(messages[messages.len() - 1].wf());
        }
        lemma_run_messages(front, base);
        lemma_run_concat(fresh(), encode_all(front), encode(m), base);
        lemma_frame(m, 0, false, base + encode_all(front).len());
        assert(gap_report(0) =~= Seq::<ResultModel>::empty());
        assert(completes(front) + (gap_report(0) + seq![ResultModel::Complete(m)]) =~= completes(messages));
    }
}

/// A fresh parser fed the wire form of a well-formed message returns exactly that message,
/// and is ready for the next one.
pub proof fn law_roundtrip(m: MessageModel)
    requires
        m.wf(),
    ensures
        feed_spec(fresh(), encode(m)) == (fresh(), seq![ResultModel::Complete(m)]),
{
    lemma_frame(m, 0, false, 0);
    assert(gap_report(0) + seq![ResultModel::Complete(m)] =~= seq![ResultModel::Complete(m)]);
    assert(seq![ResultModel::Complete(m)] + end_report(fresh()) =~= seq![ResultModel::Complete(m)]);
}

/// A fresh parser fed the wire forms of well-formed messages, back to back, returns those
/// messages in order.
pub proof fn law_messages_in_sequence(messages: Seq<MessageModel>)
    requires
        forall|i: int| 0 <= i < messages.len() ==> (#[trigger] messages[i]).wf(),
    ensures
        feed_spec(fresh(), encode_all(messages)) == (fresh(), completes(messages)),
{
    lemma_run_messages(messages, 0);
    assert(completes(messages) + end_report(fresh()) =~= completes(messages));
}

/// Bytes before a message that hold no start sequence are reported as one gap of their
/// length, then the message follows.
pub proof fn law_gap_then_message(gap: Seq<u8>, m: MessageModel)
    requires
        !has_start_sequence(gap),
        m.wf(),
    ensures
        feed_spec(fresh(), gap + encode(m)) == (fresh(), gap_report(gap.len()) + seq![ResultModel::Complete(m)]),
{
    lemma_skip(gap, 0, 0);
    lemma_run_concat(fresh(), gap, encode(m), 0);
    let held = ends_with_escape(gap);
    let skipped = (gap.len() - (if held { 1int } else { 0int })) as nat;
    lemma_frame(m, skipped, held, gap.len());
    assert(skipped + (if held { 1nat } else { 0nat }) == gap.len());
    let out = gap_report(gap.len()) + seq![ResultModel::Complete(m)];
    assert(Seq::<ResultModel>::empty() + out =~= out);
    assert(out + end_report(fresh()) =~= out);
}


/// A result with the offset of an escape error left out.
pub open spec fn without_offset(r: ResultModel) -> ResultModel {
    match r {
        ResultModel::Error(ParseError::InvalidEscapeSequence { .. }) => ResultModel::Error(
            ParseError::InvalidEscapeSequence { offset: 0 },
        ),
        ResultModel::Error(ParseError::UnexpectedStartSequence { .. }) => ResultModel::Error(
            ParseError::UnexpectedStartSequence { offset: 0 },
        ),
        _ => r,
    }
}

/// The results with `Partial` markers dropped and escape-error offsets left out: what a
/// stream reports independently of how it was cut into feeds.
pub open spec fn reported(rs: Seq<ResultModel>) -> Seq<ResultModel>
    decreases rs.len(),
{
    if rs.len() == 0 {
        Seq::empty()
    } else if rs.last() is Partial {
        reported(rs.drop_last())
    } else {
        reported(rs.drop_last()).push(without_offset(rs.last()))
    }
}

proof fn lemma_reported_concat(x: Seq<ResultModel>, y: Seq<ResultModel>)
    ensures
        reported(x + y) == reported(x) + reported(y),
    decreases y.len(),
{
    if y.len() == 0 {
        assert(x + y =~= x);
        assert(reported(x) + reported(y) =~= reported(x));
    } else {
        lemma_reported_concat(x, y.drop_last());
        assert((x + y).drop_last() =~= x + y.drop_last());
        if !(y.last() is Partial) {
            assert((reported(x) + reported(y.drop_last())).push(without_offset(y.last())) =~= reported(x) + reported(
                y.drop_last(),
            ).push(without_offset(y.last())));
        }
    }
}

proof fn lemma_reported_single(r: ResultModel)
    ensures
        reported(seq![r]) == (if r is Partial { Seq::<ResultModel>::empty() } else { seq![without_offset(r)] }),
{
    let s = seq![r];
    assert(s.drop_last() =~= Seq::<ResultModel>::empty());
    assert(reported(s.drop_last()) =~= Seq::<ResultModel>::empty());
    assert(Seq::<ResultModel>::empty().push(without_offset(r)) =~= seq![without_offset(r)]);
}

/// Where a byte stands in the feed affects only the offsets of the errors it reports.
proof fn lemma_step_position(m: ParserModel, x: u8, i: nat, j: nat)
    ensures
        step(m, x, i).0 == step(m, x, j).0,
        reported(step(m, x, i).1) == reported(step(m, x, j).1),
        forall|k: int| 0 <= k < step(m, x, i).1.len() ==> !(#[trigger] step(m, x, i).1[k] is Partial),
{
    let a = step(m, x, i).1;
    let b = step(m, x, j).1;
    assert(a.len() <= 1 && b.len() <= 1);
    if a.len() == 0 {
        assert(reported(a) =~= Seq::<ResultModel>::empty());
        assert(reported(b) =~= Seq::<ResultModel>::empty());
    } else {
        assert(a =~= seq![a[0]]);
        assert(b =~= seq![b[0]]);
        lemma_reported_single(a[0]);
        lemma_reported_single(b[0]);
    }
}

/// Where a piece of input stands in the feed affects only the offsets of the errors it reports,
/// and running never reports `Partial`.
proof fn lemma_run_position(m: ParserModel, s: Seq<u8>, i: nat, j: nat)
    ensures
        run_at(m, s, i).0 == run_at(m, s, j).0,
        reported(run_at(m, s, i).1) == reported(run_at(m, s, j).1),
        forall|k: int| 0 <= k < run_at(m, s, i).1.len() ==> !(#[trigger] run_at(m, s, i).1[k] is Partial),
    decreases s.len(),
{
    if s.len() == 0 {
        lemma_run_empty(m, s, i);
        lemma_run_empty(m, s, j);
    } else {
        lemma_run_position(m, s.drop_last(), i, j);
        let before_i = run_at(m, s.drop_last(), i);
        let before_j = run_at(m, s.drop_last(), j);
        lemma_step_position(before_i.0, s.last(), (i + s.len() - 1) as nat, (j + s.len() - 1) as nat);
        let ti = step(before_i.0, s.last(), (i + s.len() - 1) as nat);
        let tj = step(before_i.0, s.last(), (j + s.len() - 1) as nat);
        lemma_reported_concat(before_i.1, ti.1);
        lemma_reported_concat(before_j.1, tj.1);
        assert forall|k: int| 0 <= k < run_at(m, s, i).1.len() implies !(#[trigger] run_at(m, s, i).1[k] is Partial) by {
            let out = run_at(m, s, i).1;
            assert(out == before_i.1 + ti.1);
            if k < before_i.1.len() {
                assert(out[k] == before_i.1[k]);
            } else {
                assert(out[k] == ti.1[k - before_i.1.len()]);
            }
        }
    }
}

/// Cutting the input of one feed into two feeds leaves the parser in the same state and
/// reports the same messages and errors, up to the `Partial` marker at the cut and the
/// offsets of escape errors (which count from the start of each feed).
pub proof fn law_split_feed(m: ParserModel, a: Seq<u8>, b: Seq<u8>)
    ensures
        ({
            let first = feed_spec(m, a);
            let second = feed_spec(first.0, b);
            let whole = feed_spec(m, a + b);
            &&& second.0 == whole.0
            &&& reported(first.1 + second.1) == reported(whole.1)
        }),
{
    let ra = run_at(m, a, 0);
    let rb0 = run_at(ra.0, b, 0);
    let rba = run_at(ra.0, b, a.len());
    lemma_run_concat(m, a, b, 0);
    lemma_run_position(ra.0, b, 0, a.len());
    let first = feed_spec(m, a);
    let second = feed_spec(first.0, b);
    lemma_reported_concat(ra.1, end_report(ra.0));
    lemma_reported_concat(rb0.1, end_report(rb0.0));
    lemma_reported_concat(ra.1 + end_report(ra.0), rb0.1 + end_report(rb0.0));
    lemma_reported_concat(ra.1 + rba.1, end_report(rba.0));
    lemma_reported_concat(ra.1, rba.1);
    lemma_reported_single(ResultModel::Partial);
    assert(reported(end_report(ra.0)) =~= Seq::<ResultModel>::empty());
    assert(reported(end_report(rb0.0)) =~= Seq::<ResultModel>::empty());
    assert(reported(ra.1) + Seq::<ResultModel>::empty() + (reported(rb0.1) + Seq::<ResultModel>::empty()) =~= reported(ra.1) + reported(rba.1) + Seq::<ResultModel>::empty());
}

/// A feed reports `Partial` only as its last result, and does so exactly when its input
/// ends in the middle of a message.
pub proof fn law_partial_at_end(m: ParserModel, input: Seq<u8>)
    ensures
        ({
            let f = feed_spec(m, input);
            &&& forall|k: int| 0 <= k < f.1.len() - 1 ==> !(#[trigger] f.1[k] is Partial)
            &&& (f.1.len() > 0 && f.1.last() is Partial) <==> !(f.0.phase is Seeking)
        }),
{
    let r = run_at(m, input, 0);
    lemma_run_position(m, input, 0, 0);
    let f = feed_spec(m, input);
    assert forall|k: int| 0 <= k < f.1.len() - 1 implies !(#[trigger] f.1[k] is Partial) by {
        assert(f.1[k] == r.1[k]);
    }
    if r.0.phase is Seeking {
        assert(f.1 =~= r.1);
        if f.1.len() > 0 {
            assert(f.1.last() == r.1[r.1.len() - 1]);
        }
    } else {
        assert(f.1.last() == ResultModel::Partial);
    }
}


/// Reading the start sequence and the escaped body of a message leaves a fresh parser
/// waiting for the checksum byte.
proof fn lemma_read_up_to_checksum(m: MessageModel)
    requires
        m.data.len() == m.data_length,
    ensures
        run_at(fresh(), seq![0xFFu8, 0x00u8] + escape_all(body(m)), 0) == (
            plain(Phase::Checksum { address: m.address, destination: m.destination, data_length: m.data_length, data: m.data }),
            Seq::<ResultModel>::empty(),
        ),
{
    let sq = seq![0xFFu8, 0x00u8];
    lemma_run_two(fresh(), sq, 0);
    assert(gap_report(0) =~= Seq::<ResultModel>::empty());
    let empty = Seq::<ResultModel>::empty();
    assert(empty + empty =~= empty);
    lemma_run_concat(fresh(), sq, escape_all(body(m)), 0);
    lemma_read_body(m, 2);
}

/// A checksum byte that differs from the checksum of the fields read is never accepted:
/// a fresh parser fed the start sequence, the escaped fields of a well-formed message and
/// then any other checksum byte `c` reports exactly one checksum mismatch, with `c` as the
/// checksum received and the message's own checksum as the one calculated.
pub proof fn law_wrong_checksum_rejected(m: MessageModel, c: u8)
    requires
        m.wf(),
        c != m.checksum,
    ensures
        feed_spec(fresh(), seq![0xFFu8, 0x00u8] + escape_all(body(m)) + escaped(c)) == (
            fresh(),
            seq![ResultModel::Error(ParseError::ChecksumMismatch { expected: c, calculated: m.checksum })],
        ),
{
    let pre = seq![0xFFu8, 0x00u8] + escape_all(body(m));
    lemma_read_up_to_checksum(m);
    let waiting = Phase::Checksum { address: m.address, destination: m.destination, data_length: m.data_length, data: m.data };
    lemma_run_concat(fresh(), pre, escaped(c), 0);
    lemma_read_escaped(waiting, c, pre.len());
    let out = seq![ResultModel::Error(ParseError::ChecksumMismatch { expected: c, calculated: m.checksum })];
    assert(Seq::<ResultModel>::empty() + out =~= out);
    assert(out + end_report(fresh()) =~= out);
}

/// What a fresh parser reports for a well-formed message whose last wire byte was
/// incremented, as the generator does to inject a checksum error: a checksum mismatch when
/// the checksum is below 0xFE; when it is 0xFE the frame ends on an escape byte and the
/// message stays partial; when it is 0xFF the escaped checksum turns into a start sequence.
pub proof fn law_bumped_checksum(m: MessageModel)
    requires
        m.wf(),
    ensures
        ({
            let bytes = bump_last(encode(m));
            let f = feed_spec(fresh(), bytes);
            let waiting = Phase::Checksum { address: m.address, destination: m.destination, data_length: m.data_length, data: m.data };
            &&& m.checksum < 0xFE ==> f == (fresh(), seq![ResultModel::Error(ParseError::ChecksumMismatch {
                expected: (m.checksum + 1) as u8,
                calculated: m.checksum,
            })])
            &&& m.checksum == 0xFE ==> f == (ParserModel { phase: waiting, held_escape: true }, seq![ResultModel::Partial])
            &&& m.checksum == 0xFF ==> f == (plain(Phase::Address), seq![
                ResultModel::Error(ParseError::UnexpectedStartSequence { offset: (bytes.len() - 2) as usize }),
                ResultModel::Partial,
            ])
        }),
{
    let c = m.checksum;
    let pre = seq![0xFFu8, 0x00u8] + escape_all(body(m));
    lemma_encode_parts(m);
    lemma_read_up_to_checksum(m);
    let waiting = Phase::Checksum { address: m.address, destination: m.destination, data_length: m.data_length, data: m.data };
    let empty = Seq::<ResultModel>::empty();
    if c < 0xFF {
        let last = seq![((c + 1) % 256) as u8];
        assert(bump_last(encode(m)) =~= pre + last);
        lemma_run_concat(fresh(), pre, last, 0);
        lemma_run_one(plain(waiting), last, pre.len());
        vstd::arithmetic::div_mod::lemma_small_mod((c + 1) as nat, 256);
        if c < 0xFE {
            assert(checksum_of(m.address, m.destination, m.data_length, m.data) == c);
            let out = seq![ResultModel::Error(ParseError::ChecksumMismatch { expected: (c + 1) as u8, calculated: c })];
            assert(empty + out =~= out);
            assert(out + end_report(fresh()) =~= out);
        } else {
            assert(empty + empty =~= empty);
            assert(empty + seq![ResultModel::Partial] =~= seq![ResultModel::Partial]);
        }
    } else {
        let last = seq![0xFFu8, 0x00u8];
        assert(bump_last(encode(m)) =~= pre + last);
        lemma_run_concat(fresh(), pre, last, 0);
        lemma_run_two(plain(waiting), last, pre.len());
        let err = seq![ResultModel::Error(ParseError::UnexpectedStartSequence { offset: (pre.len() + 2 - 2) as usize })];
        assert(empty + (empty + err) =~= err);
        assert(err + seq![ResultModel::Partial] =~= seq![
            ResultModel::Error(ParseError::UnexpectedStartSequence { offset: (pre.len() + 2 - 2) as usize }),
            ResultModel::Partial,
        ]);
    }
}


/// A new message that interrupts one still being read is reported as an unexpected start
/// sequence at the position of its 0xFF, and is then read in full.
pub proof fn law_interrupting_message(phase: Phase, m: MessageModel, base: nat)
    requires
        !(phase is Seeking),
        m.wf(),
    ensures
        run_at(plain(phase), encode(m), base) == (
            fresh(),
            seq![
                ResultModel::Error(ParseError::UnexpectedStartSequence { offset: base as usize }),
                ResultModel::Complete(m),
            ],
        ),
{
    let sq = seq![0xFFu8, 0x00u8];
    lemma_run_two(plain(phase), sq, base);
    let err = seq![ResultModel::Error(ParseError::UnexpectedStartSequence { offset: base as usize })];
    let first = step(plain(phase), 0xFF, base);
    assert(first.1 + err =~= err);
    lemma_run_concat(plain(phase), sq, escape_all(m.fields()), base);
    lemma_read_fields(m, base + 2);
    assert(err + seq![ResultModel::Complete(m)] =~= seq![
        ResultModel::Error(ParseError::UnexpectedStartSequence { offset: base as usize }),
        ResultModel::Complete(m),
    ]);
}


/// The phase reached after reading the first `j` logical bytes of a message's body, from the
/// address byte on.
pub open spec fn body_phase(m: MessageModel, j: nat) -> Phase {
    if j == 0 {
        Phase::Address
    } else if j == 1 {
        Phase::Destination { address: m.address }
    } else if j == 2 {
        Phase::DataLength { address: m.address, destination: m.destination }
    } else {
        data_phase(m.address, m.destination, m.data_length, m.data.take(j - 3))
    }
}

proof fn lemma_read_body_prefix(m: MessageModel, j: nat, base: nat)
    requires
        m.data.len() == m.data_length,
        j <= body(m).len(),
    ensures
        run_at(plain(Phase::Address), escape_all(body(m).take(j as int)), base) == (
            plain(body_phase(m, j)),
            Seq::<ResultModel>::empty(),
        ),
        !(body_phase(m, j) is Seeking),
    decreases j,
{
    let b = body(m);
    if j == 0 {
        assert(b.take(0) =~= Seq::<u8>::empty());
        assert(escape_all(b.take(0)) =~= Seq::<u8>::empty());
        lemma_run_empty(plain(Phase::Address), escape_all(b.take(0)), base);
    } else {
        let i = (j - 1) as nat;
        lemma_read_body_prefix(m, i, base);
        assert(b.take(j as int) =~= b.take(i as int).push(b[i as int]));
        lemma_escape_all_push(b.take(i as int), b[i as int]);
        lemma_run_concat(plain(Phase::Address), escape_all(b.take(i as int)), escaped(b[i as int]), base);
        lemma_read_escaped(body_phase(m, i), b[i as int], base + escape_all(b.take(i as int)).len());
        if i >= 3 {
            assert(b[i as int] == m.data[i - 3]);
            assert(m.data.take(i - 3).push(m.data[i - 3]) =~= m.data.take(j - 3));
        } else if i == 2 {
            assert(m.data.take(0) =~= Seq::<u8>::empty());
        }
        let empty = Seq::<ResultModel>::empty();
        assert(empty + empty =~= empty);
    }
}

/// Any prefix of a message's escaped body, read from the address byte on, reports nothing
/// and leaves the parser in the middle of the message.
proof fn lemma_body_prefix_quiet(m: MessageModel, j: nat, k: nat, base: nat)
    requires
        m.data.len() == m.data_length,
        j <= body(m).len(),
        k <= escape_all(body(m).take(j as int)).len(),
    ensures
        run_at(plain(Phase::Address), escape_all(body(m).take(j as int)).take(k as int), base).1
            == Seq::<ResultModel>::empty(),
        !(run_at(plain(Phase::Address), escape_all(body(m).take(j as int)).take(k as int), base).0.phase is Seeking),
    decreases j,
{
    let b = body(m);
    let whole = escape_all(b.take(j as int));
    if k == whole.len() {
        assert(whole.take(k as int) =~= whole);
        lemma_read_body_prefix(m, j, base);
    } else {
        // k < whole.len(), so j > 0
        if j == 0 {
            assert(b.take(0) =~= Seq::<u8>::empty());
            assert(escape_all(b.take(0)) =~= Seq::<u8>::empty());
        }
        let i = (j - 1) as nat;
        let front = escape_all(b.take(i as int));
        assert(b.take(j as int) =~= b.take(i as int).push(b[i as int]));
        lemma_escape_all_push(b.take(i as int), b[i as int]);
        if k <= front.len() {
            assert(whole.take(k as int) =~= front.take(k as int));
            lemma_body_prefix_quiet(m, i, k, base);
        } else {
            // the cut falls between the two bytes of an escaped 0xFF
            assert(b[i as int] == 0xFF);
            let cut = front + seq![0xFFu8];
            assert(whole.take(k as int) =~= cut);
            lemma_read_body_prefix(m, i, base);
            lemma_run_concat(plain(Phase::Address), front, seq![0xFFu8], base);
            lemma_run_one(plain(body_phase(m, i)), seq![0xFFu8], base + front.len());
            let empty = Seq::<ResultModel>::empty();
            assert(empty + empty =~= empty);
        }
    }
}

proof fn lemma_reported_without_partial(x: Seq<ResultModel>)
    requires
        forall|i: int| 0 <= i < x.len() ==> !(#[trigger] x[i] is Partial),
    ensures
        reported(x).len() == x.len(),
        forall|i: int| 0 <= i < x.len() ==> #[trigger] reported(x)[i] == without_offset(x[i]),
    decreases x.len(),
{
    if x.len() > 0 {
        let front = x.drop_last();
        assert forall|i: int| 0 <= i < front.len() implies !(#[trigger] front[i] is Partial) by {
            assert(front[i] == x[i]);
        }
        lemma_reported_without_partial(front);
        assert(!(x[x.len() - 1] is Partial));
        assert forall|i: int| 0 <= i < x.len() implies #[trigger] reported(x)[i] == without_offset(x[i]) by {
            if i < front.len() {
                assert(x[i] == front[i]);
            }
        }
    }
}

/// A well-formed message cut anywhere after its start sequence is reported `Partial` by the
/// first feed, and in full by the next one.
pub proof fn law_cut_message(m: MessageModel, k: nat)
    requires
        m.wf(),
        2 <= k < encode(m).len(),
    ensures
        ({
            let first = feed_spec(fresh(), encode(m).take(k as int));
            let second = feed_spec(first.0, encode(m).skip(k as int));
            &&& first.1 == seq![ResultModel::Partial]
            &&& second == (fresh(), seq![ResultModel::Complete(m)])
        }),
{
    let enc = encode(m);
    let sq = seq![0xFFu8, 0x00u8];
    let eb = escape_all(body(m));
    let empty = Seq::<ResultModel>::empty();
    lemma_encode_parts(m);
    lemma_read_up_to_checksum(m);
    lemma_run_two(fresh(), sq, 0);
    assert(gap_report(0) =~= empty);
    assert(empty + empty =~= empty);
    // the cut-off part reports nothing and ends in the middle of the message
    let head = enc.take(k as int);
    if k <= 2 + eb.len() {
        let part = eb.take(k - 2);
        assert(head =~= sq + part);
        lemma_run_concat(fresh(), sq, part, 0);
        assert(body(m).take(body(m).len() as int) =~= body(m));
        lemma_body_prefix_quiet(m, body(m).len(), (k - 2) as nat, 2);
    } else {
        assert(m.checksum == 0xFF);
        assert(head =~= (sq + eb) + seq![0xFFu8]);
        lemma_run_concat(fresh(), sq + eb, seq![0xFFu8], 0);
        let waiting = Phase::Checksum { address: m.address, destination: m.destination, data_length: m.data_length, data: m.data };
        lemma_run_one(plain(waiting), seq![0xFFu8], (sq + eb).len());
    }
    let ra = run_at(fresh(), head, 0);
    assert(ra.1 == empty && !(ra.0.phase is Seeking));
    assert(ra.1 + end_report(ra.0) =~= seq![ResultModel::Partial]);
    // the rest completes the message
    let tail = enc.skip(k as int);
    assert(head + tail =~= enc);
    lemma_frame(m, 0, false, 0);
    assert(gap_report(0) + seq![ResultModel::Complete(m)] =~= seq![ResultModel::Complete(m)]);
    lemma_run_concat(fresh(), head, tail, 0);
    let rk = run_at(ra.0, tail, k);
    assert(empty + rk.1 =~= rk.1);
    assert(rk == (fresh(), seq![ResultModel::Complete(m)]));
    lemma_run_position(ra.0, tail, 0, k);
    let r0 = run_at(ra.0, tail, 0);
    lemma_reported_single(ResultModel::Complete(m));
    lemma_reported_without_partial(r0.1);
    assert(without_offset(r0.1[0]) == ResultModel::Complete(m));
    assert(r0.1 =~= seq![ResultModel::Complete(m)]);
    assert(r0.1 + end_report(fresh()) =~= r0.1);
}

/// The bytes of several chunks, one after the other.
pub open spec fn flatten_chunks(chunks: Seq<Seq<u8>>) -> Seq<u8>
    decreases chunks.len(),
{
    if chunks.len() == 0 {
        Seq::empty()
    } else {
        flatten_chunks(chunks.drop_last()) + chunks.last()
    }
}

/// The state after feeding the chunks one feed each, and all the results of those feeds.
pub open spec fn feed_chunks(m: ParserModel, chunks: Seq<Seq<u8>>) -> (ParserModel, Seq<ResultModel>)
    decreases chunks.len(),
{
    if chunks.len() == 0 {
        (m, Seq::empty())
    } else {
        let before = feed_chunks(m, chunks.drop_last());
        let last = feed_spec(before.0, chunks.last());
        (last.0, before.1 + last.1)
    }
}

/// However a stream is cut into feeds, the parser ends in the same state and reports the same
/// messages and errors, up to `Partial` markers and the offsets of escape errors (which
/// count from the start of each feed).
pub proof fn law_chunked_feeds(m: ParserModel, chunks: Seq<Seq<u8>>)
    ensures
        feed_chunks(m, chunks).0 == feed_spec(m, flatten_chunks(chunks)).0,
        reported(feed_chunks(m, chunks).1) == reported(feed_spec(m, flatten_chunks(chunks)).1),
    decreases chunks.len(),
{
    if chunks.len() == 0 {
        let empty = Seq::<u8>::empty();
        lemma_run_empty(m, empty, 0);
        assert(flatten_chunks(chunks) =~= empty);
        lemma_reported_concat(Seq::<ResultModel>::empty(), end_report(m));
        lemma_reported_single(ResultModel::Partial);
        assert(reported(Seq::<ResultModel>::empty()) =~= Seq::<ResultModel>::empty());
        assert(reported(end_report(m)) =~= Seq::<ResultModel>::empty());
    } else {
        let front = chunks.drop_last();
        law_chunked_feeds(m, front);
        law_split_feed(m, flatten_chunks(front), chunks.last());
        let before = feed_chunks(m, front);
        let first = feed_spec(m, flatten_chunks(front));
        let last = feed_spec(before.0, chunks.last());
        lemma_reported_concat(before.1, last.1);
        lemma_reported_concat(first.1, last.1);
    }
}


/// The wire forms of messages, one frame each.
pub open spec fn frames(messages: Seq<MessageModel>) -> Seq<Seq<u8>> {
    messages.map_values(|m: MessageModel| encode(m))
}

/// Feeding a fresh parser the wire forms of well-formed messages, one frame per feed (as the
/// generator sends them when it injects no error), returns each message complete, in order,
/// with nothing else.
pub proof fn law_frames_fed_one_by_one(messages: Seq<MessageModel>)
    requires
        forall|i: int| 0 <= i < messages.len() ==> (#[trigger] messages[i]).wf(),
    ensures
        feed_chunks(fresh(), frames(messages)) == (fresh(), completes(messages)),
    decreases messages.len(),
{
    if messages.len() == 0 {
        assert(completes(messages) =~= Seq::<ResultModel>::empty());
    } else {
        let front = messages.drop_last();
        let m = messages.last();
        assert(messages[messages.len() - 1].wf());
        assert forall|i: int| 0 <= i < front.len() implies (#[trigger] front[i]).wf() by {
            assert(front[i] == messages[i]);
        }
        law_frames_fed_one_by_one(front);
        assert(frames(messages).drop_last() =~= frames(front));
        law_roundtrip(m);
        assert(completes(front) + seq![ResultModel::Complete(m)] =~= completes(messages));
    }
}

} // verus!
