//! The decisions of the traffic generator: random well-formed messages, the byte frames
//! that inject protocol errors, and the pacing of messages between pauses.

use rand::rngs::ThreadRng;
use rand::RngExt;
use vstd::prelude::*;

use crate::protocol::{encode, Message, MessageModel, ESCAPE, START_SEQUENCE};

verus! {

#[verifier::external_type_specification]
#[verifier::external_body]
pub struct ExThreadRng(rand::rngs::ThreadRng);

/// Calls `RngExt::random::<u8>` of `rand`, which draws a byte from the standard uniform
/// distribution. Any byte may come back, so nothing is claimed of it.
#[verifier::external_body]
fn random_byte(rng: &mut ThreadRng) -> u8 {
    rng.random()
}

/// Calls `RngExt::random_range` of `rand` with the inclusive range `low..=high`. Its
/// documentation promises a value in the given range, and it panics only on an empty range,
/// which `requires` rules out.
#[verifier::external_body]
fn random_in(rng: &mut ThreadRng, low: usize, high: usize) -> (n: usize)
    requires
        low <= high,
    ensures
        low <= n <= high,
{
    rng.random_range(low..=high)
}

/// `n` random bytes.
pub fn random_bytes(rng: &mut ThreadRng, n: usize) -> (bytes: Vec<u8>)
    ensures
        bytes@.len() == n,
{
    let mut bytes: Vec<u8> = Vec::new();
    let mut i: usize = 0;
    while i < n
        invariant
            i <= n,
            bytes@.len() == i,
        decreases n - i,
    {
        bytes.push(random_byte(rng));
        i = i + 1;
    }
    bytes
}

/// A message with random address, destination and data (at most 255 bytes of it).
pub fn random_message(rng: &mut ThreadRng) -> (m: Message)
    ensures
        m@.wf(),
{
    let address = random_byte(rng);
    let destination = random_byte(rng);
    let data_len = random_in(rng, 0, 255);
    let data = random_bytes(rng, data_len);
    Message::builder().address(address).destination(destination).data(data).build().unwrap()
}

/// The kinds of protocol error that the generator injects.
#[derive(Clone, Copy, Debug, PartialEq, Eq)]
pub enum Injection {
    /// A valid message whose last byte (part of the checksum) is incremented.
    Checksum,
    /// A start sequence followed by an invalid escape sequence and a few random bytes.
    InvalidEscape,
    /// Random bytes before a valid message.
    Gap,
}

/// Picks one of the three kinds of injected error, by a uniform draw from `0..=2`.
pub fn random_injection(rng: &mut ThreadRng) -> (kind: Injection)
    ensures
        exists|k: nat| k <= 2 && kind == injection_of(k),
{
    let k = random_in(rng, 0, 2);
    injection_from(k)
}

/// The kind of injected error that a draw `choice` from `0..=2` stands for.
pub open spec fn injection_of(choice: nat) -> Injection {
    if choice == 0 {
        Injection::Checksum
    } else if choice == 1 {
        Injection::InvalidEscape
    } else {
        Injection::Gap
    }
}

/// The three draws stand for the three kinds one for one: every kind comes from exactly
/// one draw in `0..=2`, so a uniform draw makes each kind equally likely.
pub proof fn law_each_kind_from_one_draw(kind: Injection)
    ensures
        exists|k: nat| k <= 2 && injection_of(k) == kind,
        forall|j: nat, k: nat| j <= 2 && k <= 2 && injection_of(j) == kind && injection_of(k) == kind ==> j == k,
{
    match kind {
        Injection::Checksum => assert(injection_of(0) == kind),
        Injection::InvalidEscape => assert(injection_of(1) == kind),
        Injection::Gap => assert(injection_of(2) == kind),
    }
}

/// The kind of injected error that a draw `choice` from `0..=2` stands for.
pub fn injection_from(choice: usize) -> (kind: Injection)
    ensures
        choice == 0 ==> kind == Injection::Checksum,
        choice == 1 ==> kind == Injection::InvalidEscape,
        choice >= 2 ==> kind == Injection::Gap,
        kind == injection_of(choice as nat),
{
    if choice == 0 {
        Injection::Checksum
    } else if choice == 1 {
        Injection::InvalidEscape
    } else {
        Injection::Gap
    }
}

/// `bytes` with its last byte incremented, wrapping around.
pub open spec fn bump_last(bytes: Seq<u8>) -> Seq<u8> {
    if bytes.len() == 0 {
        bytes
    } else {
        bytes.update(bytes.len() - 1, ((bytes.last() + 1) % 256) as u8)
    }
}

/// The wire form of a message, with its last byte incremented to break the checksum.
pub fn corrupt_checksum(m: &Message) -> (bytes: Vec<u8>)
    ensures
        bytes@ == bump_last(encode(m@)),
{
    let mut bytes = m.to_bytes();
    let n = bytes.len();
    if n > 0 {
        // Increment the checksum byte.
        let last = bytes[n - 1];
        bytes.set(n - 1, last.wrapping_add(1));
        proof {
            if last < 255 {
                vstd::arithmetic::div_mod::lemma_small_mod((last + 1) as nat, 256);
            } else {
                assert(((last + 1) % 256) == 0);
            }
        }
    }
    bytes
}

/// A start sequence, then an invalid escape sequence (0xFF 0x01), then `tail`.
pub fn invalid_escape_frame(tail: &[u8]) -> (bytes: Vec<u8>)
    ensures
        bytes@ == seq![0xFFu8, 0x00u8, 0xFFu8, 0x01u8] + tail@,
{
    let mut bytes: Vec<u8> = Vec::new();
    bytes.push(START_SEQUENCE[0]);
    bytes.push(START_SEQUENCE[1]);
    bytes.push(ESCAPE);
    bytes.push(0x01);
    let ghost head = bytes@;
    let mut i: usize = 0;
    while i < tail.len()
        invariant
            i <= tail@.len(),
            bytes@ == head + tail@.take(i as int),
            head == seq![0xFFu8, 0x00u8, 0xFFu8, 0x01u8],
        decreases tail.len() - i,
    {
        bytes.push(tail[i]);
        i = i + 1;
        proof {
            assert(tail@.take(i as int) =~= tail@.take(i - 1).push(tail@[i - 1]));
        }
    }
    proof {
        assert(tail@.take(tail@.len() as int) =~= tail@);
    }
    bytes
}

/// `gap`, then the wire form of `m`.
pub fn gap_frame(gap: Vec<u8>, m: &Message) -> (bytes: Vec<u8>)
    ensures
        bytes@ == gap@ + encode(m@),
{
    let mut bytes = gap;
    let _ = m.write_bytes(&mut bytes);
    bytes
}

/// What the generator sends next: the wire form of a random message, or, when an error is
/// to be injected, the broken frame of the given kind.
pub fn next_frame(rng: &mut ThreadRng, injection: Option<Injection>) -> (bytes: Vec<u8>)
    ensures
        injection is None ==> exists|m: MessageModel| m.wf() && bytes@ == encode(m),
        injection == Some(Injection::Checksum) ==> exists|m: MessageModel|
            m.wf() && bytes@ == bump_last(encode(m)),
        injection == Some(Injection::InvalidEscape) ==> exists|tail: Seq<u8>|
            tail.len() <= 3 && bytes@ == seq![0xFFu8, 0x00u8, 0xFFu8, 0x01u8] + tail,
        injection == Some(Injection::Gap) ==> exists|gap: Seq<u8>, m: MessageModel|
            1 <= gap.len() <= 5 && m.wf() && bytes@ == gap + encode(m),
{
    if let Some(kind) = injection {
        match kind {
            // Inject a checksum error, by modifying the checksum byte itself.
            Injection::Checksum => {
                let m = random_message(rng);
                let bytes = corrupt_checksum(&m);
                proof {
                    let w = m@;
                    assert(w.wf() && bytes@ == bump_last(encode(w)));
                }
                bytes
            },
            // Inject an invalid escape sequence right after the start sequence.
            Injection::InvalidEscape => {
                let n = random_in(rng, 0, 3);
                let tail = random_bytes(rng, n);
                let bytes = invalid_escape_frame(tail.as_slice());
                proof {
                    let t = tail@;
                    assert(t.len() <= 3 && bytes@ == seq![0xFFu8, 0x00u8, 0xFFu8, 0x01u8] + t);
                }
                bytes
            },
            // Inject a gap, by adding random bytes before a valid message.
            Injection::Gap => {
                let gap_len = random_in(rng, 1, 5);
                let gap = random_bytes(rng, gap_len);
                let ghost g = gap@;
                let m = random_message(rng);
                let bytes = gap_frame(gap, &m);
                proof {
                    let w = m@;
                    assert(1 <= g.len() <= 5 && w.wf() && bytes@ == g + encode(w));
                }
                bytes
            },
        }
    } else {
        let m = random_message(rng);
        let bytes = m.to_bytes();
        proof {
            let w = m@;
            assert(w.wf() && bytes@ == encode(w));
        }
        bytes
    }
}

/// How long to sleep at a pause so that a pause interval of `interval_nanos` has passed
/// since the last pause, `elapsed_nanos` ago: nothing once it has passed.
pub fn pause_remaining(interval_nanos: u128, elapsed_nanos: u128) -> (wait: u128)
    ensures
        wait == (if elapsed_nanos < interval_nanos { interval_nanos - elapsed_nanos } else { 0 }),
{
    if elapsed_nanos < interval_nanos {
        interval_nanos - elapsed_nanos
    } else {
        0
    }
}

/// Counts the messages sent since the last pause; the generator pauses after every
/// tenth of a second's worth of messages to keep roughly to its target rate.
#[derive(Debug)]
pub struct Pacer {
    per_pause: usize,
    sent: usize,
}

impl Pacer {
    /// Messages sent between two pauses.
    pub closed spec fn spec_per_pause(&self) -> nat {
        self.per_pause as nat
    }

    /// Messages sent since the last pause.
    pub closed spec fn spec_sent(&self) -> nat {
        self.sent as nat
    }

    /// A pacer for `message_rate_per_sec` messages a second, with pauses every tenth of a second.
    pub fn new(message_rate_per_sec: usize) -> (p: Self)
        ensures
            p.spec_per_pause() == message_rate_per_sec / 10,
            p.spec_sent() == 0,
    {
        Pacer { per_pause: message_rate_per_sec / 10, sent: 0 }
    }

    /// Messages sent between two pauses.
    pub fn per_pause(&self) -> (n: usize)
        ensures
            n == self.spec_per_pause(),
    {
        self.per_pause
    }

    /// Whether a tenth of a second's worth of messages has been sent since the last pause.
    pub fn pause_due(&self) -> (due: bool)
        ensures
            due == (self.spec_sent() >= self.spec_per_pause()),
    {
        self.sent >= self.per_pause
    }

    /// Starts counting again after a pause.
    pub fn restart(&mut self)
        ensures
            final(self).spec_sent() == 0,
            final(self).spec_per_pause() == old(self).spec_per_pause(),
    {
        self.sent = 0;
    }

    /// Counts one more message sent.
    pub fn record_sent(&mut self)
        requires
            old(self).spec_sent() < usize::MAX,
        ensures
            final(self).spec_sent() == old(self).spec_sent() + 1,
            final(self).spec_per_pause() == old(self).spec_per_pause(),
    {
        self.sent = self.sent + 1;
    }
}

} // verus!
