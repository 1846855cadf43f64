//! Per-client counters that the server keeps while parsing each client's stream.

use vstd::prelude::*;

use crate::parse::{results_view, ParseResult, ResultModel};

verus! {

/// How many of `results` are complete messages.
pub open spec fn count_complete(results: Seq<ResultModel>) -> nat
    decreases results.len(),
{
    if results.len() == 0 {
        0
    } else {
        count_complete(results.drop_last()) + (if results.last() is Complete { 1nat } else { 0nat })
    }
}

/// How many of `results` are errors.
pub open spec fn count_errors(results: Seq<ResultModel>) -> nat
    decreases results.len(),
{
    if results.len() == 0 {
        0
    } else {
        count_errors(results.drop_last()) + (if results.last() is Error { 1nat } else { 0nat })
    }
}

proof fn lemma_counts_step(results: Seq<ResultModel>, i: int)
    requires
        0 <= i < results.len(),
    ensures
        count_complete(results.take(i + 1)) == count_complete(results.take(i)) + (if results[i] is Complete { 1nat } else { 0nat }),
        count_errors(results.take(i + 1)) == count_errors(results.take(i)) + (if results[i] is Error { 1nat } else { 0nat }),
{
    assert(results.take(i + 1).drop_last() =~= results.take(i));
}

proof fn lemma_counts_bounded(results: Seq<ResultModel>)
    ensures
        count_complete(results) <= results.len(),
        count_errors(results) <= results.len(),
    decreases results.len(),
{
    if results.len() > 0 {
        lemma_counts_bounded(results.drop_last());
    }
}

/// The results of two chunks hold as many complete messages, and as many errors, as each
/// chunk's results together: counting chunk by chunk counts the whole stream.
pub proof fn law_counts_concat(x: Seq<ResultModel>, y: Seq<ResultModel>)
    ensures
        count_complete(x + y) == count_complete(x) + count_complete(y),
        count_errors(x + y) == count_errors(x) + count_errors(y),
    decreases y.len(),
{
    if y.len() == 0 {
        assert(x + y =~= x);
    } else {
        law_counts_concat(x, y.drop_last());
        assert((x + y).drop_last() =~= x + y.drop_last());
    }
}

/// Statistics of one client connection.
#[derive(Debug)]
pub struct ClientStats {
    pub connected: bool,
    pub messages: usize,
    pub errors: usize,
    pub bytes: usize,
}

impl Default for ClientStats {
    /// A client that has just connected.
    fn default() -> (s: Self)
        ensures
            s.connected,
            s.messages == 0,
            s.errors == 0,
            s.bytes == 0,
    {
        ClientStats { connected: true, messages: 0, errors: 0, bytes: 0 }
    }
}

impl ClientStats {
    /// Whether recording a chunk of `n` bytes that parsed into `results` keeps every counter
    /// within `usize`.
    pub open spec fn can_record(&self, n: nat, results: Seq<ResultModel>) -> bool {
        &&& self.bytes + n <= usize::MAX
        &&& self.messages + count_complete(results) <= usize::MAX
        &&& self.errors + count_errors(results) <= usize::MAX
    }

    /// Counts the complete messages and the errors among `results`.
    fn tally(results: &[ParseResult]) -> (counts: (usize, usize))
        ensures
            counts.0 == count_complete(results_view(results@)),
            counts.1 == count_errors(results_view(results@)),
    {
        let ghost view = results_view(results@);
        let mut messages: usize = 0;
        let mut errors: usize = 0;
        let mut i: usize = 0;
        proof {
            lemma_counts_bounded(view);
            assert(view.take(0) =~= Seq::<ResultModel>::empty());
        }
        while i < results.len()
            invariant
                i <= results.len(),
                view == results_view(results@),
                view.len() == results.len(),
                messages == count_complete(view.take(i as int)),
                errors == count_errors(view.take(i as int)),
            decreases results.len() - i,
        {
            proof {
                lemma_counts_step(view, i as int);
                lemma_counts_bounded(view.take(i + 1));
            }
            match &results[i] {
                ParseResult::Complete(_) => messages = messages + 1,
                ParseResult::Error(_) => errors = errors + 1,
                ParseResult::Partial => {},
            }
            i = i + 1;
        }
        proof {
            assert(view.take(results.len() as int) =~= view);
        }
        (messages, errors)
    }

    /// Whether a chunk of `n` bytes that parsed into `results` can be recorded.
    pub fn fits(&self, n: usize, results: &[ParseResult]) -> (b: bool)
        ensures
            b == self.can_record(n as nat, results_view(results@)),
    {
        let (messages, errors) = Self::tally(results);
        self.bytes.checked_add(n).is_some() && self.messages.checked_add(messages).is_some()
            && self.errors.checked_add(errors).is_some()
    }

    /// Records a chunk of `n` bytes read from the client and the results it parsed into:
    /// complete messages and errors are counted, partial markers are not.
    pub fn record(&mut self, n: usize, results: &[ParseResult])
        requires
            old(self).can_record(n as nat, results_view(results@)),
        ensures
            final(self).connected == old(self).connected,
            final(self).bytes == old(self).bytes + n,
            final(self).messages == old(self).messages + count_complete(results_view(results@)),
            final(self).errors == old(self).errors + count_errors(results_view(results@)),
    {
        let (messages, errors) = Self::tally(results);
        self.bytes = self.bytes + n;
        self.messages = self.messages + messages;
        self.errors = self.errors + errors;
    }

    /// Marks the client as disconnected, keeping its counters.
    pub fn disconnect(&mut self)
        ensures
            !final(self).connected,
            final(self).messages == old(self).messages,
            final(self).errors == old(self).errors,
            final(self).bytes == old(self).bytes,
    {
        self.connected = false;
    }
}

} // verus!
