//! A source that sends its messages at a steady pace.

use crate::ids::SourceId;
use crate::network::SourceTrace;
use vstd::prelude::*;

verus! {

/// A source that waits for `start_offset`, and then sends
/// `number_of_messages` messages, one every `inter_message_delay`. Both
/// durations are counts of nanoseconds.
pub struct Source {
    number_of_messages: u64,
    inter_message_delay: i128,
    start_offset: i128,
}

impl Source {
    /// The number of messages that the source sends.
    pub closed spec fn messages(&self) -> u64 {
        self.number_of_messages
    }

    /// The time between two messages.
    pub closed spec fn pace(&self) -> i128 {
        self.inter_message_delay
    }

    /// The time before the first interval.
    pub closed spec fn offset(&self) -> i128 {
        self.start_offset
    }

    /// The time at which message `i` is sent, counted from 0.
    pub open spec fn send_time(&self, i: int) -> int {
        self.offset() + (i + 1) * self.pace()
    }

    pub fn new(number_of_messages: u64, inter_message_delay: i128, start_offset: i128) -> (s:
        Source)
        ensures
            s.messages() == number_of_messages,
            s.pace() == inter_message_delay,
            s.offset() == start_offset,
    {
        Source { number_of_messages, inter_message_delay, start_offset }
    }

    /// The times at which the source sends its messages, as the trace of the
    /// source with the ID `source_id`.
    pub fn gen_source_trace(&mut self, source_id: SourceId) -> (r: SourceTrace)
        requires
            i128::MIN <= old(self).send_time(old(self).messages() - 1) <= i128::MAX,
        ensures
            *final(self) == *old(self),
            r.source_id == source_id,
            r.timestamps@.len() == old(self).messages(),
            forall|i: int|
                0 <= i < old(self).messages() ==> (#[trigger] r.timestamps@[i]) == old(
                    self,
                ).send_time(i),
    {
        let mut timestamps: Vec<i128> = Vec::new();
        let mut time: i128 = self.start_offset;
        let mut k: u64 = 0;
        let n: u64 = self.number_of_messages;
        let pace: i128 = self.inter_message_delay;
        let start: i128 = self.start_offset;
        while k < n
            invariant
                k <= n,
                i128::MIN <= start + n * pace <= i128::MAX,
                time == start + k * pace,
                timestamps@.len() == k,
                forall|i: int|
                    0 <= i < k ==> (#[trigger] timestamps@[i]) == start + (i + 1) * pace,
            decreases n - k,
        {
            proof {
                lemma_between(start as int, pace as int, k as int + 1, n as int);
                assert(start + (k + 1) * pace == time + pace) by (nonlinear_arith)
                    requires
                        time == start + k * pace,
                ;
            }
            time = time + pace;
            timestamps.push(time);
            k += 1;
        }
        SourceTrace { source_id, timestamps }
    }
}

/// A value on the way from `start` to `start + n * step` lies between them.
proof fn lemma_between(start: int, step: int, k: int, n: int)
    requires
        0 <= k <= n,
        i128::MIN <= start <= i128::MAX,
        i128::MIN <= start + n * step <= i128::MAX,
    ensures
        i128::MIN <= start + k * step <= i128::MAX,
{
    if step >= 0 {
        assert(0 <= k * step <= n * step) by (nonlinear_arith)
            requires
                0 <= k <= n,
                step >= 0,
        ;
    } else {
        assert(n * step <= k * step <= 0) by (nonlinear_arith)
            requires
                0 <= k <= n,
                step < 0,
        ;
    }
}

} // verus!
