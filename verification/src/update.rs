//! The clock: `update` drives the flushes, `check` says when the next
//! update is due.

use vstd::prelude::*;
use crate::clock::{spec_timediff, timediff};
use crate::flush::{flush_output, flush_state, lemma_flush_keeps_wf};
use crate::pack::datagrams;
use crate::segment::{SegmentView, views};
use crate::state::{KCP, KcpState};

verus! {

/// A clock that jumped by this many milliseconds or more, either way, is
/// taken as it is, and the flush schedule starts anew.
pub const SKEW_LIMIT: i32 = 10000;

/// The time of the next flush as an update at `current` finds it: `current`
/// on the first update and after a jump of the clock, else as the last
/// update left it.
pub open spec fn flush_time(s: KcpState, current: u32) -> u32 {
    let planned: u32 = if s.updated {
        s.ts_flush
    } else {
        current
    };
    let slap = spec_timediff(current, planned);
    if slap >= SKEW_LIMIT || slap <= -SKEW_LIMIT {
        current
    } else {
        planned
    }
}

/// Whether an update at `current` flushes: the time of the next flush has
/// come.
pub open spec fn flush_due(s: KcpState, current: u32) -> bool {
    spec_timediff(current, flush_time(s, current)) >= 0
}

/// The time of the flush after the one that is due at `current`: one
/// interval after the planned time, or after `current` where that is past
/// already.
pub open spec fn next_flush_time(s: KcpState, current: u32) -> u32 {
    let next = flush_time(s, current).wrapping_add(s.interval);
    if spec_timediff(current, next) >= 0 {
        current.wrapping_add(s.interval)
    } else {
        next
    }
}

/// The block with its clock set to `current` and its flush schedule
/// brought forward, before any flush.
pub open spec fn tick(s: KcpState, current: u32) -> KcpState {
    KcpState {
        current,
        updated: true,
        ts_flush: if flush_due(s, current) {
            next_flush_time(s, current)
        } else {
            flush_time(s, current)
        },
        ..s
    }
}

/// The block after an update at `current`.
pub open spec fn update_state(s: KcpState, current: u32) -> KcpState {
    if flush_due(s, current) {
        flush_state(tick(s, current))
    } else {
        tick(s, current)
    }
}

/// The datagrams that an update at `current` sends.
pub open spec fn update_output(s: KcpState, current: u32) -> Seq<Seq<u8>> {
    if flush_due(s, current) {
        flush_output(tick(s, current))
    } else {
        Seq::empty()
    }
}

/// The time left, at `current`, until the first segment of `buf` is to be
/// sent again: the smallest signed distance, or `u32::MAX` for an empty
/// buffer.
pub open spec fn earliest_resend(buf: Seq<SegmentView>, current: u32) -> int
    decreases buf.len(),
{
    if buf.len() == 0 {
        u32::MAX as int
    } else {
        let rest = earliest_resend(buf.drop_last(), current);
        let d = spec_timediff(buf.last().resendts, current);
        if d < rest {
            d
        } else {
            rest
        }
    }
}

/// The number of milliseconds after `current` at which the block next has
/// something to do: 0 where it was never updated, where a flush is due, or
/// where a segment is due to be sent again; else the time until the next
/// flush or the next retransmission, whichever is first, and one interval
/// at most.
pub open spec fn check_after(s: KcpState, current: u32) -> u32 {
    let skew = spec_timediff(current, s.ts_flush);
    let planned: u32 = if skew >= SKEW_LIMIT || skew <= -SKEW_LIMIT {
        current
    } else {
        s.ts_flush
    };
    let tm_flush = spec_timediff(planned, current);
    let tm_packet = earliest_resend(s.snd_buf, current);
    let first = if tm_packet < tm_flush {
        tm_packet
    } else {
        tm_flush
    };
    if !s.updated || spec_timediff(current, planned) >= 0 || tm_packet <= 0 {
        0
    } else if first < s.interval {
        first as u32
    } else {
        s.interval
    }
}

/// An update leaves a well-formed block well formed and with a congestion
/// window of at least one segment; it keeps what held of the receive
/// window, of the timeout and of the payloads, and delivers nothing.
pub proof fn lemma_update_keeps_wf(s: KcpState, current: u32)
    requires
        s.wf(),
    ensures
        update_state(s, current).wf(),
        s.window_open() ==> update_state(s, current).cwnd >= 1,
        s.keeps(update_state(s, current)),
        s.advances(update_state(s, current)),
        update_state(s, current).delivered() == s.delivered(),
{
    let t = tick(s, current);
    assert(t.wf());
    lemma_flush_keeps_wf(t);
    if !s.updated {
        assert(spec_timediff(current, current) == 0);
    }
}

impl KCP {
    /// Tells the block the time, in milliseconds, and lets it flush where
    /// a flush is due. Returns the datagrams to hand to the network. To be
    /// called every 10 to 100 ms, or when `check` says.
    pub fn update(&mut self, current: u32) -> (out: Vec<Vec<u8>>)
        requires
            old(self).wf(),
        ensures
            final(self).wf(),
            final(self)@ == update_state(old(self)@, current),
            datagrams(out@) == update_output(old(self)@, current),
            old(self)@.window_open() ==> final(self)@.cwnd >= 1,
            old(self)@.keeps(final(self)@),
            old(self)@.advances(final(self)@),
            final(self)@.delivered() == old(self)@.delivered(),
            old(self)@.payloads_fit_mss() ==> forall|i: int|
                0 <= i < out@.len() ==> 0 < (#[trigger] out@[i]).len() <= old(self)@.mtu,
    {
        proof {
            lemma_update_keeps_wf(self@, current);
        }
        self.current = current;
        if !self.updated {
            self.updated = true;
            self.ts_flush = current;
        }
        let mut slap: i32 = timediff(self.current, self.ts_flush);
        if slap >= SKEW_LIMIT || slap <= -SKEW_LIMIT {
            self.ts_flush = self.current;
            slap = 0;
            assert(spec_timediff(current, current) == 0);
        }
        if slap >= 0 {
            self.ts_flush = self.ts_flush.wrapping_add(self.interval);
            if timediff(self.current, self.ts_flush) >= 0 {
                self.ts_flush = self.current.wrapping_add(self.interval);
            }
            assert(self@ == tick(old(self)@, current));
            self.flush()
        } else {
            let out: Vec<Vec<u8>> = Vec::new();
            assert(datagrams(out@) =~= Seq::<Seq<u8>>::empty());
            out
        }
    }

    /// The number of milliseconds after `current` at which `update` should
    /// be called next, given that neither `send` nor `input` is called
    /// before.
    pub fn check(&self, current: u32) -> (wait: u32)
        ensures
            wait == check_after(self@, current),
    {
        if !self.updated {
            return 0;
        }
        let mut ts_flush: u32 = self.ts_flush;
        let skew: i32 = timediff(current, ts_flush);
        if skew >= SKEW_LIMIT || skew <= -SKEW_LIMIT {
            ts_flush = current;
        }
        if timediff(current, ts_flush) >= 0 {
            return 0;
        }
        let tm_flush: i32 = timediff(ts_flush, current);
        let ghost buf = views(self.snd_buf@);
        let n: usize = self.snd_buf.len();
        let mut i: usize = 0;
        let mut tm_packet: u32 = u32::MAX;
        proof {
            assert(buf.subrange(0, 0) =~= Seq::<SegmentView>::empty());
        }
        while i < n
            invariant
                n == self.snd_buf@.len(),
                buf == views(self.snd_buf@),
                0 <= i <= n,
                tm_packet > 0,
                tm_packet as int == earliest_resend(buf.subrange(0, i as int), current),
                self@.updated,
                self@.snd_buf == buf,
                check_after(self@, current) == (if earliest_resend(buf, current) <= 0 {
                    0
                } else if earliest_resend(buf, current) < tm_flush && earliest_resend(
                    buf,
                    current,
                ) < self@.interval {
                    earliest_resend(buf, current) as u32
                } else if tm_flush < self@.interval {
                    tm_flush as u32
                } else {
                    self@.interval
                }),
            decreases n - i,
        {
            let diff: i32 = timediff(self.snd_buf[i].resendts, current);
            proof {
                assert(buf[i as int] == self.snd_buf@[i as int]@);
                assert(buf.subrange(0, i + 1).drop_last() =~= buf.subrange(0, i as int));
                assert(buf.subrange(0, i + 1).last() == buf[i as int]);
            }
            if diff <= 0 {
                proof {
                    lemma_earliest_resend_prefix(buf, i + 1, current);
                }
                return 0;
            }
            if (diff as u32) < tm_packet {
                tm_packet = diff as u32;
            }
            i += 1;
        }
        proof {
            assert(buf.subrange(0, n as int) =~= buf);
        }
        let first: u32 = if tm_packet < tm_flush as u32 {
            tm_packet
        } else {
            tm_flush as u32
        };
        if first < self.interval {
            first
        } else {
            self.interval
        }
    }
}

/// The earliest retransmission of a buffer is no later than that of any
/// front part of it.
pub proof fn lemma_earliest_resend_prefix(buf: Seq<SegmentView>, k: int, current: u32)
    requires
        0 <= k <= buf.len(),
    ensures
        earliest_resend(buf, current) <= earliest_resend(buf.subrange(0, k), current),
    decreases buf.len() - k,
{
    if k < buf.len() {
        lemma_earliest_resend_prefix(buf, k + 1, current);
        assert(buf.subrange(0, k + 1).drop_last() =~= buf.subrange(0, k));
    } else {
        assert(buf.subrange(0, k) =~= buf);
    }
}

} // verus!
