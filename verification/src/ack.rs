//! What an incoming header does to the send side: the round-trip estimate,
//! the cumulative and the selective acknowledgement, the fast-retransmit
//! counters and the congestion window.

use vstd::prelude::*;
use std::collections::VecDeque;
use crate::clock::{bound, spec_bound};
use crate::flush::sat32;
use crate::segment::{Segment, SegmentView, lemma_rank, rank, sn_ascending, views};
use crate::state::{KCP, KcpState, RTO_MAX};

verus! {

/// The estimator after a round trip of `rtt` milliseconds was measured. The
/// first sample sets the smoothed round trip to `rtt` and its deviation to
/// half of it; later samples move the deviation a quarter and the smoothed
/// round trip an eighth of the way, and never let the latter fall below 1.
/// The timeout is the smoothed round trip plus the larger of the flush
/// interval and four deviations, kept within `[rx_minrto, RTO_MAX]`.
pub open spec fn update_ack(s: KcpState, rtt: u32) -> KcpState {
    let first: bool = s.rx_srtt == 0;
    let delta: int = if rtt > s.rx_srtt {
        rtt - s.rx_srtt
    } else {
        s.rx_srtt - rtt
    };
    let rttval: int = if first {
        rtt as int / 2
    } else {
        (3 * s.rx_rttval + delta) / 4
    };
    let smoothed: int = (7 * s.rx_srtt + rtt) / 8;
    let srtt: int = if first {
        rtt as int
    } else if smoothed < 1 {
        1
    } else {
        smoothed
    };
    let wait: int = if s.interval > 4 * rttval {
        s.interval as int
    } else {
        4 * rttval
    };
    KcpState {
        rx_srtt: srtt as u32,
        rx_rttval: rttval as u32,
        rx_rto: spec_bound(s.rx_minrto as int, srtt + wait, RTO_MAX as int) as u32,
        ..s
    }
}

/// The block with `snd_una` brought up to date: the first sequence number
/// in flight, or `snd_nxt` where nothing is.
pub open spec fn shrink(s: KcpState) -> KcpState {
    KcpState {
        snd_una: if s.snd_buf.len() > 0 {
            s.snd_buf[0].sn
        } else {
            s.snd_nxt
        },
        ..s
    }
}

/// The block after the peer said that it has everything below `una`: those
/// segments leave the send buffer.
pub open spec fn parse_una(s: KcpState, una: u32) -> KcpState {
    KcpState { snd_buf: s.snd_buf.subrange(rank(s.snd_buf, una), s.snd_buf.len() as int), ..s }
}

/// The block after the peer acknowledged `sn`: where `sn` is in flight,
/// its segment leaves the send buffer.
pub open spec fn parse_ack(s: KcpState, sn: u32) -> KcpState {
    let i = rank(s.snd_buf, sn);
    if sn < s.snd_una || sn >= s.snd_nxt {
        s
    } else if i < s.snd_buf.len() && s.snd_buf[i].sn == sn {
        KcpState { snd_buf: s.snd_buf.remove(i), ..s }
    } else {
        s
    }
}

/// A segment that was passed over once more by an acknowledgement.
pub open spec fn skipped(seg: SegmentView) -> SegmentView {
    SegmentView { fastack: sat32(seg.fastack + 1), ..seg }
}

/// The send buffer after `sn` was acknowledged: every segment below `sn`
/// has been passed over once more.
pub open spec fn count_skips(buf: Seq<SegmentView>, sn: u32) -> Seq<SegmentView> {
    Seq::new(
        buf.len(),
        |i: int|
            if buf[i].sn < sn {
                skipped(buf[i])
            } else {
                buf[i]
            },
    )
}

/// The block after the highest acknowledgement of a datagram was `sn`:
/// where `sn` lies within what was sent, every segment in flight below it
/// counts one more skip.
pub open spec fn parse_fastack(s: KcpState, sn: u32) -> KcpState {
    if sn < s.snd_una || sn >= s.snd_nxt {
        s
    } else {
        KcpState { snd_buf: count_skips(s.snd_buf, sn), ..s }
    }
}

/// The block after acknowledgements moved `snd_una` beyond `old_una`, while
/// the congestion window is below the peer's window. Below the slow-start
/// threshold the window grows by one segment; from the threshold on the
/// byte accumulator grows by `mss * mss / incr + mss / 16`, and the window
/// follows once the accumulator holds one segment more. The window never
/// exceeds the peer's.
pub open spec fn grow_window(s: KcpState, old_una: u32) -> KcpState {
    if s.snd_una > old_una && s.cwnd < s.rmt_wnd {
        let mss: int = s.mss as int;
        let base: int = if s.incr < mss {
            mss
        } else {
            s.incr as int
        };
        let grown: int = base + (mss * mss) / base + mss / 16;
        let slow: bool = s.cwnd < s.ssthresh;
        let incr: u32 = if slow {
            sat32(s.incr + mss)
        } else {
            sat32(grown)
        };
        let cwnd: u32 = if slow || (s.cwnd + 1) * mss <= incr {
            (s.cwnd + 1) as u32
        } else {
            s.cwnd
        };
        if cwnd > s.rmt_wnd {
            KcpState { cwnd: s.rmt_wnd, incr: sat32(s.rmt_wnd * mss), ..s }
        } else {
            KcpState { cwnd, incr, ..s }
        }
    } else {
        s
    }
}

/// Dropping a front part of the send buffer and bringing `snd_una` up to
/// date keeps the block well formed.
pub proof fn lemma_drop_front_keeps_wf(s: KcpState, k: int)
    requires
        s.wf(),
        0 <= k <= s.snd_buf.len(),
    ensures
        shrink(KcpState { snd_buf: s.snd_buf.subrange(k, s.snd_buf.len() as int), ..s }).wf(),
{
    let rest = s.snd_buf.subrange(k, s.snd_buf.len() as int);
    assert forall|i: int| 0 <= i < rest.len() implies rest[i] == s.snd_buf[i + k] by {}
    assert forall|i: int, j: int| 0 <= i < j < rest.len() implies rest[i].sn < rest[j].sn by {
        assert(rest[i] == s.snd_buf[i + k]);
        assert(rest[j] == s.snd_buf[j + k]);
    }
    let t = shrink(KcpState { snd_buf: rest, ..s });
    assert forall|i: int| 0 <= i < t.snd_buf.len() implies t.snd_una <= (#[trigger] t.snd_buf[i]).sn
        < t.snd_nxt && t.snd_buf[i].data.len() <= crate::state::spec_payload_max() by {
        assert(rest[i] == s.snd_buf[i + k]);
        if i > 0 {
            assert(rest[0].sn < rest[i].sn);
        }
    }
    if rest.len() > 0 {
        assert(rest[0] == s.snd_buf[k]);
    }
}

/// Taking one segment out of the send buffer and bringing `snd_una` up to
/// date keeps the block well formed.
pub proof fn lemma_remove_keeps_wf(s: KcpState, k: int)
    requires
        s.wf(),
        0 <= k < s.snd_buf.len(),
    ensures
        shrink(KcpState { snd_buf: s.snd_buf.remove(k), ..s }).wf(),
{
    let rest = s.snd_buf.remove(k);
    assert forall|i: int| 0 <= i < rest.len() implies rest[i] == (if i < k {
        s.snd_buf[i]
    } else {
        s.snd_buf[i + 1]
    }) by {}
    assert forall|i: int, j: int| 0 <= i < j < rest.len() implies rest[i].sn < rest[j].sn by {
        let a = if i < k {
            i
        } else {
            i + 1
        };
        let b = if j < k {
            j
        } else {
            j + 1
        };
        assert(rest[i] == s.snd_buf[a]);
        assert(rest[j] == s.snd_buf[b]);
    }
    let t = shrink(KcpState { snd_buf: rest, ..s });
    assert forall|i: int| 0 <= i < t.snd_buf.len() implies t.snd_una <= (#[trigger] t.snd_buf[i]).sn
        < t.snd_nxt && t.snd_buf[i].data.len() <= crate::state::spec_payload_max() by {
        let a = if i < k {
            i
        } else {
            i + 1
        };
        assert(rest[i] == s.snd_buf[a]);
        if i > 0 {
            assert(rest[0].sn < rest[i].sn);
        }
    }
    if rest.len() > 0 {
        let a = if 0 < k {
            0int
        } else {
            1int
        };
        assert(rest[0] == s.snd_buf[a]);
    }
}

/// The cumulative acknowledgement keeps the block well formed.
pub proof fn lemma_parse_una_keeps_wf(s: KcpState, una: u32)
    requires
        s.wf(),
    ensures
        shrink(parse_una(s, una)).wf(),
{
    lemma_rank(s.snd_buf, una);
    lemma_drop_front_keeps_wf(s, rank(s.snd_buf, una));
}

/// The selective acknowledgement keeps the block well formed.
pub proof fn lemma_parse_ack_keeps_wf(s: KcpState, sn: u32)
    requires
        s.wf(),
    ensures
        shrink(parse_ack(s, sn)).wf(),
{
    lemma_rank(s.snd_buf, sn);
    let i = rank(s.snd_buf, sn);
    if sn < s.snd_una || sn >= s.snd_nxt {
        assert(shrink(s) == s);
    } else if i < s.snd_buf.len() && s.snd_buf[i].sn == sn {
        lemma_remove_keeps_wf(s, i);
    } else {
        assert(shrink(s) == s);
    }
}

/// Counting skips keeps the block well formed.
pub proof fn lemma_parse_fastack_keeps_wf(s: KcpState, sn: u32)
    requires
        s.wf(),
    ensures
        parse_fastack(s, sn).wf(),
{
    let t = parse_fastack(s, sn);
    assert forall|i: int| 0 <= i < t.snd_buf.len() implies (#[trigger] t.snd_buf[i]).sn
        == s.snd_buf[i].sn && t.snd_buf[i].data == s.snd_buf[i].data by {}
    assert(sn_ascending(t.snd_buf));
}

/// An estimate keeps the block well formed and puts the timeout within
/// its bounds.
pub proof fn lemma_update_ack_keeps_wf(s: KcpState, rtt: u32)
    requires
        s.wf(),
    ensures
        update_ack(s, rtt).wf(),
        update_ack(s, rtt).rto_above_min(),
        s.keeps(update_ack(s, rtt)),
        s.advances(update_ack(s, rtt)),
        update_ack(s, rtt).delivered() == s.delivered(),
{
}

/// What the acknowledgements of a header do to the send side keeps what
/// held of the block, and delivers nothing.
pub proof fn lemma_acknowledged_keeps(s: KcpState, t: KcpState)
    requires
        s.wf(),
        t.wf(),
        t == (KcpState { snd_buf: t.snd_buf, snd_una: t.snd_una, ..s }),
        forall|i: int|
            0 <= i < t.snd_buf.len() ==> exists|j: int|
                0 <= j < s.snd_buf.len() && s.snd_buf[j].data == (#[trigger] t.snd_buf[i]).data
                    && s.snd_buf[j].sn == t.snd_buf[i].sn,
    ensures
        s.keeps(t),
        s.advances(t),
        t.delivered() == s.delivered(),
{
    if t.snd_buf.len() > 0 {
        let j = choose|j: int|
            0 <= j < s.snd_buf.len() && s.snd_buf[j].data == t.snd_buf[0].data && s.snd_buf[j].sn
                == t.snd_buf[0].sn;
        assert(s.snd_una <= s.snd_buf[j].sn);
    }
    if s.payloads_fit_mss() {
        assert forall|i: int| 0 <= i < t.snd_buf.len() implies (#[trigger] t.snd_buf[i]).data.len()
            <= t.mss by {
            let j = choose|j: int|
                0 <= j < s.snd_buf.len() && s.snd_buf[j].data == t.snd_buf[i].data
                    && s.snd_buf[j].sn == t.snd_buf[i].sn;
            assert(s.snd_buf[j].data.len() <= s.mss);
        }
    }
}

/// The cumulative acknowledgement keeps what held of the block.
pub proof fn lemma_parse_una_keeps(s: KcpState, una: u32)
    requires
        s.wf(),
    ensures
        shrink(parse_una(s, una)).wf(),
        s.keeps(shrink(parse_una(s, una))),
        s.advances(shrink(parse_una(s, una))),
        shrink(parse_una(s, una)).delivered() == s.delivered(),
{
    lemma_parse_una_keeps_wf(s, una);
    lemma_rank(s.snd_buf, una);
    let t = shrink(parse_una(s, una));
    let k = rank(s.snd_buf, una);
    assert forall|i: int| 0 <= i < t.snd_buf.len() implies exists|j: int|
        0 <= j < s.snd_buf.len() && s.snd_buf[j].data == (#[trigger] t.snd_buf[i]).data
            && s.snd_buf[j].sn == t.snd_buf[i].sn by {
        assert(s.snd_buf[i + k].data == t.snd_buf[i].data);
    }
    lemma_acknowledged_keeps(s, t);
}

/// The selective acknowledgement keeps what held of the block.
pub proof fn lemma_parse_ack_keeps(s: KcpState, sn: u32)
    requires
        s.wf(),
    ensures
        shrink(parse_ack(s, sn)).wf(),
        s.keeps(shrink(parse_ack(s, sn))),
        s.advances(shrink(parse_ack(s, sn))),
        shrink(parse_ack(s, sn)).delivered() == s.delivered(),
{
    lemma_parse_ack_keeps_wf(s, sn);
    lemma_rank(s.snd_buf, sn);
    let t = shrink(parse_ack(s, sn));
    let k = rank(s.snd_buf, sn);
    assert forall|i: int| 0 <= i < t.snd_buf.len() implies exists|j: int|
        0 <= j < s.snd_buf.len() && s.snd_buf[j].data == (#[trigger] t.snd_buf[i]).data
            && s.snd_buf[j].sn == t.snd_buf[i].sn by {
        if t.snd_buf == s.snd_buf {
            assert(s.snd_buf[i].data == t.snd_buf[i].data);
        } else if i < k {
            assert(s.snd_buf[i].data == t.snd_buf[i].data);
        } else {
            assert(s.snd_buf[i + 1].data == t.snd_buf[i].data);
        }
    }
    lemma_acknowledged_keeps(s, t);
}

/// Counting skips keeps what held of the block.
pub proof fn lemma_parse_fastack_keeps(s: KcpState, sn: u32)
    requires
        s.wf(),
    ensures
        parse_fastack(s, sn).wf(),
        s.keeps(parse_fastack(s, sn)),
        s.advances(parse_fastack(s, sn)),
        parse_fastack(s, sn).delivered() == s.delivered(),
{
    lemma_parse_fastack_keeps_wf(s, sn);
    let t = parse_fastack(s, sn);
    assert forall|i: int| 0 <= i < t.snd_buf.len() implies exists|j: int|
        0 <= j < s.snd_buf.len() && s.snd_buf[j].data == (#[trigger] t.snd_buf[i]).data
            && s.snd_buf[j].sn == t.snd_buf[i].sn by {
        assert(s.snd_buf[i].data == t.snd_buf[i].data);
    }
    assert(t.snd_una == s.snd_una);
    lemma_acknowledged_keeps(s, t);
}

/// Opening the congestion window keeps the block well formed and what held
/// of it, and never shuts the window.
pub proof fn lemma_grow_window_keeps(s: KcpState, old_una: u32)
    requires
        s.wf(),
    ensures
        grow_window(s, old_una).wf(),
        s.keeps(grow_window(s, old_una)),
        s.advances(grow_window(s, old_una)),
        grow_window(s, old_una).cwnd >= s.cwnd,
        grow_window(s, old_una).cwnd <= s.rmt_wnd || grow_window(s, old_una).cwnd == s.cwnd,
        grow_window(s, old_una).delivered() == s.delivered(),
{
}

/// Takes the segments below `una` off the front of the send buffer.
fn drop_acknowledged(buf: &mut VecDeque<Segment>, una: u32)
    ensures
        views(final(buf)@) == views(old(buf)@).subrange(
            rank(views(old(buf)@), una),
            old(buf)@.len() as int,
        ),
{
    let ghost before = views(buf@);
    let n: usize = buf.len();
    let mut index: usize = 0;
    proof {
        assert(before.subrange(0, n as int) =~= before);
    }
    while index < n && buf[index].sn < una
        invariant
            n == buf@.len(),
            before == views(buf@),
            0 <= index <= n,
            rank(before, una) == index + rank(before.subrange(index as int, n as int), una),
        ensures
            0 <= index <= n,
            rank(before, una) == index,
        decreases n - index,
    {
        proof {
            let rest = before.subrange(index as int, n as int);
            assert(rest[0] == before[index as int]);
            assert(rest.drop_first() =~= before.subrange(index + 1, n as int));
        }
        index += 1;
    }
    proof {
        if index < n {
            let rest = before.subrange(index as int, n as int);
            assert(rest[0] == before[index as int]);
        }
    }
    if index > 0 {
        let rest = buf.split_off(index);
        *buf = rest;
    }
    proof {
        assert(views(buf@) =~= before.subrange(index as int, n as int));
    }
}

/// Takes the segment numbered `sn` out of the send buffer, if it is there.
fn remove_acknowledged(buf: &mut VecDeque<Segment>, sn: u32)
    ensures
        ({
            let before = views(old(buf)@);
            let i = rank(before, sn);
            views(final(buf)@) == (if i < before.len() && before[i].sn == sn {
                before.remove(i)
            } else {
                before
            })
        }),
{
    let ghost before = views(buf@);
    let n: usize = buf.len();
    let mut index: usize = 0;
    proof {
        assert(before.subrange(0, n as int) =~= before);
    }
    while index < n && buf[index].sn < sn
        invariant
            n == buf@.len(),
            before == views(buf@),
            0 <= index <= n,
            rank(before, sn) == index + rank(before.subrange(index as int, n as int), sn),
        ensures
            0 <= index <= n,
            rank(before, sn) == index,
        decreases n - index,
    {
        proof {
            let rest = before.subrange(index as int, n as int);
            assert(rest[0] == before[index as int]);
            assert(rest.drop_first() =~= before.subrange(index + 1, n as int));
        }
        index += 1;
    }
    proof {
        if index < n {
            let rest = before.subrange(index as int, n as int);
            assert(rest[0] == before[index as int]);
        }
    }
    if index < n && buf[index].sn == sn {
        let _ = buf.remove(index);
        proof {
            assert(views(buf@) =~= before.remove(index as int));
        }
    }
}

/// Counts one more skip on every segment of the send buffer below `sn`.
/// Each segment is taken off the front and put back at the end, so that
/// after one pass the buffer stands in its order again.
fn count_skipped(buf: &mut VecDeque<Segment>, sn: u32)
    ensures
        views(final(buf)@) == count_skips(views(old(buf)@), sn),
{
    let ghost before = views(buf@);
    let n: usize = buf.len();
    let mut i: usize = 0;
    proof {
        assert(views(buf@) =~= before.subrange(0, n as int) + count_skips(
            before.subrange(0, 0),
            sn,
        ));
    }
    while i < n
        invariant
            n == before.len(),
            0 <= i <= n,
            views(buf@) == before.subrange(i as int, n as int) + count_skips(
                before.subrange(0, i as int),
                sn,
            ),
        decreases n - i,
    {
        let ghost rotated = buf@;
        proof {
            assert(views(rotated).len() == n);
            assert(views(rotated)[0] == before[i as int]);
        }
        let front = buf.pop_front();
        match front {
            Some(mut seg) => {
                if seg.sn < sn {
                    seg.fastack = seg.fastack.saturating_add(1);
                }
                let ghost counted = seg@;
                buf.push_back(seg);
                proof {
                    let done = before.subrange(0, i as int);
                    let next = before.subrange(0, i + 1);
                    assert(views(buf@) =~= before.subrange(i + 1, n as int) + count_skips(
                        next,
                        sn,
                    )) by {
                        assert forall|k: int| 0 <= k < n implies views(buf@)[k] == (
                        before.subrange(i + 1, n as int) + count_skips(next, sn))[k] by {
                            if k < n - i - 1 {
                                assert(views(buf@)[k] == views(rotated)[k + 1]);
                            } else if k < n - 1 {
                                assert(views(buf@)[k] == views(rotated)[k + 1]);
                                assert(count_skips(next, sn)[k - (n - i - 1)] == count_skips(
                                    done,
                                    sn,
                                )[k - (n - i - 1)]);
                            } else {
                                assert(views(buf@)[k] == counted);
                            }
                        }
                    }
                }
            },
            None => {},
        }
        i += 1;
    }
    proof {
        assert(before.subrange(0, n as int) =~= before);
        assert(views(buf@) =~= count_skips(before, sn));
    }
}

impl KCP {
    /// Feeds one round-trip sample to the estimator.
    pub(crate) fn update_ack(&mut self, rtt: u32)
        requires
            old(self)@.wf(),
        ensures
            final(self)@ == update_ack(old(self)@, rtt),
            final(self)@.wf(),
            final(self)@.rto_above_min(),
            final(self).scratch() == old(self).scratch(),
    {
        let sample: u64 = rtt as u64;
        if self.rx_srtt == 0 {
            self.rx_srtt = rtt;
            self.rx_rttval = rtt / 2;
        } else {
            let srtt: u64 = self.rx_srtt as u64;
            let delta: u64 = if sample > srtt {
                sample - srtt
            } else {
                srtt - sample
            };
            let rttval: u64 = (3 * (self.rx_rttval as u64) + delta) / 4;
            let smoothed: u64 = (7 * srtt + sample) / 8;
            self.rx_rttval = rttval as u32;
            self.rx_srtt = if smoothed < 1 {
                1
            } else {
                smoothed as u32
            };
        }
        let spread: u64 = 4 * (self.rx_rttval as u64);
        let wait: u64 = if (self.interval as u64) > spread {
            self.interval as u64
        } else {
            spread
        };
        let rto: u64 = self.rx_srtt as u64 + wait;
        let capped: u32 = if rto > u32::MAX as u64 {
            u32::MAX
        } else {
            rto as u32
        };
        self.rx_rto = bound(self.rx_minrto, capped, RTO_MAX);
    }

    /// Brings `snd_una` up to date.
    pub(crate) fn shrink_buf(&mut self)
        ensures
            final(self)@ == shrink(old(self)@),
            final(self).scratch() == old(self).scratch(),
    {
        self.snd_una = if self.snd_buf.len() > 0 {
            self.snd_buf[0].sn
        } else {
            self.snd_nxt
        };
    }

    /// Takes the segments that the peer has, all those below `una`, out of
    /// the send buffer.
    pub(crate) fn parse_una(&mut self, una: u32)
        ensures
            final(self)@ == parse_una(old(self)@, una),
            final(self).scratch() == old(self).scratch(),
    {
        drop_acknowledged(&mut self.snd_buf, una);
    }

    /// Takes the segment that the peer acknowledged out of the send buffer.
    pub(crate) fn parse_ack(&mut self, sn: u32)
        ensures
            final(self)@ == parse_ack(old(self)@, sn),
            final(self).scratch() == old(self).scratch(),
    {
        if sn < self.snd_una || sn >= self.snd_nxt {
            return ;
        }
        remove_acknowledged(&mut self.snd_buf, sn);
    }

    /// Counts one more skip on the segments in flight below `sn`.
    pub(crate) fn parse_fastack(&mut self, sn: u32)
        ensures
            final(self)@ == parse_fastack(old(self)@, sn),
            final(self).scratch() == old(self).scratch(),
    {
        if sn < self.snd_una || sn >= self.snd_nxt {
            return ;
        }
        count_skipped(&mut self.snd_buf, sn);
    }

    /// Opens the congestion window after `snd_una` moved beyond `old_una`.
    pub(crate) fn grow_window(&mut self, old_una: u32)
        requires
            old(self)@.wf(),
        ensures
            final(self)@ == grow_window(old(self)@, old_una),
            final(self)@.wf(),
            final(self).scratch() == old(self).scratch(),
    {
        if self.snd_una > old_una && self.cwnd < self.rmt_wnd {
            let mss: u64 = self.mss as u64;
            if self.cwnd < self.ssthresh {
                self.cwnd = self.cwnd + 1;
                let sum: u64 = self.incr as u64 + mss;
                self.incr = if sum > u32::MAX as u64 {
                    u32::MAX
                } else {
                    sum as u32
                };
            } else {
                let base: u64 = if (self.incr as u64) < mss {
                    mss
                } else {
                    self.incr as u64
                };
                assert(mss * mss <= 0xffff_ffff * 0xffff_ffff) by (nonlinear_arith)
                    requires
                        mss <= 0xffff_ffff,
                ;
                let square: u64 = mss * mss;
                let grown: u64 = base + square / base + mss / 16;
                self.incr = if grown > u32::MAX as u64 {
                    u32::MAX
                } else {
                    grown as u32
                };
                assert((self.cwnd as u64 + 1) * mss <= 0x1_0000 * 0xffff_ffff) by (nonlinear_arith)
                    requires
                        self.cwnd < 0xffff,
                        mss <= 0xffff_ffff,
                ;
                if (self.cwnd as u64 + 1) * mss <= self.incr as u64 {
                    self.cwnd = self.cwnd + 1;
                }
            }
            if self.cwnd > self.rmt_wnd {
                self.cwnd = self.rmt_wnd;
                assert(self.rmt_wnd as u64 * mss <= 0x1_0000 * 0xffff_ffff) by (nonlinear_arith)
                    requires
                        self.rmt_wnd <= 0xffff,
                        mss <= 0xffff_ffff,
                ;
                let bytes: u64 = self.rmt_wnd as u64 * mss;
                self.incr = if bytes > u32::MAX as u64 {
                    u32::MAX
                } else {
                    bytes as u32
                };
            }
        }
    }
}

} // verus!
