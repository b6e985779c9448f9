//! What a block tells of its state.

use vstd::prelude::*;
use std::collections::VecDeque;
use crate::segment::{Segment, SegmentView, views};
use crate::state::KCP;

verus! {

/// The sequence numbers of the segments of `q`, in order.
pub open spec fn sns(q: Seq<SegmentView>) -> Seq<u32> {
    Seq::new(q.len(), |i: int| q[i].sn)
}

/// The skip counters of the segments of `q`, in order.
pub open spec fn fastacks(q: Seq<SegmentView>) -> Seq<u32> {
    Seq::new(q.len(), |i: int| q[i].fastack)
}

/// The sequence numbers of the segments of a queue.
fn collect_sns(queue: &VecDeque<Segment>) -> (out: Vec<u32>)
    ensures
        out@ == sns(views(queue@)),
{
    let n: usize = queue.len();
    let mut out: Vec<u32> = Vec::new();
    let mut i: usize = 0;
    while i < n
        invariant
            n == queue@.len(),
            0 <= i <= n,
            out@ == sns(views(queue@)).subrange(0, i as int),
        decreases n - i,
    {
        out.push(queue[i].sn);
        proof {
            assert(out@ =~= sns(views(queue@)).subrange(0, i + 1));
        }
        i += 1;
    }
    proof {
        assert(out@ =~= sns(views(queue@)));
    }
    out
}

impl KCP {
    /// The conversation that the block belongs to.
    pub fn conv(&self) -> (v: u32)
        ensures
            v == self@.conv,
    {
        self.conv
    }

    /// The largest datagram that the block sends.
    pub fn mtu(&self) -> (v: usize)
        ensures
            v == self@.mtu,
    {
        self.mtu
    }

    /// The largest payload of a segment: the MTU less the header.
    pub fn mss(&self) -> (v: usize)
        ensures
            v == self@.mss,
    {
        self.mss
    }

    /// The first sequence number that the peer has not acknowledged.
    pub fn snd_una(&self) -> (v: u32)
        ensures
            v == self@.snd_una,
    {
        self.snd_una
    }

    /// The sequence number that the next segment sent will get.
    pub fn snd_nxt(&self) -> (v: u32)
        ensures
            v == self@.snd_nxt,
    {
        self.snd_nxt
    }

    /// The sequence number that the receive queue takes next.
    pub fn rcv_nxt(&self) -> (v: u32)
        ensures
            v == self@.rcv_nxt,
    {
        self.rcv_nxt
    }

    /// The congestion window, in segments.
    pub fn cwnd(&self) -> (v: u32)
        ensures
            v == self@.cwnd,
    {
        self.cwnd
    }

    /// The slow-start threshold, in segments.
    pub fn ssthresh(&self) -> (v: u32)
        ensures
            v == self@.ssthresh,
    {
        self.ssthresh
    }

    /// The window that the peer advertised last, in segments.
    pub fn rmt_wnd(&self) -> (v: u32)
        ensures
            v == self@.rmt_wnd,
    {
        self.rmt_wnd
    }

    /// The smoothed round-trip time, in milliseconds; zero before the
    /// first sample.
    pub fn rx_srtt(&self) -> (v: u32)
        ensures
            v == self@.rx_srtt,
    {
        self.rx_srtt
    }

    /// The retransmission timeout, in milliseconds.
    pub fn rx_rto(&self) -> (v: u32)
        ensures
            v == self@.rx_rto,
    {
        self.rx_rto
    }

    /// The lowest retransmission timeout that an estimate can give.
    pub fn rx_minrto(&self) -> (v: u32)
        ensures
            v == self@.rx_minrto,
    {
        self.rx_minrto
    }

    /// The flush interval, in milliseconds.
    pub fn interval(&self) -> (v: u32)
        ensures
            v == self@.interval,
    {
        self.interval
    }

    /// The wait between two window questions, in milliseconds; zero while
    /// the peer's window is open.
    pub fn probe_wait(&self) -> (v: u32)
        ensures
            v == self@.probe_wait,
    {
        self.probe_wait
    }

    /// The number of retransmissions after a timeout so far.
    pub fn xmit(&self) -> (v: u32)
        ensures
            v == self@.xmit,
    {
        self.xmit
    }

    /// The number of sequence numbers that the block can still give out.
    /// Sequence numbers do not wrap. Once none is left, `flush` sends again
    /// what is in flight and moves nothing more from the send queue to the
    /// wire: the conversation is used up, `waitsnd` stays above what is in
    /// flight, and whoever sends over the block has to open another
    /// conversation for what is left.
    pub fn numbers_left(&self) -> (v: u32)
        ensures
            v == self@.numbers_left(),
    {
        u32::MAX - self.snd_nxt
    }

    /// The number of segments that wait in the send queue.
    pub fn snd_queue_len(&self) -> (n: usize)
        ensures
            n == self@.snd_queue.len(),
    {
        self.snd_queue.len()
    }

    /// The sequence numbers in flight, in order.
    pub fn snd_buf_sns(&self) -> (out: Vec<u32>)
        ensures
            out@ == sns(self@.snd_buf),
    {
        collect_sns(&self.snd_buf)
    }

    /// The sequence numbers that arrived out of order and wait for those
    /// before them, in order.
    pub fn rcv_buf_sns(&self) -> (out: Vec<u32>)
        ensures
            out@ == sns(self@.rcv_buf),
    {
        collect_sns(&self.rcv_buf)
    }

    /// The sequence numbers that wait for the application, in order.
    pub fn rcv_queue_sns(&self) -> (out: Vec<u32>)
        ensures
            out@ == sns(self@.rcv_queue),
    {
        collect_sns(&self.rcv_queue)
    }

    /// The skip counters of the segments in flight, in order.
    pub fn snd_buf_fastacks(&self) -> (out: Vec<u32>)
        ensures
            out@ == fastacks(self@.snd_buf),
    {
        let n: usize = self.snd_buf.len();
        let mut out: Vec<u32> = Vec::new();
        let mut i: usize = 0;
        while i < n
            invariant
                n == self.snd_buf@.len(),
                0 <= i <= n,
                out@ == fastacks(views(self.snd_buf@)).subrange(0, i as int),
            decreases n - i,
        {
            out.push(self.snd_buf[i].fastack);
            proof {
                assert(out@ =~= fastacks(views(self.snd_buf@)).subrange(0, i + 1));
            }
            i += 1;
        }
        proof {
            assert(out@ =~= fastacks(self@.snd_buf));
        }
        out
    }
}

} // verus!
