//! The control block and its mathematical model.

use vstd::prelude::*;
use bytes::BytesMut;
use std::collections::VecDeque;
use crate::scratch::buf_bytes;
use crate::segment::{Segment, SegmentView, sn_ascending, views};
use crate::wire::{CMD_PUSH, OVERHEAD};

verus! {

/// Lowest retransmission timeout in no-delay mode, in milliseconds.
pub const RTO_NDL: u32 = 30;

/// Lowest retransmission timeout in normal mode.
pub const RTO_MIN: u32 = 100;

/// Retransmission timeout before the first round-trip sample.
pub const RTO_DEF: u32 = 200;

/// Highest retransmission timeout.
pub const RTO_MAX: u32 = 60000;

/// Probe bit: a window question is due.
pub const ASK_SEND: u32 = 1;

/// Probe bit: a window announcement is due.
pub const ASK_TELL: u32 = 2;

/// Send window of a new block, in segments.
pub const WND_SND: u32 = 32;

/// Receive window of a new block, in segments.
pub const WND_RCV: u32 = 32;

/// MTU of a new block.
pub const MTU_DEF: usize = 1400;

/// The largest MTU that the machine and the wire allow. The scratch buffer
/// holds three datagrams and a header each, and a buffer that grows does so
/// by doubling: six times the MTU and its header must stay within
/// `isize::MAX`, the most that can be allocated. And the payload of a
/// segment, the MTU less the header, must be a length that the 32-bit
/// field of the header can carry.
pub open spec fn spec_mtu_max() -> int {
    let room: int = isize::MAX as int / 6 - OVERHEAD as int;
    let wire: int = u32::MAX as int + OVERHEAD as int;
    if room < wire {
        room
    } else {
        wire
    }
}

/// The longest payload that a segment of the send side can carry: the
/// largest MTU less the header.
pub open spec fn spec_payload_max() -> int {
    spec_mtu_max() - OVERHEAD as int
}

/// The largest MTU that `setmtu` can be asked for on this machine.
pub fn mtu_max() -> (m: usize)
    ensures
        m == spec_mtu_max(),
        m >= 0x1000_0000,
{
    let most: usize = isize::MAX as usize;
    let room: usize = most / 6 - OVERHEAD;
    let wire: u64 = u32::MAX as u64 + OVERHEAD as u64;
    if (room as u64) < wire {
        room
    } else {
        wire as usize
    }
}

/// Flush interval of a new block, in milliseconds.
pub const INTERVAL: u32 = 100;

/// Slow-start threshold of a new block.
pub const THRESH_INIT: u32 = 2;

/// Lowest slow-start threshold.
pub const THRESH_MIN: u32 = 2;

/// First wait before the peer is asked for its window, in milliseconds.
pub const PROBE_INIT: u32 = 7000;

/// Longest wait between two window questions.
pub const PROBE_LIMIT: u32 = 120000;

/// Why an operation on a control block failed.
#[derive(Clone, Copy, Debug, PartialEq, Eq, Structural)]
pub enum KcpError {
    /// `recv`: no segment waits for delivery.
    RecvQueueEmpty,
    /// `recv`: fragments of the next message are still missing.
    Incomplete,
    /// `recv`: the next message is longer than the buffer offered.
    ShortBuffer,
    /// `send`: zero bytes were handed over.
    NoData,
    /// `send`: the message needs more than 255 fragments.
    DataTooLong,
    /// `input`: a header is cut short, names another conversation or an
    /// unknown command.
    InvalidData,
    /// `input`: a header announces more payload than the datagram holds.
    UnexpectedEof,
}

/// The state of a control block as mathematics: every field by its value,
/// every queue as a sequence of segment views.
pub ghost struct KcpState {
    pub conv: u32,
    pub mtu: usize,
    pub mss: usize,
    pub snd_una: u32,
    pub snd_nxt: u32,
    pub rcv_nxt: u32,
    pub ssthresh: u32,
    pub rx_rttval: u32,
    pub rx_srtt: u32,
    pub rx_rto: u32,
    pub rx_minrto: u32,
    pub snd_wnd: u32,
    pub rcv_wnd: u32,
    pub rmt_wnd: u32,
    pub cwnd: u32,
    pub probe: u32,
    pub current: u32,
    pub interval: u32,
    pub ts_flush: u32,
    pub xmit: u32,
    pub nodelay: u32,
    pub updated: bool,
    pub ts_probe: u32,
    pub probe_wait: u32,
    pub incr: u32,
    pub snd_queue: Seq<SegmentView>,
    pub rcv_queue: Seq<SegmentView>,
    pub snd_buf: Seq<SegmentView>,
    pub rcv_buf: Seq<SegmentView>,
    pub acklist: Seq<(u32, u32)>,
    pub fastresend: u32,
    pub nocwnd: bool,
    pub stream: bool,
}

/// Whether every payload of `q` is at most `spec_payload_max()` bytes
/// long.
pub open spec fn payloads_bounded(q: Seq<SegmentView>) -> bool {
    forall|i: int| 0 <= i < q.len() ==> (#[trigger] q[i]).data.len() <= spec_payload_max()
}

/// Whether every segment of `q` is a data segment of the conversation
/// `conv`.
pub open spec fn stamped(q: Seq<SegmentView>, conv: u32) -> bool {
    forall|i: int| 0 <= i < q.len() ==> (#[trigger] q[i]).conv == conv && q[i].cmd == CMD_PUSH
}

impl KcpState {
    /// The send buffer holds the segments in flight: ascending, without
    /// duplicates, all within `[snd_una, snd_nxt)`, and `snd_una` is the
    /// first of them, or `snd_nxt` where none is in flight.
    pub open spec fn send_side_ordered(self) -> bool {
        &&& self.snd_una <= self.snd_nxt
        &&& sn_ascending(self.snd_buf)
        &&& forall|i: int|
            0 <= i < self.snd_buf.len() ==> self.snd_una <= (#[trigger] self.snd_buf[i]).sn
                < self.snd_nxt
        &&& self.snd_una == (if self.snd_buf.len() > 0 {
            self.snd_buf[0].sn
        } else {
            self.snd_nxt
        })
    }

    /// The receive buffer is ascending, without duplicates, and holds nothing
    /// below `rcv_nxt`; the receive queue holds the run of sequence numbers
    /// that ends just below `rcv_nxt`.
    pub open spec fn receive_side_ordered(self) -> bool {
        &&& sn_ascending(self.rcv_buf)
        &&& forall|i: int|
            0 <= i < self.rcv_buf.len() ==> (#[trigger] self.rcv_buf[i]).sn >= self.rcv_nxt
        &&& self.rcv_queue.len() <= self.rcv_nxt
        &&& forall|i: int|
            0 <= i < self.rcv_queue.len() ==> (#[trigger] self.rcv_queue[i]).sn == self.rcv_nxt
                - self.rcv_queue.len() + i
    }

    /// The settings and estimators are within their ranges.
    pub open spec fn settings_in_range(self) -> bool {
        &&& 50 <= self.mtu <= spec_mtu_max()
        &&& self.mss == self.mtu - OVERHEAD
        &&& self.ssthresh >= THRESH_MIN
        &&& RTO_NDL <= self.rx_rto <= RTO_MAX
        &&& (self.rx_minrto == RTO_NDL || self.rx_minrto == RTO_MIN)
        &&& 10 <= self.interval <= 5000
        &&& self.rmt_wnd <= 0xffff
        &&& self.probe_wait <= PROBE_LIMIT
        &&& self.fastresend <= i32::MAX
        &&& 1 <= self.snd_wnd <= i32::MAX
        &&& 1 <= self.rcv_wnd <= i32::MAX
    }

    /// What holds of a control block between any two operations.
    pub open spec fn wf(self) -> bool {
        &&& self.send_side_ordered()
        &&& self.receive_side_ordered()
        &&& self.settings_in_range()
        &&& payloads_bounded(self.snd_queue)
        &&& payloads_bounded(self.snd_buf)
        &&& stamped(self.snd_buf, self.conv)
    }

    /// Once the block has been updated for the first time, its congestion
    /// window is at least one segment.
    pub open spec fn window_open(self) -> bool {
        self.updated ==> self.cwnd >= 1
    }

    /// Every buffered segment lies within the receive window, and the
    /// receive queue is no longer than the window. A block keeps this until
    /// `wndsize` makes the receive window smaller than what is already held.
    pub open spec fn rcv_within_window(self) -> bool {
        &&& self.rcv_queue.len() <= self.rcv_wnd
        &&& forall|i: int|
            0 <= i < self.rcv_buf.len() ==> (#[trigger] self.rcv_buf[i]).sn < self.rcv_nxt
                + self.rcv_wnd
    }

    /// The retransmission timeout is at least the configured minimum. A
    /// block keeps this until `nodelay` raises the minimum above the timeout
    /// in force.
    pub open spec fn rto_above_min(self) -> bool {
        self.rx_minrto <= self.rx_rto
    }

    /// Every payload of the send side fits a datagram of the MTU in force. A
    /// block keeps this until `setmtu` lowers the MTU below a payload that
    /// is already queued.
    pub open spec fn payloads_fit_mss(self) -> bool {
        &&& forall|i: int|
            0 <= i < self.snd_queue.len() ==> (#[trigger] self.snd_queue[i]).data.len() <= self.mss
        &&& forall|i: int|
            0 <= i < self.snd_buf.len() ==> (#[trigger] self.snd_buf[i]).data.len() <= self.mss
    }

    /// The number of sequence numbers that the send side can still give
    /// out. Sequence numbers do not wrap: the last one, `u32::MAX`, is never
    /// given out, and a block that has none left sends what is in flight
    /// and takes nothing more from its send queue.
    pub open spec fn numbers_left(self) -> int {
        u32::MAX - self.snd_nxt
    }

    /// The number of segments handed to the application so far.
    pub open spec fn delivered(self) -> int {
        self.rcv_nxt - self.rcv_queue.len()
    }

    /// Whether `next` is no earlier than this state: no sequence number of
    /// either side has moved back, and nothing that was handed to the
    /// application has been taken back.
    pub open spec fn advances(self, next: KcpState) -> bool {
        &&& self.snd_una <= next.snd_una
        &&& self.snd_nxt <= next.snd_nxt
        &&& self.rcv_nxt <= next.rcv_nxt
        &&& self.delivered() <= next.delivered()
    }

    /// Whether `next` still has what this state has of the properties that
    /// a block holds from its making on, until a change of its settings
    /// takes one away: an open congestion window, a receive side within its
    /// window, a timeout above its minimum, payloads within the MSS.
    pub open spec fn keeps(self, next: KcpState) -> bool {
        &&& self.window_open() ==> next.window_open()
        &&& self.rcv_within_window() ==> next.rcv_within_window()
        &&& self.rto_above_min() ==> next.rto_above_min()
        &&& self.payloads_fit_mss() ==> next.payloads_fit_mss()
    }
}

/// The control block of one connection.
pub struct KCP {
    pub(crate) conv: u32,
    pub(crate) mtu: usize,
    pub(crate) mss: usize,
    pub(crate) snd_una: u32,
    pub(crate) snd_nxt: u32,
    pub(crate) rcv_nxt: u32,
    pub(crate) ssthresh: u32,
    pub(crate) rx_rttval: u32,
    pub(crate) rx_srtt: u32,
    pub(crate) rx_rto: u32,
    pub(crate) rx_minrto: u32,
    pub(crate) snd_wnd: u32,
    pub(crate) rcv_wnd: u32,
    pub(crate) rmt_wnd: u32,
    pub(crate) cwnd: u32,
    pub(crate) probe: u32,
    pub(crate) current: u32,
    pub(crate) interval: u32,
    pub(crate) ts_flush: u32,
    pub(crate) xmit: u32,
    pub(crate) nodelay: u32,
    pub(crate) updated: bool,
    pub(crate) ts_probe: u32,
    pub(crate) probe_wait: u32,
    pub(crate) incr: u32,
    pub(crate) snd_queue: VecDeque<Segment>,
    pub(crate) rcv_queue: VecDeque<Segment>,
    pub(crate) snd_buf: VecDeque<Segment>,
    pub(crate) rcv_buf: VecDeque<Segment>,
    pub(crate) acklist: Vec<(u32, u32)>,
    pub(crate) buffer: BytesMut,
    pub(crate) fastresend: u32,
    pub(crate) nocwnd: bool,
    pub(crate) stream: bool,
}

impl View for KCP {
    type V = KcpState;

    open(crate) spec fn view(&self) -> KcpState {
        KcpState {
            conv: self.conv,
            mtu: self.mtu,
            mss: self.mss,
            snd_una: self.snd_una,
            snd_nxt: self.snd_nxt,
            rcv_nxt: self.rcv_nxt,
            ssthresh: self.ssthresh,
            rx_rttval: self.rx_rttval,
            rx_srtt: self.rx_srtt,
            rx_rto: self.rx_rto,
            rx_minrto: self.rx_minrto,
            snd_wnd: self.snd_wnd,
            rcv_wnd: self.rcv_wnd,
            rmt_wnd: self.rmt_wnd,
            cwnd: self.cwnd,
            probe: self.probe,
            current: self.current,
            interval: self.interval,
            ts_flush: self.ts_flush,
            xmit: self.xmit,
            nodelay: self.nodelay,
            updated: self.updated,
            ts_probe: self.ts_probe,
            probe_wait: self.probe_wait,
            incr: self.incr,
            snd_queue: views(self.snd_queue@),
            rcv_queue: views(self.rcv_queue@),
            snd_buf: views(self.snd_buf@),
            rcv_buf: views(self.rcv_buf@),
            acklist: self.acklist@,
            fastresend: self.fastresend,
            nocwnd: self.nocwnd,
            stream: self.stream,
        }
    }
}

impl KCP {
    /// The bytes that wait in the scratch buffer.
    pub open(crate) spec fn scratch(&self) -> Seq<u8> {
        buf_bytes(self.buffer)
    }

    /// What holds of a control block between any two operations: its state
    /// is well formed and its scratch buffer is empty.
    pub open spec fn wf(&self) -> bool {
        &&& self@.wf()
        &&& self.scratch().len() == 0
    }

    /// A control block for the conversation `conv`, which both ends agree on
    /// beforehand.
    pub fn new(conv: u32) -> (kcp: KCP)
        ensures
            kcp.wf(),
            kcp@ == initial_state(conv),
    {
        let kcp = KCP {
            conv,
            mtu: MTU_DEF,
            mss: MTU_DEF - OVERHEAD,
            snd_una: 0,
            snd_nxt: 0,
            rcv_nxt: 0,
            ssthresh: THRESH_INIT,
            rx_rttval: 0,
            rx_srtt: 0,
            rx_rto: RTO_DEF,
            rx_minrto: RTO_MIN,
            snd_wnd: WND_SND,
            rcv_wnd: WND_RCV,
            rmt_wnd: WND_RCV,
            cwnd: 0,
            probe: 0,
            current: 0,
            interval: INTERVAL,
            ts_flush: INTERVAL,
            xmit: 0,
            nodelay: 0,
            updated: false,
            ts_probe: 0,
            probe_wait: 0,
            incr: 0,
            snd_queue: VecDeque::new(),
            rcv_queue: VecDeque::new(),
            snd_buf: VecDeque::new(),
            rcv_buf: VecDeque::new(),
            acklist: Vec::new(),
            buffer: crate::scratch::buf_with_capacity((MTU_DEF + OVERHEAD) * 3),
            fastresend: 0,
            nocwnd: false,
            stream: false,
        };
        assert(kcp@.snd_queue =~= Seq::empty());
        assert(kcp@.rcv_queue =~= Seq::empty());
        assert(kcp@.snd_buf =~= Seq::empty());
        assert(kcp@.rcv_buf =~= Seq::empty());
        kcp
    }
}

/// The state of a block that `new` has just made.
pub open spec fn initial_state(conv: u32) -> KcpState {
    KcpState {
        conv,
        mtu: MTU_DEF,
        mss: (MTU_DEF - OVERHEAD) as usize,
        snd_una: 0,
        snd_nxt: 0,
        rcv_nxt: 0,
        ssthresh: THRESH_INIT,
        rx_rttval: 0,
        rx_srtt: 0,
        rx_rto: RTO_DEF,
        rx_minrto: RTO_MIN,
        snd_wnd: WND_SND,
        rcv_wnd: WND_RCV,
        rmt_wnd: WND_RCV,
        cwnd: 0,
        probe: 0,
        current: 0,
        interval: INTERVAL,
        ts_flush: INTERVAL,
        xmit: 0,
        nodelay: 0,
        updated: false,
        ts_probe: 0,
        probe_wait: 0,
        incr: 0,
        snd_queue: Seq::empty(),
        rcv_queue: Seq::empty(),
        snd_buf: Seq::empty(),
        rcv_buf: Seq::empty(),
        acklist: Seq::empty(),
        fastresend: 0,
        nocwnd: false,
        stream: false,
    }
}

} // verus!
