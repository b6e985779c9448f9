//! Flushing: acknowledgements, window probes and data segments go out,
//! packed into datagrams, and the congestion window answers to loss.

use vstd::prelude::*;
use bytes::BytesMut;
use std::collections::VecDeque;
use crate::clock::{spec_timediff, timediff};
use crate::pack::{
    concat, datagrams, lemma_pack_fold_push, lemma_pack_keeps_bytes, lemma_pack_within_mtu, pack,
    pack_finish, pack_fold, pack_segment, packing_of,
};
use crate::scratch::buf_bytes;
use crate::segment::{Segment, SegmentView, header_of, sn_ascending, views};
use crate::state::{
    ASK_SEND, ASK_TELL, KCP, KcpState, PROBE_INIT, PROBE_LIMIT, THRESH_MIN, payloads_bounded,
    spec_mtu_max, spec_payload_max,
};
use crate::wire::{
    CMD_ACK, CMD_PUSH, CMD_WASK, CMD_WINS, Header, OVERHEAD, encode_header, spec_encode_header,
};

verus! {

/// What a flush reads from the block for every segment it sends.
#[derive(Clone, Copy)]
pub struct FlushContext {
    pub conv: u32,
    pub current: u32,
    pub wnd: u16,
    pub una: u32,
    pub rx_rto: u32,
    pub nodelay: u32,
    pub fastresend: u32,
}

/// Why a segment of the send buffer goes out in a flush, if it does.
#[derive(Clone, Copy, PartialEq, Eq, Structural)]
pub enum Transmission {
    /// The segment stays where it is.
    Idle,
    /// The segment was never sent.
    First,
    /// Its retransmission time has come.
    Timeout,
    /// Enough later segments were acknowledged before it.
    Fast,
}

/// `x`, or `u32::MAX` where `x` is beyond it.
pub open spec fn sat32(x: int) -> u32 {
    if x > u32::MAX {
        u32::MAX
    } else {
        x as u32
    }
}

/// The window to advertise: the free part of the receive window, as the
/// 16-bit field of the header carries it.
pub open spec fn wnd_unused(s: KcpState) -> u16 {
    if s.rcv_queue.len() < s.rcv_wnd {
        ((s.rcv_wnd - s.rcv_queue.len()) % 0x1_0000) as u16
    } else {
        0
    }
}

/// The context of a flush of the block in state `s`.
pub open spec fn context(s: KcpState) -> FlushContext {
    FlushContext {
        conv: s.conv,
        current: s.current,
        wnd: wnd_unused(s),
        una: s.rcv_nxt,
        rx_rto: s.rx_rto,
        nodelay: s.nodelay,
        fastresend: s.fastresend,
    }
}

/// The header of a segment without payload.
pub open spec fn control_header(c: FlushContext, cmd: u8, sn: u32, ts: u32) -> Header {
    Header { conv: c.conv, cmd, frg: 0, wnd: c.wnd, ts, sn, una: c.una, len: 0 }
}

/// One acknowledgement for each pair of the list, in order.
pub open spec fn ack_wire(c: FlushContext, acks: Seq<(u32, u32)>) -> Seq<Seq<u8>> {
    Seq::new(
        acks.len(),
        |i: int| spec_encode_header(control_header(c, CMD_ACK, acks[i].0, acks[i].1)),
    )
}

/// The sequence number and time stamp that the probe segments carry: those
/// of the last acknowledgement sent in this flush, or zero.
pub open spec fn last_ack(acks: Seq<(u32, u32)>) -> (u32, u32) {
    if acks.len() > 0 {
        acks.last()
    } else {
        (0u32, 0u32)
    }
}

/// The wait, the time of the next window question and the probe bits after
/// the schedule was looked at. While the peer advertises no window the wait
/// starts at `PROBE_INIT` and grows by half each time it runs out, up to
/// `PROBE_LIMIT`; each time it runs out a question is due.
pub open spec fn schedule_probe(s: KcpState) -> KcpState {
    if s.rmt_wnd == 0 {
        if s.probe_wait == 0 {
            KcpState {
                probe_wait: PROBE_INIT,
                ts_probe: s.current.wrapping_add(PROBE_INIT),
                ..s
            }
        } else if spec_timediff(s.current, s.ts_probe) >= 0 {
            let base: int = if s.probe_wait < PROBE_INIT {
                PROBE_INIT as int
            } else {
                s.probe_wait as int
            };
            let grown: int = base + base / 2;
            let wait: u32 = if grown > PROBE_LIMIT {
                PROBE_LIMIT
            } else {
                grown as u32
            };
            KcpState {
                probe_wait: wait,
                ts_probe: s.current.wrapping_add(wait),
                probe: s.probe | ASK_SEND,
                ..s
            }
        } else {
            s
        }
    } else {
        KcpState { ts_probe: 0, probe_wait: 0, ..s }
    }
}

/// The window question and the window announcement, as far as the probe
/// bits ask for them.
pub open spec fn probe_wire(c: FlushContext, probe: u32, sn: u32, ts: u32) -> Seq<Seq<u8>> {
    let ask: Seq<Seq<u8>> = if probe & ASK_SEND != 0 {
        seq![spec_encode_header(control_header(c, CMD_WASK, sn, ts))]
    } else {
        Seq::empty()
    };
    let tell: Seq<Seq<u8>> = if probe & ASK_TELL != 0 {
        seq![spec_encode_header(control_header(c, CMD_WINS, sn, ts))]
    } else {
        Seq::empty()
    };
    ask + tell
}

/// The number of segments that may be in flight: the smaller of the local
/// and the peer's window, and of the congestion window unless congestion
/// control is off.
pub open spec fn effective_window(s: KcpState) -> u32 {
    let w: u32 = if s.snd_wnd < s.rmt_wnd {
        s.snd_wnd
    } else {
        s.rmt_wnd
    };
    if !s.nocwnd && s.cwnd < w {
        s.cwnd
    } else {
        w
    }
}

/// The number of segments that move from a send queue of `waiting`
/// segments to the send buffer, where `nxt` is the next sequence number and
/// the window ends before `limit`: as many as wait, as the window has room
/// for, and as sequence numbers are left. Sequence numbers do not wrap: the
/// number `u32::MAX` is never given out.
pub open spec fn window_room(waiting: int, nxt: u32, limit: int) -> int {
    let room: int = limit - nxt;
    let left: int = u32::MAX - nxt;
    let a: int = if room < waiting {
        room
    } else {
        waiting
    };
    let b: int = if left < a {
        left
    } else {
        a
    };
    if b < 0 {
        0
    } else {
        b
    }
}

/// The number of segments that a flush moves from the send queue to the
/// send buffer.
pub open spec fn promote_count(s: KcpState) -> int {
    window_room(s.snd_queue.len() as int, s.snd_nxt, s.snd_una + effective_window(s))
}

/// The segment `seg` of the send queue as it enters the send buffer under
/// the sequence number `sn`.
pub open spec fn promoted(c: FlushContext, seg: SegmentView, sn: u32) -> SegmentView {
    SegmentView {
        conv: c.conv,
        cmd: CMD_PUSH,
        frg: seg.frg,
        wnd: c.wnd,
        ts: c.current,
        sn,
        una: c.una,
        resendts: c.current,
        rto: c.rx_rto,
        fastack: 0,
        xmit: 0,
        data: seg.data,
    }
}

/// The first `k` segments of `queue`, numbered from `first` on.
pub open spec fn promoted_run(c: FlushContext, queue: Seq<SegmentView>, first: u32, k: int) -> Seq<
    SegmentView,
> {
    Seq::new(k as nat, |i: int| promoted(c, queue[i], (first + i) as u32))
}

/// The block after the segments that the window admits have moved from the
/// send queue to the send buffer.
pub open spec fn promote(s: KcpState) -> KcpState {
    let k = promote_count(s);
    KcpState {
        snd_buf: s.snd_buf + promoted_run(context(s), s.snd_queue, s.snd_nxt, k),
        snd_queue: s.snd_queue.subrange(k, s.snd_queue.len() as int),
        snd_nxt: (s.snd_nxt + k) as u32,
        ..s
    }
}

/// Whether and why `seg` goes out in this flush.
pub open spec fn classify(c: FlushContext, seg: SegmentView) -> Transmission {
    if seg.xmit == 0 {
        Transmission::First
    } else if spec_timediff(c.current, seg.resendts) >= 0 {
        Transmission::Timeout
    } else if c.fastresend > 0 && seg.fastack >= c.fastresend {
        Transmission::Fast
    } else {
        Transmission::Idle
    }
}

/// What a timeout adds to the retransmission timeout of a segment: the
/// block's timeout, or half of it in no-delay mode.
pub open spec fn rto_step(c: FlushContext) -> u32 {
    if c.nodelay == 0 {
        c.rx_rto
    } else {
        c.rx_rto / 2
    }
}

/// The extra delay before the first retransmission: an eighth of the
/// block's timeout, or nothing in no-delay mode.
pub open spec fn rto_slack(c: FlushContext) -> u32 {
    if c.nodelay == 0 {
        c.rx_rto / 8
    } else {
        0
    }
}

/// The segment after the flush has looked at it.
pub open spec fn transmitted(c: FlushContext, seg: SegmentView) -> SegmentView {
    match classify(c, seg) {
        Transmission::Idle => seg,
        Transmission::First => SegmentView {
            xmit: 1,
            rto: c.rx_rto,
            resendts: c.current.wrapping_add(c.rx_rto).wrapping_add(rto_slack(c)),
            ts: c.current,
            wnd: c.wnd,
            una: c.una,
            ..seg
        },
        Transmission::Timeout => SegmentView {
            xmit: sat32(seg.xmit + 1),
            rto: sat32(seg.rto + rto_step(c)),
            resendts: c.current.wrapping_add(sat32(seg.rto + rto_step(c))),
            ts: c.current,
            wnd: c.wnd,
            una: c.una,
            ..seg
        },
        Transmission::Fast => SegmentView {
            xmit: sat32(seg.xmit + 1),
            fastack: 0,
            resendts: c.current.wrapping_add(seg.rto),
            ts: c.current,
            wnd: c.wnd,
            una: c.una,
            ..seg
        },
    }
}

/// Every segment of `buf` after the flush has looked at it.
pub open spec fn transmit_all(c: FlushContext, buf: Seq<SegmentView>) -> Seq<SegmentView> {
    Seq::new(buf.len(), |i: int| transmitted(c, buf[i]))
}

/// A segment as it stands on the wire: header, then payload.
pub open spec fn encode_segment(seg: SegmentView) -> Seq<u8> {
    spec_encode_header(header_of(seg)) + seg.data
}

/// The segments of `buf` that go out, encoded, in the order of `buf`.
pub open spec fn data_wire(c: FlushContext, buf: Seq<SegmentView>) -> Seq<Seq<u8>>
    decreases buf.len(),
{
    if buf.len() == 0 {
        Seq::empty()
    } else if classify(c, buf.last()) == Transmission::Idle {
        data_wire(c, buf.drop_last())
    } else {
        data_wire(c, buf.drop_last()).push(encode_segment(transmitted(c, buf.last())))
    }
}

/// The number of segments of `buf` that go out because their time ran out.
pub open spec fn timeouts(c: FlushContext, buf: Seq<SegmentView>) -> int
    decreases buf.len(),
{
    if buf.len() == 0 {
        0
    } else if classify(c, buf.last()) == Transmission::Timeout {
        timeouts(c, buf.drop_last()) + 1
    } else {
        timeouts(c, buf.drop_last())
    }
}

/// Whether a segment of `buf` goes out by fast retransmission.
pub open spec fn any_fast(c: FlushContext, buf: Seq<SegmentView>) -> bool {
    exists|i: int| 0 <= i < buf.len() && classify(c, #[trigger] buf[i]) == Transmission::Fast
}

/// The slow-start threshold, congestion window and byte accumulator after
/// the flush: a fast retransmission halves the threshold from the segments
/// in flight, a timeout halves it from the window and closes the window to
/// one segment, and the window is never left below one.
pub open spec fn respond_to_loss(s: KcpState, change: bool, lost: bool, window: u32) -> KcpState {
    let s1 = if change {
        let half: int = (s.snd_nxt - s.snd_una) / 2;
        let thresh: u32 = if half < THRESH_MIN {
            THRESH_MIN
        } else {
            half as u32
        };
        let cwnd: u32 = sat32(thresh + s.fastresend);
        KcpState { ssthresh: thresh, cwnd, incr: sat32(cwnd * s.mss), ..s }
    } else {
        s
    };
    let s2 = if lost {
        let half: u32 = window / 2;
        let thresh: u32 = if half < THRESH_MIN {
            THRESH_MIN
        } else {
            half
        };
        KcpState { ssthresh: thresh, cwnd: 1, incr: sat32(s.mss as int), ..s1 }
    } else {
        s1
    };
    if s2.cwnd < 1 {
        KcpState { cwnd: 1, incr: sat32(s.mss as int), ..s2 }
    } else {
        s2
    }
}

/// The block when the acknowledgements are out and the probe is scheduled.
pub open spec fn flush_scheduled(s: KcpState) -> KcpState {
    schedule_probe(KcpState { acklist: Seq::empty(), ..s })
}

/// The block when the probe segments are out and the window is filled.
pub open spec fn flush_promoted(s: KcpState) -> KcpState {
    promote(KcpState { probe: 0, ..flush_scheduled(s) })
}

/// The block after a flush. Before the first `update` a flush does nothing.
pub open spec fn flush_state(s: KcpState) -> KcpState {
    if !s.updated {
        s
    } else {
        let p = flush_promoted(s);
        let c = context(s);
        let sent = KcpState {
            snd_buf: transmit_all(c, p.snd_buf),
            xmit: sat32(p.xmit + timeouts(c, p.snd_buf)),
            ..p
        };
        respond_to_loss(
            sent,
            any_fast(c, p.snd_buf),
            timeouts(c, p.snd_buf) > 0,
            effective_window(s),
        )
    }
}

/// The encoded segments of a flush in the order in which they go out: the
/// acknowledgements, the window question and announcement, the data.
pub open spec fn flush_wire(s: KcpState) -> Seq<Seq<u8>> {
    let c = context(s);
    let tail = last_ack(s.acklist);
    ack_wire(c, s.acklist) + probe_wire(c, flush_scheduled(s).probe, tail.0, tail.1) + data_wire(
        c,
        flush_promoted(s).snd_buf,
    )
}

/// The datagrams of a flush.
pub open spec fn flush_output(s: KcpState) -> Seq<Seq<u8>> {
    if !s.updated {
        Seq::empty()
    } else {
        pack(flush_wire(s), s.mtu as int)
    }
}

/// The count of timeouts lies between zero and the length of the buffer.
pub proof fn lemma_timeouts_range(c: FlushContext, buf: Seq<SegmentView>)
    ensures
        0 <= timeouts(c, buf) <= buf.len(),
    decreases buf.len(),
{
    if buf.len() > 0 {
        lemma_timeouts_range(c, buf.drop_last());
    }
}

/// Moves the packing on by one segment without payload.
fn send_control(
    hdr: &Header,
    mtu: usize,
    buffer: &mut BytesMut,
    out: &mut Vec<Vec<u8>>,
    Ghost(wire): Ghost<Seq<Seq<u8>>>,
)
    requires
        mtu <= spec_mtu_max(),
        buf_bytes(*old(buffer)).len() <= spec_mtu_max(),
        packing_of(old(out)@, *old(buffer)) == pack_fold(wire, mtu as int),
    ensures
        buf_bytes(*final(buffer)).len() <= spec_mtu_max(),
        packing_of(final(out)@, *final(buffer)) == pack_fold(
            wire.push(spec_encode_header(*hdr)),
            mtu as int,
        ),
{
    let head: [u8; 24] = encode_header(hdr);
    let body: Vec<u8> = Vec::new();
    pack_segment(buffer, out, mtu, &head, body.as_slice());
    proof {
        assert(head@ + body@ =~= spec_encode_header(*hdr));
        lemma_pack_fold_push(wire, spec_encode_header(*hdr), mtu as int);
    }
}

/// Sends one acknowledgement for each pair of `acks`.
fn send_acks(
    acks: &Vec<(u32, u32)>,
    ctx: &FlushContext,
    mtu: usize,
    buffer: &mut BytesMut,
    out: &mut Vec<Vec<u8>>,
)
    requires
        mtu <= spec_mtu_max(),
        buf_bytes(*old(buffer)).len() == 0,
        old(out)@.len() == 0,
    ensures
        buf_bytes(*final(buffer)).len() <= spec_mtu_max(),
        packing_of(final(out)@, *final(buffer)) == pack_fold(ack_wire(*ctx, acks@), mtu as int),
{
    let n: usize = acks.len();
    let mut i: usize = 0;
    proof {
        assert(ack_wire(*ctx, acks@.subrange(0, 0)) =~= Seq::<Seq<u8>>::empty());
        assert(datagrams(out@) =~= Seq::<Seq<u8>>::empty());
        assert(buf_bytes(*buffer) =~= Seq::<u8>::empty());
    }
    while i < n
        invariant
            n == acks@.len(),
            0 <= i <= n,
            mtu <= spec_mtu_max(),
            buf_bytes(*buffer).len() <= spec_mtu_max(),
            packing_of(out@, *buffer) == pack_fold(
                ack_wire(*ctx, acks@.subrange(0, i as int)),
                mtu as int,
            ),
        decreases n - i,
    {
        let ack: (u32, u32) = acks[i];
        let hdr = Header {
            conv: ctx.conv,
            cmd: CMD_ACK,
            frg: 0,
            wnd: ctx.wnd,
            ts: ack.1,
            sn: ack.0,
            una: ctx.una,
            len: 0,
        };
        let ghost before = ack_wire(*ctx, acks@.subrange(0, i as int));
        send_control(&hdr, mtu, buffer, out, Ghost(before));
        proof {
            assert(ack_wire(*ctx, acks@.subrange(0, i + 1)) =~= before.push(
                spec_encode_header(hdr),
            ));
        }
        i += 1;
    }
    proof {
        assert(acks@.subrange(0, n as int) =~= acks@);
    }
}

/// Sends the window question and the window announcement that `probe` asks
/// for.
fn send_probes(
    probe: u32,
    sn: u32,
    ts: u32,
    ctx: &FlushContext,
    mtu: usize,
    buffer: &mut BytesMut,
    out: &mut Vec<Vec<u8>>,
    Ghost(wire): Ghost<Seq<Seq<u8>>>,
)
    requires
        mtu <= spec_mtu_max(),
        buf_bytes(*old(buffer)).len() <= spec_mtu_max(),
        packing_of(old(out)@, *old(buffer)) == pack_fold(wire, mtu as int),
    ensures
        buf_bytes(*final(buffer)).len() <= spec_mtu_max(),
        packing_of(final(out)@, *final(buffer)) == pack_fold(
            wire + probe_wire(*ctx, probe, sn, ts),
            mtu as int,
        ),
{
    let ghost mut sent = wire;
    if (probe & ASK_SEND) != 0 {
        let hdr = Header {
            conv: ctx.conv,
            cmd: CMD_WASK,
            frg: 0,
            wnd: ctx.wnd,
            ts,
            sn,
            una: ctx.una,
            len: 0,
        };
        send_control(&hdr, mtu, buffer, out, Ghost(sent));
        proof {
            sent = sent.push(spec_encode_header(hdr));
        }
    }
    if (probe & ASK_TELL) != 0 {
        let hdr = Header {
            conv: ctx.conv,
            cmd: CMD_WINS,
            frg: 0,
            wnd: ctx.wnd,
            ts,
            sn,
            una: ctx.una,
            len: 0,
        };
        send_control(&hdr, mtu, buffer, out, Ghost(sent));
        proof {
            sent = sent.push(spec_encode_header(hdr));
        }
    }
    proof {
        assert(sent =~= wire + probe_wire(*ctx, probe, sn, ts));
    }
}

/// Looks at one segment of the send buffer: decides whether it goes out and
/// brings its retransmission state up to date.
fn transmit_segment(ctx: &FlushContext, seg: &mut Segment) -> (kind: Transmission)
    ensures
        kind == classify(*ctx, old(seg)@),
        final(seg)@ == transmitted(*ctx, old(seg)@),
{
    let step: u32 = if ctx.nodelay == 0 {
        ctx.rx_rto
    } else {
        ctx.rx_rto / 2
    };
    let slack: u32 = if ctx.nodelay == 0 {
        ctx.rx_rto / 8
    } else {
        0
    };
    if seg.xmit == 0 {
        seg.xmit = 1;
        seg.rto = ctx.rx_rto;
        seg.resendts = ctx.current.wrapping_add(ctx.rx_rto).wrapping_add(slack);
        seg.ts = ctx.current;
        seg.wnd = ctx.wnd;
        seg.una = ctx.una;
        Transmission::First
    } else if timediff(ctx.current, seg.resendts) >= 0 {
        seg.xmit = seg.xmit.saturating_add(1);
        seg.rto = seg.rto.saturating_add(step);
        seg.resendts = ctx.current.wrapping_add(seg.rto);
        seg.ts = ctx.current;
        seg.wnd = ctx.wnd;
        seg.una = ctx.una;
        Transmission::Timeout
    } else if ctx.fastresend > 0 && seg.fastack >= ctx.fastresend {
        seg.xmit = seg.xmit.saturating_add(1);
        seg.fastack = 0;
        seg.resendts = ctx.current.wrapping_add(seg.rto);
        seg.ts = ctx.current;
        seg.wnd = ctx.wnd;
        seg.una = ctx.una;
        Transmission::Fast
    } else {
        Transmission::Idle
    }
}

/// What a pass over the send buffer found.
pub(crate) struct Losses {
    pub(crate) timeouts: u32,
    pub(crate) fast: bool,
}

/// Passes over the send buffer from front to back and sends what is due.
/// Each segment is taken off the front, looked at and put back at the end,
/// so that after one pass the buffer stands in its order again.
fn transmit(
    buf: &mut VecDeque<Segment>,
    ctx: &FlushContext,
    mtu: usize,
    buffer: &mut BytesMut,
    out: &mut Vec<Vec<u8>>,
    Ghost(wire): Ghost<Seq<Seq<u8>>>,
) -> (found: Losses)
    requires
        mtu <= spec_mtu_max(),
        buf_bytes(*old(buffer)).len() <= spec_mtu_max(),
        payloads_bounded(views(old(buf)@)),
        packing_of(old(out)@, *old(buffer)) == pack_fold(wire, mtu as int),
    ensures
        views(final(buf)@) == transmit_all(*ctx, views(old(buf)@)),
        found.timeouts == sat32(timeouts(*ctx, views(old(buf)@))),
        found.fast == any_fast(*ctx, views(old(buf)@)),
        buf_bytes(*final(buffer)).len() <= spec_mtu_max(),
        packing_of(final(out)@, *final(buffer)) == pack_fold(
            wire + data_wire(*ctx, views(old(buf)@)),
            mtu as int,
        ),
{
    let ghost before: Seq<SegmentView> = views(buf@);
    let n: usize = buf.len();
    let mut i: usize = 0;
    let mut found = Losses { timeouts: 0, fast: false };
    proof {
        assert(before.subrange(0, 0) =~= Seq::<SegmentView>::empty());
        assert(views(buf@) =~= before.subrange(0, n as int) + transmit_all(
            *ctx,
            before.subrange(0, 0),
        ));
        assert(wire + data_wire(*ctx, before.subrange(0, 0)) =~= wire);
    }
    while i < n
        invariant
            n == before.len(),
            0 <= i <= n,
            mtu <= spec_mtu_max(),
            payloads_bounded(before),
            buf_bytes(*buffer).len() <= spec_mtu_max(),
            views(buf@) == before.subrange(i as int, n as int) + transmit_all(
                *ctx,
                before.subrange(0, i as int),
            ),
            found.timeouts == sat32(timeouts(*ctx, before.subrange(0, i as int))),
            found.fast == any_fast(*ctx, before.subrange(0, i as int)),
            packing_of(out@, *buffer) == pack_fold(
                wire + data_wire(*ctx, before.subrange(0, i as int)),
                mtu as int,
            ),
        decreases n - i,
    {
        let ghost done = before.subrange(0, i as int);
        let ghost next = before.subrange(0, i + 1);
        let ghost rotated = buf@;
        proof {
            assert(views(rotated).len() == n);
            assert(views(rotated)[0] == before[i as int]);
            assert(next.drop_last() =~= done);
            assert(next.last() == before[i as int]);
            lemma_timeouts_range(*ctx, done);
        }
        let front = buf.pop_front();
        match front {
            Some(mut seg) => {
                assert(seg@ == before[i as int]);
                let kind = transmit_segment(ctx, &mut seg);
                match kind {
                    Transmission::Idle => {
                        proof {
                            assert(wire + data_wire(*ctx, next) =~= wire + data_wire(*ctx, done));
                        }
                    },
                    _ => {
                        let hdr = Header {
                            conv: seg.conv,
                            cmd: seg.cmd,
                            frg: seg.frg,
                            wnd: seg.wnd,
                            ts: seg.ts,
                            sn: seg.sn,
                            una: seg.una,
                            len: seg.data.len() as u32,
                        };
                        let head: [u8; 24] = encode_header(&hdr);
                        pack_segment(buffer, out, mtu, &head, seg.data.as_slice());
                        proof {
                            assert(hdr == header_of(seg@));
                            assert(head@ + seg.data@ == encode_segment(seg@));
                            lemma_pack_fold_push(
                                wire + data_wire(*ctx, done),
                                encode_segment(seg@),
                                mtu as int,
                            );
                            assert(wire + data_wire(*ctx, next) =~= (wire + data_wire(
                                *ctx,
                                done,
                            )).push(encode_segment(seg@)));
                        }
                    },
                }
                match kind {
                    Transmission::Timeout => {
                        found.timeouts = found.timeouts.saturating_add(1);
                    },
                    Transmission::Fast => {
                        found.fast = true;
                    },
                    _ => {},
                }
                proof {
                    if any_fast(*ctx, next) {
                        let j = choose|j: int|
                            0 <= j < next.len() && classify(*ctx, #[trigger] next[j])
                                == Transmission::Fast;
                        if j < i {
                            assert(done[j] == next[j]);
                        }
                    }
                    if any_fast(*ctx, done) {
                        let j = choose|j: int|
                            0 <= j < done.len() && classify(*ctx, #[trigger] done[j])
                                == Transmission::Fast;
                        assert(next[j] == done[j]);
                    }
                    if kind == Transmission::Fast {
                        assert(classify(*ctx, next[i as int]) == Transmission::Fast);
                    }
                }
                let ghost sent = seg@;
                buf.push_back(seg);
                proof {
                    assert(views(buf@) =~= before.subrange(i + 1, n as int) + transmit_all(
                        *ctx,
                        next,
                    )) by {
                        assert forall|k: int| 0 <= k < n implies views(buf@)[k] == (
                        before.subrange(i + 1, n as int) + transmit_all(*ctx, next))[k] by {
                            if k < n - i - 1 {
                                assert(views(buf@)[k] == views(rotated)[k + 1]);
                            } else if k < n - 1 {
                                assert(views(buf@)[k] == views(rotated)[k + 1]);
                                assert(transmit_all(*ctx, next)[k - (n - i - 1)] == transmit_all(
                                    *ctx,
                                    done,
                                )[k - (n - i - 1)]);
                            } else {
                                assert(views(buf@)[k] == sent);
                            }
                        }
                    }
                }
            },
            None => {},
        }
        i += 1;
    }
    proof {
        assert(before.subrange(0, n as int) =~= before);
        assert(views(buf@) =~= transmit_all(*ctx, before));
    }
    found
}

/// Moves segments from the send queue to the send buffer while the window,
/// which ends before `limit`, has room.
fn promote_segments(
    queue: &mut VecDeque<Segment>,
    buf: &mut VecDeque<Segment>,
    snd_nxt: &mut u32,
    limit: u64,
    ctx: &FlushContext,
)
    ensures
        ({
            let k = window_room(old(queue)@.len() as int, *old(snd_nxt), limit as int);
            &&& *final(snd_nxt) == *old(snd_nxt) + k
            &&& views(final(queue)@) == views(old(queue)@).subrange(k, old(queue)@.len() as int)
            &&& views(final(buf)@) == views(old(buf)@) + promoted_run(
                *ctx,
                views(old(queue)@),
                *old(snd_nxt),
                k,
            )
        }),
{
    let ghost queue0 = views(queue@);
    let ghost buf0 = views(buf@);
    let ghost nxt0 = *snd_nxt;
    let ghost goal = window_room(queue0.len() as int, nxt0, limit as int);
    let ghost mut k: int = 0;
    proof {
        assert(views(queue@) =~= queue0.subrange(0, queue0.len() as int));
        assert(views(buf@) =~= buf0 + promoted_run(*ctx, queue0, nxt0, 0));
    }
    while (*snd_nxt as u64) < limit && *snd_nxt < u32::MAX && queue.len() > 0
        invariant
            0 <= k <= goal,
            goal == window_room(queue0.len() as int, nxt0, limit as int),
            *snd_nxt == nxt0 + k,
            queue@.len() == queue0.len() - k,
            views(queue@) == queue0.subrange(k, queue0.len() as int),
            views(buf@) == buf0 + promoted_run(*ctx, queue0, nxt0, k),
        ensures
            k == goal,
            *snd_nxt == nxt0 + k,
            views(queue@) == queue0.subrange(k, queue0.len() as int),
            views(buf@) == buf0 + promoted_run(*ctx, queue0, nxt0, k),
        decreases queue@.len(),
    {
        let ghost waiting = queue@;
        let ghost held = buf@;
        proof {
            assert(views(waiting).len() == queue0.len() - k);
            assert(views(waiting)[0] == queue0[k]);
            assert(promoted_run(*ctx, queue0, nxt0, k).len() == k);
            assert(views(held).len() == buf0.len() + k);
        }
        let front = queue.pop_front();
        match front {
            Some(mut seg) => {
                seg.conv = ctx.conv;
                seg.cmd = CMD_PUSH;
                seg.wnd = ctx.wnd;
                seg.ts = ctx.current;
                seg.sn = *snd_nxt;
                seg.una = ctx.una;
                seg.resendts = ctx.current;
                seg.rto = ctx.rx_rto;
                seg.fastack = 0;
                seg.xmit = 0;
                *snd_nxt = *snd_nxt + 1;
                let ghost entered = seg@;
                buf.push_back(seg);
                proof {
                    assert(entered == promoted(*ctx, queue0[k], (nxt0 + k) as u32));
                    assert(views(queue@) =~= queue0.subrange(k + 1, queue0.len() as int)) by {
                        assert forall|j: int| 0 <= j < queue0.len() - k - 1 implies views(
                            queue@,
                        )[j] == queue0[k + 1 + j] by {
                            assert(views(queue@)[j] == views(waiting)[j + 1]);
                        }
                    }
                    assert(views(buf@) =~= buf0 + promoted_run(*ctx, queue0, nxt0, k + 1)) by {
                        assert forall|j: int| 0 <= j < buf0.len() + k + 1 implies views(buf@)[j]
                            == (buf0 + promoted_run(*ctx, queue0, nxt0, k + 1))[j] by {
                            if j < buf0.len() + k {
                                assert(views(buf@)[j] == views(held)[j]);
                            }
                        }
                    }
                    k = k + 1;
                }
            },
            None => {},
        }
    }
}

impl KCP {
    /// The window to advertise.
    pub(crate) fn wnd_unused(&self) -> (wnd: u16)
        requires
            self@.rcv_queue.len() <= u32::MAX,
        ensures
            wnd == wnd_unused(self@),
    {
        let held: usize = self.rcv_queue.len();
        if held < self.rcv_wnd as usize {
            let free: u32 = self.rcv_wnd - held as u32;
            (free % 0x1_0000) as u16
        } else {
            0
        }
    }

    /// The number of segments that may be in flight.
    pub(crate) fn effective_window(&self) -> (w: u32)
        ensures
            w == effective_window(self@),
    {
        let w: u32 = if self.snd_wnd < self.rmt_wnd {
            self.snd_wnd
        } else {
            self.rmt_wnd
        };
        if !self.nocwnd && self.cwnd < w {
            self.cwnd
        } else {
            w
        }
    }

    /// Looks at the probe schedule.
    fn schedule_probe(&mut self)
        ensures
            final(self)@ == schedule_probe(old(self)@),
            final(self).scratch() == old(self).scratch(),
    {
        if self.rmt_wnd == 0 {
            if self.probe_wait == 0 {
                self.probe_wait = PROBE_INIT;
                self.ts_probe = self.current.wrapping_add(PROBE_INIT);
            } else if timediff(self.current, self.ts_probe) >= 0 {
                let base: u64 = if self.probe_wait < PROBE_INIT {
                    PROBE_INIT as u64
                } else {
                    self.probe_wait as u64
                };
                let grown: u64 = base + base / 2;
                let wait: u32 = if grown > PROBE_LIMIT as u64 {
                    PROBE_LIMIT
                } else {
                    grown as u32
                };
                self.probe_wait = wait;
                self.ts_probe = self.current.wrapping_add(wait);
                self.probe = self.probe | ASK_SEND;
            }
        } else {
            self.ts_probe = 0;
            self.probe_wait = 0;
        }
    }

    /// Sets the slow-start threshold and the congestion window after the
    /// pass over the send buffer.
    fn respond_to_loss(&mut self, change: bool, lost: bool, window: u32)
        requires
            old(self)@.snd_una <= old(self)@.snd_nxt,
            old(self)@.mss <= u32::MAX,
        ensures
            final(self)@ == respond_to_loss(old(self)@, change, lost, window),
            final(self).scratch() == old(self).scratch(),
    {
        let mss: u64 = self.mss as u64;
        if change {
            let half: u32 = (self.snd_nxt - self.snd_una) / 2;
            let thresh: u32 = if half < THRESH_MIN {
                THRESH_MIN
            } else {
                half
            };
            let cwnd: u32 = thresh.saturating_add(self.fastresend);
            self.ssthresh = thresh;
            self.cwnd = cwnd;
            assert(cwnd as u64 * mss <= 0xffff_ffff * 0xffff_ffff) by (nonlinear_arith)
                requires
                    cwnd <= 0xffff_ffff,
                    mss <= 0xffff_ffff,
            ;
            let bytes: u64 = cwnd as u64 * mss;
            self.incr = if bytes > u32::MAX as u64 {
                u32::MAX
            } else {
                bytes as u32
            };
        }
        if lost {
            let half: u32 = window / 2;
            self.ssthresh = if half < THRESH_MIN {
                THRESH_MIN
            } else {
                half
            };
            self.cwnd = 1;
            self.incr = mss as u32;
        }
        if self.cwnd < 1 {
            self.cwnd = 1;
            self.incr = mss as u32;
        }
    }

    /// Sends what is due: the pending acknowledgements, a window question
    /// or announcement where one was asked for, the segments that the window
    /// admits for the first time and those whose retransmission is due.
    /// Returns the datagrams to hand to the network, in order. Before the
    /// first `update` nothing happens.
    pub fn flush(&mut self) -> (out: Vec<Vec<u8>>)
        requires
            old(self).wf(),
        ensures
            final(self).wf(),
            final(self)@ == flush_state(old(self)@),
            datagrams(out@) == flush_output(old(self)@),
            final(self)@.window_open(),
            old(self)@.keeps(final(self)@),
            old(self)@.advances(final(self)@),
            final(self)@.delivered() == old(self)@.delivered(),
            old(self)@.payloads_fit_mss() ==> forall|i: int|
                0 <= i < out@.len() ==> 0 < (#[trigger] out@[i]).len() <= old(self)@.mtu,
    {
        let mut out: Vec<Vec<u8>> = Vec::new();
        proof {
            lemma_flush_keeps_wf(self@);
            if self@.payloads_fit_mss() {
                lemma_flush_within_mtu(self@);
            }
        }
        let ghost promised = flush_output(self@);
        if !self.updated {
            assert(datagrams(out@) =~= Seq::<Seq<u8>>::empty());
            return out;
        }
        let ghost s0 = self@;
        let ctx = FlushContext {
            conv: self.conv,
            current: self.current,
            wnd: self.wnd_unused(),
            una: self.rcv_nxt,
            rx_rto: self.rx_rto,
            nodelay: self.nodelay,
            fastresend: self.fastresend,
        };
        let mtu: usize = self.mtu;
        let window: u32 = self.effective_window();

        send_acks(&self.acklist, &ctx, mtu, &mut self.buffer, &mut out);
        let tail: (u32, u32) = if self.acklist.len() > 0 {
            self.acklist[self.acklist.len() - 1]
        } else {
            (0u32, 0u32)
        };
        self.acklist.clear();
        self.schedule_probe();
        assert(self@ == flush_scheduled(s0));

        let ghost wire1 = ack_wire(ctx, s0.acklist);
        send_probes(self.probe, tail.0, tail.1, &ctx, mtu, &mut self.buffer, &mut out, Ghost(wire1));
        self.probe = 0;

        let limit: u64 = self.snd_una as u64 + window as u64;
        promote_segments(&mut self.snd_queue, &mut self.snd_buf, &mut self.snd_nxt, limit, &ctx);
        assert(self@ == flush_promoted(s0));
        let ghost p = self@;
        let ghost wire2 = wire1 + probe_wire(ctx, flush_scheduled(s0).probe, tail.0, tail.1);

        let found = transmit(&mut self.snd_buf, &ctx, mtu, &mut self.buffer, &mut out, Ghost(wire2));
        self.xmit = self.xmit.saturating_add(found.timeouts);
        proof {
            lemma_timeouts_range(ctx, p.snd_buf);
            assert(wire2 + data_wire(ctx, p.snd_buf) == flush_wire(s0));
        }
        pack_finish(&mut self.buffer, &mut out, Ghost(flush_wire(s0)), Ghost(mtu as int));
        self.respond_to_loss(found.fast, found.timeouts > 0, window);
        proof {
            assert forall|i: int| 0 <= i < out@.len() implies (#[trigger] out@[i]).len()
                == promised[i].len() by {
                assert(datagrams(out@)[i] == out@[i]@);
            }
        }
        out
    }
}

/// A flush leaves a well-formed block well formed, with at least one
/// segment of congestion window, and keeps what held of the receive window,
/// of the retransmission timeout and of the payload sizes.
pub proof fn lemma_flush_keeps_wf(s: KcpState)
    requires
        s.wf(),
    ensures
        flush_state(s).wf(),
        s.updated ==> flush_state(s).cwnd >= 1,
        s.keeps(flush_state(s)),
        s.advances(flush_state(s)),
        flush_state(s).delivered() == s.delivered(),
{
    if s.updated {
        let c = context(s);
        let q = flush_scheduled(s);
        let p = flush_promoted(s);
        let k = promote_count(KcpState { probe: 0, ..q });
        let run = promoted_run(c, s.snd_queue, s.snd_nxt, k);
        assert(p.snd_buf == s.snd_buf + run);
        assert(sn_ascending(p.snd_buf)) by {
            assert forall|i: int, j: int| 0 <= i < j < p.snd_buf.len() implies p.snd_buf[i].sn
                < p.snd_buf[j].sn by {
                if j < s.snd_buf.len() {
                } else if i < s.snd_buf.len() {
                    assert(p.snd_buf[i] == s.snd_buf[i]);
                    assert(p.snd_buf[j] == run[j - s.snd_buf.len()]);
                } else {
                    assert(p.snd_buf[i] == run[i - s.snd_buf.len()]);
                    assert(p.snd_buf[j] == run[j - s.snd_buf.len()]);
                }
            }
        }
        let t = transmit_all(c, p.snd_buf);
        assert forall|i: int| 0 <= i < t.len() implies (#[trigger] t[i]).sn == p.snd_buf[i].sn
            && t[i].data == p.snd_buf[i].data by {}
        assert(sn_ascending(t));
        let f = flush_state(s);
        assert(f.snd_buf == t);
        assert(f.snd_queue == s.snd_queue.subrange(k, s.snd_queue.len() as int));
        assert forall|i: int| 0 <= i < f.snd_buf.len() implies f.snd_una <= (
        #[trigger] f.snd_buf[i]).sn < f.snd_nxt && f.snd_buf[i].data.len() <= spec_payload_max() && (
        s.payloads_fit_mss() ==> f.snd_buf[i].data.len() <= f.mss) by {
            if i < s.snd_buf.len() {
                assert(p.snd_buf[i] == s.snd_buf[i]);
            } else {
                assert(p.snd_buf[i] == run[i - s.snd_buf.len()]);
                assert(run[i - s.snd_buf.len()].data == s.snd_queue[i - s.snd_buf.len()].data);
            }
        }
        assert forall|i: int| 0 <= i < f.snd_queue.len() implies (
        #[trigger] f.snd_queue[i]).data.len() <= spec_payload_max() && (s.payloads_fit_mss()
            ==> f.snd_queue[i].data.len() <= f.mss) by {
            assert(f.snd_queue[i] == s.snd_queue[i + k]);
        }
        if f.snd_buf.len() > 0 {
            if s.snd_buf.len() > 0 {
                assert(p.snd_buf[0] == s.snd_buf[0]);
            } else {
                assert(p.snd_buf[0] == run[0]);
            }
        }
    }
}

/// Every encoded data segment of a flush is a header and a payload that
/// the buffer holds.
pub proof fn lemma_data_wire_bound(c: FlushContext, buf: Seq<SegmentView>, limit: int)
    requires
        forall|i: int| 0 <= i < buf.len() ==> (#[trigger] buf[i]).data.len() <= limit,
    ensures
        forall|i: int|
            0 <= i < data_wire(c, buf).len() ==> (#[trigger] data_wire(c, buf)[i]).len()
                <= OVERHEAD + limit,
    decreases buf.len(),
{
    if buf.len() > 0 {
        let front = buf.drop_last();
        assert forall|i: int| 0 <= i < front.len() implies (#[trigger] front[i]).data.len()
            <= limit by {
            assert(front[i] == buf[i]);
        }
        lemma_data_wire_bound(c, front, limit);
        assert(buf.last() == buf[buf.len() - 1]);
        assert(transmitted(c, buf.last()).data == buf.last().data);
        let w = data_wire(c, buf);
        assert forall|i: int| 0 <= i < w.len() implies (#[trigger] w[i]).len() <= OVERHEAD
            + limit by {
            if i < data_wire(c, front).len() {
                assert(w[i] == data_wire(c, front)[i]);
            }
        }
    }
}

/// The payloads of the send buffer are within the MSS when the flush has
/// filled the window, where all payloads were within it before.
pub proof fn lemma_promoted_payloads(s: KcpState)
    requires
        s.wf(),
        s.payloads_fit_mss(),
    ensures
        forall|i: int|
            0 <= i < flush_promoted(s).snd_buf.len() ==> (#[trigger] flush_promoted(
                s,
            ).snd_buf[i]).data.len() <= s.mss,
{
    let q = KcpState { probe: 0, ..flush_scheduled(s) };
    let p = flush_promoted(s);
    let k = promote_count(q);
    let run = promoted_run(context(q), q.snd_queue, q.snd_nxt, k);
    assert(q.snd_buf == s.snd_buf && q.snd_queue == s.snd_queue);
    assert(p.snd_buf == s.snd_buf + run);
    assert forall|i: int| 0 <= i < p.snd_buf.len() implies (#[trigger] p.snd_buf[i]).data.len()
        <= s.mss by {
        if i < s.snd_buf.len() {
            assert(p.snd_buf[i] == s.snd_buf[i]);
        } else {
            let j = i - s.snd_buf.len();
            assert(p.snd_buf[i] == run[j]);
            assert(run[j].data == s.snd_queue[j].data);
        }
    }
}

/// Sequence numbers: while as many are left as segments wait, it is the
/// window alone that says how many segments a flush puts in flight: all
/// that wait, or as many as the window has room for.
pub proof fn lemma_promote_count(s: KcpState)
    requires
        s.wf(),
        s.snd_queue.len() <= s.numbers_left(),
    ensures
        ({
            let room = s.snd_una + effective_window(s) - s.snd_nxt;
            promote_count(s) == (if room <= 0 {
                0
            } else if room < s.snd_queue.len() {
                room
            } else {
                s.snd_queue.len() as int
            })
        }),
{
}

/// Window: a flush puts no segment in flight beyond the window. The next
/// sequence number stays where it was, or within one window of the first
/// one in flight.
pub proof fn lemma_promote_within_window(s: KcpState)
    requires
        s.wf(),
    ensures
        s.snd_nxt <= flush_state(s).snd_nxt,
        flush_state(s).snd_nxt == s.snd_nxt || flush_state(s).snd_nxt <= s.snd_una
            + effective_window(s),
        flush_state(s).snd_una == s.snd_una,
{
}

/// Numbers: a flush leaves the segments in flight their numbers and
/// payloads, and gives the segments that it takes from the send queue, in
/// the order of the queue, the numbers from `snd_nxt` on: numbers that no
/// segment has carried before.
pub proof fn lemma_fresh_numbers(s: KcpState)
    requires
        s.wf(),
    ensures
        ({
            let f = flush_state(s);
            let n = s.snd_buf.len() as int;
            let k = f.snd_buf.len() - n;
            &&& 0 <= k <= s.snd_queue.len()
            &&& f.snd_nxt == s.snd_nxt + k
            &&& f.snd_queue == s.snd_queue.subrange(k, s.snd_queue.len() as int)
            &&& forall|i: int|
                0 <= i < n ==> (#[trigger] f.snd_buf[i]).sn == s.snd_buf[i].sn && f.snd_buf[i].frg
                    == s.snd_buf[i].frg && f.snd_buf[i].data == s.snd_buf[i].data
            &&& forall|j: int|
                0 <= j < k ==> (#[trigger] f.snd_buf[n + j]).sn == s.snd_nxt + j && f.snd_buf[n
                    + j].frg == s.snd_queue[j].frg && f.snd_buf[n + j].data == s.snd_queue[j].data
        }),
{
    if s.updated {
        let c = context(s);
        let q = KcpState { probe: 0, ..flush_scheduled(s) };
        let p = flush_promoted(s);
        let k = promote_count(q);
        let run = promoted_run(c, s.snd_queue, s.snd_nxt, k);
        let f = flush_state(s);
        let n = s.snd_buf.len() as int;
        assert(q.snd_buf == s.snd_buf && q.snd_queue == s.snd_queue);
        assert(p.snd_buf == s.snd_buf + run);
        assert(f.snd_buf == transmit_all(c, p.snd_buf));
        assert forall|i: int| 0 <= i < n implies (#[trigger] f.snd_buf[i]).sn == s.snd_buf[i].sn
            && f.snd_buf[i].frg == s.snd_buf[i].frg && f.snd_buf[i].data == s.snd_buf[i].data by {
            assert(p.snd_buf[i] == s.snd_buf[i]);
        }
        assert forall|j: int| 0 <= j < k implies (#[trigger] f.snd_buf[n + j]).sn == s.snd_nxt + j
            && f.snd_buf[n + j].frg == s.snd_queue[j].frg && f.snd_buf[n + j].data
            == s.snd_queue[j].data by {
            assert(p.snd_buf[n + j] == run[j]);
        }
    } else {
        assert(s.snd_queue.subrange(0, s.snd_queue.len() as int) =~= s.snd_queue);
    }
}

/// Order on the wire: the datagrams of a flush, one after the other, are
/// its acknowledgements, then its window question and announcement, then
/// its data segments in the order of the send buffer.
pub proof fn lemma_flush_output_bytes(s: KcpState)
    requires
        s.updated,
    ensures
        concat(flush_output(s)) == concat(flush_wire(s)),
{
    lemma_pack_keeps_bytes(flush_wire(s), s.mtu as int);
}

/// When the flush has filled the window, every segment of the send
/// buffer is a data segment of the block's conversation with a payload
/// that the length field can count.
pub proof fn lemma_promoted_stamped(s: KcpState)
    requires
        s.wf(),
    ensures
        forall|i: int|
            0 <= i < flush_promoted(s).snd_buf.len() ==> (#[trigger] flush_promoted(
                s,
            ).snd_buf[i]).conv == s.conv && flush_promoted(s).snd_buf[i].cmd == CMD_PUSH
                && flush_promoted(s).snd_buf[i].data.len() <= u32::MAX,
{
    let q = KcpState { probe: 0, ..flush_scheduled(s) };
    let p = flush_promoted(s);
    let k = promote_count(q);
    let run = promoted_run(context(q), q.snd_queue, q.snd_nxt, k);
    assert(q.snd_buf == s.snd_buf && q.snd_queue == s.snd_queue);
    assert(p.snd_buf == s.snd_buf + run);
    assert forall|i: int| 0 <= i < p.snd_buf.len() implies (#[trigger] p.snd_buf[i]).conv == s.conv
        && p.snd_buf[i].cmd == CMD_PUSH && p.snd_buf[i].data.len() <= u32::MAX by {
        if i < s.snd_buf.len() {
            assert(p.snd_buf[i] == s.snd_buf[i]);
        } else {
            let j = i - s.snd_buf.len();
            assert(p.snd_buf[i] == run[j]);
            assert(run[j].data == s.snd_queue[j].data);
        }
    }
}

/// No encoded segment of a flush is longer than the MTU, where all
/// payloads are within the MSS.
pub proof fn lemma_flush_wire_bound(s: KcpState)
    requires
        s.wf(),
        s.payloads_fit_mss(),
    ensures
        forall|i: int| 0 <= i < flush_wire(s).len() ==> (#[trigger] flush_wire(s)[i]).len() <= s.mtu,
{
    let c = context(s);
    let p = flush_promoted(s);
    lemma_promoted_payloads(s);
    lemma_data_wire_bound(c, p.snd_buf, s.mss as int);
    let tail = last_ack(s.acklist);
    let wire = flush_wire(s);
    let a = ack_wire(c, s.acklist);
    let b = probe_wire(c, flush_scheduled(s).probe, tail.0, tail.1);
    let d = data_wire(c, p.snd_buf);
    assert(wire == a + b + d);
    assert forall|i: int| 0 <= i < a.len() implies (#[trigger] a[i]).len() == OVERHEAD by {}
    assert forall|i: int| 0 <= i < b.len() implies (#[trigger] b[i]).len() == OVERHEAD by {}
    assert forall|i: int| 0 <= i < wire.len() implies (#[trigger] wire[i]).len() <= s.mtu by {
        if i < a.len() {
            assert(wire[i] == a[i]);
        } else if i < a.len() + b.len() {
            assert(wire[i] == b[i - a.len()]);
        } else {
            assert(wire[i] == d[i - a.len() - b.len()]);
        }
    }
}

/// Datagrams: while every queued payload is within the MSS, no datagram of
/// a flush is longer than the MTU, and none is empty.
pub proof fn lemma_flush_within_mtu(s: KcpState)
    requires
        s.wf(),
        s.payloads_fit_mss(),
    ensures
        forall|i: int|
            0 <= i < flush_output(s).len() ==> 0 < (#[trigger] flush_output(s)[i]).len() <= s.mtu,
{
    if s.updated {
        lemma_flush_wire_bound(s);
        lemma_pack_within_mtu(flush_wire(s), s.mtu as int);
    }
}

} // verus!
