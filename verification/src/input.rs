//! Input: what a datagram from the peer does to the block.

use vstd::prelude::*;
use std::collections::VecDeque;
use crate::ack::{
    grow_window, lemma_grow_window_keeps, lemma_parse_ack_keeps, lemma_parse_ack_keeps_wf,
    lemma_parse_fastack_keeps, lemma_parse_fastack_keeps_wf, lemma_parse_una_keeps,
    lemma_parse_una_keeps_wf, lemma_update_ack_keeps_wf, parse_ack, parse_fastack, parse_una,
    shrink, update_ack,
};
use crate::clock::{spec_timediff, timediff};
use crate::segment::{
    Segment, SegmentView, lemma_rank, rank, received_segment, sn_ascending, views,
};
use crate::state::{ASK_TELL, KCP, KcpError, KcpState};
use crate::wire::{
    CMD_ACK, CMD_PUSH, CMD_WASK, CMD_WINS, Header, OVERHEAD, decode_header, known_cmd,
    spec_decode_header,
};

verus! {

/// The number of segments at the front of the receive buffer that are next
/// in order and for which the receive queue, which holds `held` segments,
/// has room within the window of `wnd` segments. Sequence numbers do not
/// wrap: a segment numbered `u32::MAX` is never next.
pub open spec fn slide_count(buf: Seq<SegmentView>, nxt: u32, held: int, wnd: u32) -> int
    decreases buf.len(),
{
    if buf.len() > 0 && buf[0].sn == nxt && held < wnd && nxt < u32::MAX {
        1 + slide_count(buf.drop_first(), (nxt + 1) as u32, held + 1, wnd)
    } else {
        0
    }
}

/// The block after the segments that are next in order have moved from the
/// receive buffer to the receive queue.
pub open spec fn slide(s: KcpState) -> KcpState {
    let k = slide_count(s.rcv_buf, s.rcv_nxt, s.rcv_queue.len() as int, s.rcv_wnd);
    KcpState {
        rcv_queue: s.rcv_queue + s.rcv_buf.subrange(0, k),
        rcv_buf: s.rcv_buf.subrange(k, s.rcv_buf.len() as int),
        rcv_nxt: (s.rcv_nxt + k) as u32,
        ..s
    }
}

/// Whether `sn` lies within the receive window.
pub open spec fn in_window(s: KcpState, sn: u32) -> bool {
    s.rcv_nxt <= sn < s.rcv_nxt + s.rcv_wnd
}

/// The receive buffer with `seg` at its place, unless a segment of that
/// number is already there.
pub open spec fn insert_by_sn(buf: Seq<SegmentView>, seg: SegmentView) -> Seq<SegmentView> {
    let i = rank(buf, seg.sn);
    if i < buf.len() && buf[i].sn == seg.sn {
        buf
    } else {
        buf.insert(i, seg)
    }
}

/// The block after the data segment `seg` arrived: outside the receive
/// window it is dropped; within, it enters the receive buffer at its place
/// unless it is there already, and what is next in order moves on to the
/// receive queue.
pub open spec fn parse_data(s: KcpState, seg: SegmentView) -> KcpState {
    if !in_window(s, seg.sn) {
        s
    } else {
        slide(KcpState { rcv_buf: insert_by_sn(s.rcv_buf, seg), ..s })
    }
}

/// The block after one segment of a datagram was taken in: the peer's
/// window and cumulative acknowledgement first, then what the command asks
/// for. An acknowledgement gives a round-trip sample, unless its time stamp
/// lies ahead of the clock, and takes its segment out of flight. A data
/// segment within the receive window is noted for acknowledgement and
/// taken in; one outside of it, be it one that the application has had
/// already, is passed over: the peer learns what has arrived from the
/// cumulative acknowledgement that every segment sent to it carries. A
/// window question makes a window announcement due.
pub open spec fn input_segment(s: KcpState, h: Header, data: Seq<u8>) -> KcpState {
    let s1 = shrink(parse_una(KcpState { rmt_wnd: h.wnd as u32, ..s }, h.una));
    if h.cmd == CMD_ACK {
        let rtt = spec_timediff(s1.current, h.ts);
        let s2 = if rtt >= 0 {
            update_ack(s1, rtt as u32)
        } else {
            s1
        };
        shrink(parse_ack(s2, h.sn))
    } else if h.cmd == CMD_PUSH {
        if in_window(s1, h.sn) {
            parse_data(
                KcpState { acklist: s1.acklist.push((h.sn, h.ts)), ..s1 },
                received_segment(h, data),
            )
        } else {
            s1
        }
    } else if h.cmd == CMD_WASK {
        KcpState { probe: s1.probe | ASK_TELL, ..s1 }
    } else {
        s1
    }
}

/// The highest sequence number acknowledged so far in a datagram, after
/// the segment under `h`.
pub open spec fn highest_ack(acked: Option<u32>, h: Header) -> Option<u32> {
    if h.cmd == CMD_ACK {
        match acked {
            Some(m) => Some(
                if h.sn > m {
                    h.sn
                } else {
                    m
                },
            ),
            None => Some(h.sn),
        }
    } else {
        acked
    }
}

/// Where the reading of a datagram ended.
pub ghost struct Scan {
    /// The block after the segments that were taken in.
    pub state: KcpState,
    /// The number of bytes that these segments cover.
    pub consumed: int,
    /// The highest sequence number that they acknowledged.
    pub acked: Option<u32>,
    /// Why the reading stopped before the end, if it did.
    pub error: Option<KcpError>,
}

/// Reads the segments of `bytes` from `pos` on, one after the other. The
/// reading ends without error where no byte is left, and with an error at
/// the first header that is cut short, with fewer than 24 bytes left for
/// it, that names another conversation, that announces more payload than
/// is left, or that carries an unknown command; the segments before it
/// have been taken in by then.
pub open spec fn input_scan(s: KcpState, bytes: Seq<u8>, pos: int, acked: Option<u32>) -> Scan
    decreases bytes.len() - pos,
{
    if pos < 0 || pos >= bytes.len() {
        Scan { state: s, consumed: pos, acked, error: None }
    } else if bytes.len() - pos < OVERHEAD {
        Scan { state: s, consumed: pos, acked, error: Some(KcpError::InvalidData) }
    } else {
        let h = spec_decode_header(bytes.subrange(pos, pos + OVERHEAD));
        let left = bytes.len() - pos - OVERHEAD;
        if h.conv != s.conv {
            Scan { state: s, consumed: pos, acked, error: Some(KcpError::InvalidData) }
        } else if left < h.len {
            Scan { state: s, consumed: pos, acked, error: Some(KcpError::UnexpectedEof) }
        } else if !known_cmd(h.cmd) {
            Scan { state: s, consumed: pos, acked, error: Some(KcpError::InvalidData) }
        } else {
            let data = bytes.subrange(pos + OVERHEAD, pos + OVERHEAD + h.len);
            input_scan(
                input_segment(s, h, data),
                bytes,
                pos + OVERHEAD + h.len,
                highest_ack(acked, h),
            )
        }
    }
}

/// The block after the datagram `bytes` was handed to it. A datagram of
/// fewer than 24 bytes changes nothing. After a datagram that was read to
/// its end, the skips are counted against the highest acknowledgement and
/// the congestion window opens if `snd_una` has moved; after one that was
/// not, be it for a header cut short at its end, neither happens.
pub open spec fn input_state(s: KcpState, bytes: Seq<u8>) -> KcpState {
    let scan = input_scan(s, bytes, 0, None);
    if bytes.len() < OVERHEAD {
        s
    } else if scan.error.is_some() {
        scan.state
    } else {
        let counted = match scan.acked {
            Some(m) => parse_fastack(scan.state, m),
            None => scan.state,
        };
        grow_window(counted, s.snd_una)
    }
}

/// What `input` returns for the datagram `bytes`: its length where it was
/// read to its end, or the error that stopped the reading. A datagram of
/// fewer than 24 bytes, an empty one too, is `InvalidData`.
pub open spec fn input_result(s: KcpState, bytes: Seq<u8>) -> Result<usize, KcpError> {
    let scan = input_scan(s, bytes, 0, None);
    if bytes.len() < OVERHEAD {
        Err(KcpError::InvalidData)
    } else {
        match scan.error {
            Some(e) => Err(e),
            None => Ok(scan.consumed as usize),
        }
    }
}

/// Moving on what is next in order keeps the block well formed and within
/// its window, and delivers nothing.
pub proof fn lemma_slide_keeps_wf(s: KcpState)
    requires
        s.wf(),
    ensures
        slide(s).wf(),
        s.rcv_within_window() ==> slide(s).rcv_within_window(),
        s.advances(slide(s)),
        slide(s).delivered() == s.delivered(),
{
    lemma_slide_count(s.rcv_buf, s.rcv_nxt, s.rcv_queue.len() as int, s.rcv_wnd);
    let k = slide_count(s.rcv_buf, s.rcv_nxt, s.rcv_queue.len() as int, s.rcv_wnd);
    let t = slide(s);
    assert forall|i: int| 0 <= i < t.rcv_buf.len() implies (#[trigger] t.rcv_buf[i]).sn
        >= t.rcv_nxt && (s.rcv_within_window() ==> t.rcv_buf[i].sn < t.rcv_nxt + t.rcv_wnd) by {
        assert(t.rcv_buf[i] == s.rcv_buf[i + k]);
        if k > 0 {
            assert(s.rcv_buf[k - 1].sn < s.rcv_buf[i + k].sn);
        }
    }
    assert forall|i: int, j: int| 0 <= i < j < t.rcv_buf.len() implies t.rcv_buf[i].sn
        < t.rcv_buf[j].sn by {
        assert(t.rcv_buf[i] == s.rcv_buf[i + k]);
        assert(t.rcv_buf[j] == s.rcv_buf[j + k]);
    }
    assert forall|i: int| 0 <= i < t.rcv_queue.len() implies (#[trigger] t.rcv_queue[i]).sn
        == t.rcv_nxt - t.rcv_queue.len() + i by {
        if i < s.rcv_queue.len() {
            assert(t.rcv_queue[i] == s.rcv_queue[i]);
        } else {
            assert(t.rcv_queue[i] == s.rcv_buf[i - s.rcv_queue.len()]);
        }
    }
}

/// What `slide_count` counts: segments numbered from `nxt` on, as many as
/// the window has room for.
pub proof fn lemma_slide_count(buf: Seq<SegmentView>, nxt: u32, held: int, wnd: u32)
    ensures
        0 <= slide_count(buf, nxt, held, wnd) <= buf.len(),
        nxt + slide_count(buf, nxt, held, wnd) <= u32::MAX,
        slide_count(buf, nxt, held, wnd) > 0 ==> held + slide_count(buf, nxt, held, wnd) <= wnd,
        forall|i: int| 0 <= i < slide_count(buf, nxt, held, wnd) ==> (#[trigger] buf[i]).sn == nxt + i,
    decreases buf.len(),
{
    if buf.len() > 0 && buf[0].sn == nxt && held < wnd && nxt < u32::MAX {
        let rest = buf.drop_first();
        lemma_slide_count(rest, (nxt + 1) as u32, held + 1, wnd);
        assert forall|i: int| 0 <= i < slide_count(buf, nxt, held, wnd) implies (
        #[trigger] buf[i]).sn == nxt + i by {
            if i > 0 {
                assert(buf[i] == rest[i - 1]);
            }
        }
    }
}

/// After the segments that `slide_count` counts, the next one is not next
/// in order, or the window is full, or the numbers are used up.
pub proof fn lemma_slide_stops(buf: Seq<SegmentView>, nxt: u32, held: int, wnd: u32)
    ensures
        ({
            let k = slide_count(buf, nxt, held, wnd);
            let rest = buf.subrange(k, buf.len() as int);
            &&& slide_count(rest, (nxt + k) as u32, held + k, wnd) == 0
            &&& rest.len() == 0 || rest[0].sn != nxt + k || held + k >= wnd || nxt + k == u32::MAX
        }),
    decreases buf.len(),
{
    lemma_slide_count(buf, nxt, held, wnd);
    let k = slide_count(buf, nxt, held, wnd);
    if buf.len() > 0 && buf[0].sn == nxt && held < wnd && nxt < u32::MAX {
        let rest = buf.drop_first();
        lemma_slide_stops(rest, (nxt + 1) as u32, held + 1, wnd);
        lemma_slide_count(rest, (nxt + 1) as u32, held + 1, wnd);
        assert(rest.subrange(k - 1, rest.len() as int) =~= buf.subrange(k, buf.len() as int));
    } else {
        assert(buf.subrange(0, buf.len() as int) =~= buf);
    }
}

/// The slide is as long as it can be: the segments that move are those
/// numbered from `rcv_nxt` on, one after the other, and afterwards the
/// receive buffer is empty, or its first segment is not next in order, or
/// the receive queue fills the window, or the last sequence number is
/// reached.
pub proof fn lemma_slide_is_maximal(s: KcpState)
    ensures
        ({
            let t = slide(s);
            let k = t.rcv_nxt - s.rcv_nxt;
            &&& 0 <= k <= s.rcv_buf.len()
            &&& t.rcv_queue == s.rcv_queue + s.rcv_buf.subrange(0, k)
            &&& t.rcv_buf == s.rcv_buf.subrange(k, s.rcv_buf.len() as int)
            &&& forall|i: int| 0 <= i < k ==> (#[trigger] s.rcv_buf[i]).sn == s.rcv_nxt + i
            &&& t.rcv_buf.len() == 0 || t.rcv_buf[0].sn != t.rcv_nxt || t.rcv_queue.len()
                >= t.rcv_wnd || t.rcv_nxt == u32::MAX
            &&& s.rcv_queue.len() <= s.rcv_wnd ==> t.rcv_queue.len() <= t.rcv_wnd
        }),
{
    lemma_slide_count(s.rcv_buf, s.rcv_nxt, s.rcv_queue.len() as int, s.rcv_wnd);
    lemma_slide_stops(s.rcv_buf, s.rcv_nxt, s.rcv_queue.len() as int, s.rcv_wnd);
}

/// An arriving data segment within the window leaves nothing behind that
/// is next in order and has room: the slide after it is as long as it can
/// be.
pub proof fn lemma_parse_data_slides_all(s: KcpState, seg: SegmentView)
    requires
        s.wf(),
    ensures
        ({
            let t = parse_data(s, seg);
            let k = t.rcv_nxt - s.rcv_nxt;
            let held = if in_window(s, seg.sn) {
                insert_by_sn(s.rcv_buf, seg)
            } else {
                s.rcv_buf
            };
            &&& 0 <= k <= held.len()
            &&& t.rcv_queue == s.rcv_queue + held.subrange(0, k)
            &&& forall|i: int| 0 <= i < k ==> (#[trigger] held[i]).sn == s.rcv_nxt + i
            &&& in_window(s, seg.sn) ==> t.rcv_buf.len() == 0 || t.rcv_buf[0].sn != t.rcv_nxt
                || t.rcv_queue.len() >= t.rcv_wnd || t.rcv_nxt == u32::MAX
            &&& s.rcv_queue.len() <= s.rcv_wnd ==> t.rcv_queue.len() <= t.rcv_wnd
        }),
{
    if in_window(s, seg.sn) {
        let m = KcpState { rcv_buf: insert_by_sn(s.rcv_buf, seg), ..s };
        lemma_slide_is_maximal(m);
    } else {
        assert(s.rcv_buf.subrange(0, 0) =~= Seq::<SegmentView>::empty());
        assert(s.rcv_queue + s.rcv_buf.subrange(0, 0) =~= s.rcv_queue);
    }
}

/// Putting a segment at its place keeps the receive buffer in order.
pub proof fn lemma_insert_by_sn(buf: Seq<SegmentView>, seg: SegmentView)
    requires
        sn_ascending(buf),
    ensures
        sn_ascending(insert_by_sn(buf, seg)),
        forall|i: int|
            0 <= i < insert_by_sn(buf, seg).len() ==> (#[trigger] insert_by_sn(buf, seg)[i]) == seg
                || exists|j: int| 0 <= j < buf.len() && buf[j] == insert_by_sn(buf, seg)[i],
{
    lemma_rank(buf, seg.sn);
    let r = rank(buf, seg.sn);
    let out = insert_by_sn(buf, seg);
    if r < buf.len() && buf[r].sn == seg.sn {
    } else {
        assert forall|i: int| 0 <= i < out.len() implies out[i] == (if i < r {
            buf[i]
        } else if i == r {
            seg
        } else {
            buf[i - 1]
        }) by {}
        assert forall|i: int, j: int| 0 <= i < j < out.len() implies out[i].sn < out[j].sn by {
            if j < r {
            } else if j == r {
                assert(out[i] == buf[i]);
            } else if i < r {
                assert(out[i] == buf[i]);
                assert(out[j] == buf[j - 1]);
            } else if i == r {
                assert(out[j] == buf[j - 1]);
                assert(buf[j - 1].sn >= seg.sn);
                if r < j - 1 {
                    assert(buf[r].sn < buf[j - 1].sn);
                }
            } else {
                assert(out[i] == buf[i - 1]);
                assert(out[j] == buf[j - 1]);
            }
        }
        assert forall|i: int| 0 <= i < out.len() implies (#[trigger] out[i]) == seg || exists|
            j: int,
        | 0 <= j < buf.len() && buf[j] == out[i] by {
            if i < r {
                assert(buf[i] == out[i]);
            } else if i > r {
                assert(buf[i - 1] == out[i]);
            }
        }
    }
}

/// An arriving data segment keeps the block well formed and within its
/// window, and delivers nothing.
pub proof fn lemma_parse_data_keeps_wf(s: KcpState, seg: SegmentView)
    requires
        s.wf(),
    ensures
        parse_data(s, seg).wf(),
        s.rcv_within_window() ==> parse_data(s, seg).rcv_within_window(),
        s.advances(parse_data(s, seg)),
        parse_data(s, seg).delivered() == s.delivered(),
{
    if in_window(s, seg.sn) {
        lemma_insert_by_sn(s.rcv_buf, seg);
        let m = KcpState { rcv_buf: insert_by_sn(s.rcv_buf, seg), ..s };
        assert forall|i: int| 0 <= i < m.rcv_buf.len() implies (#[trigger] m.rcv_buf[i]).sn
            >= m.rcv_nxt && (s.rcv_within_window() ==> m.rcv_buf[i].sn < m.rcv_nxt + m.rcv_wnd) by {
            if m.rcv_buf[i] != seg {
                let j = choose|j: int| 0 <= j < s.rcv_buf.len() && s.rcv_buf[j] == m.rcv_buf[i];
                assert(s.rcv_buf[j].sn >= s.rcv_nxt);
            }
        }
        lemma_slide_keeps_wf(m);
    }
}

/// An arriving data segment keeps what held of the block.
pub proof fn lemma_parse_data_keeps(s: KcpState, seg: SegmentView)
    requires
        s.wf(),
    ensures
        parse_data(s, seg).wf(),
        s.keeps(parse_data(s, seg)),
        s.advances(parse_data(s, seg)),
        parse_data(s, seg).delivered() == s.delivered(),
{
    lemma_parse_data_keeps_wf(s, seg);
}

/// Taking in one segment of a datagram keeps the block well formed and
/// what held of it, and delivers nothing.
pub proof fn lemma_input_segment_keeps(s: KcpState, h: Header, data: Seq<u8>)
    requires
        s.wf(),
    ensures
        input_segment(s, h, data).wf(),
        s.keeps(input_segment(s, h, data)),
        s.advances(input_segment(s, h, data)),
        input_segment(s, h, data).delivered() == s.delivered(),
{
    let s0 = KcpState { rmt_wnd: h.wnd as u32, ..s };
    assert(s0.wf());
    assert(s.keeps(s0));
    lemma_parse_una_keeps(s0, h.una);
    let s1 = shrink(parse_una(s0, h.una));
    if h.cmd == CMD_ACK {
        let rtt = spec_timediff(s1.current, h.ts);
        let s2 = if rtt >= 0 {
            update_ack(s1, rtt as u32)
        } else {
            s1
        };
        if rtt >= 0 {
            lemma_update_ack_keeps_wf(s1, rtt as u32);
        }
        lemma_parse_ack_keeps(s2, h.sn);
    } else if h.cmd == CMD_PUSH {
        if in_window(s1, h.sn) {
            let s2 = KcpState { acklist: s1.acklist.push((h.sn, h.ts)), ..s1 };
            assert(s2.wf());
            assert(s1.keeps(s2));
            lemma_parse_data_keeps(s2, received_segment(h, data));
        }
    } else if h.cmd == CMD_WASK {
        let s2 = KcpState { probe: s1.probe | ASK_TELL, ..s1 };
        assert(s2.wf());
        assert(s1.keeps(s2));
    }
}

/// Reading the segments of a datagram keeps the block well formed and what
/// held of it, and delivers nothing.
pub proof fn lemma_input_scan_keeps(s: KcpState, bytes: Seq<u8>, pos: int, acked: Option<u32>)
    requires
        s.wf(),
    ensures
        input_scan(s, bytes, pos, acked).state.wf(),
        s.keeps(input_scan(s, bytes, pos, acked).state),
        s.advances(input_scan(s, bytes, pos, acked).state),
        input_scan(s, bytes, pos, acked).state.delivered() == s.delivered(),
        input_scan(s, bytes, pos, acked).error.is_none() && pos >= 0 ==> pos <= input_scan(
            s,
            bytes,
            pos,
            acked,
        ).consumed <= bytes.len() || bytes.len() < pos,
    decreases bytes.len() - pos,
{
    if pos < 0 || bytes.len() - pos < OVERHEAD {
    } else {
        let h = spec_decode_header(bytes.subrange(pos, pos + OVERHEAD));
        let left = bytes.len() - pos - OVERHEAD;
        if h.conv != s.conv {
        } else if left < h.len {
        } else if !known_cmd(h.cmd) {
        } else {
            let data = bytes.subrange(pos + OVERHEAD, pos + OVERHEAD + h.len);
            lemma_input_segment_keeps(s, h, data);
            lemma_input_scan_keeps(
                input_segment(s, h, data),
                bytes,
                pos + OVERHEAD + h.len,
                highest_ack(acked, h),
            );
        }
    }
}

/// A datagram from the peer, whatever it holds, leaves a well-formed block
/// well formed, keeps what held of it, and hands nothing to the
/// application.
pub proof fn lemma_input_keeps(s: KcpState, bytes: Seq<u8>)
    requires
        s.wf(),
    ensures
        input_state(s, bytes).wf(),
        s.keeps(input_state(s, bytes)),
        s.advances(input_state(s, bytes)),
        input_state(s, bytes).delivered() == s.delivered(),
{
    let scan = input_scan(s, bytes, 0, None);
    lemma_input_scan_keeps(s, bytes, 0, None);
    if bytes.len() >= OVERHEAD && scan.error.is_none() {
        let counted = match scan.acked {
            Some(m) => parse_fastack(scan.state, m),
            None => scan.state,
        };
        if let Some(m) = scan.acked {
            lemma_parse_fastack_keeps(scan.state, m);
        }
        lemma_grow_window_keeps(counted, s.snd_una);
    }
}

/// Moves the segments that are next in order from the receive buffer to
/// the receive queue.
pub(crate) fn slide_segments(
    buf: &mut VecDeque<Segment>,
    queue: &mut VecDeque<Segment>,
    rcv_nxt: &mut u32,
    wnd: u32,
)
    ensures
        ({
            let k = slide_count(
                views(old(buf)@),
                *old(rcv_nxt),
                old(queue)@.len() as int,
                wnd,
            );
            &&& *final(rcv_nxt) == *old(rcv_nxt) + k
            &&& views(final(queue)@) == views(old(queue)@) + views(old(buf)@).subrange(0, k)
            &&& views(final(buf)@) == views(old(buf)@).subrange(k, old(buf)@.len() as int)
        }),
{
    let ghost buf0 = views(buf@);
    let ghost queue0 = views(queue@);
    let ghost nxt0 = *rcv_nxt;
    let ghost goal = slide_count(buf0, nxt0, queue0.len() as int, wnd);
    let ghost mut k: int = 0;
    proof {
        assert(buf0.subrange(0, buf0.len() as int) =~= buf0);
        assert(views(queue@) =~= queue0 + buf0.subrange(0, 0));
    }
    while buf.len() > 0 && buf[0].sn == *rcv_nxt && queue.len() < wnd as usize && *rcv_nxt
        < u32::MAX
        invariant
            0 <= k <= buf0.len(),
            *rcv_nxt == nxt0 + k,
            buf@.len() == buf0.len() - k,
            queue@.len() == queue0.len() + k,
            views(buf@) == buf0.subrange(k, buf0.len() as int),
            views(queue@) == queue0 + buf0.subrange(0, k),
            goal == k + slide_count(views(buf@), *rcv_nxt, queue@.len() as int, wnd),
        ensures
            k == goal,
            *rcv_nxt == nxt0 + k,
            views(buf@) == buf0.subrange(k, buf0.len() as int),
            views(queue@) == queue0 + buf0.subrange(0, k),
        decreases buf@.len(),
    {
        let ghost waiting = buf@;
        let ghost held = queue@;
        proof {
            assert(views(waiting)[0] == waiting[0]@);
        }
        let front = buf.pop_front();
        match front {
            Some(seg) => {
                let ghost moved = seg@;
                queue.push_back(seg);
                *rcv_nxt = *rcv_nxt + 1;
                proof {
                    assert(moved == buf0[k]);
                    assert(views(buf@) =~= views(waiting).drop_first());
                    assert(views(buf@) =~= buf0.subrange(k + 1, buf0.len() as int));
                    assert(views(queue@) =~= queue0 + buf0.subrange(0, k + 1)) by {
                        assert forall|j: int| 0 <= j < queue0.len() + k + 1 implies views(
                            queue@,
                        )[j] == (queue0 + buf0.subrange(0, k + 1))[j] by {
                            if j < queue0.len() + k {
                                assert(views(queue@)[j] == views(held)[j]);
                            }
                        }
                    }
                    k = k + 1;
                }
            },
            None => {},
        }
    }
    proof {
        if buf@.len() > 0 {
            assert(views(buf@)[0] == buf@[0]@);
        }
    }
}

/// Puts `seg` at its place in the receive buffer, unless a segment of that
/// number is there already.
fn insert_segment(buf: &mut VecDeque<Segment>, seg: Segment)
    requires
        sn_ascending(views(old(buf)@)),
    ensures
        views(final(buf)@) == insert_by_sn(views(old(buf)@), seg@),
{
    let ghost before = views(buf@);
    let sn: u32 = seg.sn;
    let n: usize = buf.len();
    let mut index: usize = n;
    let mut repeat: bool = false;
    while index > 0
        invariant_except_break
            !repeat,
        invariant
            n == buf@.len(),
            before == views(buf@),
            0 <= index <= n,
            forall|j: int| index <= j < n ==> (#[trigger] before[j]).sn > sn,
        ensures
            0 <= index <= n,
            forall|j: int| index <= j < n ==> (#[trigger] before[j]).sn > sn,
            repeat ==> index > 0 && before[index - 1].sn == sn,
            !repeat && index > 0 ==> before[index - 1].sn < sn,
        decreases index,
    {
        let held: u32 = buf[index - 1].sn;
        proof {
            assert(before[index - 1] == buf@[index - 1]@);
        }
        if sn == held {
            repeat = true;
            break ;
        } else if sn > held {
            break ;
        }
        index -= 1;
    }
    proof {
        lemma_rank(before, sn);
        let r = rank(before, sn);
        if repeat {
            if r < index - 1 {
                assert(before[r].sn < before[index - 1].sn);
            }
            if r > index - 1 {
                assert(before[index - 1].sn < sn);
            }
            assert(r == index - 1);
        } else {
            if r < index {
                assert(before[r].sn >= sn);
                if r < index - 1 {
                    assert(before[r].sn < before[index - 1].sn);
                }
            }
            if r > index {
                assert(before[index as int].sn < sn);
            }
            assert(r == index);
        }
    }
    if !repeat {
        let ghost entered = seg@;
        buf.insert(index, seg);
        proof {
            assert(views(buf@) =~= before.insert(index as int, entered));
        }
    }
}

impl KCP {
    /// Takes in a data segment that arrived.
    pub(crate) fn parse_data(&mut self, newseg: Segment)
        requires
            old(self)@.wf(),
        ensures
            final(self)@ == parse_data(old(self)@, newseg@),
            final(self)@.wf(),
            final(self).scratch() == old(self).scratch(),
    {
        let sn: u32 = newseg.sn;
        if sn as u64 >= self.rcv_nxt as u64 + self.rcv_wnd as u64 || sn < self.rcv_nxt {
            return ;
        }
        proof {
            lemma_parse_data_keeps_wf(self@, newseg@);
        }
        insert_segment(&mut self.rcv_buf, newseg);
        slide_segments(&mut self.rcv_buf, &mut self.rcv_queue, &mut self.rcv_nxt, self.rcv_wnd);
    }

    /// Takes in the segment under `h`, whose payload stands at
    /// `buf[at..at + h.len]`.
    fn input_segment(&mut self, h: &Header, buf: &[u8], at: usize)
        requires
            old(self)@.wf(),
            at + h.len <= buf@.len(),
        ensures
            final(self)@ == input_segment(
                old(self)@,
                *h,
                buf@.subrange(at as int, at + h.len),
            ),
            final(self)@.wf(),
            final(self).scratch() == old(self).scratch(),
    {
        self.rmt_wnd = h.wnd as u32;
        proof {
            lemma_parse_una_keeps_wf(self@, h.una);
        }
        self.parse_una(h.una);
        self.shrink_buf();
        if h.cmd == CMD_ACK {
            let rtt: i32 = timediff(self.current, h.ts);
            if rtt >= 0 {
                self.update_ack(rtt as u32);
            }
            proof {
                lemma_parse_ack_keeps_wf(self@, h.sn);
            }
            self.parse_ack(h.sn);
            self.shrink_buf();
        } else if h.cmd == CMD_PUSH {
            if h.sn >= self.rcv_nxt && (h.sn as u64) < self.rcv_nxt as u64 + self.rcv_wnd as u64 {
                self.acklist.push((h.sn, h.ts));
                assert(at + h.len <= buf.len());
                let end: usize = at + h.len as usize;
                let part: &[u8] = &buf[at..end];
                let data: Vec<u8> = vstd::slice::slice_to_vec(part);
                let seg = Segment {
                    conv: h.conv,
                    cmd: h.cmd,
                    frg: h.frg,
                    wnd: h.wnd,
                    ts: h.ts,
                    sn: h.sn,
                    una: h.una,
                    resendts: 0,
                    rto: 0,
                    fastack: 0,
                    xmit: 0,
                    data,
                };
                self.parse_data(seg);
            }
        } else if h.cmd == CMD_WASK {
            self.probe = self.probe | ASK_TELL;
        }
    }

    /// Takes in a datagram that arrived from the peer, which holds one
    /// segment or more, one after the other and nothing else. Returns the
    /// length of the datagram, or the error that stopped the reading: a
    /// header that is cut short, one of another conversation or with an
    /// unknown command (`InvalidData`), or one that announces more payload
    /// than is left (`UnexpectedEof`). The segments before an error have
    /// been taken in.
    pub fn input(&mut self, buf: &[u8]) -> (r: Result<usize, KcpError>)
        requires
            old(self).wf(),
        ensures
            final(self).wf(),
            final(self)@ == input_state(old(self)@, buf@),
            r == input_result(old(self)@, buf@),
            old(self)@.keeps(final(self)@),
            old(self)@.advances(final(self)@),
            final(self)@.delivered() == old(self)@.delivered(),
    {
        proof {
            lemma_input_keeps(self@, buf@);
        }
        let n: usize = buf.len();
        if n < OVERHEAD {
            return Err(KcpError::InvalidData);
        }
        let ghost s0 = self@;
        let old_una: u32 = self.snd_una;
        let mut flag: bool = false;
        let mut maxack: u32 = 0;
        let mut pos: usize = 0;
        while pos < n
            invariant
                n == buf@.len(),
                n >= OVERHEAD,
                0 <= pos <= n,
                s0 == old(self)@,
                s0.keeps(input_state(s0, buf@)),
                s0.advances(input_state(s0, buf@)),
                input_state(s0, buf@).delivered() == s0.delivered(),
                self.wf(),
                input_scan(s0, buf@, 0, None) == input_scan(
                    self@,
                    buf@,
                    pos as int,
                    if flag {
                        Some(maxack)
                    } else {
                        None
                    },
                ),
            decreases n - pos,
        {
            if n - pos < OVERHEAD {
                return Err(KcpError::InvalidData);
            }
            let h: Header = decode_header(buf, pos);
            if h.conv != self.conv {
                return Err(KcpError::InvalidData);
            }
            if n - pos - OVERHEAD < h.len as usize {
                return Err(KcpError::UnexpectedEof);
            }
            if h.cmd != CMD_PUSH && h.cmd != CMD_ACK && h.cmd != CMD_WASK && h.cmd != CMD_WINS {
                return Err(KcpError::InvalidData);
            }
            self.input_segment(&h, buf, pos + OVERHEAD);
            if h.cmd == CMD_ACK {
                if !flag {
                    flag = true;
                    maxack = h.sn;
                } else if h.sn > maxack {
                    maxack = h.sn;
                }
            }
            pos = pos + OVERHEAD + h.len as usize;
        }
        if flag {
            proof {
                lemma_parse_fastack_keeps_wf(self@, maxack);
            }
            self.parse_fastack(maxack);
        }
        self.grow_window(old_una);
        Ok(pos)
    }
}

} // verus!
