//! Laws of the protocol: what holds of every block, whatever it is fed.

use vstd::prelude::*;
use crate::ack::{
    grow_window, lemma_grow_window_keeps, lemma_parse_ack_keeps, lemma_parse_fastack_keeps,
    lemma_parse_una_keeps, lemma_update_ack_keeps_wf, parse_ack, parse_fastack, parse_una,
    shrink, update_ack,
};
use crate::clock::spec_timediff;
use crate::flush::{
    FlushContext, Transmission, ack_wire, classify, context, data_wire, encode_segment,
    flush_output, flush_promoted, flush_scheduled, flush_wire, last_ack, lemma_flush_output_bytes,
    probe_wire, rto_step, transmitted, wnd_unused,
};
use crate::input::{
    highest_ack, in_window, input_scan, input_segment, input_state, insert_by_sn,
    lemma_input_segment_keeps,
    lemma_insert_by_sn, lemma_parse_data_keeps_wf, lemma_slide_count, lemma_slide_stops,
    parse_data, slide, slide_count,
};
use crate::pack::concat;
use crate::recv::{head_count, head_message, message_ready, recv_result, recv_state};
use crate::segment::{
    SegmentView, header_of, lemma_rank, payload, rank, received_segment, sn_ascending,
};
use crate::send::{
    coalesced, extend_last, fragment, fragment_count, fragment_index, fragments,
    lemma_fragment_count, send_result, send_state,
};
use crate::state::{ASK_TELL, KcpError, KcpState, initial_state};
use crate::wire::{
    CMD_ACK, CMD_PUSH, CMD_WASK, CMD_WINS, Header, OVERHEAD, known_cmd, lemma_decode_reads_front,
    lemma_header_roundtrip, lemma_header_size, spec_decode_header, spec_encode_header,
};

verus! {

/// A new block is well formed and has all that a block can keep: its
/// receive side is within the window, its timeout is above the minimum, and
/// it holds no payload at all.
pub proof fn lemma_new_block(conv: u32)
    ensures
        initial_state(conv).wf(),
        initial_state(conv).window_open(),
        initial_state(conv).rcv_within_window(),
        initial_state(conv).rto_above_min(),
        initial_state(conv).payloads_fit_mss(),
        initial_state(conv).delivered() == 0,
{
}

/// A segment whose payload the length field can count comes back from the
/// wire as it went: the first 24 bytes decode to its header, the rest is
/// its payload.
pub proof fn lemma_segment_roundtrip(seg: SegmentView)
    requires
        seg.data.len() <= u32::MAX,
    ensures
        encode_segment(seg).len() == OVERHEAD + seg.data.len(),
        spec_decode_header(encode_segment(seg).subrange(0, OVERHEAD as int)) == header_of(seg),
        spec_decode_header(encode_segment(seg)) == header_of(seg),
        header_of(seg).len == seg.data.len(),
        encode_segment(seg).subrange(OVERHEAD as int, OVERHEAD + seg.data.len()) == seg.data,
{
    let h = header_of(seg);
    let w = encode_segment(seg);
    lemma_header_roundtrip(h);
    lemma_header_size(h);
    assert(w.subrange(0, OVERHEAD as int) =~= spec_encode_header(h));
    assert(w.subrange(OVERHEAD as int, OVERHEAD + seg.data.len()) =~= seg.data);
    assert(spec_encode_header(h).subrange(0, OVERHEAD as int) =~= spec_encode_header(h));
    lemma_decode_reads_front(w, spec_encode_header(h));
}

/// The payloads of the first `k` fragments are the first bytes of what was
/// cut.
proof fn lemma_fragments_payload(rest: Seq<u8>, mss: int, stream: bool, count: int, k: int)
    requires
        mss > 0,
        0 <= k <= count,
        (count - 1) * mss < rest.len() <= count * mss,
    ensures
        payload(fragments(rest, mss, stream, count, k)) == rest.subrange(
            0,
            if k * mss < rest.len() {
                k * mss
            } else {
                rest.len() as int
            },
        ),
    decreases k,
{
    let f = fragments(rest, mss, stream, count, k);
    if k == 0 {
        assert(0 * mss == 0) by (nonlinear_arith);
        assert(payload(f) =~= rest.subrange(0, 0));
    } else {
        lemma_fragments_payload(rest, mss, stream, count, k - 1);
        assert(f.drop_last() =~= fragments(rest, mss, stream, count, k - 1));
        assert(f.last() == fragment(rest, mss, stream, count, k - 1));
        assert((k - 1) * mss + mss == k * mss) by (nonlinear_arith);
        assert(0 <= (k - 1) * mss) by (nonlinear_arith)
            requires
                k >= 1,
                mss > 0,
        ;
        assert((k - 1) * mss <= (count - 1) * mss) by (nonlinear_arith)
            requires
                k <= count,
                mss > 0,
        ;
        let end = if k * mss < rest.len() {
            k * mss
        } else {
            rest.len() as int
        };
        assert(payload(f) =~= rest.subrange(0, end));
    }
}

/// The back part of the fragments of a message, from the `j`-th on, ends
/// the message with its last fragment and not before.
proof fn lemma_fragments_head(rest: Seq<u8>, mss: int, count: int, j: int)
    requires
        1 <= count <= 255,
        0 <= j <= count,
    ensures
        head_count(fragments(rest, mss, false, count, count).subrange(j, count)) == count - j,
    decreases count - j,
{
    let f = fragments(rest, mss, false, count, count);
    let tail = f.subrange(j, count);
    if j < count {
        lemma_fragments_head(rest, mss, count, j + 1);
        assert(tail[0] == f[j]);
        assert(tail.drop_first() =~= f.subrange(j + 1, count));
        if j == count - 1 {
            assert(tail[0].frg == 0);
        } else {
            assert(tail[0].frg != 0);
        }
    }
}

/// Framing: the fragments that `send` makes of a message, once they stand
/// in a receive queue in order, are handed over by `recv` as that message
/// and as one. In stream mode the bytes come back in order as well, each
/// fragment on its own.
pub proof fn lemma_fragments_reassemble(data: Seq<u8>, mss: int, stream: bool)
    requires
        data.len() > 0,
        mss > 0,
        fragment_count(data.len() as int, mss) <= 255,
    ensures
        ({
            let count = fragment_count(data.len() as int, mss);
            let f = fragments(data, mss, stream, count, count);
            &&& payload(f) == data
            &&& message_ready(f)
            &&& !stream ==> head_count(f) == count && head_message(f) == data
            &&& stream ==> head_count(f) == 1
        }),
{
    let count = fragment_count(data.len() as int, mss);
    let f = fragments(data, mss, stream, count, count);
    lemma_fragment_count(data.len() as int, mss);
    lemma_fragments_payload(data, mss, stream, count, count);
    assert(data.subrange(0, data.len() as int) =~= data);
    assert(f[0] == fragment(data, mss, stream, count, 0));
    if !stream {
        lemma_fragments_head(data, mss, count, 0);
        assert(f.subrange(0, count) =~= f);
    }
}

/// The payloads of two queues, one behind the other, are the payloads of
/// the first, then those of the second.
pub proof fn lemma_payload_append(a: Seq<SegmentView>, b: Seq<SegmentView>)
    ensures
        payload(a + b) == payload(a) + payload(b),
    decreases b.len(),
{
    if b.len() == 0 {
        assert(a + b =~= a);
        assert(payload(a) + payload(b) =~= payload(a));
    } else {
        lemma_payload_append(a, b.drop_last());
        assert((a + b).drop_last() =~= a + b.drop_last());
        assert((a + b).last() == b.last());
        assert(payload(a + b) =~= payload(a) + payload(b));
    }
}

/// The message at the head of a queue is not touched by what stands behind
/// it: where the first `n` segments are one whole message, the last of
/// them and no other with the fragment index zero, the head of the queue
/// is that message.
pub proof fn lemma_head_of_longer_queue(q: Seq<SegmentView>, n: int)
    requires
        0 < n <= q.len(),
        q[n - 1].frg == 0,
        forall|i: int| 0 <= i < n - 1 ==> (#[trigger] q[i]).frg != 0,
    ensures
        head_count(q) == n,
        head_message(q) == payload(q.subrange(0, n)),
    decreases n,
{
    if q[0].frg != 0 {
        let rest = q.drop_first();
        assert forall|i: int| 0 <= i < n - 2 implies (#[trigger] rest[i]).frg != 0 by {
            assert(rest[i] == q[i + 1]);
        }
        assert(rest[n - 2] == q[n - 1]);
        lemma_head_of_longer_queue(rest, n - 1);
    }
}

/// Framing over several messages: where the receive queue holds the
/// fragments of a message at its head, whatever stands behind them, and
/// nothing waits out of order, `recv` hands over that message and no byte
/// more, and leaves what stood behind it at the head of the queue: the
/// next `recv` hands over the next message, and so on, each message once,
/// whole, and in the order in which the messages were sent.
pub proof fn lemma_recv_takes_first_message(r: KcpState, data: Seq<u8>, mss: int, cap: int)
    requires
        r.wf(),
        r.rcv_buf.len() == 0,
        data.len() > 0,
        mss > 0,
        fragment_count(data.len() as int, mss) <= 255,
        fragment_count(data.len() as int, mss) <= r.rcv_queue.len(),
        data.len() <= cap <= usize::MAX,
        forall|i: int|
            0 <= i < fragment_count(data.len() as int, mss) ==> (#[trigger] r.rcv_queue[i]).frg
                == fragment_index(false, fragment_count(data.len() as int, mss), i)
                && r.rcv_queue[i].data == fragment(
                data,
                mss,
                false,
                fragment_count(data.len() as int, mss),
                i,
            ).data,
    ensures
        head_message(r.rcv_queue) == data,
        recv_result(r, cap) == Ok::<usize, KcpError>(data.len() as usize),
        recv_state(r, cap).rcv_queue == r.rcv_queue.subrange(
            fragment_count(data.len() as int, mss),
            r.rcv_queue.len() as int,
        ),
        recv_state(r, cap).rcv_buf.len() == 0,
        recv_state(r, cap).rcv_nxt == r.rcv_nxt,
{
    let count = fragment_count(data.len() as int, mss);
    let q = r.rcv_queue;
    let f = fragments(data, mss, false, count, count);
    lemma_fragment_count(data.len() as int, mss);
    lemma_fragments_reassemble(data, mss, false);
    lemma_head_of_longer_queue(q, count);
    let front = q.subrange(0, count);
    assert forall|i: int| 0 <= i < count implies (#[trigger] front[i]).data == f[i].data by {
        assert(front[i] == q[i]);
    }
    lemma_payload_by_data(front, f);
    assert(q[0].frg == 0 || q.len() >= q[0].frg + 1) by {
        assert(q[0].frg == fragment_index(false, count, 0));
    }
    let taken = KcpState { rcv_queue: q.subrange(count, q.len() as int), ..r };
    assert(taken.rcv_buf.subrange(0, 0) =~= taken.rcv_buf);
    assert(taken.rcv_buf.subrange(0, 0) =~= Seq::<SegmentView>::empty());
    assert(slide_count(taken.rcv_buf, taken.rcv_nxt, taken.rcv_queue.len() as int, taken.rcv_wnd)
        == 0);
    assert(slide(taken).rcv_queue =~= taken.rcv_queue);
    assert(slide(taken).rcv_buf =~= taken.rcv_buf);
}

/// Queues whose segments carry the same payloads carry the same bytes.
pub proof fn lemma_payload_by_data(a: Seq<SegmentView>, b: Seq<SegmentView>)
    requires
        a.len() == b.len(),
        forall|i: int| 0 <= i < a.len() ==> (#[trigger] a[i]).data == b[i].data,
    ensures
        payload(a) == payload(b),
    decreases a.len(),
{
    if a.len() > 0 {
        let fa = a.drop_last();
        let fb = b.drop_last();
        assert forall|i: int| 0 <= i < fa.len() implies (#[trigger] fa[i]).data == fb[i].data by {
            assert(fa[i] == a[i] && fb[i] == b[i]);
        }
        lemma_payload_by_data(fa, fb);
        assert(a.last() == a[a.len() - 1] && b.last() == b[b.len() - 1]);
    }
}

/// Stream mode on the way in: what `send` takes in stream mode joins the
/// bytes that wait in the send queue at their end, in its order and
/// without a gap, whether it fills up the last segment, makes new ones or
/// both. Over several calls the queue carries what was sent, one call
/// after the other.
pub proof fn lemma_stream_send_appends(s: KcpState, data: Seq<u8>)
    requires
        s.wf(),
        s.stream,
        send_result(s, data).is_ok(),
    ensures
        payload(send_state(s, data).snd_queue) == payload(s.snd_queue) + data,
{
    let n = data.len() as int;
    let mss = s.mss as int;
    let take = coalesced(s, n);
    let rest = data.subrange(take, n);
    let count = fragment_count(rest.len() as int, mss);
    let q = s.snd_queue;
    let filled = extend_last(q, data, take);
    assert(payload(filled) == payload(q) + data.subrange(0, take)) by {
        if take > 0 {
            assert(filled.drop_last() =~= q.drop_last());
            assert(payload(filled) =~= payload(q.drop_last()) + (q.last().data + data.subrange(
                0,
                take,
            )));
        } else {
            assert(payload(q) + data.subrange(0, 0) =~= payload(q));
        }
    }
    if rest.len() == 0 {
        assert(data.subrange(0, take) =~= data);
    } else {
        lemma_fragment_count(rest.len() as int, mss);
        lemma_fragments_reassemble(rest, mss, true);
        lemma_payload_append(filled, fragments(rest, mss, true, count, count));
        assert((payload(q) + data.subrange(0, take)) + rest =~= payload(q) + data);
    }
}

/// Stream mode on the way out: a segment that ends a message, as every
/// segment of a stream does, is what `recv` hands over, alone. Where
/// nothing waits out of order the rest of the queue moves up, so that the
/// calls of `recv`, one after the other, hand over the bytes of the queue
/// in their order, each once.
pub proof fn lemma_recv_takes_first_segment(r: KcpState, cap: int)
    requires
        r.wf(),
        r.rcv_buf.len() == 0,
        r.rcv_queue.len() > 0,
        r.rcv_queue[0].frg == 0,
        r.rcv_queue[0].data.len() <= cap <= usize::MAX,
    ensures
        head_message(r.rcv_queue) == r.rcv_queue[0].data,
        recv_result(r, cap) == Ok::<usize, KcpError>(r.rcv_queue[0].data.len() as usize),
        recv_state(r, cap).rcv_queue == r.rcv_queue.drop_first(),
        recv_state(r, cap).rcv_buf.len() == 0,
        payload(r.rcv_queue) == r.rcv_queue[0].data + payload(recv_state(r, cap).rcv_queue),
{
    let q = r.rcv_queue;
    lemma_head_of_longer_queue(q, 1);
    let one = q.subrange(0, 1);
    assert(one.len() == 1);
    assert(one.drop_last().len() == 0);
    assert(payload(one.drop_last()) =~= Seq::<u8>::empty());
    assert(one.last() == q[0]);
    assert(payload(one) =~= q[0].data);
    let taken = KcpState { rcv_queue: q.subrange(1, q.len() as int), ..r };
    assert(taken.rcv_queue =~= q.drop_first());
    assert(taken.rcv_buf.subrange(0, 0) =~= taken.rcv_buf);
    assert(slide_count(taken.rcv_buf, taken.rcv_nxt, taken.rcv_queue.len() as int, taken.rcv_wnd)
        == 0);
    assert(slide(taken).rcv_queue =~= taken.rcv_queue);
    assert(slide(taken).rcv_buf =~= taken.rcv_buf);
    lemma_payload_append(one, q.drop_first());
    assert(one + q.drop_first() =~= q);
}

/// Back-off: a segment that goes out again because its time ran out gets a
/// longer timeout than it had, by the timeout of the block or by half of it
/// in no-delay mode, and is due again that much later; it counts one
/// transmission more and carries the time, the window and the cumulative
/// acknowledgement of the flush. The timeout and the count stop at
/// `u32::MAX`, the one thing that keeps them from growing.
pub proof fn lemma_timeout_raises_rto(s: KcpState, seg: SegmentView)
    requires
        s.wf(),
        classify(context(s), seg) == Transmission::Timeout,
    ensures
        ({
            let sent = transmitted(context(s), seg);
            let step = if s.nodelay == 0 {
                s.rx_rto
            } else {
                s.rx_rto / 2
            };
            &&& step >= 1
            &&& step == rto_step(context(s))
            &&& seg.rto < u32::MAX ==> sent.rto > seg.rto
            &&& seg.rto + step <= u32::MAX ==> sent.rto == seg.rto + step
            &&& seg.rto + step > u32::MAX ==> sent.rto == u32::MAX
            &&& seg.xmit < u32::MAX ==> sent.xmit == seg.xmit + 1
            &&& seg.xmit == u32::MAX ==> sent.xmit == u32::MAX
            &&& sent.resendts == s.current.wrapping_add(sent.rto)
            &&& sent.ts == s.current
            &&& sent.una == s.rcv_nxt
            &&& sent.wnd == wnd_unused(s)
            &&& sent.sn == seg.sn && sent.frg == seg.frg && sent.data == seg.data
        }),
{
}

/// What is due goes out: a segment of the send buffer that a flush does
/// not leave idle stands among the data segments that the flush puts on
/// the wire, as the flush leaves it.
pub proof fn lemma_due_segment_is_sent(c: FlushContext, buf: Seq<SegmentView>, i: int)
    requires
        0 <= i < buf.len(),
        classify(c, buf[i]) != Transmission::Idle,
    ensures
        exists|j: int|
            0 <= j < data_wire(c, buf).len() && #[trigger] data_wire(c, buf)[j] == encode_segment(
                transmitted(c, buf[i]),
            ),
    decreases buf.len(),
{
    let w = data_wire(c, buf);
    let front = buf.drop_last();
    if i == buf.len() - 1 {
        assert(buf.last() == buf[i]);
        assert(w[w.len() - 1] == encode_segment(transmitted(c, buf[i])));
    } else {
        assert(front[i] == buf[i]);
        lemma_due_segment_is_sent(c, front, i);
        let j = choose|j: int|
            0 <= j < data_wire(c, front).len() && #[trigger] data_wire(c, front)[j]
                == encode_segment(transmitted(c, front[i]));
        assert(w[j] == data_wire(c, front)[j]);
    }
}

/// What is due is in the datagrams: the segment of the send buffer that a
/// flush sends, for the first time, after a timeout or by fast
/// retransmission, is one of the segments that the datagrams of the flush
/// are made of.
pub proof fn lemma_flush_sends_what_is_due(s: KcpState, i: int)
    requires
        s.updated,
        0 <= i < flush_promoted(s).snd_buf.len(),
        classify(context(s), flush_promoted(s).snd_buf[i]) != Transmission::Idle,
    ensures
        exists|j: int|
            0 <= j < flush_wire(s).len() && #[trigger] flush_wire(s)[j] == encode_segment(
                transmitted(context(s), flush_promoted(s).snd_buf[i]),
            ),
        concat(flush_output(s)) == concat(flush_wire(s)),
{
    let c = context(s);
    let buf = flush_promoted(s).snd_buf;
    lemma_due_segment_is_sent(c, buf, i);
    let j = choose|j: int|
        0 <= j < data_wire(c, buf).len() && #[trigger] data_wire(c, buf)[j] == encode_segment(
            transmitted(c, buf[i]),
        );
    let tail = last_ack(s.acklist);
    let a = ack_wire(c, s.acklist);
    let b = probe_wire(c, flush_scheduled(s).probe, tail.0, tail.1);
    assert(flush_wire(s) == a + b + data_wire(c, buf));
    assert(flush_wire(s)[a.len() + b.len() + j] == data_wire(c, buf)[j]);
    lemma_flush_output_bytes(s);
}

/// Where nothing is next in order, nothing moves.
proof fn lemma_slide_settled(s: KcpState)
    ensures
        slide(slide(s)) == slide(s),
{
    lemma_slide_count(s.rcv_buf, s.rcv_nxt, s.rcv_queue.len() as int, s.rcv_wnd);
    lemma_slide_stops(s.rcv_buf, s.rcv_nxt, s.rcv_queue.len() as int, s.rcv_wnd);
    let t = slide(s);
    assert(slide_count(t.rcv_buf, t.rcv_nxt, t.rcv_queue.len() as int, t.rcv_wnd) == 0);
    assert(t.rcv_buf.subrange(0, 0) =~= Seq::<SegmentView>::empty());
    assert(t.rcv_queue + t.rcv_buf.subrange(0, 0) =~= t.rcv_queue);
    assert(t.rcv_buf.subrange(0, t.rcv_buf.len() as int) =~= t.rcv_buf);
}

/// In an ascending queue a segment stands at the rank of its number.
proof fn lemma_rank_of_member(q: Seq<SegmentView>, i: int)
    requires
        sn_ascending(q),
        0 <= i < q.len(),
    ensures
        rank(q, q[i].sn) == i,
{
    lemma_rank(q, q[i].sn);
    let r = rank(q, q[i].sn);
    if r < i {
        assert(q[r].sn < q[i].sn);
    }
    if r > i {
        assert(q[i].sn < q[i].sn);
    }
}

/// A receive buffer that holds a segment of the number of `seg` takes no
/// second one.
proof fn lemma_insert_member(q: Seq<SegmentView>, i: int, seg: SegmentView)
    requires
        sn_ascending(q),
        0 <= i < q.len(),
        q[i].sn == seg.sn,
    ensures
        insert_by_sn(q, seg) == q,
{
    lemma_rank_of_member(q, i);
}

/// A receive buffer holds the number of a segment once that segment was
/// put in, and stays in order.
proof fn lemma_inserted(q: Seq<SegmentView>, seg: SegmentView)
    requires
        sn_ascending(q),
    ensures
        sn_ascending(insert_by_sn(q, seg)),
        0 <= rank(q, seg.sn) < insert_by_sn(q, seg).len(),
        insert_by_sn(q, seg)[rank(q, seg.sn)].sn == seg.sn,
{
    lemma_insert_by_sn(q, seg);
    lemma_rank(q, seg.sn);
}

/// Duplicates: a data segment that arrives a second time changes nothing.
/// Nothing that the application has had or will have comes twice.
pub proof fn lemma_parse_data_idempotent(s: KcpState, seg: SegmentView)
    requires
        s.wf(),
    ensures
        parse_data(parse_data(s, seg), seg) == parse_data(s, seg),
{
    if in_window(s, seg.sn) {
        let m = KcpState { rcv_buf: insert_by_sn(s.rcv_buf, seg), ..s };
        let t = slide(m);
        assert(parse_data(s, seg) == t);
        let r = rank(s.rcv_buf, seg.sn);
        let k = slide_count(m.rcv_buf, m.rcv_nxt, m.rcv_queue.len() as int, m.rcv_wnd);
        lemma_inserted(s.rcv_buf, seg);
        lemma_slide_count(m.rcv_buf, m.rcv_nxt, m.rcv_queue.len() as int, m.rcv_wnd);
        lemma_slide_settled(m);
        if in_window(t, seg.sn) {
            // not yet in the queue: it is still in the buffer
            if r < k {
                assert(m.rcv_buf[r].sn == m.rcv_nxt + r);
            }
            assert(r >= k);
            assert(sn_ascending(t.rcv_buf)) by {
                assert forall|i: int, j: int| 0 <= i < j < t.rcv_buf.len() implies t.rcv_buf[i].sn
                    < t.rcv_buf[j].sn by {
                    assert(t.rcv_buf[i] == m.rcv_buf[i + k]);
                    assert(t.rcv_buf[j] == m.rcv_buf[j + k]);
                }
            }
            assert(t.rcv_buf[r - k] == m.rcv_buf[r]);
            lemma_insert_member(t.rcv_buf, r - k, seg);
            assert((KcpState { rcv_buf: t.rcv_buf, ..t }) == t);
        }
    }
}

/// A datagram that holds the one segment under `h` is read as that
/// segment, to its end.
proof fn lemma_input_of_one_segment(s: KcpState, h: Header, data: Seq<u8>)
    requires
        h.conv == s.conv,
        known_cmd(h.cmd),
        h.len == data.len(),
    ensures
        input_state(s, spec_encode_header(h) + data) == grow_window(
            if h.cmd == CMD_ACK {
                parse_fastack(input_segment(s, h, data), h.sn)
            } else {
                input_segment(s, h, data)
            },
            s.snd_una,
        ),
{
    let d = spec_encode_header(h) + data;
    lemma_header_size(h);
    lemma_header_roundtrip(h);
    assert(d.subrange(0, OVERHEAD as int) =~= spec_encode_header(h));
    assert(d.subrange(OVERHEAD as int, OVERHEAD + h.len) =~= data);
    let a = input_segment(s, h, data);
    let scan = input_scan(s, d, 0, None);
    assert(scan == input_scan(a, d, OVERHEAD + h.len, highest_ack(None, h)));
}

/// The cumulative acknowledgement, said again, finds nothing to drop.
proof fn lemma_parse_una_again(s: KcpState, una: u32)
    requires
        s.wf(),
    ensures
        shrink(parse_una(shrink(parse_una(s, una)), una)) == shrink(parse_una(s, una)),
{
    lemma_rank(s.snd_buf, una);
    let t = shrink(parse_una(s, una));
    let k = rank(s.snd_buf, una);
    if t.snd_buf.len() > 0 {
        assert(t.snd_buf[0] == s.snd_buf[k]);
    }
    assert(rank(t.snd_buf, una) == 0);
    assert(t.snd_buf.subrange(0, t.snd_buf.len() as int) =~= t.snd_buf);
}

/// Idempotent input: a datagram that holds one data segment, handed over a
/// second time, changes nothing at all once the segment has left the
/// receive window on its way to the application. While the segment still
/// waits in the window for those before it, the second reading notes it for
/// acknowledgement once more and changes nothing else.
pub proof fn lemma_repeated_data_datagram(s: KcpState, h: Header, data: Seq<u8>)
    requires
        s.wf(),
        h.conv == s.conv,
        h.cmd == CMD_PUSH,
        h.len == data.len(),
    ensures
        ({
            let datagram = spec_encode_header(h) + data;
            let once = input_state(s, datagram);
            let twice = input_state(once, datagram);
            &&& !in_window(once, h.sn) ==> twice == once
            &&& in_window(once, h.sn) ==> twice == (KcpState {
                acklist: once.acklist.push((h.sn, h.ts)),
                ..once
            })
        }),
{
    let datagram = spec_encode_header(h) + data;
    let once = input_state(s, datagram);
    let twice = input_state(once, datagram);
    let seg = received_segment(h, data);
    lemma_input_of_one_segment(s, h, data);
    lemma_input_of_one_segment(once, h, data);
    lemma_input_segment_keeps(s, h, data);
    let a = input_segment(s, h, data);
    let b = input_segment(once, h, data);
    assert(once == grow_window(a, s.snd_una));
    assert(twice == grow_window(b, once.snd_una));

    // the first reading: window and cumulative acknowledgement
    let s0 = KcpState { rmt_wnd: h.wnd as u32, ..s };
    let s1 = shrink(parse_una(s0, h.una));
    lemma_parse_una_keeps(s0, h.una);
    lemma_parse_una_again(s0, h.una);
    // the second reading sees the send side as the first left it
    let o0 = KcpState { rmt_wnd: h.wnd as u32, ..once };
    assert(o0 == once);
    let o1 = shrink(parse_una(o0, h.una));
    assert(once.snd_buf == s1.snd_buf);
    assert(once.snd_una == s1.snd_una);
    assert(parse_una(o0, h.una).snd_buf == parse_una(s1, h.una).snd_buf);
    assert(o1.snd_buf == once.snd_buf);
    assert(o1 == once);

    if in_window(s1, h.sn) {
        let s2 = KcpState { acklist: s1.acklist.push((h.sn, h.ts)), ..s1 };
        lemma_parse_data_keeps_wf(s2, seg);
        lemma_parse_data_idempotent(s2, seg);
        let arrived = parse_data(s2, seg);
        assert(a == arrived);
        if in_window(o1, h.sn) {
            // both readings look at the same receive side
            let o2 = KcpState { acklist: o1.acklist.push((h.sn, h.ts)), ..o1 };
            let again = parse_data(arrived, seg);
            let fed = parse_data(o2, seg);
            assert(in_window(o2, seg.sn) == in_window(arrived, seg.sn));
            assert(fed.rcv_buf == again.rcv_buf);
            assert(fed.rcv_queue == again.rcv_queue);
            assert(fed.rcv_nxt == again.rcv_nxt);
            assert(fed == (KcpState { acklist: fed.acklist, ..once }));
        }
    }
}

/// Idempotent input, window probes: a datagram that holds one window
/// question or one window announcement, handed over a second time,
/// changes nothing.
pub proof fn lemma_repeated_probe_datagram(s: KcpState, h: Header, data: Seq<u8>)
    requires
        s.wf(),
        h.conv == s.conv,
        h.cmd == CMD_WASK || h.cmd == CMD_WINS,
        h.len == data.len(),
    ensures
        ({
            let datagram = spec_encode_header(h) + data;
            let once = input_state(s, datagram);
            input_state(once, datagram) == once
        }),
{
    let datagram = spec_encode_header(h) + data;
    let once = input_state(s, datagram);
    lemma_input_of_one_segment(s, h, data);
    lemma_input_of_one_segment(once, h, data);
    let s0 = KcpState { rmt_wnd: h.wnd as u32, ..s };
    let s1 = shrink(parse_una(s0, h.una));
    lemma_parse_una_keeps(s0, h.una);
    lemma_parse_una_again(s0, h.una);
    let o0 = KcpState { rmt_wnd: h.wnd as u32, ..once };
    assert(o0 == once);
    let o1 = shrink(parse_una(o0, h.una));
    assert(once.snd_buf == s1.snd_buf);
    assert(once.snd_una == s1.snd_una);
    assert(parse_una(o0, h.una).snd_buf == parse_una(s1, h.una).snd_buf);
    assert(o1.snd_buf == once.snd_buf);
    assert(o1 == once);
    let p = s1.probe;
    assert((p | ASK_TELL) | ASK_TELL == p | ASK_TELL) by (bit_vector);
}

/// Whether `b` is `a` but for its skip counters: the same segments with the
/// same numbers and payloads, in the same order.
pub open spec fn same_in_flight(a: Seq<SegmentView>, b: Seq<SegmentView>) -> bool {
    &&& a.len() == b.len()
    &&& forall|i: int|
        0 <= i < a.len() ==> (#[trigger] b[i]) == (SegmentView { fastack: b[i].fastack, ..a[i] })
}

/// A number that was acknowledged is in flight no more.
proof fn lemma_acknowledged_is_gone(s: KcpState, sn: u32)
    requires
        s.wf(),
    ensures
        forall|i: int|
            0 <= i < parse_ack(s, sn).snd_buf.len() ==> (#[trigger] parse_ack(s, sn).snd_buf[i]).sn
                != sn,
{
    lemma_rank(s.snd_buf, sn);
    let r = rank(s.snd_buf, sn);
    let t = parse_ack(s, sn).snd_buf;
    assert forall|i: int| 0 <= i < t.len() implies (#[trigger] t[i]).sn != sn by {
        if sn < s.snd_una || sn >= s.snd_nxt {
            assert(t[i] == s.snd_buf[i]);
        } else if r < s.snd_buf.len() && s.snd_buf[r].sn == sn {
            if i < r {
                assert(t[i] == s.snd_buf[i]);
                assert(s.snd_buf[i].sn < s.snd_buf[r].sn);
            } else {
                assert(t[i] == s.snd_buf[i + 1]);
                assert(s.snd_buf[r].sn < s.snd_buf[i + 1].sn);
            }
        } else {
            assert(t[i] == s.snd_buf[i]);
        }
    }
}

/// An acknowledgement for a number that is not in flight takes nothing
/// out of flight.
proof fn lemma_parse_ack_of_absent(s: KcpState, sn: u32)
    requires
        forall|i: int| 0 <= i < s.snd_buf.len() ==> (#[trigger] s.snd_buf[i]).sn != sn,
    ensures
        parse_ack(s, sn) == s,
{
    lemma_rank(s.snd_buf, sn);
}

/// Whether the acknowledgement under `h` has nothing left to do on `o`:
/// the peer's window is as it says, and no segment in flight is below its
/// cumulative acknowledgement or carries the number that it acknowledges.
spec fn settled(o: KcpState, h: Header) -> bool {
    &&& o.rmt_wnd == h.wnd
    &&& forall|i: int|
        0 <= i < o.snd_buf.len() ==> (#[trigger] o.snd_buf[i]).sn != h.sn && o.snd_buf[i].sn
            >= h.una
}

/// Whether `b` is `a` but for the round-trip estimate and the skip
/// counters.
spec fn same_but_estimate(a: KcpState, b: KcpState) -> bool {
    &&& same_in_flight(a.snd_buf, b.snd_buf)
    &&& b == (KcpState {
        rx_srtt: b.rx_srtt,
        rx_rttval: b.rx_rttval,
        rx_rto: b.rx_rto,
        snd_buf: b.snd_buf,
        ..a
    })
}

/// After an acknowledgement was taken in, it has nothing left to do.
proof fn lemma_ack_settles(s: KcpState, h: Header, data: Seq<u8>)
    requires
        s.wf(),
        h.cmd == CMD_ACK,
    ensures
        input_segment(s, h, data).wf(),
        settled(input_segment(s, h, data), h),
{
    let s0 = KcpState { rmt_wnd: h.wnd as u32, ..s };
    let s1 = shrink(parse_una(s0, h.una));
    lemma_parse_una_keeps(s0, h.una);
    lemma_rank(s0.snd_buf, h.una);
    let k = rank(s0.snd_buf, h.una);
    assert forall|i: int| 0 <= i < s1.snd_buf.len() implies (#[trigger] s1.snd_buf[i]).sn
        >= h.una by {
        assert(s1.snd_buf[i] == s0.snd_buf[i + k]);
    }
    let rtt = spec_timediff(s1.current, h.ts);
    let s2 = if rtt >= 0 {
        update_ack(s1, rtt as u32)
    } else {
        s1
    };
    if rtt >= 0 {
        lemma_update_ack_keeps_wf(s1, rtt as u32);
    }
    lemma_acknowledged_is_gone(s2, h.sn);
    lemma_parse_ack_keeps(s2, h.sn);
    lemma_rank(s2.snd_buf, h.sn);
    let r = rank(s2.snd_buf, h.sn);
    let left = parse_ack(s2, h.sn).snd_buf;
    assert(s2.snd_buf == s1.snd_buf);
    if left != s1.snd_buf {
        assert(0 <= r < s1.snd_buf.len() && left == s1.snd_buf.remove(r));
    }
    lemma_members_stay(s1.snd_buf, left, h.una);
}

/// An acknowledgement that has nothing left to do changes the round-trip
/// estimate and nothing else.
proof fn lemma_settled_ack_again(o: KcpState, h: Header, data: Seq<u8>)
    requires
        o.wf(),
        h.cmd == CMD_ACK,
        settled(o, h),
    ensures
        same_but_estimate(o, input_segment(o, h, data)),
        input_segment(o, h, data).snd_buf == o.snd_buf,
{
    let o0 = KcpState { rmt_wnd: h.wnd as u32, ..o };
    assert(o0 == o);
    lemma_rank(o.snd_buf, h.una);
    assert(rank(o.snd_buf, h.una) == 0);
    assert(o.snd_buf.subrange(0, o.snd_buf.len() as int) =~= o.snd_buf);
    let o1 = shrink(parse_una(o0, h.una));
    assert(o1 == o);
    let rtt = spec_timediff(o1.current, h.ts);
    let o2 = if rtt >= 0 {
        update_ack(o1, rtt as u32)
    } else {
        o1
    };
    lemma_parse_ack_of_absent(o2, h.sn);
    assert(shrink(o2) == o2);
}

/// Counting skips and opening the window leave an acknowledgement that
/// had nothing left to do with nothing to do.
proof fn lemma_settled_after_counting(a: KcpState, h: Header, old_una: u32)
    requires
        a.wf(),
        settled(a, h),
    ensures
        grow_window(parse_fastack(a, h.sn), old_una).wf(),
        settled(grow_window(parse_fastack(a, h.sn), old_una), h),
        same_in_flight(a.snd_buf, grow_window(parse_fastack(a, h.sn), old_una).snd_buf),
        grow_window(parse_fastack(a, h.sn), old_una).snd_una == a.snd_una,
{
    lemma_parse_fastack_keeps(a, h.sn);
    lemma_grow_window_keeps(parse_fastack(a, h.sn), old_una);
    let t = grow_window(parse_fastack(a, h.sn), old_una);
    assert forall|i: int| 0 <= i < t.snd_buf.len() implies (#[trigger] t.snd_buf[i]).sn != h.sn
        && t.snd_buf[i].sn >= h.una by {
        assert(t.snd_buf[i].sn == a.snd_buf[i].sn);
    }
}

/// Counting skips once more changes the skip counters and nothing else,
/// and the window does not open where `snd_una` has not moved.
proof fn lemma_counting_again(b: KcpState, sn: u32)
    requires
        b.wf(),
    ensures
        same_in_flight(b.snd_buf, grow_window(parse_fastack(b, sn), b.snd_una).snd_buf),
        grow_window(parse_fastack(b, sn), b.snd_una) == (KcpState {
            snd_buf: grow_window(parse_fastack(b, sn), b.snd_una).snd_buf,
            ..b
        }),
{
}

/// Idempotent input, acknowledgements: a datagram that holds one
/// acknowledgement, handed over a second time, takes nothing more out of
/// flight and moves no sequence number, no window and nothing on the
/// receive side. What the second reading does change is what every
/// reading of an acknowledgement changes, whatever is in flight: the
/// round-trip estimate takes its sample once more, and the segments below
/// the acknowledged number count one more skip.
pub proof fn lemma_repeated_ack_datagram(s: KcpState, h: Header, data: Seq<u8>)
    requires
        s.wf(),
        h.conv == s.conv,
        h.cmd == CMD_ACK,
        h.len == data.len(),
    ensures
        ({
            let datagram = spec_encode_header(h) + data;
            let once = input_state(s, datagram);
            let twice = input_state(once, datagram);
            &&& same_in_flight(once.snd_buf, twice.snd_buf)
            &&& twice == (KcpState {
                rx_srtt: twice.rx_srtt,
                rx_rttval: twice.rx_rttval,
                rx_rto: twice.rx_rto,
                snd_buf: twice.snd_buf,
                ..once
            })
        }),
{
    let datagram = spec_encode_header(h) + data;
    let once = input_state(s, datagram);
    let twice = input_state(once, datagram);
    lemma_input_of_one_segment(s, h, data);
    lemma_input_of_one_segment(once, h, data);
    let a = input_segment(s, h, data);
    lemma_ack_settles(s, h, data);
    lemma_settled_after_counting(a, h, s.snd_una);
    assert(once == grow_window(parse_fastack(a, h.sn), s.snd_una));
    let b = input_segment(once, h, data);
    lemma_settled_ack_again(once, h, data);
    lemma_once_more(once, b, twice, h.sn);
}

/// The second reading, put together.
proof fn lemma_once_more(once: KcpState, b: KcpState, twice: KcpState, sn: u32)
    requires
        once.wf(),
        same_but_estimate(once, b),
        b.snd_buf == once.snd_buf,
        b.wf(),
        twice == grow_window(parse_fastack(b, sn), once.snd_una),
    ensures
        same_but_estimate(once, twice),
{
    lemma_counting_again(b, sn);
    assert(b.snd_una == once.snd_una);
    let t = grow_window(parse_fastack(b, sn), b.snd_una);
    assert forall|i: int| 0 <= i < once.snd_buf.len() implies (#[trigger] twice.snd_buf[i]) == (
    SegmentView { fastack: twice.snd_buf[i].fastack, ..once.snd_buf[i] }) by {
        assert(t.snd_buf[i] == (SegmentView { fastack: t.snd_buf[i].fastack, ..b.snd_buf[i] }));
    }
}

/// What is left of a send buffer that held nothing below `una`, after one
/// segment at most was taken out, holds nothing below `una`.
proof fn lemma_members_stay(before: Seq<SegmentView>, after: Seq<SegmentView>, una: u32)
    requires
        after == before || exists|r: int| 0 <= r < before.len() && after == before.remove(r),
        forall|i: int| 0 <= i < before.len() ==> (#[trigger] before[i]).sn >= una,
    ensures
        forall|i: int| 0 <= i < after.len() ==> (#[trigger] after[i]).sn >= una,
{
    if after != before {
        let r = choose|r: int| 0 <= r < before.len() && after == before.remove(r);
        assert forall|i: int| 0 <= i < after.len() implies (#[trigger] after[i]).sn >= una by {
            if i < r {
                assert(after[i] == before[i]);
            } else {
                assert(after[i] == before[i + 1]);
            }
        }
    }
}

/// Order: in a well-formed block every segment that waits for the
/// application carries a lower number than every segment that waits in the
/// receive buffer, and both queues ascend, so that no number waits twice.
pub proof fn lemma_receive_side_ascends(s: KcpState)
    requires
        s.wf(),
    ensures
        sn_ascending(s.rcv_queue + s.rcv_buf),
{
    let all = s.rcv_queue + s.rcv_buf;
    assert forall|i: int, j: int| 0 <= i < j < all.len() implies all[i].sn < all[j].sn by {
        let n = s.rcv_queue.len();
        if j < n {
            assert(all[i] == s.rcv_queue[i]);
            assert(all[j] == s.rcv_queue[j]);
        } else if i < n {
            assert(all[i] == s.rcv_queue[i]);
            assert(all[j] == s.rcv_buf[j - n]);
        } else {
            assert(all[i] == s.rcv_buf[i - n]);
            assert(all[j] == s.rcv_buf[j - n]);
        }
    }
}

} // verus!
