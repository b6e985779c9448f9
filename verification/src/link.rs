//! The two ends of a connection: what one block sends, the other reads,
//! and over a link that loses nothing a message sent is a message received.

use vstd::prelude::*;
use crate::ack::{parse_una, shrink};
use crate::flush::{
    FlushContext, Transmission, ack_wire, classify, context, control_header, data_wire,
    effective_window, encode_segment, flush_output, flush_promoted, flush_scheduled, flush_wire,
    last_ack, lemma_promoted_stamped, probe_wire, promote_count, promoted, promoted_run,
    transmitted,
};
use crate::input::{
    highest_ack, input_result, input_scan, input_segment, input_state, insert_by_sn,
    lemma_parse_data_keeps, lemma_parse_data_keeps_wf, parse_data, slide, slide_count,
};
use crate::laws::{lemma_fragments_reassemble, lemma_payload_by_data, lemma_segment_roundtrip};
use crate::pack::{concat, lemma_pack_within_mtu, pack_fold};
use crate::recv::{
    head_count, head_message, lemma_head_count, lemma_recv_keeps, message_ready, recv_result,
    recv_state,
};
use crate::segment::{SegmentView, header_of, payload, rank, received_segment};
use crate::send::{fragment, fragment_count, fragment_index, fragments};
use crate::state::{KcpError, KcpState};
use crate::wire::{
    CMD_ACK, CMD_PUSH, CMD_WASK, CMD_WINS, Header, OVERHEAD, known_cmd, lemma_decode_reads_front,
    lemma_header_roundtrip, lemma_header_size, spec_decode_header, spec_encode_header,
};

verus! {

/// Whether `w` is one segment as it stands on the wire for the
/// conversation `conv`: a header of that conversation with a known command,
/// and as many bytes of payload as the header says.
pub open spec fn framed(conv: u32, w: Seq<u8>) -> bool {
    &&& w.len() >= OVERHEAD
    &&& spec_decode_header(w).conv == conv
    &&& known_cmd(spec_decode_header(w).cmd)
    &&& spec_decode_header(w).len == w.len() - OVERHEAD
}

/// The block after the segments of `segs` were taken in, one after the
/// other.
pub open spec fn take_in(s: KcpState, segs: Seq<Seq<u8>>) -> KcpState
    decreases segs.len(),
{
    if segs.len() == 0 {
        s
    } else {
        take_in(
            input_segment(
                s,
                spec_decode_header(segs[0]),
                segs[0].subrange(OVERHEAD as int, segs[0].len() as int),
            ),
            segs.drop_first(),
        )
    }
}

/// The highest acknowledgement among `acked` and the segments of `segs`.
pub open spec fn acks_seen(acked: Option<u32>, segs: Seq<Seq<u8>>) -> Option<u32>
    decreases segs.len(),
{
    if segs.len() == 0 {
        acked
    } else {
        acks_seen(highest_ack(acked, spec_decode_header(segs[0])), segs.drop_first())
    }
}

/// Reading a datagram from `pos` on is reading what stands from `pos` on.
proof fn lemma_scan_from(s: KcpState, bytes: Seq<u8>, pos: int, acked: Option<u32>)
    requires
        0 <= pos <= bytes.len(),
    ensures
        ({
            let here = input_scan(s, bytes, pos, acked);
            let there = input_scan(s, bytes.subrange(pos, bytes.len() as int), 0, acked);
            &&& here.state == there.state
            &&& here.acked == there.acked
            &&& here.error == there.error
            &&& here.consumed == there.consumed + pos
        }),
    decreases bytes.len() - pos,
{
    let rest = bytes.subrange(pos, bytes.len() as int);
    if bytes.len() - pos >= OVERHEAD {
        assert(bytes.subrange(pos, pos + OVERHEAD) =~= rest.subrange(0, OVERHEAD as int));
        let h = spec_decode_header(bytes.subrange(pos, pos + OVERHEAD));
        let left = bytes.len() - pos - OVERHEAD;
        if h.conv == s.conv && left >= h.len && known_cmd(h.cmd) {
            let step = OVERHEAD + h.len;
            let data = bytes.subrange(pos + OVERHEAD, pos + step);
            assert(data =~= rest.subrange(OVERHEAD as int, step));
            let t = input_segment(s, h, data);
            let a = highest_ack(acked, h);
            lemma_scan_from(t, bytes, pos + step, a);
            lemma_scan_from(t, rest, step, a);
            assert(rest.subrange(step, rest.len() as int) =~= bytes.subrange(
                pos + step,
                bytes.len() as int,
            ));
        }
    }
}

/// Taking in a segment leaves the block in its conversation.
proof fn lemma_input_segment_conv(s: KcpState, h: Header, data: Seq<u8>)
    ensures
        input_segment(s, h, data).conv == s.conv,
{
}

/// The first of several byte strings stands in front of the others.
proof fn lemma_concat_front(parts: Seq<Seq<u8>>)
    requires
        parts.len() > 0,
    ensures
        concat(parts) == parts[0] + concat(parts.drop_first()),
    decreases parts.len(),
{
    if parts.len() == 1 {
        assert(parts.drop_last() =~= Seq::<Seq<u8>>::empty());
        assert(parts.drop_first() =~= Seq::<Seq<u8>>::empty());
        assert(concat(parts) =~= parts[0] + concat(parts.drop_first()));
    } else {
        let front = parts.drop_last();
        lemma_concat_front(front);
        assert(front.drop_first() =~= parts.drop_first().drop_last());
        assert(front[0] == parts[0]);
        assert(parts.drop_first().last() == parts.last());
        assert(concat(parts) =~= parts[0] + concat(parts.drop_first()));
    }
}

/// Framing of datagrams: a datagram that is made of segments of the
/// block's conversation, one after the other, is read to its end and
/// without error, as those segments.
pub proof fn lemma_scan_reads_segments(s: KcpState, segs: Seq<Seq<u8>>, acked: Option<u32>)
    requires
        forall|i: int| 0 <= i < segs.len() ==> framed(s.conv, #[trigger] segs[i]),
    ensures
        input_scan(s, concat(segs), 0, acked).error.is_none(),
        input_scan(s, concat(segs), 0, acked).consumed == concat(segs).len(),
        input_scan(s, concat(segs), 0, acked).state == take_in(s, segs),
        input_scan(s, concat(segs), 0, acked).acked == acks_seen(acked, segs),
    decreases segs.len(),
{
    if segs.len() > 0 {
        let w = segs[0];
        let rest = segs.drop_first();
        let d = concat(segs);
        lemma_concat_front(segs);
        assert(framed(s.conv, w));
        let h = spec_decode_header(w);
        assert(d.subrange(0, OVERHEAD as int) =~= w.subrange(0, OVERHEAD as int));
        assert(d.subrange(0, OVERHEAD as int).subrange(0, OVERHEAD as int) =~= d.subrange(
            0,
            OVERHEAD as int,
        ));
        lemma_decode_reads_front(d.subrange(0, OVERHEAD as int), w);
        let data = w.subrange(OVERHEAD as int, w.len() as int);
        assert(d.subrange(OVERHEAD as int, OVERHEAD + h.len) =~= data);
        let t = input_segment(s, h, data);
        let a = highest_ack(acked, h);
        lemma_input_segment_conv(s, h, data);
        assert forall|i: int| 0 <= i < rest.len() implies framed(t.conv, #[trigger] rest[i]) by {
            assert(rest[i] == segs[i + 1]);
        }
        lemma_scan_from(t, d, w.len() as int, a);
        assert(d.subrange(w.len() as int, d.len() as int) =~= concat(rest));
        lemma_scan_reads_segments(t, rest, a);
    }
}

/// One byte string on its own is what it is.
proof fn lemma_concat_one(part: Seq<u8>)
    ensures
        concat(seq![part]) == part,
{
    let one = seq![part];
    assert(one.len() == 1);
    assert(one.last() == part);
    assert(one.drop_last().len() == 0);
    assert(concat(one.drop_last()) =~= Seq::<u8>::empty());
    assert(concat(one) =~= part);
}

/// The datagrams under way and the one that is being filled, each as the
/// segments that it holds.
ghost struct Grouping {
    closed: Seq<Seq<Seq<u8>>>,
    open: Seq<Seq<u8>>,
}

/// The grouping that packing the segments of `segs` comes to.
spec fn group_fold(segs: Seq<Seq<u8>>, mtu: int) -> Grouping
    decreases segs.len(),
{
    if segs.len() == 0 {
        Grouping { closed: Seq::empty(), open: Seq::empty() }
    } else {
        let acc = group_fold(segs.drop_last(), mtu);
        if concat(acc.open).len() + segs.last().len() > mtu && concat(acc.open).len() > 0 {
            Grouping { closed: acc.closed.push(acc.open), open: seq![segs.last()] }
        } else {
            Grouping { closed: acc.closed, open: acc.open.push(segs.last()) }
        }
    }
}

/// Packing puts whole segments one after the other: every datagram is made
/// of some of the segments, and of nothing else.
proof fn lemma_pack_groups(segs: Seq<Seq<u8>>, mtu: int, conv: u32)
    requires
        forall|i: int| 0 <= i < segs.len() ==> framed(conv, #[trigger] segs[i]),
    ensures
        pack_fold(segs, mtu).closed.len() == group_fold(segs, mtu).closed.len(),
        forall|i: int|
            0 <= i < group_fold(segs, mtu).closed.len() ==> (#[trigger] pack_fold(
                segs,
                mtu,
            ).closed[i]) == concat(group_fold(segs, mtu).closed[i]),
        pack_fold(segs, mtu).open == concat(group_fold(segs, mtu).open),
        forall|i: int, j: int|
            0 <= i < group_fold(segs, mtu).closed.len() && 0 <= j < group_fold(
                segs,
                mtu,
            ).closed[i].len() ==> framed(conv, #[trigger] group_fold(segs, mtu).closed[i][j]),
        forall|j: int|
            0 <= j < group_fold(segs, mtu).open.len() ==> framed(
                conv,
                #[trigger] group_fold(segs, mtu).open[j],
            ),
    decreases segs.len(),
{
    if segs.len() > 0 {
        let front = segs.drop_last();
        assert forall|i: int| 0 <= i < front.len() implies framed(conv, #[trigger] front[i]) by {
            assert(front[i] == segs[i]);
        }
        lemma_pack_groups(front, mtu, conv);
        let acc = group_fold(front, mtu);
        let g = group_fold(segs, mtu);
        let p = pack_fold(segs, mtu);
        let last = segs.last();
        assert(last == segs[segs.len() - 1]);
        if concat(acc.open).len() + last.len() > mtu && concat(acc.open).len() > 0 {
            lemma_concat_one(last);
            assert forall|i: int| 0 <= i < g.closed.len() implies (#[trigger] p.closed[i])
                == concat(g.closed[i]) by {
                if i < acc.closed.len() {
                    assert(p.closed[i] == pack_fold(front, mtu).closed[i]);
                }
            }
            assert forall|i: int, j: int|
                0 <= i < g.closed.len() && 0 <= j < g.closed[i].len() implies framed(
                conv,
                #[trigger] g.closed[i][j],
            ) by {
                if i < acc.closed.len() {
                    assert(g.closed[i] == acc.closed[i]);
                } else {
                    assert(g.closed[i] == acc.open);
                }
            }
        } else {
            assert(acc.open.push(last).drop_last() =~= acc.open);
            assert forall|j: int| 0 <= j < g.open.len() implies framed(conv, #[trigger] g.open[j]) by {
                if j < acc.open.len() {
                    assert(g.open[j] == acc.open[j]);
                }
            }
        }
    }
}

/// A datagram that is made of segments of a conversation is taken in by
/// every block of that conversation, whatever its state, to its end.
proof fn lemma_group_readable(p: KcpState, group: Seq<Seq<u8>>)
    requires
        group.len() > 0,
        forall|j: int| 0 <= j < group.len() ==> framed(p.conv, #[trigger] group[j]),
    ensures
        input_result(p, concat(group)) == Ok::<usize, KcpError>(concat(group).len() as usize),
        concat(group).len() >= OVERHEAD,
{
    lemma_scan_reads_segments(p, group, None);
    lemma_concat_front(group);
    assert(framed(p.conv, group[0]));
}

/// The acknowledgements that a flush sends are segments of the block's
/// conversation.
proof fn lemma_ack_wire_framed(c: FlushContext, acks: Seq<(u32, u32)>)
    ensures
        forall|i: int|
            0 <= i < ack_wire(c, acks).len() ==> framed(c.conv, #[trigger] ack_wire(c, acks)[i]),
{
    let a = ack_wire(c, acks);
    assert forall|i: int| 0 <= i < a.len() implies framed(c.conv, #[trigger] a[i]) by {
        lemma_control_framed(c, CMD_ACK, acks[i].0, acks[i].1);
    }
}

/// The window question and announcement that a flush sends are segments
/// of the block's conversation.
proof fn lemma_probe_wire_framed(c: FlushContext, probe: u32, sn: u32, ts: u32)
    ensures
        forall|i: int|
            0 <= i < probe_wire(c, probe, sn, ts).len() ==> framed(
                c.conv,
                #[trigger] probe_wire(c, probe, sn, ts)[i],
            ),
{
    lemma_control_framed(c, CMD_WASK, sn, ts);
    lemma_control_framed(c, CMD_WINS, sn, ts);
}

/// Every segment that a flush puts on the wire is one segment of the
/// block's conversation.
proof fn lemma_flush_wire_framed(s: KcpState)
    requires
        s.wf(),
    ensures
        forall|i: int| 0 <= i < flush_wire(s).len() ==> framed(s.conv, #[trigger] flush_wire(s)[i]),
{
    let c = context(s);
    let p = flush_promoted(s);
    let tail = last_ack(s.acklist);
    let wire = flush_wire(s);
    let a = ack_wire(c, s.acklist);
    let b = probe_wire(c, flush_scheduled(s).probe, tail.0, tail.1);
    let d = data_wire(c, p.snd_buf);
    assert(wire == a + b + d);
    lemma_ack_wire_framed(c, s.acklist);
    lemma_probe_wire_framed(c, flush_scheduled(s).probe, tail.0, tail.1);
    lemma_promoted_stamped(s);
    lemma_data_wire_framed(c, p.snd_buf, s.conv);
    assert forall|i: int| 0 <= i < wire.len() implies framed(s.conv, #[trigger] wire[i]) by {
        if i < a.len() {
            assert(wire[i] == a[i]);
        } else if i < a.len() + b.len() {
            assert(wire[i] == b[i - a.len()]);
        } else {
            assert(wire[i] == d[i - a.len() - b.len()]);
        }
    }
}

/// A segment without payload, as a flush sends it, is one segment of the
/// block's conversation.
proof fn lemma_control_framed(c: FlushContext, cmd: u8, sn: u32, ts: u32)
    requires
        known_cmd(cmd),
    ensures
        framed(c.conv, spec_encode_header(control_header(c, cmd, sn, ts))),
{
    let h = control_header(c, cmd, sn, ts);
    lemma_header_roundtrip(h);
    lemma_header_size(h);
}

/// The data segments that a flush sends are segments of the block's
/// conversation.
proof fn lemma_data_wire_framed(c: FlushContext, buf: Seq<SegmentView>, conv: u32)
    requires
        forall|i: int|
            0 <= i < buf.len() ==> (#[trigger] buf[i]).conv == conv && buf[i].cmd == CMD_PUSH
                && buf[i].data.len() <= u32::MAX,
    ensures
        forall|i: int|
            0 <= i < data_wire(c, buf).len() ==> framed(conv, #[trigger] data_wire(c, buf)[i]),
    decreases buf.len(),
{
    if buf.len() > 0 {
        let front = buf.drop_last();
        assert forall|i: int| 0 <= i < front.len() implies (#[trigger] front[i]).conv == conv
            && front[i].cmd == CMD_PUSH && front[i].data.len() <= u32::MAX by {
            assert(front[i] == buf[i]);
        }
        lemma_data_wire_framed(c, front, conv);
        assert(buf.last() == buf[buf.len() - 1]);
        let sent = transmitted(c, buf.last());
        assert(sent.conv == conv && sent.cmd == CMD_PUSH && sent.data == buf.last().data);
        lemma_segment_roundtrip(sent);
        let w = data_wire(c, buf);
        assert forall|i: int| 0 <= i < w.len() implies framed(conv, #[trigger] w[i]) by {
            if i < data_wire(c, front).len() {
                assert(w[i] == data_wire(c, front)[i]);
            }
        }
    }
}

/// Agreement of the two ends: every datagram that a flush of a block sends
/// is read to its end and without error by every block of the same
/// conversation, whatever the state of either.
pub proof fn lemma_flush_output_is_read(s: KcpState, peer: KcpState)
    requires
        s.wf(),
        peer.conv == s.conv,
    ensures
        forall|i: int|
            0 <= i < flush_output(s).len() ==> input_result(peer, #[trigger] flush_output(s)[i])
                == Ok::<usize, KcpError>(flush_output(s)[i].len() as usize),
{
    if s.updated {
        let wire = flush_wire(s);
        let mtu = s.mtu as int;
        lemma_flush_wire_framed(s);
        lemma_pack_groups(wire, mtu, s.conv);
        lemma_pack_within_mtu(wire, mtu);
        let g = group_fold(wire, mtu);
        let acc = pack_fold(wire, mtu);
        let out = flush_output(s);
        assert forall|i: int| 0 <= i < out.len() implies input_result(peer, #[trigger] out[i])
            == Ok::<usize, KcpError>(out[i].len() as usize) by {
            if i < acc.closed.len() {
                assert(out[i] == acc.closed[i]);
                let group = g.closed[i];
                assert(out[i] == concat(group));
                assert(out[i].len() > 0);
                if group.len() == 0 {
                    assert(concat(group).len() == 0);
                }
                assert forall|j: int| 0 <= j < group.len() implies framed(
                    peer.conv,
                    #[trigger] group[j],
                ) by {
                    assert(framed(s.conv, g.closed[i][j]));
                }
                lemma_group_readable(peer, group);
            } else {
                assert(out[i] == acc.open);
                let group = g.open;
                if group.len() == 0 {
                    assert(concat(group).len() == 0);
                }
                lemma_group_readable(peer, group);
            }
        }
    }
}

/// The block after the data segments of `segs` arrived, one after the
/// other.
pub open spec fn arrive(r: KcpState, segs: Seq<SegmentView>) -> KcpState
    decreases segs.len(),
{
    if segs.len() == 0 {
        r
    } else {
        arrive(parse_data(r, segs[0]), segs.drop_first())
    }
}

/// Arrival in order: data segments that carry the numbers from `rcv_nxt`
/// on, and arrive one after the other at a block that holds nothing out
/// of order and has room in its window, line up in the receive queue.
pub proof fn lemma_arrive_in_order(r: KcpState, segs: Seq<SegmentView>)
    requires
        r.wf(),
        r.rcv_buf.len() == 0,
        r.rcv_queue.len() + segs.len() <= r.rcv_wnd,
        r.rcv_nxt + segs.len() <= u32::MAX,
        forall|i: int| 0 <= i < segs.len() ==> (#[trigger] segs[i]).sn == r.rcv_nxt + i,
    ensures
        arrive(r, segs) == (KcpState {
            rcv_queue: r.rcv_queue + segs,
            rcv_nxt: (r.rcv_nxt + segs.len()) as u32,
            ..r
        }),
    decreases segs.len(),
{
    if segs.len() == 0 {
        assert(r.rcv_queue + segs =~= r.rcv_queue);
    } else {
        let seg = segs[0];
        let rest = segs.drop_first();
        let one = insert_by_sn(r.rcv_buf, seg);
        assert(rank(r.rcv_buf, seg.sn) == 0);
        assert(one =~= seq![seg]);
        let m = KcpState { rcv_buf: one, ..r };
        assert(one.drop_first().len() == 0);
        assert(slide_count(
            one.drop_first(),
            (m.rcv_nxt + 1) as u32,
            m.rcv_queue.len() as int + 1,
            m.rcv_wnd,
        ) == 0);
        assert(slide_count(one, m.rcv_nxt, m.rcv_queue.len() as int, m.rcv_wnd) == 1);
        let t = parse_data(r, seg);
        assert(t == slide(m));
        assert(one.subrange(0, 1) =~= seq![seg]);
        assert(one.subrange(1, 1) =~= Seq::<SegmentView>::empty());
        assert(t.rcv_queue =~= r.rcv_queue.push(seg));
        assert(t.rcv_buf =~= r.rcv_buf);
        assert(t.rcv_nxt == r.rcv_nxt + 1);
        assert(t == (KcpState {
            rcv_queue: r.rcv_queue.push(seg),
            rcv_nxt: (r.rcv_nxt + 1) as u32,
            ..r
        }));
        lemma_parse_data_keeps_wf(r, seg);
        assert forall|i: int| 0 <= i < rest.len() implies (#[trigger] rest[i]).sn == t.rcv_nxt
            + i by {
            assert(rest[i] == segs[i + 1]);
        }
        lemma_arrive_in_order(t, rest);
        assert(t.rcv_queue + rest =~= r.rcv_queue + segs);
        assert(arrive(r, segs) == arrive(t, rest));
    }
}

/// What a queue hands over next depends on the fragment indices and the
/// payloads of its segments, and on nothing else.
pub proof fn lemma_head_by_payload(a: Seq<SegmentView>, b: Seq<SegmentView>)
    requires
        a.len() == b.len(),
        forall|i: int|
            0 <= i < a.len() ==> (#[trigger] a[i]).frg == b[i].frg && a[i].data == b[i].data,
    ensures
        head_count(a) == head_count(b),
        message_ready(a) == message_ready(b),
        payload(a) == payload(b),
        head_message(a) == head_message(b),
{
    lemma_same_head_count(a, b);
    lemma_payload_by_data(a, b);
    lemma_head_count(a);
    let k = head_count(a);
    let fa = a.subrange(0, k);
    let fb = b.subrange(0, k);
    assert forall|i: int| 0 <= i < fa.len() implies (#[trigger] fa[i]).frg == fb[i].frg
        && fa[i].data == fb[i].data by {
        assert(fa[i] == a[i] && fb[i] == b[i]);
    }
    lemma_payload_by_data(fa, fb);
    if a.len() > 0 {
        assert(a[0].frg == b[0].frg);
    }
}

proof fn lemma_same_head_count(a: Seq<SegmentView>, b: Seq<SegmentView>)
    requires
        a.len() == b.len(),
        forall|i: int| 0 <= i < a.len() ==> (#[trigger] a[i]).frg == b[i].frg,
    ensures
        head_count(a) == head_count(b),
    decreases a.len(),
{
    if a.len() > 0 {
        assert(a[0].frg == b[0].frg);
        if a[0].frg != 0 {
            let ra = a.drop_first();
            let rb = b.drop_first();
            assert forall|i: int| 0 <= i < ra.len() implies (#[trigger] ra[i]).frg == rb[i].frg by {
                assert(ra[i] == a[i + 1] && rb[i] == b[i + 1]);
            }
            lemma_same_head_count(ra, rb);
        }
    }
}

/// Delivery of a message: the fragments of a message that arrive in order
/// at a block with an empty receive side and room for them are handed over
/// by `recv` as the message, whole and once.
pub proof fn lemma_message_arrives(
    r: KcpState,
    data: Seq<u8>,
    mss: int,
    segs: Seq<SegmentView>,
    cap: int,
)
    requires
        r.wf(),
        r.rcv_queue.len() == 0,
        r.rcv_buf.len() == 0,
        data.len() > 0,
        mss > 0,
        fragment_count(data.len() as int, mss) <= 255,
        segs.len() == fragment_count(data.len() as int, mss),
        segs.len() <= r.rcv_wnd,
        r.rcv_nxt + segs.len() <= u32::MAX,
        data.len() <= cap <= usize::MAX,
        forall|i: int|
            0 <= i < segs.len() ==> (#[trigger] segs[i]).sn == r.rcv_nxt + i && segs[i].frg
                == fragment_index(false, segs.len() as int, i) && segs[i].data == fragment(
                data,
                mss,
                false,
                segs.len() as int,
                i,
            ).data,
    ensures
        head_message(arrive(r, segs).rcv_queue) == data,
        recv_result(arrive(r, segs), cap) == Ok::<usize, KcpError>(data.len() as usize),
        recv_state(arrive(r, segs), cap).rcv_queue.len() == 0,
        recv_state(arrive(r, segs), cap).delivered() == r.delivered() + segs.len(),
{
    let count = segs.len() as int;
    let f = fragments(data, mss, false, count, count);
    lemma_arrive_in_order(r, segs);
    let t = arrive(r, segs);
    assert(t.rcv_queue =~= segs);
    lemma_fragments_reassemble(data, mss, false);
    assert forall|i: int| 0 <= i < segs.len() implies (#[trigger] segs[i]).frg == f[i].frg
        && segs[i].data == f[i].data by {}
    lemma_head_by_payload(segs, f);
    assert(t.wf()) by {
        lemma_arrive_keeps_wf(r, segs);
    }
    lemma_recv_keeps(t, cap);
    assert(t.rcv_queue.subrange(count, count) =~= Seq::<SegmentView>::empty());
}

/// Arriving data segments keep the block well formed.
pub proof fn lemma_arrive_keeps_wf(r: KcpState, segs: Seq<SegmentView>)
    requires
        r.wf(),
    ensures
        arrive(r, segs).wf(),
        r.keeps(arrive(r, segs)),
        r.advances(arrive(r, segs)),
        arrive(r, segs).delivered() == r.delivered(),
    decreases segs.len(),
{
    if segs.len() > 0 {
        lemma_parse_data_keeps(r, segs[0]);
        lemma_arrive_keeps_wf(parse_data(r, segs[0]), segs.drop_first());
    }
}

/// Whether two blocks have the same receive side: the same window, the
/// same segments waiting in and out of order, the same number next.
pub open spec fn same_receive_side(a: KcpState, b: KcpState) -> bool {
    &&& a.rcv_nxt == b.rcv_nxt
    &&& a.rcv_wnd == b.rcv_wnd
    &&& a.rcv_queue == b.rcv_queue
    &&& a.rcv_buf == b.rcv_buf
}

/// The block after the datagrams of `datagrams` were handed to it, one
/// after the other.
pub open spec fn feed(r: KcpState, datagrams: Seq<Seq<u8>>) -> KcpState
    decreases datagrams.len(),
{
    if datagrams.len() == 0 {
        r
    } else {
        input_state(feed(r, datagrams.drop_last()), datagrams.last())
    }
}

/// The payload of one segment as it stands on the wire.
pub open spec fn payload_of(w: Seq<u8>) -> Seq<u8> {
    w.subrange(OVERHEAD as int, w.len() as int)
}

/// The data segments among the segments of `wire`, as they arrive.
pub open spec fn data_segments(wire: Seq<Seq<u8>>) -> Seq<SegmentView>
    decreases wire.len(),
{
    if wire.len() == 0 {
        Seq::empty()
    } else if spec_decode_header(wire[0]).cmd == CMD_PUSH {
        seq![received_segment(spec_decode_header(wire[0]), payload_of(wire[0]))] + data_segments(
            wire.drop_first(),
        )
    } else {
        data_segments(wire.drop_first())
    }
}

/// The segments of `buf` that a flush sends, as they arrive at the peer.
pub open spec fn sent_segments(c: FlushContext, buf: Seq<SegmentView>) -> Seq<SegmentView>
    decreases buf.len(),
{
    if buf.len() == 0 {
        Seq::empty()
    } else if classify(c, buf.last()) == Transmission::Idle {
        sent_segments(c, buf.drop_last())
    } else {
        sent_segments(c, buf.drop_last()).push(
            received_segment(
                header_of(transmitted(c, buf.last())),
                transmitted(c, buf.last()).data,
            ),
        )
    }
}

/// What an arriving data segment does to the receive side depends on the
/// receive side alone.
proof fn lemma_parse_data_receive_side(a: KcpState, b: KcpState, seg: SegmentView)
    requires
        same_receive_side(a, b),
    ensures
        same_receive_side(parse_data(a, seg), parse_data(b, seg)),
{
}

/// What a segment of a datagram does to the receive side is what its data
/// does, if it carries any.
proof fn lemma_input_segment_receive_side(a: KcpState, b: KcpState, h: Header, data: Seq<u8>)
    requires
        same_receive_side(a, b),
    ensures
        same_receive_side(
            input_segment(a, h, data),
            if h.cmd == CMD_PUSH {
                parse_data(b, received_segment(h, data))
            } else {
                b
            },
        ),
{
    let a1 = shrink(parse_una(KcpState { rmt_wnd: h.wnd as u32, ..a }, h.una));
    assert(same_receive_side(a1, b));
    if h.cmd == CMD_PUSH {
        let seg = received_segment(h, data);
        if h.sn < a1.rcv_nxt + a1.rcv_wnd {
            let a2 = KcpState { acklist: a1.acklist.push((h.sn, h.ts)), ..a1 };
            lemma_parse_data_receive_side(a2, b, seg);
        }
    }
}

/// Data segments that arrive after others arrive at the block that the
/// others left.
proof fn lemma_arrive_append(r: KcpState, x: Seq<SegmentView>, y: Seq<SegmentView>)
    ensures
        arrive(r, x + y) == arrive(arrive(r, x), y),
    decreases x.len(),
{
    if x.len() == 0 {
        assert(x + y =~= y);
    } else {
        assert((x + y)[0] == x[0]);
        assert((x + y).drop_first() =~= x.drop_first() + y);
        lemma_arrive_append(parse_data(r, x[0]), x.drop_first(), y);
    }
}

/// The data segments of two runs of segments are those of the first, then
/// those of the second.
proof fn lemma_data_segments_append(x: Seq<Seq<u8>>, y: Seq<Seq<u8>>)
    ensures
        data_segments(x + y) == data_segments(x) + data_segments(y),
    decreases x.len(),
{
    if x.len() == 0 {
        assert(x + y =~= y);
        assert(data_segments(x) + data_segments(y) =~= data_segments(y));
    } else {
        assert((x + y)[0] == x[0]);
        assert((x + y).drop_first() =~= x.drop_first() + y);
        lemma_data_segments_append(x.drop_first(), y);
        let rest = data_segments(x.drop_first());
        if spec_decode_header(x[0]).cmd == CMD_PUSH {
            let first = seq![received_segment(spec_decode_header(x[0]), payload_of(x[0]))];
            assert(first + (rest + data_segments(y)) =~= (first + rest) + data_segments(y));
        }
    }
}

/// Taking in segments does to the receive side what the arrival of their
/// data does.
proof fn lemma_take_in_receive_side(a: KcpState, b: KcpState, segs: Seq<Seq<u8>>)
    requires
        same_receive_side(a, b),
    ensures
        same_receive_side(take_in(a, segs), arrive(b, data_segments(segs))),
    decreases segs.len(),
{
    if segs.len() > 0 {
        let h = spec_decode_header(segs[0]);
        let data = payload_of(segs[0]);
        let rest = segs.drop_first();
        lemma_input_segment_receive_side(a, b, h, data);
        let a1 = input_segment(a, h, data);
        if h.cmd == CMD_PUSH {
            let seg = received_segment(h, data);
            let b1 = parse_data(b, seg);
            lemma_take_in_receive_side(a1, b1, rest);
            let all = data_segments(segs);
            assert(all[0] == seg);
            assert(all.drop_first() =~= data_segments(rest));
        } else {
            lemma_take_in_receive_side(a1, b, rest);
        }
    }
}

/// A datagram that is made of segments of the block's conversation does to
/// the receive side what the arrival of its data segments does.
proof fn lemma_datagram_receive_side(a: KcpState, b: KcpState, group: Seq<Seq<u8>>)
    requires
        same_receive_side(a, b),
        group.len() > 0,
        forall|j: int| 0 <= j < group.len() ==> framed(a.conv, #[trigger] group[j]),
    ensures
        same_receive_side(input_state(a, concat(group)), arrive(b, data_segments(group))),
        input_state(a, concat(group)).conv == a.conv,
{
    lemma_scan_reads_segments(a, group, None);
    lemma_group_readable(a, group);
    lemma_take_in_receive_side(a, b, group);
    lemma_take_in_conv(a, group);
}

/// Taking in segments leaves the block in its conversation.
proof fn lemma_take_in_conv(a: KcpState, segs: Seq<Seq<u8>>)
    ensures
        take_in(a, segs).conv == a.conv,
    decreases segs.len(),
{
    if segs.len() > 0 {
        let h = spec_decode_header(segs[0]);
        let data = payload_of(segs[0]);
        lemma_input_segment_conv(a, h, data);
        lemma_take_in_conv(input_segment(a, h, data), segs.drop_first());
    }
}

/// The segments of several groups, one group after the other.
spec fn flatten(groups: Seq<Seq<Seq<u8>>>) -> Seq<Seq<u8>>
    decreases groups.len(),
{
    if groups.len() == 0 {
        Seq::empty()
    } else {
        flatten(groups.drop_last()) + groups.last()
    }
}

/// Datagrams that are made of segments of the block's conversation do to
/// the receive side what the arrival of their data segments does.
proof fn lemma_feed_receive_side(
    r: KcpState,
    datagrams: Seq<Seq<u8>>,
    groups: Seq<Seq<Seq<u8>>>,
)
    requires
        datagrams.len() == groups.len(),
        forall|i: int| 0 <= i < groups.len() ==> (#[trigger] groups[i]).len() > 0,
        forall|i: int| 0 <= i < groups.len() ==> datagrams[i] == concat(#[trigger] groups[i]),
        forall|i: int, j: int|
            0 <= i < groups.len() && 0 <= j < groups[i].len() ==> framed(
                r.conv,
                #[trigger] groups[i][j],
            ),
    ensures
        same_receive_side(feed(r, datagrams), arrive(r, data_segments(flatten(groups)))),
        feed(r, datagrams).conv == r.conv,
    decreases datagrams.len(),
{
    if datagrams.len() > 0 {
        let front = datagrams.drop_last();
        let gfront = groups.drop_last();
        let g = groups.last();
        assert(g == groups[groups.len() - 1]);
        assert(datagrams.last() == concat(g));
        assert forall|i: int| 0 <= i < gfront.len() implies (#[trigger] gfront[i]).len() > 0
            && front[i] == concat(gfront[i]) by {
            assert(gfront[i] == groups[i]);
        }
        assert forall|i: int, j: int|
            0 <= i < gfront.len() && 0 <= j < gfront[i].len() implies framed(
            r.conv,
            #[trigger] gfront[i][j],
        ) by {
            assert(gfront[i] == groups[i]);
        }
        lemma_feed_receive_side(r, front, gfront);
        let a = feed(r, front);
        let b = arrive(r, data_segments(flatten(gfront)));
        assert forall|j: int| 0 <= j < g.len() implies framed(a.conv, #[trigger] g[j]) by {
            assert(framed(r.conv, groups[groups.len() - 1][j]));
        }
        lemma_datagram_receive_side(a, b, g);
        lemma_data_segments_append(flatten(gfront), g);
        lemma_arrive_append(r, data_segments(flatten(gfront)), data_segments(g));
    }
}

/// All datagrams of a packing, each as the segments that it holds.
spec fn all_groups(segs: Seq<Seq<u8>>, mtu: int) -> Seq<Seq<Seq<u8>>> {
    let g = group_fold(segs, mtu);
    if concat(g.open).len() > 0 {
        g.closed.push(g.open)
    } else {
        g.closed
    }
}

/// The datagrams of a packing hold the segments that were packed, each once
/// and in their order.
proof fn lemma_groups_flatten(segs: Seq<Seq<u8>>, mtu: int)
    requires
        forall|i: int| 0 <= i < segs.len() ==> (#[trigger] segs[i]).len() > 0,
    ensures
        flatten(group_fold(segs, mtu).closed) + group_fold(segs, mtu).open == segs,
        flatten(all_groups(segs, mtu)) == segs,
        forall|i: int|
            0 <= i < group_fold(segs, mtu).closed.len() ==> (#[trigger] group_fold(
                segs,
                mtu,
            ).closed[i]).len() > 0,
        segs.len() > 0 ==> group_fold(segs, mtu).open.len() > 0 && concat(
            group_fold(segs, mtu).open,
        ).len() > 0,
    decreases segs.len(),
{
    let g = group_fold(segs, mtu);
    if segs.len() == 0 {
        assert(flatten(g.closed) + g.open =~= segs);
        assert(concat(g.open).len() == 0);
    } else {
        let front = segs.drop_last();
        let last = segs.last();
        assert(last == segs[segs.len() - 1]);
        assert forall|i: int| 0 <= i < front.len() implies (#[trigger] front[i]).len() > 0 by {
            assert(front[i] == segs[i]);
        }
        lemma_groups_flatten(front, mtu);
        let acc = group_fold(front, mtu);
        if concat(acc.open).len() + last.len() > mtu && concat(acc.open).len() > 0 {
            assert(g.closed.drop_last() =~= acc.closed);
            assert(g.closed.last() == acc.open);
            lemma_concat_one(last);
            assert((flatten(acc.closed) + acc.open) + seq![last] =~= segs);
            assert forall|i: int| 0 <= i < g.closed.len() implies (#[trigger] g.closed[i]).len()
                > 0 by {
                if i < acc.closed.len() {
                    assert(g.closed[i] == acc.closed[i]);
                } else {
                    if acc.open.len() == 0 {
                        assert(concat(acc.open).len() == 0);
                    }
                }
            }
        } else {
            assert(acc.open.push(last).drop_last() =~= acc.open);
            assert(front.push(last) =~= segs);
            assert(flatten(acc.closed) + acc.open.push(last) =~= (flatten(acc.closed) + acc.open).push(
                last,
            ));
            assert(concat(g.open) =~= concat(acc.open) + last);
        }
        let all = all_groups(segs, mtu);
        assert(all == g.closed.push(g.open));
        assert(all.drop_last() =~= g.closed);
    }
}

/// The data segments among what a flush puts on the wire are the segments
/// of the send buffer that it sends.
proof fn lemma_data_wire_segments(c: FlushContext, buf: Seq<SegmentView>)
    requires
        forall|i: int|
            0 <= i < buf.len() ==> (#[trigger] buf[i]).cmd == CMD_PUSH && buf[i].data.len()
                <= u32::MAX,
    ensures
        data_segments(data_wire(c, buf)) == sent_segments(c, buf),
    decreases buf.len(),
{
    if buf.len() > 0 {
        let front = buf.drop_last();
        assert forall|i: int| 0 <= i < front.len() implies (#[trigger] front[i]).cmd == CMD_PUSH
            && front[i].data.len() <= u32::MAX by {
            assert(front[i] == buf[i]);
        }
        lemma_data_wire_segments(c, front);
        assert(buf.last() == buf[buf.len() - 1]);
        if classify(c, buf.last()) != Transmission::Idle {
            let sent = transmitted(c, buf.last());
            let w = encode_segment(sent);
            assert(sent.cmd == CMD_PUSH && sent.data == buf.last().data);
            lemma_segment_roundtrip(sent);
            assert(payload_of(w) =~= sent.data);
            let one = seq![w];
            assert(one[0] == w);
            assert(spec_decode_header(w) == header_of(sent));
            assert(one.drop_first().len() == 0);
            assert(data_segments(one.drop_first()) =~= Seq::<SegmentView>::empty());
            assert(data_segments(one) =~= seq![received_segment(header_of(sent), sent.data)]);
            assert(data_wire(c, buf) =~= data_wire(c, front) + one);
            lemma_data_segments_append(data_wire(c, front), one);
            assert(sent_segments(c, buf) =~= sent_segments(c, front) + data_segments(one));
        }
    }
}

/// Segments without payload, as a flush sends them, carry no data.
proof fn lemma_control_segments_carry_no_data(wire: Seq<Seq<u8>>)
    requires
        forall|i: int|
            0 <= i < wire.len() ==> spec_decode_header(#[trigger] wire[i]).cmd != CMD_PUSH,
    ensures
        data_segments(wire) == Seq::<SegmentView>::empty(),
    decreases wire.len(),
{
    if wire.len() > 0 {
        let rest = wire.drop_first();
        assert forall|i: int| 0 <= i < rest.len() implies spec_decode_header(
            #[trigger] rest[i],
        ).cmd != CMD_PUSH by {
            assert(rest[i] == wire[i + 1]);
        }
        lemma_control_segments_carry_no_data(rest);
    }
}

/// The data segments among all that a flush puts on the wire are the
/// segments of the send buffer that it sends.
proof fn lemma_flush_wire_segments(s: KcpState)
    requires
        s.wf(),
    ensures
        data_segments(flush_wire(s)) == sent_segments(context(s), flush_promoted(s).snd_buf),
{
    let c = context(s);
    let p = flush_promoted(s);
    let tail = last_ack(s.acklist);
    let a = ack_wire(c, s.acklist);
    let b = probe_wire(c, flush_scheduled(s).probe, tail.0, tail.1);
    let d = data_wire(c, p.snd_buf);
    assert(flush_wire(s) == a + b + d);
    assert forall|i: int| 0 <= i < a.len() implies spec_decode_header(#[trigger] a[i]).cmd
        != CMD_PUSH by {
        lemma_header_roundtrip(control_header(c, CMD_ACK, s.acklist[i].0, s.acklist[i].1));
    }
    assert forall|i: int| 0 <= i < b.len() implies spec_decode_header(#[trigger] b[i]).cmd
        != CMD_PUSH by {
        lemma_header_roundtrip(control_header(c, CMD_WASK, tail.0, tail.1));
        lemma_header_roundtrip(control_header(c, CMD_WINS, tail.0, tail.1));
    }
    lemma_control_segments_carry_no_data(a);
    lemma_control_segments_carry_no_data(b);
    lemma_promoted_stamped(s);
    lemma_data_wire_segments(c, p.snd_buf);
    lemma_data_segments_append(a, b);
    lemma_data_segments_append(a + b, d);
    assert(data_segments(a + b) =~= Seq::<SegmentView>::empty());
    assert(data_segments(a + b) + data_segments(d) =~= data_segments(d));
}

/// A link that loses nothing: the datagrams of a flush of a block that
/// has been updated, handed to a block of the same conversation in their
/// order, leave its receive side as the
/// data segments that the flush sent leave it when they arrive one by one.
/// Acknowledgements, window probes and the bounds of the datagrams make no
/// difference to what is received.
pub proof fn lemma_flush_reaches_peer(s: KcpState, peer: KcpState)
    requires
        s.wf(),
        s.updated,
        peer.conv == s.conv,
    ensures
        same_receive_side(
            feed(peer, flush_output(s)),
            arrive(peer, sent_segments(context(s), flush_promoted(s).snd_buf)),
        ),
{
    if s.updated {
        let wire = flush_wire(s);
        let mtu = s.mtu as int;
        lemma_flush_wire_framed(s);
        lemma_pack_groups(wire, mtu, s.conv);
        assert forall|i: int| 0 <= i < wire.len() implies (#[trigger] wire[i]).len() > 0 by {
            assert(framed(s.conv, wire[i]));
        }
        lemma_groups_flatten(wire, mtu);
        lemma_flush_wire_segments(s);
        let g = group_fold(wire, mtu);
        let groups = all_groups(wire, mtu);
        let out = flush_output(s);
        assert(pack_fold(wire, mtu).open == concat(g.open));
        assert(out.len() == groups.len());
        assert forall|i: int| 0 <= i < groups.len() implies (#[trigger] groups[i]).len() > 0
            && out[i] == concat(groups[i]) by {
            if i < g.closed.len() {
                assert(groups[i] == g.closed[i]);
                assert(out[i] == pack_fold(wire, mtu).closed[i]);
            } else {
                assert(groups[i] == g.open);
                if g.open.len() == 0 {
                    assert(concat(g.open).len() == 0);
                }
            }
        }
        assert forall|i: int, j: int|
            0 <= i < groups.len() && 0 <= j < groups[i].len() implies framed(
            peer.conv,
            #[trigger] groups[i][j],
        ) by {
            if i < g.closed.len() {
                assert(groups[i] == g.closed[i]);
                assert(framed(s.conv, g.closed[i][j]));
            } else {
                assert(groups[i] == g.open);
                assert(framed(s.conv, g.open[j]));
            }
        }
        lemma_feed_receive_side(peer, out, groups);
    }
}

/// Segments that were never sent are all sent by the flush, each under its
/// number, with its fragment index and its payload.
proof fn lemma_first_are_sent(c: FlushContext, buf: Seq<SegmentView>)
    requires
        forall|i: int| 0 <= i < buf.len() ==> (#[trigger] buf[i]).xmit == 0,
    ensures
        sent_segments(c, buf).len() == buf.len(),
        forall|i: int|
            0 <= i < buf.len() ==> (#[trigger] sent_segments(c, buf)[i]).sn == buf[i].sn
                && sent_segments(c, buf)[i].frg == buf[i].frg && sent_segments(c, buf)[i].data
                == buf[i].data,
    decreases buf.len(),
{
    if buf.len() > 0 {
        let front = buf.drop_last();
        assert forall|i: int| 0 <= i < front.len() implies (#[trigger] front[i]).xmit == 0 by {
            assert(front[i] == buf[i]);
        }
        lemma_first_are_sent(c, front);
        assert(buf.last() == buf[buf.len() - 1]);
        assert(classify(c, buf.last()) == Transmission::First);
        let sent = sent_segments(c, buf);
        assert forall|i: int| 0 <= i < buf.len() implies (#[trigger] sent[i]).sn == buf[i].sn
            && sent[i].frg == buf[i].frg && sent[i].data == buf[i].data by {
            if i < front.len() {
                assert(sent[i] == sent_segments(c, front)[i]);
                assert(front[i] == buf[i]);
            }
        }
    }
}

/// A message crosses the link: where the send queue of a block holds the
/// fragments of one message and nothing is in flight, where the window
/// admits them all, and where the peer has an empty receive side, expects
/// the first of them next and has room for them, one flush and a link that
/// loses nothing bring the message to the peer's `recv`, whole.
pub proof fn lemma_message_crosses_link(s: KcpState, peer: KcpState, data: Seq<u8>, cap: int)
    requires
        s.wf(),
        s.updated,
        s.snd_buf.len() == 0,
        data.len() > 0,
        fragment_count(data.len() as int, s.mss as int) <= 255,
        s.snd_queue == fragments(
            data,
            s.mss as int,
            false,
            fragment_count(data.len() as int, s.mss as int),
            fragment_count(data.len() as int, s.mss as int),
        ),
        fragment_count(data.len() as int, s.mss as int) <= effective_window(s),
        s.snd_nxt + fragment_count(data.len() as int, s.mss as int) <= u32::MAX,
        peer.wf(),
        peer.conv == s.conv,
        peer.rcv_queue.len() == 0,
        peer.rcv_buf.len() == 0,
        peer.rcv_nxt == s.snd_nxt,
        fragment_count(data.len() as int, s.mss as int) <= peer.rcv_wnd,
        data.len() <= cap <= usize::MAX,
    ensures
        recv_result(feed(peer, flush_output(s)), cap) == Ok::<usize, KcpError>(
            data.len() as usize,
        ),
        head_message(feed(peer, flush_output(s)).rcv_queue) == data,
{
    let c = context(s);
    let mss = s.mss as int;
    let count = fragment_count(data.len() as int, mss);
    let q = KcpState { probe: 0, ..flush_scheduled(s) };
    let p = flush_promoted(s);
    let k = promote_count(q);
    let run = promoted_run(c, s.snd_queue, s.snd_nxt, k);
    assert(q.snd_buf == s.snd_buf && q.snd_queue == s.snd_queue);
    assert(effective_window(q) == effective_window(s));
    assert(s.snd_una == s.snd_nxt);
    assert(k == count);
    assert(p.snd_buf =~= run);
    lemma_first_are_sent(c, run);
    let sent = sent_segments(c, run);
    assert forall|i: int| 0 <= i < sent.len() implies (#[trigger] sent[i]).sn == peer.rcv_nxt + i
        && sent[i].frg == fragment_index(false, sent.len() as int, i) && sent[i].data == fragment(
        data,
        mss,
        false,
        sent.len() as int,
        i,
    ).data by {
        assert(run[i] == promoted(c, s.snd_queue[i], (s.snd_nxt + i) as u32));
        assert(s.snd_queue[i] == fragment(data, mss, false, count, i));
    }
    lemma_message_arrives(peer, data, mss, sent, cap);
    lemma_flush_reaches_peer(s, peer);
}

} // verus!
