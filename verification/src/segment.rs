//! The segment: the unit of the wire format and of the four queues.

use vstd::prelude::*;
use crate::wire::Header;

verus! {

/// A segment as the queues hold it: the wire fields, the retransmission
/// state that never leaves this endpoint, and the payload.
pub(crate) struct Segment {
    pub(crate) conv: u32,
    pub(crate) cmd: u8,
    pub(crate) frg: u8,
    pub(crate) wnd: u16,
    pub(crate) ts: u32,
    pub(crate) sn: u32,
    pub(crate) una: u32,
    pub(crate) resendts: u32,
    pub(crate) rto: u32,
    pub(crate) fastack: u32,
    pub(crate) xmit: u32,
    pub(crate) data: Vec<u8>,
}

/// What a segment is, with its payload as a sequence of bytes.
pub ghost struct SegmentView {
    pub conv: u32,
    pub cmd: u8,
    pub frg: u8,
    pub wnd: u16,
    pub ts: u32,
    pub sn: u32,
    pub una: u32,
    pub resendts: u32,
    pub rto: u32,
    pub fastack: u32,
    pub xmit: u32,
    pub data: Seq<u8>,
}

impl View for Segment {
    type V = SegmentView;

    open(crate) spec fn view(&self) -> SegmentView {
        SegmentView {
            conv: self.conv,
            cmd: self.cmd,
            frg: self.frg,
            wnd: self.wnd,
            ts: self.ts,
            sn: self.sn,
            una: self.una,
            resendts: self.resendts,
            rto: self.rto,
            fastack: self.fastack,
            xmit: self.xmit,
            data: self.data@,
        }
    }
}

/// The views of the segments of a queue, in order.
pub(crate) open spec fn views(q: Seq<Segment>) -> Seq<SegmentView> {
    Seq::new(q.len(), |i: int| q[i]@)
}

/// A segment that has only a fragment index and a payload: what `send`
/// puts in the send queue.
pub open spec fn fresh_segment(frg: u8, data: Seq<u8>) -> SegmentView {
    SegmentView {
        conv: 0,
        cmd: 0,
        frg,
        wnd: 0,
        ts: 0,
        sn: 0,
        una: 0,
        resendts: 0,
        rto: 0,
        fastack: 0,
        xmit: 0,
        data,
    }
}

/// The header under which a segment goes out. Its length field is right
/// when the payload is at most `u32::MAX` bytes long.
pub open spec fn header_of(s: SegmentView) -> Header {
    Header {
        conv: s.conv,
        cmd: s.cmd,
        frg: s.frg,
        wnd: s.wnd,
        ts: s.ts,
        sn: s.sn,
        una: s.una,
        len: s.data.len() as u32,
    }
}

/// The segment that arrives under header `h` with payload `data`.
pub open spec fn received_segment(h: Header, data: Seq<u8>) -> SegmentView {
    SegmentView {
        conv: h.conv,
        cmd: h.cmd,
        frg: h.frg,
        wnd: h.wnd,
        ts: h.ts,
        sn: h.sn,
        una: h.una,
        resendts: 0,
        rto: 0,
        fastack: 0,
        xmit: 0,
        data,
    }
}

/// Whether the sequence numbers of `q` rise strictly from front to back.
pub open spec fn sn_ascending(q: Seq<SegmentView>) -> bool {
    forall|i: int, j: int| 0 <= i < j < q.len() ==> q[i].sn < q[j].sn
}

/// The number of segments at the front of `q` whose sequence number is
/// below `sn`. Where `q` is ascending, these are all such segments, and the
/// result is the place where `sn` stands or would be inserted.
pub open spec fn rank(q: Seq<SegmentView>, sn: u32) -> int
    decreases q.len(),
{
    if q.len() > 0 && q[0].sn < sn {
        1 + rank(q.drop_first(), sn)
    } else {
        0
    }
}

/// The payloads of `q`, one after the other.
pub open spec fn payload(q: Seq<SegmentView>) -> Seq<u8>
    decreases q.len(),
{
    if q.len() == 0 {
        Seq::empty()
    } else {
        payload(q.drop_last()) + q.last().data
    }
}

impl Segment {
    /// An empty segment for fragment `frg` with payload `data`.
    pub(crate) fn fresh(frg: u8, data: Vec<u8>) -> (s: Segment)
        ensures
            s@ == fresh_segment(frg, data@),
    {
        Segment {
            conv: 0,
            cmd: 0,
            frg,
            wnd: 0,
            ts: 0,
            sn: 0,
            una: 0,
            resendts: 0,
            rto: 0,
            fastack: 0,
            xmit: 0,
            data,
        }
    }
}

/// `rank` stays within the queue; every segment before it is below `sn`,
/// and in an ascending queue every segment from it on is not.
pub proof fn lemma_rank(q: Seq<SegmentView>, sn: u32)
    ensures
        0 <= rank(q, sn) <= q.len(),
        forall|i: int| 0 <= i < rank(q, sn) ==> q[i].sn < sn,
        rank(q, sn) < q.len() ==> q[rank(q, sn)].sn >= sn,
        sn_ascending(q) ==> forall|i: int| rank(q, sn) <= i < q.len() ==> q[i].sn >= sn,
    decreases q.len(),
{
    if q.len() > 0 && q[0].sn < sn {
        let rest = q.drop_first();
        lemma_rank(rest, sn);
        assert forall|i: int| 0 <= i < rank(q, sn) implies q[i].sn < sn by {
            if i > 0 {
                assert(q[i] == rest[i - 1]);
            }
        }
        if rank(q, sn) < q.len() {
            assert(q[rank(q, sn)] == rest[rank(rest, sn)]);
        }
        if sn_ascending(q) {
            assert(sn_ascending(rest)) by {
                assert forall|i: int, j: int| 0 <= i < j < rest.len() implies rest[i].sn
                    < rest[j].sn by {
                    assert(rest[i] == q[i + 1]);
                    assert(rest[j] == q[j + 1]);
                }
            }
            assert forall|i: int| rank(q, sn) <= i < q.len() implies q[i].sn >= sn by {
                assert(q[i] == rest[i - 1]);
            }
        }
    } else {
        if sn_ascending(q) && q.len() > 0 {
            assert forall|i: int| 0 <= i < q.len() implies q[i].sn >= sn by {
                if i > 0 {
                    assert(q[0].sn < q[i].sn);
                }
            }
        }
    }
}

} // verus!
