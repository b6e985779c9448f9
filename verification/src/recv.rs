//! Receiving: the next message leaves the receive queue.

use vstd::prelude::*;
use std::collections::VecDeque;
use crate::input::{lemma_slide_keeps_wf, slide, slide_segments};
use crate::segment::{Segment, SegmentView, payload, views};
use crate::state::{ASK_TELL, KCP, KcpError, KcpState};

verus! {

/// The number of segments that make up the message at the head of `q`:
/// those up to and including the first whose fragment index is zero, or all
/// of `q` where none is.
pub open spec fn head_count(q: Seq<SegmentView>) -> int
    decreases q.len(),
{
    if q.len() == 0 {
        0
    } else if q[0].frg == 0 {
        1
    } else {
        1 + head_count(q.drop_first())
    }
}

/// Whether the message at the head of `q` can be handed over: its first
/// segment is its last, or `q` holds at least as many segments as that
/// first segment says are to come.
pub open spec fn message_ready(q: Seq<SegmentView>) -> bool {
    q.len() > 0 && (q[0].frg == 0 || q.len() >= q[0].frg + 1)
}

/// The bytes of the message at the head of `q`.
pub open spec fn head_message(q: Seq<SegmentView>) -> Seq<u8> {
    payload(q.subrange(0, head_count(q)))
}

/// What `recv` returns when it is offered room for `cap` bytes: the length
/// of the next message, or why none is handed over.
pub open spec fn recv_result(s: KcpState, cap: int) -> Result<usize, KcpError> {
    if s.rcv_queue.len() == 0 {
        Err(KcpError::RecvQueueEmpty)
    } else if !message_ready(s.rcv_queue) {
        Err(KcpError::Incomplete)
    } else if head_message(s.rcv_queue).len() > cap {
        Err(KcpError::ShortBuffer)
    } else {
        Ok(head_message(s.rcv_queue).len() as usize)
    }
}

/// The block after `recv` was offered room for `cap` bytes. Where a message
/// is handed over, its segments leave the receive queue and what is next
/// in order moves up from the receive buffer; where the queue was full
/// before and is not any more, a window announcement becomes due. Where no
/// message is handed over, nothing changes.
pub open spec fn recv_state(s: KcpState, cap: int) -> KcpState {
    if recv_result(s, cap).is_err() {
        s
    } else {
        let k = head_count(s.rcv_queue);
        let taken = KcpState {
            rcv_queue: s.rcv_queue.subrange(k, s.rcv_queue.len() as int),
            ..s
        };
        let moved = slide(taken);
        if moved.rcv_queue.len() < s.rcv_wnd && s.rcv_queue.len() >= s.rcv_wnd {
            KcpState { probe: moved.probe | ASK_TELL, ..moved }
        } else {
            moved
        }
    }
}

/// `head_count` counts at least one segment of a queue that has one, and
/// never more than the queue has; the segments before the last one counted
/// have a fragment index other than zero.
pub proof fn lemma_head_count(q: Seq<SegmentView>)
    ensures
        0 <= head_count(q) <= q.len(),
        q.len() > 0 ==> head_count(q) >= 1,
        forall|i: int| 0 <= i < head_count(q) - 1 ==> (#[trigger] q[i]).frg != 0,
        0 < head_count(q) < q.len() ==> q[head_count(q) - 1].frg == 0,
    decreases q.len(),
{
    if q.len() > 0 && q[0].frg != 0 {
        let rest = q.drop_first();
        lemma_head_count(rest);
        assert forall|i: int| 0 <= i < head_count(q) - 1 implies (#[trigger] q[i]).frg != 0 by {
            if i > 0 {
                assert(q[i] == rest[i - 1]);
            }
        }
        if 0 < head_count(q) < q.len() {
            assert(q[head_count(q) - 1] == rest[head_count(rest) - 1]);
        }
    }
}

/// The payload of a longer front part of a queue is at least as long as
/// that of a shorter one.
pub proof fn lemma_payload_grows(q: Seq<SegmentView>, i: int, j: int)
    requires
        0 <= i <= j <= q.len(),
    ensures
        payload(q.subrange(0, i)).len() <= payload(q.subrange(0, j)).len(),
    decreases j - i,
{
    if i < j {
        lemma_payload_grows(q, i, j - 1);
        assert(q.subrange(0, j).drop_last() =~= q.subrange(0, j - 1));
    }
}

/// Taking a front part off the receive queue keeps the block well formed
/// and within its window.
pub proof fn lemma_take_keeps_wf(s: KcpState, k: int)
    requires
        s.wf(),
        0 <= k <= s.rcv_queue.len(),
    ensures
        (KcpState { rcv_queue: s.rcv_queue.subrange(k, s.rcv_queue.len() as int), ..s }).wf(),
        s.rcv_within_window() ==> (KcpState {
            rcv_queue: s.rcv_queue.subrange(k, s.rcv_queue.len() as int),
            ..s
        }).rcv_within_window(),
{
    let t = KcpState { rcv_queue: s.rcv_queue.subrange(k, s.rcv_queue.len() as int), ..s };
    assert forall|i: int| 0 <= i < t.rcv_queue.len() implies (#[trigger] t.rcv_queue[i]).sn
        == t.rcv_nxt - t.rcv_queue.len() + i by {
        assert(t.rcv_queue[i] == s.rcv_queue[i + k]);
    }
}

/// Handing over a message keeps the block well formed and what held of
/// it. The segments handed over are the next in order that the application
/// has not had, so that none is handed over twice.
pub proof fn lemma_recv_keeps(s: KcpState, cap: int)
    requires
        s.wf(),
    ensures
        recv_state(s, cap).wf(),
        s.keeps(recv_state(s, cap)),
        s.advances(recv_state(s, cap)),
        recv_result(s, cap).is_err() ==> recv_state(s, cap) == s,
        recv_result(s, cap).is_ok() ==> recv_state(s, cap).delivered() == s.delivered()
            + head_count(s.rcv_queue),
        forall|i: int|
            0 <= i < head_count(s.rcv_queue) ==> (#[trigger] s.rcv_queue[i]).sn == s.delivered()
                + i,
{
    lemma_head_count(s.rcv_queue);
    if recv_result(s, cap).is_ok() {
        let k = head_count(s.rcv_queue);
        lemma_take_keeps_wf(s, k);
        let taken = KcpState {
            rcv_queue: s.rcv_queue.subrange(k, s.rcv_queue.len() as int),
            ..s
        };
        lemma_slide_keeps_wf(taken);
        let moved = slide(taken);
        assert(s.keeps(taken));
        assert(taken.keeps(moved));
    }
}

/// The length of the message at the head of `queue`, where it is at most
/// `limit`.
fn message_size(queue: &VecDeque<Segment>, limit: usize) -> (size: Option<usize>)
    requires
        queue@.len() > 0,
    ensures
        size == (if head_message(views(queue@)).len() <= limit {
            Some(head_message(views(queue@)).len() as usize)
        } else {
            None
        }),
{
    let ghost q = views(queue@);
    let n: usize = queue.len();
    let mut total: usize = 0;
    let mut i: usize = 0;
    let mut done: bool = false;
    proof {
        assert(q.subrange(0, n as int) =~= q);
        assert(q.subrange(0, 0) =~= Seq::<SegmentView>::empty());
    }
    while i < n && !done
        invariant
            n == queue@.len(),
            q == views(queue@),
            0 <= i <= n,
            total == payload(q.subrange(0, i as int)).len(),
            total <= limit,
            !done ==> head_count(q) == i + head_count(q.subrange(i as int, n as int)),
            done ==> head_count(q) == i,
        decreases n - i + (if done { 0int } else { 1int }),
    {
        let len: usize = queue[i].data.len();
        proof {
            assert(q[i as int] == queue@[i as int]@);
            lemma_head_count(q);
            let rest = q.subrange(i as int, n as int);
            lemma_head_count(rest);
            assert(rest[0] == q[i as int]);
            assert(rest.drop_first() =~= q.subrange(i + 1, n as int));
            assert(q.subrange(0, i + 1).drop_last() =~= q.subrange(0, i as int));
            assert(q.subrange(0, i + 1).last() == q[i as int]);
            lemma_payload_grows(q, i + 1, head_count(q));
        }
        if len > limit - total {
            return None;
        }
        total = total + len;
        if queue[i].frg == 0 {
            done = true;
        }
        i += 1;
    }
    Some(total)
}

/// Copies `src` over `dst[at..at + src.len()]`.
fn copy_into(dst: &mut [u8], at: usize, src: &[u8])
    requires
        at + src@.len() <= old(dst)@.len(),
    ensures
        final(dst)@ == old(dst)@.subrange(0, at as int) + src@ + old(dst)@.subrange(
            at + src@.len(),
            old(dst)@.len() as int,
        ),
{
    let n: usize = src.len();
    let total: usize = dst.len();
    let mut i: usize = 0;
    proof {
        assert(dst@ =~= old(dst)@.subrange(0, at as int) + src@.subrange(0, 0) + old(
            dst,
        )@.subrange(at as int, total as int));
    }
    while i < n
        invariant
            n == src@.len(),
            total == old(dst)@.len(),
            at + n <= total,
            0 <= i <= n,
            dst@ == old(dst)@.subrange(0, at as int) + src@.subrange(0, i as int) + old(
                dst,
            )@.subrange(at + i, total as int),
        decreases n - i,
    {
        dst[at + i] = src[i];
        proof {
            assert(dst@ =~= old(dst)@.subrange(0, at as int) + src@.subrange(0, i + 1) + old(
                dst,
            )@.subrange(at + i + 1, total as int));
        }
        i += 1;
    }
    proof {
        assert(src@.subrange(0, n as int) =~= src@);
    }
}

/// Takes the first `k` segments off `queue` and writes their payloads,
/// one after the other, to the front of `buf`.
fn take_message(queue: &mut VecDeque<Segment>, buf: &mut [u8], Ghost(k): Ghost<int>)
    requires
        k == head_count(views(old(queue)@)),
        payload(views(old(queue)@).subrange(0, k)).len() <= old(buf)@.len(),
    ensures
        views(final(queue)@) == views(old(queue)@).subrange(k, old(queue)@.len() as int),
        final(buf)@ == payload(views(old(queue)@).subrange(0, k)) + old(buf)@.subrange(
            payload(views(old(queue)@).subrange(0, k)).len() as int,
            old(buf)@.len() as int,
        ),
{
    let ghost q = views(queue@);
    let ghost room = buf@;
    let mut off: usize = 0;
    let mut done: bool = false;
    let ghost mut i: int = 0;
    let cap: usize = buf.len();
    proof {
        lemma_head_count(q);
        assert(q.subrange(0, q.len() as int) =~= q);
        assert(q.subrange(0, 0) =~= Seq::<SegmentView>::empty());
        assert(buf@ =~= payload(q.subrange(0, 0)) + room.subrange(0, cap as int));
    }
    while queue.len() > 0 && !done
        invariant
            cap == room.len(),
            k == head_count(q),
            0 <= i <= k <= q.len(),
            payload(q.subrange(0, k)).len() <= cap,
            off == payload(q.subrange(0, i)).len(),
            off <= cap,
            queue@.len() == q.len() - i,
            views(queue@) == q.subrange(i, q.len() as int),
            buf@ == payload(q.subrange(0, i)) + room.subrange(off as int, cap as int),
            !done ==> k == i + head_count(q.subrange(i, q.len() as int)),
            done ==> k == i,
        ensures
            i == k,
            off == payload(q.subrange(0, i)).len(),
            views(queue@) == q.subrange(i, q.len() as int),
            buf@ == payload(q.subrange(0, i)) + room.subrange(off as int, cap as int),
        decreases queue@.len() + (if done { 0int } else { 1int }),
    {
        let ghost waiting = queue@;
        proof {
            let rest = q.subrange(i, q.len() as int);
            lemma_head_count(rest);
            assert(views(waiting)[0] == waiting[0]@);
            assert(rest[0] == q[i]);
            assert(rest.drop_first() =~= q.subrange(i + 1, q.len() as int));
            assert(q.subrange(0, i + 1).drop_last() =~= q.subrange(0, i));
            assert(q.subrange(0, i + 1).last() == q[i]);
            lemma_payload_grows(q, i + 1, k);
        }
        let front = queue.pop_front();
        match front {
            Some(seg) => {
                assert(seg@ == q[i]);
                copy_into(buf, off, seg.data.as_slice());
                proof {
                    assert(buf@ =~= payload(q.subrange(0, i + 1)) + room.subrange(
                        off + seg.data@.len(),
                        cap as int,
                    ));
                    assert(views(queue@) =~= q.subrange(i + 1, q.len() as int)) by {
                        assert(views(queue@) =~= views(waiting).drop_first());
                    }
                }
                off = off + seg.data.len();
                if seg.frg == 0 {
                    done = true;
                }
                proof {
                    i = i + 1;
                }
            },
            None => {},
        }
    }
}

impl KCP {
    /// The length of the next message, without taking it. Fails with
    /// `RecvQueueEmpty` where nothing waits, with `Incomplete` where
    /// fragments are missing, and with `ShortBuffer` where the message is
    /// longer than any buffer can be.
    pub fn peeksize(&self) -> (r: Result<usize, KcpError>)
        ensures
            r == recv_result(self@, usize::MAX as int),
    {
        self.next_size(usize::MAX)
    }

    /// The length of the next message, where `recv` would hand it over
    /// into room for `cap` bytes.
    fn next_size(&self, cap: usize) -> (r: Result<usize, KcpError>)
        ensures
            r == recv_result(self@, cap as int),
    {
        if self.rcv_queue.len() == 0 {
            return Err(KcpError::RecvQueueEmpty);
        }
        let frg: u8 = self.rcv_queue[0].frg;
        if frg != 0 && self.rcv_queue.len() < frg as usize + 1 {
            return Err(KcpError::Incomplete);
        }
        match message_size(&self.rcv_queue, cap) {
            Some(size) => Ok(size),
            None => Err(KcpError::ShortBuffer),
        }
    }

    /// Hands the next message to the application: writes it to the front
    /// of `buf` and returns its length. Fails, and changes nothing, where
    /// nothing waits (`RecvQueueEmpty`), where fragments of the message are
    /// missing (`Incomplete`) and where `buf` is too short for it
    /// (`ShortBuffer`).
    pub fn recv(&mut self, buf: &mut [u8]) -> (r: Result<usize, KcpError>)
        requires
            old(self).wf(),
        ensures
            final(self).wf(),
            final(self)@ == recv_state(old(self)@, old(buf)@.len() as int),
            r == recv_result(old(self)@, old(buf)@.len() as int),
            final(buf)@.len() == old(buf)@.len(),
            r.is_err() ==> final(buf)@ == old(buf)@,
            r.is_ok() ==> final(buf)@ == head_message(old(self)@.rcv_queue) + old(buf)@.subrange(
                head_message(old(self)@.rcv_queue).len() as int,
                old(buf)@.len() as int,
            ),
            old(self)@.keeps(final(self)@),
            old(self)@.advances(final(self)@),
            r.is_ok() ==> final(self)@.delivered() == old(self)@.delivered() + head_count(
                old(self)@.rcv_queue,
            ),
    {
        proof {
            lemma_recv_keeps(self@, buf@.len() as int);
        }
        let size: usize = match self.next_size(buf.len()) {
            Ok(size) => size,
            Err(e) => {
                return Err(e);
            },
        };
        let ghost s0 = self@;
        let ghost k = head_count(s0.rcv_queue);
        let recover: bool = self.rcv_queue.len() >= self.rcv_wnd as usize;
        proof {
            lemma_head_count(s0.rcv_queue);
            lemma_take_keeps_wf(s0, k);
        }
        take_message(&mut self.rcv_queue, buf, Ghost(k));
        proof {
            lemma_slide_keeps_wf(self@);
        }
        slide_segments(&mut self.rcv_buf, &mut self.rcv_queue, &mut self.rcv_nxt, self.rcv_wnd);
        if self.rcv_queue.len() < self.rcv_wnd as usize && recover {
            self.probe = self.probe | ASK_TELL;
        }
        Ok(size)
    }
}

} // verus!
