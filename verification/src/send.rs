//! Sending: the application's bytes become segments of the send queue.

use vstd::prelude::*;
use crate::segment::{Segment, SegmentView, fresh_segment, views};
use crate::state::{KCP, KcpError, KcpState, spec_payload_max};

verus! {

/// The number of fragments that `n` bytes make where a fragment holds up to
/// `mss` bytes: one at least, else `n / mss` rounded up.
pub open spec fn fragment_count(n: int, mss: int) -> int {
    if n <= mss {
        1
    } else if n % mss == 0 {
        n / mss
    } else {
        n / mss + 1
    }
}

/// The number of bytes that go into the last segment of the send queue in
/// stream mode: as many of the `n` new bytes as it has room for. Nothing
/// goes there in message mode or where the queue is empty.
pub open spec fn coalesced(s: KcpState, n: int) -> int {
    if s.stream && s.snd_queue.len() > 0 && s.snd_queue.last().data.len() < s.mss {
        let room = s.mss - s.snd_queue.last().data.len();
        if n < room {
            n
        } else {
            room
        }
    } else {
        0
    }
}

/// The send queue after the first `take` bytes of `data` were appended to
/// its last segment, which thereby ends a message.
pub open spec fn extend_last(q: Seq<SegmentView>, data: Seq<u8>, take: int) -> Seq<SegmentView> {
    if take > 0 {
        q.update(
            q.len() - 1,
            SegmentView { frg: 0, data: q.last().data + data.subrange(0, take), ..q.last() },
        )
    } else {
        q
    }
}

/// The fragment index of the `i`-th of `count` fragments: in message mode
/// the indices count down to zero, in stream mode each is zero.
pub open spec fn fragment_index(stream: bool, count: int, i: int) -> u8 {
    if stream {
        0
    } else {
        (count - 1 - i) as u8
    }
}

/// The `i`-th fragment of `rest`.
pub open spec fn fragment(rest: Seq<u8>, mss: int, stream: bool, count: int, i: int)
    -> SegmentView {
    let end = if (i + 1) * mss < rest.len() {
        (i + 1) * mss
    } else {
        rest.len() as int
    };
    fresh_segment(fragment_index(stream, count, i), rest.subrange(i * mss, end))
}

/// The first `k` fragments of `rest`.
pub open spec fn fragments(rest: Seq<u8>, mss: int, stream: bool, count: int, k: int) -> Seq<
    SegmentView,
> {
    Seq::new(k as nat, |i: int| fragment(rest, mss, stream, count, i))
}

/// What `send` returns for `data`: `NoData` for no bytes; `DataTooLong`
/// where what is left after filling the last segment needs more than 255
/// fragments; 1 where all of it went into the last segment; else the
/// number of bytes.
pub open spec fn send_result(s: KcpState, data: Seq<u8>) -> Result<usize, KcpError> {
    let take = coalesced(s, data.len() as int);
    let left = data.len() - take;
    if data.len() == 0 {
        Err(KcpError::NoData)
    } else if take > 0 && left == 0 {
        Ok(1)
    } else if fragment_count(left, s.mss as int) > 255 {
        Err(KcpError::DataTooLong)
    } else {
        Ok(data.len() as usize)
    }
}

/// The block after `data` was handed to `send`. In stream mode the last
/// segment of the send queue is filled up first, and stays so even where
/// the rest is then refused as too long. What is left is cut into
/// fragments of `mss` bytes, the last one shorter, which join the queue.
pub open spec fn send_state(s: KcpState, data: Seq<u8>) -> KcpState {
    let take = coalesced(s, data.len() as int);
    let rest = data.subrange(take, data.len() as int);
    let count = fragment_count(rest.len() as int, s.mss as int);
    let filled = extend_last(s.snd_queue, data, take);
    if data.len() == 0 {
        s
    } else if rest.len() == 0 || count > 255 {
        KcpState { snd_queue: filled, ..s }
    } else {
        KcpState {
            snd_queue: filled + fragments(rest, s.mss as int, s.stream, count, count),
            ..s
        }
    }
}

/// The fragments cover the bytes: `count` fragments of `mss` bytes reach
/// the end of `n` bytes, and one fewer do not.
pub proof fn lemma_fragment_count(n: int, mss: int)
    requires
        n > 0,
        mss > 0,
    ensures
        fragment_count(n, mss) >= 1,
        (fragment_count(n, mss) - 1) * mss < n <= fragment_count(n, mss) * mss,
{
    let q = n / mss;
    let r = n % mss;
    assert(n == q * mss + r && 0 <= r < mss) by (nonlinear_arith)
        requires
            q == n / mss,
            r == n % mss,
            mss > 0,
    ;
    let count = fragment_count(n, mss);
    assert(n > mss ==> q >= 1) by (nonlinear_arith)
        requires
            n == q * mss + r,
            0 <= r < mss,
    ;
    assert((count - 1) * mss == count * mss - mss) by (nonlinear_arith);
    if n <= mss {
        assert(count * mss == mss) by (nonlinear_arith)
            requires
                count == 1,
        ;
    } else if r == 0 {
        assert(count == q);
    } else {
        assert(count * mss == q * mss + mss) by (nonlinear_arith)
            requires
                count == q + 1,
        ;
    }
}

/// Sending keeps the block well formed and what held of it: the new
/// payloads are within the MSS.
pub proof fn lemma_send_keeps_wf(s: KcpState, data: Seq<u8>)
    requires
        s.wf(),
    ensures
        send_state(s, data).wf(),
        s.keeps(send_state(s, data)),
        s.advances(send_state(s, data)),
        send_state(s, data).delivered() == s.delivered(),
{
    let take = coalesced(s, data.len() as int);
    let rest = data.subrange(take, data.len() as int);
    let mss = s.mss as int;
    let count = fragment_count(rest.len() as int, mss);
    let filled = extend_last(s.snd_queue, data, take);
    let t = send_state(s, data);
    assert forall|i: int| 0 <= i < filled.len() implies (#[trigger] filled[i]).data.len()
        <= spec_payload_max() && (s.payloads_fit_mss() ==> filled[i].data.len() <= mss) by {
        if take > 0 && i == filled.len() - 1 {
            assert(s.snd_queue.last() == s.snd_queue[i]);
        } else {
            assert(filled[i] == s.snd_queue[i]);
        }
    }
    if data.len() > 0 && rest.len() > 0 && count <= 255 {
        lemma_fragment_count(rest.len() as int, mss);
        assert forall|i: int| 0 <= i < t.snd_queue.len() implies (
        #[trigger] t.snd_queue[i]).data.len() <= spec_payload_max() && (s.payloads_fit_mss()
            ==> t.snd_queue[i].data.len() <= mss) by {
            if i < filled.len() {
                assert(t.snd_queue[i] == filled[i]);
            } else {
                let j = i - filled.len();
                assert(t.snd_queue[i] == fragment(rest, mss, s.stream, count, j));
                assert(j * mss + mss == (j + 1) * mss) by (nonlinear_arith);
                assert(0 <= j * mss) by (nonlinear_arith)
                    requires
                        0 <= j,
                        0 <= mss,
                ;
                assert(j * mss < rest.len()) by (nonlinear_arith)
                    requires
                        0 <= j <= count - 1,
                        (count - 1) * mss < rest.len(),
                        mss > 0,
                ;
            }
        }
    }
}

/// Cuts `buf[from..]` into `count` fragments of up to `mss` bytes and
/// appends them to `queue`.
fn push_fragments(
    queue: &mut std::collections::VecDeque<Segment>,
    buf: &[u8],
    from: usize,
    mss: usize,
    stream: bool,
    count: usize,
)
    requires
        from < buf@.len(),
        mss > 0,
        count == fragment_count(buf@.len() - from, mss as int),
        count <= 255,
    ensures
        views(final(queue)@) == views(old(queue)@) + fragments(
            buf@.subrange(from as int, buf@.len() as int),
            mss as int,
            stream,
            count as int,
            count as int,
        ),
{
    let ghost before = views(queue@);
    let ghost rest = buf@.subrange(from as int, buf@.len() as int);
    let n: usize = buf.len();
    let mut at: usize = from;
    let mut i: usize = 0;
    proof {
        lemma_fragment_count(rest.len() as int, mss as int);
        assert(views(queue@) =~= before + fragments(rest, mss as int, stream, count as int, 0));
        assert(0 * mss == 0) by (nonlinear_arith);
    }
    while i < count
        invariant
            n == buf@.len(),
            from < n,
            mss > 0,
            count <= 255,
            rest == buf@.subrange(from as int, n as int),
            (count - 1) * mss < rest.len() <= count * mss,
            0 <= i <= count,
            at == (if i * mss < rest.len() {
                from + i * mss
            } else {
                n as int
            }),
            views(queue@) == before + fragments(rest, mss as int, stream, count as int, i as int),
        decreases count - i,
    {
        proof {
            assert(i * mss <= (count - 1) * mss) by (nonlinear_arith)
                requires
                    i <= count - 1,
                    mss > 0,
            ;
            assert((i + 1) * mss == i * mss + mss) by (nonlinear_arith);
        }
        let left: usize = n - at;
        let size: usize = if mss < left {
            mss
        } else {
            left
        };
        let part: &[u8] = &buf[at..at + size];
        let data: Vec<u8> = vstd::slice::slice_to_vec(part);
        let frg: u8 = if stream {
            0
        } else {
            (count - i - 1) as u8
        };
        let ghost held = queue@;
        proof {
            assert(fragments(rest, mss as int, stream, count as int, i as int).len() == i);
            assert(views(held).len() == before.len() + i);
        }
        let seg = Segment::fresh(frg, data);
        queue.push_back(seg);
        proof {
            let f = fragment(rest, mss as int, stream, count as int, i as int);
            assert(f.data =~= buf@.subrange(at as int, at + size));
            assert(views(queue@) =~= before + fragments(
                rest,
                mss as int,
                stream,
                count as int,
                i + 1,
            )) by {
                assert forall|j: int| 0 <= j < before.len() + i + 1 implies views(queue@)[j] == (
                before + fragments(rest, mss as int, stream, count as int, i + 1))[j] by {
                    if j < before.len() + i {
                        assert(views(queue@)[j] == views(held)[j]);
                    }
                }
            }
        }
        at = at + size;
        i += 1;
    }
}

impl KCP {
    /// Fills the last segment of the send queue with the first bytes of
    /// `buf`, as far as it has room, and returns how many it took.
    fn coalesce(&mut self, buf: &[u8]) -> (take: usize)
        requires
            old(self)@.wf(),
            buf@.len() > 0,
        ensures
            take == coalesced(old(self)@, buf@.len() as int),
            final(self)@ == (KcpState {
                snd_queue: extend_last(old(self)@.snd_queue, buf@, take as int),
                ..old(self)@
            }),
            final(self).scratch() == old(self).scratch(),
    {
        if !self.stream || self.snd_queue.len() == 0 {
            assert(self@.snd_queue =~= extend_last(old(self)@.snd_queue, buf@, 0));
            return 0;
        }
        let ghost q = views(self.snd_queue@);
        let ghost waiting = self.snd_queue@;
        proof {
            assert(q.last() == waiting[waiting.len() - 1]@);
        }
        let mut take: usize = 0;
        let last = self.snd_queue.pop_back();
        match last {
            Some(mut seg) => {
                let held: usize = seg.data.len();
                if held < self.mss {
                    let room: usize = self.mss - held;
                    take = if buf.len() < room {
                        buf.len()
                    } else {
                        room
                    };
                    let part: &[u8] = &buf[0..take];
                    seg.data.extend_from_slice(part);
                    seg.frg = 0;
                    proof {
                        assert(seg.data@ =~= q.last().data + buf@.subrange(0, take as int));
                    }
                }
                self.snd_queue.push_back(seg);
            },
            None => {},
        }
        proof {
            assert(views(self.snd_queue@) =~= extend_last(q, buf@, take as int));
        }
        take
    }

    /// Takes a message, or in stream mode a run of bytes, from the
    /// application and queues it for sending; a flush gives the segments
    /// their numbers, as long as `numbers_left` says that there are any.
    /// Returns the number of bytes taken, or 1 where all of them went into
    /// the last queued segment.
    /// Fails with `NoData` for no bytes, and with `DataTooLong` where more
    /// than 255 fragments would be needed.
    pub fn send(&mut self, buf: &[u8]) -> (r: Result<usize, KcpError>)
        requires
            old(self).wf(),
        ensures
            final(self).wf(),
            final(self)@ == send_state(old(self)@, buf@),
            r == send_result(old(self)@, buf@),
            old(self)@.keeps(final(self)@),
            old(self)@.advances(final(self)@),
    {
        proof {
            lemma_send_keeps_wf(self@, buf@);
        }
        let n: usize = buf.len();
        if n == 0 {
            return Err(KcpError::NoData);
        }
        let take: usize = self.coalesce(buf);
        let left: usize = n - take;
        proof {
            assert(buf@.subrange(take as int, n as int).len() == left);
        }
        if left == 0 {
            return Ok(1);
        }
        let mss: usize = self.mss;
        let whole: usize = left / mss;
        if whole > 255 {
            proof {
                let rem: int = left as int % mss as int;
                assert(left == whole * mss + rem && 0 <= rem) by (nonlinear_arith)
                    requires
                        whole == left as int / mss as int,
                        rem == left as int % mss as int,
                        mss > 0,
                ;
                assert(whole * mss > mss) by (nonlinear_arith)
                    requires
                        whole > 255,
                        mss > 0,
                ;
            }
            return Err(KcpError::DataTooLong);
        }
        let count: usize = if left <= mss {
            1
        } else if left % mss == 0 {
            whole
        } else {
            whole + 1
        };
        if count > 255 {
            return Err(KcpError::DataTooLong);
        }
        push_fragments(&mut self.snd_queue, buf, take, mss, self.stream, count);
        Ok(n)
    }
}

} // verus!
