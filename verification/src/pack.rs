//! Packing encoded segments into datagrams of at most one MTU.

use vstd::prelude::*;
use bytes::BytesMut;
use crate::scratch::{buf_bytes, buf_clear, buf_extend, buf_len, buf_to_vec};
use crate::state::spec_mtu_max;

verus! {

/// The datagrams closed so far, and the one that is being filled.
pub ghost struct Packing {
    pub closed: Seq<Seq<u8>>,
    pub open: Seq<u8>,
}

/// Adds one encoded segment: where it would carry the open datagram beyond
/// `mtu`, that datagram is closed first and the segment opens the next one.
pub open spec fn pack_step(acc: Packing, seg: Seq<u8>, mtu: int) -> Packing {
    if acc.open.len() + seg.len() > mtu && acc.open.len() > 0 {
        Packing { closed: acc.closed.push(acc.open), open: seg }
    } else {
        Packing { closed: acc.closed, open: acc.open + seg }
    }
}

/// The packing reached after the segments of `segs`, taken in order.
pub open spec fn pack_fold(segs: Seq<Seq<u8>>, mtu: int) -> Packing
    decreases segs.len(),
{
    if segs.len() == 0 {
        Packing { closed: Seq::empty(), open: Seq::empty() }
    } else {
        pack_step(pack_fold(segs.drop_last(), mtu), segs.last(), mtu)
    }
}

/// The datagrams that carry `segs`: each segment goes into the current
/// datagram while it fits, a datagram is never empty, and a segment is never
/// split.
pub open spec fn pack(segs: Seq<Seq<u8>>, mtu: int) -> Seq<Seq<u8>> {
    let acc = pack_fold(segs, mtu);
    if acc.open.len() > 0 {
        acc.closed.push(acc.open)
    } else {
        acc.closed
    }
}

/// The byte strings of `parts`, one after the other.
pub open spec fn concat(parts: Seq<Seq<u8>>) -> Seq<u8>
    decreases parts.len(),
{
    if parts.len() == 0 {
        Seq::empty()
    } else {
        concat(parts.drop_last()) + parts.last()
    }
}

/// The byte strings that the vectors of `out` hold.
pub open spec fn datagrams(out: Seq<Vec<u8>>) -> Seq<Seq<u8>> {
    Seq::new(out.len(), |i: int| out[i]@)
}

/// The packing that the datagrams handed out and the scratch buffer stand
/// for.
pub open spec fn packing_of(out: Seq<Vec<u8>>, buffer: BytesMut) -> Packing {
    Packing { closed: datagrams(out), open: buf_bytes(buffer) }
}

/// Packing one more segment is one more step.
pub proof fn lemma_pack_fold_push(segs: Seq<Seq<u8>>, seg: Seq<u8>, mtu: int)
    ensures
        pack_fold(segs.push(seg), mtu) == pack_step(pack_fold(segs, mtu), seg, mtu),
{
    assert(segs.push(seg).drop_last() =~= segs);
}

/// Packing loses no byte and keeps the order: the datagrams, one after the
/// other, are the segments, one after the other.
pub proof fn lemma_pack_keeps_bytes(segs: Seq<Seq<u8>>, mtu: int)
    ensures
        concat(pack(segs, mtu)) == concat(segs),
        concat(pack_fold(segs, mtu).closed) + pack_fold(segs, mtu).open == concat(segs),
    decreases segs.len(),
{
    let acc = pack_fold(segs, mtu);
    if segs.len() == 0 {
        assert(concat(acc.closed) + acc.open =~= concat(segs));
    } else {
        let before = pack_fold(segs.drop_last(), mtu);
        lemma_pack_keeps_bytes(segs.drop_last(), mtu);
        if before.open.len() + segs.last().len() > mtu && before.open.len() > 0 {
            assert(acc.closed.drop_last() =~= before.closed);
            assert(concat(acc.closed) == concat(before.closed) + before.open);
        } else {
            assert(concat(acc.closed) + acc.open =~= (concat(before.closed) + before.open)
                + segs.last());
        }
    }
    if acc.open.len() > 0 {
        assert(acc.closed.push(acc.open).drop_last() =~= acc.closed);
    } else {
        assert(concat(acc.closed) + acc.open =~= concat(acc.closed));
    }
}

/// No datagram is empty, and where no segment is longer than `mtu`, no
/// datagram is.
pub proof fn lemma_pack_within_mtu(segs: Seq<Seq<u8>>, mtu: int)
    requires
        0 <= mtu,
    ensures
        forall|i: int| 0 <= i < pack(segs, mtu).len() ==> (#[trigger] pack(segs, mtu)[i]).len() > 0,
        (forall|i: int| 0 <= i < segs.len() ==> (#[trigger] segs[i]).len() <= mtu) ==> forall|
            i: int,
        | 0 <= i < pack(segs, mtu).len() ==> (#[trigger] pack(segs, mtu)[i]).len() <= mtu,
{
    lemma_pack_fold_within_mtu(segs, mtu);
}

proof fn lemma_pack_fold_within_mtu(segs: Seq<Seq<u8>>, mtu: int)
    requires
        0 <= mtu,
    ensures
        forall|i: int|
            0 <= i < pack_fold(segs, mtu).closed.len() ==> (#[trigger] pack_fold(
                segs,
                mtu,
            ).closed[i]).len() > 0,
        (forall|i: int| 0 <= i < segs.len() ==> (#[trigger] segs[i]).len() <= mtu) ==> {
            &&& pack_fold(segs, mtu).open.len() <= mtu
            &&& forall|i: int|
                0 <= i < pack_fold(segs, mtu).closed.len() ==> (#[trigger] pack_fold(
                    segs,
                    mtu,
                ).closed[i]).len() <= mtu
        },
    decreases segs.len(),
{
    if segs.len() > 0 {
        let front = segs.drop_last();
        let before = pack_fold(front, mtu);
        let after = pack_fold(segs, mtu);
        lemma_pack_fold_within_mtu(front, mtu);
        assert(segs.last() == segs[segs.len() - 1]);
        assert forall|i: int| 0 <= i < after.closed.len() implies (#[trigger] after.closed[i]).len()
            > 0 by {
            if i < before.closed.len() {
                assert(after.closed[i] == before.closed[i]);
            }
        }
        if forall|i: int| 0 <= i < segs.len() ==> (#[trigger] segs[i]).len() <= mtu {
            assert forall|i: int| 0 <= i < front.len() implies (#[trigger] front[i]).len()
                <= mtu by {
                assert(front[i] == segs[i]);
            }
            assert forall|i: int| 0 <= i < after.closed.len() implies (
            #[trigger] after.closed[i]).len() <= mtu by {
                if i < before.closed.len() {
                    assert(after.closed[i] == before.closed[i]);
                }
            }
        }
    }
}

/// Appends the segment `head + body` to the packing that `out` and `buffer`
/// hold: where it would carry the scratch buffer beyond `mtu`, the buffer
/// is handed out as a datagram first.
pub(crate) fn pack_segment(
    buffer: &mut BytesMut,
    out: &mut Vec<Vec<u8>>,
    mtu: usize,
    head: &[u8],
    body: &[u8],
)
    requires
        mtu <= spec_mtu_max(),
        head@.len() + body@.len() <= spec_mtu_max(),
        buf_bytes(*old(buffer)).len() <= spec_mtu_max(),
    ensures
        packing_of(final(out)@, *final(buffer)) == pack_step(
            packing_of(old(out)@, *old(buffer)),
            head@ + body@,
            mtu as int,
        ),
        buf_bytes(*final(buffer)).len() <= spec_mtu_max(),
{
    let held: usize = buf_len(buffer);
    let need: usize = head.len() + body.len();
    if held + need > mtu && held > 0 {
        let datagram: Vec<u8> = buf_to_vec(buffer);
        out.push(datagram);
        buf_clear(buffer);
        assert(datagrams(out@) =~= datagrams(old(out)@).push(buf_bytes(*old(buffer))));
    } else {
        assert(datagrams(out@) =~= datagrams(old(out)@));
    }
    buf_extend(buffer, head);
    buf_extend(buffer, body);
    assert(buf_bytes(*buffer) =~= (if held + need > mtu && held > 0 {
        Seq::<u8>::empty()
    } else {
        buf_bytes(*old(buffer))
    }) + (head@ + body@));
    assert(Seq::<u8>::empty() + (head@ + body@) =~= head@ + body@);
}

/// Hands out what is left in the scratch buffer as the last datagram.
pub(crate) fn pack_finish(
    buffer: &mut BytesMut,
    out: &mut Vec<Vec<u8>>,
    Ghost(segs): Ghost<Seq<Seq<u8>>>,
    Ghost(mtu): Ghost<int>,
)
    requires
        packing_of(old(out)@, *old(buffer)) == pack_fold(segs, mtu),
    ensures
        datagrams(final(out)@) == pack(segs, mtu),
        buf_bytes(*final(buffer)).len() == 0,
{
    let held: usize = buf_len(buffer);
    if held > 0 {
        let datagram: Vec<u8> = buf_to_vec(buffer);
        out.push(datagram);
        buf_clear(buffer);
        assert(datagrams(out@) =~= datagrams(old(out)@).push(buf_bytes(*old(buffer))));
    } else {
        assert(datagrams(out@) =~= datagrams(old(out)@));
    }
}

} // verus!
