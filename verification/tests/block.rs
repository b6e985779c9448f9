use kcp::wire::{decode_header, encode_header, Header, CMD_ACK, CMD_PUSH, CMD_WASK, CMD_WINS};
use kcp::{KcpError, KCP};

const CONV: u32 = 0x11223344;

fn segment(cmd: u8, frg: u8, wnd: u16, ts: u32, sn: u32, una: u32, data: &[u8]) -> Vec<u8> {
    let h = Header { conv: CONV, cmd, frg, wnd, ts, sn, una, len: data.len() as u32 };
    let mut out = encode_header(&h).to_vec();
    out.extend_from_slice(data);
    out
}

fn push(sn: u32, frg: u8, data: &[u8]) -> Vec<u8> {
    segment(CMD_PUSH, frg, 32, 0, sn, 0, data)
}

fn ack(sn: u32, ts: u32, una: u32) -> Vec<u8> {
    segment(CMD_ACK, 0, 32, ts, sn, una, &[])
}

fn split(datagram: &[u8]) -> Vec<(Header, Vec<u8>)> {
    let mut out = Vec::new();
    let mut at = 0;
    while datagram.len() - at >= 24 {
        let h = decode_header(datagram, at);
        let end = at + 24 + h.len as usize;
        out.push((h, datagram[at + 24..end].to_vec()));
        at = end;
    }
    assert_eq!(at, datagram.len());
    out
}

fn all_segments(datagrams: &[Vec<u8>]) -> Vec<(Header, Vec<u8>)> {
    let mut out = Vec::new();
    for d in datagrams {
        out.extend(split(d));
    }
    out
}

fn fast_block() -> KCP {
    let mut kcp = KCP::new(CONV);
    kcp.nodelay(1, 10, 2, true);
    kcp
}

#[test]
fn new_block_has_the_defaults() {
    let kcp = KCP::new(7);
    assert_eq!(7, kcp.conv());
    assert_eq!(1400, kcp.mtu());
    assert_eq!(1376, kcp.mss());
    assert_eq!(0, kcp.snd_una());
    assert_eq!(0, kcp.snd_nxt());
    assert_eq!(0, kcp.rcv_nxt());
    assert_eq!(0, kcp.cwnd());
    assert_eq!(2, kcp.ssthresh());
    assert_eq!(200, kcp.rx_rto());
    assert_eq!(100, kcp.rx_minrto());
    assert_eq!(100, kcp.interval());
    assert_eq!(32, kcp.rmt_wnd());
    assert_eq!(0, kcp.waitsnd());
    assert_eq!(0, kcp.check(12345));
}

#[test]
fn flush_before_the_first_update_does_nothing() {
    let mut kcp = fast_block();
    assert_eq!(Ok(3), kcp.send(&[1, 2, 3]));
    assert!(kcp.flush().is_empty());
    assert_eq!(1, kcp.snd_queue_len());
    assert_eq!(0, kcp.snd_nxt());
    assert_eq!(0, kcp.cwnd());
}

#[test]
fn send_then_wait_for_the_acknowledgement() {
    let mut kcp = KCP::new(CONV);
    assert_eq!(Ok(3), kcp.send(&[0x01, 0x02, 0x03]));
    assert_eq!(1, kcp.waitsnd());
    let mut now = 0u32;
    for _ in 0..50 {
        kcp.update(now);
        assert_eq!(1, kcp.waitsnd());
        now += 10;
    }
    assert_eq!(1, kcp.snd_nxt());
    assert_eq!(vec![0], kcp.snd_buf_sns());
    let sn = kcp.snd_nxt() - 1;
    assert_eq!(Ok(24), kcp.input(&ack(sn, 0, 0)));
    assert_eq!(0, kcp.waitsnd());
    assert_eq!(1, kcp.snd_una());
    for _ in 0..50 {
        assert!(kcp.update(now).is_empty());
        assert_eq!(0, kcp.waitsnd());
        now += 10;
    }
}

#[test]
fn first_flush_opens_the_window_and_the_second_sends() {
    let mut kcp = KCP::new(CONV);
    kcp.send(&[9, 8, 7]).unwrap();
    // congestion control is on and the window is still shut
    let out = kcp.update(1000);
    assert!(out.is_empty());
    assert_eq!(1, kcp.cwnd());
    let out = kcp.update(1100);
    assert_eq!(1, out.len());
    let segs = split(&out[0]);
    assert_eq!(1, segs.len());
    let (h, data) = &segs[0];
    assert_eq!(
        Header { conv: CONV, cmd: CMD_PUSH, frg: 0, wnd: 32, ts: 1100, sn: 0, una: 0, len: 3 },
        *h
    );
    assert_eq!(vec![9, 8, 7], *data);
    assert_eq!(
        vec![
            0x44, 0x33, 0x22, 0x11, 81, 0, 32, 0, 0x4c, 0x04, 0, 0, 0, 0, 0, 0, 0, 0, 0, 0, 3, 0,
            0, 0, 9, 8, 7
        ],
        out[0]
    );
}

#[test]
fn out_of_order_segments_are_put_in_order() {
    let mut kcp = KCP::new(CONV);
    kcp.wndsize(0, 4);
    for sn in [0u32, 1, 3] {
        assert_eq!(Ok(25), kcp.input(&push(sn, 0, &[sn as u8])));
    }
    assert_eq!(vec![0, 1], kcp.rcv_queue_sns());
    assert_eq!(vec![3], kcp.rcv_buf_sns());
    assert_eq!(2, kcp.rcv_nxt());
    assert_eq!(Ok(25), kcp.input(&push(2, 0, &[2])));
    assert_eq!(vec![0, 1, 2, 3], kcp.rcv_queue_sns());
    assert!(kcp.rcv_buf_sns().is_empty());
    assert_eq!(4, kcp.rcv_nxt());

    // a duplicate changes nothing: the flush that follows acknowledges the
    // four segments once each
    assert_eq!(Ok(25), kcp.input(&push(2, 0, &[2])));
    assert_eq!(vec![0, 1, 2, 3], kcp.rcv_queue_sns());
    assert!(kcp.rcv_buf_sns().is_empty());
    assert_eq!(4, kcp.rcv_nxt());
    let acked: Vec<u32> = all_segments(&kcp.update(0)).iter().map(|(h, _)| h.sn).collect();
    assert_eq!(vec![0, 1, 3, 2], acked);

    // the queue is as long as the window: the next segment waits in the buffer
    assert_eq!(Ok(25), kcp.input(&push(4, 0, &[4])));
    assert_eq!(vec![0, 1, 2, 3], kcp.rcv_queue_sns());
    assert_eq!(vec![4], kcp.rcv_buf_sns());
    assert_eq!(4, kcp.rcv_nxt());
    // and the one after it is beyond the window
    assert_eq!(Ok(25), kcp.input(&push(8, 0, &[8])));
    assert_eq!(vec![4], kcp.rcv_buf_sns());

    let mut buf = [0u8; 8];
    assert_eq!(Ok(1), kcp.recv(&mut buf));
    assert_eq!(0, buf[0]);
    assert_eq!(vec![1, 2, 3, 4], kcp.rcv_queue_sns());
    assert!(kcp.rcv_buf_sns().is_empty());
    assert_eq!(5, kcp.rcv_nxt());
    for expected in 1u8..=4 {
        assert_eq!(Ok(1), kcp.recv(&mut buf));
        assert_eq!(expected, buf[0]);
    }
    assert_eq!(Err(KcpError::RecvQueueEmpty), kcp.recv(&mut buf));
}

#[test]
fn duplicate_in_the_buffer_is_dropped() {
    let mut kcp = KCP::new(CONV);
    kcp.input(&push(2, 0, &[1])).unwrap();
    kcp.input(&push(5, 0, &[2])).unwrap();
    kcp.input(&push(3, 0, &[3])).unwrap();
    assert_eq!(vec![2, 3, 5], kcp.rcv_buf_sns());
    kcp.input(&push(3, 0, &[4])).unwrap();
    kcp.input(&push(5, 0, &[4])).unwrap();
    kcp.input(&push(2, 0, &[4])).unwrap();
    assert_eq!(vec![2, 3, 5], kcp.rcv_buf_sns());
    assert!(kcp.rcv_queue_sns().is_empty());
    kcp.input(&push(1, 0, &[5])).unwrap();
    kcp.input(&push(0, 0, &[6])).unwrap();
    assert_eq!(vec![0, 1, 2, 3], kcp.rcv_queue_sns());
    assert_eq!(vec![5], kcp.rcv_buf_sns());
    let mut buf = [0u8; 4];
    let mut got = Vec::new();
    while let Ok(n) = kcp.recv(&mut buf) {
        got.extend_from_slice(&buf[..n]);
    }
    // the first copy of each segment is the one delivered
    assert_eq!(vec![6, 5, 1, 3], got);
}

fn ten_in_flight() -> KCP {
    let mut kcp = fast_block();
    for i in 0u8..10 {
        assert_eq!(Ok(1), kcp.send(&[i]));
    }
    let out = kcp.update(0);
    let segs = all_segments(&out);
    assert_eq!(10, segs.len());
    for (i, (h, data)) in segs.iter().enumerate() {
        assert_eq!(CMD_PUSH, h.cmd);
        assert_eq!(i as u32, h.sn);
        assert_eq!(vec![i as u8], *data);
    }
    assert_eq!((0..10).collect::<Vec<u32>>(), kcp.snd_buf_sns());
    kcp
}

#[test]
fn selective_acknowledgements_and_skips() {
    let mut kcp = ten_in_flight();
    for sn in [0u32, 1, 2, 5, 6] {
        assert_eq!(Ok(24), kcp.input(&ack(sn, 0, 0)));
    }
    assert_eq!(vec![3, 4, 7, 8, 9], kcp.snd_buf_sns());
    assert_eq!(3, kcp.snd_una());
    assert_eq!(10, kcp.snd_nxt());
    assert_eq!(5, kcp.waitsnd());
    let skips = kcp.snd_buf_fastacks();
    assert_eq!(vec![2, 2, 0, 0, 0], skips);
    assert!(skips[0] >= 2 && skips[1] >= 2);
}

#[test]
fn skips_are_counted_once_for_a_datagram() {
    let mut kcp = ten_in_flight();
    let mut datagram = Vec::new();
    for sn in [0u32, 1, 2, 6, 5] {
        datagram.extend_from_slice(&ack(sn, 0, 0));
    }
    assert_eq!(Ok(120), kcp.input(&datagram));
    assert_eq!(vec![3, 4, 7, 8, 9], kcp.snd_buf_sns());
    assert_eq!(vec![1, 1, 0, 0, 0], kcp.snd_buf_fastacks());
}

#[test]
fn cumulative_acknowledgement_drops_what_is_below() {
    let mut kcp = ten_in_flight();
    assert_eq!(Ok(24), kcp.input(&segment(CMD_WINS, 0, 32, 0, 0, 4, &[])));
    assert_eq!(vec![4, 5, 6, 7, 8, 9], kcp.snd_buf_sns());
    assert_eq!(4, kcp.snd_una());
    // an acknowledgement outside of what is in flight changes nothing
    assert_eq!(Ok(24), kcp.input(&ack(2, 0, 0)));
    assert_eq!(Ok(24), kcp.input(&ack(10, 0, 0)));
    assert_eq!(Ok(24), kcp.input(&ack(4_000_000, 0, 0)));
    assert_eq!(vec![4, 5, 6, 7, 8, 9], kcp.snd_buf_sns());
    assert_eq!(vec![0, 0, 0, 0, 0, 0], kcp.snd_buf_fastacks());
    assert_eq!(Ok(24), kcp.input(&segment(CMD_WINS, 0, 32, 0, 0, 100, &[])));
    assert!(kcp.snd_buf_sns().is_empty());
    assert_eq!(10, kcp.snd_una());
    assert_eq!(0, kcp.waitsnd());
}

#[test]
fn fast_retransmission_after_two_skips() {
    let mut kcp = ten_in_flight();
    for sn in [5u32, 6] {
        kcp.input(&ack(sn, 0, 0)).unwrap();
    }
    assert_eq!(vec![2, 2, 2, 2, 2, 0, 0, 0], kcp.snd_buf_fastacks());
    let out = kcp.update(10);
    let segs = all_segments(&out);
    let sns: Vec<u32> = segs.iter().map(|(h, _)| h.sn).collect();
    assert_eq!(vec![0, 1, 2, 3, 4], sns);
    for (h, _) in &segs {
        assert_eq!(10, h.ts);
    }
    assert_eq!(vec![0, 0, 0, 0, 0, 0, 0, 0], kcp.snd_buf_fastacks());
    // threshold: half of the span in flight, 0 to 9; window: threshold plus resend
    assert_eq!(5, kcp.ssthresh());
    assert_eq!(7, kcp.cwnd());
    assert_eq!(0, kcp.xmit());
}

#[test]
fn timeout_retransmission_backs_off() {
    let mut kcp = KCP::new(CONV);
    kcp.nodelay(0, 10, 0, true);
    kcp.send(&[1]).unwrap();
    // first transmission at 0: rto 200, slack 25
    assert_eq!(1, kcp.update(0).len());
    let mut resent = Vec::new();
    let mut now = 10u32;
    while now <= 3000 {
        let out = kcp.update(now);
        if !out.is_empty() {
            assert_eq!(1, out.len());
            let segs = split(&out[0]);
            assert_eq!(now, segs[0].0.ts);
            resent.push(now);
        }
        now += 5;
    }
    // due at 225, seen by the flush at 230; then 400, 600 and 800 ms later
    assert_eq!(vec![230, 630, 1230, 2030], resent);
    assert_eq!(4, kcp.xmit());
    assert_eq!(1, kcp.cwnd());
    assert_eq!(16, kcp.ssthresh());
}

#[test]
fn timeout_retransmission_in_nodelay_mode_backs_off_by_half() {
    let mut kcp = KCP::new(CONV);
    kcp.nodelay(1, 10, 0, true);
    kcp.send(&[1]).unwrap();
    assert_eq!(1, kcp.update(0).len());
    let mut resent = Vec::new();
    let mut now = 10u32;
    while now <= 2000 {
        if !kcp.update(now).is_empty() {
            resent.push(now);
        }
        now += 10;
    }
    // rto 200 at first and no slack, then 300, 400, 500, 600
    assert_eq!(vec![200, 500, 900, 1400, 2000], resent);
}

#[test]
fn round_trip_estimate() {
    let mut kcp = ten_in_flight();
    kcp.update(100);
    // first sample: 100 ms
    kcp.input(&ack(0, 0, 0)).unwrap();
    assert_eq!(100, kcp.rx_srtt());
    // rto = srtt + max(interval, 4 * rttval) = 100 + max(10, 200)
    assert_eq!(300, kcp.rx_rto());
    kcp.update(300);
    // second sample: 200 ms; rttval = (3 * 50 + 100) / 4 = 62, srtt = (700 + 200) / 8 = 112
    kcp.input(&ack(1, 100, 0)).unwrap();
    assert_eq!(112, kcp.rx_srtt());
    assert_eq!(112 + 248, kcp.rx_rto());
    // a time stamp from the future gives no sample
    kcp.input(&ack(2, 301, 0)).unwrap();
    assert_eq!(112, kcp.rx_srtt());
    assert_eq!(360, kcp.rx_rto());
    assert_eq!(vec![3, 4, 5, 6, 7, 8, 9], kcp.snd_buf_sns());
}

#[test]
fn timeout_stays_within_its_bounds() {
    let mut kcp = ten_in_flight();
    kcp.update(5);
    kcp.input(&ack(0, 5, 0)).unwrap();
    // a round trip of zero: the minimum of no-delay mode holds
    assert_eq!(0, kcp.rx_srtt());
    assert_eq!(30, kcp.rx_rto());
    kcp.update(2_000_000);
    kcp.input(&ack(1, 0, 0)).unwrap();
    assert_eq!(2_000_000, kcp.rx_srtt());
    assert_eq!(60000, kcp.rx_rto());
}

#[test]
fn congestion_window_grows() {
    let mut kcp = KCP::new(CONV);
    kcp.nodelay(0, 10, 0, false);
    for i in 0u8..40 {
        kcp.send(&[i]).unwrap();
    }
    kcp.update(0);
    assert_eq!(1, kcp.cwnd());
    assert_eq!(2, kcp.ssthresh());
    assert_eq!(1, all_segments(&kcp.update(10)).len());
    // slow start: one segment more
    kcp.input(&ack(0, 10, 1)).unwrap();
    assert_eq!(2, kcp.cwnd());
    assert_eq!(2, all_segments(&kcp.update(20)).len());
    // at the threshold: incr = 2752 + 1376 * 1376 / 2752 + 86 = 3526, less than (2 + 1) * 1376
    kcp.input(&ack(1, 20, 2)).unwrap();
    assert_eq!(2, kcp.cwnd());
    // incr = 3526 + 1376 * 1376 / 3526 + 86 = 4148, at least 3 * 1376 = 4128
    kcp.input(&ack(2, 20, 3)).unwrap();
    assert_eq!(3, kcp.cwnd());
    // no progress of una, no growth
    kcp.input(&ack(2, 20, 3)).unwrap();
    assert_eq!(3, kcp.cwnd());
}

#[test]
fn congestion_window_stays_below_the_peers_window() {
    let mut kcp = KCP::new(CONV);
    kcp.nodelay(0, 10, 0, false);
    for i in 0u8..10 {
        kcp.send(&[i]).unwrap();
    }
    kcp.update(0);
    kcp.update(10);
    // the peer advertises one segment: the window does not grow beyond it
    kcp.input(&segment(CMD_ACK, 0, 1, 10, 0, 1, &[])).unwrap();
    assert_eq!(1, kcp.rmt_wnd());
    assert_eq!(1, kcp.cwnd());
}

#[test]
fn window_probe_schedule() {
    let mut kcp = fast_block();
    kcp.update(0);
    // the peer advertises no window
    assert_eq!(Ok(24), kcp.input(&segment(CMD_WINS, 0, 0, 0, 0, 0, &[])));
    assert_eq!(0, kcp.rmt_wnd());
    kcp.send(&[1]).unwrap();
    let mut asked_at = Vec::new();
    let mut now = 10u32;
    while now <= 40_000 {
        let out = kcp.update(now);
        for (h, data) in all_segments(&out) {
            assert_eq!(CMD_WASK, h.cmd);
            assert!(data.is_empty());
            asked_at.push(now);
        }
        if now == 10 {
            assert_eq!(7000, kcp.probe_wait());
        }
        if now == 7010 {
            assert_eq!(10500, kcp.probe_wait());
        }
        if now == 17510 {
            assert_eq!(15750, kcp.probe_wait());
        }
        now += 10;
    }
    // 7000 ms after the first flush that saw the closed window, then after
    // 10500 ms more, then after 15750 ms more
    assert_eq!(vec![7010, 17510, 33260], asked_at);
    // nothing was sent into the closed window
    assert_eq!(1, kcp.snd_queue_len());
    // the window opens again: the wait is forgotten
    kcp.input(&segment(CMD_WINS, 0, 8, 0, 0, 0, &[])).unwrap();
    let out = kcp.update(now);
    assert_eq!(0, kcp.probe_wait());
    let segs = all_segments(&out);
    assert_eq!(1, segs.len());
    assert_eq!(CMD_PUSH, segs[0].0.cmd);
}

#[test]
fn probe_wait_is_capped() {
    let mut kcp = fast_block();
    kcp.update(0);
    kcp.input(&segment(CMD_WINS, 0, 0, 0, 0, 0, &[])).unwrap();
    let mut now = 0u32;
    let mut waits = Vec::new();
    for _ in 0..12 {
        now += 130_000;
        kcp.update(now);
        waits.push(kcp.probe_wait());
    }
    assert_eq!(
        vec![7000, 10500, 15750, 23625, 35437, 53155, 79732, 119598, 120000, 120000, 120000, 120000],
        waits
    );
}

#[test]
fn window_question_is_answered() {
    let mut kcp = KCP::new(CONV);
    kcp.wndsize(0, 5);
    kcp.update(0);
    kcp.input(&push(0, 0, &[1, 2])).unwrap();
    kcp.input(&segment(CMD_WASK, 0, 32, 0, 0, 0, &[])).unwrap();
    let out = kcp.update(100);
    assert_eq!(1, out.len());
    let segs = split(&out[0]);
    assert_eq!(2, segs.len());
    // the acknowledgement first, then the announcement
    assert_eq!(
        Header { conv: CONV, cmd: CMD_ACK, frg: 0, wnd: 4, ts: 0, sn: 0, una: 1, len: 0 },
        segs[0].0
    );
    assert_eq!(CMD_WINS, segs[1].0.cmd);
    assert_eq!(4, segs[1].0.wnd);
    assert_eq!(1, segs[1].0.una);
    // asked once, answered once
    assert!(kcp.update(200).is_empty());
}

#[test]
fn window_recovery_is_announced() {
    let mut kcp = KCP::new(CONV);
    kcp.wndsize(0, 2);
    kcp.update(0);
    kcp.input(&push(0, 0, &[1])).unwrap();
    kcp.input(&push(1, 0, &[2])).unwrap();
    let out = kcp.update(100);
    let segs = all_segments(&out);
    assert_eq!(2, segs.len());
    assert_eq!(0, segs[0].0.wnd);
    let mut buf = [0u8; 4];
    assert_eq!(Ok(1), kcp.recv(&mut buf));
    let segs = all_segments(&kcp.update(200));
    assert_eq!(1, segs.len());
    assert_eq!(CMD_WINS, segs[0].0.cmd);
    assert_eq!(1, segs[0].0.wnd);
    // the queue was not full before this one: nothing to announce
    assert_eq!(Ok(1), kcp.recv(&mut buf));
    assert!(kcp.update(300).is_empty());
}

#[test]
fn acknowledgements_go_out_first_and_once() {
    let mut kcp = fast_block();
    kcp.update(0);
    kcp.send(&[7]).unwrap();
    kcp.input(&segment(CMD_PUSH, 0, 32, 111, 0, 0, &[1])).unwrap();
    kcp.input(&segment(CMD_PUSH, 0, 32, 222, 2, 0, &[2])).unwrap();
    // a duplicate that still waits in the window is acknowledged again
    kcp.input(&segment(CMD_PUSH, 0, 32, 333, 2, 0, &[2])).unwrap();
    // below the window and beyond it: passed over
    kcp.input(&segment(CMD_PUSH, 0, 32, 444, 0, 0, &[1])).unwrap();
    kcp.input(&segment(CMD_PUSH, 0, 32, 555, 33, 0, &[1])).unwrap();
    let out = kcp.update(10);
    assert_eq!(1, out.len());
    let segs = split(&out[0]);
    let seen: Vec<(u8, u32, u32)> = segs.iter().map(|(h, _)| (h.cmd, h.sn, h.ts)).collect();
    assert_eq!(
        vec![(CMD_ACK, 0, 111), (CMD_ACK, 2, 222), (CMD_ACK, 2, 333), (CMD_PUSH, 0, 10)],
        seen
    );
    for (h, _) in &segs {
        assert_eq!(1, h.una);
        assert_eq!(31, h.wnd);
    }
    assert!(kcp.update(20).is_empty());
}

#[test]
fn datagrams_are_packed_up_to_the_mtu() {
    let mut kcp = fast_block();
    assert!(kcp.setmtu(100));
    assert_eq!(76, kcp.mss());
    for i in 0u8..5 {
        assert_eq!(Ok(30), kcp.send(&[i; 30]));
    }
    let out = kcp.update(0);
    // 54 bytes a segment: one to a datagram of at most 100 bytes
    assert_eq!(5, out.len());
    for d in &out {
        assert_eq!(54, d.len());
    }
    let mut kcp = fast_block();
    assert!(kcp.setmtu(110));
    for i in 0u8..5 {
        kcp.send(&[i; 30]).unwrap();
    }
    let out = kcp.update(0);
    // two to a datagram of at most 110 bytes
    let lens: Vec<usize> = out.iter().map(|d| d.len()).collect();
    assert_eq!(vec![108, 108, 54], lens);
    let segs = all_segments(&out);
    for (i, (h, data)) in segs.iter().enumerate() {
        assert_eq!(i as u32, h.sn);
        assert_eq!(vec![i as u8; 30], *data);
    }
}

#[test]
fn a_payload_queued_before_the_mtu_shrank_goes_out_alone() {
    let mut kcp = fast_block();
    kcp.send(&[1u8; 200]).unwrap();
    kcp.send(&[2u8; 10]).unwrap();
    assert!(kcp.setmtu(50));
    kcp.send(&[3u8; 26]).unwrap();
    let out = kcp.update(0);
    let lens: Vec<usize> = out.iter().map(|d| d.len()).collect();
    assert_eq!(vec![224, 34, 50], lens);
}

#[test]
fn messages_are_cut_and_put_together() {
    let mut alice = fast_block();
    let mut bob = fast_block();
    let message: Vec<u8> = (0..3000u32).map(|i| (i % 251) as u8).collect();
    assert_eq!(Ok(3000), alice.send(&message));
    assert_eq!(3, alice.waitsnd());
    let out = alice.update(0);
    let segs = all_segments(&out);
    let seen: Vec<(u32, u8, usize)> =
        segs.iter().map(|(h, d)| (h.sn, h.frg, d.len())).collect();
    assert_eq!(vec![(0, 2, 1376), (1, 1, 1376), (2, 0, 248)], seen);
    let mut buf = vec![0u8; 4000];
    // the last fragment first: the message is not complete
    for d in out.iter().rev() {
        assert_eq!(Err(KcpError::RecvQueueEmpty), bob.peeksize());
        assert_eq!(Ok(d.len()), bob.input(d));
    }
    assert_eq!(Ok(3000), bob.peeksize());
    assert_eq!(Err(KcpError::ShortBuffer), bob.recv(&mut buf[..2999]));
    assert_eq!(vec![0, 1, 2], bob.rcv_queue_sns());
    assert_eq!(Ok(3000), bob.recv(&mut buf));
    assert_eq!(message, buf[..3000]);
    assert!(buf[3000..].iter().all(|b| *b == 0));
    assert_eq!(Err(KcpError::RecvQueueEmpty), bob.recv(&mut buf));
}

#[test]
fn an_incomplete_message_is_not_handed_over() {
    let mut kcp = KCP::new(CONV);
    kcp.input(&push(0, 2, &[1, 2])).unwrap();
    let mut buf = [0xeeu8; 16];
    assert_eq!(Err(KcpError::Incomplete), kcp.recv(&mut buf));
    assert_eq!(Err(KcpError::Incomplete), kcp.peeksize());
    kcp.input(&push(1, 1, &[3])).unwrap();
    assert_eq!(Err(KcpError::Incomplete), kcp.recv(&mut buf));
    assert_eq!([0xee; 16], buf);
    kcp.input(&push(2, 0, &[4, 5, 6])).unwrap();
    // the first message of the next batch follows in the queue
    kcp.input(&push(3, 0, &[7])).unwrap();
    assert_eq!(Ok(6), kcp.peeksize());
    assert_eq!(Err(KcpError::ShortBuffer), kcp.recv(&mut buf[..5]));
    assert_eq!([0xee; 16], buf);
    assert_eq!(Ok(6), kcp.recv(&mut buf[..6]));
    assert_eq!([1, 2, 3, 4, 5, 6, 0xee, 0xee], buf[..8]);
    assert_eq!(Ok(1), kcp.recv(&mut buf));
    assert_eq!(7, buf[0]);
}

#[test]
fn send_errors() {
    let mut kcp = KCP::new(CONV);
    assert_eq!(Err(KcpError::NoData), kcp.send(&[]));
    assert!(kcp.setmtu(50));
    // 255 fragments of 26 bytes are the most
    assert_eq!(Ok(255 * 26), kcp.send(&vec![1u8; 255 * 26]));
    assert_eq!(255, kcp.waitsnd());
    assert_eq!(Err(KcpError::DataTooLong), kcp.send(&vec![1u8; 255 * 26 + 1]));
    assert_eq!(255, kcp.waitsnd());
    assert_eq!(Ok(254 * 26 + 1), kcp.send(&vec![1u8; 254 * 26 + 1]));
    assert_eq!(510, kcp.waitsnd());
}

#[test]
fn input_errors() {
    let mut kcp = KCP::new(CONV);
    assert_eq!(Err(KcpError::InvalidData), kcp.input(&[]));
    assert_eq!(Err(KcpError::InvalidData), kcp.input(&[0u8; 23]));
    let mut other = push(0, 0, &[1]);
    other[0] ^= 1;
    assert_eq!(Err(KcpError::InvalidData), kcp.input(&other));
    assert_eq!(Err(KcpError::InvalidData), kcp.input(&segment(85, 0, 32, 0, 0, 0, &[])));
    assert_eq!(Err(KcpError::InvalidData), kcp.input(&segment(80, 0, 32, 0, 0, 0, &[])));
    let mut short = push(0, 0, &[1, 2, 3]);
    short.pop();
    assert_eq!(Err(KcpError::UnexpectedEof), kcp.input(&short));
    assert!(kcp.rcv_queue_sns().is_empty());
    // the length is looked at before the command
    let mut both = segment(99, 0, 32, 0, 0, 0, &[1, 2, 3]);
    both.pop();
    assert_eq!(Err(KcpError::UnexpectedEof), kcp.input(&both));
    // what stands before the error is taken in
    let mut datagram = push(0, 0, &[1]);
    datagram.extend_from_slice(&segment(0, 0, 7, 0, 0, 0, &[]));
    assert_eq!(Err(KcpError::InvalidData), kcp.input(&datagram));
    assert_eq!(vec![0], kcp.rcv_queue_sns());
    assert_eq!(32, kcp.rmt_wnd());
    // a header that is cut short at the end of a datagram fails the call;
    // the segment before it has been taken in
    for tail in [1usize, 12, 23] {
        let mut kcp = KCP::new(CONV);
        let mut datagram = push(0, 0, &[1]);
        datagram.extend_from_slice(&vec![0u8; tail]);
        assert_eq!(Err(KcpError::InvalidData), kcp.input(&datagram));
        assert_eq!(vec![0], kcp.rcv_queue_sns());
    }
    // it fails the call whatever the bytes are: here they begin a header
    // of this conversation
    let mut datagram = ack(0, 0, 0);
    datagram.extend_from_slice(&push(1, 0, &[1])[..23]);
    assert_eq!(Err(KcpError::InvalidData), kcp.input(&datagram));
    // a datagram that ends with its last segment is read to its end
    let mut datagram = push(1, 0, &[1]);
    datagram.extend_from_slice(&push(2, 0, &[]));
    assert_eq!(Ok(49), kcp.input(&datagram));
    assert_eq!(vec![0, 1, 2], kcp.rcv_queue_sns());
}

#[test]
fn payload_of_a_segment_outside_the_window_is_skipped() {
    let mut kcp = KCP::new(CONV);
    kcp.wndsize(0, 2);
    let mut datagram = push(5, 0, &[0xaa; 30]);
    datagram.extend_from_slice(&ack(0, 0, 0));
    datagram.extend_from_slice(&push(0, 0, &[1, 2, 3]));
    assert_eq!(Ok(54 + 24 + 27), kcp.input(&datagram));
    assert_eq!(vec![0], kcp.rcv_queue_sns());
    assert!(kcp.rcv_buf_sns().is_empty());
}

#[test]
fn settings() {
    let mut kcp = KCP::new(CONV);
    kcp.nodelay(1, 5, 2, true);
    assert_eq!(10, kcp.interval());
    assert_eq!(30, kcp.rx_minrto());
    kcp.nodelay(0, 6000, 0, false);
    assert_eq!(5000, kcp.interval());
    assert_eq!(100, kcp.rx_minrto());
    kcp.nodelay(1, 20, 2, true);
    assert_eq!(20, kcp.interval());
    assert_eq!(30, kcp.rx_minrto());
    // numbers below zero leave the settings as they are
    kcp.nodelay(-1, -1, -1, true);
    assert_eq!(20, kcp.interval());
    assert_eq!(30, kcp.rx_minrto());
    kcp.nodelay(0, 10, 0, false);
    assert_eq!(10, kcp.interval());
    assert_eq!(100, kcp.rx_minrto());
    kcp.nodelay(0, 5000, 0, false);
    assert_eq!(5000, kcp.interval());
}

#[test]
fn mtu_settings() {
    let mut kcp = KCP::new(CONV);
    assert!(!kcp.setmtu(0));
    assert!(!kcp.setmtu(23));
    assert!(!kcp.setmtu(49));
    assert_eq!(1400, kcp.mtu());
    assert_eq!(1376, kcp.mss());
    assert!(kcp.setmtu(50));
    assert_eq!(50, kcp.mtu());
    assert_eq!(26, kcp.mss());
    assert!(kcp.setmtu(9000));
    assert_eq!(9000, kcp.mtu());
    assert_eq!(8976, kcp.mss());
    assert_eq!(Ok(20000), kcp.send(&vec![3u8; 20000]));
    assert_eq!(3, kcp.waitsnd());
}

#[test]
fn window_settings() {
    let mut kcp = KCP::new(CONV);
    kcp.nodelay(0, 10, 0, true);
    kcp.wndsize(3, 0);
    for i in 0u8..5 {
        kcp.send(&[i]).unwrap();
    }
    assert_eq!(3, all_segments(&kcp.update(0)).len());
    assert_eq!(3, kcp.snd_nxt());
    kcp.wndsize(-1, -1);
    assert!(kcp.update(10).is_empty());
    kcp.wndsize(4, 6);
    let segs = all_segments(&kcp.update(20));
    assert_eq!(1, segs.len());
    assert_eq!(3, segs[0].0.sn);
    assert_eq!(6, segs[0].0.wnd);
    // the peer's window bounds what is in flight as well
    let mut kcp = fast_block();
    for i in 0u8..40 {
        kcp.send(&[i]).unwrap();
    }
    assert_eq!(32, all_segments(&kcp.update(0)).len());
    assert_eq!(40, kcp.waitsnd());
}

#[test]
fn stream_mode_fills_up_the_last_segment() {
    let mut kcp = fast_block();
    kcp.set_stream(true);
    assert!(kcp.setmtu(50));
    assert_eq!(Ok(10), kcp.send(&[1u8; 10]));
    assert_eq!(1, kcp.waitsnd());
    // all of it fits the last segment
    assert_eq!(Ok(1), kcp.send(&[2u8; 16]));
    assert_eq!(1, kcp.waitsnd());
    // nothing fits: a new segment
    assert_eq!(Ok(5), kcp.send(&[3u8; 5]));
    assert_eq!(2, kcp.waitsnd());
    // 21 fill the last segment, 26 make a second, 3 a third
    assert_eq!(Ok(50), kcp.send(&[4u8; 50]));
    assert_eq!(4, kcp.waitsnd());
    let segs = all_segments(&kcp.update(0));
    let seen: Vec<(u8, usize)> = segs.iter().map(|(h, d)| (h.frg, d.len())).collect();
    assert_eq!(vec![(0, 26), (0, 26), (0, 26), (0, 3)], seen);
    let mut bytes = Vec::new();
    for (_, d) in &segs {
        bytes.extend_from_slice(d);
    }
    let mut expected = vec![1u8; 10];
    expected.extend_from_slice(&[2u8; 16]);
    expected.extend_from_slice(&[3u8; 5]);
    expected.extend_from_slice(&[4u8; 50]);
    assert_eq!(expected, bytes);
}

#[test]
fn stream_mode_keeps_what_it_filled_when_the_rest_is_too_long() {
    let mut kcp = fast_block();
    kcp.set_stream(true);
    assert!(kcp.setmtu(50));
    kcp.send(&[1u8; 10]).unwrap();
    assert_eq!(Err(KcpError::DataTooLong), kcp.send(&vec![2u8; 16 + 255 * 26 + 1]));
    assert_eq!(1, kcp.waitsnd());
    let segs = all_segments(&kcp.update(0));
    assert_eq!(1, segs.len());
    assert_eq!(26, segs[0].1.len());
}

#[test]
fn message_mode_does_not_fill_up() {
    let mut kcp = fast_block();
    kcp.send(&[1u8; 10]).unwrap();
    kcp.send(&[2u8; 16]).unwrap();
    assert_eq!(2, kcp.waitsnd());
}

#[test]
fn check_tells_when_to_update() {
    let mut kcp = KCP::new(CONV);
    kcp.nodelay(0, 100, 0, true);
    assert_eq!(0, kcp.check(0));
    kcp.update(1000);
    // the next flush is at 1100
    assert_eq!(100, kcp.check(1000));
    assert_eq!(40, kcp.check(1060));
    assert_eq!(0, kcp.check(1100));
    assert_eq!(0, kcp.check(1150));
    // a clock that jumped by ten seconds or more, either way: flush at once
    assert_eq!(0, kcp.check(20_000));
    assert_eq!(0, kcp.check(11_100));
    assert_eq!(0, kcp.check(1100u32.wrapping_sub(10_000)));
    // a clock that is behind by less counts as early
    assert_eq!(100, kcp.check(0));
    assert_eq!(100, kcp.check(1100u32.wrapping_sub(9_999)));
    assert_eq!(0, kcp.check(11_099));
    kcp.send(&[1]).unwrap();
    kcp.update(1100);
    // sent at 1100, to be sent again at 1100 + 200 + 25; next flush at 1200
    assert_eq!(100, kcp.check(1100));
    kcp.update(1200);
    kcp.update(1300);
    assert_eq!(25, kcp.check(1300));
    assert_eq!(1, kcp.check(1324));
    assert_eq!(0, kcp.check(1325));
    assert_eq!(0, kcp.check(1326));
}

#[test]
fn update_keeps_to_the_interval() {
    let mut kcp = KCP::new(CONV);
    kcp.nodelay(0, 100, 0, true);
    kcp.update(0);
    kcp.send(&[1]).unwrap();
    // not due before 100
    assert!(kcp.update(50).is_empty());
    assert!(kcp.update(99).is_empty());
    assert_eq!(1, kcp.update(100).len());
    kcp.send(&[2]).unwrap();
    // late by more than an interval: the schedule starts from now
    assert_eq!(1, kcp.update(450).len());
    kcp.send(&[3]).unwrap();
    assert!(kcp.update(549).is_empty());
    assert_eq!(1, kcp.update(550).len());
    // the clock jumps: flush at once, and what is overdue goes out again
    kcp.send(&[4]).unwrap();
    let sns: Vec<u32> = all_segments(&kcp.update(100_000)).iter().map(|(h, _)| h.sn).collect();
    assert_eq!(vec![0, 1, 2, 3], sns);
    // one timeout of the first segment at 450, three more now
    assert_eq!(4, kcp.xmit());
}

#[test]
fn the_clock_may_wrap() {
    let mut kcp = KCP::new(CONV);
    kcp.nodelay(0, 100, 0, true);
    let start = u32::MAX - 150;
    kcp.update(start);
    kcp.send(&[1]).unwrap();
    assert_eq!(1, kcp.update(start.wrapping_add(100)).len());
    assert!(kcp.update(start.wrapping_add(199)).is_empty());
    // 200 + 25 ms after the first transmission, across the wrap
    assert!(kcp.update(start.wrapping_add(300)).is_empty());
    let out = kcp.update(start.wrapping_add(400));
    assert_eq!(1, out.len());
    assert_eq!(start.wrapping_add(400), split(&out[0])[0].0.ts);
    assert_eq!(249, start.wrapping_add(400));
}

#[test]
fn advertised_window_is_what_the_header_can_carry() {
    let mut kcp = KCP::new(CONV);
    kcp.wndsize(0, 70_000);
    kcp.update(0);
    kcp.input(&push(0, 0, &[1])).unwrap();
    let segs = all_segments(&kcp.update(100));
    assert_eq!(1, segs.len());
    // 69_999 free segments, as 16 bits carry them
    assert_eq!((69_999u32 % 65_536) as u16, segs[0].0.wnd);
}

fn observable(kcp: &KCP) -> (Vec<u32>, Vec<u32>, Vec<u32>, Vec<u32>, Vec<u32>) {
    (
        kcp.rcv_queue_sns(),
        kcp.rcv_buf_sns(),
        kcp.snd_buf_sns(),
        kcp.snd_buf_fastacks(),
        vec![
            kcp.rcv_nxt(),
            kcp.snd_una(),
            kcp.snd_nxt(),
            kcp.cwnd(),
            kcp.ssthresh(),
            kcp.rmt_wnd(),
            kcp.rx_rto(),
            kcp.rx_srtt(),
            kcp.xmit(),
            kcp.probe_wait(),
        ],
    )
}

#[test]
fn a_data_datagram_fed_twice_changes_nothing_more() {
    let mut alice = fast_block();
    for i in 0u8..6 {
        alice.send(&[i; 700]).unwrap();
    }
    let out = alice.update(0);
    assert_eq!(6, out.len());
    let mut bob = fast_block();
    bob.send(&[1]).unwrap();
    bob.update(0);
    // out of order, each one twice, some three times
    for at in [4usize, 4, 1, 0, 0, 1, 5, 4, 3, 3, 2, 2, 0, 5] {
        let before = observable(&bob);
        let seen_before = at < before.4[0] as usize || before.1.contains(&(at as u32));
        assert_eq!(Ok(724), bob.input(&out[at]));
        if seen_before {
            assert_eq!(before, observable(&bob));
        }
    }
    assert_eq!((0..6).collect::<Vec<u32>>(), bob.rcv_queue_sns());
    let mut buf = [0u8; 700];
    for i in 0u8..6 {
        assert_eq!(Ok(700), bob.recv(&mut buf));
        assert_eq!([i; 700], buf);
    }
    assert_eq!(Err(KcpError::RecvQueueEmpty), bob.recv(&mut buf));
    // each arrival within the window is acknowledged, a repeated one too
    // while it waits there; what the queue has taken is passed over
    let acks: Vec<u32> = all_segments(&bob.update(10))
        .iter()
        .filter(|(h, _)| h.cmd == CMD_ACK)
        .map(|(h, _)| h.sn)
        .collect();
    assert_eq!(vec![4, 4, 1, 0, 5, 4, 3, 3, 2], acks);
}

#[test]
fn what_one_end_sends_the_other_reads() {
    let mut alice = fast_block();
    let mut bob = KCP::new(CONV);
    assert!(alice.setmtu(300));
    bob.update(0);
    alice.update(0);
    for round in 0u32..20 {
        for i in 0..5u32 {
            alice.send(&vec![(round + i) as u8; 1 + ((round * 37 + i * 11) % 500) as usize]).unwrap();
        }
        for d in alice.update(round * 10 + 10) {
            assert!(d.len() <= 300);
            assert_eq!(Ok(d.len()), bob.input(&d));
        }
        let mut buf = [0u8; 600];
        while bob.recv(&mut buf).is_ok() {}
        for d in bob.update(round * 100 + 100) {
            assert_eq!(Ok(d.len()), alice.input(&d));
        }
    }
    assert_eq!(0, alice.waitsnd());
    assert_eq!(alice.snd_nxt(), bob.rcv_nxt());
}

#[test]
fn a_block_of_another_conversation_reads_nothing() {
    let mut alice = fast_block();
    let mut eve = KCP::new(CONV + 1);
    alice.send(&[1, 2, 3]).unwrap();
    for d in alice.update(0) {
        assert_eq!(Err(KcpError::InvalidData), eve.input(&d));
    }
    assert!(eve.rcv_queue_sns().is_empty());
    assert_eq!(0, eve.rcv_nxt());
}

#[test]
fn peeksize_tells_the_length_of_the_next_message() {
    let mut kcp = KCP::new(CONV);
    assert_eq!(Err(KcpError::RecvQueueEmpty), kcp.peeksize());
    kcp.input(&push(0, 1, &[1, 2, 3])).unwrap();
    assert_eq!(Err(KcpError::Incomplete), kcp.peeksize());
    kcp.input(&push(1, 0, &[4, 5])).unwrap();
    kcp.input(&push(2, 0, &[6])).unwrap();
    assert_eq!(Ok(5), kcp.peeksize());
    assert_eq!(Ok(5), kcp.peeksize());
    let mut buf = [0u8; 5];
    assert_eq!(Ok(5), kcp.recv(&mut buf));
    assert_eq!([1, 2, 3, 4, 5], buf);
    assert_eq!(Ok(1), kcp.peeksize());
    // an empty message is a message
    kcp.input(&push(3, 0, &[])).unwrap();
    assert_eq!(Ok(1), kcp.recv(&mut buf));
    assert_eq!(Ok(0), kcp.peeksize());
    assert_eq!(Ok(0), kcp.recv(&mut buf[..0]));
    assert_eq!(Err(KcpError::RecvQueueEmpty), kcp.peeksize());
}

#[test]
fn fragments_that_never_end_are_handed_over_as_one() {
    let mut kcp = KCP::new(CONV);
    kcp.wndsize(0, 3);
    // the first segment says that two more follow; none of them ends the message
    kcp.input(&push(0, 2, &[1])).unwrap();
    kcp.input(&push(1, 2, &[2])).unwrap();
    assert_eq!(Err(KcpError::Incomplete), kcp.peeksize());
    kcp.input(&push(2, 2, &[3])).unwrap();
    assert_eq!(Ok(3), kcp.peeksize());
    let mut buf = [0u8; 3];
    assert_eq!(Ok(3), kcp.recv(&mut buf));
    assert_eq!([1, 2, 3], buf);
}

#[test]
fn an_acknowledgement_fed_twice_is_sampled_twice() {
    let mut kcp = ten_in_flight();
    kcp.update(100);
    kcp.input(&ack(0, 0, 0)).unwrap();
    assert_eq!(100, kcp.rx_srtt());
    kcp.update(300);
    let late = ack(1, 100, 0);
    kcp.input(&late).unwrap();
    assert_eq!(112, kcp.rx_srtt());
    let in_flight = kcp.snd_buf_sns();
    // the same datagram again: nothing leaves the send buffer, but the
    // estimator takes the sample once more: (7 * 112 + 200) / 8
    kcp.input(&late).unwrap();
    assert_eq!(in_flight, kcp.snd_buf_sns());
    assert_eq!(123, kcp.rx_srtt());
}

#[test]
fn what_has_arrived_is_told_by_the_next_segment() {
    let mut alice = fast_block();
    let mut bob = fast_block();
    alice.send(&[1, 2, 3]).unwrap();
    let first = alice.update(0);
    assert_eq!(1, first.len());
    bob.input(&first[0]).unwrap();
    // the acknowledgement goes out and is lost
    let acks = all_segments(&bob.update(0));
    assert_eq!(1, acks.len());
    assert_eq!((CMD_ACK, 0), (acks[0].0.cmd, acks[0].0.sn));
    // the segment comes again when its time has run out, and is passed
    // over: the queue has taken it
    let mut again = Vec::new();
    let mut now = 0;
    while again.is_empty() {
        now += 10;
        again = alice.update(now);
    }
    assert_eq!(200, now);
    assert_eq!(Ok(27), bob.input(&again[0]));
    assert_eq!(vec![0], bob.rcv_queue_sns());
    assert!(bob.update(now).is_empty());
    assert_eq!(1, alice.waitsnd());
    // the next segment that the peer sends carries the number that it
    // expects next, and that tells
    bob.send(&[9]).unwrap();
    let out = bob.update(now + 10);
    let segs = all_segments(&out);
    assert_eq!(1, segs.len());
    assert_eq!((CMD_PUSH, 1), (segs[0].0.cmd, segs[0].0.una));
    alice.input(&out[0]).unwrap();
    assert_eq!(0, alice.waitsnd());
    assert_eq!(1, alice.snd_una());
}

#[test]
fn sequence_numbers_are_counted_down() {
    let mut kcp = fast_block();
    assert_eq!(u32::MAX, kcp.numbers_left());
    for i in 0u8..10 {
        kcp.send(&[i]).unwrap();
    }
    assert_eq!(u32::MAX, kcp.numbers_left());
    kcp.update(0);
    assert_eq!(u32::MAX - 10, kcp.numbers_left());
    assert_eq!(10, kcp.snd_nxt());
}

#[test]
fn the_largest_mtu_is_what_the_machine_and_the_wire_allow() {
    let most = kcp::state::mtu_max();
    assert!(most >= 1 << 28);
    assert!(most as u64 <= u32::MAX as u64 + 24);
    assert!((most as u128 + 24) * 6 <= isize::MAX as u128);
    let mut kcp = KCP::new(CONV);
    assert!(kcp.setmtu(1 << 20));
    assert_eq!((1 << 20) - 24, kcp.mss());
}

#[test]
fn messages_that_wait_come_out_one_by_one() {
    let mut alice = fast_block();
    let mut bob = fast_block();
    assert!(alice.setmtu(74));
    let messages: Vec<Vec<u8>> = vec![
        (0..120).collect(),
        vec![7],
        (0..50).collect(),
        (0..51).collect(),
        (100..250).collect(),
    ];
    for m in &messages {
        assert_eq!(Ok(m.len()), alice.send(m));
    }
    // 3 + 1 + 1 + 2 + 3 fragments of up to 50 bytes
    assert_eq!(10, alice.waitsnd());
    for d in alice.update(0) {
        bob.input(&d).unwrap();
    }
    assert_eq!(10, bob.rcv_queue_sns().len());
    let mut buf = [0u8; 150];
    for m in &messages {
        assert_eq!(Ok(m.len()), bob.peeksize());
        assert_eq!(Ok(m.len()), bob.recv(&mut buf));
        assert_eq!(m[..], buf[..m.len()]);
    }
    assert_eq!(Err(KcpError::RecvQueueEmpty), bob.recv(&mut buf));
}

#[test]
fn a_stream_comes_out_in_the_order_of_its_bytes() {
    let mut alice = fast_block();
    let mut bob = fast_block();
    alice.set_stream(true);
    assert!(alice.setmtu(74));
    let writes: Vec<Vec<u8>> =
        vec![(0..30).collect(), (30..45).collect(), (45..160).collect(), vec![160], vec![161, 162]];
    for w in &writes {
        assert!(alice.send(w).is_ok());
    }
    // 163 bytes in segments of 50
    assert_eq!(4, alice.waitsnd());
    for d in alice.update(0) {
        bob.input(&d).unwrap();
    }
    let mut got = Vec::new();
    let mut buf = [0u8; 50];
    let mut lens = Vec::new();
    while let Ok(n) = bob.recv(&mut buf) {
        got.extend_from_slice(&buf[..n]);
        lens.push(n);
    }
    assert_eq!((0..163).map(|b| b as u8).collect::<Vec<u8>>(), got);
    assert_eq!(vec![50, 50, 50, 13], lens);
}
