use kcp::wire::{encode_header, Header, CMD_ACK, CMD_PUSH};
use kcp::KCP;

const CONV: u32 = 77;

struct Dice(u64);

impl Dice {
    fn next(&mut self) -> u32 {
        self.0 = self.0.wrapping_mul(6364136223846793005).wrapping_add(1442695040888963407);
        (self.0 >> 33) as u32
    }

    fn below(&mut self, n: u32) -> u32 {
        self.next() % n
    }
}

/// What must hold of a block between any two operations.
fn assert_invariants(kcp: &KCP, rcv_wnd: u32, updated: bool, what: &str) {
    let snd_buf = kcp.snd_buf_sns();
    for pair in snd_buf.windows(2) {
        assert!(pair[0] < pair[1], "{}: send buffer out of order: {:?}", what, snd_buf);
    }
    for sn in &snd_buf {
        assert!(kcp.snd_una() <= *sn && *sn < kcp.snd_nxt(), "{}: {} not in flight", what, sn);
    }
    assert!(kcp.snd_una() <= kcp.snd_nxt(), "{}", what);
    match snd_buf.first() {
        Some(first) => assert_eq!(*first, kcp.snd_una(), "{}", what),
        None => assert_eq!(kcp.snd_nxt(), kcp.snd_una(), "{}", what),
    }
    let rcv_buf = kcp.rcv_buf_sns();
    for pair in rcv_buf.windows(2) {
        assert!(pair[0] < pair[1], "{}: receive buffer out of order: {:?}", what, rcv_buf);
    }
    for sn in &rcv_buf {
        assert!(
            kcp.rcv_nxt() <= *sn && (*sn as u64) < kcp.rcv_nxt() as u64 + rcv_wnd as u64,
            "{}: {} outside of the window at {}",
            what,
            sn,
            kcp.rcv_nxt()
        );
    }
    let rcv_queue = kcp.rcv_queue_sns();
    assert!(rcv_queue.len() <= rcv_wnd as usize, "{}: queue of {}", what, rcv_queue.len());
    for (i, sn) in rcv_queue.iter().enumerate() {
        assert_eq!(kcp.rcv_nxt() - rcv_queue.len() as u32 + i as u32, *sn, "{}", what);
    }
    if updated {
        assert!(kcp.cwnd() >= 1, "{}: window shut", what);
    }
    assert!(kcp.ssthresh() >= 2, "{}: threshold {}", what, kcp.ssthresh());
    assert!(
        kcp.rx_minrto() <= kcp.rx_rto() && kcp.rx_rto() <= 60000,
        "{}: timeout {}",
        what,
        kcp.rx_rto()
    );
    assert_eq!(kcp.mtu() - 24, kcp.mss(), "{}", what);
    assert_eq!(snd_buf.len() + kcp.snd_queue_len(), kcp.waitsnd(), "{}", what);
}

fn mangle(dice: &mut Dice, datagram: &[u8]) -> Vec<u8> {
    let mut out = datagram.to_vec();
    match dice.below(4) {
        0 => {
            let cut = dice.below(out.len() as u32 + 1) as usize;
            out.truncate(cut);
        }
        1 => {
            let at = dice.below(out.len() as u32) as usize;
            out[at] ^= 1 << dice.below(8);
        }
        2 => {
            for _ in 0..dice.below(30) {
                out.push(dice.next() as u8);
            }
        }
        _ => {
            // an acknowledgement or a data segment out of thin air
            let h = Header {
                conv: CONV,
                cmd: if dice.below(2) == 0 { CMD_ACK } else { CMD_PUSH },
                frg: dice.below(3) as u8,
                wnd: dice.below(40) as u16,
                ts: dice.next(),
                sn: dice.below(200),
                una: dice.below(200),
                len: 0,
            };
            out = encode_header(&h).to_vec();
        }
    }
    out
}

fn run(seed: u64, nodelay: i32, resend: i32, nc: bool, stream: bool, rcv_wnd: u32) {
    let mut dice = Dice(seed);
    let mut ends = [KCP::new(CONV), KCP::new(CONV)];
    for end in ends.iter_mut() {
        end.nodelay(nodelay, 10, resend, nc);
        end.wndsize(16, rcv_wnd as i32);
        end.set_stream(stream);
        assert!(end.setmtu(120));
        assert_invariants(end, rcv_wnd, false, "new");
    }
    let mut wires: [Vec<Vec<u8>>; 2] = [Vec::new(), Vec::new()];
    let mut updated = [false, false];
    let mut now = dice.next();
    let mut buffer = vec![0u8; 4096];
    let mut delivered = [0usize, 0usize];
    for step in 0..6000 {
        let me = dice.below(2) as usize;
        let what;
        match dice.below(7) {
            0 => {
                let len = 1 + dice.below(400) as usize;
                let data: Vec<u8> = (0..len).map(|_| dice.next() as u8).collect();
                if ends[me].waitsnd() < 200 {
                    ends[me].send(&data).unwrap();
                }
                what = "send";
            }
            1 | 2 => {
                now = now.wrapping_add(dice.below(40));
                let out = ends[me].update(now);
                for d in &out {
                    assert!(!d.is_empty() && d.len() <= 120);
                }
                wires[me].extend(out);
                updated[me] = true;
                what = "update";
            }
            3 | 4 => {
                // the other end's datagrams, some lost, some mangled, some
                // twice, in any order
                let other = 1 - me;
                if !wires[other].is_empty() {
                    let at = dice.below(wires[other].len() as u32) as usize;
                    let d = wires[other].swap_remove(at);
                    match dice.below(10) {
                        0 => {}
                        1 => {
                            let bad = mangle(&mut dice, &d);
                            let _ = ends[me].input(&bad);
                        }
                        2 => {
                            assert_eq!(Ok(d.len()), ends[me].input(&d));
                            assert_eq!(Ok(d.len()), ends[me].input(&d));
                        }
                        _ => {
                            assert_eq!(Ok(d.len()), ends[me].input(&d));
                        }
                    }
                }
                what = "input";
            }
            5 => {
                let cap = dice.below(4096) as usize;
                if let Ok(n) = ends[me].recv(&mut buffer[..cap]) {
                    delivered[me] += n;
                }
                what = "recv";
            }
            _ => {
                let before = ends[me].waitsnd();
                let out = ends[me].flush();
                assert!(updated[me] || out.is_empty());
                wires[me].extend(out);
                assert_eq!(before, ends[me].waitsnd());
                what = "flush";
            }
        }
        let label = format!("seed {} step {} {}", seed, step, what);
        assert_invariants(&ends[0], rcv_wnd, updated[0], &label);
        assert_invariants(&ends[1], rcv_wnd, updated[1], &label);
    }
    assert!(delivered[0] + delivered[1] > 0);
}

#[test]
fn invariants_hold_in_default_mode() {
    for seed in 0..6 {
        run(seed, 0, 0, false, false, 32);
    }
}

#[test]
fn invariants_hold_in_fast_mode() {
    for seed in 10..16 {
        run(seed, 1, 2, true, false, 32);
    }
}

#[test]
fn invariants_hold_in_stream_mode() {
    for seed in 20..26 {
        run(seed, 1, 1, false, true, 8);
    }
}

#[test]
fn a_smaller_receive_window_may_leave_the_queue_longer_than_the_window() {
    let mut kcp = KCP::new(CONV);
    for sn in 0..3u32 {
        let h = Header { conv: CONV, cmd: CMD_PUSH, frg: 0, wnd: 32, ts: 0, sn, una: 0, len: 0 };
        kcp.input(&encode_header(&h)).unwrap();
    }
    assert_eq!(3, kcp.rcv_queue_sns().len());
    kcp.wndsize(0, 1);
    // three segments wait and the window is one: no room is advertised
    kcp.update(0);
    let out = kcp.update(100);
    assert!(out.is_empty());
    kcp.input(&encode_header(&Header {
        conv: CONV,
        cmd: CMD_PUSH,
        frg: 0,
        wnd: 32,
        ts: 0,
        sn: 3,
        una: 0,
        len: 0,
    }))
    .unwrap();
    let out = kcp.update(200);
    assert_eq!(1, out.len());
    assert_eq!(0, kcp::wire::decode_header(&out[0], 0).wnd);
    assert_eq!(vec![3], kcp.rcv_buf_sns());
}

#[test]
fn a_higher_minimum_may_lie_above_the_timeout_in_force() {
    let mut kcp = KCP::new(CONV);
    kcp.nodelay(1, 10, 0, true);
    kcp.send(&[1]).unwrap();
    kcp.update(0);
    kcp.input(&encode_header(&Header {
        conv: CONV,
        cmd: CMD_ACK,
        frg: 0,
        wnd: 32,
        ts: 0,
        sn: 0,
        una: 1,
        len: 0,
    }))
    .unwrap();
    assert_eq!(30, kcp.rx_rto());
    kcp.nodelay(0, 10, 0, true);
    assert_eq!(100, kcp.rx_minrto());
    assert_eq!(30, kcp.rx_rto());
    // the next sample brings the timeout above the minimum again
    kcp.send(&[2]).unwrap();
    kcp.update(10);
    kcp.input(&encode_header(&Header {
        conv: CONV,
        cmd: CMD_ACK,
        frg: 0,
        wnd: 32,
        ts: 10,
        sn: 1,
        una: 2,
        len: 0,
    }))
    .unwrap();
    assert_eq!(100, kcp.rx_rto());
}
