use kcp::wire::{decode32u, encode32u};
use kcp::KCP;
use std::collections::VecDeque;

const CONV: u32 = 0x11223344;

/// A pseudo-random sequence that is the same on every run.
struct Dice(u64);

impl Dice {
    fn next(&mut self) -> u32 {
        self.0 = self.0.wrapping_mul(6364136223846793005).wrapping_add(1442695040888963407);
        (self.0 >> 33) as u32
    }
}

/// One direction of a link that loses and delays datagrams.
struct Route {
    dice: Dice,
    lost_percent: u32,
    delay_min: u32,
    delay_max: u32,
    in_flight: VecDeque<(u32, Vec<u8>)>,
    sent: usize,
    lost: usize,
}

impl Route {
    fn new(seed: u64, lost_percent: u32, delay_min: u32, delay_max: u32) -> Route {
        Route {
            dice: Dice(seed),
            lost_percent,
            delay_min,
            delay_max,
            in_flight: VecDeque::new(),
            sent: 0,
            lost: 0,
        }
    }

    fn put(&mut self, now: u32, datagrams: Vec<Vec<u8>>) {
        for d in datagrams {
            self.sent += 1;
            if self.dice.next() % 100 < self.lost_percent {
                self.lost += 1;
                continue;
            }
            let mut delay = self.delay_min;
            if self.delay_max > self.delay_min {
                delay += self.dice.next() % (self.delay_max - self.delay_min);
            }
            self.in_flight.push_back((now + delay, d));
        }
    }

    /// The datagrams that have arrived by `now`, in the order in which they
    /// were sent.
    fn take(&mut self, now: u32) -> Vec<Vec<u8>> {
        let mut out = Vec::new();
        while let Some((due, _)) = self.in_flight.front() {
            if *due > now {
                break;
            }
            out.push(self.in_flight.pop_front().unwrap().1);
        }
        out
    }
}

/// A word that an end says when it has nothing else under way. A block
/// learns what has arrived from the acknowledgements and from the
/// cumulative acknowledgement in every segment that the peer sends; once an
/// acknowledgement is lost, it is the next segment of the peer that tells,
/// and a peer that has had everything says nothing by itself.
const WORD: [u8; 1] = [0];

fn say_a_word_when_idle(end: &mut KCP) {
    if end.waitsnd() == 0 {
        assert_eq!(Ok(1), end.send(&WORD));
    }
}

struct Outcome {
    messages: u32,
    avg_rtt: u32,
    max_rtt: u32,
    finished_at: u32,
    lost: usize,
}

fn echo(mode: &str, messages: u32, lost_percent: u32) -> Outcome {
    echo_over(mode, messages, lost_percent, 30, 62)
}

fn echo_over(
    mode: &str,
    messages: u32,
    lost_percent: u32,
    delay_min: u32,
    delay_max: u32,
) -> Outcome {
    let mut alice_to_bob = Route::new(1, lost_percent, delay_min, delay_max);
    let mut bob_to_alice = Route::new(2, lost_percent, delay_min, delay_max);
    let mut alice = KCP::new(CONV);
    let mut bob = KCP::new(CONV);
    alice.wndsize(128, 128);
    bob.wndsize(128, 128);
    match mode {
        "default" => {
            alice.nodelay(0, 10, 0, false);
            bob.nodelay(0, 10, 0, false);
        }
        "normal" => {
            alice.nodelay(0, 10, 0, true);
            bob.nodelay(0, 10, 0, true);
        }
        "fast" => {
            alice.nodelay(1, 10, 2, true);
            bob.nodelay(1, 10, 2, true);
        }
        _ => unreachable!(),
    }

    let start = 1_000_000u32;
    let mut now = start;
    let mut slap = now + 20;
    let mut index = 0u32;
    let mut next = 0u32;
    let mut sum_rtt = 0u64;
    let mut max_rtt = 0u32;
    let mut buffer = [0u8; 2000];

    while next < messages {
        now += 1;
        assert!(now - start < 600_000, "{} mode: stuck after {} messages", mode, next);
        alice_to_bob.put(now, alice.update(now));
        bob_to_alice.put(now, bob.update(now));

        while now >= slap {
            let mut p = 0usize;
            encode32u(&mut buffer, &mut p, index);
            index += 1;
            encode32u(&mut buffer, &mut p, now);
            assert_eq!(Ok(8), alice.send(&buffer[..p]));
            slap += 20;
        }
        for d in alice_to_bob.take(now) {
            assert_eq!(Ok(d.len()), bob.input(&d));
        }
        for d in bob_to_alice.take(now) {
            assert_eq!(Ok(d.len()), alice.input(&d));
        }
        while let Ok(n) = bob.recv(&mut buffer[..10]) {
            assert_eq!(8, n);
            let back = buffer[..n].to_vec();
            assert_eq!(Ok(8), bob.send(&back));
        }
        say_a_word_when_idle(&mut bob);
        while next < messages {
            let n = match alice.recv(&mut buffer[..10]) {
                Ok(n) => n,
                Err(_) => break,
            };
            if n == 1 {
                assert_eq!(WORD, buffer[..1]);
                continue;
            }
            assert_eq!(8, n);
            let mut p = 0usize;
            let sn = decode32u(&buffer, &mut p);
            let ts = decode32u(&buffer, &mut p);
            assert_eq!(next, sn, "{} mode: out of order", mode);
            next += 1;
            let rtt = now - ts;
            sum_rtt += rtt as u64;
            if rtt > max_rtt {
                max_rtt = rtt;
            }
        }
    }
    Outcome {
        messages: next,
        avg_rtt: (sum_rtt / messages as u64) as u32,
        max_rtt,
        finished_at: now - start,
        lost: alice_to_bob.lost + bob_to_alice.lost,
    }
}

#[test]
fn kcp_test() {
    let tests = vec!["default", "normal", "fast"];
    let results = tests
        .into_iter()
        .map(|mode| {
            // a link that loses one datagram in ten on the round trip and
            // takes 60 to 125 ms for it
            let outcome = echo(mode, 1001, 5);
            assert_eq!(1001, outcome.messages);
            format!("{} mode result ({}ms):\n", mode, outcome.finished_at)
                + &format!("avgrtt={} maxrtt={}", outcome.avg_rtt, outcome.max_rtt)
        })
        .collect::<Vec<_>>();
    for result in results {
        println!("{}", result);
    }
}

#[test]
fn standard_mode() {
    // a link that loses nothing and takes no time
    let outcome = echo_over("default", 1001, 0, 0, 0);
    assert_eq!(1001, outcome.messages);
    assert_eq!(0, outcome.lost);
    println!("result ({}ms):", outcome.finished_at);
    println!("avgrtt={} maxrtt={}", outcome.avg_rtt, outcome.max_rtt);
    // a flush of each end at most, and the echo, every ten milliseconds
    assert!(outcome.max_rtt <= 30, "longest round trip {}", outcome.max_rtt);
}

#[test]
fn echo_over_a_lossy_link_in_fast_mode() {
    let outcome = echo("fast", 1024, 5);
    assert_eq!(1024, outcome.messages);
    assert!(outcome.lost > 50, "the link lost {}", outcome.lost);
    assert!(outcome.avg_rtt < 300, "average round trip {}", outcome.avg_rtt);
    assert!(outcome.avg_rtt >= 60, "average round trip {}", outcome.avg_rtt);
    assert!(outcome.max_rtt < 2000, "longest round trip {}", outcome.max_rtt);
    // 1024 messages at 20 ms each, and the last round trip
    assert!(outcome.finished_at < 1024 * 20 + 2000, "finished at {}", outcome.finished_at);
}

#[test]
fn echo_over_a_lossy_link_in_normal_mode() {
    let outcome = echo("normal", 1024, 5);
    assert_eq!(1024, outcome.messages);
    assert!(outcome.lost > 50, "the link lost {}", outcome.lost);
    assert!(outcome.avg_rtt >= 60, "average round trip {}", outcome.avg_rtt);
}

#[test]
fn echo_over_a_lossy_link_in_default_mode() {
    let outcome = echo("default", 1024, 5);
    assert_eq!(1024, outcome.messages);
    assert!(outcome.lost > 10, "the link lost {}", outcome.lost);
    assert!(outcome.avg_rtt >= 60, "average round trip {}", outcome.avg_rtt);
}

#[test]
fn echo_over_a_link_without_loss() {
    let outcome = echo("fast", 200, 0);
    assert_eq!(200, outcome.messages);
    assert_eq!(0, outcome.lost);
    // two ways of 30 to 61 ms, and up to 10 ms of waiting for a flush at
    // each of the three sends
    assert!(outcome.max_rtt <= 2 * 61 + 3 * 10 + 2, "longest round trip {}", outcome.max_rtt);
    assert!(outcome.avg_rtt >= 60);
}

#[test]
fn echo_over_a_very_lossy_link() {
    let outcome = echo("fast", 300, 40);
    assert_eq!(300, outcome.messages);
}

fn transfer(stream: bool, messages: &[Vec<u8>], lost_percent: u32) -> Vec<Vec<u8>> {
    let mut forth = Route::new(7, lost_percent, 5, 40);
    let mut back = Route::new(8, lost_percent, 5, 40);
    let mut alice = KCP::new(CONV);
    let mut bob = KCP::new(CONV);
    for end in [&mut alice, &mut bob] {
        end.nodelay(1, 10, 2, false);
        // a message must fit the receive window: 255 fragments at most
        end.wndsize(64, 256);
        end.set_stream(stream);
        assert!(end.setmtu(200));
    }
    let total: usize = messages.iter().map(|m| m.len()).sum();
    let mut received: Vec<Vec<u8>> = Vec::new();
    let mut got = 0usize;
    let mut now = 0u32;
    let mut queued = 0usize;
    let mut buffer = vec![0u8; 70_000];
    while got < total {
        now += 1;
        assert!(now < 600_000, "stuck after {} of {} bytes", got, total);
        // keep the send queue short, as an application would
        while queued < messages.len() && alice.waitsnd() < 64 {
            assert!(alice.send(&messages[queued]).is_ok());
            queued += 1;
        }
        forth.put(now, alice.update(now));
        back.put(now, bob.update(now));
        for d in forth.take(now) {
            assert!(d.len() <= 200);
            assert_eq!(Ok(d.len()), bob.input(&d));
        }
        for d in back.take(now) {
            assert!(d.len() <= 200);
            assert_eq!(Ok(d.len()), alice.input(&d));
        }
        while let Ok(n) = bob.recv(&mut buffer) {
            got += n;
            received.push(buffer[..n].to_vec());
        }
        // the receiving end has nothing to send but a word now and then
        say_a_word_when_idle(&mut bob);
        let mut word = [0u8; 1];
        while alice.recv(&mut word).is_ok() {}
    }
    // every segment is acknowledged in the end
    for _ in 0..5000 {
        now += 1;
        say_a_word_when_idle(&mut bob);
        forth.put(now, alice.update(now));
        back.put(now, bob.update(now));
        for d in forth.take(now) {
            bob.input(&d).unwrap();
        }
        for d in back.take(now) {
            alice.input(&d).unwrap();
        }
        let mut word = [0u8; 1];
        while alice.recv(&mut word).is_ok() {}
    }
    assert_eq!(0, alice.waitsnd());
    assert_eq!(alice.snd_nxt(), alice.snd_una());
    assert_eq!(alice.snd_nxt(), bob.rcv_nxt());
    received
}

fn sample_messages() -> Vec<Vec<u8>> {
    let mut dice = Dice(99);
    let mut out = Vec::new();
    for i in 0..120u32 {
        let len = match i % 6 {
            0 => 1,
            1 => 176,
            2 => 177,
            3 => 1 + dice.next() as usize % 3000,
            4 => 352,
            _ => 1 + dice.next() as usize % 40,
        };
        out.push((0..len).map(|_| dice.next() as u8).collect());
    }
    out
}

#[test]
fn message_mode_keeps_the_bounds_of_messages() {
    let messages = sample_messages();
    let received = transfer(false, &messages, 10);
    assert_eq!(messages, received);
}

#[test]
fn stream_mode_keeps_the_order_of_bytes() {
    let messages = sample_messages();
    let received = transfer(true, &messages, 10);
    let sent: Vec<u8> = messages.concat();
    let got: Vec<u8> = received.concat();
    assert_eq!(sent, got);
    // the bounds of the messages are gone: what arrives are segments, full
    // ones but for those that were last in the queue when a flush came
    assert_ne!(messages, received);
    let full = received.iter().filter(|r| r.len() == 176).count();
    assert!(full * 176 * 10 > sent.len() * 9, "{} full segments", full);
    for r in &received {
        assert!(r.len() <= 176);
    }
}

#[test]
fn a_message_of_255_fragments_goes_through() {
    let mut dice = Dice(5);
    let message: Vec<u8> = (0..255 * 176).map(|_| dice.next() as u8).collect();
    let received = transfer(false, &[message.clone()], 3);
    assert_eq!(vec![message], received);
}
