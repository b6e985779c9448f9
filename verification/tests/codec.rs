use kcp::clock::{bound, timediff};
use kcp::wire::{
    decode16u, decode32u, decode_header, encode16u, encode32u, encode_header, Header, CMD_ACK,
    CMD_PUSH, CMD_WASK, CMD_WINS, OVERHEAD,
};

#[test]
fn test_decode32u() {
    let mut buf = vec![0u8; 16];
    let mut p = 0;

    let n = decode32u(&buf, &mut p);
    assert_eq!(0, n);
    assert_eq!(4, p);

    buf[4] = 7;
    let n = decode32u(&buf, &mut p);
    assert_eq!(7, n);
    assert_eq!(8, p);

    buf[8..12].copy_from_slice(&[13u8, 1, 0, 0]);
    let n = decode32u(&buf, &mut p);
    assert_eq!(256 + 13, n);
    assert_eq!(12, p);
}

#[test]
fn test_encode32u() {
    let mut buf = vec![0u8; 4];
    let mut p = 0;
    encode32u(&mut buf, &mut p, 256 + 13);

    assert_eq!(vec![13, 1, 0, 0], buf);
    assert_eq!(4, p);
}

#[test]
fn encode32u_writes_in_place_and_leaves_the_rest() {
    let mut buf = vec![0xaau8; 10];
    let mut p = 3;
    encode32u(&mut buf, &mut p, 0x1234_5678);
    assert_eq!(7, p);
    assert_eq!(vec![0xaa, 0xaa, 0xaa, 0x78, 0x56, 0x34, 0x12, 0xaa, 0xaa, 0xaa], buf);
}

#[test]
fn encode32u_extremes() {
    let mut buf = vec![0u8; 8];
    let mut p = 0;
    encode32u(&mut buf, &mut p, u32::MAX);
    encode32u(&mut buf, &mut p, 0x8000_0000);
    assert_eq!(vec![0xff, 0xff, 0xff, 0xff, 0, 0, 0, 0x80], buf);
    let mut q = 0;
    assert_eq!(u32::MAX, decode32u(&buf, &mut q));
    assert_eq!(0x8000_0000, decode32u(&buf, &mut q));
    assert_eq!(8, q);
}

#[test]
fn sixteen_bit_codec() {
    let mut buf = vec![0u8; 4];
    let mut p = 1;
    encode16u(&mut buf, &mut p, 0xbeef);
    assert_eq!(3, p);
    assert_eq!(vec![0, 0xef, 0xbe, 0], buf);
    let mut q = 1;
    assert_eq!(0xbeef, decode16u(&buf, &mut q));
    assert_eq!(3, q);
}

#[test]
fn header_is_24_bytes_in_field_order() {
    let h = Header {
        conv: 0x1122_3344,
        cmd: CMD_PUSH,
        frg: 3,
        wnd: 0x0102,
        ts: 0x0a0b_0c0d,
        sn: 7,
        una: 0x0100_0000,
        len: 5,
    };
    let bytes = encode_header(&h);
    assert_eq!(24, bytes.len());
    assert_eq!(OVERHEAD, bytes.len());
    let expected: [u8; 24] = [
        0x44, 0x33, 0x22, 0x11, // conv
        81, // cmd
        3, // frg
        0x02, 0x01, // wnd
        0x0d, 0x0c, 0x0b, 0x0a, // ts
        7, 0, 0, 0, // sn
        0, 0, 0, 1, // una
        5, 0, 0, 0, // len
    ];
    assert_eq!(expected, bytes);
}

#[test]
fn header_round_trip() {
    let headers = vec![
        Header { conv: 0, cmd: CMD_ACK, frg: 0, wnd: 0, ts: 0, sn: 0, una: 0, len: 0 },
        Header {
            conv: u32::MAX,
            cmd: CMD_WINS,
            frg: 255,
            wnd: u16::MAX,
            ts: u32::MAX,
            sn: u32::MAX,
            una: u32::MAX,
            len: u32::MAX,
        },
        Header {
            conv: 0x11223344,
            cmd: CMD_WASK,
            frg: 1,
            wnd: 32,
            ts: 123_456_789,
            sn: 42,
            una: 41,
            len: 1376,
        },
    ];
    for h in headers {
        let bytes = encode_header(&h);
        let mut padded = vec![0x5au8; 3];
        padded.extend_from_slice(&bytes);
        padded.extend_from_slice(&[0x5a, 0x5a]);
        assert_eq!(h, decode_header(&padded, 3));
        assert_eq!(h, decode_header(&bytes, 0));
    }
}

#[test]
fn header_bytes_round_trip() {
    let mut bytes = [0u8; 24];
    for (i, b) in bytes.iter_mut().enumerate() {
        *b = (i as u8).wrapping_mul(37).wrapping_add(11);
    }
    let h = decode_header(&bytes, 0);
    assert_eq!(bytes, encode_header(&h));
}

#[test]
fn command_numbers() {
    assert_eq!(81, CMD_PUSH);
    assert_eq!(82, CMD_ACK);
    assert_eq!(83, CMD_WASK);
    assert_eq!(84, CMD_WINS);
}

#[test]
fn timediff_is_signed_and_wraps() {
    assert_eq!(0, timediff(5, 5));
    assert_eq!(10, timediff(15, 5));
    assert_eq!(-10, timediff(5, 15));
    assert_eq!(6, timediff(2, u32::MAX - 3));
    assert_eq!(-6, timediff(u32::MAX - 3, 2));
    assert_eq!(i32::MAX, timediff(0x7fff_ffff, 0));
    assert_eq!(i32::MIN, timediff(0x8000_0000, 0));
    assert_eq!(i32::MIN, timediff(0, 0x8000_0000));
    assert_eq!(-1, timediff(0, 1));
    assert_eq!(-1, timediff(0x7fff_ffff, 0x8000_0000));
}

#[test]
fn bound_clamps() {
    assert_eq!(100, bound(100, 50, 60000));
    assert_eq!(300, bound(100, 300, 60000));
    assert_eq!(60000, bound(100, 70000, 60000));
    assert_eq!(100, bound(100, 100, 60000));
    assert_eq!(60000, bound(100, 60000, 60000));
    // the upper bound wins where the two cross
    assert_eq!(10, bound(20, 5, 10));
}
