use tg::g::Error;
use tg::nw::pack;
use tg::nw::pack_comp::{self, Head, FLAG_PID_16};
use tg::nw::packet::{Builder, Packet};

#[test]
fn comp_head_roundtrip_all_widths() {
    let cases: [(u16, u32, u64, usize); 5] = [
        (1, 1, 0, 0),
        (0xFF, 0xFF, 0xFF, 0xFF),
        (0x100, 0x100, 0x100, 0x100),
        (0xFFFF, 0x10000, 0x10000, 0x10000),
        (0x1234, 0xFFFF_FFFF, 0x1_0000_0000, 0xFFFF_FFFF),
    ];
    for (pid, idem, router, len) in cases {
        let h = Head::with_params(pid, idem, router, len);
        let mut buf = vec![0u8; h.size()];
        h.to_bytes(&mut buf);
        let mut back = Head::new();
        back.parse(&buf).unwrap();
        assert_eq!(back.flag(), h.flag());
        assert_eq!(back.pid(), pid);
        assert_eq!(back.idempotent(), idem);
        assert_eq!(back.router_id(), router);
        assert_eq!(back.data_len(), len);
        assert_eq!(back.size(), h.size());
    }
}

#[test]
fn comp_head_exact_bytes() {
    // pid 2 bytes, idempotent 1 byte, no router id, data_len 1 byte.
    let h = Head::with_params(0x0102, 5, 0, 3);
    assert_eq!(h.flag(), FLAG_PID_16 | pack_comp::FLAG_DATA_LEN_8);
    let mut buf = vec![0u8; h.size()];
    h.to_bytes(&mut buf);
    assert_eq!(buf, vec![0b1000_0001, 0x02, 0x01, 5, 3]);
}

#[test]
fn comp_head_parse_errors_leave_head() {
    let mut h = Head::with_params(9, 9, 0, 0);
    // Too short.
    assert!(matches!(h.parse(&[0, 1]), Err(Error::PackHeadInvalid)));
    // Invalid flag: both idempotent bits set.
    assert!(matches!(h.parse(&[0b0110_0000, 1, 1, 1, 1]), Err(Error::PackHeadInvalid)));
    // Shorter than the head that the flag describes.
    assert!(matches!(h.parse(&[0b0001_1100, 1, 1, 1]), Err(Error::PackHeadInvalid)));
    assert_eq!(h.pid(), 9);
    assert_eq!(h.idempotent(), 9);
    assert_eq!(h.size(), 3);
}

#[test]
fn comp_package_roundtrip_with_router() {
    let mut p = pack_comp::Package::new();
    p.set(0x300, 0x7_0000, 0x1_0000_0000, b"abcdef");
    let bytes = p.to_bytes();
    assert_eq!(bytes.len(), 1 + 2 + 4 + 8 + 1 + 6);
    let mut q = pack_comp::Package::new();
    assert!(q.parse(&bytes).unwrap());
    assert_eq!(q.pid(), 0x300);
    assert_eq!(q.idempotent(), 0x7_0000);
    assert_eq!(q.router_id(), 0x1_0000_0000);
    assert_eq!(q.data_len(), 6);
    assert_eq!(q.data(), b"abcdef");
}

#[test]
fn comp_package_empty_body_is_not_complete() {
    let mut p = pack_comp::Package::new();
    p.set(1, 1, 0, b"");
    let bytes = p.to_bytes();
    let mut q = pack_comp::Package::new();
    assert!(!q.parse(&bytes).unwrap());
}

#[test]
fn comp_package_body_size_mismatch() {
    let mut p = pack_comp::Package::new();
    p.set(3, 4, 0, b"abcdef");
    let bytes = p.to_bytes();
    let mut q = pack_comp::Package::new();
    assert!(matches!(q.parse(&bytes[..bytes.len() - 1]), Err(Error::BufSizeInvalid)));
}

#[test]
fn pack_from_bytes_in_two_parts() {
    let p = pack::Package::with_params(7, 8, b"Hello world");
    let bytes = p.raw().to_vec();
    for j in 1..bytes.len() {
        let mut q = pack::Package::new();
        assert_eq!(q.from_bytes(&bytes[..j]).unwrap(), j);
        assert!(!q.valid() || j == bytes.len());
        assert_eq!(q.from_bytes(&bytes[j..]).unwrap(), bytes.len() - j);
        assert!(q.valid());
        assert_eq!(q.package_id(), 7);
        assert_eq!(q.idempotent(), 8);
        assert_eq!(q.data(), b"Hello world");
        assert_eq!(q.raw(), &bytes[..]);
    }
}

#[test]
fn pack_with_params_exact_head() {
    let p = pack::Package::with_params(0x0201, 0x06050403, b"xy");
    let r = p.raw();
    assert_eq!(r.len(), 14);
    assert_eq!(&r[..10], &[0x01, 0x02, 0x03, 0x04, 0x05, 0x06, 14, 0, 0, 0]);
    assert_eq!(r[10], r[0] ^ r[9]);
    assert_eq!(r[11], r[0] ^ r[13]);
    assert_eq!(p.head_code(), r[10]);
    assert_eq!(p.raw_code(), r[11]);
}

#[test]
fn pack_bad_head_code() {
    let p = pack::Package::with_params(1, 1, b"abc");
    let mut bytes = p.raw().to_vec();
    bytes[10] ^= 1;
    let mut q = pack::Package::new();
    assert!(matches!(q.from_bytes(&bytes), Err(Error::PackHeadInvalid)));
}

#[test]
fn pack_bad_raw_code() {
    let p = pack::Package::with_params(1, 1, b"abc");
    let mut bytes = p.raw().to_vec();
    bytes[11] ^= 1;
    let mut q = pack::Package::new();
    assert!(matches!(q.from_bytes(&bytes), Err(Error::PackageInvalid)));
}

#[test]
fn packet_exact_bytes() {
    let p = Packet::with(0x0102, 0x06050403, b"z");
    let r = p.raw();
    assert_eq!(r.len(), 13);
    assert_eq!(&r[2..12], &[0x02, 0x01, 0x03, 0x04, 0x05, 0x06, 13, 0, 0, 0]);
    assert_eq!(r[0], r[2] ^ r[11]);
    assert_eq!(r[1], r[2] ^ r[12]);
    assert!(p.valid());
}

#[test]
fn packet_with_zero_id_is_not_valid() {
    assert!(!Packet::with(0, 1, b"a").valid());
    assert!(!Packet::with(1, 0, b"a").valid());
}

#[test]
fn builder_packet_split_over_two_buffers() {
    let p = Packet::with(4, 9, b"split me");
    let bytes = p.raw().to_vec();
    for j in 1..bytes.len() {
        let mut b = Builder::new();
        assert!(b.parse(&bytes[..j]).unwrap().is_none());
        let (q, more) = b.parse(&bytes[j..]).unwrap().unwrap();
        assert!(!more);
        assert_eq!(q.raw(), &bytes[..]);
        assert_eq!(q.idempotent(), 9);
    }
}

#[test]
fn builder_rejects_zero_id() {
    let p = Packet::with(0, 1, b"a");
    let mut b = Builder::new();
    assert!(matches!(b.parse(p.raw()), Err(Error::PackHeadInvalid)));
}

#[test]
fn builder_rejects_bad_raw_code() {
    let p = Packet::with(1, 1, b"abc");
    let mut bytes = p.raw().to_vec();
    bytes[1] ^= 1;
    let mut b = Builder::new();
    assert!(matches!(b.parse(&bytes), Err(Error::PacketInvalid)));
}

#[test]
fn builder_nothing_left_after_last_packet() {
    let p = Packet::with(1, 1, b"abc");
    let mut b = Builder::new();
    let (_, more) = b.parse(p.raw()).unwrap().unwrap();
    assert!(!more);
    // The position went back to the start: the same buffer reads again.
    let (q, _) = b.parse(p.raw()).unwrap().unwrap();
    assert_eq!(q.idempotent(), 1);
}

#[test]
fn packet_new_then_setup_is_valid() {
    let mut pkt = Packet::new();
    assert_eq!(pkt.raw().len(), 0);
    pkt.set_id(1);
    pkt.set_idempotent(1);
    pkt.set_data(b"Hello");
    assert_eq!(pkt.raw_len(), 17);
    assert!(!pkt.valid());
    pkt.setup();
    assert!(pkt.valid());
    assert_eq!(pkt.data(), b"Hello");
}

#[test]
fn packet_changed_field_needs_setup() {
    let mut pkt = Packet::with(1, 1, b"Hello");
    assert!(pkt.valid());
    pkt.set_id(2);
    assert!(!pkt.valid());
    pkt.setup();
    assert!(pkt.valid());
    assert_eq!(pkt.id(), 2);
}

#[test]
fn packet_from_raw_bytes() {
    let p = Packet::with(3, 4, b"body");
    let q = Packet::from_slice(p.raw());
    assert!(q.valid());
    assert_eq!(q.raw(), p.raw());
    let r = Packet::from_vec(p.raw().to_vec());
    assert_eq!(r.id(), 3);
    assert_eq!(r.idempotent(), 4);
}

#[test]
fn builder_reads_a_stream_of_packets_in_order() {
    let mut buf = Vec::new();
    for i in 1..=3u32 {
        buf.extend_from_slice(Packet::with(1, i, b"x").raw());
    }
    let mut b = Builder::new();
    let mut seen = Vec::new();
    loop {
        match b.parse(&buf).unwrap() {
            None => break,
            Some((p, more)) => {
                seen.push(p.idempotent());
                if !more {
                    break;
                }
            }
        }
    }
    assert_eq!(seen, vec![1, 2, 3]);
}

#[test]
fn pack_checked_package_reads_back() {
    let mut p = pack::Package::new();
    p.set_package_id(3);
    p.set_idempotent(9);
    p.set_data(b"payload");
    p.check();
    assert!(p.valid());
    let mut out = bytes::BytesMut::new();
    p.to_bytes(&mut out);
    assert_eq!(out.len(), 19);
    let mut q = pack::Package::new();
    assert_eq!(q.from_bytes(&out).unwrap(), 19);
    assert!(q.valid());
    assert_eq!(q.raw(), p.raw());
}

#[test]
fn packet_shorter_than_head_is_not_valid() {
    assert!(!Packet::new().valid());
    // Eleven bytes: a raw_len field cannot even be complete.
    let short = Packet::from_slice(&[0u8; 11]);
    assert!(!short.valid());
}

#[test]
fn pack_to_bytes_mut_holds_filled_part() {
    let p = pack::Package::with_params(2, 3, b"abc");
    let b = p.to_bytes_mut();
    assert_eq!(&b[..], p.raw());
    assert_eq!(b.len(), 15);
}

#[test]
fn comp_head_setter_run_keeps_widths() {
    let mut h = Head::with_params(0x1FF, 0x1_0000, 0x1_0000_0000, 0x1_0000);
    h.set_pid(3);
    h.set_idempotent(0x200);
    h.set_router_id(0);
    h.set_data_len(7);
    assert_eq!(h.flag_pid(), 1);
    assert_eq!(h.flag_idempotent(), 2);
    assert_eq!(h.flag_router_id(), 0);
    assert_eq!(h.flag_data_len(), 1);
    assert_eq!(h.size(), 1 + 1 + 2 + 0 + 1);
}
