use tg::nw::packet::{Builder, Packet, HEAD_SIZE};

#[test]
fn packet_basic() {
    let data = "Hello world".as_bytes();

    let mut pkt = Packet::default();
    pkt.set(1, 2, data);
    assert!(pkt.valid());

    assert_eq!(pkt.id(), 1);
    assert_eq!(pkt.idempotent(), 2);
    assert_eq!(pkt.raw_len(), HEAD_SIZE + 11);
    assert_eq!(std::str::from_utf8(data).unwrap(), std::str::from_utf8(pkt.data()).unwrap());
    assert_eq!(pkt.raw().len(), pkt.raw_len());
    assert!(pkt.check_hc());
    assert!(pkt.check_rc());
}

#[test]
fn packet_build() {
    let data = "Hello world".as_bytes();
    let mut buf = Vec::<u8>::new();

    for i in 0..100 {
        let pkt = Packet::with(1, i + 1, data);
        assert!(pkt.valid());
        assert_eq!(pkt.id(), 1);
        assert_eq!(pkt.idempotent(), i + 1);
        assert_eq!(pkt.raw_len(), HEAD_SIZE + 11);
        assert_eq!(std::str::from_utf8(data).unwrap(), std::str::from_utf8(pkt.data()).unwrap());
        assert_eq!(pkt.raw().len(), pkt.raw_len());
        assert!(pkt.check_hc());
        assert!(pkt.check_rc());

        buf.extend_from_slice(pkt.raw());
    }

    let mut builder = Builder::new();

    for i in 0..1000 {
        let option_pkt = match builder.parse(&mut buf) {
            Err(err) => panic!("{:?}", err),
            Ok(v) => v,
        };

        let (pkt, next) = match option_pkt {
            None => break,
            Some((pkt, v)) => (pkt, v),
        };

        assert_eq!(pkt.id(), 1);
        assert_eq!(pkt.idempotent(), i + 1);
        assert_eq!(hex::encode(data), hex::encode(pkt.data()));
        assert_eq!(pkt.raw().len(), pkt.raw_len());

        if !next {
            assert_eq!(i, 99);
            break;
        }
    }
}
