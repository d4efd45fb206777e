use tg::g::Error;
use tg::nw::packet::Packet;
use tg::nw::session::{on_read_tick, ticker_secs, ReadStep, Session};

fn stream(ids: &[u32]) -> Vec<u8> {
    let mut buf = Vec::new();
    for &i in ids {
        buf.extend_from_slice(Packet::with(7, i, b"abc").raw());
    }
    buf
}

/// Runs the read loop's decisions over one buffer; returns the idempotents
/// processed and the number of packets skipped.
fn drain(s: &mut Session, buf: &[u8]) -> (Vec<u32>, usize) {
    let mut processed = Vec::new();
    let mut skipped = 0;
    loop {
        match s.step(buf).unwrap() {
            ReadStep::NeedMore => break,
            ReadStep::Process(p, more) => {
                processed.push(p.idempotent());
                s.set_idempotent(p.idempotent());
                if !more {
                    break;
                }
            }
            ReadStep::Skip(more) => {
                skipped += 1;
                if !more {
                    break;
                }
            }
        }
    }
    (processed, skipped)
}

#[test]
fn session_skips_repeated_and_older_packets() {
    let mut s = Session::new();
    let buf = stream(&[1, 2, 2, 1, 5, 3, 6]);
    let (processed, skipped) = drain(&mut s, &buf);
    assert_eq!(processed, vec![1, 2, 5, 6]);
    assert_eq!(skipped, 3);
    assert_eq!(s.idempotent(), 6);
    assert_eq!(s.recv_seq(), 4);
}

#[test]
fn session_processed_packet_is_skipped_when_replayed() {
    let mut s = Session::new();
    let buf = stream(&[9]);
    let (processed, _) = drain(&mut s, &buf);
    assert_eq!(processed, vec![9]);
    let (again, skipped) = drain(&mut s, &buf);
    assert!(again.is_empty());
    assert_eq!(skipped, 1);
    assert_eq!(s.recv_seq(), 1);
}

#[test]
fn session_packet_split_over_reads() {
    let mut s = Session::new();
    let buf = stream(&[3]);
    assert!(matches!(s.step(&buf[..5]).unwrap(), ReadStep::NeedMore));
    match s.step(&buf[5..]).unwrap() {
        ReadStep::Process(p, more) => {
            assert_eq!(p.idempotent(), 3);
            assert_eq!(p.id(), 7);
            assert_eq!(p.data(), b"abc");
            assert!(!more);
        }
        _ => panic!("expected a packet"),
    }
}

#[test]
fn session_reports_invalid_head() {
    let mut s = Session::new();
    let mut buf = stream(&[3]);
    buf[0] ^= 0xff;
    assert!(matches!(s.step(&buf), Err(Error::PackHeadInvalid)));
    assert_eq!(s.recv_seq(), 0);
}

#[test]
fn session_reports_invalid_packet() {
    let mut s = Session::new();
    let mut buf = stream(&[3]);
    buf[1] ^= 0xff;
    assert!(matches!(s.step(&buf), Err(Error::PacketInvalid)));
}

#[test]
fn session_accept_packet_counts() {
    let mut s = Session::new();
    assert!(s.accept_packet(1));
    assert_eq!(s.recv_seq(), 1);
    assert_eq!(s.idempotent(), 0);
    s.set_idempotent(1);
    assert!(!s.accept_packet(1));
    assert!(!s.accept_packet(0));
    assert_eq!(s.recv_seq(), 1);
}

#[test]
fn session_counters_and_reset() {
    let mut s = Session::new();
    s.send_seq_incr();
    s.send_seq_incr();
    s.recv_seq_incr();
    s.set_idempotent(4);
    assert_eq!(s.send_seq(), 2);
    assert_eq!(s.recv_seq(), 1);
    s.reset();
    assert_eq!(s.send_seq(), 0);
    assert_eq!(s.recv_seq(), 0);
    assert_eq!(s.idempotent(), 0);
}

#[test]
fn read_ticker_decisions() {
    assert_eq!(ticker_secs(0), 3600);
    assert_eq!(ticker_secs(60), 60);
    assert!(matches!(on_read_tick(60), Some(Error::IOReadTimeout)));
    assert!(on_read_tick(0).is_none());
}
