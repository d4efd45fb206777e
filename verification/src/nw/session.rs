//! What a connection keeps of the stream that it reads: the packet builder,
//! the idempotent of the last packet processed and the sequence counters,
//! and the decisions of the read loop.
//!
//! A packet is processed only when its idempotent is greater than that of
//! the last packet processed on the connection; any other is skipped, so a
//! repeated or older packet is never processed twice.

use crate::g::{Error, Result};
use crate::nw::packet::{builder_step, idempotent_of, Builder, BuilderView, Packet, HEAD_SIZE};
use vstd::prelude::*;

verus! {

/// Whether a packet with `idempotent` is processed after one with `last`.
pub open spec fn admits(last: u32, idempotent: nat) -> bool {
    idempotent > last
}

/// A session as plain values.
pub struct SessionView {
    pub idempotent: u32,
    pub send_seq: u32,
    pub recv_seq: u32,
    pub builder: BuilderView,
}

/// What the read loop does next with the buffer it read.
pub enum ReadStep {
    /// The buffer holds no further complete packet: read again.
    NeedMore,
    /// Process this packet, then set the session's idempotent to its own;
    /// the flag tells whether bytes of the buffer are left.
    Process(Packet, bool),
    /// The packet repeats an idempotent already processed: skip it; the
    /// flag tells whether bytes of the buffer are left.
    Skip(bool),
}

/// The connection state that the read and write loops share.
pub struct Session {
    idempotent: u32,
    send_seq: u32,
    recv_seq: u32,
    builder: Builder,
}

impl View for Session {
    type V = SessionView;

    closed spec fn view(&self) -> SessionView {
        SessionView {
            idempotent: self.idempotent,
            send_seq: self.send_seq,
            recv_seq: self.recv_seq,
            builder: self.builder@,
        }
    }
}

impl Session {
    /// The builder is well formed.
    pub closed spec fn wf(&self) -> bool {
        self.builder.wf()
    }

    /// A fresh session: counters at zero, no packet begun.
    pub fn new() -> (s: Session)
        ensures
            s.wf(),
            s@ == (SessionView {
                idempotent: 0,
                send_seq: 0,
                recv_seq: 0,
                builder: BuilderView { current: None, pos: 0 },
            }),
    {
        Session { idempotent: 0, send_seq: 0, recv_seq: 0, builder: Builder::new() }
    }

    /// Makes the session fresh again for another connection: counters at
    /// zero and the builder reset.
    pub fn reset(&mut self)
        requires
            old(self).wf(),
        ensures
            final(self).wf(),
            final(self)@.idempotent == 0,
            final(self)@.send_seq == 0,
            final(self)@.recv_seq == 0,
            final(self)@.builder.pos == 0,
            final(self)@.builder.current == match old(self)@.builder.current {
                Some(c) => Some(Seq::<u8>::empty()),
                None => None::<Seq<u8>>,
            },
    {
        self.idempotent = 0;
        self.send_seq = 0;
        self.recv_seq = 0;
        self.builder.reset();
    }

    /// The idempotent of the last packet processed.
    pub fn idempotent(&self) -> (i: u32)
        ensures
            i == self@.idempotent,
    {
        self.idempotent
    }

    /// Records the idempotent of the packet just processed.
    pub fn set_idempotent(&mut self, idempotent: u32)
        ensures
            final(self).wf() == old(self).wf(),
            final(self)@ == (SessionView { idempotent, ..old(self)@ }),
    {
        self.idempotent = idempotent;
    }

    /// The number of packets sent.
    pub fn send_seq(&self) -> (n: u32)
        ensures
            n == self@.send_seq,
    {
        self.send_seq
    }

    /// Counts one more packet sent.
    pub fn send_seq_incr(&mut self)
        requires
            old(self)@.send_seq < u32::MAX,
        ensures
            final(self).wf() == old(self).wf(),
            final(self)@ == (SessionView { send_seq: (old(self)@.send_seq + 1) as u32, ..old(self)@ }),
    {
        self.send_seq = self.send_seq + 1;
    }

    /// The number of packets received for processing.
    pub fn recv_seq(&self) -> (n: u32)
        ensures
            n == self@.recv_seq,
    {
        self.recv_seq
    }

    /// Counts one more packet received for processing.
    pub fn recv_seq_incr(&mut self)
        requires
            old(self)@.recv_seq < u32::MAX,
        ensures
            final(self).wf() == old(self).wf(),
            final(self)@ == (SessionView { recv_seq: (old(self)@.recv_seq + 1) as u32, ..old(self)@ }),
    {
        self.recv_seq = self.recv_seq + 1;
    }

    /// Decides whether a packet with `idempotent` is processed: when it is,
    /// the packet is counted as received.
    pub fn accept_packet(&mut self, idempotent: u32) -> (b: bool)
        requires
            admits(old(self)@.idempotent, idempotent as nat) ==> old(self)@.recv_seq < u32::MAX,
        ensures
            b == admits(old(self)@.idempotent, idempotent as nat),
            final(self).wf() == old(self).wf(),
            final(self)@ == if b {
                SessionView { recv_seq: (old(self)@.recv_seq + 1) as u32, ..old(self)@ }
            } else {
                old(self)@
            },
    {
        if idempotent > self.idempotent {
            self.recv_seq_incr();
            true
        } else {
            false
        }
    }

    /// One turn of the read loop on `buf`, the bytes that the last read
    /// delivered: reads the next packet with the builder (see
    /// `builder_step`) and decides what becomes of it.
    ///
    /// An error of the builder is returned as it is. A packet is to be
    /// processed when the session admits its idempotent, and is then
    /// counted as received; otherwise it is skipped.
    pub fn step(&mut self, buf: &[u8]) -> (r: Result<ReadStep>)
        requires
            old(self).wf(),
            buf@.len() > 0,
            old(self)@.recv_seq < u32::MAX,
        ensures
            final(self).wf(),
            final(self)@.builder == builder_step(old(self)@.builder, buf@).1,
            final(self)@.idempotent == old(self)@.idempotent,
            final(self)@.send_seq == old(self)@.send_seq,
            match builder_step(old(self)@.builder, buf@).0 {
                Err(e) => r == Err::<ReadStep, Error>(e) && final(self)@.recv_seq
                    == old(self)@.recv_seq,
                Ok(None) => r matches Ok(ReadStep::NeedMore) && final(self)@.recv_seq
                    == old(self)@.recv_seq,
                Ok(Some((raw, more))) => if admits(old(self)@.idempotent, idempotent_of(raw)) {
                    &&& r matches Ok(ReadStep::Process(p, m))
                    &&& p.wf()
                    &&& p@.raw() == raw
                    &&& m == more
                    &&& final(self)@.recv_seq == old(self)@.recv_seq + 1
                } else {
                    &&& r == Ok::<ReadStep, Error>(ReadStep::Skip(more))
                    &&& final(self)@.recv_seq == old(self)@.recv_seq
                },
            },
            match builder_step(old(self)@.builder, buf@).0 {
                Ok(Some((raw, more))) => on_packet(old(self)@, idempotent_of(raw) as u32) == if admits(
                    old(self)@.idempotent,
                    idempotent_of(raw),
                ) {
                    SessionView {
                        idempotent: idempotent_of(raw) as u32,
                        builder: old(self)@.builder,
                        ..final(self)@
                    }
                } else {
                    SessionView { builder: old(self)@.builder, ..final(self)@ }
                },
                _ => true,
            },
    {
        match self.builder.parse(buf) {
            Err(e) => Err(e),
            Ok(None) => Ok(ReadStep::NeedMore),
            Ok(Some((p, more))) => {
                let idem = p.idempotent();
                proof {
                    assert(p@.raw().subrange(4, 8) =~= p@.mem.subrange(4, 8));
                }
                if self.accept_packet(idem) {
                    Ok(ReadStep::Process(p, more))
                } else {
                    Ok(ReadStep::Skip(more))
                }
            },
        }
    }
}

/// What the read loop does to a session for a packet with `idempotent`
/// that the builder delivers: an admitted packet is counted as received
/// and, once processed, its idempotent is recorded (`set_idempotent`); any
/// other packet leaves the session as it is. `Session::step` followed by
/// that recording is this step, the builder aside.
pub open spec fn on_packet(v: SessionView, idempotent: u32) -> SessionView {
    if admits(v.idempotent, idempotent as nat) {
        SessionView { idempotent, recv_seq: (v.recv_seq + 1) as u32, ..v }
    } else {
        v
    }
}

/// The session after the read loop has handled packets with the
/// idempotents `ids`, in order, each admitted one processed with success.
pub open spec fn on_packets(v: SessionView, ids: Seq<u32>) -> SessionView
    decreases ids.len(),
{
    if ids.len() == 0 {
        v
    } else {
        on_packets(on_packet(v, ids[0]), ids.drop_first())
    }
}

/// The greatest of `last` and the values of `ids`.
pub open spec fn max_of(last: u32, ids: Seq<u32>) -> u32
    decreases ids.len(),
{
    if ids.len() == 0 {
        last
    } else {
        max_of(if ids[0] > last { ids[0] } else { last }, ids.drop_first())
    }
}

/// The law of a connection: when packets with the idempotents `ids` reach
/// a session, exactly those of `processed_run` (each above every idempotent
/// before it and the session's own) are processed, in order; the session's
/// idempotent ends at the greatest of them all, it counts one received
/// packet per packet processed, and its send counter is unchanged.
pub proof fn lemma_connection_run(v: SessionView, ids: Seq<u32>)
    requires
        v.recv_seq + ids.len() <= u32::MAX,
    ensures
        on_packets(v, ids).idempotent == max_of(v.idempotent, ids),
        on_packets(v, ids).recv_seq == v.recv_seq + processed_run(v.idempotent, ids).len(),
        on_packets(v, ids).send_seq == v.send_seq,
        on_packets(v, ids).builder == v.builder,
        processed_run(v.idempotent, ids).len() <= ids.len(),
    decreases ids.len(),
{
    if ids.len() > 0 {
        let v1 = on_packet(v, ids[0]);
        lemma_connection_run(v1, ids.drop_first());
        if admits(v.idempotent, ids[0] as nat) {
            assert(processed_run(v.idempotent, ids) == seq![ids[0]] + processed_run(
                ids[0],
                ids.drop_first(),
            ));
        } else {
            assert(processed_run(v.idempotent, ids) == processed_run(v.idempotent, ids.drop_first()));
        }
    }
}

/// The idempotents of the packets processed, in order, when packets with
/// the idempotents `ids` arrive after one with `last` was processed and each
/// admitted packet is processed with success.
pub open spec fn processed_run(last: u32, ids: Seq<u32>) -> Seq<u32>
    decreases ids.len(),
{
    if ids.len() == 0 {
        Seq::empty()
    } else if admits(last, ids[0] as nat) {
        seq![ids[0]] + processed_run(ids[0], ids.drop_first())
    } else {
        processed_run(last, ids.drop_first())
    }
}

/// No packet is processed twice, and none older than one processed: the
/// idempotents processed on a connection strictly increase, and all exceed
/// that of the packet processed before them.
pub proof fn lemma_processed_strictly_increase(last: u32, ids: Seq<u32>)
    ensures
        forall|i: int, j: int|
            0 <= i < j < processed_run(last, ids).len() ==> processed_run(last, ids)[i]
                < processed_run(last, ids)[j],
        forall|i: int|
            0 <= i < processed_run(last, ids).len() ==> last < processed_run(last, ids)[i],
    decreases ids.len(),
{
    if ids.len() > 0 {
        let rest = ids.drop_first();
        if admits(last, ids[0] as nat) {
            lemma_processed_strictly_increase(ids[0], rest);
            let t = processed_run(ids[0], rest);
            let r = seq![ids[0]] + t;
            assert(processed_run(last, ids) == r);
            assert forall|i: int, j: int| 0 <= i < j < r.len() implies r[i] < r[j] by {
                if i == 0 {
                    assert(r[j] == t[j - 1]);
                } else {
                    assert(r[i] == t[i - 1] && r[j] == t[j - 1]);
                }
            }
            assert forall|i: int| 0 <= i < r.len() implies last < r[i] by {
                if i > 0 {
                    assert(r[i] == t[i - 1]);
                    assert(ids[0] < t[i - 1]);
                } else {
                    assert(r[0] == ids[0]);
                }
            }
        } else {
            lemma_processed_strictly_increase(last, rest);
            assert(processed_run(last, ids) == processed_run(last, rest));
        }
    }
}

/// Once a packet is processed and its idempotent recorded, the session
/// skips it and every packet with an idempotent that is not greater.
pub proof fn lemma_processed_then_skipped(v: SessionView, idempotent: u32, later: u32)
    requires
        admits(v.idempotent, idempotent as nat),
        later <= idempotent,
    ensures
        !admits((SessionView { idempotent, ..v }).idempotent, later as nat),
        (SessionView { idempotent, ..v }).idempotent > v.idempotent,
{
}

/// Seconds between two ticks of a connection's read ticker: the read
/// timeout, or an hour when there is none.
pub fn ticker_secs(timeout: u64) -> (s: u64)
    ensures
        s == if timeout == 0 {
            3600
        } else {
            timeout
        },
{
    if timeout == 0 {
        3600
    } else {
        timeout
    }
}

/// What a tick of the read ticker, with no read in between, does: with a
/// read timeout the connection is closed with `IOReadTimeout`; without one
/// nothing happens.
pub fn on_read_tick(timeout: u64) -> (r: Option<Error>)
    ensures
        timeout > 0 ==> r == Some(Error::IOReadTimeout),
        timeout == 0 ==> r is None,
{
    if timeout > 0 {
        Some(Error::IOReadTimeout)
    } else {
        None
    }
}

} // verus!
