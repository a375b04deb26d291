//! One peer's connection: the reliable channel, the unreliable buffer and
//! last-activity bookkeeping.
//!
//! Data datagrams carry a one-byte channel marker: `RELIABLE` before a
//! header-prefixed channel datagram, `UNRELIABLE` before a plain buffered
//! payload.

use vstd::prelude::*;

verus! {

use crate::connection::Addr;
use crate::udp_sock::{FailReason, RELIABLE, UNRELIABLE};
use crate::udp_reliable::{
    UdpReliable, ChannelView, ReliableHeader, header_of, header_bits, need_ack,
    next_seq, window_step, keep_unacked, hist_update, sat_inc, parsed_header, retrans_out,
    retrans_due, write_header, payloads_of,
};
use crate::bitbuf::BitBuf;
use crate::bits::bytes_bits;

/// The abstract state of a peer connection.
#[verifier::ext_equal]
pub struct ConnView {
    pub addr: Addr,
    pub last_recv_time: u32,
    /// Whether the peer initiated the connection (counts against the
    /// inbound-connection limit).
    pub inbound: bool,
    pub channel: ChannelView,
    /// The unreliable datagram under construction, marker byte included;
    /// empty when nothing is queued.
    pub unreliable: Seq<u8>,
}

struct UdpUnreliable {
    write_buff: Vec<u8>,
}

pub struct UdpConn {
    address: Addr,
    unreliable: UdpUnreliable,
    reliable: UdpReliable,
    last_recv_time: u32,
    inbound: bool,
}

impl View for UdpConn {
    type V = ConnView;

    closed spec fn view(&self) -> ConnView {
        ConnView {
            addr: self.address,
            last_recv_time: self.last_recv_time,
            inbound: self.inbound,
            channel: self.reliable@,
            unreliable: self.unreliable.write_buff@,
        }
    }
}

/// Whether a connection has been silent longer than the timeout.
pub open spec fn conn_timed_out(v: ConnView, now: u32, timeout: u32) -> bool {
    now >= v.last_recv_time && now - v.last_recv_time > timeout
}

/// Each released payload framed with the reliable channel marker.
pub open spec fn framed(s: Seq<Seq<u8>>) -> Seq<Seq<u8>> {
    s.map_values(|p: Seq<u8>| seq![RELIABLE] + p)
}

impl UdpConn {
    /// Connection well-formedness: a sound channel and a marker-led
    /// unreliable buffer within the MTU.
    pub open spec fn wf(&self) -> bool {
        &&& self.ch_wf()
        &&& (self@.unreliable.len() == 0 || (1 <= self@.unreliable.len() <= 1400
            && self@.unreliable[0] == UNRELIABLE))
    }

    /// The channel's own well-formedness, tied to the private field.
    pub closed spec fn ch_wf(&self) -> bool {
        self.reliable.wf()
    }

    /// A fresh connection to `adr`, last heard from now.
    pub fn new(adr: Addr, curr_time: u32) -> (r: UdpConn)
        ensures
            r.wf(),
            r@.addr == adr,
            r@.last_recv_time == curr_time,
            r@.inbound == false,
            r@.unreliable == Seq::<u8>::empty(),
            r@.channel.buffered == Seq::<bool>::empty(),
            r@.channel.unacked == Seq::<(u16, u32, Seq<u8>)>::empty(),
            r@.channel.local_seq == 1,
            r@.channel.recv_since_last_send == 0,
    {
        UdpConn {
            address: adr,
            unreliable: UdpUnreliable { write_buff: Vec::new() },
            reliable: UdpReliable::new(),
            last_recv_time: curr_time,
            inbound: false,
        }
    }

    /// Records that the peer initiated this connection.
    pub fn mark_inbound(&mut self)
        requires
            old(self).wf(),
        ensures
            final(self).wf(),
            final(self)@ == (ConnView { inbound: true, ..old(self)@ }),
    {
        self.inbound = true;
    }

    /// The peer's address.
    pub fn address(&self) -> (r: Addr)
        ensures
            r == self@.addr,
    {
        self.address
    }

    /// Whether the peer initiated this connection.
    pub fn is_inbound(&self) -> (r: bool)
        ensures
            r == self@.inbound,
    {
        self.inbound
    }

    /// Whether a reliable datagram is under construction.
    pub fn reliable_data_queued(&self) -> (r: bool)
        requires
            self.wf(),
        ensures
            r == (self@.channel.buffered.len() != 0),
    {
        self.reliable.has_data()
    }

    /// Whether an unreliable datagram is under construction.
    pub fn unreliable_data_queued(&self) -> (r: bool)
        requires
            self.wf(),
        ensures
            r == (self@.unreliable.len() != 0),
    {
        self.unreliable.write_buff.len() != 0
    }

    /// Whether this connection has been silent past the timeout.
    pub fn timed_out(&self, curr_time: u32, timeout: u32) -> (r: bool)
        requires
            self.wf(),
        ensures
            r == conn_timed_out(self@, curr_time, timeout),
    {
        curr_time >= self.last_recv_time && curr_time - self.last_recv_time > timeout
    }

    /// Queues bytes for reliable delivery; when the current channel
    /// datagram has no room, it is returned, framed and ready to send.
    /// Fails with `Overflow` only when a flush is needed but the
    /// retransmission window is full: the connection is then unrecoverable.
    pub fn queue_or_send_reliable(&mut self, data: &Vec<u8>, curr_time: u32) -> (r: Result<
        Option<Vec<u8>>,
        FailReason,
    >)
        requires
            old(self).wf(),
            data@.len() <= 1385,
        ensures
            final(self).wf(),
            final(self)@.addr == old(self)@.addr,
            final(self)@.last_recv_time == old(self)@.last_recv_time,
            final(self)@.inbound == old(self)@.inbound,
            final(self)@.unreliable == old(self)@.unreliable,
            old(self)@.channel.buffered.len() == 0 ==> (r matches Ok(o) && o is None && final(self)@.channel == (ChannelView {
                buffered: header_bits(header_of(old(self)@.channel, curr_time)) + bytes_bits(data@),
                ..old(self)@.channel
            })),
            old(self)@.channel.buffered.len() != 0 && old(self)@.channel.buffered.len() + 8
                * data@.len() <= 11192 ==> (r matches Ok(o) && o is None && final(self)@.channel
                == (ChannelView {
                buffered: old(self)@.channel.buffered + bytes_bits(data@),
                ..old(self)@.channel
            })),
            old(self)@.channel.buffered.len() + 8 * data@.len() > 11192 && old(self)@.channel.unacked.len() < 64 ==> (r matches Ok(o) && o matches Some(sent)
                && sent@.len() == old(self)@.channel.buffered.len() / 8 + 1 && sent@[0] == RELIABLE
                && bytes_bits(sent@.skip(1)) == old(self)@.channel.buffered && final(self)@.channel
                == (ChannelView {
                local_seq: next_seq(old(self)@.channel.local_seq),
                recv_since_last_send: 0,
                last_send_time: curr_time,
                unacked: old(self)@.channel.unacked.push(
                    (old(self)@.channel.local_seq, curr_time, sent@.skip(1)),
                ),
                buffered: header_bits(
                    header_of(
                        ChannelView {
                            local_seq: next_seq(old(self)@.channel.local_seq),
                            recv_since_last_send: 0,
                            last_send_time: curr_time,
                            ..old(self)@.channel
                        },
                        curr_time,
                    ),
                ) + bytes_bits(data@),
                ..old(self)@.channel
            })),
            old(self)@.channel.buffered.len() + 8 * data@.len() > 11192 && old(self)@.channel.unacked.len() >= 64 ==> r == Err::<Option<Vec<u8>>, FailReason>(
                FailReason::Overflow,
            ) && *final(self) == *old(self),
    {
        match self.reliable.write(data, curr_time) {
            Ok(None) => Ok(None),
            Ok(Some(sent)) => Ok(Some(frame(sent, RELIABLE))),
            Err(_) => Err(FailReason::Overflow),
        }
    }

    /// Queues bytes for unreliable delivery; when the current buffer has no
    /// room, it is returned ready to send and a fresh buffer takes the
    /// bytes.
    pub fn queue_or_send_unreliable(&mut self, data: &Vec<u8>, curr_time: u32) -> (r: Option<
        Vec<u8>,
    >)
        requires
            old(self).wf(),
            data@.len() <= 1399,
        ensures
            final(self).wf(),
            final(self)@.addr == old(self)@.addr,
            final(self)@.last_recv_time == old(self)@.last_recv_time,
            final(self)@.inbound == old(self)@.inbound,
            final(self)@.channel == old(self)@.channel,
            old(self)@.unreliable.len() == 0 ==> r is None && final(self)@.unreliable == seq![
                UNRELIABLE,
            ] + data@,
            old(self)@.unreliable.len() != 0 && old(self)@.unreliable.len() + data@.len() <= 1400
                ==> r is None && final(self)@.unreliable == old(self)@.unreliable + data@,
            old(self)@.unreliable.len() != 0 && old(self)@.unreliable.len() + data@.len() > 1400
                ==> (r matches Some(sent) && sent@ == old(self)@.unreliable && final(self)@.unreliable == seq![UNRELIABLE] + data@),
    {
        if self.unreliable.write_buff.len() == 0 {
            let mut fresh: Vec<u8> = Vec::new();
            fresh.push(UNRELIABLE);
            append_bytes(&mut fresh, data);
            proof {
                assert(fresh@ =~= seq![UNRELIABLE] + data@);
            }
            self.unreliable.write_buff = fresh;
            None
        } else if data.len() <= 1400 - self.unreliable.write_buff.len() {
            append_bytes(&mut self.unreliable.write_buff, data);
            None
        } else {
            let mut fresh: Vec<u8> = Vec::new();
            fresh.push(UNRELIABLE);
            append_bytes(&mut fresh, data);
            proof {
                assert(fresh@ =~= seq![UNRELIABLE] + data@);
            }
            let sent = copy_vec(&self.unreliable.write_buff);
            self.unreliable.write_buff = fresh;
            Some(sent)
        }
    }

    /// Runs an inbound reliable datagram (marker byte included) through the
    /// channel and returns the payloads released in order.
    pub fn try_receive_reliable(&mut self, data: &Vec<u8>, curr_time: u32) -> (r: Result<
        Vec<Vec<u8>>,
        FailReason,
    >)
        requires
            old(self).wf(),
            data@.len() >= 1,
        ensures
            final(self).wf(),
            data@.len() < 15 || data@.len() > 1401 ==> r == Err::<Vec<Vec<u8>>, FailReason>(
                FailReason::Malformed,
            ) && *final(self) == *old(self),
            15 <= data@.len() <= 1401 ==> (r matches Ok(out) && {
                let h = parsed_header(data@.skip(1));
                let (wout, wwin, wlast) = window_step(
                    old(self)@.channel.window,
                    old(self)@.channel.last_remote_seq,
                    h.obj_seq,
                    data@.skip(15),
                );
                &&& final(self)@ == (ConnView {
                    last_recv_time: curr_time,
                    channel: ChannelView {
                        unacked: keep_unacked(old(self)@.channel.unacked, h.ack_seq, h.ack_hist),
                        newest_remote_seq: hist_update(
                            old(self)@.channel.newest_remote_seq,
                            old(self)@.channel.ack_hist,
                            h.obj_seq,
                        ).0,
                        ack_hist: hist_update(
                            old(self)@.channel.newest_remote_seq,
                            old(self)@.channel.ack_hist,
                            h.obj_seq,
                        ).1,
                        recv_since_last_send: if data@.len() > 15 {
                            sat_inc(old(self)@.channel.recv_since_last_send)
                        } else {
                            old(self)@.channel.recv_since_last_send
                        },
                        last_recv_time: curr_time,
                        window: wwin,
                        last_remote_seq: wlast,
                        ..old(self)@.channel
                    },
                    ..old(self)@
                })
                &&& payloads_of(out@) == wout
            }),
    {
        let rest = tail_bytes(data);
        let got = self.reliable.receive(&rest, curr_time);
        match got {
            Ok(out) => {
                self.last_recv_time = curr_time;
                proof {
                    assert(data@.skip(1).skip(14) =~= data@.skip(15));
                }
                Ok(out)
            },
            Err(_) => Err(FailReason::Malformed),
        }
    }

    /// Takes the payload of an inbound unreliable datagram (marker byte
    /// included) and refreshes the last-activity time.
    pub fn try_receive_unreliable(&mut self, data: &Vec<u8>, curr_time: u32) -> (r: Vec<u8>)
        requires
            old(self).wf(),
            data@.len() >= 1,
        ensures
            final(self).wf(),
            r@ == data@.skip(1),
            final(self)@ == (ConnView { last_recv_time: curr_time, ..old(self)@ }),
    {
        let rest = tail_bytes(data);
        self.last_recv_time = curr_time;
        rest
    }

    /// If a reliable datagram is ready or an acknowledgment is due, returns
    /// the framed datagram to send. Fails with `Overflow` only when the
    /// retransmission window is full.
    pub fn try_get_reliable_buff(&mut self, curr_time: u32) -> (r: Result<
        Option<Vec<u8>>,
        FailReason,
    >)
        requires
            old(self).wf(),
        ensures
            final(self).wf(),
            final(self)@.addr == old(self)@.addr,
            final(self)@.last_recv_time == old(self)@.last_recv_time,
            final(self)@.inbound == old(self)@.inbound,
            final(self)@.unreliable == old(self)@.unreliable,
            old(self)@.channel.buffered.len() != 0 && old(self)@.channel.unacked.len() < 64 ==> (
            r matches Ok(o) && o matches Some(sent) && sent@.len() == old(
                self,
            )@.channel.buffered.len() / 8 + 1 && sent@[0] == RELIABLE && bytes_bits(
                sent@.skip(1),
            ) == old(self)@.channel.buffered && final(self)@.channel == (ChannelView {
                local_seq: next_seq(old(self)@.channel.local_seq),
                recv_since_last_send: 0,
                last_send_time: curr_time,
                unacked: old(self)@.channel.unacked.push(
                    (old(self)@.channel.local_seq, curr_time, sent@.skip(1)),
                ),
                buffered: Seq::<bool>::empty(),
                ..old(self)@.channel
            })),
            old(self)@.channel.buffered.len() != 0 && old(self)@.channel.unacked.len() >= 64 ==> r
                == Err::<Option<Vec<u8>>, FailReason>(FailReason::Overflow) && *final(self) == *old(self),
            old(self)@.channel.buffered.len() == 0 && need_ack(old(self)@.channel, curr_time) ==> (
            r matches Ok(o) && o matches Some(sent) && sent@.len() == 15 && sent@[0] == RELIABLE
                && bytes_bits(sent@.skip(1)) == header_bits(
                header_of(old(self)@.channel, curr_time),
            ) && final(self)@.channel == (ChannelView {
                last_send_time: curr_time,
                recv_since_last_send: 0,
                ..old(self)@.channel
            })),
            old(self)@.channel.buffered.len() == 0 && !need_ack(old(self)@.channel, curr_time)
                ==> (r matches Ok(o) && o is None && *final(self) == *old(self)),
    {
        if self.reliable.has_data() {
            match self.reliable.get_buf_for_sending(curr_time) {
                Ok(Some(sent)) => Ok(Some(frame(sent, RELIABLE))),
                Ok(None) => Ok(None),
                Err(_) => Err(FailReason::Overflow),
            }
        } else {
            match self.reliable.get_ack(curr_time) {
                Some(h) => {
                    let bytes = header_only_datagram(&h);
                    Ok(Some(frame(bytes, RELIABLE)))
                },
                None => Ok(None),
            }
        }
    }

    /// If an unreliable datagram is under construction, hands it out for
    /// sending.
    pub fn try_get_unreliable_buff(&mut self, curr_time: u32) -> (r: Option<Vec<u8>>)
        requires
            old(self).wf(),
        ensures
            final(self).wf(),
            old(self)@.unreliable.len() == 0 ==> r is None && *final(self) == *old(self),
            old(self)@.unreliable.len() != 0 ==> (r matches Some(sent) && sent@ == old(self)@.unreliable && final(self)@ == (ConnView {
                unreliable: Seq::<u8>::empty(),
                ..old(self)@
            })),
    {
        if self.unreliable.write_buff.len() == 0 {
            None
        } else {
            let sent = copy_vec(&self.unreliable.write_buff);
            self.unreliable.write_buff = Vec::new();
            Some(sent)
        }
    }

    /// Every unacknowledged channel datagram due for another send, framed
    /// and stamped as retransmitted now.
    pub fn due_retransmissions(&mut self, now: u32) -> (out: Vec<Vec<u8>>)
        requires
            old(self).wf(),
        ensures
            final(self).wf(),
            final(self)@.addr == old(self)@.addr,
            final(self)@.last_recv_time == old(self)@.last_recv_time,
            final(self)@.inbound == old(self)@.inbound,
            final(self)@.unreliable == old(self)@.unreliable,
            final(self)@.channel == (ChannelView {
                unacked: Seq::new(
                    old(self)@.channel.unacked.len(),
                    |i: int|
                        if retrans_due(old(self)@.channel.unacked[i], now) {
                            (
                                old(self)@.channel.unacked[i].0,
                                now,
                                old(self)@.channel.unacked[i].2,
                            )
                        } else {
                            old(self)@.channel.unacked[i]
                        },
                ),
                ..old(self)@.channel
            }),
            payloads_of(out@) == framed(retrans_out(old(self)@.channel.unacked, now)),
    {
        let raw = self.reliable.due_retransmissions(now);
        frame_all(raw)
    }
}

/// A datagram prefixed with its channel marker byte.
fn frame(bytes: Vec<u8>, marker: u8) -> (r: Vec<u8>)
    ensures
        r@ == seq![marker] + bytes@,
        r@.len() == bytes@.len() + 1,
        r@.skip(1) == bytes@,
{
    let ghost b0 = bytes@;
    let mut r = bytes;
    r.insert(0, marker);
    proof {
        assert(r@ =~= seq![marker] + b0);
        assert(r@.skip(1) =~= b0);
    }
    r
}

/// Every datagram of a batch framed with the reliable marker.
fn frame_all(raw: Vec<Vec<u8>>) -> (r: Vec<Vec<u8>>)
    ensures
        payloads_of(r@) == framed(payloads_of(raw@)),
{
    let mut r: Vec<Vec<u8>> = Vec::new();
    let ghost r0 = raw@;
    let mut raw = raw;
    let mut k: usize = 0;
    proof {
        assert(payloads_of(r@) =~= framed(payloads_of(r0)).subrange(0, 0));
    }
    while k < raw.len()
        invariant
            k <= raw@.len(),
            raw@ == r0,
            r@.len() == k,
            payloads_of(r@) == framed(payloads_of(r0)).subrange(0, k as int),
        decreases raw@.len() - k,
    {
        let d = copy_vec(&raw[k]);
        let f = frame(d, RELIABLE);
        let ghost rprev = r@;
        r.push(f);
        proof {
            assert(payloads_of(r@) =~= framed(payloads_of(r0)).subrange(0, k as int + 1));
        }
        k = k + 1;
    }
    proof {
        assert(framed(payloads_of(r0)).subrange(0, r0.len() as int) =~= framed(payloads_of(r0)));
    }
    r
}

/// A fresh vector with the same bytes.
pub(crate) fn copy_vec(data: &Vec<u8>) -> (r: Vec<u8>)
    ensures
        r@ == data@,
{
    let mut out: Vec<u8> = Vec::new();
    let mut k: usize = 0;
    while k < data.len()
        invariant
            k <= data@.len(),
            out@ == data@.subrange(0, k as int),
        decreases data@.len() - k,
    {
        out.push(data[k]);
        proof {
            assert(out@ =~= data@.subrange(0, k + 1));
        }
        k = k + 1;
    }
    proof {
        assert(out@ =~= data@);
    }
    out
}

/// Everything after the first byte of a datagram.
fn tail_bytes(data: &Vec<u8>) -> (r: Vec<u8>)
    requires
        data@.len() >= 1,
    ensures
        r@ == data@.skip(1),
{
    let mut out: Vec<u8> = Vec::new();
    let mut k: usize = 1;
    while k < data.len()
        invariant
            1 <= k <= data@.len(),
            out@ == data@.subrange(1, k as int),
        decreases data@.len() - k,
    {
        out.push(data[k]);
        proof {
            assert(out@ =~= data@.subrange(1, k + 1));
        }
        k = k + 1;
    }
    proof {
        assert(out@ =~= data@.skip(1));
    }
    out
}

/// Appends all of `data` to `dst`.
fn append_bytes(dst: &mut Vec<u8>, data: &Vec<u8>)
    requires
        old(dst)@.len() + data@.len() <= usize::MAX,
    ensures
        final(dst)@ == old(dst)@ + data@,
{
    let mut k: usize = 0;
    while k < data.len()
        invariant
            k <= data@.len(),
            dst@ == old(dst)@ + data@.subrange(0, k as int),
        decreases data@.len() - k,
    {
        dst.push(data[k]);
        proof {
            assert(dst@ =~= old(dst)@ + data@.subrange(0, k + 1));
        }
        k = k + 1;
    }
    proof {
        assert(old(dst)@ + data@.subrange(0, data@.len() as int) =~= old(dst)@ + data@);
    }
}

/// A header-only channel datagram: exactly the 14 wire bytes of `h`.
fn header_only_datagram(h: &ReliableHeader) -> (r: Vec<u8>)
    ensures
        r@.len() == 14,
        bytes_bits(r@) == header_bits(*h),
{
    let mut b = BitBuf::with_len(14);
    let w = write_header(h, &mut b);
    let bytes = b.to_bytes();
    proof {
        crate::udp_reliable::lemma_header_bits_len(*h);
        assert(bytes_bits(bytes@) =~= header_bits(*h));
    }
    bytes
}

} // verus!
