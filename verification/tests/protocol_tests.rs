//! Wire-header, channel and session scenarios, driven without any socket:
//! datagrams travel between peers as plain byte vectors.

use udp_simple::bitbuf::BitBuf;
use udp_simple::connection::{Addr, Connection};
use udp_simple::udp_reliable::{
    pad_seq, read_header, trim_seq, write_header, ReliableHeader, UdpReliable,
};
use udp_simple::udp_sock::{FailReason, UdpConfig, UdpEvent, UdpSock, CON_REQ, DENY, DISC};

fn cfg() -> UdpConfig {
    UdpConfig {
        max_connect_retry: 2,
        connect_retry_delay: 100,
        max_inc_conns: 8,
        timeout: 5000,
    }
}

/// Completes a handshake: `a` connects, `b` accepts; both end connected.
fn handshake(a: &mut UdpSock, aa: Addr, b: &mut UdpSock, ba: Addr, now: u32) {
    let req = a.connect(ba, now).unwrap();
    let (evs, reply) = b.poll(aa, &req, now);
    assert!(reply.is_none());
    assert!(matches!(evs[0], UdpEvent::ConnectRequest(x) if x == aa));
    let acc = b.accept(aa, now);
    let (evs2, _) = a.poll(ba, &acc, now);
    assert!(matches!(evs2[0], UdpEvent::Connected(x) if x == ba));
}

#[test]
fn seq_field_transform_round_trips() {
    assert_eq!(pad_seq(0), 1);
    assert_eq!(pad_seq(21931), 2 * 21931 + 1);
    assert_eq!(trim_seq(pad_seq(21931)), 21931);
    assert_eq!(trim_seq(pad_seq(32767)), 32767);
}

#[test]
fn header_round_trip() {
    let h = ReliableHeader {
        obj_seq: 12345,
        ack_seq: 32000,
        ack_hist: 0xF0F0_1234_5678_9ABC,
        ack_time: 777,
        send_time: 42,
    };
    let mut buf = BitBuf::new();
    write_header(&h, &mut buf).unwrap();
    assert_eq!(buf.byte_pos(), 14);
    buf.reset_pos();
    let back = read_header(&mut buf).unwrap();
    assert_eq!(back.obj_seq, h.obj_seq);
    assert_eq!(back.ack_seq, h.ack_seq);
    assert_eq!(back.ack_hist, h.ack_hist);
    assert_eq!(back.ack_time, h.ack_time);
    // The local send stamp never crosses the wire.
    assert_eq!(back.send_time, 0);
}

#[test]
fn local_seq_wraps_at_32768() {
    let mut ch = UdpReliable::new();
    assert_eq!(ch.create_header(0).obj_seq, 1);
    for _ in 0..32768u32 {
        ch.advance_local_seq();
    }
    assert_eq!(ch.create_header(0).obj_seq, 1);
    ch.advance_local_seq();
    assert_eq!(ch.create_header(0).obj_seq, 2);
}

#[test]
fn connection_record_holds_identity() {
    let c = Connection::new(Addr::new(0x7F000001, 9000), 7);
    assert_eq!(c.addr.port, 9000);
    assert_eq!(c.id, 7);
}

#[test]
fn handshake_is_symmetric() {
    let aa = Addr::new(1, 1000);
    let ba = Addr::new(2, 2000);
    let mut a = UdpSock::create(cfg());
    let mut b = UdpSock::create(cfg());
    handshake(&mut a, aa, &mut b, ba, 0);
    assert!(a.connected(&ba));
    assert!(b.connected(&aa));
}

#[test]
fn inbound_limit_denies_excess_requests() {
    let mut b = UdpSock::create(UdpConfig { max_inc_conns: 0, ..cfg() });
    let (evs, reply) = b.poll(Addr::new(9, 9), &vec![CON_REQ], 0);
    assert!(evs.is_empty());
    assert_eq!(reply.unwrap(), vec![DENY]);
}

#[test]
fn retry_exhaustion_fails_once_with_timeout() {
    let ba = Addr::new(2, 2000);
    let mut a = UdpSock::create(cfg());
    let req = a.connect(ba, 0).unwrap();
    assert_eq!(req, vec![CON_REQ]);
    let mut fails = 0;
    let mut resends = 0;
    let mut now = 0;
    for _ in 0..8 {
        now += 101;
        let (evs, outs) = a.update(now);
        resends += outs.len();
        for e in &evs {
            match e {
                UdpEvent::ConnectFail(x, FailReason::Timeout) => {
                    assert_eq!(*x, ba);
                    fails += 1;
                }
                _ => panic!("unexpected event"),
            }
        }
    }
    // Two retries, then exactly one failure and no residual attempt state.
    assert_eq!(resends, 2);
    assert_eq!(fails, 1);
    let (evs, outs) = a.update(now + 1000);
    assert!(evs.is_empty() && outs.is_empty());
    // A fresh connect is possible again.
    assert!(a.connect(ba, now).is_some());
}

#[test]
fn banned_source_is_dropped_before_processing() {
    let aa = Addr::new(1, 1000);
    let ba = Addr::new(2, 2000);
    let mut a = UdpSock::create(cfg());
    let mut b = UdpSock::create(cfg());
    handshake(&mut a, aa, &mut b, ba, 0);
    b.ban(aa);
    assert!(b.banned(&aa));
    // A disconnect signal, a data datagram and a request all vanish.
    for d in [vec![DISC], vec![8u8, 1, 2, 3], vec![CON_REQ]] {
        let (evs, reply) = b.poll(aa, &d, 10);
        assert!(evs.is_empty());
        assert!(reply.is_none());
    }
    // The connection entry itself was not touched by the dropped datagrams.
    assert!(b.connected(&aa));
    b.unban(aa);
    assert!(!b.banned(&aa));
}

#[test]
fn timeout_removes_connection_with_one_event() {
    let aa = Addr::new(1, 1000);
    let ba = Addr::new(2, 2000);
    let mut a = UdpSock::create(cfg());
    let mut b = UdpSock::create(cfg());
    handshake(&mut a, aa, &mut b, ba, 0);
    // Quiet peer: past the 5000 ms timeout the sweep drops it, exactly once.
    let (evs, _) = b.update(6000);
    let disc: Vec<_> = evs
        .iter()
        .filter(|e| matches!(e, UdpEvent::Disconnected(x) if *x == aa))
        .collect();
    assert_eq!(disc.len(), 1);
    assert!(!b.connected(&aa));
    let (evs2, _) = b.update(7000);
    assert!(evs2.is_empty());
}

#[test]
fn reliable_payload_is_delivered() {
    let aa = Addr::new(1, 1000);
    let ba = Addr::new(2, 2000);
    let mut a = UdpSock::create(cfg());
    let mut b = UdpSock::create(cfg());
    handshake(&mut a, aa, &mut b, ba, 0);
    let msg = vec![10u8, 20, 30, 40];
    assert_eq!(a.queue_reliable(ba, &msg, 5).unwrap(), None);
    let (_, outs) = a.update(10);
    let (addr, datagram) = &outs[0];
    assert_eq!(*addr, ba);
    assert_eq!(datagram[0], 8);
    assert_eq!(datagram.len(), 1 + 14 + 4);
    let (evs, _) = b.poll(aa, datagram, 20);
    assert!(matches!(&evs[0], UdpEvent::Received(x, p) if *x == aa && *p == msg));
    // A duplicate of the same datagram is recognized and dropped.
    let (evs2, _) = b.poll(aa, datagram, 25);
    assert!(evs2.is_empty());
}

#[test]
fn retransmission_until_acknowledged() {
    let aa = Addr::new(1, 1000);
    let ba = Addr::new(2, 2000);
    let mut a = UdpSock::create(cfg());
    let mut b = UdpSock::create(cfg());
    handshake(&mut a, aa, &mut b, ba, 0);
    a.queue_reliable(ba, &vec![7u8, 7, 7], 5).unwrap();
    let (_, outs) = a.update(10);
    assert_eq!(outs.len(), 1);
    // Unacknowledged past the retransmission delay: sent again.
    let (_, outs2) = a.update(200);
    assert_eq!(outs2.len(), 1);
    assert_eq!(outs2[0].1, outs[0].1);
    // Deliver to the peer; its forced acknowledgment comes back.
    let (evs, _) = b.poll(aa, &outs[0].1, 210);
    assert_eq!(evs.len(), 1);
    let (_, b_outs) = b.update(300);
    assert_eq!(b_outs.len(), 1);
    let (a_evs, _) = a.poll(ba, &b_outs[0].1, 310);
    assert!(a_evs.is_empty());
    // Acknowledged: nothing left to retransmit.
    let (_, outs3) = a.update(500);
    assert!(outs3.is_empty());
}

#[test]
fn unreliable_payload_is_delivered() {
    let aa = Addr::new(1, 1000);
    let ba = Addr::new(2, 2000);
    let mut a = UdpSock::create(cfg());
    let mut b = UdpSock::create(cfg());
    handshake(&mut a, aa, &mut b, ba, 0);
    let msg = vec![99u8, 98];
    assert_eq!(a.queue_unreliable(ba, &msg, 5).unwrap(), None);
    let (_, outs) = a.update(10);
    assert_eq!(outs.len(), 1);
    assert_eq!(outs[0].1, vec![7u8, 99, 98]);
    let (evs, _) = b.poll(aa, &outs[0].1, 20);
    assert!(matches!(&evs[0], UdpEvent::Received(x, p) if *x == aa && *p == msg));
}

#[test]
fn queue_errors_name_their_reason() {
    let ba = Addr::new(2, 2000);
    let mut a = UdpSock::create(cfg());
    assert_eq!(a.queue_reliable(ba, &vec![1u8], 0), Err(FailReason::NotConnected));
    assert_eq!(a.queue_unreliable(ba, &vec![1u8], 0), Err(FailReason::NotConnected));
    let big = vec![0u8; 1400];
    assert_eq!(a.connect_with_data(ba, &big, 0), Err(FailReason::Overflow));
}

#[test]
fn deny_while_attempting_surfaces_denied() {
    let ba = Addr::new(2, 2000);
    let mut a = UdpSock::create(cfg());
    a.connect(ba, 0).unwrap();
    let (evs, _) = a.poll(ba, &vec![DENY], 5);
    assert!(matches!(evs[0], UdpEvent::ConnectFail(x, FailReason::Denied) if x == ba));
    // A late denial with no attempt left is ignored.
    let (evs2, _) = a.poll(ba, &vec![DENY], 6);
    assert!(evs2.is_empty());
}

#[test]
fn disconnect_signal_is_fire_and_forget() {
    let aa = Addr::new(1, 1000);
    let ba = Addr::new(2, 2000);
    let mut a = UdpSock::create(cfg());
    let mut b = UdpSock::create(cfg());
    handshake(&mut a, aa, &mut b, ba, 0);
    let d = a.disconnect(ba).unwrap();
    assert_eq!(d, vec![DISC]);
    assert!(!a.connected(&ba));
    let (evs, _) = b.poll(aa, &d, 10);
    assert!(matches!(evs[0], UdpEvent::Disconnected(x) if x == aa));
    assert!(!b.connected(&aa));
}

#[test]
fn connect_with_data_carries_payload() {
    let aa = Addr::new(1, 1000);
    let ba = Addr::new(2, 2000);
    let mut a = UdpSock::create(cfg());
    let mut b = UdpSock::create(cfg());
    let req = a.connect_with_data(ba, &vec![42u8, 43], 0).unwrap().unwrap();
    assert_eq!(req, vec![CON_REQ, 42, 43]);
    let (evs, _) = b.poll(aa, &req, 1);
    assert!(matches!(&evs[0], UdpEvent::ConnectRequestData(x, p) if *x == aa && *p == vec![42u8, 43]));
}

#[test]
fn malformed_datagrams_fail_per_datagram() {
    let aa = Addr::new(1, 1000);
    let ba = Addr::new(2, 2000);
    let mut a = UdpSock::create(cfg());
    let mut b = UdpSock::create(cfg());
    handshake(&mut a, aa, &mut b, ba, 0);
    // Unknown channel marker from a connected peer.
    let (evs, _) = b.poll(aa, &vec![9u8, 1, 2], 10);
    assert!(matches!(evs[0], UdpEvent::ReceiveFail(x, FailReason::Malformed) if x == aa));
    // A reliable marker with too few bytes for a header.
    let (evs2, _) = b.poll(aa, &vec![8u8, 1], 11);
    assert!(matches!(evs2[0], UdpEvent::ReceiveFail(x, FailReason::Malformed) if x == aa));
    // A long datagram from a stranger that is no connection request.
    let (evs3, _) = b.poll(Addr::new(5, 5), &vec![77u8, 1, 2], 12);
    assert!(matches!(evs3[0], UdpEvent::ReceiveFail(x, FailReason::Malformed) if x == Addr::new(5, 5)));
    // One bad datagram blocks nothing: the connection still works.
    assert!(b.connected(&aa));
}
