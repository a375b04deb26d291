//! The session manager: handshake state machine, connection table, ban
//! list and periodic maintenance.
//!
//! The manager owns no socket and no clock. `poll` takes one already
//! received datagram and classifies it; `update` and the command methods
//! return the datagrams an external driver must send. All times are
//! milliseconds as plain values.

use vstd::prelude::*;

verus! {

use crate::connection::Addr;

/// Signal byte: a connection request.
pub const CON_REQ: u8 = 2;

/// Signal byte: fire-and-forget disconnect.
pub const DISC: u8 = 3;

/// Signal byte: reserved for keepalive probes.
pub const PING: u8 = 4;

/// Signal byte: a connection request was denied.
pub const DENY: u8 = 5;

/// Signal byte: a connection request was accepted.
pub const ACCEPT: u8 = 6;

/// Marker byte framing an unreliable data datagram.
pub const UNRELIABLE: u8 = 7;

/// Marker byte framing a reliable data datagram.
pub const RELIABLE: u8 = 8;

/// The largest datagram the session will construct.
pub const MTU: u16 = 1400;

#[derive(Clone, Copy, PartialEq, Eq, Structural, Debug)]
pub struct UdpConfig {
    /// How many times a connect request is retried before the attempt
    /// fails.
    pub max_connect_retry: u32,
    /// Milliseconds to wait between connect-request retries.
    pub connect_retry_delay: u32,
    /// Most inbound connections accepted at once; excess unsolicited
    /// connection requests are denied. Usually 0 for a client.
    pub max_inc_conns: u32,
    /// Milliseconds of peer silence after which a connection is dropped.
    pub timeout: u32,
}

/// An outbound handshake in progress.
pub struct ConnectAttempt {
    /// The peer being courted.
    pub addr: Addr,
    /// When the request was last sent.
    pub last_attempt: u32,
    /// Retries so far: the initial attempt is 0.
    pub retry_count: u32,
    /// The full connect-request datagram, resent on each retry.
    pub data: Vec<u8>,
}

/// Why an operation or a peer failed.
#[derive(Clone, Copy, PartialEq, Eq, Structural, Debug)]
pub enum FailReason {
    /// Payload or header exceeds a capacity or the MTU.
    Overflow,
    /// Datagram empty, unparseable, or an unexpected signal.
    Malformed,
    /// The operation targets an address with no live connection.
    NotConnected,
    /// An OS-level datagram error, fatal for the whole socket.
    SocketErr,
    /// Peer inactivity or retry exhaustion.
    Timeout,
    /// Rejected by the peer or by local policy.
    Denied,
}

/// What one poll or maintenance step observed.
#[derive(Clone, Debug)]
pub enum UdpEvent {
    /// A connection to this peer is now established.
    Connected(Addr),
    /// The peer disconnected, or timed out locally.
    Disconnected(Addr),
    /// An inbound connection request carrying an attached payload.
    ConnectRequestData(Addr, Vec<u8>),
    /// An inbound connection request.
    ConnectRequest(Addr),
    /// Payload delivered from a connected peer.
    Received(Addr, Vec<u8>),
    /// An outbound connect attempt failed.
    ConnectFail(Addr, FailReason),
    /// A datagram from this peer could not be processed.
    ReceiveFail(Addr, FailReason),
    /// An outgoing operation failed.
    SendFail(FailReason),
    /// Nothing to report.
    Nil,
}

use crate::udp_conn::{UdpConn, ConnView, conn_timed_out, copy_vec};
use crate::udp_reliable::{ChannelView, next_seq, need_ack, header_of, header_bits};
use crate::bits::bytes_bits;

/// The abstract state of an outbound handshake attempt.
#[verifier::ext_equal]
pub struct AttemptView {
    pub addr: Addr,
    pub last_attempt: u32,
    pub retry_count: u32,
    pub data: Seq<u8>,
}

/// Whether some connection in the table belongs to `a`.
pub open spec fn has_conn_in(s: Seq<ConnView>, a: Addr) -> bool {
    exists|i: int| 0 <= i < s.len() && s[i].addr == a
}

/// The index of `a`'s connection in the table.
pub open spec fn idx_of_conn(s: Seq<ConnView>, a: Addr) -> int {
    choose|i: int| 0 <= i < s.len() && s[i].addr == a
}

/// Whether some attempt in the table targets `a`.
pub open spec fn has_attempt_in(s: Seq<AttemptView>, a: Addr) -> bool {
    exists|i: int| 0 <= i < s.len() && s[i].addr == a
}

/// The index of the attempt targeting `a`.
pub open spec fn idx_of_attempt(s: Seq<AttemptView>, a: Addr) -> int {
    choose|i: int| 0 <= i < s.len() && s[i].addr == a
}

/// How many connections in the table were initiated by the peer.
pub open spec fn inbound_count(s: Seq<ConnView>) -> nat
    decreases s.len(),
{
    if s.len() == 0 {
        0
    } else {
        (if s[0].inbound {
            1nat
        } else {
            0nat
        }) + inbound_count(s.skip(1))
    }
}

/// An unchanged ban list stays free of duplicates.
proof fn lemma_banned_unchanged(pre: &UdpSock, post: &UdpSock)
    requires
        pre.wf(),
        post.banned_s() == pre.banned_s(),
    ensures
        forall|i: int, j: int|
            0 <= i < j < post.banned_s().len() ==> post.banned_s()[i] != post.banned_s()[j],
{
    assert forall|i: int, j: int|
        0 <= i < j < post.banned_s().len() implies post.banned_s()[i] != post.banned_s()[j] by {
        assert(pre.banned_s()[i] != pre.banned_s()[j]);
    }
}

/// One connection per address.
pub open spec fn conns_distinct(s: Seq<ConnView>) -> bool {
    forall|i: int, j: int| 0 <= i < j < s.len() ==> s[i].addr != s[j].addr
}

/// One attempt per address.
pub open spec fn attempts_distinct(s: Seq<AttemptView>) -> bool {
    forall|i: int, j: int| 0 <= i < j < s.len() ==> s[i].addr != s[j].addr
}

/// Removing a table row keeps rows unique and removes exactly its address.
proof fn lemma_conns_remove(pre: Seq<ConnView>, i: int)
    requires
        conns_distinct(pre),
        0 <= i < pre.len(),
    ensures
        conns_distinct(pre.remove(i)),
        forall|a: Addr|
            has_conn_in(pre.remove(i), a) <==> (has_conn_in(pre, a) && a != pre[i].addr),
{
    let post = pre.remove(i);
    assert forall|a: Addr|
        has_conn_in(post, a) <==> (has_conn_in(pre, a) && a != pre[i].addr) by {
        if has_conn_in(post, a) {
            let j = choose|j: int| 0 <= j < post.len() && post[j].addr == a;
            if j < i {
                assert(pre[j].addr == a);
            } else {
                assert(pre[j + 1].addr == a);
            }
        }
        if has_conn_in(pre, a) && a != pre[i].addr {
            let j = choose|j: int| 0 <= j < pre.len() && pre[j].addr == a;
            if j < i {
                assert(post[j].addr == a);
            } else {
                assert(j != i);
                assert(post[j - 1].addr == a);
            }
        }
    }
}

/// Appending a row with a new address keeps rows unique.
proof fn lemma_conns_push(pre: Seq<ConnView>, c: ConnView)
    requires
        conns_distinct(pre),
        !has_conn_in(pre, c.addr),
    ensures
        conns_distinct(pre.push(c)),
        forall|a: Addr| has_conn_in(pre.push(c), a) <==> (has_conn_in(pre, a) || a == c.addr),
{
    let post = pre.push(c);
    assert forall|a: Addr| has_conn_in(post, a) <==> (has_conn_in(pre, a) || a == c.addr) by {
        if has_conn_in(post, a) {
            let j = choose|j: int| 0 <= j < post.len() && post[j].addr == a;
            if j < pre.len() {
                assert(pre[j].addr == a);
            }
        }
        if has_conn_in(pre, a) {
            let j = choose|j: int| 0 <= j < pre.len() && pre[j].addr == a;
            assert(post[j].addr == a);
        }
        if a == c.addr {
            assert(post[pre.len() as int].addr == a);
        }
    }
}

/// Replacing a row in place, address kept, keeps rows unique.
proof fn lemma_conns_update(pre: Seq<ConnView>, i: int, c: ConnView)
    requires
        conns_distinct(pre),
        0 <= i < pre.len(),
        c.addr == pre[i].addr,
    ensures
        conns_distinct(pre.update(i, c)),
        forall|a: Addr| has_conn_in(pre.update(i, c), a) <==> has_conn_in(pre, a),
{
    let post = pre.update(i, c);
    assert forall|a: Addr| has_conn_in(post, a) <==> has_conn_in(pre, a) by {
        if has_conn_in(post, a) {
            let j = choose|j: int| 0 <= j < post.len() && post[j].addr == a;
            assert(pre[j].addr == a);
        }
        if has_conn_in(pre, a) {
            let j = choose|j: int| 0 <= j < pre.len() && pre[j].addr == a;
            assert(post[j].addr == a);
        }
    }
}

/// Removing an attempt row keeps rows unique and removes exactly its
/// address.
proof fn lemma_attempts_remove(pre: Seq<AttemptView>, i: int)
    requires
        attempts_distinct(pre),
        0 <= i < pre.len(),
    ensures
        attempts_distinct(pre.remove(i)),
        forall|a: Addr|
            has_attempt_in(pre.remove(i), a) <==> (has_attempt_in(pre, a) && a != pre[i].addr),
{
    let post = pre.remove(i);
    assert forall|a: Addr|
        has_attempt_in(post, a) <==> (has_attempt_in(pre, a) && a != pre[i].addr) by {
        if has_attempt_in(post, a) {
            let j = choose|j: int| 0 <= j < post.len() && post[j].addr == a;
            if j < i {
                assert(pre[j].addr == a);
            } else {
                assert(pre[j + 1].addr == a);
            }
        }
        if has_attempt_in(pre, a) && a != pre[i].addr {
            let j = choose|j: int| 0 <= j < pre.len() && pre[j].addr == a;
            if j < i {
                assert(post[j].addr == a);
            } else {
                assert(j != i);
                assert(post[j - 1].addr == a);
            }
        }
    }
}

/// Appending an attempt with a new address keeps rows unique.
proof fn lemma_attempts_push(pre: Seq<AttemptView>, c: AttemptView)
    requires
        attempts_distinct(pre),
        !has_attempt_in(pre, c.addr),
    ensures
        attempts_distinct(pre.push(c)),
        forall|a: Addr| has_attempt_in(pre.push(c), a) <==> (has_attempt_in(pre, a) || a == c.addr),
{
    let post = pre.push(c);
    assert forall|a: Addr| has_attempt_in(post, a) <==> (has_attempt_in(pre, a) || a == c.addr) by {
        if has_attempt_in(post, a) {
            let j = choose|j: int| 0 <= j < post.len() && post[j].addr == a;
            if j < pre.len() {
                assert(pre[j].addr == a);
            }
        }
        if has_attempt_in(pre, a) {
            let j = choose|j: int| 0 <= j < pre.len() && pre[j].addr == a;
            assert(post[j].addr == a);
        }
        if a == c.addr {
            assert(post[pre.len() as int].addr == a);
        }
    }
}

pub struct UdpSock {
    conns: Vec<UdpConn>,
    reject_addrs: Vec<Addr>,
    conn_attempts: Vec<ConnectAttempt>,
    config: UdpConfig,
}

/// The ghost image of a connection-table vector.
spec fn cmap(s: Seq<UdpConn>) -> Seq<ConnView> {
    s.map_values(|c: UdpConn| c@)
}

/// The ghost image of an attempt-table vector.
spec fn amap(s: Seq<ConnectAttempt>) -> Seq<AttemptView> {
    s.map_values(
        |a: ConnectAttempt|
            AttemptView {
                addr: a.addr,
                last_attempt: a.last_attempt,
                retry_count: a.retry_count,
                data: a.data@,
            },
    )
}

/// Table images commute with removing a row.
proof fn lemma_cmap_remove(prev: Seq<UdpConn>, i: int)
    requires
        0 <= i < prev.len(),
    ensures
        cmap(prev.remove(i)) == cmap(prev).remove(i),
{
    assert(cmap(prev.remove(i)) =~= cmap(prev).remove(i));
}

/// Table images commute with inserting a row.
proof fn lemma_cmap_insert(prev: Seq<UdpConn>, i: int, c: UdpConn)
    requires
        0 <= i <= prev.len(),
    ensures
        cmap(prev.insert(i, c)) == cmap(prev).insert(i, c@),
{
    assert(cmap(prev.insert(i, c)) =~= cmap(prev).insert(i, c@));
}

/// Table images commute with appending a row.
proof fn lemma_cmap_push(prev: Seq<UdpConn>, c: UdpConn)
    ensures
        cmap(prev.push(c)) == cmap(prev).push(c@),
{
    assert(cmap(prev.push(c)) =~= cmap(prev).push(c@));
}

/// Remove-then-insert at one index is an in-place update of the image.
proof fn lemma_cmap_reinsert(prev: Seq<UdpConn>, i: int, c: UdpConn)
    requires
        0 <= i < prev.len(),
    ensures
        cmap(prev.remove(i).insert(i, c)) == cmap(prev).update(i, c@),
{
    assert(cmap(prev.remove(i).insert(i, c)) =~= cmap(prev).update(i, c@));
}

/// Attempt images commute with removing a row.
proof fn lemma_amap_remove(prev: Seq<ConnectAttempt>, i: int)
    requires
        0 <= i < prev.len(),
    ensures
        amap(prev.remove(i)) == amap(prev).remove(i),
{
    assert(amap(prev.remove(i)) =~= amap(prev).remove(i));
}

/// Attempt images commute with appending a row.
proof fn lemma_amap_push(prev: Seq<ConnectAttempt>, c: ConnectAttempt)
    ensures
        amap(prev.push(c)) == amap(prev).push(
            AttemptView {
                addr: c.addr,
                last_attempt: c.last_attempt,
                retry_count: c.retry_count,
                data: c.data@,
            },
        ),
{
    assert(amap(prev.push(c)) =~= amap(prev).push(
        AttemptView {
            addr: c.addr,
            last_attempt: c.last_attempt,
            retry_count: c.retry_count,
            data: c.data@,
        },
    ));
}

/// Remove-then-insert at one index is an in-place update of the image.
proof fn lemma_amap_reinsert(prev: Seq<ConnectAttempt>, i: int, c: ConnectAttempt)
    requires
        0 <= i < prev.len(),
    ensures
        amap(prev.remove(i).insert(i, c)) == amap(prev).update(
            i,
            AttemptView {
                addr: c.addr,
                last_attempt: c.last_attempt,
                retry_count: c.retry_count,
                data: c.data@,
            },
        ),
{
    assert(amap(prev.remove(i).insert(i, c)) =~= amap(prev).update(
        i,
        AttemptView {
            addr: c.addr,
            last_attempt: c.last_attempt,
            retry_count: c.retry_count,
            data: c.data@,
        },
    ));
}

impl UdpSock {
    /// The connection table as abstract state, in table order.
    pub closed spec fn conns_s(&self) -> Seq<ConnView> {
        cmap(self.conns@)
    }

    /// The attempt table as abstract state, in table order.
    pub closed spec fn attempts_s(&self) -> Seq<AttemptView> {
        amap(self.conn_attempts@)
    }

    /// The ban list as abstract state.
    pub closed spec fn banned_s(&self) -> Seq<Addr> {
        self.reject_addrs@
    }

    /// The configuration.
    pub closed spec fn cfg(&self) -> UdpConfig {
        self.config
    }

    /// Whether `a` has a live connection.
    pub open spec fn is_connected(&self, a: Addr) -> bool {
        has_conn_in(self.conns_s(), a)
    }

    /// Whether `a` is banned.
    pub open spec fn is_banned(&self, a: Addr) -> bool {
        self.banned_s().contains(a)
    }

    /// Whether an outbound handshake to `a` is in progress.
    pub open spec fn is_connecting(&self, a: Addr) -> bool {
        has_attempt_in(self.attempts_s(), a)
    }

    /// Session well-formedness: sound connections and one entry per
    /// address in each table.
    pub open spec fn wf(&self) -> bool {
        &&& self.conns_wf()
        &&& conns_distinct(self.conns_s())
        &&& attempts_distinct(self.attempts_s())
        &&& forall|i: int, j: int|
            0 <= i < j < self.banned_s().len() ==> self.banned_s()[i] != self.banned_s()[j]
    }

    /// Every connection in the table is itself well formed.
    pub closed spec fn conns_wf(&self) -> bool {
        forall|i: int| 0 <= i < self.conns@.len() ==> (#[trigger] self.conns@[i]).wf()
    }


    /// The connection and attempt tables keep their per-address uniqueness
    /// whenever they are unchanged.
    proof fn lemma_tables_unchanged(pre: &UdpSock, post: &UdpSock)
        requires
            pre.wf(),
            post.conns_s() == pre.conns_s(),
            post.attempts_s() == pre.attempts_s(),
            post.conns_wf(),
        ensures
            conns_distinct(post.conns_s()),
            attempts_distinct(post.attempts_s()),
    {
        assert forall|i: int, j: int|
            0 <= i < j < post.conns_s().len() implies post.conns_s()[i].addr
            != post.conns_s()[j].addr by {
            assert(pre.conns_s()[i].addr != pre.conns_s()[j].addr);
        }
        assert forall|i: int, j: int|
            0 <= i < j < post.attempts_s().len() implies post.attempts_s()[i].addr
            != post.attempts_s()[j].addr by {
            assert(pre.attempts_s()[i].addr != pre.attempts_s()[j].addr);
        }
    }

    /// A session with no peers, no attempts and an empty ban list.
    pub fn create(config: UdpConfig) -> (r: UdpSock)
        ensures
            r.wf(),
            r.conns_s() == Seq::<ConnView>::empty(),
            r.attempts_s() == Seq::<AttemptView>::empty(),
            r.banned_s() == Seq::<Addr>::empty(),
            r.cfg() == config,
    {
        let r = UdpSock {
            conns: Vec::new(),
            reject_addrs: Vec::new(),
            conn_attempts: Vec::new(),
            config,
        };
        proof {
            assert(r.conns_s() =~= Seq::<ConnView>::empty());
            assert(r.attempts_s() =~= Seq::<AttemptView>::empty());
        }
        r
    }

    /// The index of `adr`'s connection, if it has one.
    fn find_conn(&self, adr: Addr) -> (r: Option<usize>)
        requires
            self.wf(),
        ensures
            r is Some <==> self.is_connected(adr),
            r matches Some(i) ==> i < self.conns_s().len() && self.conns_s()[i as int].addr == adr
                && i == idx_of_conn(self.conns_s(), adr),
    {
        let mut k: usize = 0;
        while k < self.conns.len()
            invariant
                self.wf(),
                k <= self.conns_s().len(),
                forall|j: int| 0 <= j < k ==> self.conns_s()[j].addr != adr,
            decreases self.conns_s().len() - k,
        {
            if self.conns[k].address() == adr {
                proof {
                    let i = idx_of_conn(self.conns_s(), adr);
                    assert(self.conns_s()[k as int].addr == adr);
                    assert(0 <= i < self.conns_s().len() && self.conns_s()[i].addr == adr);
                    if i != k as int {
                        assert(false);
                    }
                }
                return Some(k);
            }
            k = k + 1;
        }
        None
    }

    /// The index of the attempt targeting `adr`, if one exists.
    fn find_attempt(&self, adr: Addr) -> (r: Option<usize>)
        requires
            self.wf(),
        ensures
            r is Some <==> self.is_connecting(adr),
            r matches Some(i) ==> i < self.attempts_s().len() && self.attempts_s()[i as int].addr
                == adr && i == idx_of_attempt(self.attempts_s(), adr),
    {
        let mut k: usize = 0;
        while k < self.conn_attempts.len()
            invariant
                self.wf(),
                k <= self.attempts_s().len(),
                forall|j: int| 0 <= j < k ==> self.attempts_s()[j].addr != adr,
            decreases self.attempts_s().len() - k,
        {
            if self.conn_attempts[k].addr == adr {
                proof {
                    let i = idx_of_attempt(self.attempts_s(), adr);
                    assert(self.attempts_s()[k as int].addr == adr);
                    assert(0 <= i < self.attempts_s().len() && self.attempts_s()[i].addr == adr);
                    if i != k as int {
                        assert(false);
                    }
                }
                return Some(k);
            }
            k = k + 1;
        }
        None
    }

    /// The index of `adr` in the ban list, if present.
    fn find_banned(&self, adr: Addr) -> (r: Option<usize>)
        requires
            self.wf(),
        ensures
            r is Some <==> self.is_banned(adr),
            r matches Some(i) ==> i < self.banned_s().len() && self.banned_s()[i as int] == adr,
    {
        let mut k: usize = 0;
        while k < self.reject_addrs.len()
            invariant
                self.wf(),
                k <= self.banned_s().len(),
                forall|j: int| 0 <= j < k ==> self.banned_s()[j] != adr,
            decreases self.banned_s().len() - k,
        {
            if self.reject_addrs[k] == adr {
                return Some(k);
            }
            k = k + 1;
        }
        proof {
            assert(!self.banned_s().contains(adr));
        }
        None
    }

    /// Whether `adr` has a live connection.
    pub fn connected(&self, adr: &Addr) -> (r: bool)
        requires
            self.wf(),
        ensures
            r == self.is_connected(*adr),
    {
        self.find_conn(*adr).is_some()
    }

    /// Whether `adr` is banned.
    pub fn banned(&self, adr: &Addr) -> (r: bool)
        requires
            self.wf(),
        ensures
            r == self.is_banned(*adr),
    {
        self.find_banned(*adr).is_some()
    }

    /// Bans `adr`: every future datagram from it is dropped before any
    /// processing. Idempotent.
    pub fn ban(&mut self, adr: Addr)
        requires
            old(self).wf(),
        ensures
            final(self).wf(),
            final(self).is_banned(adr),
            forall|x: Addr| final(self).is_banned(x) <==> (old(self).is_banned(x) || x == adr),
            final(self).conns_s() == old(self).conns_s(),
            final(self).attempts_s() == old(self).attempts_s(),
            final(self).cfg() == old(self).cfg(),
    {
        if self.find_banned(adr).is_none() {
            self.reject_addrs.push(adr);
            proof {
                UdpSock::lemma_tables_unchanged(old(self), self);
                assert forall|x: Addr| final(self).is_banned(x) <==> (old(self).is_banned(x) || x
                    == adr) by {
                    if final(self).is_banned(x) {
                        let i = choose|i: int|
                            0 <= i < self.banned_s().len() && self.banned_s()[i] == x;
                        if i < self.banned_s().len() - 1 {
                            assert(old(self).banned_s()[i] == x);
                        }
                    }
                    if old(self).is_banned(x) {
                        let i = choose|i: int|
                            0 <= i < old(self).banned_s().len() && old(self).banned_s()[i] == x;
                        assert(self.banned_s()[i] == x);
                    }
                    if x == adr {
                        assert(self.banned_s()[self.banned_s().len() - 1] == adr);
                    }
                }
            }
        } else {
            proof {
                UdpSock::lemma_tables_unchanged(old(self), self);
                assert(old(self).is_banned(adr));
            }
        }
    }

    /// Lifts a ban. Idempotent.
    pub fn unban(&mut self, adr: Addr)
        requires
            old(self).wf(),
        ensures
            final(self).wf(),
            !final(self).is_banned(adr),
            forall|x: Addr| final(self).is_banned(x) <==> (old(self).is_banned(x) && x != adr),
            final(self).conns_s() == old(self).conns_s(),
            final(self).attempts_s() == old(self).attempts_s(),
            final(self).cfg() == old(self).cfg(),
    {
        match self.find_banned(adr) {
            Some(i) => {
                let ghost b0 = self.reject_addrs@;
                self.reject_addrs.remove(i);
                proof {
                    UdpSock::lemma_tables_unchanged(old(self), self);
                    assert forall|x: Addr| final(self).is_banned(x) <==> (old(self).is_banned(x)
                        && x != adr) by {
                        if final(self).is_banned(x) {
                            let j = choose|j: int|
                                0 <= j < self.banned_s().len() && self.banned_s()[j] == x;
                            if j < i {
                                assert(b0[j] == x);
                            } else {
                                assert(b0[j + 1] == x);
                            }
                            assert(old(self).is_banned(x));
                            assert(x != adr);
                        }
                        if old(self).is_banned(x) && x != adr {
                            let j = choose|j: int| 0 <= j < b0.len() && b0[j] == x;
                            if j < i {
                                assert(self.banned_s()[j] == x);
                            } else {
                                assert(j != i);
                                assert(self.banned_s()[j - 1] == x);
                            }
                        }
                    }
                }
            },
            None => {
                proof {
                    UdpSock::lemma_tables_unchanged(old(self), self);
                    assert(forall|x: Addr|
                        final(self).is_banned(x) <==> (old(self).is_banned(x) && x != adr));
                }
            },
        }
    }

    /// Starts an outbound handshake: remembers the request for retries and
    /// hands back the datagram to send now.
    fn start_connect(&mut self, adr: Addr, data: Vec<u8>, now: u32) -> (r: Vec<u8>)
        requires
            old(self).wf(),
            !old(self).is_connecting(adr),
        ensures
            final(self).wf(),
            r@ == data@,
            final(self).attempts_s() == old(self).attempts_s().push(
                AttemptView { addr: adr, last_attempt: now, retry_count: 0, data: data@ },
            ),
            final(self).is_connecting(adr),
            forall|x: Addr|
                final(self).is_connecting(x) <==> (old(self).is_connecting(x) || x == adr),
            final(self).conns_s() == old(self).conns_s(),
            final(self).banned_s() == old(self).banned_s(),
            final(self).cfg() == old(self).cfg(),
    {
        let out = copy_vec(&data);
        let ghost a0 = self.conn_attempts@;
        self.conn_attempts.push(
            ConnectAttempt { addr: adr, last_attempt: now, retry_count: 0, data },
        );
        proof {
            lemma_amap_push(
                a0,
                ConnectAttempt {
                    addr: adr,
                    last_attempt: now,
                    retry_count: 0,
                    data: self.conn_attempts@[a0.len() as int].data,
                },
            );
            assert(self.conn_attempts@ == a0.push(self.conn_attempts@[a0.len() as int]));
            lemma_attempts_push(
                old(self).attempts_s(),
                AttemptView { addr: adr, last_attempt: now, retry_count: 0, data: out@ },
            );
            lemma_banned_unchanged(old(self), self);
        }
        out
    }

    /// Begins connecting to `adr`: sends a one-byte connection request and
    /// creates the retry state. Does nothing while an attempt is already in
    /// progress.
    pub fn connect(&mut self, adr: Addr, now: u32) -> (r: Option<Vec<u8>>)
        requires
            old(self).wf(),
        ensures
            final(self).wf(),
            old(self).is_connecting(adr) ==> r is None && *final(self) == *old(self),
            !old(self).is_connecting(adr) ==> (r matches Some(d) && d@ == seq![CON_REQ] && final(self).attempts_s() == old(self).attempts_s().push(
                AttemptView { addr: adr, last_attempt: now, retry_count: 0, data: seq![CON_REQ] },
            )),
            final(self).conns_s() == old(self).conns_s(),
            final(self).banned_s() == old(self).banned_s(),
            final(self).cfg() == old(self).cfg(),
    {
        if self.find_attempt(adr).is_some() {
            return None;
        }
        let mut data: Vec<u8> = Vec::new();
        data.push(CON_REQ);
        proof {
            assert(data@ =~= seq![CON_REQ]);
        }
        Some(self.start_connect(adr, data, now))
    }

    /// Begins connecting to `adr` with an attached payload: the request
    /// datagram is the signal byte followed by the payload. Rejects a
    /// payload that would not fit the MTU.
    pub fn connect_with_data(&mut self, adr: Addr, data: &Vec<u8>, now: u32) -> (r: Result<
        Option<Vec<u8>>,
        FailReason,
    >)
        requires
            old(self).wf(),
        ensures
            final(self).wf(),
            data@.len() > 1399 ==> r == Err::<Option<Vec<u8>>, FailReason>(FailReason::Overflow)
                && *final(self) == *old(self),
            data@.len() <= 1399 && old(self).is_connecting(adr) ==> (r matches Ok(o) && o is None
                && *final(self) == *old(self)),
            data@.len() <= 1399 && !old(self).is_connecting(adr) ==> (r matches Ok(o)
                && o matches Some(d) && d@ == seq![CON_REQ] + data@ && final(self).attempts_s()
                == old(self).attempts_s().push(
                AttemptView {
                    addr: adr,
                    last_attempt: now,
                    retry_count: 0,
                    data: seq![CON_REQ] + data@,
                },
            )),
            final(self).conns_s() == old(self).conns_s(),
            final(self).banned_s() == old(self).banned_s(),
            final(self).cfg() == old(self).cfg(),
    {
        if data.len() > 1399 {
            return Err(FailReason::Overflow);
        }
        if self.find_attempt(adr).is_some() {
            return Ok(None);
        }
        let mut buf: Vec<u8> = Vec::new();
        buf.push(CON_REQ);
        let mut k: usize = 0;
        while k < data.len()
            invariant
                k <= data@.len(),
                buf@ == seq![CON_REQ] + data@.subrange(0, k as int),
            decreases data@.len() - k,
        {
            buf.push(data[k]);
            proof {
                assert(buf@ =~= seq![CON_REQ] + data@.subrange(0, k + 1));
            }
            k = k + 1;
        }
        proof {
            assert(buf@ =~= seq![CON_REQ] + data@);
        }
        Ok(Some(self.start_connect(adr, buf, now)))
    }

    /// Abandons an outbound handshake; a late acceptance will then be
    /// ignored rather than silently opening a connection.
    pub fn cancel_connect(&mut self, adr: Addr)
        requires
            old(self).wf(),
        ensures
            final(self).wf(),
            !final(self).is_connecting(adr),
            old(self).is_connecting(adr) ==> final(self).attempts_s() == old(self).attempts_s().remove(idx_of_attempt(old(self).attempts_s(), adr)),
            !old(self).is_connecting(adr) ==> *final(self) == *old(self),
            forall|x: Addr|
                final(self).is_connecting(x) <==> (old(self).is_connecting(x) && x != adr),
            final(self).conns_s() == old(self).conns_s(),
            final(self).banned_s() == old(self).banned_s(),
            final(self).cfg() == old(self).cfg(),
    {
        match self.find_attempt(adr) {
            Some(i) => {
                let ghost a0 = self.conn_attempts@;
                self.conn_attempts.remove(i);
                proof {
                    lemma_amap_remove(a0, i as int);
                    lemma_attempts_remove(old(self).attempts_s(), i as int);
                    lemma_banned_unchanged(old(self), self);
                }
            },
            None => {
            },
        }
    }

    /// Disconnects from `adr` at once: hands back the one-byte disconnect
    /// signal and forgets the connection, without waiting for any reply.
    pub fn disconnect(&mut self, adr: Addr) -> (r: Option<Vec<u8>>)
        requires
            old(self).wf(),
        ensures
            final(self).wf(),
            !final(self).is_connected(adr),
            old(self).is_connected(adr) ==> (r matches Some(d) && d@ == seq![DISC] && final(self).conns_s() == old(self).conns_s().remove(idx_of_conn(old(self).conns_s(), adr))),
            !old(self).is_connected(adr) ==> r is None && *final(self) == *old(self),
            forall|x: Addr|
                final(self).is_connected(x) <==> (old(self).is_connected(x) && x != adr),
            final(self).attempts_s() == old(self).attempts_s(),
            final(self).banned_s() == old(self).banned_s(),
            final(self).cfg() == old(self).cfg(),
    {
        match self.find_conn(adr) {
            Some(i) => {
                let ghost c0 = self.conns@;
                self.conns.remove(i);
                proof {
                    lemma_cmap_remove(c0, i as int);
                    lemma_conns_remove(old(self).conns_s(), i as int);
                    lemma_banned_unchanged(old(self), self);
                    assert forall|j: int|
                        0 <= j < self.conns@.len() implies (#[trigger] self.conns@[j]).wf() by {
                        if j < i {
                            assert(self.conns@[j] == c0[j]);
                        } else {
                            assert(self.conns@[j] == c0[j + 1]);
                        }
                    }
                }
                let mut d: Vec<u8> = Vec::new();
                d.push(DISC);
                proof {
                    assert(d@ =~= seq![DISC]);
                }
                Some(d)
            },
            None => None,
        }
    }

    /// Accepts an inbound connection request: hands back the acceptance
    /// signal and creates the accepting side's connection entry, so that a
    /// completed handshake is symmetric.
    pub fn accept(&mut self, adr: Addr, now: u32) -> (r: Vec<u8>)
        requires
            old(self).wf(),
        ensures
            final(self).wf(),
            r@ == seq![ACCEPT],
            final(self).is_connected(adr),
            old(self).is_connected(adr) ==> *final(self) == *old(self),
            !old(self).is_connected(adr) ==> final(self).conns_s().len() == old(self).conns_s().len() + 1 && final(self).conns_s().subrange(
                0,
                old(self).conns_s().len() as int,
            ) == old(self).conns_s() && {
                let c = final(self).conns_s().last();
                c.addr == adr && c.last_recv_time == now && c.inbound == true
            },
            forall|x: Addr|
                final(self).is_connected(x) <==> (old(self).is_connected(x) || x == adr),
            final(self).attempts_s() == old(self).attempts_s(),
            final(self).banned_s() == old(self).banned_s(),
            final(self).cfg() == old(self).cfg(),
    {
        if self.find_conn(adr).is_none() {
            let mut c = UdpConn::new(adr, now);
            c.mark_inbound();
            let ghost c0 = self.conns@;
            let ghost cv = c@;
            self.conns.push(c);
            proof {
                lemma_cmap_push(c0, self.conns@[c0.len() as int]);
                lemma_conns_push(old(self).conns_s(), cv);
                lemma_banned_unchanged(old(self), self);
                assert forall|j: int|
                    0 <= j < self.conns@.len() implies (#[trigger] self.conns@[j]).wf() by {
                    if j < c0.len() {
                        assert(self.conns@[j] == c0[j]);
                    }
                }
                assert(final(self).conns_s().subrange(0, old(self).conns_s().len() as int)
                    =~= old(self).conns_s());
            }
        }
        let mut d: Vec<u8> = Vec::new();
        d.push(ACCEPT);
        proof {
            assert(d@ =~= seq![ACCEPT]);
        }
        d
    }

    /// Rejects an inbound connection request: hands back the denial signal.
    pub fn reject(&mut self, adr: Addr) -> (r: Vec<u8>)
        requires
            old(self).wf(),
        ensures
            final(self).wf(),
            *final(self) == *old(self),
            r@ == seq![DENY],
    {
        let mut d: Vec<u8> = Vec::new();
        d.push(DENY);
        proof {
            assert(d@ =~= seq![DENY]);
        }
        d
    }

    /// A raw datagram for `adr`, bypassing all framing: the bytes are
    /// handed back unchanged for the driver to send.
    pub fn send_raw(&self, adr: Addr, buf: &Vec<u8>) -> (r: Vec<u8>)
        ensures
            r@ == buf@,
    {
        copy_vec(buf)
    }

    /// Queues bytes for reliable delivery to `adr`. Hands back a framed
    /// datagram when the peer's buffer flushed. Fails with `NotConnected`
    /// for an unknown peer and `Overflow` for an oversized payload; when
    /// the peer's retransmission window has overflowed, the connection is
    /// unrecoverable and is dropped, with `Overflow`.
    pub fn queue_reliable(&mut self, adr: Addr, buf: &Vec<u8>, now: u32) -> (r: Result<
        Option<Vec<u8>>,
        FailReason,
    >)
        requires
            old(self).wf(),
        ensures
            final(self).wf(),
            !old(self).is_connected(adr) ==> r == Err::<Option<Vec<u8>>, FailReason>(
                FailReason::NotConnected,
            ) && *final(self) == *old(self),
            old(self).is_connected(adr) && buf@.len() > 1385 ==> r == Err::<
                Option<Vec<u8>>,
                FailReason,
            >(FailReason::Overflow) && *final(self) == *old(self),
            old(self).is_connected(adr) && buf@.len() <= 1385 ==> ({
                let i = idx_of_conn(old(self).conns_s(), adr);
                let ch = old(self).conns_s()[i].channel;
                &&& (ch.buffered.len() + 8 * buf@.len() > 11192 && ch.unacked.len() >= 64 ==> r
                    == Err::<Option<Vec<u8>>, FailReason>(FailReason::Overflow) && final(self).conns_s() == old(self).conns_s().remove(i) && !final(self).is_connected(adr))
                &&& (!(ch.buffered.len() + 8 * buf@.len() > 11192 && ch.unacked.len() >= 64) ==> (
                r matches Ok(o) && final(self).conns_s().len() == old(self).conns_s().len()
                    && final(self).conns_s() == old(self).conns_s().update(
                    i,
                    final(self).conns_s()[i],
                ) && final(self).conns_s()[i].addr == adr && final(self).conns_s()[i].last_recv_time
                    == old(self).conns_s()[i].last_recv_time && (ch.buffered.len() + 8 * buf@.len()
                    <= 11192 ==> o is None) && (ch.buffered.len() != 0 && ch.buffered.len() + 8
                    * buf@.len() > 11192 ==> (o matches Some(d) && d@[0] == RELIABLE && bytes_bits(
                    d@.skip(1),
                ) == ch.buffered && final(self).conns_s()[i].channel.unacked == ch.unacked.push(
                    (ch.local_seq, now, d@.skip(1)),
                )))))
            }),
            final(self).attempts_s() == old(self).attempts_s(),
            final(self).banned_s() == old(self).banned_s(),
            final(self).cfg() == old(self).cfg(),
    {
        let found = self.find_conn(adr);
        match found {
            None => Err(FailReason::NotConnected),
            Some(i) => {
                if buf.len() > 1385 {
                    return Err(FailReason::Overflow);
                }
                let ghost c0 = self.conns@;
                let mut c = self.conns.remove(i);
                let res = c.queue_or_send_reliable(buf, now);
                match res {
                    Err(_) => {
                        proof {
                            lemma_cmap_remove(c0, i as int);
                            lemma_conns_remove(old(self).conns_s(), i as int);
                            lemma_banned_unchanged(old(self), self);
                            assert forall|j: int|
                                0 <= j < self.conns@.len() implies (
                            #[trigger] self.conns@[j]).wf() by {
                                if j < i {
                                    assert(self.conns@[j] == c0[j]);
                                } else {
                                    assert(self.conns@[j] == c0[j + 1]);
                                }
                            }
                        }
                        Err(FailReason::Overflow)
                    },
                    Ok(o) => {
                        let ghost cv = c@;
                        self.conns.insert(i, c);
                        proof {
                            assert(self.conns@ == c0.remove(i as int).insert(i as int, self.conns@[i as int]));
                            lemma_cmap_reinsert(c0, i as int, self.conns@[i as int]);
                            lemma_conns_update(old(self).conns_s(), i as int, cv);
                            lemma_banned_unchanged(old(self), self);
                            assert forall|j: int|
                                0 <= j < self.conns@.len() implies (
                            #[trigger] self.conns@[j]).wf() by {
                                if j != i {
                                    assert(self.conns@[j] == c0[j]);
                                }
                            }
                            assert(final(self).conns_s() =~= old(self).conns_s().update(
                                i as int,
                                final(self).conns_s()[i as int],
                            ));
                        }
                        Ok(o)
                    },
                }
            },
        }
    }

    /// Queues bytes for unreliable delivery to `adr`. Hands back the
    /// previous buffer when it flushed. Fails with `NotConnected` for an
    /// unknown peer and `Overflow` for an oversized payload.
    pub fn queue_unreliable(&mut self, adr: Addr, buf: &Vec<u8>, now: u32) -> (r: Result<
        Option<Vec<u8>>,
        FailReason,
    >)
        requires
            old(self).wf(),
        ensures
            final(self).wf(),
            !old(self).is_connected(adr) ==> r == Err::<Option<Vec<u8>>, FailReason>(
                FailReason::NotConnected,
            ) && *final(self) == *old(self),
            old(self).is_connected(adr) && buf@.len() > 1399 ==> r == Err::<
                Option<Vec<u8>>,
                FailReason,
            >(FailReason::Overflow) && *final(self) == *old(self),
            old(self).is_connected(adr) && buf@.len() <= 1399 ==> ({
                let i = idx_of_conn(old(self).conns_s(), adr);
                let u = old(self).conns_s()[i].unreliable;
                &&& r matches Ok(o)
                &&& final(self).conns_s() == old(self).conns_s().update(
                    i,
                    final(self).conns_s()[i],
                )
                &&& final(self).conns_s()[i] == (ConnView {
                    unreliable: final(self).conns_s()[i].unreliable,
                    ..old(self).conns_s()[i]
                })
                &&& (u.len() == 0 ==> o is None && final(self).conns_s()[i].unreliable == seq![
                    UNRELIABLE,
                ] + buf@)
                &&& (u.len() != 0 && u.len() + buf@.len() <= 1400 ==> o is None && final(self).conns_s()[i].unreliable == u + buf@)
                &&& (u.len() != 0 && u.len() + buf@.len() > 1400 ==> (o matches Some(d) && d@ == u
                    && final(self).conns_s()[i].unreliable == seq![UNRELIABLE] + buf@))
            }),
            final(self).attempts_s() == old(self).attempts_s(),
            final(self).banned_s() == old(self).banned_s(),
            final(self).cfg() == old(self).cfg(),
    {
        let found = self.find_conn(adr);
        match found {
            None => Err(FailReason::NotConnected),
            Some(i) => {
                if buf.len() > 1399 {
                    return Err(FailReason::Overflow);
                }
                let ghost c0 = self.conns@;
                let mut c = self.conns.remove(i);
                let o = c.queue_or_send_unreliable(buf, now);
                let ghost cv = c@;
                self.conns.insert(i, c);
                proof {
                    assert(self.conns@ == c0.remove(i as int).insert(i as int, self.conns@[i as int]));
                    lemma_cmap_reinsert(c0, i as int, self.conns@[i as int]);
                    lemma_conns_update(old(self).conns_s(), i as int, cv);
                    lemma_banned_unchanged(old(self), self);
                    assert forall|j: int|
                        0 <= j < self.conns@.len() implies (#[trigger] self.conns@[j]).wf() by {
                        if j != i {
                            assert(self.conns@[j] == c0[j]);
                        }
                    }
                    assert(final(self).conns_s() =~= old(self).conns_s().update(
                        i as int,
                        final(self).conns_s()[i as int],
                    ));
                }
                Ok(o)
            },
        }
    }

    /// One maintenance pass over the connect attempts: due attempts under
    /// the retry limit are resent and restamped; due attempts at the limit
    /// are dropped, each with exactly one timeout failure event.
    pub fn update_conn_attempts(&mut self, now: u32) -> (r: (
        Vec<UdpEvent>,
        Vec<(Addr, Vec<u8>)>,
    ))
        requires
            old(self).wf(),
        ensures
            final(self).wf(),
            final(self).attempts_s() == attempts_step(
                old(self).attempts_s(),
                now,
                old(self).cfg(),
            ),
            r.0@ == attempts_fail(old(self).attempts_s(), now, old(self).cfg()),
            dg_of(r.1@) == attempts_out(old(self).attempts_s(), now, old(self).cfg()),
            final(self).conns_s() == old(self).conns_s(),
            final(self).banned_s() == old(self).banned_s(),
            final(self).cfg() == old(self).cfg(),
    {
        let ghost a0 = old(self).attempts_s();
        let cfg = self.config;
        let mut events: Vec<UdpEvent> = Vec::new();
        let mut out: Vec<(Addr, Vec<u8>)> = Vec::new();
        let mut kept: Vec<ConnectAttempt> = Vec::new();
        proof {
            assert(a0.subrange(0, 0) =~= Seq::<AttemptView>::empty());
            assert(amap(kept@) =~= attempts_step(a0.subrange(0, 0), now, cfg));
            assert(events@ =~= attempts_fail(a0.subrange(0, 0), now, cfg));
            assert(dg_of(out@) =~= attempts_out(a0.subrange(0, 0), now, cfg));
            assert(amap(self.conn_attempts@) =~= a0.skip(0));
        }
        let total = self.conn_attempts.len();
        proof {
            assert(a0.len() == total);
        }
        let mut k: usize = 0;
        while self.conn_attempts.len() > 0
            invariant
                a0.len() <= usize::MAX,
                self.conns_wf(),
                self.conns == old(self).conns,
                self.reject_addrs == old(self).reject_addrs,
                self.config == old(self).config,
                cfg == old(self).cfg(),
                k + self.conn_attempts@.len() == a0.len(),
                amap(self.conn_attempts@) == a0.skip(k as int),
                amap(kept@) == attempts_step(a0.subrange(0, k as int), now, cfg),
                events@ == attempts_fail(a0.subrange(0, k as int), now, cfg),
                dg_of(out@) == attempts_out(a0.subrange(0, k as int), now, cfg),
                kept@.len() <= k,
            decreases self.conn_attempts@.len(),
        {
            let ghost prev = self.conn_attempts@;
            let a = self.conn_attempts.remove(0);
            proof {
                lemma_amap_shift(prev, self.conn_attempts@, a0, k as int);
                assert(AttemptView {
                    addr: a.addr,
                    last_attempt: a.last_attempt,
                    retry_count: a.retry_count,
                    data: a.data@,
                } == a0[k as int]);
                lemma_attempts_step_snoc(a0.subrange(0, k as int), a0[k as int], now, cfg);
                assert(a0.subrange(0, k as int).push(a0[k as int]) =~= a0.subrange(
                    0,
                    k as int + 1,
                ));
            }
            let due = now >= a.last_attempt && now - a.last_attempt > cfg.connect_retry_delay;
            if !due {
                let ghost kept_prev = kept@;
                kept.push(a);
                proof {
                    lemma_amap_push(kept_prev, kept@[kept_prev.len() as int]);
                    assert(amap(kept@) =~= attempts_step(
                        a0.subrange(0, k as int + 1),
                        now,
                        cfg,
                    ));
                    assert(events@ =~= attempts_fail(a0.subrange(0, k as int + 1), now, cfg));
                    assert(dg_of(out@) =~= attempts_out(a0.subrange(0, k as int + 1), now, cfg));
                }
            } else if a.retry_count < cfg.max_connect_retry {
                let resend = copy_vec(&a.data);
                let ghost kept_prev = kept@;
                let ghost out_prev = out@;
                let refreshed = ConnectAttempt {
                    addr: a.addr,
                    last_attempt: now,
                    retry_count: a.retry_count + 1,
                    data: a.data,
                };
                kept.push(refreshed);
                out.push((a.addr, resend));
                proof {
                    lemma_amap_push(kept_prev, kept@[kept_prev.len() as int]);
                    assert(amap(kept@) =~= attempts_step(
                        a0.subrange(0, k as int + 1),
                        now,
                        cfg,
                    ));
                    assert(out@ == out_prev.push(out@[out_prev.len() as int]));
                    assert(dg_of(out@) =~= attempts_out(a0.subrange(0, k as int + 1), now, cfg));
                    assert(events@ =~= attempts_fail(a0.subrange(0, k as int + 1), now, cfg));
                }
            } else {
                let ghost ev_prev = events@;
                events.push(UdpEvent::ConnectFail(a.addr, FailReason::Timeout));
                proof {
                    assert(events@ == ev_prev.push(UdpEvent::ConnectFail(
                        a0[k as int].addr,
                        FailReason::Timeout,
                    )));
                    assert(events@ =~= attempts_fail(a0.subrange(0, k as int + 1), now, cfg));
                    assert(amap(kept@) =~= attempts_step(
                        a0.subrange(0, k as int + 1),
                        now,
                        cfg,
                    ));
                    assert(dg_of(out@) =~= attempts_out(a0.subrange(0, k as int + 1), now, cfg));
                }
            }
            k = k + 1;
        }
        self.conn_attempts = kept;
        proof {
            assert(a0.subrange(0, a0.len() as int) =~= a0);
            lemma_attempts_step_addrs(a0, now, cfg);
            lemma_banned_unchanged(old(self), self);
            assert forall|i: int, j: int|
                0 <= i < j < self.conns_s().len() implies self.conns_s()[i].addr
                != self.conns_s()[j].addr by {
                assert(old(self).conns_s()[i].addr != old(self).conns_s()[j].addr);
            }
        }
        (events, out)
    }

    /// One flush pass over the connections: ready reliable datagrams and
    /// due acknowledgments go out; a peer whose retransmission window has
    /// overflowed is unrecoverable and is dropped with one disconnect
    /// event.
    pub fn send_buffered_reliable(&mut self, now: u32) -> (r: (
        Vec<UdpEvent>,
        Vec<(Addr, Vec<u8>)>,
    ))
        requires
            old(self).wf(),
        ensures
            final(self).wf(),
            final(self).conns_s() == flush_keep(old(self).conns_s(), now),
            r.0@ == flush_events(old(self).conns_s(), now),
            dg_of(r.1@) == flush_out(old(self).conns_s(), now),
            final(self).attempts_s() == old(self).attempts_s(),
            final(self).banned_s() == old(self).banned_s(),
            final(self).cfg() == old(self).cfg(),
    {
        let ghost cs0 = old(self).conns_s();
        let mut events: Vec<UdpEvent> = Vec::new();
        let mut out: Vec<(Addr, Vec<u8>)> = Vec::new();
        let mut kept: Vec<UdpConn> = Vec::new();
        proof {
            assert(cs0.subrange(0, 0) =~= Seq::<ConnView>::empty());
            assert(cmap(kept@) =~= flush_keep(cs0.subrange(0, 0), now));
            assert(events@ =~= flush_events(cs0.subrange(0, 0), now));
            assert(dg_of(out@) =~= flush_out(cs0.subrange(0, 0), now));
            assert(cmap(self.conns@) =~= cs0.skip(0));
        }
        let total = self.conns.len();
        proof {
            assert(cs0.len() == total);
        }
        let mut k: usize = 0;
        while self.conns.len() > 0
            invariant
                cs0.len() <= usize::MAX,
                self.conn_attempts == old(self).conn_attempts,
                self.reject_addrs == old(self).reject_addrs,
                self.config == old(self).config,
                k + self.conns@.len() == cs0.len(),
                cmap(self.conns@) == cs0.skip(k as int),
                forall|j: int| 0 <= j < self.conns@.len() ==> (#[trigger] self.conns@[j]).wf(),
                forall|j: int| 0 <= j < kept@.len() ==> (#[trigger] kept@[j]).wf(),
                cmap(kept@) == flush_keep(cs0.subrange(0, k as int), now),
                events@ == flush_events(cs0.subrange(0, k as int), now),
                dg_of(out@) == flush_out(cs0.subrange(0, k as int), now),
                kept@.len() <= k,
            decreases self.conns@.len(),
        {
            let ghost prev = self.conns@;
            let mut c = self.conns.remove(0);
            let ghost cv0 = c@;
            proof {
                lemma_cmap_shift(prev, self.conns@, cs0, k as int);
                assert(cv0 == cs0[k as int]);
                lemma_flush_snoc(cs0.subrange(0, k as int), cs0[k as int], now);
                assert(cs0.subrange(0, k as int).push(cs0[k as int]) =~= cs0.subrange(
                    0,
                    k as int + 1,
                ));
                assert(prev[0].wf());
            }
            let got = c.try_get_reliable_buff(now);
            match got {
                Err(_) => {
                    let ghost ev_prev = events@;
                    events.push(UdpEvent::Disconnected(c.address()));
                    proof {
                        assert(!flush_keeps(cv0));
                        assert(events@ == ev_prev.push(UdpEvent::Disconnected(cv0.addr)));
                        assert(events@ =~= flush_events(cs0.subrange(0, k as int + 1), now));
                        assert(cmap(kept@) =~= flush_keep(cs0.subrange(0, k as int + 1), now));
                        assert(dg_of(out@) =~= flush_out(cs0.subrange(0, k as int + 1), now));
                    }
                },
                Ok(opt) => {
                    proof {
                        assert(flush_keeps(cv0));
                    }
                    match opt {
                        Some(d) => {
                            proof {
                                crate::bits::lemma_bits_to_bytes_of(d@.skip(1));
                                crate::bits::lemma_bytes_bits_len(d@.skip(1));
                                assert(d@.len() >= 1);
                                assert(d@ =~= seq![d@[0]] + d@.skip(1));
                                if cv0.channel.buffered.len() != 0 {
                                    assert(c@.channel == flushed_channel(cv0.channel, now));
                                    assert(flush_datagram(cv0, now) == seq![
                                        (
                                            cv0.addr,
                                            seq![RELIABLE] + crate::bits::bits_to_bytes(
                                                cv0.channel.buffered,
                                            ),
                                        ),
                                    ]);
                                    assert(d@ == seq![RELIABLE] + crate::bits::bits_to_bytes(
                                        cv0.channel.buffered,
                                    ));
                                } else {
                                    assert(need_ack(cv0.channel, now));
                                    assert(c@.channel == flushed_channel(cv0.channel, now));
                                    assert(d@ == seq![RELIABLE] + crate::bits::bits_to_bytes(
                                        header_bits(header_of(cv0.channel, now)),
                                    ));
                                }
                                assert(c@ == (ConnView {
                                    channel: flushed_channel(cv0.channel, now),
                                    ..cv0
                                }));
                            }
                            let addr = c.address();
                            let ghost kept_prev = kept@;
                            let ghost out_prev = out@;
                            kept.push(c);
                            out.push((addr, d));
                            proof {
                                lemma_cmap_push(kept_prev, kept@[kept_prev.len() as int]);
                                assert(cmap(kept@) =~= flush_keep(
                                    cs0.subrange(0, k as int + 1),
                                    now,
                                ));
                                assert(out@ == out_prev.push(out@[out_prev.len() as int]));
                                assert(dg_of(out@) =~= flush_out(
                                    cs0.subrange(0, k as int + 1),
                                    now,
                                ));
                                assert(events@ =~= flush_events(
                                    cs0.subrange(0, k as int + 1),
                                    now,
                                ));
                            }
                        },
                        None => {
                            proof {
                                assert(cv0.channel.buffered.len() == 0 && !need_ack(
                                    cv0.channel,
                                    now,
                                ));
                                assert(c@ == (ConnView {
                                    channel: flushed_channel(cv0.channel, now),
                                    ..cv0
                                }));
                                assert(flush_datagram(cv0, now) == Seq::<(Addr, Seq<u8>)>::empty());
                            }
                            let ghost kept_prev = kept@;
                            kept.push(c);
                            proof {
                                lemma_cmap_push(kept_prev, kept@[kept_prev.len() as int]);
                                assert(cmap(kept@) =~= flush_keep(
                                    cs0.subrange(0, k as int + 1),
                                    now,
                                ));
                                assert(dg_of(out@) =~= flush_out(
                                    cs0.subrange(0, k as int + 1),
                                    now,
                                ));
                                assert(events@ =~= flush_events(
                                    cs0.subrange(0, k as int + 1),
                                    now,
                                ));
                            }
                        },
                    }
                },
            }
            k = k + 1;
        }
        self.conns = kept;
        proof {
            assert(cs0.subrange(0, cs0.len() as int) =~= cs0);
            lemma_flush_keep_addrs(cs0, now);
            lemma_banned_unchanged(old(self), self);
            assert forall|i: int, j: int|
                0 <= i < j < self.attempts_s().len() implies self.attempts_s()[i].addr
                != self.attempts_s()[j].addr by {
                assert(old(self).attempts_s()[i].addr != old(self).attempts_s()[j].addr);
            }
        }
        (events, out)
    }

    /// One retransmission pass: every unacknowledged datagram past the
    /// retransmission delay goes out again, restamped.
    pub fn send_due_retransmissions(&mut self, now: u32) -> (out: Vec<(Addr, Vec<u8>)>)
        requires
            old(self).wf(),
        ensures
            final(self).wf(),
            final(self).conns_s() == retrans_upd(old(self).conns_s(), now),
            dg_of(out@) == retrans_flat(old(self).conns_s(), now),
            final(self).attempts_s() == old(self).attempts_s(),
            final(self).banned_s() == old(self).banned_s(),
            final(self).cfg() == old(self).cfg(),
    {
        let ghost cs0 = old(self).conns_s();
        let mut out: Vec<(Addr, Vec<u8>)> = Vec::new();
        proof {
            assert(cs0.subrange(0, 0) =~= Seq::<ConnView>::empty());
            assert(dg_of(out@) =~= retrans_flat(cs0.subrange(0, 0), now));
            assert(cmap(self.conns@) =~= Seq::new(
                cs0.len(),
                |i: int|
                    if i < 0 {
                        retrans_view(cs0[i], now)
                    } else {
                        cs0[i]
                    },
            ));
        }
        let mut k: usize = 0;
        while k < self.conns.len()
            invariant
                self.conn_attempts == old(self).conn_attempts,
                self.reject_addrs == old(self).reject_addrs,
                self.config == old(self).config,
                k <= cs0.len(),
                self.conns@.len() == cs0.len(),
                forall|j: int| 0 <= j < self.conns@.len() ==> (#[trigger] self.conns@[j]).wf(),
                cmap(self.conns@) == Seq::new(
                    cs0.len(),
                    |i: int|
                        if i < k {
                            retrans_view(cs0[i], now)
                        } else {
                            cs0[i]
                        },
                ),
                dg_of(out@) == retrans_flat(cs0.subrange(0, k as int), now),
            decreases cs0.len() - k,
        {
            proof {
                lemma_retrans_flat_snoc(cs0.subrange(0, k as int), cs0[k as int], now);
                assert(cs0.subrange(0, k as int).push(cs0[k as int]) =~= cs0.subrange(
                    0,
                    k as int + 1,
                ));
                assert(cmap(self.conns@)[k as int] == cs0[k as int]);
                assert(self.conns@[k as int].wf());
            }
            let ghost c0 = self.conns@;
            let mut c = self.conns.remove(k);
            let ghost cv0 = c@;
            let ds = c.due_retransmissions(now);
            let addr = c.address();
            let ghost cv = c@;
            self.conns.insert(k, c);
            proof {
                assert(self.conns@ == c0.remove(k as int).insert(k as int, self.conns@[k as int]));
                lemma_cmap_reinsert(c0, k as int, self.conns@[k as int]);
                assert(cv == retrans_view(cs0[k as int], now));
                assert(cmap(self.conns@) =~= Seq::new(
                    cs0.len(),
                    |i: int|
                        if i < k + 1 {
                            retrans_view(cs0[i], now)
                        } else {
                            cs0[i]
                        },
                ));
                assert forall|j: int|
                    0 <= j < self.conns@.len() implies (#[trigger] self.conns@[j]).wf() by {
                    if j != k {
                        assert(self.conns@[j] == c0[j]);
                    }
                }
            }
            let ghost dsv = crate::udp_reliable::payloads_of(ds@);
            let mut j: usize = 0;
            let total = ds.len();
            let mut ds = ds;
            proof {
                assert(dsv == crate::udp_conn::framed(
                    crate::udp_reliable::retrans_out(cs0[k as int].channel.unacked, now),
                ));
                assert(addr_paired(cs0[k as int].addr, dsv).subrange(0, 0)
                    =~= Seq::<(Addr, Seq<u8>)>::empty());
                assert(dg_of(out@) =~= retrans_flat(cs0.subrange(0, k as int), now) + addr_paired(
                    cs0[k as int].addr,
                    dsv,
                ).subrange(0, 0));
            }
            while ds.len() > 0
                invariant
                    j + ds@.len() == total,
                    total == dsv.len(),
                    crate::udp_reliable::payloads_of(ds@) == dsv.skip(j as int),
                    addr == cs0[k as int].addr,
                    0 <= k < cs0.len(),
                    dg_of(out@) == retrans_flat(cs0.subrange(0, k as int), now) + addr_paired(
                        cs0[k as int].addr,
                        dsv,
                    ).subrange(0, j as int),
                decreases ds@.len(),
            {
                let ghost dprev = ds@;
                let d = ds.remove(0);
                let ghost out_prev = out@;
                out.push((addr, d));
                proof {
                    lemma_payloads_shift(dprev, ds@, dsv, j as int);
                    assert(d@ == dsv[j as int]);
                    assert(out@ == out_prev.push(out@[out_prev.len() as int]));
                    assert(dg_of(out@) =~= dg_of(out_prev).push(
                        (cs0[k as int].addr, dsv[j as int]),
                    ));
                    assert(addr_paired(cs0[k as int].addr, dsv).subrange(0, j as int).push(
                        (cs0[k as int].addr, dsv[j as int]),
                    ) =~= addr_paired(cs0[k as int].addr, dsv).subrange(0, j as int + 1));
                    assert(dg_of(out@) =~= retrans_flat(cs0.subrange(0, k as int), now)
                        + addr_paired(cs0[k as int].addr, dsv).subrange(0, j as int + 1));
                }
                j = j + 1;
            }
            proof {
                assert(addr_paired(cs0[k as int].addr, dsv).subrange(
                    0,
                    addr_paired(cs0[k as int].addr, dsv).len() as int,
                ) =~= addr_paired(cs0[k as int].addr, dsv));
                assert(dg_of(out@) =~= retrans_flat(cs0.subrange(0, k as int + 1), now));
            }
            k = k + 1;
        }
        proof {
            assert(cs0.subrange(0, cs0.len() as int) =~= cs0);
            assert(final(self).conns_s() =~= retrans_upd(cs0, now));
            lemma_banned_unchanged(old(self), self);
            assert forall|i: int, j: int|
                0 <= i < j < self.conns_s().len() implies self.conns_s()[i].addr
                != self.conns_s()[j].addr by {
                assert(self.conns_s()[i] == retrans_upd(cs0, now)[i]);
                assert(self.conns_s()[j] == retrans_upd(cs0, now)[j]);
                assert(old(self).conns_s()[i].addr != old(self).conns_s()[j].addr);
            }
            assert forall|i: int, j: int|
                0 <= i < j < self.attempts_s().len() implies self.attempts_s()[i].addr
                != self.attempts_s()[j].addr by {
                assert(old(self).attempts_s()[i].addr != old(self).attempts_s()[j].addr);
            }
        }
        out
    }

    /// One unreliable flush pass: every buffered unreliable datagram goes
    /// out and its buffer empties.
    pub fn send_buffered_unreliable(&mut self, now: u32) -> (out: Vec<(Addr, Vec<u8>)>)
        requires
            old(self).wf(),
        ensures
            final(self).wf(),
            final(self).conns_s() == unrel_upd(old(self).conns_s()),
            dg_of(out@) == unrel_out(old(self).conns_s()),
            final(self).attempts_s() == old(self).attempts_s(),
            final(self).banned_s() == old(self).banned_s(),
            final(self).cfg() == old(self).cfg(),
    {
        let ghost cs0 = old(self).conns_s();
        let mut out: Vec<(Addr, Vec<u8>)> = Vec::new();
        proof {
            assert(cs0.subrange(0, 0) =~= Seq::<ConnView>::empty());
            assert(dg_of(out@) =~= unrel_out(cs0.subrange(0, 0)));
            assert(cmap(self.conns@) =~= Seq::new(
                cs0.len(),
                |i: int|
                    if i < 0 {
                        unrel_view(cs0[i])
                    } else {
                        cs0[i]
                    },
            ));
        }
        let mut k: usize = 0;
        while k < self.conns.len()
            invariant
                self.conn_attempts == old(self).conn_attempts,
                self.reject_addrs == old(self).reject_addrs,
                self.config == old(self).config,
                k <= cs0.len(),
                self.conns@.len() == cs0.len(),
                forall|j: int| 0 <= j < self.conns@.len() ==> (#[trigger] self.conns@[j]).wf(),
                cmap(self.conns@) == Seq::new(
                    cs0.len(),
                    |i: int|
                        if i < k {
                            unrel_view(cs0[i])
                        } else {
                            cs0[i]
                        },
                ),
                dg_of(out@) == unrel_out(cs0.subrange(0, k as int)),
            decreases cs0.len() - k,
        {
            proof {
                lemma_unrel_out_snoc(cs0.subrange(0, k as int), cs0[k as int]);
                assert(cs0.subrange(0, k as int).push(cs0[k as int]) =~= cs0.subrange(
                    0,
                    k as int + 1,
                ));
                assert(cmap(self.conns@)[k as int] == cs0[k as int]);
                assert(self.conns@[k as int].wf());
            }
            let ghost c0 = self.conns@;
            let mut c = self.conns.remove(k);
            let ghost cv0 = c@;
            let got = c.try_get_unreliable_buff(now);
            let addr = c.address();
            let ghost cv = c@;
            self.conns.insert(k, c);
            proof {
                assert(self.conns@ == c0.remove(k as int).insert(k as int, self.conns@[k as int]));
                lemma_cmap_reinsert(c0, k as int, self.conns@[k as int]);
                assert(cv == unrel_view(cs0[k as int]));
                assert(cmap(self.conns@) =~= Seq::new(
                    cs0.len(),
                    |i: int|
                        if i < k + 1 {
                            unrel_view(cs0[i])
                        } else {
                            cs0[i]
                        },
                ));
                assert forall|j: int|
                    0 <= j < self.conns@.len() implies (#[trigger] self.conns@[j]).wf() by {
                    if j != k {
                        assert(self.conns@[j] == c0[j]);
                    }
                }
            }
            match got {
                Some(d) => {
                    let ghost out_prev = out@;
                    out.push((addr, d));
                    proof {
                        assert(out@ == out_prev.push(out@[out_prev.len() as int]));
                        assert(dg_of(out@) =~= unrel_out(cs0.subrange(0, k as int + 1)));
                    }
                },
                None => {
                    proof {
                        assert(cv =~~= unrel_view(cs0[k as int]));
                        assert(dg_of(out@) =~= unrel_out(cs0.subrange(0, k as int + 1)));
                    }
                },
            }
            k = k + 1;
        }
        proof {
            assert(cs0.subrange(0, cs0.len() as int) =~= cs0);
            assert(final(self).conns_s() =~= unrel_upd(cs0));
            lemma_banned_unchanged(old(self), self);
            assert forall|i: int, j: int|
                0 <= i < j < self.conns_s().len() implies self.conns_s()[i].addr
                != self.conns_s()[j].addr by {
                assert(self.conns_s()[i] == unrel_upd(cs0)[i]);
                assert(self.conns_s()[j] == unrel_upd(cs0)[j]);
                assert(old(self).conns_s()[i].addr != old(self).conns_s()[j].addr);
            }
            assert forall|i: int, j: int|
                0 <= i < j < self.attempts_s().len() implies self.attempts_s()[i].addr
                != self.attempts_s()[j].addr by {
                assert(old(self).attempts_s()[i].addr != old(self).attempts_s()[j].addr);
            }
        }
        out
    }

    /// The timeout sweep: every connection silent past the configured
    /// timeout is removed, each with exactly one disconnect event; the
    /// peer learns of it only through its own timeout.
    pub fn check_for_timeouts(&mut self, now: u32) -> (events: Vec<UdpEvent>)
        requires
            old(self).wf(),
        ensures
            final(self).wf(),
            final(self).conns_s() == live_keep(old(self).conns_s(), now, old(self).cfg().timeout),
            events@ == timeout_events(old(self).conns_s(), now, old(self).cfg().timeout),
            final(self).attempts_s() == old(self).attempts_s(),
            final(self).banned_s() == old(self).banned_s(),
            final(self).cfg() == old(self).cfg(),
    {
        let ghost cs0 = old(self).conns_s();
        let timeout = self.config.timeout;
        let mut events: Vec<UdpEvent> = Vec::new();
        let mut kept: Vec<UdpConn> = Vec::new();
        proof {
            assert(cs0.subrange(0, 0) =~= Seq::<ConnView>::empty());
            assert(cmap(kept@) =~= live_keep(cs0.subrange(0, 0), now, timeout));
            assert(events@ =~= timeout_events(cs0.subrange(0, 0), now, timeout));
            assert(cmap(self.conns@) =~= cs0.skip(0));
        }
        let total = self.conns.len();
        proof {
            assert(cs0.len() == total);
        }
        let mut k: usize = 0;
        while self.conns.len() > 0
            invariant
                cs0.len() <= usize::MAX,
                self.conn_attempts == old(self).conn_attempts,
                self.reject_addrs == old(self).reject_addrs,
                self.config == old(self).config,
                timeout == old(self).cfg().timeout,
                k + self.conns@.len() == cs0.len(),
                cmap(self.conns@) == cs0.skip(k as int),
                forall|j: int| 0 <= j < self.conns@.len() ==> (#[trigger] self.conns@[j]).wf(),
                forall|j: int| 0 <= j < kept@.len() ==> (#[trigger] kept@[j]).wf(),
                cmap(kept@) == live_keep(cs0.subrange(0, k as int), now, timeout),
                events@ == timeout_events(cs0.subrange(0, k as int), now, timeout),
                kept@.len() <= k,
            decreases self.conns@.len(),
        {
            let ghost prev = self.conns@;
            let c = self.conns.remove(0);
            let ghost cv0 = c@;
            proof {
                lemma_cmap_shift(prev, self.conns@, cs0, k as int);
                assert(cv0 == cs0[k as int]);
                lemma_timeout_snoc(cs0.subrange(0, k as int), cs0[k as int], now, timeout);
                assert(cs0.subrange(0, k as int).push(cs0[k as int]) =~= cs0.subrange(
                    0,
                    k as int + 1,
                ));
                assert(prev[0].wf());
            }
            if c.timed_out(now, timeout) {
                let ghost ev_prev = events@;
                events.push(UdpEvent::Disconnected(c.address()));
                proof {
                    assert(events@ == ev_prev.push(UdpEvent::Disconnected(cv0.addr)));
                    assert(events@ =~= timeout_events(cs0.subrange(0, k as int + 1), now, timeout));
                    assert(cmap(kept@) =~= live_keep(cs0.subrange(0, k as int + 1), now, timeout));
                }
            } else {
                let ghost kept_prev = kept@;
                kept.push(c);
                proof {
                    lemma_cmap_push(kept_prev, kept@[kept_prev.len() as int]);
                    assert(cmap(kept@) =~= live_keep(cs0.subrange(0, k as int + 1), now, timeout));
                    assert(events@ =~= timeout_events(cs0.subrange(0, k as int + 1), now, timeout));
                }
            }
            k = k + 1;
        }
        self.conns = kept;
        proof {
            assert(cs0.subrange(0, cs0.len() as int) =~= cs0);
            lemma_live_keep_addrs(cs0, now, timeout);
            lemma_banned_unchanged(old(self), self);
            assert forall|i: int, j: int|
                0 <= i < j < self.attempts_s().len() implies self.attempts_s()[i].addr
                != self.attempts_s()[j].addr by {
                assert(old(self).attempts_s()[i].addr != old(self).attempts_s()[j].addr);
            }
        }
        events
    }

    /// Periodic maintenance, in order: the connect-attempt retry pass, the
    /// reliable flush (including due acknowledgments), the retransmission
    /// pass, the unreliable flush, and the timeout sweep. Returns all
    /// resulting events and every datagram the driver must send.
    pub fn update(&mut self, now: u32) -> (r: (Vec<UdpEvent>, Vec<(Addr, Vec<u8>)>))
        requires
            old(self).wf(),
        ensures
            final(self).wf(),
            final(self).attempts_s() == attempts_step(
                old(self).attempts_s(),
                now,
                old(self).cfg(),
            ),
            final(self).conns_s() == live_keep(
                unrel_upd(retrans_upd(flush_keep(old(self).conns_s(), now), now)),
                now,
                old(self).cfg().timeout,
            ),
            r.0@ == attempts_fail(old(self).attempts_s(), now, old(self).cfg()) + flush_events(
                old(self).conns_s(),
                now,
            ) + timeout_events(
                unrel_upd(retrans_upd(flush_keep(old(self).conns_s(), now), now)),
                now,
                old(self).cfg().timeout,
            ),
            dg_of(r.1@) == attempts_out(old(self).attempts_s(), now, old(self).cfg()) + flush_out(
                old(self).conns_s(),
                now,
            ) + retrans_flat(flush_keep(old(self).conns_s(), now), now) + unrel_out(
                retrans_upd(flush_keep(old(self).conns_s(), now), now),
            ),
            final(self).banned_s() == old(self).banned_s(),
            final(self).cfg() == old(self).cfg(),
    {
        let (mut events, mut out) = self.update_conn_attempts(now);
        let (mut ev2, mut out2) = self.send_buffered_reliable(now);
        let mut out3 = self.send_due_retransmissions(now);
        let mut out4 = self.send_buffered_unreliable(now);
        let mut ev5 = self.check_for_timeouts(now);
        let ghost e1 = events@;
        let ghost o1 = out@;
        let ghost e2 = ev2@;
        let ghost o2 = out2@;
        let ghost o3 = out3@;
        let ghost o4 = out4@;
        let ghost e5 = ev5@;
        events.append(&mut ev2);
        events.append(&mut ev5);
        out.append(&mut out2);
        out.append(&mut out3);
        out.append(&mut out4);
        proof {
            assert(events@ == (e1 + e2) + e5);
            assert(events@ =~= e1 + e2 + e5);
            assert(out@ == ((o1 + o2) + o3) + o4);
            assert(dg_of(out@) =~= dg_of(o1) + dg_of(o2) + dg_of(o3) + dg_of(o4));
        }
        (events, out)
    }
}

/// Removing the head of a payload batch advances its ghost image.
proof fn lemma_payloads_shift(prev: Seq<Vec<u8>>, cur: Seq<Vec<u8>>, dsv: Seq<Seq<u8>>, j: int)
    requires
        0 <= j < dsv.len(),
        prev.len() + j == dsv.len(),
        crate::udp_reliable::payloads_of(prev) == dsv.skip(j),
        cur == prev.remove(0),
    ensures
        crate::udp_reliable::payloads_of(cur) == dsv.skip(j + 1),
        crate::udp_reliable::payloads_of(prev)[0] == dsv[j],
{
    assert forall|i: int|
        0 <= i < cur.len() implies crate::udp_reliable::payloads_of(cur)[i] == dsv.skip(j + 1)[i] by {
        assert(prev.remove(0)[i] == prev[i + 1]);
        assert(cur[i] == prev[i + 1]);
        assert(crate::udp_reliable::payloads_of(cur)[i] == crate::udp_reliable::payloads_of(
            prev,
        )[i + 1]);
        assert(crate::udp_reliable::payloads_of(prev)[i + 1] == dsv.skip(j)[i + 1]);
        assert(dsv.skip(j)[i + 1] == dsv[j + 1 + i]);
        assert(dsv.skip(j + 1)[i] == dsv[j + 1 + i]);
    }
    assert(crate::udp_reliable::payloads_of(cur) =~= dsv.skip(j + 1));
}

/// Removing the head of a table advances its ghost image.
proof fn lemma_cmap_shift(prev: Seq<UdpConn>, cur: Seq<UdpConn>, cs0: Seq<ConnView>, k: int)
    requires
        0 <= k < cs0.len(),
        prev.len() + k == cs0.len(),
        cmap(prev) == cs0.skip(k),
        cur == prev.remove(0),
    ensures
        cmap(cur) == cs0.skip(k + 1),
        cmap(prev)[0] == cs0[k],
{
    assert forall|i: int| 0 <= i < cur.len() implies cmap(cur)[i] == cs0.skip(k + 1)[i] by {
        assert(prev.remove(0)[i] == prev[i + 1]);
        assert(cur[i] == prev[i + 1]);
        assert(cmap(cur)[i] == cmap(prev)[i + 1]);
        assert(cmap(prev)[i + 1] == cs0.skip(k)[i + 1]);
        assert(cs0.skip(k)[i + 1] == cs0[k + 1 + i]);
        assert(cs0.skip(k + 1)[i] == cs0[k + 1 + i]);
    }
    assert(cmap(cur) =~= cs0.skip(k + 1));
}

/// Removing the head of the attempt table advances its ghost image.
proof fn lemma_amap_shift(
    prev: Seq<ConnectAttempt>,
    cur: Seq<ConnectAttempt>,
    a0: Seq<AttemptView>,
    k: int,
)
    requires
        0 <= k < a0.len(),
        prev.len() + k == a0.len(),
        amap(prev) == a0.skip(k),
        cur == prev.remove(0),
    ensures
        amap(cur) == a0.skip(k + 1),
        amap(prev)[0] == a0[k],
{
    assert forall|i: int| 0 <= i < cur.len() implies amap(cur)[i] == a0.skip(k + 1)[i] by {
        assert(prev.remove(0)[i] == prev[i + 1]);
        assert(cur[i] == prev[i + 1]);
        assert(amap(cur)[i] == amap(prev)[i + 1]);
        assert(amap(prev)[i + 1] == a0.skip(k)[i + 1]);
        assert(a0.skip(k)[i + 1] == a0[k + 1 + i]);
        assert(a0.skip(k + 1)[i] == a0[k + 1 + i]);
    }
    assert(amap(cur) =~= a0.skip(k + 1));
}

impl UdpSock {
    /// Classifies one received datagram and applies its transition, in
    /// priority order: banned sources are dropped before any processing;
    /// data from connected peers is routed into the connection; a longer
    /// datagram starting with the connection-request signal carries an
    /// attached payload; a single byte is a control signal; anything else
    /// is malformed. Returns the resulting events and, when an unsolicited
    /// connection request exceeds the inbound limit, the denial to send
    /// back.
    pub fn poll(&mut self, from: Addr, data: &Vec<u8>, now: u32) -> (r: (
        Vec<UdpEvent>,
        Option<Vec<u8>>,
    ))
        requires
            old(self).wf(),
        ensures
            final(self).wf(),
            final(self).banned_s() == old(self).banned_s(),
            final(self).cfg() == old(self).cfg(),
            // A banned source produces no event and touches nothing.
            old(self).is_banned(from) ==> r.0@.len() == 0 && r.1 is None && *final(self) == *old(
                self,
            ),
            // An empty datagram is ignored.
            !old(self).is_banned(from) && data@.len() == 0 ==> r.0@.len() == 0 && r.1 is None
                && *final(self) == *old(self),
            // Unreliable data from a connected peer is delivered at once.
            !old(self).is_banned(from) && data@.len() > 1 && old(self).is_connected(from)
                && data@[0] == UNRELIABLE ==> ({
                let i = idx_of_conn(old(self).conns_s(), from);
                &&& r.0@.len() == 1
                &&& (r.0@[0] matches UdpEvent::Received(a, p) && a == from && p@ == data@.skip(1))
                &&& r.1 is None
                &&& final(self).conns_s() == old(self).conns_s().update(
                    i,
                    (ConnView { last_recv_time: now, ..old(self).conns_s()[i] }),
                )
                &&& final(self).attempts_s() == old(self).attempts_s()
            }),
            // Reliable data from a connected peer runs through its channel;
            // each released payload becomes one event, in order.
            !old(self).is_banned(from) && data@.len() > 1 && old(self).is_connected(from)
                && data@[0] == RELIABLE && 15 <= data@.len() <= 1401 ==> ({
                let i = idx_of_conn(old(self).conns_s(), from);
                let h = crate::udp_reliable::parsed_header(data@.skip(1));
                let (wout, wwin, wlast) = crate::udp_reliable::window_step(
                    old(self).conns_s()[i].channel.window,
                    old(self).conns_s()[i].channel.last_remote_seq,
                    h.obj_seq,
                    data@.skip(15),
                );
                &&& r.0@.len() == wout.len()
                &&& (forall|k: int|
                    0 <= k < wout.len() ==> ((#[trigger] r.0@[k]) matches UdpEvent::Received(a, p)
                        && a == from && p@ == wout[k]))
                &&& r.1 is None
                &&& final(self).conns_s() == old(self).conns_s().update(
                    i,
                    final(self).conns_s()[i],
                )
                &&& final(self).conns_s()[i].addr == from
                &&& final(self).conns_s()[i].last_recv_time == now
                &&& final(self).conns_s()[i].channel.window == wwin
                &&& final(self).conns_s()[i].channel.last_remote_seq == wlast
                &&& final(self).attempts_s() == old(self).attempts_s()
            }),
            // A data datagram from a connected peer with a bad marker or
            // length is a per-datagram failure, never fatal.
            !old(self).is_banned(from) && data@.len() > 1 && old(self).is_connected(from) && !(
            data@[0] == UNRELIABLE) && !(data@[0] == RELIABLE && 15 <= data@.len() <= 1401) ==> (
            r.0@.len() == 1 && (r.0@[0] matches UdpEvent::ReceiveFail(a, e) && a == from && e
                == FailReason::Malformed) && r.1 is None && *final(self) == *old(self)),
            // A connection request (with or without payload) from a new
            // peer: surfaced while the inbound limit allows, denied past
            // it.
            !old(self).is_banned(from) && data@.len() >= 1 && !old(self).is_connected(from)
                && data@[0] == CON_REQ ==> ({
                &&& *final(self) == *old(self)
                &&& (inbound_count(old(self).conns_s()) < old(self).cfg().max_inc_conns ==> ({
                    &&& r.1 is None
                    &&& r.0@.len() == 1
                    &&& (data@.len() == 1 ==> (r.0@[0] matches UdpEvent::ConnectRequest(a) && a
                        == from))
                    &&& (data@.len() > 1 ==> (r.0@[0] matches UdpEvent::ConnectRequestData(a, p)
                        && a == from && p@ == data@.skip(1)))
                }))
                &&& (inbound_count(old(self).conns_s()) >= old(self).cfg().max_inc_conns ==> (
                r.0@.len() == 0 && (r.1 matches Some(d) && d@ == seq![DENY])))
            }),
            // Disconnect signal: the connection goes at once, with one
            // event; unknown peers are ignored.
            !old(self).is_banned(from) && data@.len() == 1 && data@[0] == DISC ==> ({
                &&& r.1 is None
                &&& (old(self).is_connected(from) ==> r.0@.len() == 1 && (
                r.0@[0] matches UdpEvent::Disconnected(a) && a == from) && final(self).conns_s()
                    == old(self).conns_s().remove(idx_of_conn(old(self).conns_s(), from))
                    && final(self).attempts_s() == old(self).attempts_s())
                &&& (!old(self).is_connected(from) ==> r.0@.len() == 0 && *final(self) == *old(
                    self,
                ))
            }),
            // Denial while attempting: the attempt dies with one failure
            // event; without an attempt it is ignored.
            !old(self).is_banned(from) && data@.len() == 1 && data@[0] == DENY ==> ({
                &&& r.1 is None
                &&& (old(self).is_connecting(from) ==> r.0@.len() == 1 && (
                r.0@[0] matches UdpEvent::ConnectFail(a, e) && a == from && e == FailReason::Denied)
                    && final(self).attempts_s() == old(self).attempts_s().remove(
                    idx_of_attempt(old(self).attempts_s(), from),
                ) && final(self).conns_s() == old(self).conns_s())
                &&& (!old(self).is_connecting(from) ==> r.0@.len() == 0 && *final(self) == *old(
                    self,
                ))
            }),
            // Acceptance while attempting: the requester's side of the
            // handshake completes and a connection exists; a late
            // acceptance with no attempt is ignored.
            !old(self).is_banned(from) && data@.len() == 1 && data@[0] == ACCEPT ==> ({
                &&& r.1 is None
                &&& (old(self).is_connecting(from) ==> r.0@.len() == 1 && (
                r.0@[0] matches UdpEvent::Connected(a) && a == from) && final(self).is_connected(
                    from,
                ) && final(self).attempts_s() == old(self).attempts_s().remove(
                    idx_of_attempt(old(self).attempts_s(), from),
                ) && (forall|x: Addr|
                    final(self).is_connected(x) <==> (old(self).is_connected(x) || x == from)))
                &&& (!old(self).is_connecting(from) ==> r.0@.len() == 0 && *final(self) == *old(
                    self,
                ))
            }),
            // Unknown single-byte signals are ignored.
            !old(self).is_banned(from) && data@.len() == 1 && data@[0] != CON_REQ && data@[0]
                != DISC && data@[0] != DENY && data@[0] != ACCEPT ==> r.0@.len() == 0 && r.1 is None
                && *final(self) == *old(self),
            // Anything longer from an unknown peer that is not a request is
            // malformed.
            !old(self).is_banned(from) && data@.len() > 1 && !old(self).is_connected(from)
                && data@[0] != CON_REQ ==> r.0@.len() == 1 && (
            r.0@[0] matches UdpEvent::ReceiveFail(a, e) && a == from && e == FailReason::Malformed)
                && r.1 is None && *final(self) == *old(self),
    {
        let mut events: Vec<UdpEvent> = Vec::new();
        if self.banned(&from) {
            return (events, None);
        }
        if data.len() == 0 {
            return (events, None);
        }
        let found = self.find_conn(from);
        if data.len() > 1 && found.is_some() {
            let i = found.unwrap();
            let first = data[0];
            if first == UNRELIABLE {
                let ghost c0 = self.conns@;
                let mut c = self.conns.remove(i);
                let payload = c.try_receive_unreliable(data, now);
                let ghost cv = c@;
                self.conns.insert(i, c);
                proof {
                    UdpSock::lemma_reinserted(&*self, old(self), c0, i as int, cv);
                }
                events.push(UdpEvent::Received(from, payload));
                proof {
                    assert(events@.len() == 1);
                }
                return (events, None);
            } else if first == RELIABLE && data.len() >= 15 && data.len() <= 1401 {
                let ghost c0 = self.conns@;
                let mut c = self.conns.remove(i);
                let got = c.try_receive_reliable(data, now);
                let ghost cv = c@;
                self.conns.insert(i, c);
                proof {
                    UdpSock::lemma_reinserted(&*self, old(self), c0, i as int, cv);
                }
                match got {
                    Ok(payloads) => {
                        let ghost ps = payloads@;
                        let total = payloads.len();
                        let mut k: usize = 0;
                        let mut payloads = payloads;
                        proof {
                            assert(ps.len() == total);
                        }
                        while payloads.len() > 0
                            invariant
                                ps.len() <= usize::MAX,
                                payloads@.len() + k == ps.len(),
                                payloads@ == ps.skip(k as int),
                                events@.len() == k,
                                forall|q: int|
                                    0 <= q < k ==> ((#[trigger] events@[q])
                                        matches UdpEvent::Received(a, p) && a == from && p@
                                        == ps[q]@),
                            decreases payloads@.len(),
                        {
                            let ghost pprev = payloads@;
                            let p = payloads.remove(0);
                            proof {
                                assert(pprev[0] == ps[k as int]);
                                assert(payloads@ =~= ps.skip(k as int + 1));
                            }
                            events.push(UdpEvent::Received(from, p));
                            k = k + 1;
                        }
                        proof {
                            assert(crate::udp_reliable::payloads_of(ps) == crate::udp_reliable::payloads_of(ps));
                        }
                        return (events, None);
                    },
                    Err(_) => {
                        events.push(UdpEvent::ReceiveFail(from, FailReason::Malformed));
                        return (events, None);
                    },
                }
            } else {
                events.push(UdpEvent::ReceiveFail(from, FailReason::Malformed));
                return (events, None);
            }
        }
        if data.len() >= 1 && found.is_none() && data[0] == CON_REQ {
            if (self.inbound_conns() as u64) < (self.config.max_inc_conns as u64) {
                if data.len() == 1 {
                    events.push(UdpEvent::ConnectRequest(from));
                } else {
                    let payload = crate::udp_conn::copy_vec(data);
                    let mut payload = payload;
                    let tail = tail_of(&payload);
                    events.push(UdpEvent::ConnectRequestData(from, tail));
                }
                return (events, None);
            } else {
                let mut d: Vec<u8> = Vec::new();
                d.push(DENY);
                proof {
                    assert(d@ =~= seq![DENY]);
                }
                return (events, Some(d));
            }
        }
        if data.len() == 1 {
            let b = data[0];
            if b == DISC {
                match self.find_conn(from) {
                    Some(i) => {
                        let ghost c0 = self.conns@;
                        self.conns.remove(i);
                        proof {
                            lemma_cmap_remove(c0, i as int);
                            lemma_conns_remove(old(self).conns_s(), i as int);
                            lemma_banned_unchanged(old(self), self);
                            assert forall|j: int|
                                0 <= j < self.conns@.len() implies (
                            #[trigger] self.conns@[j]).wf() by {
                                if j < i {
                                    assert(self.conns@[j] == c0[j]);
                                } else {
                                    assert(self.conns@[j] == c0[j + 1]);
                                }
                            }
                        }
                        events.push(UdpEvent::Disconnected(from));
                    },
                    None => {
                    },
                }
                return (events, None);
            } else if b == DENY {
                match self.find_attempt(from) {
                    Some(i) => {
                        let ghost a0 = self.conn_attempts@;
                        self.conn_attempts.remove(i);
                        proof {
                            lemma_amap_remove(a0, i as int);
                            lemma_attempts_remove(old(self).attempts_s(), i as int);
                            lemma_banned_unchanged(old(self), self);
                        }
                        events.push(UdpEvent::ConnectFail(from, FailReason::Denied));
                    },
                    None => {
                    },
                }
                return (events, None);
            } else if b == ACCEPT {
                match self.find_attempt(from) {
                    Some(i) => {
                        let ghost a0 = self.conn_attempts@;
                        self.conn_attempts.remove(i);
                        proof {
                            lemma_amap_remove(a0, i as int);
                            lemma_attempts_remove(old(self).attempts_s(), i as int);
                            lemma_banned_unchanged(old(self), self);
                        }
                        if self.find_conn(from).is_none() {
                            let c = UdpConn::new(from, now);
                            let ghost c0 = self.conns@;
                            let ghost cv = c@;
                            self.conns.push(c);
                            proof {
                                lemma_cmap_push(c0, self.conns@[c0.len() as int]);
                                lemma_conns_push(cmap(c0), cv);
                                assert forall|j: int|
                                    0 <= j < self.conns@.len() implies (
                                #[trigger] self.conns@[j]).wf() by {
                                    if j < c0.len() {
                                        assert(self.conns@[j] == c0[j]);
                                    }
                                }
                            }
                        }
                        events.push(UdpEvent::Connected(from));
                    },
                    None => {
                    },
                }
                return (events, None);
            } else {
                return (events, None);
            }
        }
        events.push(UdpEvent::ReceiveFail(from, FailReason::Malformed));
        (events, None)
    }

    /// How many live connections the peers initiated.
    fn inbound_conns(&self) -> (r: usize)
        requires
            self.wf(),
        ensures
            r == inbound_count(self.conns_s()),
    {
        let ghost cs = self.conns_s();
        let mut n: usize = 0;
        let mut k: usize = 0;
        proof {
            lemma_inbound_count_bound(cs);
            lemma_inbound_prefix(cs, 0);
        }
        while k < self.conns.len()
            invariant
                self.wf(),
                cs == self.conns_s(),
                k <= cs.len(),
                n == inbound_count(cs.subrange(0, k as int)),
                n <= k,
            decreases cs.len() - k,
        {
            proof {
                lemma_inbound_snoc(cs, k as int);
            }
            if self.conns[k].is_inbound() {
                n = n + 1;
            }
            k = k + 1;
        }
        proof {
            assert(cs.subrange(0, cs.len() as int) =~= cs);
        }
        n
    }

    /// Re-inserting a mutated connection at its index is an in-place
    /// update, and the session invariants survive when its address did.
    proof fn lemma_reinserted(post: &UdpSock, pre: &UdpSock, c0: Seq<UdpConn>, i: int, cv: ConnView)
        requires
            pre.wf(),
            0 <= i < c0.len(),
            c0 == pre.conns@,
            post.conns@ == c0.remove(i).insert(i, post.conns@[i]),
            post.conns@.len() == c0.len(),
            post.conns@[i]@ == cv,
            post.conns@[i].wf(),
            cv.addr == pre.conns_s()[i].addr,
            post.conn_attempts@ == pre.conn_attempts@,
            post.reject_addrs@ == pre.reject_addrs@,
            post.config == pre.config,
        ensures
            post.wf(),
            post.conns_s() == pre.conns_s().update(i, cv),
            post.attempts_s() == pre.attempts_s(),
            post.banned_s() == pre.banned_s(),
            forall|x: Addr| post.is_connected(x) <==> pre.is_connected(x),
    {
        lemma_cmap_reinsert(c0, i, post.conns@[i]);
        lemma_conns_update(pre.conns_s(), i, cv);
        lemma_banned_unchanged(pre, post);
        assert forall|j: int| 0 <= j < post.conns@.len() implies (
        #[trigger] post.conns@[j]).wf() by {
            if j != i {
                assert(post.conns@[j] == c0.remove(i).insert(i, post.conns@[i])[j]);
                assert(post.conns@[j] == c0[j]);
            }
        }
        assert(post.conns_s() =~= pre.conns_s().update(i, cv));
    }
}

/// Inbound connections are never more numerous than the table.
proof fn lemma_inbound_count_bound(s: Seq<ConnView>)
    ensures
        inbound_count(s) <= s.len(),
    decreases s.len(),
{
    if s.len() > 0 {
        lemma_inbound_count_bound(s.skip(1));
    }
}

/// The empty prefix holds no inbound connections.
proof fn lemma_inbound_prefix(s: Seq<ConnView>, k: int)
    requires
        k == 0,
    ensures
        inbound_count(s.subrange(0, 0)) == 0,
{
    assert(s.subrange(0, 0) =~= Seq::<ConnView>::empty());
}

/// Counting one more table row adds its inbound flag.
proof fn lemma_inbound_snoc(s: Seq<ConnView>, k: int)
    requires
        0 <= k < s.len(),
    ensures
        inbound_count(s.subrange(0, k + 1)) == inbound_count(s.subrange(0, k)) + (if s[k].inbound {
            1nat
        } else {
            0nat
        }),
    decreases k,
{
    if k == 0 {
        assert(s.subrange(0, 1).skip(1) =~= Seq::<ConnView>::empty());
        assert(s.subrange(0, 0) =~= Seq::<ConnView>::empty());
        assert(s.subrange(0, 1)[0] == s[0]);
    } else {
        lemma_inbound_snoc(s.skip(1), k - 1);
        assert(s.subrange(0, k + 1).skip(1) =~= s.skip(1).subrange(0, k));
        assert(s.subrange(0, k).skip(1) =~= s.skip(1).subrange(0, k - 1));
        assert(s.subrange(0, k + 1)[0] == s[0]);
        assert(s.subrange(0, k)[0] == s[0]);
        assert(s.skip(1)[k - 1] == s[k]);
    }
}

/// The ghost image of a batch of addressed datagrams.
pub open spec fn dg_of(s: Seq<(Addr, Vec<u8>)>) -> Seq<(Addr, Seq<u8>)> {
    s.map_values(|p: (Addr, Vec<u8>)| (p.0, p.1@))
}

/// Whether a connect attempt is due for another try.
pub open spec fn attempt_due(a: AttemptView, now: u32, delay: u32) -> bool {
    now >= a.last_attempt && now - a.last_attempt > delay
}

/// The attempt table after one maintenance pass: due attempts under the
/// retry limit are retried and restamped; due attempts at the limit are
/// dropped; the rest wait.
pub open spec fn attempts_step(s: Seq<AttemptView>, now: u32, cfg: UdpConfig) -> Seq<AttemptView>
    decreases s.len(),
{
    if s.len() == 0 {
        s
    } else {
        (if !attempt_due(s[0], now, cfg.connect_retry_delay) {
            seq![s[0]]
        } else if s[0].retry_count < cfg.max_connect_retry {
            seq![
                AttemptView {
                    last_attempt: now,
                    retry_count: (s[0].retry_count + 1) as u32,
                    ..s[0]
                },
            ]
        } else {
            Seq::<AttemptView>::empty()
        }) + attempts_step(s.skip(1), now, cfg)
    }
}

/// One timeout failure for every attempt the pass drops, in table order.
pub open spec fn attempts_fail(s: Seq<AttemptView>, now: u32, cfg: UdpConfig) -> Seq<UdpEvent>
    decreases s.len(),
{
    if s.len() == 0 {
        Seq::empty()
    } else {
        (if attempt_due(s[0], now, cfg.connect_retry_delay) && s[0].retry_count
            >= cfg.max_connect_retry {
            seq![UdpEvent::ConnectFail(s[0].addr, FailReason::Timeout)]
        } else {
            Seq::<UdpEvent>::empty()
        }) + attempts_fail(s.skip(1), now, cfg)
    }
}

/// The request datagrams the pass resends, in table order.
pub open spec fn attempts_out(s: Seq<AttemptView>, now: u32, cfg: UdpConfig) -> Seq<(Addr, Seq<u8>)>
    decreases s.len(),
{
    if s.len() == 0 {
        Seq::empty()
    } else {
        (if attempt_due(s[0], now, cfg.connect_retry_delay) && s[0].retry_count
            < cfg.max_connect_retry {
            seq![(s[0].addr, s[0].data)]
        } else {
            Seq::<(Addr, Seq<u8>)>::empty()
        }) + attempts_out(s.skip(1), now, cfg)
    }
}

proof fn lemma_attempts_step_snoc(s: Seq<AttemptView>, e: AttemptView, now: u32, cfg: UdpConfig)
    ensures
        attempts_step(s.push(e), now, cfg) == attempts_step(s, now, cfg) + (if !attempt_due(
            e,
            now,
            cfg.connect_retry_delay,
        ) {
            seq![e]
        } else if e.retry_count < cfg.max_connect_retry {
            seq![AttemptView { last_attempt: now, retry_count: (e.retry_count + 1) as u32, ..e }]
        } else {
            Seq::<AttemptView>::empty()
        }),
        attempts_fail(s.push(e), now, cfg) == attempts_fail(s, now, cfg) + (if attempt_due(
            e,
            now,
            cfg.connect_retry_delay,
        ) && e.retry_count >= cfg.max_connect_retry {
            seq![UdpEvent::ConnectFail(e.addr, FailReason::Timeout)]
        } else {
            Seq::<UdpEvent>::empty()
        }),
        attempts_out(s.push(e), now, cfg) == attempts_out(s, now, cfg) + (if attempt_due(
            e,
            now,
            cfg.connect_retry_delay,
        ) && e.retry_count < cfg.max_connect_retry {
            seq![(e.addr, e.data)]
        } else {
            Seq::<(Addr, Seq<u8>)>::empty()
        }),
    decreases s.len(),
{
    if s.len() == 0 {
        assert(s.push(e).skip(1) =~= Seq::<AttemptView>::empty());
        assert(s.push(e)[0] == e);
        assert(attempts_step(Seq::<AttemptView>::empty(), now, cfg) == Seq::<AttemptView>::empty());
        assert(attempts_fail(Seq::<AttemptView>::empty(), now, cfg) == Seq::<UdpEvent>::empty());
        assert(attempts_out(Seq::<AttemptView>::empty(), now, cfg) == Seq::<
            (Addr, Seq<u8>),
        >::empty());
        assert(attempts_step(s.push(e), now, cfg) == (if !attempt_due(
            e,
            now,
            cfg.connect_retry_delay,
        ) {
            seq![e]
        } else if e.retry_count < cfg.max_connect_retry {
            seq![AttemptView { last_attempt: now, retry_count: (e.retry_count + 1) as u32, ..e }]
        } else {
            Seq::<AttemptView>::empty()
        }) + attempts_step(Seq::<AttemptView>::empty(), now, cfg));
        assert(attempts_fail(s.push(e), now, cfg) == (if attempt_due(
            e,
            now,
            cfg.connect_retry_delay,
        ) && e.retry_count >= cfg.max_connect_retry {
            seq![UdpEvent::ConnectFail(e.addr, FailReason::Timeout)]
        } else {
            Seq::<UdpEvent>::empty()
        }) + attempts_fail(Seq::<AttemptView>::empty(), now, cfg));
        assert(attempts_out(s.push(e), now, cfg) == (if attempt_due(
            e,
            now,
            cfg.connect_retry_delay,
        ) && e.retry_count < cfg.max_connect_retry {
            seq![(e.addr, e.data)]
        } else {
            Seq::<(Addr, Seq<u8>)>::empty()
        }) + attempts_out(Seq::<AttemptView>::empty(), now, cfg));
        assert(attempts_step(s.push(e), now, cfg) =~= attempts_step(s, now, cfg) + (
        if !attempt_due(e, now, cfg.connect_retry_delay) {
            seq![e]
        } else if e.retry_count < cfg.max_connect_retry {
            seq![AttemptView { last_attempt: now, retry_count: (e.retry_count + 1) as u32, ..e }]
        } else {
            Seq::<AttemptView>::empty()
        }));
        assert(attempts_fail(s.push(e), now, cfg) =~= attempts_fail(s, now, cfg) + (if attempt_due(
            e,
            now,
            cfg.connect_retry_delay,
        ) && e.retry_count >= cfg.max_connect_retry {
            seq![UdpEvent::ConnectFail(e.addr, FailReason::Timeout)]
        } else {
            Seq::<UdpEvent>::empty()
        }));
        assert(attempts_out(s.push(e), now, cfg) =~= attempts_out(s, now, cfg) + (if attempt_due(
            e,
            now,
            cfg.connect_retry_delay,
        ) && e.retry_count < cfg.max_connect_retry {
            seq![(e.addr, e.data)]
        } else {
            Seq::<(Addr, Seq<u8>)>::empty()
        }));
    } else {
        assert(s.push(e).skip(1) =~= s.skip(1).push(e));
        lemma_attempts_step_snoc(s.skip(1), e, now, cfg);
        assert(s.push(e)[0] == s[0]);
        assert(attempts_step(s.push(e), now, cfg) == (if !attempt_due(
            s[0],
            now,
            cfg.connect_retry_delay,
        ) {
            seq![s[0]]
        } else if s[0].retry_count < cfg.max_connect_retry {
            seq![
                AttemptView {
                    last_attempt: now,
                    retry_count: (s[0].retry_count + 1) as u32,
                    ..s[0]
                },
            ]
        } else {
            Seq::<AttemptView>::empty()
        }) + attempts_step(s.skip(1).push(e), now, cfg));
        assert(attempts_step(s, now, cfg) == (if !attempt_due(s[0], now, cfg.connect_retry_delay) {
            seq![s[0]]
        } else if s[0].retry_count < cfg.max_connect_retry {
            seq![
                AttemptView {
                    last_attempt: now,
                    retry_count: (s[0].retry_count + 1) as u32,
                    ..s[0]
                },
            ]
        } else {
            Seq::<AttemptView>::empty()
        }) + attempts_step(s.skip(1), now, cfg));
        assert(attempts_fail(s.push(e), now, cfg) == (if attempt_due(
            s[0],
            now,
            cfg.connect_retry_delay,
        ) && s[0].retry_count >= cfg.max_connect_retry {
            seq![UdpEvent::ConnectFail(s[0].addr, FailReason::Timeout)]
        } else {
            Seq::<UdpEvent>::empty()
        }) + attempts_fail(s.skip(1).push(e), now, cfg));
        assert(attempts_fail(s, now, cfg) == (if attempt_due(s[0], now, cfg.connect_retry_delay)
            && s[0].retry_count >= cfg.max_connect_retry {
            seq![UdpEvent::ConnectFail(s[0].addr, FailReason::Timeout)]
        } else {
            Seq::<UdpEvent>::empty()
        }) + attempts_fail(s.skip(1), now, cfg));
        assert(attempts_out(s.push(e), now, cfg) == (if attempt_due(
            s[0],
            now,
            cfg.connect_retry_delay,
        ) && s[0].retry_count < cfg.max_connect_retry {
            seq![(s[0].addr, s[0].data)]
        } else {
            Seq::<(Addr, Seq<u8>)>::empty()
        }) + attempts_out(s.skip(1).push(e), now, cfg));
        assert(attempts_out(s, now, cfg) == (if attempt_due(s[0], now, cfg.connect_retry_delay)
            && s[0].retry_count < cfg.max_connect_retry {
            seq![(s[0].addr, s[0].data)]
        } else {
            Seq::<(Addr, Seq<u8>)>::empty()
        }) + attempts_out(s.skip(1), now, cfg));
        assert(attempts_step(s.push(e), now, cfg) =~= attempts_step(s, now, cfg) + (
        if !attempt_due(e, now, cfg.connect_retry_delay) {
            seq![e]
        } else if e.retry_count < cfg.max_connect_retry {
            seq![AttemptView { last_attempt: now, retry_count: (e.retry_count + 1) as u32, ..e }]
        } else {
            Seq::<AttemptView>::empty()
        }));
        assert(attempts_fail(s.push(e), now, cfg) =~= attempts_fail(s, now, cfg) + (if attempt_due(
            e,
            now,
            cfg.connect_retry_delay,
        ) && e.retry_count >= cfg.max_connect_retry {
            seq![UdpEvent::ConnectFail(e.addr, FailReason::Timeout)]
        } else {
            Seq::<UdpEvent>::empty()
        }));
        assert(attempts_out(s.push(e), now, cfg) =~= attempts_out(s, now, cfg) + (if attempt_due(
            e,
            now,
            cfg.connect_retry_delay,
        ) && e.retry_count < cfg.max_connect_retry {
            seq![(e.addr, e.data)]
        } else {
            Seq::<(Addr, Seq<u8>)>::empty()
        }));
    }
}

/// Attempts that survive a pass keep their addresses, so uniqueness and
/// membership carry over.
pub proof fn lemma_attempts_step_addrs(s: Seq<AttemptView>, now: u32, cfg: UdpConfig)
    ensures
        attempts_step(s, now, cfg).len() <= s.len(),
        forall|a: Addr| has_attempt_in(attempts_step(s, now, cfg), a) ==> has_attempt_in(s, a),
        attempts_distinct(s) ==> attempts_distinct(attempts_step(s, now, cfg)),
    decreases s.len(),
{
    let post = attempts_step(s, now, cfg);
    if s.len() > 0 {
        lemma_attempts_step_addrs(s.skip(1), now, cfg);
        let head = (if !attempt_due(s[0], now, cfg.connect_retry_delay) {
            seq![s[0]]
        } else if s[0].retry_count < cfg.max_connect_retry {
            seq![
                AttemptView {
                    last_attempt: now,
                    retry_count: (s[0].retry_count + 1) as u32,
                    ..s[0]
                },
            ]
        } else {
            Seq::<AttemptView>::empty()
        });
        let rest = attempts_step(s.skip(1), now, cfg);
        assert(post == head + rest);
        assert forall|a: Addr| has_attempt_in(post, a) implies has_attempt_in(s, a) by {
            let j = choose|j: int| 0 <= j < post.len() && post[j].addr == a;
            if j < head.len() {
                assert(s[0].addr == a);
            } else {
                assert(rest[j - head.len()].addr == a);
                assert(has_attempt_in(s.skip(1), a));
                let q = choose|q: int| 0 <= q < s.skip(1).len() && s.skip(1)[q].addr == a;
                assert(s[q + 1].addr == a);
            }
        }
        if attempts_distinct(s) {
            assert(forall|i: int, j: int|
                0 <= i < j < s.skip(1).len() ==> s.skip(1)[i].addr != s.skip(1)[j].addr);
            assert forall|i: int, j: int|
                0 <= i < j < post.len() implies post[i].addr != post[j].addr by {
                if i < head.len() {
                    assert(post[i].addr == s[0].addr);
                    assert(rest[j - head.len()].addr == post[j].addr);
                    assert(has_attempt_in(s.skip(1), post[j].addr));
                    let q = choose|q: int|
                        0 <= q < s.skip(1).len() && s.skip(1)[q].addr == post[j].addr;
                    assert(s[q + 1].addr == post[j].addr);
                } else {
                    assert(post[i] == rest[i - head.len()]);
                    assert(post[j] == rest[j - head.len()]);
                }
            }
        }
    }
}

/// The channel after the outgoing flush of one maintenance pass.
pub open spec fn flushed_channel(ch: ChannelView, now: u32) -> ChannelView {
    if ch.buffered.len() != 0 && ch.unacked.len() < 64 {
        ChannelView {
            local_seq: next_seq(ch.local_seq),
            recv_since_last_send: 0,
            last_send_time: now,
            unacked: ch.unacked.push(
                (ch.local_seq, now, crate::bits::bits_to_bytes(ch.buffered)),
            ),
            buffered: Seq::<bool>::empty(),
            ..ch
        }
    } else if ch.buffered.len() == 0 && need_ack(ch, now) {
        ChannelView { last_send_time: now, recv_since_last_send: 0, ..ch }
    } else {
        ch
    }
}

/// Whether the flush pass keeps this connection: it drops only peers whose
/// retransmission window has overflowed.
pub open spec fn flush_keeps(v: ConnView) -> bool {
    !(v.channel.buffered.len() != 0 && v.channel.unacked.len() >= 64)
}

/// The connection table after the flush pass.
pub open spec fn flush_keep(s: Seq<ConnView>, now: u32) -> Seq<ConnView>
    decreases s.len(),
{
    if s.len() == 0 {
        s
    } else {
        (if flush_keeps(s[0]) {
            seq![(ConnView { channel: flushed_channel(s[0].channel, now), ..s[0] })]
        } else {
            Seq::<ConnView>::empty()
        }) + flush_keep(s.skip(1), now)
    }
}

/// One disconnect for every peer the flush pass drops.
pub open spec fn flush_events(s: Seq<ConnView>, now: u32) -> Seq<UdpEvent>
    decreases s.len(),
{
    if s.len() == 0 {
        Seq::empty()
    } else {
        (if !flush_keeps(s[0]) {
            seq![UdpEvent::Disconnected(s[0].addr)]
        } else {
            Seq::<UdpEvent>::empty()
        }) + flush_events(s.skip(1), now)
    }
}

/// The datagram one connection contributes to the flush pass, if any.
pub open spec fn flush_datagram(v: ConnView, now: u32) -> Seq<(Addr, Seq<u8>)> {
    if v.channel.buffered.len() != 0 && v.channel.unacked.len() < 64 {
        seq![(v.addr, seq![RELIABLE] + crate::bits::bits_to_bytes(v.channel.buffered))]
    } else if v.channel.buffered.len() == 0 && need_ack(v.channel, now) {
        seq![
            (
                v.addr,
                seq![RELIABLE] + crate::bits::bits_to_bytes(
                    header_bits(header_of(v.channel, now)),
                ),
            ),
        ]
    } else {
        Seq::<(Addr, Seq<u8>)>::empty()
    }
}

/// The datagrams the flush pass sends, in table order.
pub open spec fn flush_out(s: Seq<ConnView>, now: u32) -> Seq<(Addr, Seq<u8>)>
    decreases s.len(),
{
    if s.len() == 0 {
        Seq::empty()
    } else {
        (if flush_keeps(s[0]) {
            flush_datagram(s[0], now)
        } else {
            Seq::<(Addr, Seq<u8>)>::empty()
        }) + flush_out(s.skip(1), now)
    }
}

proof fn lemma_flush_snoc(s: Seq<ConnView>, e: ConnView, now: u32)
    ensures
        flush_keep(s.push(e), now) == flush_keep(s, now) + (if flush_keeps(e) {
            seq![(ConnView { channel: flushed_channel(e.channel, now), ..e })]
        } else {
            Seq::<ConnView>::empty()
        }),
        flush_events(s.push(e), now) == flush_events(s, now) + (if !flush_keeps(e) {
            seq![UdpEvent::Disconnected(e.addr)]
        } else {
            Seq::<UdpEvent>::empty()
        }),
        flush_out(s.push(e), now) == flush_out(s, now) + (if flush_keeps(e) {
            flush_datagram(e, now)
        } else {
            Seq::<(Addr, Seq<u8>)>::empty()
        }),
    decreases s.len(),
{
    if s.len() == 0 {
        assert(s.push(e).skip(1) =~= Seq::<ConnView>::empty());
        assert(s.push(e)[0] == e);
        assert(flush_keep(Seq::<ConnView>::empty(), now) == Seq::<ConnView>::empty());
        assert(flush_events(Seq::<ConnView>::empty(), now) == Seq::<UdpEvent>::empty());
        assert(flush_out(Seq::<ConnView>::empty(), now) == Seq::<(Addr, Seq<u8>)>::empty());
        assert(flush_keep(s.push(e), now) == (if flush_keeps(e) {
            seq![(ConnView { channel: flushed_channel(e.channel, now), ..e })]
        } else {
            Seq::<ConnView>::empty()
        }) + flush_keep(Seq::<ConnView>::empty(), now));
        assert(flush_events(s.push(e), now) == (if !flush_keeps(e) {
            seq![UdpEvent::Disconnected(e.addr)]
        } else {
            Seq::<UdpEvent>::empty()
        }) + flush_events(Seq::<ConnView>::empty(), now));
        assert(flush_out(s.push(e), now) == (if flush_keeps(e) {
            flush_datagram(e, now)
        } else {
            Seq::<(Addr, Seq<u8>)>::empty()
        }) + flush_out(Seq::<ConnView>::empty(), now));
        assert(flush_keep(s.push(e), now) =~= flush_keep(s, now) + (if flush_keeps(e) {
            seq![(ConnView { channel: flushed_channel(e.channel, now), ..e })]
        } else {
            Seq::<ConnView>::empty()
        }));
        assert(flush_events(s.push(e), now) =~= flush_events(s, now) + (if !flush_keeps(e) {
            seq![UdpEvent::Disconnected(e.addr)]
        } else {
            Seq::<UdpEvent>::empty()
        }));
        assert(flush_out(s.push(e), now) =~= flush_out(s, now) + (if flush_keeps(e) {
            flush_datagram(e, now)
        } else {
            Seq::<(Addr, Seq<u8>)>::empty()
        }));
    } else {
        assert(s.push(e).skip(1) =~= s.skip(1).push(e));
        lemma_flush_snoc(s.skip(1), e, now);
        assert(s.push(e)[0] == s[0]);
        assert(flush_keep(s.push(e), now) == (if flush_keeps(s[0]) {
            seq![(ConnView { channel: flushed_channel(s[0].channel, now), ..s[0] })]
        } else {
            Seq::<ConnView>::empty()
        }) + flush_keep(s.skip(1).push(e), now));
        assert(flush_keep(s, now) == (if flush_keeps(s[0]) {
            seq![(ConnView { channel: flushed_channel(s[0].channel, now), ..s[0] })]
        } else {
            Seq::<ConnView>::empty()
        }) + flush_keep(s.skip(1), now));
        assert(flush_events(s.push(e), now) == (if !flush_keeps(s[0]) {
            seq![UdpEvent::Disconnected(s[0].addr)]
        } else {
            Seq::<UdpEvent>::empty()
        }) + flush_events(s.skip(1).push(e), now));
        assert(flush_events(s, now) == (if !flush_keeps(s[0]) {
            seq![UdpEvent::Disconnected(s[0].addr)]
        } else {
            Seq::<UdpEvent>::empty()
        }) + flush_events(s.skip(1), now));
        assert(flush_out(s.push(e), now) == (if flush_keeps(s[0]) {
            flush_datagram(s[0], now)
        } else {
            Seq::<(Addr, Seq<u8>)>::empty()
        }) + flush_out(s.skip(1).push(e), now));
        assert(flush_out(s, now) == (if flush_keeps(s[0]) {
            flush_datagram(s[0], now)
        } else {
            Seq::<(Addr, Seq<u8>)>::empty()
        }) + flush_out(s.skip(1), now));
        assert(flush_keep(s.push(e), now) =~= flush_keep(s, now) + (if flush_keeps(e) {
            seq![(ConnView { channel: flushed_channel(e.channel, now), ..e })]
        } else {
            Seq::<ConnView>::empty()
        }));
        assert(flush_events(s.push(e), now) =~= flush_events(s, now) + (if !flush_keeps(e) {
            seq![UdpEvent::Disconnected(e.addr)]
        } else {
            Seq::<UdpEvent>::empty()
        }));
        assert(flush_out(s.push(e), now) =~= flush_out(s, now) + (if flush_keeps(e) {
            flush_datagram(e, now)
        } else {
            Seq::<(Addr, Seq<u8>)>::empty()
        }));
    }
}

/// Connections that survive the flush pass keep address, activity time and
/// inbound flag, so uniqueness and membership carry over.
pub proof fn lemma_flush_keep_addrs(s: Seq<ConnView>, now: u32)
    ensures
        flush_keep(s, now).len() <= s.len(),
        forall|a: Addr| has_conn_in(flush_keep(s, now), a) ==> has_conn_in(s, a),
        conns_distinct(s) ==> conns_distinct(flush_keep(s, now)),
        forall|i: int|
            0 <= i < s.len() && flush_keeps(s[i]) ==> has_conn_in(flush_keep(s, now), s[i].addr),
    decreases s.len(),
{
    let post = flush_keep(s, now);
    if s.len() > 0 {
        lemma_flush_keep_addrs(s.skip(1), now);
        let head = (if flush_keeps(s[0]) {
            seq![(ConnView { channel: flushed_channel(s[0].channel, now), ..s[0] })]
        } else {
            Seq::<ConnView>::empty()
        });
        let rest = flush_keep(s.skip(1), now);
        assert(post == head + rest);
        assert forall|a: Addr| has_conn_in(post, a) implies has_conn_in(s, a) by {
            let j = choose|j: int| 0 <= j < post.len() && post[j].addr == a;
            if j < head.len() {
                assert(s[0].addr == a);
            } else {
                assert(rest[j - head.len()].addr == a);
                assert(has_conn_in(s.skip(1), a));
                let q = choose|q: int| 0 <= q < s.skip(1).len() && s.skip(1)[q].addr == a;
                assert(s[q + 1].addr == a);
            }
        }
        assert forall|i: int|
            0 <= i < s.len() && flush_keeps(s[i]) implies has_conn_in(post, s[i].addr) by {
            if i == 0 {
                assert(post[0].addr == s[0].addr);
            } else {
                assert(s.skip(1)[i - 1] == s[i]);
                assert(has_conn_in(rest, s[i].addr));
                let q = choose|q: int| 0 <= q < rest.len() && rest[q].addr == s[i].addr;
                assert(post[head.len() + q].addr == s[i].addr);
            }
        }
        if conns_distinct(s) {
            assert(forall|i: int, j: int|
                0 <= i < j < s.skip(1).len() ==> s.skip(1)[i].addr != s.skip(1)[j].addr);
            assert forall|i: int, j: int|
                0 <= i < j < post.len() implies post[i].addr != post[j].addr by {
                if i < head.len() {
                    assert(post[i].addr == s[0].addr);
                    assert(rest[j - head.len()].addr == post[j].addr);
                    assert(has_conn_in(s.skip(1), post[j].addr));
                    let q = choose|q: int|
                        0 <= q < s.skip(1).len() && s.skip(1)[q].addr == post[j].addr;
                    assert(s[q + 1].addr == post[j].addr);
                } else {
                    assert(post[i] == rest[i - head.len()]);
                    assert(post[j] == rest[j - head.len()]);
                }
            }
        }
    }
}

/// One connection after the retransmission pass.
pub open spec fn retrans_view(v: ConnView, now: u32) -> ConnView {
    ConnView {
        channel: ChannelView {
            unacked: Seq::new(
                v.channel.unacked.len(),
                |i: int|
                    if crate::udp_reliable::retrans_due(v.channel.unacked[i], now) {
                        (v.channel.unacked[i].0, now, v.channel.unacked[i].2)
                    } else {
                        v.channel.unacked[i]
                    },
            ),
            ..v.channel
        },
        ..v
    }
}

/// The connection table after the retransmission pass.
pub open spec fn retrans_upd(s: Seq<ConnView>, now: u32) -> Seq<ConnView> {
    Seq::new(s.len(), |i: int| retrans_view(s[i], now))
}

/// The datagrams one connection retransmits, paired with its address.
pub open spec fn addr_paired(a: Addr, ds: Seq<Seq<u8>>) -> Seq<(Addr, Seq<u8>)> {
    ds.map_values(|d: Seq<u8>| (a, d))
}

/// The datagrams the retransmission pass sends, in table order.
pub open spec fn retrans_flat(s: Seq<ConnView>, now: u32) -> Seq<(Addr, Seq<u8>)>
    decreases s.len(),
{
    if s.len() == 0 {
        Seq::empty()
    } else {
        addr_paired(
            s[0].addr,
            crate::udp_conn::framed(
                crate::udp_reliable::retrans_out(s[0].channel.unacked, now),
            ),
        ) + retrans_flat(s.skip(1), now)
    }
}

proof fn lemma_retrans_flat_snoc(s: Seq<ConnView>, e: ConnView, now: u32)
    ensures
        retrans_flat(s.push(e), now) == retrans_flat(s, now) + addr_paired(
            e.addr,
            crate::udp_conn::framed(crate::udp_reliable::retrans_out(e.channel.unacked, now)),
        ),
    decreases s.len(),
{
    if s.len() == 0 {
        assert(s.push(e).skip(1) =~= Seq::<ConnView>::empty());
        assert(s.push(e)[0] == e);
        assert(retrans_flat(Seq::<ConnView>::empty(), now) == Seq::<(Addr, Seq<u8>)>::empty());
        assert(retrans_flat(s.push(e), now) == addr_paired(
            e.addr,
            crate::udp_conn::framed(crate::udp_reliable::retrans_out(e.channel.unacked, now)),
        ) + retrans_flat(Seq::<ConnView>::empty(), now));
        assert(retrans_flat(s.push(e), now) =~= retrans_flat(s, now) + addr_paired(
            e.addr,
            crate::udp_conn::framed(crate::udp_reliable::retrans_out(e.channel.unacked, now)),
        ));
    } else {
        assert(s.push(e).skip(1) =~= s.skip(1).push(e));
        lemma_retrans_flat_snoc(s.skip(1), e, now);
        assert(s.push(e)[0] == s[0]);
        assert(retrans_flat(s.push(e), now) == addr_paired(
            s[0].addr,
            crate::udp_conn::framed(crate::udp_reliable::retrans_out(s[0].channel.unacked, now)),
        ) + retrans_flat(s.skip(1).push(e), now));
        assert(retrans_flat(s, now) == addr_paired(
            s[0].addr,
            crate::udp_conn::framed(crate::udp_reliable::retrans_out(s[0].channel.unacked, now)),
        ) + retrans_flat(s.skip(1), now));
        assert(retrans_flat(s.push(e), now) =~= retrans_flat(s, now) + addr_paired(
            e.addr,
            crate::udp_conn::framed(crate::udp_reliable::retrans_out(e.channel.unacked, now)),
        ));
    }
}

/// One connection after the unreliable flush.
pub open spec fn unrel_view(v: ConnView) -> ConnView {
    ConnView { unreliable: Seq::<u8>::empty(), ..v }
}

/// The connection table after the unreliable flush.
pub open spec fn unrel_upd(s: Seq<ConnView>) -> Seq<ConnView> {
    Seq::new(s.len(), |i: int| unrel_view(s[i]))
}

/// The unreliable datagrams the pass sends, in table order.
pub open spec fn unrel_out(s: Seq<ConnView>) -> Seq<(Addr, Seq<u8>)>
    decreases s.len(),
{
    if s.len() == 0 {
        Seq::empty()
    } else {
        (if s[0].unreliable.len() != 0 {
            seq![(s[0].addr, s[0].unreliable)]
        } else {
            Seq::<(Addr, Seq<u8>)>::empty()
        }) + unrel_out(s.skip(1))
    }
}

proof fn lemma_unrel_out_snoc(s: Seq<ConnView>, e: ConnView)
    ensures
        unrel_out(s.push(e)) == unrel_out(s) + (if e.unreliable.len() != 0 {
            seq![(e.addr, e.unreliable)]
        } else {
            Seq::<(Addr, Seq<u8>)>::empty()
        }),
    decreases s.len(),
{
    if s.len() == 0 {
        assert(s.push(e).skip(1) =~= Seq::<ConnView>::empty());
        assert(s.push(e)[0] == e);
        assert(unrel_out(Seq::<ConnView>::empty()) == Seq::<(Addr, Seq<u8>)>::empty());
        assert(unrel_out(s.push(e)) == (if e.unreliable.len() != 0 {
            seq![(e.addr, e.unreliable)]
        } else {
            Seq::<(Addr, Seq<u8>)>::empty()
        }) + unrel_out(Seq::<ConnView>::empty()));
        assert(unrel_out(s.push(e)) =~= unrel_out(s) + (if e.unreliable.len() != 0 {
            seq![(e.addr, e.unreliable)]
        } else {
            Seq::<(Addr, Seq<u8>)>::empty()
        }));
    } else {
        assert(s.push(e).skip(1) =~= s.skip(1).push(e));
        lemma_unrel_out_snoc(s.skip(1), e);
        assert(s.push(e)[0] == s[0]);
        assert(unrel_out(s.push(e)) == (if s[0].unreliable.len() != 0 {
            seq![(s[0].addr, s[0].unreliable)]
        } else {
            Seq::<(Addr, Seq<u8>)>::empty()
        }) + unrel_out(s.skip(1).push(e)));
        assert(unrel_out(s) == (if s[0].unreliable.len() != 0 {
            seq![(s[0].addr, s[0].unreliable)]
        } else {
            Seq::<(Addr, Seq<u8>)>::empty()
        }) + unrel_out(s.skip(1)));
        assert(unrel_out(s.push(e)) =~= unrel_out(s) + (if e.unreliable.len() != 0 {
            seq![(e.addr, e.unreliable)]
        } else {
            Seq::<(Addr, Seq<u8>)>::empty()
        }));
    }
}

/// The connection table after the timeout sweep: silent peers go.
pub open spec fn live_keep(s: Seq<ConnView>, now: u32, timeout: u32) -> Seq<ConnView>
    decreases s.len(),
{
    if s.len() == 0 {
        s
    } else {
        (if conn_timed_out(s[0], now, timeout) {
            Seq::<ConnView>::empty()
        } else {
            seq![s[0]]
        }) + live_keep(s.skip(1), now, timeout)
    }
}

/// One disconnect for every peer the sweep removes, in table order.
pub open spec fn timeout_events(s: Seq<ConnView>, now: u32, timeout: u32) -> Seq<UdpEvent>
    decreases s.len(),
{
    if s.len() == 0 {
        Seq::empty()
    } else {
        (if conn_timed_out(s[0], now, timeout) {
            seq![UdpEvent::Disconnected(s[0].addr)]
        } else {
            Seq::<UdpEvent>::empty()
        }) + timeout_events(s.skip(1), now, timeout)
    }
}

proof fn lemma_timeout_snoc(s: Seq<ConnView>, e: ConnView, now: u32, timeout: u32)
    ensures
        live_keep(s.push(e), now, timeout) == live_keep(s, now, timeout) + (if conn_timed_out(
            e,
            now,
            timeout,
        ) {
            Seq::<ConnView>::empty()
        } else {
            seq![e]
        }),
        timeout_events(s.push(e), now, timeout) == timeout_events(s, now, timeout) + (
        if conn_timed_out(e, now, timeout) {
            seq![UdpEvent::Disconnected(e.addr)]
        } else {
            Seq::<UdpEvent>::empty()
        }),
    decreases s.len(),
{
    if s.len() == 0 {
        assert(s.push(e).skip(1) =~= Seq::<ConnView>::empty());
        assert(s.push(e)[0] == e);
        assert(live_keep(Seq::<ConnView>::empty(), now, timeout) == Seq::<ConnView>::empty());
        assert(timeout_events(Seq::<ConnView>::empty(), now, timeout) == Seq::<UdpEvent>::empty());
        assert(live_keep(s.push(e), now, timeout) == (if conn_timed_out(e, now, timeout) {
            Seq::<ConnView>::empty()
        } else {
            seq![e]
        }) + live_keep(Seq::<ConnView>::empty(), now, timeout));
        assert(timeout_events(s.push(e), now, timeout) == (if conn_timed_out(e, now, timeout) {
            seq![UdpEvent::Disconnected(e.addr)]
        } else {
            Seq::<UdpEvent>::empty()
        }) + timeout_events(Seq::<ConnView>::empty(), now, timeout));
        assert(live_keep(s.push(e), now, timeout) =~= live_keep(s, now, timeout) + (
        if conn_timed_out(e, now, timeout) {
            Seq::<ConnView>::empty()
        } else {
            seq![e]
        }));
        assert(timeout_events(s.push(e), now, timeout) =~= timeout_events(s, now, timeout) + (
        if conn_timed_out(e, now, timeout) {
            seq![UdpEvent::Disconnected(e.addr)]
        } else {
            Seq::<UdpEvent>::empty()
        }));
    } else {
        assert(s.push(e).skip(1) =~= s.skip(1).push(e));
        lemma_timeout_snoc(s.skip(1), e, now, timeout);
        assert(s.push(e)[0] == s[0]);
        assert(live_keep(s.push(e), now, timeout) == (if conn_timed_out(s[0], now, timeout) {
            Seq::<ConnView>::empty()
        } else {
            seq![s[0]]
        }) + live_keep(s.skip(1).push(e), now, timeout));
        assert(live_keep(s, now, timeout) == (if conn_timed_out(s[0], now, timeout) {
            Seq::<ConnView>::empty()
        } else {
            seq![s[0]]
        }) + live_keep(s.skip(1), now, timeout));
        assert(timeout_events(s.push(e), now, timeout) == (if conn_timed_out(s[0], now, timeout) {
            seq![UdpEvent::Disconnected(s[0].addr)]
        } else {
            Seq::<UdpEvent>::empty()
        }) + timeout_events(s.skip(1).push(e), now, timeout));
        assert(timeout_events(s, now, timeout) == (if conn_timed_out(s[0], now, timeout) {
            seq![UdpEvent::Disconnected(s[0].addr)]
        } else {
            Seq::<UdpEvent>::empty()
        }) + timeout_events(s.skip(1), now, timeout));
        assert(live_keep(s.push(e), now, timeout) =~= live_keep(s, now, timeout) + (
        if conn_timed_out(e, now, timeout) {
            Seq::<ConnView>::empty()
        } else {
            seq![e]
        }));
        assert(timeout_events(s.push(e), now, timeout) =~= timeout_events(s, now, timeout) + (
        if conn_timed_out(e, now, timeout) {
            seq![UdpEvent::Disconnected(e.addr)]
        } else {
            Seq::<UdpEvent>::empty()
        }));
    }
}

/// Connections that survive the sweep are unchanged, so uniqueness and
/// membership carry over.
pub proof fn lemma_live_keep_addrs(s: Seq<ConnView>, now: u32, timeout: u32)
    ensures
        live_keep(s, now, timeout).len() <= s.len(),
        forall|a: Addr| has_conn_in(live_keep(s, now, timeout), a) ==> has_conn_in(s, a),
        conns_distinct(s) ==> conns_distinct(live_keep(s, now, timeout)),
        forall|j: int|
            0 <= j < live_keep(s, now, timeout).len() ==> exists|i: int|
                0 <= i < s.len() && !conn_timed_out(s[i], now, timeout)
                    && #[trigger] live_keep(s, now, timeout)[j] == s[i],
    decreases s.len(),
{
    let post = live_keep(s, now, timeout);
    if s.len() > 0 {
        lemma_live_keep_addrs(s.skip(1), now, timeout);
        let head = (if conn_timed_out(s[0], now, timeout) {
            Seq::<ConnView>::empty()
        } else {
            seq![s[0]]
        });
        let rest = live_keep(s.skip(1), now, timeout);
        assert(post == head + rest);
        assert forall|a: Addr| has_conn_in(post, a) implies has_conn_in(s, a) by {
            let j = choose|j: int| 0 <= j < post.len() && post[j].addr == a;
            if j < head.len() {
                assert(s[0].addr == a);
            } else {
                assert(rest[j - head.len()].addr == a);
                assert(has_conn_in(s.skip(1), a));
                let q = choose|q: int| 0 <= q < s.skip(1).len() && s.skip(1)[q].addr == a;
                assert(s[q + 1].addr == a);
            }
        }
        assert forall|j: int|
            0 <= j < post.len() implies exists|i: int|
                0 <= i < s.len() && !conn_timed_out(s[i], now, timeout) && #[trigger] post[j]
                    == s[i] by {
            if j < head.len() {
                assert(0 <= 0 < s.len() && !conn_timed_out(s[0], now, timeout) && post[j] == s[0]);
            } else {
                assert(post[j] == rest[j - head.len()]);
                let i = choose|i: int|
                    0 <= i < s.skip(1).len() && !conn_timed_out(s.skip(1)[i], now, timeout)
                        && #[trigger] rest[j - head.len()] == s.skip(1)[i];
                assert(s.skip(1)[i] == s[i + 1]);
                assert(0 <= i + 1 < s.len() && !conn_timed_out(s[i + 1], now, timeout) && post[j]
                    == s[i + 1]);
            }
        }
        if conns_distinct(s) {
            assert(forall|i: int, j: int|
                0 <= i < j < s.skip(1).len() ==> s.skip(1)[i].addr != s.skip(1)[j].addr);
            assert forall|i: int, j: int|
                0 <= i < j < post.len() implies post[i].addr != post[j].addr by {
                if i < head.len() {
                    assert(post[i].addr == s[0].addr);
                    assert(rest[j - head.len()].addr == post[j].addr);
                    assert(has_conn_in(s.skip(1), post[j].addr));
                    let q = choose|q: int|
                        0 <= q < s.skip(1).len() && s.skip(1)[q].addr == post[j].addr;
                    assert(s[q + 1].addr == post[j].addr);
                } else {
                    assert(post[i] == rest[i - head.len()]);
                    assert(post[j] == rest[j - head.len()]);
                }
            }
        }
    }
}

/// How many disconnect events a batch holds for one address.
pub open spec fn count_disconnects(s: Seq<UdpEvent>, a: Addr) -> nat
    decreases s.len(),
{
    if s.len() == 0 {
        0
    } else {
        (if s[0] matches UdpEvent::Disconnected(x) && x == a {
            1nat
        } else {
            0nat
        }) + count_disconnects(s.skip(1), a)
    }
}

/// The timeout sweep removes exactly the silent connections and reports
/// each of them exactly once: an address with a timed-out connection gets
/// one disconnect event and leaves the table; every other address gets
/// none and stays untouched.
pub proof fn lemma_timeout_sweep(s: Seq<ConnView>, now: u32, timeout: u32, a: Addr)
    requires
        conns_distinct(s),
    ensures
        (exists|i: int|
            0 <= i < s.len() && s[i].addr == a && conn_timed_out(#[trigger] s[i], now, timeout))
            ==> !has_conn_in(live_keep(s, now, timeout), a) && count_disconnects(
            timeout_events(s, now, timeout),
            a,
        ) == 1,
        !(exists|i: int|
            0 <= i < s.len() && s[i].addr == a && conn_timed_out(#[trigger] s[i], now, timeout))
            ==> count_disconnects(timeout_events(s, now, timeout), a) == 0,
    decreases s.len(),
{
    if s.len() == 0 {
        assert(count_disconnects(timeout_events(s, now, timeout), a) == 0);
    } else {
        assert(forall|i: int, j: int|
            0 <= i < j < s.skip(1).len() ==> s.skip(1)[i].addr != s.skip(1)[j].addr);
        lemma_timeout_sweep(s.skip(1), now, timeout, a);
        lemma_live_keep_addrs(s.skip(1), now, timeout);
        let head_ev = (if conn_timed_out(s[0], now, timeout) {
            seq![UdpEvent::Disconnected(s[0].addr)]
        } else {
            Seq::<UdpEvent>::empty()
        });
        let rest_ev = timeout_events(s.skip(1), now, timeout);
        assert(timeout_events(s, now, timeout) =~= head_ev + rest_ev);
        lemma_count_disconnects_add(head_ev, rest_ev, a);
        if conn_timed_out(s[0], now, timeout) {
            lemma_count_single(UdpEvent::Disconnected(s[0].addr), a);
        } else {
            assert(count_disconnects(head_ev, a) == 0);
        }
        let head = (if conn_timed_out(s[0], now, timeout) {
            Seq::<ConnView>::empty()
        } else {
            seq![s[0]]
        });
        let rest = live_keep(s.skip(1), now, timeout);
        assert(live_keep(s, now, timeout) == head + rest);
        if s[0].addr == a {
            assert(forall|q: int| 0 <= q < s.skip(1).len() ==> s.skip(1)[q].addr != a);
            assert(!(exists|i: int|
                0 <= i < s.skip(1).len() && s.skip(1)[i].addr == a && conn_timed_out(
                    #[trigger] s.skip(1)[i],
                    now,
                    timeout,
                )));
            assert(count_disconnects(rest_ev, a) == 0);
            if conn_timed_out(s[0], now, timeout) {
                assert(count_disconnects(head_ev, a) == 1);
                assert(!has_conn_in(rest, a)) by {
                    if has_conn_in(rest, a) {
                        assert(has_conn_in(s.skip(1), a));
                        let q = choose|q: int|
                            0 <= q < s.skip(1).len() && s.skip(1)[q].addr == a;
                        assert(false);
                    }
                }
                assert forall|j: int| 0 <= j < head.len() implies head[j].addr != a by {}
                assert(!has_conn_in(head + rest, a)) by {
                    if has_conn_in(head + rest, a) {
                        let j = choose|j: int|
                            0 <= j < (head + rest).len() && (head + rest)[j].addr == a;
                        if j < head.len() {
                            assert(false);
                        } else {
                            assert(rest[j - head.len()].addr == a);
                            assert(has_conn_in(rest, a));
                            assert(false);
                        }
                    }
                }
            }
        } else {
            if exists|i: int|
                0 <= i < s.len() && s[i].addr == a && conn_timed_out(#[trigger] s[i], now, timeout) {
                let i = choose|i: int|
                    0 <= i < s.len() && s[i].addr == a && conn_timed_out(
                        #[trigger] s[i],
                        now,
                        timeout,
                    );
                assert(i > 0);
                assert(s.skip(1)[i - 1] == s[i]);
                assert(exists|q: int|
                    0 <= q < s.skip(1).len() && s.skip(1)[q].addr == a && conn_timed_out(
                        #[trigger] s.skip(1)[q],
                        now,
                        timeout,
                    ));
                assert(!has_conn_in(rest, a));
                assert(!has_conn_in(head + rest, a)) by {
                    if has_conn_in(head + rest, a) {
                        let j = choose|j: int|
                            0 <= j < (head + rest).len() && (head + rest)[j].addr == a;
                        if j < head.len() {
                            assert(head[j].addr == s[0].addr);
                            assert(false);
                        } else {
                            assert(rest[j - head.len()].addr == a);
                            assert(has_conn_in(rest, a));
                            assert(false);
                        }
                    }
                }
            } else {
                assert(!(exists|q: int|
                    0 <= q < s.skip(1).len() && s.skip(1)[q].addr == a && conn_timed_out(
                        #[trigger] s.skip(1)[q],
                        now,
                        timeout,
                    ))) by {
                    if exists|q: int|
                        0 <= q < s.skip(1).len() && s.skip(1)[q].addr == a && conn_timed_out(
                            #[trigger] s.skip(1)[q],
                            now,
                            timeout,
                        ) {
                        let q = choose|q: int|
                            0 <= q < s.skip(1).len() && s.skip(1)[q].addr == a && conn_timed_out(
                                #[trigger] s.skip(1)[q],
                                now,
                                timeout,
                            );
                        assert(s[q + 1].addr == a && conn_timed_out(s[q + 1], now, timeout));
                        assert(false);
                    }
                }
            }
        }
    }
}

/// How many retry-exhaustion failures a batch holds for one address.
pub open spec fn count_connect_fails(s: Seq<UdpEvent>, a: Addr) -> nat
    decreases s.len(),
{
    if s.len() == 0 {
        0
    } else {
        (if s[0] matches UdpEvent::ConnectFail(x, r) && x == a && r == FailReason::Timeout {
            1nat
        } else {
            0nat
        }) + count_connect_fails(s.skip(1), a)
    }
}

/// Retry exhaustion is a normal outcome, reported exactly once: an attempt
/// that is due past its retry limit leaves the table with one timeout
/// failure; every other address gets none.
pub proof fn lemma_retry_exhaustion(s: Seq<AttemptView>, now: u32, cfg: UdpConfig, a: Addr)
    requires
        attempts_distinct(s),
    ensures
        (exists|i: int|
            0 <= i < s.len() && s[i].addr == a && attempt_due(
                #[trigger] s[i],
                now,
                cfg.connect_retry_delay,
            ) && s[i].retry_count >= cfg.max_connect_retry) ==> !has_attempt_in(
            attempts_step(s, now, cfg),
            a,
        ) && count_connect_fails(attempts_fail(s, now, cfg), a) == 1,
        !(exists|i: int|
            0 <= i < s.len() && s[i].addr == a && attempt_due(
                #[trigger] s[i],
                now,
                cfg.connect_retry_delay,
            ) && s[i].retry_count >= cfg.max_connect_retry) ==> count_connect_fails(
            attempts_fail(s, now, cfg),
            a,
        ) == 0,
    decreases s.len(),
{
    if s.len() == 0 {
        assert(count_connect_fails(attempts_fail(s, now, cfg), a) == 0);
    } else {
        assert(forall|i: int, j: int|
            0 <= i < j < s.skip(1).len() ==> s.skip(1)[i].addr != s.skip(1)[j].addr);
        lemma_retry_exhaustion(s.skip(1), now, cfg, a);
        lemma_attempts_step_addrs(s.skip(1), now, cfg);
        let dropped = attempt_due(s[0], now, cfg.connect_retry_delay) && s[0].retry_count
            >= cfg.max_connect_retry;
        let head_ev = (if dropped {
            seq![UdpEvent::ConnectFail(s[0].addr, FailReason::Timeout)]
        } else {
            Seq::<UdpEvent>::empty()
        });
        let rest_ev = attempts_fail(s.skip(1), now, cfg);
        assert(attempts_fail(s, now, cfg) =~= head_ev + rest_ev);
        lemma_count_connect_fails_add(head_ev, rest_ev, a);
        if dropped {
            lemma_count_fail_single(UdpEvent::ConnectFail(s[0].addr, FailReason::Timeout), a);
        } else {
            assert(count_connect_fails(head_ev, a) == 0);
        }
        let head = (if !attempt_due(s[0], now, cfg.connect_retry_delay) {
            seq![s[0]]
        } else if s[0].retry_count < cfg.max_connect_retry {
            seq![
                AttemptView {
                    last_attempt: now,
                    retry_count: (s[0].retry_count + 1) as u32,
                    ..s[0]
                },
            ]
        } else {
            Seq::<AttemptView>::empty()
        });
        let rest = attempts_step(s.skip(1), now, cfg);
        assert(attempts_step(s, now, cfg) == head + rest);
        if s[0].addr == a {
            assert(forall|q: int| 0 <= q < s.skip(1).len() ==> s.skip(1)[q].addr != a);
            assert(!(exists|i: int|
                0 <= i < s.skip(1).len() && s.skip(1)[i].addr == a && attempt_due(
                    #[trigger] s.skip(1)[i],
                    now,
                    cfg.connect_retry_delay,
                ) && s.skip(1)[i].retry_count >= cfg.max_connect_retry));
            assert(count_connect_fails(rest_ev, a) == 0);
            if dropped {
                assert(!has_attempt_in(rest, a)) by {
                    if has_attempt_in(rest, a) {
                        assert(has_attempt_in(s.skip(1), a));
                        let q = choose|q: int|
                            0 <= q < s.skip(1).len() && s.skip(1)[q].addr == a;
                        assert(false);
                    }
                }
                assert(!has_attempt_in(head + rest, a)) by {
                    if has_attempt_in(head + rest, a) {
                        let j = choose|j: int|
                            0 <= j < (head + rest).len() && (head + rest)[j].addr == a;
                        assert((head + rest)[j] == rest[j - head.len()]);
                        assert(has_attempt_in(rest, a));
                        assert(false);
                    }
                }
            }
        } else {
            if exists|i: int|
                0 <= i < s.len() && s[i].addr == a && attempt_due(
                    #[trigger] s[i],
                    now,
                    cfg.connect_retry_delay,
                ) && s[i].retry_count >= cfg.max_connect_retry {
                let i = choose|i: int|
                    0 <= i < s.len() && s[i].addr == a && attempt_due(
                        #[trigger] s[i],
                        now,
                        cfg.connect_retry_delay,
                    ) && s[i].retry_count >= cfg.max_connect_retry;
                assert(i > 0);
                assert(s.skip(1)[i - 1] == s[i]);
                assert(exists|q: int|
                    0 <= q < s.skip(1).len() && s.skip(1)[q].addr == a && attempt_due(
                        #[trigger] s.skip(1)[q],
                        now,
                        cfg.connect_retry_delay,
                    ) && s.skip(1)[q].retry_count >= cfg.max_connect_retry);
                assert(!has_attempt_in(rest, a));
                assert(!has_attempt_in(head + rest, a)) by {
                    if has_attempt_in(head + rest, a) {
                        let j = choose|j: int|
                            0 <= j < (head + rest).len() && (head + rest)[j].addr == a;
                        if j < head.len() {
                            assert(head[j].addr == s[0].addr);
                            assert(false);
                        } else {
                            assert(rest[j - head.len()].addr == a);
                            assert(has_attempt_in(rest, a));
                            assert(false);
                        }
                    }
                }
            } else {
                assert(!(exists|q: int|
                    0 <= q < s.skip(1).len() && s.skip(1)[q].addr == a && attempt_due(
                        #[trigger] s.skip(1)[q],
                        now,
                        cfg.connect_retry_delay,
                    ) && s.skip(1)[q].retry_count >= cfg.max_connect_retry)) by {
                    if exists|q: int|
                        0 <= q < s.skip(1).len() && s.skip(1)[q].addr == a && attempt_due(
                            #[trigger] s.skip(1)[q],
                            now,
                            cfg.connect_retry_delay,
                        ) && s.skip(1)[q].retry_count >= cfg.max_connect_retry {
                        let q = choose|q: int|
                            0 <= q < s.skip(1).len() && s.skip(1)[q].addr == a && attempt_due(
                                #[trigger] s.skip(1)[q],
                                now,
                                cfg.connect_retry_delay,
                            ) && s.skip(1)[q].retry_count >= cfg.max_connect_retry;
                        assert(s[q + 1].addr == a && attempt_due(
                            s[q + 1],
                            now,
                            cfg.connect_retry_delay,
                        ) && s[q + 1].retry_count >= cfg.max_connect_retry);
                        assert(false);
                    }
                }
            }
        }
    }
}

/// Failure counts add over concatenation.
proof fn lemma_count_connect_fails_add(x: Seq<UdpEvent>, y: Seq<UdpEvent>, a: Addr)
    ensures
        count_connect_fails(x + y, a) == count_connect_fails(x, a) + count_connect_fails(y, a),
    decreases x.len(),
{
    if x.len() == 0 {
        assert(x + y =~= y);
    } else {
        assert((x + y).skip(1) =~= x.skip(1) + y);
        lemma_count_connect_fails_add(x.skip(1), y, a);
        assert((x + y)[0] == x[0]);
    }
}

/// Counting one failure event.
proof fn lemma_count_fail_single(e: UdpEvent, a: Addr)
    ensures
        count_connect_fails(seq![e], a) == (if e matches UdpEvent::ConnectFail(x, r) && x == a && r
            == FailReason::Timeout {
            1nat
        } else {
            0nat
        }),
{
    assert(seq![e].skip(1) =~= Seq::<UdpEvent>::empty());
    assert(count_connect_fails(Seq::<UdpEvent>::empty(), a) == 0);
    assert(seq![e][0] == e);
}

/// Counting one event.
proof fn lemma_count_single(e: UdpEvent, a: Addr)
    ensures
        count_disconnects(seq![e], a) == (if e matches UdpEvent::Disconnected(x) && x == a {
            1nat
        } else {
            0nat
        }),
{
    assert(seq![e].skip(1) =~= Seq::<UdpEvent>::empty());
    assert(count_disconnects(Seq::<UdpEvent>::empty(), a) == 0);
    assert(seq![e][0] == e);
}

/// Disconnect counts add over concatenation.
proof fn lemma_count_disconnects_add(x: Seq<UdpEvent>, y: Seq<UdpEvent>, a: Addr)
    ensures
        count_disconnects(x + y, a) == count_disconnects(x, a) + count_disconnects(y, a),
    decreases x.len(),
{
    if x.len() == 0 {
        assert(x + y =~= y);
    } else {
        assert((x + y).skip(1) =~= x.skip(1) + y);
        lemma_count_disconnects_add(x.skip(1), y, a);
        assert((x + y)[0] == x[0]);
    }
}

/// The payload attached to a connection request: everything after the
/// signal byte.
fn tail_of(data: &Vec<u8>) -> (r: Vec<u8>)
    requires
        data@.len() >= 1,
    ensures
        r@ == data@.skip(1),
{
    let mut out: Vec<u8> = Vec::new();
    let mut k: usize = 1;
    while k < data.len()
        invariant
            1 <= k <= data@.len(),
            out@ == data@.subrange(1, k as int),
        decreases data@.len() - k,
    {
        out.push(data[k]);
        proof {
            assert(out@ =~= data@.subrange(1, k + 1));
        }
        k = k + 1;
    }
    proof {
        assert(out@ =~= data@.skip(1));
    }
    out
}

} // verus!