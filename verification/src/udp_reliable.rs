//! The reliable-channel engine: per-peer sequencing, acknowledgment bitmap
//! and retransmission queue, with the bit-packed wire header.
//!
//! Wire header, in order: `obj_seq:16`, `ack_seq:16`, `ack_hist:64`,
//! `ack_time:16` — 112 bits, exactly 14 bytes; the capacity reserved for the
//! header equals this size. Each 15-bit sequence field is carried shifted
//! left by one with the vacated low bit set to 1, reserving that bit for
//! future flags (`pad_seq` / `trim_seq`). `send_time` is local bookkeeping
//! and is never serialized.

use vstd::prelude::*;

verus! {

use vstd::arithmetic::power2::{lemma2_to64, lemma2_to64_rest};
use crate::bitbuf::{BitBuf, BitBufError, read_ok};
use crate::bits::{
    bits_of, val_of, overlay, bytes_bits, lemma_bits_of_len, lemma_val_of_bits_of,
    lemma_overlay_adjacent,
};

/// Number of bits of a serialized reliable header.
pub const HEADER_BITS: u16 = 112;

/// Number of bytes of a serialized reliable header.
pub const HEADER_BYTES: u16 = 14;

/// Capacity of a channel datagram in bytes: one byte of the 1400-byte MTU
/// is the channel-type marker that precedes it on the wire.
pub const BUF_BYTES: u16 = 1399;

/// Bytes of payload an outgoing reliable datagram can carry.
pub const PAYLOAD_BYTES: u16 = 1385;

/// Sequence numbers live modulo this: they are 15-bit counters.
pub const SEQ_MOD: u16 = 32768;

/// Size of the acknowledgment bitmap and so of the retransmission window.
pub const ACK_WINDOW: u16 = 64;

#[derive(Clone, Copy, PartialEq, Eq, Structural, Debug)]
pub struct ReliableHeader {
    /// The 15-bit sequence number of this datagram.
    pub obj_seq: u16,
    /// The highest remote sequence acknowledged.
    pub ack_seq: u16,
    /// Bit `k` set means sequence `ack_seq - k` was received.
    pub ack_hist: u64,
    /// Time since the sender last received, for RTT estimation.
    pub ack_time: u16,
    /// Local send timestamp; never serialized.
    pub send_time: u32,
}

/// A header is well formed when its sequence fields are 15-bit values.
pub open spec fn header_wf(h: ReliableHeader) -> bool {
    h.obj_seq < 32768 && h.ack_seq < 32768
}

/// The 112 bits a header occupies on the wire.
pub open spec fn header_bits(h: ReliableHeader) -> Seq<bool> {
    bits_of((2 * (h.obj_seq % 32768) + 1) as nat, 16) + bits_of(
        (2 * (h.ack_seq % 32768) + 1) as nat,
        16,
    ) + bits_of(h.ack_hist as nat, 64) + bits_of(h.ack_time as nat, 16)
}

/// The header parsed from the first 14 bytes of a datagram.
pub open spec fn parsed_header(d: Seq<u8>) -> ReliableHeader {
    ReliableHeader {
        obj_seq: (val_of(bytes_bits(d).subrange(0, 16)) / 2) as u16,
        ack_seq: (val_of(bytes_bits(d).subrange(16, 32)) / 2) as u16,
        ack_hist: val_of(bytes_bits(d).subrange(32, 96)) as u64,
        ack_time: val_of(bytes_bits(d).subrange(96, 112)) as u16,
        send_time: 0,
    }
}

/// How far `to` lies ahead of `from`, modulo the 15-bit sequence space.
pub open spec fn seq_fwd_dist(from: u16, to: u16) -> nat {
    ((to + 32768 - from) % 32768) as nat
}

/// Whether `cand` is more recent than `cur`: strictly ahead, by less than
/// half the sequence space. Sequences wrap, so a plain numeric compare would
/// be wrong.
pub open spec fn seq_newer(cur: u16, cand: u16) -> bool {
    0 < seq_fwd_dist(cur, cand) < 16384
}

/// The sequence counter after one reliable send.
pub open spec fn next_seq(s: u16) -> u16 {
    ((s + 1) % 32768) as u16
}

/// The sequence counter after `n` reliable sends.
pub open spec fn nth_seq(s: u16, n: nat) -> u16
    decreases n,
{
    if n == 0 {
        s
    } else {
        next_seq(nth_seq(s, (n - 1) as nat))
    }
}

/// Whether the acknowledgment pair `(ack_seq, ack_hist)` covers sequence
/// `s`: `s` lies at most 63 steps behind `ack_seq` and its history bit is
/// set.
pub open spec fn acked_by(s: u16, ack_seq: u16, ack_hist: u64) -> bool {
    seq_fwd_dist(s, ack_seq) < 64 && (ack_hist >> (seq_fwd_dist(s, ack_seq) as u64)) & 1 == 1
}

/// Iterating the sequence counter walks the counter linearly, modulo the
/// sequence space.
pub proof fn lemma_nth_seq(s: u16, n: nat)
    requires
        s < 32768,
    ensures
        nth_seq(s, n) == (s + n) % (32768 as int),
    decreases n,
{
    if n > 0 {
        lemma_nth_seq(s, (n - 1) as nat);
        let p = nth_seq(s, (n - 1) as nat);
        assert(p == (s + n - 1) % (32768 as int));
        assert(next_seq(p) == (p + 1) % (32768 as int));
        vstd::arithmetic::div_mod::lemma_mod_adds(s + n - 1, 1, 32768);
        vstd::arithmetic::div_mod::lemma_small_mod(1nat, 32768);
    }
}

/// The local sequence counter wraps: after exactly 32768 sends it is back at
/// its starting value, and never sooner.
pub proof fn lemma_seq_wraps(s: u16)
    requires
        s < 32768,
    ensures
        nth_seq(s, 32768) == s,
        forall|n: nat| 0 < n < 32768 ==> nth_seq(s, n) != s,
{
    lemma_nth_seq(s, 32768);
    vstd::arithmetic::div_mod::lemma_mod_add_multiples_vanish(s as int, 32768);
    vstd::arithmetic::div_mod::lemma_small_mod(s as nat, 32768);
    assert forall|n: nat| 0 < n < 32768 implies nth_seq(s, n) != s by {
        lemma_nth_seq(s, n);
        if s + n < 32768 {
            vstd::arithmetic::div_mod::lemma_small_mod((s + n) as nat, 32768);
        } else {
            vstd::arithmetic::div_mod::lemma_mod_sub_multiples_vanish((s + n) as int, 32768);
            vstd::arithmetic::div_mod::lemma_small_mod((s + n - 32768) as nat, 32768);
        }
    }
}

/// An acknowledgment bitmap only ever covers the 64 most recent remote
/// sequences: anything it acknowledges lies within 63 steps of `ack_seq`.
pub proof fn lemma_ack_hist_window(s: u16, ack_seq: u16, ack_hist: u64)
    ensures
        acked_by(s, ack_seq, ack_hist) ==> seq_fwd_dist(s, ack_seq) < 64,
{
}

/// Writes the sequence field transform: shift left one, low bit set.
pub fn pad_seq(seq: u16) -> (r: u16)
    ensures
        r == 2 * (seq % 32768) + 1,
{
    (seq % 32768) * 2 + 1
}

/// Recovers a sequence field from the wire: drop the reserved low bit.
pub fn trim_seq(seq: u16) -> (r: u16)
    ensures
        r == seq / 2,
        r < 32768,
{
    seq / 2
}

/// Serializes a header at the buffer's cursor: 112 bits, fields in wire
/// order.
pub fn write_header(header: &ReliableHeader, buf: &mut BitBuf) -> (r: Result<(), BitBufError>)
    requires
        old(buf).wf(),
    ensures
        final(buf).wf(),
        r is Ok <==> old(buf).cursor() + 112 <= old(buf)@.len(),
        r is Ok ==> final(buf)@ == overlay(old(buf)@, old(buf).cursor(), header_bits(*header))
            && final(buf).cursor() == old(buf).cursor() as int + 112,
        r is Err ==> *final(buf) == *old(buf),
    {
    if !buf.can_write_bits(HEADER_BITS) {
        return Err(BitBufError::Overflow);
    }
    let ghost s0 = buf@;
    let ghost c0 = buf.cursor();
    let w1 = buf.write_u16(pad_seq(header.obj_seq));
    let w2 = buf.write_u16(pad_seq(header.ack_seq));
    let w3 = buf.write_u64(header.ack_hist);
    let w4 = buf.write_u16(header.ack_time);
    proof {
        let a = bits_of((2 * (header.obj_seq % 32768) + 1) as nat, 16);
        let b = bits_of((2 * (header.ack_seq % 32768) + 1) as nat, 16);
        let c = bits_of(header.ack_hist as nat, 64);
        let d = bits_of(header.ack_time as nat, 16);
        lemma_bits_of_len((2 * (header.obj_seq % 32768) + 1) as nat, 16);
        lemma_bits_of_len((2 * (header.ack_seq % 32768) + 1) as nat, 16);
        lemma_bits_of_len(header.ack_hist as nat, 64);
        lemma_bits_of_len(header.ack_time as nat, 16);
        lemma_overlay_adjacent(s0, c0, a, b);
        lemma_overlay_adjacent(s0, c0, a + b, c);
        lemma_overlay_adjacent(s0, c0, (a + b) + c, d);
        assert(((a + b) + c) + d =~= header_bits(*header));
    }
    Ok(())
}

/// Parses a header at the buffer's cursor. `send_time` is local-only: it is
/// always 0 after a parse, never read from the wire.
pub fn read_header(buf: &mut BitBuf) -> (r: Result<ReliableHeader, BitBufError>)
    requires
        old(buf).wf(),
    ensures
        final(buf).wf(),
        old(buf).cursor() + 112 <= old(buf)@.len() ==> (r matches Ok(h) && read_ok(
            *old(buf),
            *final(buf),
            112,
        ) && h.obj_seq == val_of(old(buf)@.subrange(
            old(buf).cursor() as int,
            old(buf).cursor() as int + 16,
        )) / 2 && h.ack_seq == val_of(old(buf)@.subrange(
            old(buf).cursor() as int + 16,
            old(buf).cursor() as int + 32,
        )) / 2 && h.ack_hist == val_of(old(buf)@.subrange(
            old(buf).cursor() as int + 32,
            old(buf).cursor() as int + 96,
        )) && h.ack_time == val_of(old(buf)@.subrange(
            old(buf).cursor() as int + 96,
            old(buf).cursor() as int + 112,
        )) && h.send_time == 0 && h.obj_seq < 32768 && h.ack_seq < 32768),
        old(buf).cursor() + 112 > old(buf)@.len() ==> r is Err && *final(buf) == *old(buf),
    {
    if !buf.can_read_bits(HEADER_BITS) {
        return Err(BitBufError::Overflow);
    }
    let obj_raw = match buf.read_u16() {
        Ok(v) => v,
        Err(e) => {
            return Err(e);
        },
    };
    let ack_raw = match buf.read_u16() {
        Ok(v) => v,
        Err(e) => {
            return Err(e);
        },
    };
    let hist = match buf.read_u64() {
        Ok(v) => v,
        Err(e) => {
            return Err(e);
        },
    };
    let ack_time = match buf.read_u16() {
        Ok(v) => v,
        Err(e) => {
            return Err(e);
        },
    };
    Ok(
        ReliableHeader {
            obj_seq: trim_seq(obj_raw),
            ack_seq: trim_seq(ack_raw),
            ack_hist: hist,
            ack_time,
            send_time: 0,
        },
    )
}

/// Writing a header and parsing the same 112 bits reproduces `obj_seq`,
/// `ack_seq`, `ack_hist` and `ack_time` exactly; `send_time` never crosses
/// the wire.
pub proof fn lemma_header_round_trip(h: ReliableHeader)
    requires
        header_wf(h),
    ensures
        val_of(header_bits(h).subrange(0, 16)) / 2 == h.obj_seq,
        val_of(header_bits(h).subrange(16, 32)) / 2 == h.ack_seq,
        val_of(header_bits(h).subrange(32, 96)) == h.ack_hist,
        val_of(header_bits(h).subrange(96, 112)) == h.ack_time,
{
    lemma2_to64();
    lemma2_to64_rest();
    let a = bits_of((2 * (h.obj_seq % 32768) + 1) as nat, 16);
    let b = bits_of((2 * (h.ack_seq % 32768) + 1) as nat, 16);
    let c = bits_of(h.ack_hist as nat, 64);
    let d = bits_of(h.ack_time as nat, 16);
    lemma_bits_of_len((2 * (h.obj_seq % 32768) + 1) as nat, 16);
    lemma_bits_of_len((2 * (h.ack_seq % 32768) + 1) as nat, 16);
    lemma_bits_of_len(h.ack_hist as nat, 64);
    lemma_bits_of_len(h.ack_time as nat, 16);
    assert(header_bits(h).subrange(0, 16) =~= a);
    assert(header_bits(h).subrange(16, 32) =~= b);
    assert(header_bits(h).subrange(32, 96) =~= c);
    assert(header_bits(h).subrange(96, 112) =~= d);
    lemma_val_of_bits_of((2 * (h.obj_seq % 32768) + 1) as nat, 16);
    lemma_val_of_bits_of((2 * (h.ack_seq % 32768) + 1) as nat, 16);
    lemma_val_of_bits_of(h.ack_hist as nat, 64);
    lemma_val_of_bits_of(h.ack_time as nat, 16);
    vstd::arithmetic::div_mod::lemma_small_mod((2 * (h.obj_seq % 32768) + 1) as nat, 65536);
    vstd::arithmetic::div_mod::lemma_small_mod((2 * (h.ack_seq % 32768) + 1) as nat, 65536);
    vstd::arithmetic::div_mod::lemma_small_mod(h.ack_hist as nat, 0x10000000000000000);
    vstd::arithmetic::div_mod::lemma_small_mod(h.ack_time as nat, 65536);
}

/// The entries of a retransmission queue that an acknowledgment leaves
/// unacknowledged, keeping their order.
pub open spec fn keep_unacked(s: Seq<(u16, u32, Seq<u8>)>, a: u16, h: u64) -> Seq<(u16, u32, Seq<u8>)>
    decreases s.len(),
{
    if s.len() == 0 {
        s
    } else {
        (if acked_by(s[0].0, a, h) {
            Seq::<(u16, u32, Seq<u8>)>::empty()
        } else {
            seq![s[0]]
        }) + keep_unacked(s.skip(1), a, h)
    }
}

pub proof fn lemma_keep_unacked_snoc(s: Seq<(u16, u32, Seq<u8>)>, e: (u16, u32, Seq<u8>), a: u16, h: u64)
    ensures
        keep_unacked(s.push(e), a, h) == keep_unacked(s, a, h) + (if acked_by(e.0, a, h) {
            Seq::<(u16, u32, Seq<u8>)>::empty()
        } else {
            seq![e]
        }),
    decreases s.len(),
{
    if s.len() == 0 {
        assert(s.push(e).skip(1) =~= Seq::<(u16, u32, Seq<u8>)>::empty());
        assert(s.push(e)[0] == e);
        assert(keep_unacked(Seq::<(u16, u32, Seq<u8>)>::empty(), a, h)
            == Seq::<(u16, u32, Seq<u8>)>::empty());
        assert(keep_unacked(s.push(e), a, h) == (if acked_by(e.0, a, h) {
            Seq::<(u16, u32, Seq<u8>)>::empty()
        } else {
            seq![e]
        }) + keep_unacked(Seq::<(u16, u32, Seq<u8>)>::empty(), a, h));
        assert(keep_unacked(s.push(e), a, h) =~= keep_unacked(s, a, h) + (if acked_by(e.0, a, h) {
            Seq::<(u16, u32, Seq<u8>)>::empty()
        } else {
            seq![e]
        }));
    } else {
        assert(s.push(e).skip(1) =~= s.skip(1).push(e));
        lemma_keep_unacked_snoc(s.skip(1), e, a, h);
        assert(s.push(e)[0] == s[0]);
        assert(keep_unacked(s.push(e), a, h) == (if acked_by(s[0].0, a, h) {
            Seq::<(u16, u32, Seq<u8>)>::empty()
        } else {
            seq![s[0]]
        }) + keep_unacked(s.skip(1).push(e), a, h));
        assert(keep_unacked(s, a, h) == (if acked_by(s[0].0, a, h) {
            Seq::<(u16, u32, Seq<u8>)>::empty()
        } else {
            seq![s[0]]
        }) + keep_unacked(s.skip(1), a, h));
        assert(keep_unacked(s.push(e), a, h) =~= keep_unacked(s, a, h) + (if acked_by(e.0, a, h) {
            Seq::<(u16, u32, Seq<u8>)>::empty()
        } else {
            seq![e]
        }));
    }
}

/// The updated `(newest_remote_seq, ack_hist)` pair after seeing an inbound
/// datagram with sequence `s`: a newer sequence shifts the bitmap and marks
/// itself; an older one within the bitmap marks its bit; anything else
/// leaves the pair alone.
pub open spec fn hist_update(newest: u16, hist: u64, s: u16) -> (u16, u64) {
    if seq_newer(newest, s) {
        let d = seq_fwd_dist(newest, s);
        if d < 64 {
            (s, (hist << (d as u64)) | 1u64)
        } else {
            (s, 1u64)
        }
    } else {
        let b = seq_fwd_dist(s, newest);
        if 0 < b < 64 {
            (newest, hist | (1u64 << (b as u64)))
        } else {
            (newest, hist)
        }
    }
}

/// A counter bumped without wrapping.
pub open spec fn sat_inc(x: u32) -> u32 {
    if x == 0xffffffff {
        x
    } else {
        (x + 1) as u32
    }
}

/// The payloads sitting in the given reorder-window slots, oldest first.
pub open spec fn somes(s: Seq<Option<Seq<u8>>>) -> Seq<Seq<u8>>
    decreases s.len(),
{
    if s.len() == 0 {
        Seq::empty()
    } else {
        (match s[0] {
            Option::Some(p) => seq![p],
            Option::None => Seq::<Seq<u8>>::empty(),
        }) + somes(s.skip(1))
    }
}

pub proof fn lemma_somes_snoc(s: Seq<Option<Seq<u8>>>, e: Option<Seq<u8>>)
    ensures
        somes(s.push(e)) == somes(s) + (match e {
            Option::Some(p) => seq![p],
            Option::None => Seq::<Seq<u8>>::empty(),
        }),
    decreases s.len(),
{
    if s.len() == 0 {
        assert(s.push(e).skip(1) =~= Seq::<Option<Seq<u8>>>::empty());
        assert(s.push(e)[0] == e);
        assert(somes(Seq::<Option<Seq<u8>>>::empty()) == Seq::<Seq<u8>>::empty());
        assert(somes(s.push(e)) == (match e {
            Option::Some(p) => seq![p],
            Option::None => Seq::<Seq<u8>>::empty(),
        }) + somes(Seq::<Option<Seq<u8>>>::empty()));
        assert(somes(s.push(e)) =~= somes(s) + (match e {
            Option::Some(p) => seq![p],
            Option::None => Seq::<Seq<u8>>::empty(),
        }));
    } else {
        assert(s.push(e).skip(1) =~= s.skip(1).push(e));
        lemma_somes_snoc(s.skip(1), e);
        assert(s.push(e)[0] == s[0]);
        assert(somes(s.push(e)) == (match s[0] {
            Option::Some(p) => seq![p],
            Option::None => Seq::<Seq<u8>>::empty(),
        }) + somes(s.skip(1).push(e)));
        assert(somes(s) == (match s[0] {
            Option::Some(p) => seq![p],
            Option::None => Seq::<Seq<u8>>::empty(),
        }) + somes(s.skip(1)));
        assert(somes(s.push(e)) =~= somes(s) + (match e {
            Option::Some(p) => seq![p],
            Option::None => Seq::<Seq<u8>>::empty(),
        }));
    }
}

/// How many slots at the front of the window are filled: the run of
/// payloads that can be released in order.
pub open spec fn spl(s: Seq<Option<Seq<u8>>>) -> nat
    decreases s.len(),
{
    if s.len() == 0 || s[0] is None {
        0
    } else {
        1 + spl(s.skip(1))
    }
}

pub proof fn lemma_spl_char(s: Seq<Option<Seq<u8>>>, j: nat)
    requires
        j <= s.len(),
        forall|i: int| 0 <= i < j ==> s[i] is Some,
        j == s.len() || s[j as int] is None,
    ensures
        spl(s) == j,
    decreases j,
{
    if j == 0 {
    } else {
        lemma_spl_char(s.skip(1), (j - 1) as nat);
    }
}

pub proof fn lemma_spl_bounds(s: Seq<Option<Seq<u8>>>)
    ensures
        spl(s) <= s.len(),
        forall|i: int| 0 <= i < spl(s) ==> s[i] is Some,
        spl(s) < s.len() ==> s[spl(s) as int] is None,
    decreases s.len(),
{
    if s.len() > 0 && s[0] is Some {
        lemma_spl_bounds(s.skip(1));
        assert forall|i: int| 0 <= i < spl(s) implies s[i] is Some by {
            if i > 0 {
                assert(s.skip(1)[i - 1] is Some);
            }
        }
    }
}

/// The reorder window's reaction to a payload with sequence `s`: stale or
/// duplicate sequences are dropped; a sequence beyond the window expires the
/// oldest slots, releasing what they held; the payload parks in its slot;
/// then every leading filled slot is released in order. Returns the released
/// payloads, the new window, and the new last delivered sequence.
pub open spec fn window_step(w: Seq<Option<Seq<u8>>>, last: u16, s: u16, p: Seq<u8>) -> (
    Seq<Seq<u8>>,
    Seq<Option<Seq<u8>>>,
    u16,
) {
    let o = seq_fwd_dist(last, s);
    if p.len() == 0 || o == 0 || o >= 16384 {
        (Seq::<Seq<u8>>::empty(), w, last)
    } else {
        let slide: nat = if o > 64 {
            (o - 64) as nat
        } else {
            0
        };
        let sl: int = if slide > 64 {
            64
        } else {
            slide as int
        };
        let exp_del = somes(w.subrange(0, sl));
        let w1 = w.skip(sl) + Seq::new(sl as nat, |i: int| Option::<Seq<u8>>::None);
        let l1 = ((last + slide) % 32768) as u16;
        let oi = o - slide - 1;
        let w2 = if w1[oi as int] is None {
            w1.update(oi as int, Option::Some(p))
        } else {
            w1
        };
        let n = spl(w2);
        let drained = somes(w2.subrange(0, n as int));
        let w3 = w2.skip(n as int) + Seq::new(n, |i: int| Option::<Seq<u8>>::None);
        let l2 = ((l1 + n) % 32768) as u16;
        (exp_del + drained, w3, l2)
    }
}

/// A header's wire image is always exactly 112 bits.
pub proof fn lemma_header_bits_len(h: ReliableHeader)
    ensures
        header_bits(h).len() == 112,
{
    lemma_bits_of_len((2 * (h.obj_seq % 32768) + 1) as nat, 16);
    lemma_bits_of_len((2 * (h.ack_seq % 32768) + 1) as nat, 16);
    lemma_bits_of_len(h.ack_hist as nat, 64);
    lemma_bits_of_len(h.ack_time as nat, 16);
}

/// Failures of the reliable channel itself.
#[derive(Clone, Copy, PartialEq, Eq, Structural, Debug)]
pub enum ChannelError {
    /// More than 64 sent datagrams await acknowledgment: the ack bitmap can
    /// no longer cover them, so the connection is unrecoverable.
    WindowOverflow,
    /// A datagram too short to hold a header, or over the MTU.
    Malformed,
}

/// One transmitted datagram awaiting acknowledgment.
pub struct UnackedSent {
    /// The sequence number the datagram carries.
    pub seq: u16,
    /// When it was last (re)transmitted.
    pub sent_at: u32,
    /// The full header-prefixed datagram, for retransmission.
    pub data: Vec<u8>,
}

/// The abstract state of a reliable channel.
#[verifier::ext_equal]
pub struct ChannelView {
    pub local_seq: u16,
    pub newest_remote_seq: u16,
    pub ack_hist: u64,
    pub last_send_time: u32,
    pub last_recv_time: u32,
    pub last_remote_seq: u16,
    pub recv_since_last_send: u32,
    /// The bits of the outgoing datagram under construction (header first).
    pub buffered: Seq<bool>,
    /// Sent datagrams awaiting acknowledgment: sequence, last send time,
    /// bytes; ascending sequence order.
    pub unacked: Seq<(u16, u32, Seq<u8>)>,
    /// The reorder window: slot `i` holds the payload received for sequence
    /// `last_remote_seq + 1 + i`, if any.
    pub window: Seq<Option<Seq<u8>>>,
}

pub struct UdpReliable {
    write_buf: BitBuf,
    ordered_buf: Vec<Option<Vec<u8>>>,
    unacked_sent: Vec<UnackedSent>,
    newest_remote_seq: u16,
    local_seq: u16,
    ack_hist: u64,
    last_send_time: u32,
    last_recv_time: u32,
    last_remote_seq: u16,
    recv_since_last_send: u32,
}

/// The ghost image of a reorder-window vector.
pub open spec fn win_of(v: Seq<Option<Vec<u8>>>) -> Seq<Option<Seq<u8>>> {
    v.map_values(
        |o: Option<Vec<u8>>|
            match o {
                Option::Some(p) => Option::Some(p@),
                Option::None => Option::<Seq<u8>>::None,
            },
    )
}

/// The ghost image of a retransmission-queue vector.
pub open spec fn unacked_of(v: Seq<UnackedSent>) -> Seq<(u16, u32, Seq<u8>)> {
    v.map_values(|e: UnackedSent| (e.seq, e.sent_at, e.data@))
}

/// The ghost image of a vector of payloads.
pub open spec fn payloads_of(v: Seq<Vec<u8>>) -> Seq<Seq<u8>> {
    v.map_values(|p: Vec<u8>| p@)
}

impl View for UdpReliable {
    type V = ChannelView;

    closed spec fn view(&self) -> ChannelView {
        ChannelView {
            local_seq: self.local_seq,
            newest_remote_seq: self.newest_remote_seq,
            ack_hist: self.ack_hist,
            last_send_time: self.last_send_time,
            last_recv_time: self.last_recv_time,
            last_remote_seq: self.last_remote_seq,
            recv_since_last_send: self.recv_since_last_send,
            buffered: self.write_buf@.subrange(0, self.write_buf.cursor() as int),
            unacked: unacked_of(self.unacked_sent@),
            window: win_of(self.ordered_buf@),
        }
    }
}

/// Rotating the window one slot: the head leaves, an empty slot enters.
proof fn lemma_window_shift(
    prev: Seq<Option<Vec<u8>>>,
    cur: Seq<Option<Vec<u8>>>,
    w0: Seq<Option<Seq<u8>>>,
    t: int,
)
    requires
        prev.len() == 64,
        w0.len() == 64,
        0 <= t < 64,
        win_of(prev) == w0.skip(t) + Seq::new(t as nat, |q: int| Option::<Seq<u8>>::None),
        cur == prev.remove(0).push(Option::<Vec<u8>>::None),
    ensures
        win_of(cur) == w0.skip(t + 1) + Seq::new((t + 1) as nat, |q: int| Option::<Seq<u8>>::None),
        win_of(prev)[0] == w0[t],
{
    let target = w0.skip(t + 1) + Seq::new((t + 1) as nat, |q: int| Option::<Seq<u8>>::None);
    assert forall|i: int| 0 <= i < 64 implies win_of(cur)[i] == target[i] by {
        if i < 63 {
            assert(prev.remove(0)[i] == prev[i + 1]);
            assert(cur[i] == prev[i + 1]);
            assert(win_of(cur)[i] == win_of(prev)[i + 1]);
            if i + 1 < 64 - t {
                assert(win_of(prev)[i + 1] == w0[t + 1 + i]);
                assert(target[i] == w0[t + 1 + i]);
            } else {
                assert(win_of(prev)[i + 1] == Option::<Seq<u8>>::None);
                assert(target[i] == Option::<Seq<u8>>::None);
            }
        } else {
            assert(cur[63] is None);
            assert(win_of(cur)[63] == Option::<Seq<u8>>::None);
            assert(target[63] == Option::<Seq<u8>>::None);
        }
    }
    assert(win_of(cur) =~= target);
}

/// Removing the head of the retransmission queue advances its ghost image.
proof fn lemma_unacked_shift(
    prev: Seq<UnackedSent>,
    cur: Seq<UnackedSent>,
    u0: Seq<(u16, u32, Seq<u8>)>,
    k: int,
)
    requires
        0 <= k < u0.len(),
        prev.len() + k == u0.len(),
        unacked_of(prev) == u0.skip(k),
        cur == prev.remove(0),
    ensures
        unacked_of(cur) == u0.skip(k + 1),
        unacked_of(prev)[0] == u0[k],
{
    assert forall|i: int| 0 <= i < cur.len() implies unacked_of(cur)[i] == u0.skip(k + 1)[i] by {
        assert(prev.remove(0)[i] == prev[i + 1]);
        assert(cur[i] == prev[i + 1]);
        assert(unacked_of(cur)[i] == unacked_of(prev)[i + 1]);
        assert(unacked_of(prev)[i + 1] == u0.skip(k)[i + 1]);
        assert(u0.skip(k)[i + 1] == u0[k + 1 + i]);
        assert(u0.skip(k + 1)[i] == u0[k + 1 + i]);
    }
    assert(unacked_of(cur) =~= u0.skip(k + 1));
}

/// Pushing a payload appends its bytes to the ghost image.
proof fn lemma_payloads_push(prev: Seq<Vec<u8>>, p: Vec<u8>)
    ensures
        payloads_of(prev.push(p)) == payloads_of(prev).push(p@),
        payloads_of(prev).push(p@) == payloads_of(prev) + seq![p@],
{
    assert(payloads_of(prev.push(p)) =~= payloads_of(prev).push(p@));
    assert(payloads_of(prev).push(p@) =~= payloads_of(prev) + seq![p@]);
}

/// Updating one window slot updates its ghost image pointwise.
proof fn lemma_window_set(
    prev: Seq<Option<Vec<u8>>>,
    cur: Seq<Option<Vec<u8>>>,
    oi: int,
    pv: Seq<u8>,
)
    requires
        0 <= oi < prev.len(),
        cur.len() == prev.len(),
        exists|p: Vec<u8>| #![auto] p@ == pv && cur == prev.update(oi, Option::Some(p)),
    ensures
        win_of(cur) == win_of(prev).update(oi, Option::Some(pv)),
{
    let p = choose|p: Vec<u8>| #![auto] p@ == pv && cur == prev.update(oi, Option::Some(p));
    assert forall|i: int| 0 <= i < cur.len() implies win_of(cur)[i] == win_of(prev).update(
        oi,
        Option::Some(pv),
    )[i] by {
        if i != oi {
            assert(cur[i] == prev[i]);
        } else {
            assert(cur[i] == Option::Some(p));
        }
    }
    assert(win_of(cur) =~= win_of(prev).update(oi, Option::Some(pv)));
}

/// Pushing a queue entry appends its ghost image.
proof fn lemma_unacked_push(prev: Seq<UnackedSent>, e: UnackedSent)
    ensures
        unacked_of(prev.push(e)) == unacked_of(prev).push((e.seq, e.sent_at, e.data@)),
        unacked_of(prev).push((e.seq, e.sent_at, e.data@)) == unacked_of(prev) + seq![
            (e.seq, e.sent_at, e.data@),
        ],
{
    assert(unacked_of(prev.push(e)) =~= unacked_of(prev).push((e.seq, e.sent_at, e.data@)));
    assert(unacked_of(prev).push((e.seq, e.sent_at, e.data@)) =~= unacked_of(prev) + seq![
        (e.seq, e.sent_at, e.data@),
    ]);
}

/// Refreshing the send stamp of entry `k` updates the ghost image at `k`.
proof fn lemma_unacked_refresh(prev: Seq<UnackedSent>, cur: Seq<UnackedSent>, k: int, now: u32)
    requires
        0 <= k < prev.len(),
        cur == prev.remove(k).insert(
            k,
            UnackedSent { seq: prev[k].seq, sent_at: now, data: prev[k].data },
        ),
    ensures
        unacked_of(cur) == unacked_of(prev).update(k, (prev[k].seq, now, prev[k].data@)),
{
    assert(cur.len() == prev.len());
    assert forall|i: int| 0 <= i < cur.len() implies unacked_of(cur)[i] == unacked_of(prev).update(
        k,
        (prev[k].seq, now, prev[k].data@),
    )[i] by {
        if i < k {
            assert(prev.remove(k)[i] == prev[i]);
            assert(cur[i] == prev[i]);
        } else if i == k {
            assert(cur[i] == UnackedSent { seq: prev[k].seq, sent_at: now, data: prev[k].data });
        } else {
            assert(prev.remove(k)[i - 1] == prev[i]);
            assert(cur[i] == prev[i]);
        }
    }
    assert(unacked_of(cur) =~= unacked_of(prev).update(k, (prev[k].seq, now, prev[k].data@)));
}

/// What survives an acknowledgment is no longer than the queue and keeps
/// 15-bit sequence numbers.
proof fn lemma_keep_unacked_entries(s: Seq<(u16, u32, Seq<u8>)>, a: u16, h: u64)
    requires
        forall|i: int| 0 <= i < s.len() ==> (#[trigger] s[i]).0 < 32768,
    ensures
        keep_unacked(s, a, h).len() <= s.len(),
        forall|i: int|
            0 <= i < keep_unacked(s, a, h).len() ==> (#[trigger] keep_unacked(s, a, h)[i]).0
                < 32768,
    decreases s.len(),
{
    if s.len() > 0 {
        assert(forall|i: int| 0 <= i < s.skip(1).len() ==> (#[trigger] s.skip(1)[i]).0 < 32768);
        lemma_keep_unacked_entries(s.skip(1), a, h);
        assert forall|i: int| 0 <= i < keep_unacked(s, a, h).len() implies (
        #[trigger] keep_unacked(s, a, h)[i]).0 < 32768 by {
            let head = (if acked_by(s[0].0, a, h) {
                Seq::<(u16, u32, Seq<u8>)>::empty()
            } else {
                seq![s[0]]
            });
            if i >= head.len() {
                assert(keep_unacked(s, a, h)[i] == keep_unacked(s.skip(1), a, h)[i - head.len()]);
            }
        }
    }
}

/// Appending nothing to a queue image changes nothing.
proof fn lemma_append_empty_unacked(a: Seq<(u16, u32, Seq<u8>)>)
    ensures
        a + Seq::<(u16, u32, Seq<u8>)>::empty() == a,
{
    assert(a + Seq::<(u16, u32, Seq<u8>)>::empty() =~= a);
}

/// Appending nothing to a ghost image changes nothing.
proof fn lemma_append_empty(a: Seq<Seq<u8>>)
    ensures
        a + Seq::<Seq<u8>>::empty() == a,
{
    assert(a + Seq::<Seq<u8>>::empty() =~= a);
}

/// The header the channel would stamp on a datagram at time `time`.
pub open spec fn header_of(v: ChannelView, time: u32) -> ReliableHeader {
    ReliableHeader {
        obj_seq: v.local_seq,
        ack_seq: v.newest_remote_seq,
        ack_hist: v.ack_hist,
        ack_time: ack_elapsed(v.last_recv_time, time),
        send_time: time,
    }
}

/// Time since the last receive, clamped to a 16-bit field.
pub open spec fn ack_elapsed(last_recv: u32, now: u32) -> u16 {
    if now >= last_recv {
        if now - last_recv > 65535 {
            65535u16
        } else {
            (now - last_recv) as u16
        }
    } else {
        0u16
    }
}

/// The ack-forcing rule: a header-only datagram is due when more than 16
/// messages arrived unacknowledged, or at least one did and more than 33 ms
/// passed since the last send.
pub open spec fn need_ack(v: ChannelView, t: u32) -> bool {
    v.recv_since_last_send > 16 || (v.recv_since_last_send > 0 && t as int - v.last_send_time as int
        > 33)
}

impl UdpReliable {
    /// Channel well-formedness: 15-bit counters in range, the outgoing
    /// buffer byte-aligned and either empty or holding at least a header,
    /// the retransmission queue within the 64-entry ack window, and a
    /// 64-slot reorder window.
    pub open spec fn wf(&self) -> bool {
        &&& self@.local_seq < 32768
        &&& self@.newest_remote_seq < 32768
        &&& self@.last_remote_seq < 32768
        &&& self@.buffered.len() % 8 == 0
        &&& (self@.buffered.len() == 0 || self@.buffered.len() >= 112)
        &&& self@.buffered.len() <= 11192
        &&& self@.unacked.len() <= 64
        &&& (forall|i: int| 0 <= i < self@.unacked.len() ==> (#[trigger] self@.unacked[i]).0 < 32768)
        &&& self@.window.len() == 64
        &&& self.inv()
    }

    /// The tie between the concrete buffer and the view; callers only need
    /// `wf`.
    pub closed spec fn inv(&self) -> bool {
        &&& self.write_buf.wf()
        &&& self.write_buf@.len() == 11192
    }

    /// A fresh channel: an empty buffer, queue and window. The local
    /// counter starts at 1 so that the peer's window, whose last delivered
    /// sequence starts at 0, accepts the very first datagram.
    pub fn new() -> (r: UdpReliable)
        ensures
            r.wf(),
            r@.local_seq == 1,
            r@.newest_remote_seq == 0,
            r@.ack_hist == 0,
            r@.last_send_time == 0,
            r@.last_recv_time == 0,
            r@.last_remote_seq == 0,
            r@.recv_since_last_send == 0,
            r@.buffered == Seq::<bool>::empty(),
            r@.unacked == Seq::<(u16, u32, Seq<u8>)>::empty(),
            r@.window == Seq::new(64, |i: int| Option::<Seq<u8>>::None),
    {
        let mut ordered_buf: Vec<Option<Vec<u8>>> = Vec::new();
        let mut k: usize = 0;
        while k < 64
            invariant
                k <= 64,
                ordered_buf@.len() == k,
                forall|j: int| 0 <= j < k ==> ordered_buf@[j] is None,
            decreases 64 - k,
        {
            ordered_buf.push(None);
            k = k + 1;
        }
        let r = UdpReliable {
            write_buf: BitBuf::with_len(1399),
            ordered_buf,
            unacked_sent: Vec::new(),
            newest_remote_seq: 0,
            local_seq: 1,
            ack_hist: 0,
            last_send_time: 0,
            last_recv_time: 0,
            last_remote_seq: 0,
            recv_since_last_send: 0,
        };
        proof {
            assert(r@.buffered =~= Seq::<bool>::empty());
            assert(r@.unacked =~= Seq::<(u16, u32, Seq<u8>)>::empty());
            assert(r@.window =~= Seq::new(64, |i: int| Option::<Seq<u8>>::None));
        }
        r
    }

    /// Whether an outgoing datagram is under construction.
    pub fn has_data(&self) -> (r: bool)
        requires
            self.wf(),
        ensures
            r == (self@.buffered.len() != 0),
    {
        self.write_buf.bit_pos() != 0
    }

    /// Whether the retransmission window can take no further datagram.
    pub fn window_full(&self) -> (r: bool)
        requires
            self.wf(),
        ensures
            r == (self@.unacked.len() >= 64),
    {
        self.unacked_sent.len() >= 64
    }

    /// Whether queueing `len` more payload bytes would flush the current
    /// buffer first.
    pub fn would_flush(&self, len: usize) -> (r: bool)
        requires
            self.wf(),
            len <= 1385,
        ensures
            r == (self@.buffered.len() != 0 && self@.buffered.len() + 8 * len > 11192),
    {
        self.write_buf.bit_pos() != 0 && !self.write_buf.can_write_bits((len * 8) as u16)
    }

    /// The header for a datagram stamped now: current sequence, current
    /// acknowledgment state, elapsed time since the last receive.
    pub fn create_header(&self, time: u32) -> (r: ReliableHeader)
        requires
            self.wf(),
        ensures
            r == header_of(self@, time),
    {
        let ackt: u16 = if time >= self.last_recv_time {
            let d = time - self.last_recv_time;
            if d > 65535 {
                65535
            } else {
                d as u16
            }
        } else {
            0
        };
        ReliableHeader {
            obj_seq: self.local_seq,
            ack_seq: self.newest_remote_seq,
            ack_hist: self.ack_hist,
            ack_time: ackt,
            send_time: time,
        }
    }

    /// Steps the local sequence counter, wrapping at 32768.
    pub fn advance_local_seq(&mut self)
        requires
            old(self).wf(),
        ensures
            final(self).wf(),
            final(self)@ == (ChannelView { local_seq: next_seq(old(self)@.local_seq), ..old(self)@ }),
    {
        self.local_seq = (self.local_seq + 1) % 32768;
    }

    /// If an acknowledgment is due, returns the header to send as a
    /// header-only datagram and counts it as a send; otherwise does nothing.
    pub fn get_ack(&mut self, current_time: u32) -> (r: Option<ReliableHeader>)
        requires
            old(self).wf(),
        ensures
            final(self).wf(),
            r is Some <==> need_ack(old(self)@, current_time),
            r matches Some(h) ==> h == header_of(old(self)@, current_time) && final(self)@ == (
            ChannelView {
                last_send_time: current_time,
                recv_since_last_send: 0,
                ..old(self)@
            }),
            r is None ==> *final(self) == *old(self),
    {
        if self.recv_since_last_send > 16 || (self.recv_since_last_send > 0 && current_time
            >= self.last_send_time && current_time - self.last_send_time > 33) {
            let h = self.create_header(current_time);
            self.last_send_time = current_time;
            self.recv_since_last_send = 0;
            Some(h)
        } else {
            None
        }
    }

    /// Flushes the buffer under construction: advances the sequence
    /// counter, remembers the datagram for retransmission, and hands its
    /// bytes out for sending.
    fn reset_buf(&mut self, time: u32) -> (r: Vec<u8>)
        requires
            old(self).wf(),
            old(self)@.buffered.len() != 0,
            old(self)@.unacked.len() < 64,
        ensures
            final(self).wf(),
            r@.len() == old(self)@.buffered.len() / 8,
            bytes_bits(r@) == old(self)@.buffered,
            final(self)@ == (ChannelView {
                local_seq: next_seq(old(self)@.local_seq),
                recv_since_last_send: 0,
                last_send_time: time,
                unacked: old(self)@.unacked.push((old(self)@.local_seq, time, r@)),
                buffered: Seq::<bool>::empty(),
                ..old(self)@
            }),
    {
        let bytes = self.write_buf.to_bytes();
        let copy = self.write_buf.to_bytes();
        proof {
            assert(bytes@ =~= copy@);
            assert(8 * ((old(self)@.buffered.len() + 7) / 8) == old(self)@.buffered.len());
        }
        self.write_buf.reset_pos();
        self.unacked_sent.push(UnackedSent { seq: self.local_seq, sent_at: time, data: copy });
        self.local_seq = (self.local_seq + 1) % 32768;
        self.recv_since_last_send = 0;
        self.last_send_time = time;
        proof {
            assert(self@.buffered =~= Seq::<bool>::empty());
            assert(self@.unacked =~= old(self)@.unacked.push(
                (old(self)@.local_seq, time, bytes@),
            ));
        }
        bytes
    }

    /// Queues payload bytes for reliable delivery. A fresh buffer first
    /// receives a header stamped now; when the bytes do not fit the current
    /// buffer, that buffer is flushed and returned for sending and a fresh
    /// one takes the bytes. Fails only when a flush is needed but the
    /// retransmission window is already full — the connection is then
    /// unrecoverable.
    pub fn write(&mut self, data: &Vec<u8>, time: u32) -> (r: Result<
        Option<Vec<u8>>,
        ChannelError,
    >)
        requires
            old(self).wf(),
            data@.len() <= 1385,
        ensures
            final(self).wf(),
            old(self)@.buffered.len() == 0 ==> (r matches Ok(o) && o is None && final(self)@ == (
            ChannelView {
                buffered: header_bits(header_of(old(self)@, time)) + bytes_bits(data@),
                ..old(self)@
            })),
            old(self)@.buffered.len() != 0 && old(self)@.buffered.len() + 8 * data@.len() <= 11192
                ==> (r matches Ok(o) && o is None && final(self)@ == (ChannelView {
                buffered: old(self)@.buffered + bytes_bits(data@),
                ..old(self)@
            })),
            old(self)@.buffered.len() + 8 * data@.len() > 11192 && old(self)@.unacked.len() < 64
                ==> (r matches Ok(o) && o matches Some(sent) && sent@.len() == old(
                self,
            )@.buffered.len() / 8 && bytes_bits(sent@) == old(self)@.buffered && final(self)@ == (
            ChannelView {
                local_seq: next_seq(old(self)@.local_seq),
                recv_since_last_send: 0,
                last_send_time: time,
                unacked: old(self)@.unacked.push((old(self)@.local_seq, time, sent@)),
                buffered: header_bits(
                    header_of(
                        ChannelView {
                            local_seq: next_seq(old(self)@.local_seq),
                            recv_since_last_send: 0,
                            last_send_time: time,
                            ..old(self)@
                        },
                        time,
                    ),
                ) + bytes_bits(data@),
                ..old(self)@
            })),
            old(self)@.buffered.len() + 8 * data@.len() > 11192 && old(self)@.unacked.len() >= 64
                ==> r is Err && *final(self) == *old(self),
    {
        proof {
            crate::bits::lemma_bytes_bits_len(data@);
        }
        if self.write_buf.bit_pos() == 0 {
            let h = self.create_header(time);
            let w = write_header(&h, &mut self.write_buf);
            let w2 = self.write_buf.write_bytes(data);
            proof {
                lemma_header_bits_len(h);
                crate::bits::lemma_overlay_prefix(
                    old(self).write_buf@,
                    header_bits(h),
                    bytes_bits(data@),
                );
            }
            Ok(None)
        } else if self.write_buf.can_write_bits((data.len() * 8) as u16) {
            let ghost pre = self.write_buf@;
            let ghost c = self.write_buf.cursor();
            let w2 = self.write_buf.write_bytes(data);
            proof {
                assert(self@.buffered =~= old(self)@.buffered + bytes_bits(data@));
            }
            Ok(None)
        } else {
            if self.unacked_sent.len() >= 64 {
                return Err(ChannelError::WindowOverflow);
            }
            let sent = self.reset_buf(time);
            let h = self.create_header(time);
            let w = write_header(&h, &mut self.write_buf);
            let w2 = self.write_buf.write_bytes(data);
            proof {
                lemma_header_bits_len(h);
                crate::bits::lemma_overlay_prefix(
                    old(self).write_buf@,
                    header_bits(h),
                    bytes_bits(data@),
                );
                let pre = old(self)@;
                let v1 = ChannelView {
                    local_seq: next_seq(pre.local_seq),
                    recv_since_last_send: 0,
                    last_send_time: time,
                    ..pre
                };
                assert(h == header_of(v1, time));
                assert(self@.buffered == header_bits(h) + bytes_bits(data@));
                assert(self@.unacked == pre.unacked.push((pre.local_seq, time, sent@)));
                assert(self@.window == pre.window);
                assert(self@.local_seq == next_seq(pre.local_seq));
                assert(self@.recv_since_last_send == 0);
                assert(self@.last_send_time == time);
                assert(self@.newest_remote_seq == pre.newest_remote_seq);
                assert(self@.ack_hist == pre.ack_hist);
                assert(self@.last_recv_time == pre.last_recv_time);
                assert(self@.last_remote_seq == pre.last_remote_seq);
            }
            Ok(Some(sent))
        }
    }

    /// If a datagram is under construction, flushes and returns it for
    /// sending. Fails only when the retransmission window is already full.
    pub fn get_buf_for_sending(&mut self, time: u32) -> (r: Result<Option<Vec<u8>>, ChannelError>)
        requires
            old(self).wf(),
        ensures
            final(self).wf(),
            old(self)@.buffered.len() == 0 ==> (r matches Ok(o) && o is None && *final(self) == *old(self)),
            old(self)@.buffered.len() != 0 && old(self)@.unacked.len() < 64 ==> (r matches Ok(o)
                && o matches Some(sent) && sent@.len() == old(self)@.buffered.len() / 8
                && bytes_bits(sent@) == old(self)@.buffered && final(self)@ == (ChannelView {
                local_seq: next_seq(old(self)@.local_seq),
                recv_since_last_send: 0,
                last_send_time: time,
                unacked: old(self)@.unacked.push((old(self)@.local_seq, time, sent@)),
                buffered: Seq::<bool>::empty(),
                ..old(self)@
            })),
            old(self)@.buffered.len() != 0 && old(self)@.unacked.len() >= 64 ==> r is Err && *final(self) == *old(self),
    {
        if self.write_buf.bit_pos() == 0 {
            Ok(None)
        } else if self.unacked_sent.len() >= 64 {
            Err(ChannelError::WindowOverflow)
        } else {
            Ok(Some(self.reset_buf(time)))
        }
    }

    /// Processes one inbound reliable datagram: parses the header, drops
    /// every retransmission-queue entry the acknowledgment covers, folds the
    /// sequence into the acknowledgment bitmap, and runs any payload through
    /// the reorder window. Returns the payloads released for delivery, in
    /// order.
    pub fn receive(&mut self, data: &Vec<u8>, time: u32) -> (r: Result<Vec<Vec<u8>>, ChannelError>)
        requires
            old(self).wf(),
        ensures
            final(self).wf(),
            data@.len() < 14 || data@.len() > 1400 ==> r is Err && *final(self) == *old(self),
            14 <= data@.len() <= 1400 ==> (r matches Ok(out) && {
                let h = parsed_header(data@);
                let (wout, wwin, wlast) = window_step(
                    old(self)@.window,
                    old(self)@.last_remote_seq,
                    h.obj_seq,
                    data@.skip(14),
                );
                &&& final(self)@ == (ChannelView {
                    unacked: keep_unacked(old(self)@.unacked, h.ack_seq, h.ack_hist),
                    newest_remote_seq: hist_update(
                        old(self)@.newest_remote_seq,
                        old(self)@.ack_hist,
                        h.obj_seq,
                    ).0,
                    ack_hist: hist_update(
                        old(self)@.newest_remote_seq,
                        old(self)@.ack_hist,
                        h.obj_seq,
                    ).1,
                    recv_since_last_send: if data@.len() > 14 {
                        sat_inc(old(self)@.recv_since_last_send)
                    } else {
                        old(self)@.recv_since_last_send
                    },
                    last_recv_time: time,
                    window: wwin,
                    last_remote_seq: wlast,
                    ..old(self)@
                })
                &&& payloads_of(out@) == wout
            }),
    {
        if data.len() < 14 || data.len() > 1400 {
            return Err(ChannelError::Malformed);
        }
        let mut b = BitBuf::from_bytes(data);
        proof {
            crate::bits::lemma_bytes_bits_len(data@);
        }
        let h = match read_header(&mut b) {
            Ok(h) => h,
            Err(_) => {
                proof {
                    assert(false);
                }
                return Err(ChannelError::Malformed);
            },
        };
        proof {
            assert(h == parsed_header(data@));
        }
        // The payload is everything after the 14 header bytes.
        let mut payload: Vec<u8> = Vec::new();
        let mut i: usize = 14;
        while i < data.len()
            invariant
                14 <= i <= data@.len(),
                payload@ == data@.subrange(14, i as int),
            decreases data@.len() - i,
        {
            payload.push(data[i]);
            proof {
                assert(payload@ =~= data@.subrange(14, i + 1));
            }
            i = i + 1;
        }
        proof {
            assert(payload@ =~= data@.skip(14));
        }
        self.merge_acks(h.ack_seq, h.ack_hist);
        // Fold the inbound sequence into the acknowledgment state.
        let d_fwd = fwd_dist(self.newest_remote_seq, h.obj_seq);
        if d_fwd > 0 && d_fwd < 16384 {
            if d_fwd < 64 {
                self.ack_hist = (self.ack_hist << (d_fwd as u64)) | 1u64;
            } else {
                self.ack_hist = 1u64;
            }
            self.newest_remote_seq = h.obj_seq;
        } else if d_fwd != 0 {
            let d_back = fwd_dist(h.obj_seq, self.newest_remote_seq);
            if d_back < 64 {
                self.ack_hist = self.ack_hist | (1u64 << (d_back as u64));
            }
        }
        if data.len() > 14 {
            // A header-only datagram is pure acknowledgment: nothing in it
            // needs acknowledging back, so it does not count toward the
            // ack-forcing rule.
            if self.recv_since_last_send < 0xffffffff {
                self.recv_since_last_send = self.recv_since_last_send + 1;
            }
        }
        self.last_recv_time = time;
        // Run the payload through the reorder window.
        let out = self.window_insert(payload, h.obj_seq);
        Ok(out)
    }

    /// Drops every retransmission-queue entry that the acknowledgment pair
    /// covers; the others stay, in order.
    fn merge_acks(&mut self, ack_seq: u16, ack_hist: u64)
        requires
            old(self).wf(),
            ack_seq < 32768,
        ensures
            final(self).wf(),
            final(self)@ == (ChannelView {
                unacked: keep_unacked(old(self)@.unacked, ack_seq, ack_hist),
                ..old(self)@
            }),
    {
        let ghost u0 = old(self)@.unacked;
        let mut kept: Vec<UnackedSent> = Vec::new();
        proof {
            assert(u0.subrange(0, 0) =~= Seq::<(u16, u32, Seq<u8>)>::empty());
            assert(unacked_of(kept@) =~= keep_unacked(u0.subrange(0, 0), ack_seq, ack_hist));
            assert(unacked_of(self.unacked_sent@) =~= u0.skip(0));
        }
        let mut k_exec: usize = 0;
        while self.unacked_sent.len() > 0
            invariant
                self.inv(),
                self.write_buf == old(self).write_buf,
                self.ordered_buf == old(self).ordered_buf,
                self.newest_remote_seq == old(self).newest_remote_seq,
                self.local_seq == old(self).local_seq,
                self.ack_hist == old(self).ack_hist,
                self.last_send_time == old(self).last_send_time,
                self.last_recv_time == old(self).last_recv_time,
                self.last_remote_seq == old(self).last_remote_seq,
                self.recv_since_last_send == old(self).recv_since_last_send,
                ack_seq < 32768,
                u0.len() <= 64,
                k_exec + self.unacked_sent@.len() == u0.len(),
                unacked_of(self.unacked_sent@) == u0.skip(k_exec as int),
                forall|j: int| 0 <= j < u0.len() ==> (#[trigger] u0[j]).0 < 32768,
                unacked_of(kept@) == keep_unacked(u0.subrange(0, k_exec as int), ack_seq, ack_hist),
                kept@.len() <= k_exec,
            decreases self.unacked_sent@.len(),
        {
            let ghost prev = self.unacked_sent@;
            let e = self.unacked_sent.remove(0);
            proof {
                lemma_unacked_shift(prev, self.unacked_sent@, u0, k_exec as int);
                assert((e.seq, e.sent_at, e.data@) == u0[k_exec as int]);
                lemma_keep_unacked_snoc(
                    u0.subrange(0, k_exec as int),
                    u0[k_exec as int],
                    ack_seq,
                    ack_hist,
                );
                assert(u0.subrange(0, k_exec as int).push(u0[k_exec as int]) =~= u0.subrange(
                    0,
                    k_exec as int + 1,
                ));
            }
            if !is_acked(e.seq, ack_seq, ack_hist) {
                let ghost kept_prev = kept@;
                kept.push(e);
                proof {
                    lemma_unacked_push(kept_prev, e);
                    assert(unacked_of(kept@) == keep_unacked(
                        u0.subrange(0, k_exec as int + 1),
                        ack_seq,
                        ack_hist,
                    ));
                }
            } else {
                proof {
                    lemma_append_empty_unacked(
                        keep_unacked(u0.subrange(0, k_exec as int), ack_seq, ack_hist),
                    );
                    assert(unacked_of(kept@) == keep_unacked(
                        u0.subrange(0, k_exec as int + 1),
                        ack_seq,
                        ack_hist,
                    ));
                }
            }
            k_exec = k_exec + 1;
        }
        self.unacked_sent = kept;
        proof {
            assert(u0.subrange(0, u0.len() as int) =~= u0);
            lemma_keep_unacked_entries(u0, ack_seq, ack_hist);
            assert(self@.unacked == keep_unacked(u0, ack_seq, ack_hist));
            assert(self@.window == old(self)@.window);
            assert(self@.buffered == old(self)@.buffered);
        }
    }

    /// Parks a payload in the reorder window under its sequence and releases
    /// every payload whose predecessors are all resolved, in order.
    fn window_insert(&mut self, payload: Vec<u8>, s: u16) -> (out: Vec<Vec<u8>>)
        requires
            old(self).wf(),
            s < 32768,
        ensures
            final(self).wf(),
            ({
                let (wout, wwin, wlast) = window_step(
                    old(self)@.window,
                    old(self)@.last_remote_seq,
                    s,
                    payload@,
                );
                &&& final(self)@ == (ChannelView {
                    window: wwin,
                    last_remote_seq: wlast,
                    ..old(self)@
                })
                &&& payloads_of(out@) == wout
            }),
    {
        let o = fwd_dist(self.last_remote_seq, s);
        if payload.len() == 0 || o == 0 || o >= 16384 {
            let out: Vec<Vec<u8>> = Vec::new();
            proof {
                assert(payloads_of(out@) =~= Seq::<Seq<u8>>::empty());
            }
            return out;
        }
        let ghost w0 = old(self)@.window;
        let ghost l0 = old(self)@.last_remote_seq;
        let mut delivered: Vec<Vec<u8>> = Vec::new();
        let slide: u16 = if o > 64 {
            o - 64
        } else {
            0
        };
        let sl: u16 = if slide > 64 {
            64
        } else {
            slide
        };
        proof {
            assert(w0.subrange(0, 0) =~= Seq::<Option<Seq<u8>>>::empty());
            assert(payloads_of(delivered@) =~= somes(w0.subrange(0, 0)));
            assert(self@.window =~= w0.skip(0) + Seq::new(0, |q: int| Option::<Seq<u8>>::None));
        }
        let mut t: u16 = 0;
        while t < sl
            invariant
                self.inv(),
                self.write_buf == old(self).write_buf,
                self.unacked_sent == old(self).unacked_sent,
                self.newest_remote_seq == old(self).newest_remote_seq,
                self.local_seq == old(self).local_seq,
                self.ack_hist == old(self).ack_hist,
                self.last_send_time == old(self).last_send_time,
                self.last_recv_time == old(self).last_recv_time,
                self.last_remote_seq == old(self).last_remote_seq,
                self.recv_since_last_send == old(self).recv_since_last_send,
                t <= sl,
                sl <= 64,
                w0.len() == 64,
                self.ordered_buf@.len() == 64,
                self@.window == w0.skip(t as int) + Seq::new(
                    t as nat,
                    |q: int| Option::<Seq<u8>>::None,
                ),
                payloads_of(delivered@) == somes(w0.subrange(0, t as int)),
            decreases sl - t,
        {
            let ghost prev = self.ordered_buf@;
            let ghost del_prev = delivered@;
            let slot = self.ordered_buf.remove(0);
            self.ordered_buf.push(None);
            proof {
                lemma_window_shift(prev, self.ordered_buf@, w0, t as int);
                lemma_somes_snoc(w0.subrange(0, t as int), w0[t as int]);
                assert(w0.subrange(0, t as int).push(w0[t as int]) =~= w0.subrange(
                    0,
                    t as int + 1,
                ));
                assert(slot == prev[0]);
            }
            match slot {
                Some(p) => {
                    proof {
                        assert(w0[t as int] == Option::Some(p@));
                    }
                    delivered.push(p);
                    proof {
                        lemma_payloads_push(del_prev, delivered@[del_prev.len() as int]);
                        assert(delivered@ == del_prev.push(delivered@[del_prev.len() as int]));
                        assert(payloads_of(delivered@) == somes(w0.subrange(0, t as int + 1)));
                    }
                },
                None => {
                    proof {
                        assert(w0[t as int] is None);
                        lemma_append_empty(somes(w0.subrange(0, t as int)));
                        assert(payloads_of(delivered@) == somes(w0.subrange(0, t as int + 1)));
                    }
                },
            }
            t = t + 1;
        }
        self.last_remote_seq = ((self.last_remote_seq as u32 + slide as u32) % 32768) as u16;
        let ghost exp_del = payloads_of(delivered@);
        let ghost w1 = self@.window;
        let ghost l1 = self@.last_remote_seq;
        // Park the payload in its slot unless a duplicate already sits there.
        let oi: usize = ((o - slide) - 1) as usize;
        let ghost pv = payload@;
        let dup = self.ordered_buf[oi].is_some();
        if !dup {
            let ghost prev = self.ordered_buf@;
            self.ordered_buf.set(oi, Some(payload));
            proof {
                lemma_window_set(prev, self.ordered_buf@, oi as int, pv);
            }
        }
        let ghost w2 = self@.window;
        proof {
            lemma_spl_bounds(w2);
            if !dup {
                assert(w2 == w1.update(oi as int, Option::Some(pv)));
            }
        }
        // Release the run of leading filled slots, oldest first.
        let ghost n = spl(w2);
        let ghost d0 = payloads_of(delivered@);
        let mut j: u16 = 0;
        proof {
            lemma_append_empty(d0);
            assert(w2.subrange(0, 0) =~= Seq::<Option<Seq<u8>>>::empty());
            assert(payloads_of(delivered@) == d0 + somes(w2.subrange(0, 0)));
            assert(self@.window =~= w2.skip(0) + Seq::new(0, |q: int| Option::<Seq<u8>>::None));
        }
        while self.ordered_buf[0].is_some()
            invariant
                self.inv(),
                self.write_buf == old(self).write_buf,
                self.unacked_sent == old(self).unacked_sent,
                self.newest_remote_seq == old(self).newest_remote_seq,
                self.local_seq == old(self).local_seq,
                self.ack_hist == old(self).ack_hist,
                self.last_send_time == old(self).last_send_time,
                self.last_recv_time == old(self).last_recv_time,
                self.recv_since_last_send == old(self).recv_since_last_send,
                w2.len() == 64,
                self.ordered_buf@.len() == 64,
                j <= n,
                n == spl(w2),
                n <= 64,
                forall|x: int| 0 <= x < n ==> w2[x] is Some,
                n < 64 ==> w2[n as int] is None,
                self@.window == w2.skip(j as int) + Seq::new(
                    j as nat,
                    |q: int| Option::<Seq<u8>>::None,
                ),
                payloads_of(delivered@) == d0 + somes(w2.subrange(0, j as int)),
                self@.last_remote_seq == (l1 + j) % (32768 as int),
                l1 < 32768,
            decreases 64 - j,
        {
            proof {
                if j == 64 {
                    assert(self@.window[0] == Seq::new(
                        64nat,
                        |q: int| Option::<Seq<u8>>::None,
                    )[0]);
                    assert(false);
                }
                assert(self@.window[0] == w2[j as int]);
                if j >= n {
                    assert(n < 64 ==> w2[n as int] is None);
                    assert(false);
                }
            }
            let ghost prev = self.ordered_buf@;
            let ghost del_prev = delivered@;
            let slot = self.ordered_buf.remove(0);
            self.ordered_buf.push(None);
            self.last_remote_seq = (self.last_remote_seq + 1) % 32768;
            proof {
                lemma_window_shift(prev, self.ordered_buf@, w2, j as int);
                lemma_somes_snoc(w2.subrange(0, j as int), w2[j as int]);
                assert(w2.subrange(0, j as int).push(w2[j as int]) =~= w2.subrange(
                    0,
                    j as int + 1,
                ));
                assert(slot == prev[0]);
            }
            match slot {
                Some(p) => {
                    proof {
                        assert(w2[j as int] == Option::Some(p@));
                    }
                    delivered.push(p);
                    proof {
                        lemma_payloads_push(del_prev, delivered@[del_prev.len() as int]);
                        assert(delivered@ == del_prev.push(delivered@[del_prev.len() as int]));
                        assert(payloads_of(delivered@) =~= d0 + somes(w2.subrange(0, j as int + 1)));
                    }
                },
                None => {
                    proof {
                        assert(w2[j as int] is Some);
                        assert(false);
                    }
                },
            }
            j = j + 1;
        }
        proof {
            if j < 64 {
                assert(self@.window[0] == w2[j as int]);
            }
            if j < n {
                assert(w2[j as int] is Some);
                assert(false);
            }
            assert(j == n);
            let stepped = window_step(w0, l0, s, pv);
            assert(exp_del == somes(w0.subrange(0, sl as int)));
            assert(stepped.1 == self@.window);
            assert(stepped.2 == self@.last_remote_seq);
            assert(stepped.0 == payloads_of(delivered@));
        }
        delivered
    }

    /// Hands back every unacknowledged datagram whose last transmission is
    /// more than the retransmission delay ago, stamping it as retransmitted
    /// now.
    pub fn due_retransmissions(&mut self, now: u32) -> (out: Vec<Vec<u8>>)
        requires
            old(self).wf(),
        ensures
            final(self).wf(),
            final(self)@ == (ChannelView {
                unacked: Seq::new(
                    old(self)@.unacked.len(),
                    |i: int|
                        if retrans_due(old(self)@.unacked[i], now) {
                            (old(self)@.unacked[i].0, now, old(self)@.unacked[i].2)
                        } else {
                            old(self)@.unacked[i]
                        },
                ),
                ..old(self)@
            }),
            payloads_of(out@) == retrans_out(old(self)@.unacked, now),
    {
        let ghost u0 = old(self)@.unacked;
        let mut out: Vec<Vec<u8>> = Vec::new();
        proof {
            assert(u0.subrange(0, 0) =~= Seq::<(u16, u32, Seq<u8>)>::empty());
            assert(payloads_of(out@) =~= retrans_out(u0.subrange(0, 0), now));
            assert(self@.unacked =~= Seq::new(
                u0.len(),
                |i: int|
                    if i < 0 && retrans_due(u0[i], now) {
                        (u0[i].0, now, u0[i].2)
                    } else {
                        u0[i]
                    },
            ));
        }
        let mut k: usize = 0;
        while k < self.unacked_sent.len()
            invariant
                self.inv(),
                self.write_buf == old(self).write_buf,
                self.ordered_buf == old(self).ordered_buf,
                self.newest_remote_seq == old(self).newest_remote_seq,
                self.local_seq == old(self).local_seq,
                self.ack_hist == old(self).ack_hist,
                self.last_send_time == old(self).last_send_time,
                self.last_recv_time == old(self).last_recv_time,
                self.last_remote_seq == old(self).last_remote_seq,
                self.recv_since_last_send == old(self).recv_since_last_send,
                k <= self.unacked_sent@.len(),
                u0.len() <= 64,
                self.unacked_sent@.len() == u0.len(),
                forall|j: int| 0 <= j < u0.len() ==> (#[trigger] u0[j]).0 < 32768,
                self@.unacked == Seq::new(
                    u0.len(),
                    |i: int|
                        if i < k && retrans_due(u0[i], now) {
                            (u0[i].0, now, u0[i].2)
                        } else {
                            u0[i]
                        },
                ),
                payloads_of(out@) == retrans_out(u0.subrange(0, k as int), now),
            decreases self.unacked_sent@.len() - k,
        {
            proof {
                lemma_retrans_out_snoc(u0.subrange(0, k as int), u0[k as int], now);
                assert(u0.subrange(0, k as int).push(u0[k as int]) =~= u0.subrange(
                    0,
                    k as int + 1,
                ));
                assert(self@.unacked[k as int] == u0[k as int]);
                assert(unacked_of(self.unacked_sent@)[k as int] == u0[k as int]);
            }
            let due = now >= self.unacked_sent[k].sent_at && now - self.unacked_sent[k].sent_at
                > RETRANS_DELAY_MS;
            if due {
                let copied = copy_bytes(&self.unacked_sent[k].data);
                let ghost prev = self.unacked_sent@;
                let ghost out_prev = out@;
                let moved = self.unacked_sent.remove(k);
                let refreshed = UnackedSent { seq: moved.seq, sent_at: now, data: moved.data };
                self.unacked_sent.insert(k, refreshed);
                proof {
                    assert(moved == prev[k as int]);
                    lemma_unacked_refresh(prev, self.unacked_sent@, k as int, now);
                    assert(self@.unacked =~= Seq::new(
                        u0.len(),
                        |i: int|
                            if i < k + 1 && retrans_due(u0[i], now) {
                                (u0[i].0, now, u0[i].2)
                            } else {
                                u0[i]
                            },
                    ));
                }
                out.push(copied);
                proof {
                    lemma_payloads_push(out_prev, out@[out_prev.len() as int]);
                    assert(out@ == out_prev.push(out@[out_prev.len() as int]));
                    assert(payloads_of(out@) =~= retrans_out(u0.subrange(0, k as int + 1), now));
                }
            } else {
                proof {
                    lemma_append_empty(retrans_out(u0.subrange(0, k as int), now));
                    assert(payloads_of(out@) == retrans_out(u0.subrange(0, k as int + 1), now));
                    assert(self@.unacked =~= Seq::new(
                        u0.len(),
                        |i: int|
                            if i < k + 1 && retrans_due(u0[i], now) {
                                (u0[i].0, now, u0[i].2)
                            } else {
                                u0[i]
                            },
                    ));
                }
            }
            k = k + 1;
        }
        proof {
            assert(u0.subrange(0, u0.len() as int) =~= u0);
            assert(self@.window == old(self)@.window);
            assert(self@.buffered == old(self)@.buffered);
            assert(self@.unacked =~= Seq::new(
                u0.len(),
                |i: int|
                    if retrans_due(u0[i], now) {
                        (u0[i].0, now, u0[i].2)
                    } else {
                        u0[i]
                    },
            ));
            assert forall|i: int| 0 <= i < self@.unacked.len() implies (
            #[trigger] self@.unacked[i]).0 < 32768 by {
                assert(self@.unacked[i].0 == u0[i].0);
            }
        }
        out
    }
}

/// How long an unacknowledged datagram waits before it is retransmitted.
pub const RETRANS_DELAY_MS: u32 = 100;

/// Whether a queue entry is due for retransmission at `now`.
pub open spec fn retrans_due(e: (u16, u32, Seq<u8>), now: u32) -> bool {
    now >= e.1 && now - e.1 > RETRANS_DELAY_MS
}

/// The datagrams due for retransmission at `now`, oldest first.
pub open spec fn retrans_out(s: Seq<(u16, u32, Seq<u8>)>, now: u32) -> Seq<Seq<u8>>
    decreases s.len(),
{
    if s.len() == 0 {
        Seq::empty()
    } else {
        (if retrans_due(s[0], now) {
            seq![s[0].2]
        } else {
            Seq::<Seq<u8>>::empty()
        }) + retrans_out(s.skip(1), now)
    }
}

proof fn lemma_retrans_out_snoc(s: Seq<(u16, u32, Seq<u8>)>, e: (u16, u32, Seq<u8>), now: u32)
    ensures
        retrans_out(s.push(e), now) == retrans_out(s, now) + (if retrans_due(e, now) {
            seq![e.2]
        } else {
            Seq::<Seq<u8>>::empty()
        }),
    decreases s.len(),
{
    if s.len() == 0 {
        assert(s.push(e).skip(1) =~= Seq::<(u16, u32, Seq<u8>)>::empty());
        assert(s.push(e)[0] == e);
        assert(retrans_out(Seq::<(u16, u32, Seq<u8>)>::empty(), now) == Seq::<Seq<u8>>::empty());
        assert(retrans_out(s.push(e), now) == (if retrans_due(e, now) {
            seq![e.2]
        } else {
            Seq::<Seq<u8>>::empty()
        }) + retrans_out(Seq::<(u16, u32, Seq<u8>)>::empty(), now));
        assert(retrans_out(s.push(e), now) =~= retrans_out(s, now) + (if retrans_due(e, now) {
            seq![e.2]
        } else {
            Seq::<Seq<u8>>::empty()
        }));
    } else {
        assert(s.push(e).skip(1) =~= s.skip(1).push(e));
        lemma_retrans_out_snoc(s.skip(1), e, now);
        assert(s.push(e)[0] == s[0]);
        assert(retrans_out(s.push(e), now) == (if retrans_due(s[0], now) {
            seq![s[0].2]
        } else {
            Seq::<Seq<u8>>::empty()
        }) + retrans_out(s.skip(1).push(e), now));
        assert(retrans_out(s, now) == (if retrans_due(s[0], now) {
            seq![s[0].2]
        } else {
            Seq::<Seq<u8>>::empty()
        }) + retrans_out(s.skip(1), now));
        assert(retrans_out(s.push(e), now) =~= retrans_out(s, now) + (if retrans_due(e, now) {
            seq![e.2]
        } else {
            Seq::<Seq<u8>>::empty()
        }));
    }
}

/// Forward distance between two 15-bit sequence numbers.
fn fwd_dist(from: u16, to: u16) -> (r: u16)
    requires
        from < 32768,
        to < 32768,
    ensures
        r == seq_fwd_dist(from, to),
        r < 32768,
{
    (to + 32768 - from) % 32768
}

/// Whether an acknowledgment pair covers sequence `s`.
fn is_acked(s: u16, ack_seq: u16, hist: u64) -> (r: bool)
    requires
        s < 32768,
        ack_seq < 32768,
    ensures
        r == acked_by(s, ack_seq, hist),
{
    let k = fwd_dist(s, ack_seq);
    k < 64 && (hist >> (k as u64)) & 1 == 1
}

/// A fresh vector with the same bytes.
fn copy_bytes(data: &Vec<u8>) -> (r: Vec<u8>)
    ensures
        r@ == data@,
{
    let mut out: Vec<u8> = Vec::new();
    let mut k: usize = 0;
    while k < data.len()
        invariant
            k <= data@.len(),
            out@ == data@.subrange(0, k as int),
        decreases data@.len() - k,
    {
        out.push(data[k]);
        proof {
            assert(out@ =~= data@.subrange(0, k + 1));
        }
        k = k + 1;
    }
    proof {
        assert(out@ =~= data@);
    }
    out
}

} // verus!
