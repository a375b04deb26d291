//! A fixed-capacity, bit-addressable cursor buffer.
//!
//! `BitBuf` packs booleans, integers of 8/16/32/64 bits (full-width or any
//! smaller bit count) and raw bytes into a byte array, least significant bit
//! first within a byte and least significant byte first for wider fields; the
//! cursor need not be byte-aligned. Every operation checks the remaining
//! capacity and fails with `Overflow` instead of touching memory out of
//! bounds. The buffer's abstract state is the bit sequence `self@` together
//! with the cursor `self.cursor()`.

use vstd::prelude::*;

verus! {

use vstd::arithmetic::power2::{pow2, lemma_pow2_adds, lemma_pow2_pos, lemma2_to64, lemma2_to64_rest};
use vstd::arithmetic::div_mod::lemma_div_denominator;
use vstd::bits::{lemma_u8_shr_is_div, lemma_u8_low_bits_mask_is_mod, lemma_low_bits_mask_values};
use vstd::pervasive::VecAdditionalExecFns;
use crate::bits::{
    bits_of, val_of, overlay, sign_extend, bytes_bits, lemma_bits_of_len, lemma_bits_of_index,
    lemma_bits_of_snoc, lemma_bits_of_split, lemma_bits_of_mod, lemma_val_of_bits_of, lemma_bits_of_val_of,
    lemma_val_of_lt, lemma_val_of_snoc, lemma_val_of_concat, lemma_overlay_adjacent,
    lemma_overlay_empty, lemma_overlay_push, lemma_bytes_bits_len, lemma_bytes_bits_snoc,
};

/// The error of every fallible buffer operation: the requested bits do not
/// fit between the cursor and the end of the buffer.
#[derive(Clone, Copy, PartialEq, Eq, Structural, Debug)]
pub enum BitBufError {
    Overflow,
}

/// Bit `k` (least significant first) of a byte.
pub open spec fn byte_bit(x: u8, k: nat) -> bool {
    x as nat / pow2(k) % 2 == 1
}

/// What a successful write leaves behind: the low `bits` bits of `v` stand
/// at the old cursor, everything else is untouched, and the cursor moved
/// past them.
pub open spec fn wrote(pre: BitBuf, post: BitBuf, v: nat, bits: nat) -> bool {
    &&& post.wf()
    &&& post.cursor() == pre.cursor() + bits
    &&& post@ == overlay(pre@, pre.cursor(), bits_of(v, bits))
}

/// What a successful read leaves behind: contents untouched, cursor moved.
pub open spec fn read_ok(pre: BitBuf, post: BitBuf, bits: nat) -> bool {
    &&& post.wf()
    &&& post@ == pre@
    &&& post.cursor() == pre.cursor() + bits
}

/// The unsigned value of the `bits` bits at the cursor.
pub open spec fn read_val(pre: BitBuf, bits: nat) -> nat {
    val_of(pre@.subrange(pre.cursor() as int, pre.cursor() + bits as int))
}

pub struct BitBuf {
    buf: Vec<u8>,
    pos: u16,
}

impl View for BitBuf {
    type V = Seq<bool>;

    /// The buffer's full capacity as a bit sequence.
    closed spec fn view(&self) -> Seq<bool> {
        Seq::new(
            (8 * self.buf@.len()) as nat,
            |i: int| byte_bit(self.buf@[i / 8], (i % 8) as nat),
        )
    }
}

impl BitBuf {
    /// The cursor, as a bit position.
    pub closed spec fn cursor(&self) -> nat {
        self.pos as nat
    }

    /// Well-formedness: the cursor stays inside the buffer and the bit
    /// capacity fits the 16-bit cursor.
    pub open spec fn wf(&self) -> bool {
        self.cursor() <= self@.len() && self@.len() <= 65535
    }

    /// A buffer of `bytes` zeroed bytes with the cursor at 0.
    pub fn with_len(bytes: u16) -> (r: BitBuf)
        requires
            bytes <= 8191,
        ensures
            r.wf(),
            r.cursor() == 0,
            r@.len() == 8 * bytes,
            r@ == Seq::new((8 * bytes) as nat, |i: int| false),
    {
        let mut buf: Vec<u8> = Vec::new();
        let mut k: u16 = 0;
        while k < bytes
            invariant
                k <= bytes,
                bytes <= 8191,
                buf@.len() == k,
                forall|j: int| 0 <= j < k ==> buf@[j] == 0u8,
            decreases bytes - k,
        {
            buf.push(0u8);
            k = k + 1;
        }
        let r = BitBuf { buf, pos: 0 };
        proof {
            lemma2_to64();
            assert forall|i: int| 0 <= i < r@.len() implies r@[i] == false by {
                assert(r.buf@[i / 8] == 0u8);
                assert(pow2((i % 8) as nat) > 0) by {
                    lemma_pow2_pos((i % 8) as nat);
                }
                assert(0nat / pow2((i % 8) as nat) == 0);
            }
            assert(r@ =~= Seq::new((8 * bytes) as nat, |i: int| false));
        }
        r
    }

    /// A buffer holding the default datagram capacity of 1400 bytes.
    pub fn new() -> (r: BitBuf)
        ensures
            r.wf(),
            r.cursor() == 0,
            r@.len() == 11200,
            r@ == Seq::new(11200nat, |i: int| false),
    {
        BitBuf::with_len(1400)
    }

    /// A buffer holding the given bytes, cursor at 0, ready for reading.
    pub fn from_bytes(data: &Vec<u8>) -> (r: BitBuf)
        requires
            data@.len() <= 8191,
        ensures
            r.wf(),
            r.cursor() == 0,
            r@ == bytes_bits(data@),
    {
        let mut buf: Vec<u8> = Vec::new();
        let mut k: usize = 0;
        while k < data.len()
            invariant
                k <= data@.len(),
                data@.len() <= 8191,
                buf@ == data@.subrange(0, k as int),
            decreases data@.len() - k,
        {
            buf.push(data[k]);
            proof {
                assert(buf@ =~= data@.subrange(0, k + 1));
            }
            k = k + 1;
        }
        proof {
            assert(buf@ =~= data@);
        }
        let r = BitBuf { buf, pos: 0 };
        proof {
            lemma_bytes_bits_len(data@);
            lemma_bytes_bits_index_all(data@);
            assert(r@ =~= bytes_bits(data@));
        }
        r
    }

    /// The buffer's capacity in bits.
    pub fn bit_size(&self) -> (r: u16)
        requires
            self.wf(),
        ensures
            r == self@.len(),
    {
        (self.buf.len() * 8) as u16
    }

    /// The cursor's bit position.
    pub fn bit_pos(&self) -> (r: u16)
        requires
            self.wf(),
        ensures
            r == self.cursor(),
    {
        self.pos
    }

    /// How many bytes the bits up to the cursor occupy.
    pub fn byte_pos(&self) -> (r: u16)
        requires
            self.wf(),
        ensures
            r == (self.cursor() + 7) / 8,
    {
        (self.pos + 7) / 8
    }

    /// Moves the cursor back to the start without touching the contents.
    pub fn reset_pos(&mut self)
        requires
            old(self).wf(),
        ensures
            final(self).wf(),
            final(self)@ == old(self)@,
            final(self).cursor() == 0,
    {
        self.pos = 0;
    }

    /// Whether `bit_size` more bits fit between the cursor and the end.
    pub fn can_write_bits(&self, bit_size: u16) -> (r: bool)
        requires
            self.wf(),
        ensures
            r == (self.cursor() + bit_size <= self@.len()),
    {
        bit_size <= (self.buf.len() * 8) as u16 - self.pos
    }

    /// Whether `bit_size` more bits can be read before the end.
    pub fn can_read_bits(&self, bit_size: u16) -> (r: bool)
        requires
            self.wf(),
        ensures
            r == (self.cursor() + bit_size <= self@.len()),
    {
        bit_size <= (self.buf.len() * 8) as u16 - self.pos
    }

    /// Writes a single bit at the cursor.
    fn write_bit(&mut self, b: bool)
        requires
            old(self).wf(),
            old(self).cursor() < old(self)@.len(),
        ensures
            final(self).wf(),
            final(self).cursor() == old(self).cursor() + 1,
            final(self)@ == old(self)@.update(old(self).cursor() as int, b),
    {
        let p: usize = (self.pos / 8) as usize;
        let off: u8 = (self.pos % 8) as u8;
        let b0: u8 = self.buf[p];
        let nb: u8 = if b {
            b0 | (1u8 << off)
        } else {
            b0 & !(1u8 << off)
        };
        proof {
            assert(8 * (self.pos as int / 8) <= self.pos < 8 * (self.pos as int / 8) + 8);
        }
        self.buf.set(p, nb);
        self.pos = self.pos + 1;
        proof {
            let s0 = old(self)@;
            let c = old(self).cursor() as int;
            assert forall|i: int| 0 <= i < s0.len() implies self@[i] == (if i == c {
                b
            } else {
                s0[i]
            }) by {
                if i / 8 == p as int {
                    let k = (i % 8) as u8;
                    lemma_byte_bit_shift(b0, k);
                    lemma_byte_bit_shift(nb, k);
                    let offv = off;
                    if b {
                        assert(((b0 | (1u8 << offv)) >> k) & 1 == (if k == offv {
                            1u8
                        } else {
                            (b0 >> k) & 1
                        })) by (bit_vector)
                            requires
                                offv < 8,
                                k < 8,
                        ;
                    } else {
                        assert(((b0 & !(1u8 << offv)) >> k) & 1 == (if k == offv {
                            0u8
                        } else {
                            (b0 >> k) & 1
                        })) by (bit_vector)
                            requires
                                offv < 8,
                                k < 8,
                        ;
                    }
                    assert(i == c <==> i % 8 == offv as int);
                }
            }
            assert(self@ =~= s0.update(c, b));
        }
    }

    /// Reads a single bit at the cursor.
    fn read_bit(&mut self) -> (r: bool)
        requires
            old(self).wf(),
            old(self).cursor() < old(self)@.len(),
        ensures
            final(self).wf(),
            final(self)@ == old(self)@,
            final(self).cursor() == old(self).cursor() + 1,
            r == old(self)@[old(self).cursor() as int],
    {
        let p: usize = (self.pos / 8) as usize;
        let off: u8 = (self.pos % 8) as u8;
        proof {
            assert(8 * (self.pos as int / 8) <= self.pos < 8 * (self.pos as int / 8) + 8);
        }
        let r = (self.buf[p] >> off) & 1 == 1;
        proof {
            lemma_byte_bit_shift(self.buf@[p as int], (self.pos % 8) as u8);
        }
        self.pos = self.pos + 1;
        r
    }

    /// Writes the low `bits` bits of a byte; the unchecked core shared by all
    /// byte-at-a-time writers.
    fn in_write_byte(&mut self, value: u8, bits: u16)
        requires
            old(self).wf(),
            bits <= 8,
            old(self).cursor() + bits <= old(self)@.len(),
        ensures
            final(self).wf(),
            final(self).cursor() == old(self).cursor() + bits,
            final(self)@ == overlay(old(self)@, old(self).cursor(), bits_of(value as nat, bits as nat)),
    {
        let ghost s0 = old(self)@;
        let ghost c0 = old(self).cursor();
        let mut k: u16 = 0;
        let mut cur: u8 = value;
        proof {
            lemma2_to64();
            lemma_overlay_empty(s0, c0);
            assert(bits_of(value as nat, 0) =~= Seq::<bool>::empty());
        }
        while k < bits
            invariant
                self.wf(),
                k <= bits,
                bits <= 8,
                c0 + bits <= s0.len(),
                self.cursor() == c0 + k,
                self@ == overlay(s0, c0, bits_of(value as nat, k as nat)),
                cur as nat == value as nat / pow2(k as nat),
            decreases bits - k,
        {
            proof {
                lemma_bits_of_len(value as nat, k as nat);
                assert(self@.len() == s0.len());
            }
            self.write_bit(cur % 2 == 1);
            proof {
                lemma_bits_of_snoc(value as nat, k as nat);
                lemma_overlay_push(s0, c0, bits_of(value as nat, k as nat), cur % 2 == 1);
                assert(cur % 2 == value as nat / pow2(k as nat) % 2);
            }
            proof {
                lemma2_to64();
                lemma_pow2_adds(k as nat, 1);
                lemma_pow2_pos(k as nat);
                lemma_div_denominator(value as int, pow2(k as nat) as int, 2);
                assert(pow2(k as nat + 1) == pow2(k as nat) * 2);
            }
            cur = cur / 2;
            k = k + 1;
        }
    }

    /// Reads `bits` bits as an unsigned byte; the unchecked core shared by
    /// all byte-at-a-time readers.
    fn in_read_byte(&mut self, bits: u16) -> (r: u8)
        requires
            old(self).wf(),
            bits <= 8,
            old(self).cursor() + bits <= old(self)@.len(),
        ensures
            final(self).wf(),
            final(self)@ == old(self)@,
            final(self).cursor() == old(self).cursor() + bits,
            r as nat == val_of(old(self)@.subrange(
                old(self).cursor() as int,
                old(self).cursor() + bits,
            )),
    {
        let ghost s0 = old(self)@;
        let ghost c0 = old(self).cursor();
        let mut k: u16 = 0;
        let mut acc: u16 = 0;
        let mut place: u16 = 1;
        proof {
            lemma2_to64();
            assert(s0.subrange(c0 as int, c0 as int) =~= Seq::<bool>::empty());
        }
        while k < bits
            invariant
                self.wf(),
                k <= bits,
                bits <= 8,
                c0 + bits <= s0.len(),
                self@ == s0,
                self.cursor() == c0 + k,
                place == pow2(k as nat),
                place <= 256,
                acc as nat == val_of(s0.subrange(c0 as int, c0 + k)),
                acc < place,
            decreases bits - k,
        {
            let b = self.read_bit();
            proof {
                assert(s0.subrange(c0 as int, c0 + k + 1) =~= s0.subrange(c0 as int, c0 + k).push(
                    s0[c0 + k],
                ));
                lemma_val_of_snoc(s0.subrange(c0 as int, c0 + k), s0[c0 + k]);
                lemma_pow2_adds(k as nat, 1);
                lemma2_to64();
            }
            if b {
                acc = acc + place;
            }
            place = place * 2;
            k = k + 1;
        }
        proof {
            lemma_val_of_lt(s0.subrange(c0 as int, c0 + bits));
            lemma_pow2_le_256(bits as nat);
        }
        acc as u8
    }

    /// Writes the low `bits` bits of `value`, least significant byte first;
    /// the unchecked core behind every integer writer.
    fn write_le_bits(&mut self, value: u64, bits: u16)
        requires
            old(self).wf(),
            bits <= 64,
            old(self).cursor() + bits <= old(self)@.len(),
        ensures
            final(self).wf(),
            final(self).cursor() == old(self).cursor() + bits,
            final(self)@ == overlay(
                old(self)@,
                old(self).cursor(),
                bits_of(value as nat, bits as nat),
            ),
    {
        let ghost s0 = old(self)@;
        let ghost c0 = old(self).cursor();
        let mut done: u16 = 0;
        let mut cur: u64 = value;
        proof {
            lemma2_to64();
            lemma_overlay_empty(s0, c0);
            assert(bits_of(value as nat, 0) =~= Seq::<bool>::empty());
        }
        while done < bits
            invariant
                self.wf(),
                done <= bits,
                bits <= 64,
                c0 + bits <= s0.len(),
                self.cursor() == c0 + done,
                self@ == overlay(s0, c0, bits_of(value as nat, done as nat)),
                done < bits ==> cur as nat == value as nat / pow2(done as nat),
            decreases bits - done,
        {
            let chunk: u16 = if bits - done > 8 {
                8
            } else {
                bits - done
            };
            proof {
                lemma2_to64();
                lemma_bits_of_len(value as nat, done as nat);
                assert(self@.len() == s0.len());
            }
            self.in_write_byte((cur % 256) as u8, chunk);
            proof {
                lemma2_to64();
                lemma_bits_of_mod(cur as nat, chunk as nat, 8);
                assert(pow2(8) == 256);
                assert(((cur % 256) as u8) as nat == cur as nat % pow2(8));
                assert(bits_of(((cur % 256) as u8) as nat, chunk as nat) == bits_of(
                    cur as nat,
                    chunk as nat,
                ));
                lemma_bits_of_split(value as nat, done as nat, chunk as nat);
                lemma_bits_of_len(value as nat, done as nat);
                lemma_bits_of_len(cur as nat, chunk as nat);
                lemma_overlay_adjacent(
                    s0,
                    c0,
                    bits_of(value as nat, done as nat),
                    bits_of(cur as nat, chunk as nat),
                );
                lemma_pow2_adds(done as nat, 8);
                lemma_pow2_pos(done as nat);
                lemma_div_denominator(value as int, pow2(done as nat) as int, 256);
            }
            cur = cur / 256;
            done = done + chunk;
        }
    }

    /// Reads `bits` bits as an unsigned value, least significant byte first;
    /// the unchecked core behind every integer reader.
    fn read_le_bits(&mut self, bits: u16) -> (r: u64)
        requires
            old(self).wf(),
            bits <= 64,
            old(self).cursor() + bits <= old(self)@.len(),
        ensures
            final(self).wf(),
            final(self)@ == old(self)@,
            final(self).cursor() == old(self).cursor() + bits,
            r as nat == val_of(old(self)@.subrange(
                old(self).cursor() as int,
                old(self).cursor() + bits,
            )),
    {
        let ghost s0 = old(self)@;
        let ghost c0 = old(self).cursor();
        let mut done: u16 = 0;
        let mut acc: u128 = 0;
        let mut place: u128 = 1;
        proof {
            lemma2_to64();
            assert(s0.subrange(c0 as int, c0 as int) =~= Seq::<bool>::empty());
        }
        while done < bits
            invariant
                self.wf(),
                done <= bits,
                bits <= 64,
                c0 + bits <= s0.len(),
                self@ == s0,
                self.cursor() == c0 + done,
                place == pow2(done as nat),
                acc == val_of(s0.subrange(c0 as int, c0 + done)),
                acc < place,
            decreases bits - done,
        {
            let chunk: u16 = if bits - done > 8 {
                8
            } else {
                bits - done
            };
            let byte = self.in_read_byte(chunk);
            proof {
                lemma2_to64();
                lemma2_to64_rest();
                lemma_pow2_le_u64(done as nat);
                lemma_pow2_le_256(chunk as nat);
                assert(s0.subrange(c0 as int, c0 + done + chunk) =~= s0.subrange(
                    c0 as int,
                    c0 + done,
                ) + s0.subrange(c0 + done, c0 + done + chunk));
                lemma_val_of_concat(
                    s0.subrange(c0 as int, c0 + done),
                    s0.subrange(c0 + done, c0 + done + chunk),
                );
                lemma_val_of_lt(s0.subrange(c0 + done, c0 + done + chunk));
                lemma_pow2_adds(done as nat, chunk as nat);
                assert(byte as nat * pow2(done as nat) <= 255 * pow2(done as nat)) by (
                nonlinear_arith)
                    requires
                        byte <= 255,
                ;
                assert(acc + byte as nat * pow2(done as nat) < pow2(done as nat) * pow2(
                    chunk as nat,
                )) by (nonlinear_arith)
                    requires
                        acc < pow2(done as nat),
                        (byte as nat) < pow2(chunk as nat),
                        pow2(done as nat) > 0,
                ;
            }
            acc = acc + (byte as u128) * place;
            proof {
                assert((byte as nat) * pow2(done as nat) == pow2(done as nat) * (byte as nat)) by (
                nonlinear_arith);
                assert(acc == val_of(s0.subrange(c0 as int, c0 + done + chunk)));
            }
            let factor = pow2_chunk(chunk);
            proof {
                lemma_pow2_adds(done as nat, chunk as nat);
                lemma_mul_le_u128(place, factor as u128, done as nat, chunk as nat);
            }
            place = place * (factor as u128);
            done = done + chunk;
        }
        proof {
            lemma2_to64();
            lemma2_to64_rest();
            lemma_pow2_le_u64(bits as nat);
            assert(acc < 0x10000000000000000);
        }
        acc as u64
    }

    /// Writes one bit; the bit at the old cursor becomes `value`.
    pub fn write_bool(&mut self, value: bool) -> (r: Result<(), BitBufError>)
        requires
            old(self).wf(),
        ensures
            final(self).wf(),
            r is Ok <==> old(self).cursor() + 1 <= old(self)@.len(),
            r is Ok ==> final(self)@ == old(self)@.update(old(self).cursor() as int, value)
                && final(self).cursor() == old(self).cursor() + 1,
            r is Err ==> *final(self) == *old(self),
    {
        if !self.can_write_bits(1) {
            return Err(BitBufError::Overflow);
        }
        let v: u8 = if value {
            1
        } else {
            0
        };
        self.in_write_byte(v, 1);
        proof {
            lemma_bits_of_len(v as nat, 1);
            assert(bits_of(v as nat, 1)[0] == value);
            assert(self@ =~= old(self)@.update(old(self).cursor() as int, value));
        }
        Ok(())
    }

    /// Reads one bit.
    pub fn read_bool(&mut self) -> (r: Result<bool, BitBufError>)
        requires
            old(self).wf(),
        ensures
            final(self).wf(),
            old(self).cursor() + 1 <= old(self)@.len() ==> (r matches Ok(v) && v == old(
                self,
            )@[old(self).cursor() as int] && read_ok(*old(self), *final(self), 1)),
            old(self).cursor() + 1 > old(self)@.len() ==> r is Err && *final(self) == *old(self),
    {
        if !self.can_read_bits(1) {
            return Err(BitBufError::Overflow);
        }
        let v = self.in_read_byte(1);
        proof {
            let s = old(self)@.subrange(
                old(self).cursor() as int,
                old(self).cursor() as int + 1,
            );
            assert(s.skip(1) =~= Seq::<bool>::empty());
            assert(val_of(Seq::<bool>::empty()) == 0);
            assert(val_of(s) == (if s[0] {
                1nat
            } else {
                0nat
            }));
        }
        Ok(v == 1)
    }

    /// Writes the low `bits` bits of an 8-bit value.
    pub fn write_u8_part(&mut self, value: u8, bits: u16) -> (r: Result<(), BitBufError>)
        requires
            old(self).wf(),
            bits <= 8,
        ensures
            final(self).wf(),
            r is Ok <==> old(self).cursor() + bits <= old(self)@.len(),
            r is Ok ==> wrote(*old(self), *final(self), value as nat, bits as nat),
            r is Err ==> *final(self) == *old(self),
    {
        if !self.can_write_bits(bits) {
            return Err(BitBufError::Overflow);
        }
        self.in_write_byte(value, bits);
        Ok(())
    }

    /// Reads `bits` bits as an unsigned 8-bit value.
    pub fn read_u8_part(&mut self, bits: u16) -> (r: Result<u8, BitBufError>)
        requires
            old(self).wf(),
            bits <= 8,
        ensures
            final(self).wf(),
            old(self).cursor() + bits <= old(self)@.len() ==> (r matches Ok(v) && v as nat
                == read_val(*old(self), bits as nat) && read_ok(*old(self), *final(self), bits as nat)),
            old(self).cursor() + bits > old(self)@.len() ==> r is Err && *final(self) == *old(self),
    {
        if !self.can_read_bits(bits) {
            return Err(BitBufError::Overflow);
        }
        Ok(self.in_read_byte(bits))
    }

    /// Writes a full byte.
    pub fn write_u8(&mut self, value: u8) -> (r: Result<(), BitBufError>)
        requires
            old(self).wf(),
        ensures
            final(self).wf(),
            r is Ok <==> old(self).cursor() + 8 <= old(self)@.len(),
            r is Ok ==> wrote(*old(self), *final(self), value as nat, 8),
            r is Err ==> *final(self) == *old(self),
    {
        self.write_u8_part(value, 8)
    }

    /// Reads a full byte.
    pub fn read_u8(&mut self) -> (r: Result<u8, BitBufError>)
        requires
            old(self).wf(),
        ensures
            final(self).wf(),
            old(self).cursor() + 8 <= old(self)@.len() ==> (r matches Ok(v) && v as nat == read_val(
                *old(self),
                8,
            ) && read_ok(*old(self), *final(self), 8)),
            old(self).cursor() + 8 > old(self)@.len() ==> r is Err && *final(self) == *old(self),
    {
        self.read_u8_part(8)
    }

    /// Writes the low `bits` bits of a 16-bit value.
    pub fn write_u16_part(&mut self, value: u16, bits: u16) -> (r: Result<(), BitBufError>)
        requires
            old(self).wf(),
            bits <= 16,
        ensures
            final(self).wf(),
            r is Ok <==> old(self).cursor() + bits <= old(self)@.len(),
            r is Ok ==> wrote(*old(self), *final(self), value as nat, bits as nat),
            r is Err ==> *final(self) == *old(self),
    {
        if !self.can_write_bits(bits) {
            return Err(BitBufError::Overflow);
        }
        self.write_le_bits(value as u64, bits);
        Ok(())
    }

    /// Reads `bits` bits as an unsigned 16-bit value.
    pub fn read_u16_part(&mut self, bits: u16) -> (r: Result<u16, BitBufError>)
        requires
            old(self).wf(),
            bits <= 16,
        ensures
            final(self).wf(),
            old(self).cursor() + bits <= old(self)@.len() ==> (r matches Ok(v) && v as nat
                == read_val(*old(self), bits as nat) && read_ok(*old(self), *final(self), bits as nat)),
            old(self).cursor() + bits > old(self)@.len() ==> r is Err && *final(self) == *old(self),
    {
        if !self.can_read_bits(bits) {
            return Err(BitBufError::Overflow);
        }
        let v = self.read_le_bits(bits);
        proof {
            lemma_read_fits(*old(self), bits as nat, 16);
            lemma2_to64();
        }
        Ok(v as u16)
    }

    /// Writes a full 16-bit value.
    pub fn write_u16(&mut self, value: u16) -> (r: Result<(), BitBufError>)
        requires
            old(self).wf(),
        ensures
            final(self).wf(),
            r is Ok <==> old(self).cursor() + 16 <= old(self)@.len(),
            r is Ok ==> wrote(*old(self), *final(self), value as nat, 16),
            r is Err ==> *final(self) == *old(self),
    {
        self.write_u16_part(value, 16)
    }

    /// Reads a full 16-bit value.
    pub fn read_u16(&mut self) -> (r: Result<u16, BitBufError>)
        requires
            old(self).wf(),
        ensures
            final(self).wf(),
            old(self).cursor() + 16 <= old(self)@.len() ==> (r matches Ok(v) && v as nat
                == read_val(*old(self), 16) && read_ok(*old(self), *final(self), 16)),
            old(self).cursor() + 16 > old(self)@.len() ==> r is Err && *final(self) == *old(self),
    {
        self.read_u16_part(16)
    }

    /// Writes the low `bits` bits of a 32-bit value.
    pub fn write_u32_part(&mut self, value: u32, bits: u16) -> (r: Result<(), BitBufError>)
        requires
            old(self).wf(),
            bits <= 32,
        ensures
            final(self).wf(),
            r is Ok <==> old(self).cursor() + bits <= old(self)@.len(),
            r is Ok ==> wrote(*old(self), *final(self), value as nat, bits as nat),
            r is Err ==> *final(self) == *old(self),
    {
        if !self.can_write_bits(bits) {
            return Err(BitBufError::Overflow);
        }
        self.write_le_bits(value as u64, bits);
        Ok(())
    }

    /// Reads `bits` bits as an unsigned 32-bit value.
    pub fn read_u32_part(&mut self, bits: u16) -> (r: Result<u32, BitBufError>)
        requires
            old(self).wf(),
            bits <= 32,
        ensures
            final(self).wf(),
            old(self).cursor() + bits <= old(self)@.len() ==> (r matches Ok(v) && v as nat
                == read_val(*old(self), bits as nat) && read_ok(*old(self), *final(self), bits as nat)),
            old(self).cursor() + bits > old(self)@.len() ==> r is Err && *final(self) == *old(self),
    {
        if !self.can_read_bits(bits) {
            return Err(BitBufError::Overflow);
        }
        let v = self.read_le_bits(bits);
        proof {
            lemma_read_fits(*old(self), bits as nat, 32);
            lemma2_to64();
        }
        Ok(v as u32)
    }

    /// Writes a full 32-bit value.
    pub fn write_u32(&mut self, value: u32) -> (r: Result<(), BitBufError>)
        requires
            old(self).wf(),
        ensures
            final(self).wf(),
            r is Ok <==> old(self).cursor() + 32 <= old(self)@.len(),
            r is Ok ==> wrote(*old(self), *final(self), value as nat, 32),
            r is Err ==> *final(self) == *old(self),
    {
        self.write_u32_part(value, 32)
    }

    /// Reads a full 32-bit value.
    pub fn read_u32(&mut self) -> (r: Result<u32, BitBufError>)
        requires
            old(self).wf(),
        ensures
            final(self).wf(),
            old(self).cursor() + 32 <= old(self)@.len() ==> (r matches Ok(v) && v as nat
                == read_val(*old(self), 32) && read_ok(*old(self), *final(self), 32)),
            old(self).cursor() + 32 > old(self)@.len() ==> r is Err && *final(self) == *old(self),
    {
        self.read_u32_part(32)
    }

    /// Writes the low `bits` bits of a 64-bit value.
    pub fn write_u64_part(&mut self, value: u64, bits: u16) -> (r: Result<(), BitBufError>)
        requires
            old(self).wf(),
            bits <= 64,
        ensures
            final(self).wf(),
            r is Ok <==> old(self).cursor() + bits <= old(self)@.len(),
            r is Ok ==> wrote(*old(self), *final(self), value as nat, bits as nat),
            r is Err ==> *final(self) == *old(self),
    {
        if !self.can_write_bits(bits) {
            return Err(BitBufError::Overflow);
        }
        self.write_le_bits(value, bits);
        Ok(())
    }

    /// Reads `bits` bits as an unsigned 64-bit value.
    pub fn read_u64_part(&mut self, bits: u16) -> (r: Result<u64, BitBufError>)
        requires
            old(self).wf(),
            bits <= 64,
        ensures
            final(self).wf(),
            old(self).cursor() + bits <= old(self)@.len() ==> (r matches Ok(v) && v as nat
                == read_val(*old(self), bits as nat) && read_ok(*old(self), *final(self), bits as nat)),
            old(self).cursor() + bits > old(self)@.len() ==> r is Err && *final(self) == *old(self),
    {
        if !self.can_read_bits(bits) {
            return Err(BitBufError::Overflow);
        }
        Ok(self.read_le_bits(bits))
    }

    /// Writes a full 64-bit value.
    pub fn write_u64(&mut self, value: u64) -> (r: Result<(), BitBufError>)
        requires
            old(self).wf(),
        ensures
            final(self).wf(),
            r is Ok <==> old(self).cursor() + 64 <= old(self)@.len(),
            r is Ok ==> wrote(*old(self), *final(self), value as nat, 64),
            r is Err ==> *final(self) == *old(self),
    {
        self.write_u64_part(value, 64)
    }

    /// Reads a full 64-bit value.
    pub fn read_u64(&mut self) -> (r: Result<u64, BitBufError>)
        requires
            old(self).wf(),
        ensures
            final(self).wf(),
            old(self).cursor() + 64 <= old(self)@.len() ==> (r matches Ok(v) && v as nat
                == read_val(*old(self), 64) && read_ok(*old(self), *final(self), 64)),
            old(self).cursor() + 64 > old(self)@.len() ==> r is Err && *final(self) == *old(self),
    {
        self.read_u64_part(64)
    }

    /// Writes the low `bits` bits of a signed 8-bit value, two's complement.
    pub fn write_i8_part(&mut self, value: i8, bits: u16) -> (r: Result<(), BitBufError>)
        requires
            old(self).wf(),
            bits <= 8,
        ensures
            final(self).wf(),
            r is Ok <==> old(self).cursor() + bits <= old(self)@.len(),
            r is Ok ==> wrote(*old(self), *final(self), (value as u8) as nat, bits as nat),
            r is Err ==> *final(self) == *old(self),
    {
        self.write_u8_part(value as u8, bits)
    }

    /// Reads `bits` bits as a signed value, sign-extending from bit
    /// `bits - 1`.
    pub fn read_i8_part(&mut self, bits: u16) -> (r: Result<i8, BitBufError>)
        requires
            old(self).wf(),
            bits <= 8,
        ensures
            final(self).wf(),
            old(self).cursor() + bits <= old(self)@.len() ==> (r matches Ok(v) && v as int
                == sign_extend(read_val(*old(self), bits as nat), bits as nat) && read_ok(
                *old(self),
                *final(self),
                bits as nat,
            )),
            old(self).cursor() + bits > old(self)@.len() ==> r is Err && *final(self) == *old(self),
    {
        if !self.can_read_bits(bits) {
            return Err(BitBufError::Overflow);
        }
        let u = self.read_le_bits(bits);
        proof {
            lemma_val_of_lt(old(self)@.subrange(
                old(self).cursor() as int,
                old(self).cursor() + bits as int,
            ));
        }
        let s = sign_extend_64(u, bits);
        proof {
            lemma_signed_fits(*old(self), u as nat, bits as nat, 8);
            lemma2_to64();
        }
        Ok(s as i8)
    }

    /// Writes a full signed byte.
    pub fn write_i8(&mut self, value: i8) -> (r: Result<(), BitBufError>)
        requires
            old(self).wf(),
        ensures
            final(self).wf(),
            r is Ok <==> old(self).cursor() + 8 <= old(self)@.len(),
            r is Ok ==> wrote(*old(self), *final(self), (value as u8) as nat, 8),
            r is Err ==> *final(self) == *old(self),
    {
        self.write_i8_part(value, 8)
    }

    /// Reads a full signed byte.
    pub fn read_i8(&mut self) -> (r: Result<i8, BitBufError>)
        requires
            old(self).wf(),
        ensures
            final(self).wf(),
            old(self).cursor() + 8 <= old(self)@.len() ==> (r matches Ok(v) && v as int
                == sign_extend(read_val(*old(self), 8), 8) && read_ok(*old(self), *final(self), 8)),
            old(self).cursor() + 8 > old(self)@.len() ==> r is Err && *final(self) == *old(self),
    {
        self.read_i8_part(8)
    }

    /// Writes the low `bits` bits of a signed 16-bit value, two's complement.
    pub fn write_i16_part(&mut self, value: i16, bits: u16) -> (r: Result<(), BitBufError>)
        requires
            old(self).wf(),
            bits <= 16,
        ensures
            final(self).wf(),
            r is Ok <==> old(self).cursor() + bits <= old(self)@.len(),
            r is Ok ==> wrote(*old(self), *final(self), (value as u16) as nat, bits as nat),
            r is Err ==> *final(self) == *old(self),
    {
        self.write_u16_part(value as u16, bits)
    }

    /// Reads `bits` bits as a signed 16-bit value, sign-extending from bit
    /// `bits - 1`.
    pub fn read_i16_part(&mut self, bits: u16) -> (r: Result<i16, BitBufError>)
        requires
            old(self).wf(),
            bits <= 16,
        ensures
            final(self).wf(),
            old(self).cursor() + bits <= old(self)@.len() ==> (r matches Ok(v) && v as int
                == sign_extend(read_val(*old(self), bits as nat), bits as nat) && read_ok(
                *old(self),
                *final(self),
                bits as nat,
            )),
            old(self).cursor() + bits > old(self)@.len() ==> r is Err && *final(self) == *old(self),
    {
        if !self.can_read_bits(bits) {
            return Err(BitBufError::Overflow);
        }
        let u = self.read_le_bits(bits);
        proof {
            lemma_val_of_lt(old(self)@.subrange(
                old(self).cursor() as int,
                old(self).cursor() + bits as int,
            ));
        }
        let s = sign_extend_64(u, bits);
        proof {
            lemma_signed_fits(*old(self), u as nat, bits as nat, 16);
            lemma2_to64();
        }
        Ok(s as i16)
    }

    /// Writes a full signed 16-bit value.
    pub fn write_i16(&mut self, value: i16) -> (r: Result<(), BitBufError>)
        requires
            old(self).wf(),
        ensures
            final(self).wf(),
            r is Ok <==> old(self).cursor() + 16 <= old(self)@.len(),
            r is Ok ==> wrote(*old(self), *final(self), (value as u16) as nat, 16),
            r is Err ==> *final(self) == *old(self),
    {
        self.write_i16_part(value, 16)
    }

    /// Reads a full signed 16-bit value.
    pub fn read_i16(&mut self) -> (r: Result<i16, BitBufError>)
        requires
            old(self).wf(),
        ensures
            final(self).wf(),
            old(self).cursor() + 16 <= old(self)@.len() ==> (r matches Ok(v) && v as int
                == sign_extend(read_val(*old(self), 16), 16) && read_ok(
                *old(self),
                *final(self),
                16,
            )),
            old(self).cursor() + 16 > old(self)@.len() ==> r is Err && *final(self) == *old(self),
    {
        self.read_i16_part(16)
    }

    /// Writes the low `bits` bits of a signed 32-bit value, two's complement.
    pub fn write_i32_part(&mut self, value: i32, bits: u16) -> (r: Result<(), BitBufError>)
        requires
            old(self).wf(),
            bits <= 32,
        ensures
            final(self).wf(),
            r is Ok <==> old(self).cursor() + bits <= old(self)@.len(),
            r is Ok ==> wrote(*old(self), *final(self), (value as u32) as nat, bits as nat),
            r is Err ==> *final(self) == *old(self),
    {
        self.write_u32_part(value as u32, bits)
    }

    /// Reads `bits` bits as a signed 32-bit value, sign-extending from bit
    /// `bits - 1`.
    pub fn read_i32_part(&mut self, bits: u16) -> (r: Result<i32, BitBufError>)
        requires
            old(self).wf(),
            bits <= 32,
        ensures
            final(self).wf(),
            old(self).cursor() + bits <= old(self)@.len() ==> (r matches Ok(v) && v as int
                == sign_extend(read_val(*old(self), bits as nat), bits as nat) && read_ok(
                *old(self),
                *final(self),
                bits as nat,
            )),
            old(self).cursor() + bits > old(self)@.len() ==> r is Err && *final(self) == *old(self),
    {
        if !self.can_read_bits(bits) {
            return Err(BitBufError::Overflow);
        }
        let u = self.read_le_bits(bits);
        proof {
            lemma_val_of_lt(old(self)@.subrange(
                old(self).cursor() as int,
                old(self).cursor() + bits as int,
            ));
        }
        let s = sign_extend_64(u, bits);
        proof {
            lemma_signed_fits(*old(self), u as nat, bits as nat, 32);
            lemma2_to64();
        }
        Ok(s as i32)
    }

    /// Writes a full signed 32-bit value.
    pub fn write_i32(&mut self, value: i32) -> (r: Result<(), BitBufError>)
        requires
            old(self).wf(),
        ensures
            final(self).wf(),
            r is Ok <==> old(self).cursor() + 32 <= old(self)@.len(),
            r is Ok ==> wrote(*old(self), *final(self), (value as u32) as nat, 32),
            r is Err ==> *final(self) == *old(self),
    {
        self.write_i32_part(value, 32)
    }

    /// Reads a full signed 32-bit value.
    pub fn read_i32(&mut self) -> (r: Result<i32, BitBufError>)
        requires
            old(self).wf(),
        ensures
            final(self).wf(),
            old(self).cursor() + 32 <= old(self)@.len() ==> (r matches Ok(v) && v as int
                == sign_extend(read_val(*old(self), 32), 32) && read_ok(
                *old(self),
                *final(self),
                32,
            )),
            old(self).cursor() + 32 > old(self)@.len() ==> r is Err && *final(self) == *old(self),
    {
        self.read_i32_part(32)
    }

    /// Writes the low `bits` bits of a signed 64-bit value, two's complement.
    pub fn write_i64_part(&mut self, value: i64, bits: u16) -> (r: Result<(), BitBufError>)
        requires
            old(self).wf(),
            bits <= 64,
        ensures
            final(self).wf(),
            r is Ok <==> old(self).cursor() + bits <= old(self)@.len(),
            r is Ok ==> wrote(*old(self), *final(self), (value as u64) as nat, bits as nat),
            r is Err ==> *final(self) == *old(self),
    {
        self.write_u64_part(value as u64, bits)
    }

    /// Reads `bits` bits as a signed 64-bit value, sign-extending from bit
    /// `bits - 1`.
    pub fn read_i64_part(&mut self, bits: u16) -> (r: Result<i64, BitBufError>)
        requires
            old(self).wf(),
            bits <= 64,
        ensures
            final(self).wf(),
            old(self).cursor() + bits <= old(self)@.len() ==> (r matches Ok(v) && v as int
                == sign_extend(read_val(*old(self), bits as nat), bits as nat) && read_ok(
                *old(self),
                *final(self),
                bits as nat,
            )),
            old(self).cursor() + bits > old(self)@.len() ==> r is Err && *final(self) == *old(self),
    {
        if !self.can_read_bits(bits) {
            return Err(BitBufError::Overflow);
        }
        let u = self.read_le_bits(bits);
        proof {
            lemma_val_of_lt(old(self)@.subrange(
                old(self).cursor() as int,
                old(self).cursor() + bits as int,
            ));
        }
        let s = sign_extend_64(u, bits);
        Ok(s)
    }

    /// Writes a full signed 64-bit value.
    pub fn write_i64(&mut self, value: i64) -> (r: Result<(), BitBufError>)
        requires
            old(self).wf(),
        ensures
            final(self).wf(),
            r is Ok <==> old(self).cursor() + 64 <= old(self)@.len(),
            r is Ok ==> wrote(*old(self), *final(self), (value as u64) as nat, 64),
            r is Err ==> *final(self) == *old(self),
    {
        self.write_i64_part(value, 64)
    }

    /// Reads a full signed 64-bit value.
    pub fn read_i64(&mut self) -> (r: Result<i64, BitBufError>)
        requires
            old(self).wf(),
        ensures
            final(self).wf(),
            old(self).cursor() + 64 <= old(self)@.len() ==> (r matches Ok(v) && v as int
                == sign_extend(read_val(*old(self), 64), 64) && read_ok(
                *old(self),
                *final(self),
                64,
            )),
            old(self).cursor() + 64 > old(self)@.len() ==> r is Err && *final(self) == *old(self),
    {
        self.read_i64_part(64)
    }

    /// Writes whole bytes at the cursor, first byte first.
    pub fn write_bytes(&mut self, data: &Vec<u8>) -> (r: Result<(), BitBufError>)
        requires
            old(self).wf(),
        ensures
            final(self).wf(),
            r is Ok <==> old(self).cursor() + 8 * data@.len() <= old(self)@.len(),
            r is Ok ==> final(self)@ == overlay(old(self)@, old(self).cursor(), bytes_bits(data@))
                && final(self).cursor() == old(self).cursor() + 8 * data@.len(),
            r is Err ==> *final(self) == *old(self),
    {
        let cap: u16 = (self.buf.len() * 8) as u16;
        let free_bytes: usize = ((cap - self.pos) / 8) as usize;
        if data.len() > free_bytes {
            proof {
                lemma_bytes_bits_len(data@);
                assert(8 * data@.len() > cap - self.pos) by {
                    assert(data@.len() >= (cap - self.pos) / 8 + 1);
                }
            }
            return Err(BitBufError::Overflow);
        }
        let ghost s0 = self@;
        let ghost c0 = self.cursor();
        proof {
            lemma_bytes_bits_len(data@);
            lemma_overlay_empty(s0, c0);
            assert(data@.subrange(0, 0) =~= Seq::<u8>::empty());
            assert(bytes_bits(Seq::<u8>::empty()) == Seq::<bool>::empty());
        }
        let mut k: usize = 0;
        while k < data.len()
            invariant
                self.wf(),
                k <= data@.len(),
                c0 + 8 * data@.len() <= s0.len(),
                self.cursor() == c0 + 8 * k,
                self@ == overlay(s0, c0, bytes_bits(data@.subrange(0, k as int))),
            decreases data@.len() - k,
        {
            proof {
                lemma_bytes_bits_len(data@.subrange(0, k as int));
                assert(self@.len() == s0.len());
            }
            self.in_write_byte(data[k], 8);
            proof {
                lemma_bytes_bits_len(data@.subrange(0, k as int));
                lemma_bits_of_len(data@[k as int] as nat, 8);
                lemma_bytes_bits_snoc(data@.subrange(0, k as int), data@[k as int]);
                assert(data@.subrange(0, k as int).push(data@[k as int]) =~= data@.subrange(
                    0,
                    k + 1,
                ));
                lemma_overlay_adjacent(
                    s0,
                    c0,
                    bytes_bits(data@.subrange(0, k as int)),
                    bits_of(data@[k as int] as nat, 8),
                );
            }
            k = k + 1;
        }
        proof {
            assert(data@.subrange(0, data@.len() as int) =~= data@);
        }
        Ok(())
    }

    /// Reads `count` whole bytes at the cursor.
    pub fn read_bytes(&mut self, count: usize) -> (r: Result<Vec<u8>, BitBufError>)
        requires
            old(self).wf(),
        ensures
            final(self).wf(),
            old(self).cursor() + 8 * count <= old(self)@.len() ==> (r matches Ok(v) && v@.len()
                == count && bytes_bits(v@) == old(self)@.subrange(
                old(self).cursor() as int,
                old(self).cursor() + 8 * count,
            ) && read_ok(*old(self), *final(self), (8 * count) as nat)),
            old(self).cursor() + 8 * count > old(self)@.len() ==> r is Err && *final(self) == *old(
                self,
            ),
    {
        let cap: u16 = (self.buf.len() * 8) as u16;
        let free_bytes: usize = ((cap - self.pos) / 8) as usize;
        if count > free_bytes {
            proof {
                assert(8 * count > cap - self.pos) by {
                    assert(count >= (cap - self.pos) / 8 + 1);
                }
            }
            return Err(BitBufError::Overflow);
        }
        let ghost s0 = self@;
        let ghost c0 = self.cursor();
        let mut out: Vec<u8> = Vec::new();
        proof {
            assert(bytes_bits(out@) =~= s0.subrange(c0 as int, c0 as int));
        }
        let mut k: usize = 0;
        while k < count
            invariant
                self.wf(),
                k <= count,
                c0 + 8 * count <= s0.len(),
                self@ == s0,
                self.cursor() == c0 + 8 * k,
                out@.len() == k,
                bytes_bits(out@) == s0.subrange(c0 as int, c0 + 8 * k),
            decreases count - k,
        {
            let b = self.in_read_byte(8);
            proof {
                let piece = s0.subrange(c0 + 8 * k, c0 + 8 * k + 8);
                lemma_val_of_lt(piece);
                lemma2_to64();
                lemma_bits_of_val_of(piece);
                assert(bits_of(b as nat, 8) == piece);
                lemma_bytes_bits_snoc(out@, b);
                lemma_bytes_bits_len(out@);
                assert(s0.subrange(c0 as int, c0 + 8 * k) + piece =~= s0.subrange(
                    c0 as int,
                    c0 + 8 * (k + 1),
                ));
            }
            out.push(b);
            k = k + 1;
        }
        Ok(out)
    }

    /// The bytes the cursor has covered so far, for handing to a datagram
    /// send: all whole or partial bytes up to the cursor.
    pub fn to_bytes(&self) -> (r: Vec<u8>)
        requires
            self.wf(),
        ensures
            r@.len() == (self.cursor() + 7) / 8,
            bytes_bits(r@) == self@.subrange(0, 8 * (((self.cursor() + 7) / 8) as int)),
            forall|k: int|
                0 <= k < r@.len() ==> r@[k] as nat == val_of(self@.subrange(8 * k, 8 * k + 8)),
    {
        let count: usize = ((self.pos + 7) / 8) as usize;
        let mut out: Vec<u8> = Vec::new();
        proof {
            assert(bytes_bits(out@) =~= self@.subrange(0, 0));
        }
        let mut k: usize = 0;
        while k < count
            invariant
                self.wf(),
                k <= count,
                8 * count <= self@.len(),
                out@.len() == k,
                bytes_bits(out@) == self@.subrange(0, 8 * k),
                forall|j: int|
                    0 <= j < k ==> out@[j] as nat == val_of(self@.subrange(8 * j, 8 * j + 8)),
            decreases count - k,
        {
            let b = self.buf[k];
            proof {
                let piece = self@.subrange(8 * k, 8 * k + 8);
                lemma_byte_piece(self, k as int);
                lemma_bytes_bits_snoc(out@, b);
                lemma_bytes_bits_len(out@);
                assert(self@.subrange(0, 8 * k as int) + piece =~= self@.subrange(
                    0,
                    8 * (k + 1),
                ));
            }
            proof {
                let piece = self@.subrange(8 * k, 8 * k + 8);
                lemma_val_of_bits_of(b as nat, 8);
                lemma2_to64();
                assert(val_of(piece) == b as nat % 256);
            }
            out.push(b);
            k = k + 1;
        }
        out
    }
}

/// Byte `k` of the backing store spells bits `8k .. 8k+8` of the view.
proof fn lemma_byte_piece(b: &BitBuf, k: int)
    requires
        b.wf(),
        0 <= k,
        8 * k + 8 <= b@.len(),
    ensures
        bits_of(b.buf@[k] as nat, 8) == b@.subrange(8 * k, 8 * k + 8),
{
    lemma_bits_of_len(b.buf@[k] as nat, 8);
    assert forall|i: int| 0 <= i < 8 implies bits_of(b.buf@[k] as nat, 8)[i] == b@.subrange(
        8 * k,
        8 * k + 8,
    )[i] by {
        lemma_bits_of_index(b.buf@[k] as nat, 8, i as nat);
        assert(b@[8 * k + i] == byte_bit(b.buf@[k], ((8 * k + i) % 8) as nat));
        assert((8 * k + i) / 8 == k && (8 * k + i) % 8 == i);
    }
    assert(bits_of(b.buf@[k] as nat, 8) =~= b@.subrange(8 * k, 8 * k + 8));
}

/// A sign-extended `bits`-bit value fits the signed type of `width >= bits`
/// bits.
proof fn lemma_signed_fits(pre: BitBuf, u: nat, bits: nat, width: nat)
    requires
        pre.cursor() + bits <= pre@.len(),
        u == read_val(pre, bits),
        bits <= width,
        1 <= width <= 64,
    ensures
        -(pow2((width - 1) as nat) as int) <= sign_extend(u, bits) < pow2((width - 1) as nat),
        pow2((width - 1) as nat) <= 0x8000000000000000,
{
    lemma_val_of_lt(pre@.subrange(pre.cursor() as int, pre.cursor() + bits as int));
    lemma2_to64();
    lemma2_to64_rest();
    if bits == 0 {
        lemma_pow2_pos((width - 1) as nat);
        assert(u == 0);
    } else {
        crate::bits::lemma_sign_extend_range(u, bits);
        if bits < width {
            vstd::arithmetic::power2::lemma_pow2_strictly_increases(
                (bits - 1) as nat,
                (width - 1) as nat,
            );
        }
    }
    if width < 64 {
        vstd::arithmetic::power2::lemma_pow2_strictly_increases((width - 1) as nat, 63);
    }
}

/// Interprets `u` as a `bits`-bit two's-complement value.
fn sign_extend_64(u: u64, bits: u16) -> (r: i64)
    requires
        bits <= 64,
        (u as nat) < pow2(bits as nat),
    ensures
        r as int == sign_extend(u as nat, bits as nat),
{
    proof {
        lemma2_to64();
        lemma2_to64_rest();
    }
    if bits == 0 {
        0
    } else if bits == 64 {
        proof {
            crate::bits::lemma_top_bit(u as nat, 64);
            assert(u >= 0x8000000000000000 ==> (u as i64) as int == u as int
                - 0x10000000000000000) by (bit_vector);
            assert(u < 0x8000000000000000 ==> (u as i64) as int == u as int) by (bit_vector);
        }
        u as i64
    } else {
        let half: u64 = 1u64 << ((bits - 1) as u64);
        proof {
            vstd::bits::lemma_u64_pow2_no_overflow((bits - 1) as nat);
            vstd::bits::lemma_u64_shl_is_mul(1u64, (bits - 1) as u64);
            crate::bits::lemma_top_bit(u as nat, bits as nat);
        }
        if u >= half {
            let modl: u64 = 1u64 << (bits as u64);
            proof {
                vstd::bits::lemma_u64_pow2_no_overflow(bits as nat);
                vstd::bits::lemma_u64_shl_is_mul(1u64, bits as u64);
                assert(u as int - modl as int >= -(half as int));
                if bits < 63 {
                    vstd::arithmetic::power2::lemma_pow2_strictly_increases(
                        (bits - 1) as nat,
                        63,
                    );
                }
            }
            (u as i128 - modl as i128) as i64
        } else {
            proof {
                if bits < 64 {
                    vstd::arithmetic::power2::lemma_pow2_strictly_increases(
                        (bits - 1) as nat,
                        63,
                    );
                }
            }
            u as i64
        }
    }
}

/// A value read out of `bits` bits fits every width of at least that many
/// bits.
proof fn lemma_read_fits(pre: BitBuf, bits: nat, width: nat)
    requires
        pre.cursor() + bits <= pre@.len(),
        bits <= width,
        width <= 64,
    ensures
        read_val(pre, bits) < pow2(width),
        pow2(width) <= 0x10000000000000000,
{
    lemma_val_of_lt(pre@.subrange(pre.cursor() as int, pre.cursor() + bits as int));
    lemma_pow2_le_u64(width);
    if bits < width {
        vstd::arithmetic::power2::lemma_pow2_strictly_increases(bits, width);
    }
}

/// Small powers of two as an executable value.
fn pow2_chunk(n: u16) -> (r: u16)
    requires
        n <= 8,
    ensures
        r == pow2(n as nat),
{
    proof {
        lemma2_to64();
    }
    if n == 0 {
        1
    } else if n == 1 {
        2
    } else if n == 2 {
        4
    } else if n == 3 {
        8
    } else if n == 4 {
        16
    } else if n == 5 {
        32
    } else if n == 6 {
        64
    } else if n == 7 {
        128
    } else {
        256
    }
}

/// `pow2` of an exponent up to 64 fits in 2^64.
proof fn lemma_pow2_le_u64(n: nat)
    requires
        n <= 64,
    ensures
        pow2(n) <= 0x10000000000000000,
{
    lemma2_to64();
    lemma2_to64_rest();
    if n < 64 {
        vstd::arithmetic::power2::lemma_pow2_strictly_increases(n, 64);
    }
}

/// The running place value stays within `u128` while reading.
proof fn lemma_mul_le_u128(place: u128, factor: u128, a: nat, b: nat)
    requires
        place == pow2(a),
        factor == pow2(b),
        a + b <= 64,
    ensures
        place * factor == pow2(a + b),
        place * factor <= 0x10000000000000000,
{
    lemma_pow2_adds(a, b);
    lemma_pow2_le_u64(a + b);
}

/// `pow2` stays within a byte's range for exponents up to 8.
proof fn lemma_pow2_le_256(n: nat)
    requires
        n <= 8,
    ensures
        pow2(n) <= 256,
{
    lemma2_to64();
}

/// Bit `k` of a byte, computed by shift and mask, is bit `k` of the model.
proof fn lemma_byte_bit_shift(x: u8, k: u8)
    requires
        k < 8,
    ensures
        ((x >> k) & 1 == 1) == byte_bit(x, k as nat),
{
    lemma_u8_shr_is_div(x, k);
    lemma_u8_low_bits_mask_is_mod(x >> k, 1);
    lemma_low_bits_mask_values();
    lemma2_to64();
    assert((x >> k) as nat == x as nat / pow2(k as nat));
    assert((x >> k) & 1 == (x >> k) % 2);
}

/// Every bit of a byte sequence seen as a stream comes from the right byte.
proof fn lemma_bytes_bits_index_all(s: Seq<u8>)
    ensures
        bytes_bits(s).len() == 8 * s.len(),
        forall|i: int|
            0 <= i < 8 * s.len() ==> bytes_bits(s)[i] == byte_bit(s[i / 8], (i % 8) as nat),
    decreases s.len(),
{
    lemma_bytes_bits_len(s);
    if s.len() > 0 {
        lemma_bits_of_len(s[0] as nat, 8);
        lemma_bytes_bits_index_all(s.skip(1));
        assert forall|i: int| 0 <= i < 8 * s.len() implies bytes_bits(s)[i] == byte_bit(
            s[i / 8],
            (i % 8) as nat,
        ) by {
            if i < 8 {
                lemma_bits_of_index(s[0] as nat, 8, i as nat);
                assert(bytes_bits(s)[i] == bits_of(s[0] as nat, 8)[i]);
            } else {
                assert(bytes_bits(s)[i] == bytes_bits(s.skip(1))[i - 8]);
                assert(s.skip(1)[(i - 8) / 8] == s[i / 8]);
                assert((i - 8) % 8 == i % 8);
            }
        }
    }
}

} // verus!
