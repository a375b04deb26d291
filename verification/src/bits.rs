//! The mathematical model of bit streams used by the wire codec.
//!
//! A buffer is modelled as a `Seq<bool>`; bit order is least-significant bit
//! first, and a multi-bit integer field occupies consecutive positions with
//! its least significant bit first. `bits_of` turns the low `n` bits of a
//! value into such a sequence, `val_of` is its inverse, and `overlay` splices
//! a written field into a larger stream without touching its neighbours.

use vstd::prelude::*;

verus! {

use vstd::arithmetic::power2::{pow2, lemma_pow2_unfold, lemma_pow2_adds, lemma_pow2_pos, lemma2_to64};
use vstd::arithmetic::div_mod::{lemma_breakdown, lemma_div_denominator};

/// Decomposing a value into its lowest bit and the rest: `2*a + r` has
/// remainder `r` and quotient `a` when divided by two.
proof fn lemma_two_split(a: nat, r: nat)
    by (nonlinear_arith)
    requires
        r < 2,
    ensures
        (2 * a + r) % 2 == r,
        (2 * a + r) / 2 == a,
{
}

/// The low `n` bits of `v`, least significant first.
pub open spec fn bits_of(v: nat, n: nat) -> Seq<bool>
    decreases n,
{
    if n == 0 {
        Seq::empty()
    } else {
        seq![v % 2 == 1] + bits_of(v / 2, (n - 1) as nat)
    }
}

/// The value encoded by a bit sequence, least significant bit first.
pub open spec fn val_of(s: Seq<bool>) -> nat
    decreases s.len(),
{
    if s.len() == 0 {
        0
    } else {
        (if s[0] {
            1nat
        } else {
            0nat
        }) + 2 * val_of(s.skip(1))
    }
}

/// `s` with the slice starting at `at` replaced by `w`; all other positions
/// keep their old value.
pub open spec fn overlay(s: Seq<bool>, at: nat, w: Seq<bool>) -> Seq<bool> {
    Seq::new(
        s.len(),
        |i: int|
            if at <= i && i < at + w.len() {
                w[i - at]
            } else {
                s[i]
            },
    )
}

/// Reinterprets an `n`-bit unsigned value as an `n`-bit two's-complement one.
pub open spec fn sign_extend(v: nat, n: nat) -> int {
    if n > 0 && v / pow2((n - 1) as nat) % 2 == 1 {
        v - pow2(n)
    } else {
        v as int
    }
}

/// A byte sequence as a bit stream, each byte least significant bit first.
pub open spec fn bytes_bits(s: Seq<u8>) -> Seq<bool>
    decreases s.len(),
{
    if s.len() == 0 {
        Seq::empty()
    } else {
        bits_of(s[0] as nat, 8) + bytes_bits(s.skip(1))
    }
}

pub proof fn lemma_bits_of_len(v: nat, n: nat)
    ensures
        bits_of(v, n).len() == n,
    decreases n,
{
    if n > 0 {
        lemma_bits_of_len(v / 2, (n - 1) as nat);
    }
}

/// Round trip: decoding the low `n` bits of `v` yields `v` modulo `2^n`.
pub proof fn lemma_val_of_bits_of(v: nat, n: nat)
    ensures
        val_of(bits_of(v, n)) == v % pow2(n),
    decreases n,
{
    lemma2_to64();
    if n == 0 {
        assert(v % 1 == 0);
    } else {
        let m = (n - 1) as nat;
        lemma_val_of_bits_of(v / 2, m);
        let s = bits_of(v, n);
        assert(s.skip(1) =~= bits_of(v / 2, m));
        lemma_pow2_adds(1, m);
        lemma_pow2_pos(m);
        lemma_breakdown(v as int, 2, pow2(m) as int);
        assert(pow2(n) == 2 * pow2(m));
        assert(v % (2 * pow2(m)) == 2 * ((v / 2) % pow2(m)) + v % 2);
    }
}

/// Bit `k` of the encoding of `v` is bit `k` of `v`.
pub proof fn lemma_bits_of_index(v: nat, n: nat, k: nat)
    requires
        k < n,
    ensures
        bits_of(v, n)[k as int] == (v / pow2(k) % 2 == 1),
    decreases k,
{
    lemma2_to64();
    lemma_bits_of_len(v, n);
    if k == 0 {
        assert(v / pow2(0) == v);
    } else {
        lemma_bits_of_index(v / 2, (n - 1) as nat, (k - 1) as nat);
        lemma_pow2_adds(1, (k - 1) as nat);
        lemma_pow2_pos((k - 1) as nat);
        lemma_div_denominator(v as int, 2, pow2((k - 1) as nat) as int);
        assert(v / 2 / pow2((k - 1) as nat) == v / pow2(k));
        assert(bits_of(v, n)[k as int] == bits_of(v / 2, (n - 1) as nat)[k - 1]);
    }
}

/// Any `n`-bit stream decodes to a value below `2^n`.
pub proof fn lemma_val_of_lt(s: Seq<bool>)
    ensures
        val_of(s) < pow2(s.len()),
    decreases s.len(),
{
    if s.len() == 0 {
        lemma_pow2_pos(0);
    } else {
        lemma_val_of_lt(s.skip(1));
        lemma_pow2_unfold(s.len());
    }
}

pub proof fn lemma_bits_of_snoc(v: nat, n: nat)
    ensures
        bits_of(v, n + 1) == bits_of(v, n).push(v / pow2(n) % 2 == 1),
    decreases n,
{
    lemma_bits_of_len(v, n);
    lemma2_to64();
    if n == 0 {
        assert(bits_of(v / 2, 0) =~= Seq::<bool>::empty());
        assert(bits_of(v, 0) =~= Seq::<bool>::empty());
        assert(bits_of(v, 1) == seq![v % 2 == 1] + bits_of(v / 2, 0));
        assert(v / pow2(0) == v);
        assert(bits_of(v, 1) =~= bits_of(v, 0).push(v / pow2(0) % 2 == 1));
    } else {
        let m = (n - 1) as nat;
        lemma_bits_of_snoc(v / 2, m);
        lemma_pow2_adds(1, m);
        lemma_pow2_unfold(1);
        lemma_pow2_pos(m);
        lemma_div_denominator(v as int, 2, pow2(m) as int);
        assert(v / 2 / pow2(m) == v / pow2(n));
        lemma_bits_of_len(v / 2, m);
        assert(bits_of(v, n + 1) =~= bits_of(v, n).push(v / pow2(n) % 2 == 1));
    }
}

pub proof fn lemma_val_of_snoc(s: Seq<bool>, b: bool)
    ensures
        val_of(s.push(b)) == val_of(s) + (if b {
            pow2(s.len())
        } else {
            0nat
        }),
    decreases s.len(),
{
    lemma2_to64();
    if s.len() == 0 {
        assert(s.push(b).skip(1) =~= Seq::<bool>::empty());
        assert(s.push(b)[0] == b);
        assert(val_of(Seq::<bool>::empty()) == 0);
        assert(val_of(s.push(b)) == (if b {
            1nat
        } else {
            0nat
        }) + 2 * val_of(s.push(b).skip(1)));
        assert(val_of(s) == 0);
    } else {
        assert(s.push(b).skip(1) =~= s.skip(1).push(b));
        lemma_val_of_snoc(s.skip(1), b);
        lemma_pow2_unfold(s.len());
        assert(s.push(b)[0] == s[0]);
        assert(val_of(s.push(b)) == (if s[0] {
            1nat
        } else {
            0nat
        }) + 2 * val_of(s.skip(1).push(b)));
        assert(val_of(s.skip(1).push(b)) == val_of(s.skip(1)) + (if b {
            pow2((s.len() - 1) as nat)
        } else {
            0nat
        }));
        assert(2 * (val_of(s.skip(1)) + (if b {
            pow2((s.len() - 1) as nat)
        } else {
            0nat
        })) == 2 * val_of(s.skip(1)) + (if b {
            2 * pow2((s.len() - 1) as nat)
        } else {
            0nat
        }));
        assert(val_of(s) == (if s[0] {
            1nat
        } else {
            0nat
        }) + 2 * val_of(s.skip(1)));
    }
}

/// Splitting an `(a+b)`-bit field: low `a` bits first, then the next `b`.
pub proof fn lemma_bits_of_split(v: nat, a: nat, b: nat)
    ensures
        bits_of(v, a + b) == bits_of(v, a) + bits_of(v / pow2(a), b),
    decreases a,
{
    lemma2_to64();
    if a == 0 {
        assert(bits_of(v, b) =~= bits_of(v, 0) + bits_of(v / pow2(0), b));
    } else {
        let m = (a - 1) as nat;
        lemma_bits_of_split(v / 2, m, b);
        lemma_pow2_adds(1, m);
        lemma_pow2_unfold(1);
        lemma_pow2_pos(m);
        lemma_div_denominator(v as int, 2, pow2(m) as int);
        assert(v / 2 / pow2(m) == v / pow2(a));
        assert(bits_of(v, a + b) =~= bits_of(v, a) + bits_of(v / pow2(a), b)) by {
            lemma_bits_of_len(v / 2, m);
            lemma_bits_of_len(v, a);
            assert(bits_of(v, a + b).skip(1) == bits_of(v / 2, m + b));
            assert((bits_of(v, a) + bits_of(v / pow2(a), b)).skip(1) =~= bits_of(v / 2, m)
                + bits_of(v / pow2(a), b));
        }
    }
}

/// Concatenation decodes to `val_of(s) + 2^|s| * val_of(t)`.
pub proof fn lemma_val_of_concat(s: Seq<bool>, t: Seq<bool>)
    ensures
        val_of(s + t) == val_of(s) + pow2(s.len()) * val_of(t),
    decreases s.len(),
{
    lemma2_to64();
    if s.len() == 0 {
        assert(s + t =~= t);
    } else {
        assert((s + t).skip(1) =~= s.skip(1) + t);
        lemma_val_of_concat(s.skip(1), t);
        lemma_pow2_unfold(s.len());
        assert(2 * (val_of(s.skip(1)) + pow2((s.len() - 1) as nat) * val_of(t)) == 2 * val_of(
            s.skip(1),
        ) + 2 * (pow2((s.len() - 1) as nat) * val_of(t)));
        assert(2 * (pow2((s.len() - 1) as nat) * val_of(t)) == (2 * pow2((s.len() - 1) as nat))
            * val_of(t)) by (nonlinear_arith);
    }
}

/// Round trip in the other direction: re-encoding a decoded stream gives the
/// stream back.
pub proof fn lemma_bits_of_val_of(s: Seq<bool>)
    ensures
        bits_of(val_of(s), s.len()) == s,
    decreases s.len(),
{
    if s.len() == 0 {
        assert(bits_of(val_of(s), 0) =~= s);
    } else {
        let r: nat = if s[0] {
            1
        } else {
            0
        };
        lemma_two_split(val_of(s.skip(1)), r);
        assert(val_of(s) == 2 * val_of(s.skip(1)) + r);
        assert(val_of(s) % 2 == r);
        assert(val_of(s) / 2 == val_of(s.skip(1)));
        lemma_bits_of_val_of(s.skip(1));
        lemma_bits_of_len(val_of(s), s.len());
        assert(bits_of(val_of(s), s.len()) =~= s);
    }
}

/// Only the low bits matter: reducing `v` modulo `2^m` keeps its low `n <= m`
/// bits unchanged.
pub proof fn lemma_bits_of_mod(v: nat, n: nat, m: nat)
    requires
        n <= m,
    ensures
        bits_of(v % pow2(m), n) == bits_of(v, n),
    decreases n,
{
    lemma2_to64();
    lemma_pow2_pos(m);
    if n == 0 {
        let w = v % pow2(m);
        assert(bits_of(w, 0) == Seq::<bool>::empty());
        assert(bits_of(v, 0) == Seq::<bool>::empty());
    } else {
        let p = (m - 1) as nat;
        lemma_pow2_adds(1, p);
        lemma_pow2_pos(p);
        lemma_breakdown(v as int, 2, pow2(p) as int);
        assert(pow2(m) == 2 * pow2(p));
        assert(v % pow2(m) == 2 * ((v / 2) % pow2(p)) + v % 2);
        lemma_two_split((v / 2) % pow2(p), v % 2);
        assert((v % pow2(m)) % 2 == v % 2);
        assert((v % pow2(m)) / 2 == (v / 2) % pow2(p));
        lemma_bits_of_mod(v / 2, (n - 1) as nat, p);
        assert(bits_of(v % pow2(m), n) =~= bits_of(v, n));
    }
}

/// For a value below `2^n`, its top bit is set exactly when the value is at
/// least `2^(n-1)`: the test `sign_extend` turns on.
pub proof fn lemma_top_bit(v: nat, n: nat)
    requires
        n >= 1,
        v < pow2(n),
    ensures
        (v / pow2((n - 1) as nat) % 2 == 1) <==> v >= pow2((n - 1) as nat),
{
    let p = pow2((n - 1) as nat);
    lemma_pow2_adds(1, (n - 1) as nat);
    lemma2_to64();
    lemma_pow2_pos((n - 1) as nat);
    assert(pow2(n) == 2 * p);
    lemma_div_two_intervals(v, p);
}

/// A sign-extended `n`-bit value lies in the two's-complement range of `n`
/// bits.
pub proof fn lemma_sign_extend_range(v: nat, n: nat)
    requires
        n >= 1,
        v < pow2(n),
    ensures
        -(pow2((n - 1) as nat) as int) <= sign_extend(v, n) < pow2((n - 1) as nat),
        sign_extend(v, n) % (pow2(n) as int) == v as int % (pow2(n) as int),
{
    let p = pow2((n - 1) as nat);
    lemma_pow2_adds(1, (n - 1) as nat);
    lemma2_to64();
    lemma_pow2_pos((n - 1) as nat);
    assert(pow2(n) == 2 * p);
    lemma_top_bit(v, n);
    if v >= p {
        assert(sign_extend(v, n) == v - 2 * p);
        assert(v % (2 * p) == v) by {
            vstd::arithmetic::div_mod::lemma_small_mod(v, (2 * p) as nat);
        }
        assert((v as int - 2 * p) % (2 * p as int) == v as int % (2 * p as int)) by {
            vstd::arithmetic::div_mod::lemma_mod_sub_multiples_vanish(v as int, (2 * p) as int);
        }
    } else {
        vstd::arithmetic::div_mod::lemma_small_mod(v, (2 * p) as nat);
    }
}

/// Round trip for signed fields: writing the two's-complement image `u` of a
/// signed value with `n` bits and reading it back sign-extended gives the
/// unique `n`-bit signed value congruent to `u` modulo `2^n`: the written
/// value truncated to its low `n` bits, correctly sign-extended.
pub proof fn lemma_signed_round_trip(u: nat, n: nat)
    requires
        1 <= n,
    ensures
        -(pow2((n - 1) as nat) as int) <= sign_extend(val_of(bits_of(u, n)), n) < pow2(
            (n - 1) as nat,
        ),
        sign_extend(val_of(bits_of(u, n)), n) % (pow2(n) as int) == u as int % (pow2(n) as int),
{
    lemma_val_of_bits_of(u, n);
    lemma_pow2_pos(n);
    let v = (u % pow2(n)) as nat;
    lemma_sign_extend_range(v, n);
    vstd::arithmetic::div_mod::lemma_mod_twice(u as int, pow2(n) as int);
}

/// Dividing a value below `2p` by `p` gives 0 below `p` and 1 above.
proof fn lemma_div_two_intervals(v: nat, p: nat)
    by (nonlinear_arith)
    requires
        p > 0,
        v < 2 * p,
    ensures
        v / p == (if v >= p {
            1nat
        } else {
            0nat
        }),
{
}

/// Two writes from the start of a fresh buffer leave exactly their
/// concatenation as the buffer's prefix, whatever stood there before.
pub proof fn lemma_overlay_prefix(s0: Seq<bool>, w1: Seq<bool>, w2: Seq<bool>)
    requires
        w1.len() + w2.len() <= s0.len(),
    ensures
        overlay(overlay(s0, 0, w1), w1.len(), w2).subrange(0, (w1.len() + w2.len()) as int) == w1
            + w2,
{
    assert(overlay(overlay(s0, 0, w1), w1.len(), w2).subrange(0, (w1.len() + w2.len()) as int)
        =~= w1 + w2);
}

/// The byte sequence spelled by a byte-aligned bit stream.
pub open spec fn bits_to_bytes(s: Seq<bool>) -> Seq<u8> {
    Seq::new(s.len() / 8, |i: int| val_of(s.subrange(8 * i, 8 * i + 8)) as u8)
}

/// `bits_to_bytes` undoes `bytes_bits`: the bytes behind a stream are the
/// bytes it came from.
pub proof fn lemma_bits_to_bytes_of(x: Seq<u8>)
    ensures
        bits_to_bytes(bytes_bits(x)) == x,
    decreases x.len(),
{
    lemma_bytes_bits_len(x);
    lemma2_to64();
    if x.len() == 0 {
        assert(bits_to_bytes(bytes_bits(x)) =~= x);
    } else {
        lemma_bits_of_len(x[0] as nat, 8);
        lemma_bytes_bits_len(x.skip(1));
        lemma_bits_to_bytes_of(x.skip(1));
        assert forall|i: int| 0 <= i < x.len() implies bits_to_bytes(bytes_bits(x))[i] == x[i] by {
            if i == 0 {
                assert(bytes_bits(x).subrange(0, 8) =~= bits_of(x[0] as nat, 8));
                lemma_val_of_bits_of(x[0] as nat, 8);
                assert(pow2(8) == 256);
            } else {
                assert(bytes_bits(x).subrange(8 * i, 8 * i + 8) =~= bytes_bits(x.skip(1)).subrange(
                    8 * (i - 1),
                    8 * (i - 1) + 8,
                ));
                assert(bits_to_bytes(bytes_bits(x.skip(1)))[i - 1] == x.skip(1)[i - 1]);
            }
        }
        assert(bits_to_bytes(bytes_bits(x)) =~= x);
    }
}

/// A write never disturbs its neighbours: every position outside the written
/// range keeps its old value.
pub proof fn lemma_overlay_frame(s: Seq<bool>, at: nat, w: Seq<bool>, i: int)
    requires
        0 <= i < s.len(),
        i < at || at + w.len() <= i,
    ensures
        overlay(s, at, w)[i] == s[i],
{
}

/// Two adjacent writes are one write of the concatenated fields.
pub proof fn lemma_overlay_adjacent(s: Seq<bool>, at: nat, w1: Seq<bool>, w2: Seq<bool>)
    requires
        at + w1.len() + w2.len() <= s.len(),
    ensures
        overlay(overlay(s, at, w1), at + w1.len(), w2) == overlay(s, at, w1 + w2),
{
    assert(overlay(overlay(s, at, w1), at + w1.len(), w2) =~= overlay(s, at, w1 + w2));
}

pub proof fn lemma_overlay_empty(s: Seq<bool>, at: nat)
    ensures
        overlay(s, at, Seq::empty()) == s,
{
    assert(overlay(s, at, Seq::empty()) =~= s);
}

pub proof fn lemma_overlay_push(s: Seq<bool>, at: nat, w: Seq<bool>, b: bool)
    requires
        at + w.len() < s.len(),
    ensures
        overlay(s, at, w).update((at + w.len()) as int, b) == overlay(s, at, w.push(b)),
{
    assert(overlay(s, at, w).update((at + w.len()) as int, b) =~= overlay(s, at, w.push(b)));
}

pub proof fn lemma_bytes_bits_len(s: Seq<u8>)
    ensures
        bytes_bits(s).len() == 8 * s.len(),
    decreases s.len(),
{
    if s.len() > 0 {
        lemma_bits_of_len(s[0] as nat, 8);
        lemma_bytes_bits_len(s.skip(1));
    }
}

pub proof fn lemma_bytes_bits_snoc(s: Seq<u8>, x: u8)
    ensures
        bytes_bits(s.push(x)) == bytes_bits(s) + bits_of(x as nat, 8),
    decreases s.len(),
{
    if s.len() == 0 {
        assert(s.push(x).skip(1) =~= Seq::<u8>::empty());
        lemma_bits_of_len(x as nat, 8);
        assert(bytes_bits(Seq::<u8>::empty()) == Seq::<bool>::empty());
        assert(s.push(x)[0] == x);
        assert(bytes_bits(s.push(x)) == bits_of(x as nat, 8) + bytes_bits(Seq::<u8>::empty()));
        assert(bytes_bits(s) == Seq::<bool>::empty());
        assert(bytes_bits(s.push(x)) =~= bytes_bits(s) + bits_of(x as nat, 8));
    } else {
        assert(s.push(x).skip(1) =~= s.skip(1).push(x));
        lemma_bytes_bits_snoc(s.skip(1), x);
        assert(s.push(x)[0] == s[0]);
        assert(bytes_bits(s.push(x)) == bits_of(s[0] as nat, 8) + (bytes_bits(s.skip(1)) + bits_of(
            x as nat,
            8,
        )));
        assert(bits_of(s[0] as nat, 8) + (bytes_bits(s.skip(1)) + bits_of(x as nat, 8)) =~= (bits_of(
            s[0] as nat,
            8,
        ) + bytes_bits(s.skip(1))) + bits_of(x as nat, 8));
    }
}

} // verus!
