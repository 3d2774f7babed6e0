//! The mathematical model of a bit stream.
//!
//! A stream is a `Seq<bool>`, most significant bit first. A byte contributes
//! its eight bits from bit 7 down to bit 0, and an integer written with `n`
//! bits contributes its low `n` bits, highest first.
use vstd::prelude::*;

verus! {

use vstd::arithmetic::power2::{pow2, lemma_pow2_pos, lemma_pow2_unfold, lemma_pow2_adds};
use vstd::arithmetic::div_mod::{lemma_div_denominator, lemma_mod_breakdown};

/// The low `n` bits of `v`, most significant first.
pub open spec fn bits_of(v: nat, n: nat) -> Seq<bool>
    decreases n,
{
    if n == 0 {
        Seq::empty()
    } else {
        bits_of(v / 2, (n - 1) as nat).push(v % 2 == 1)
    }
}

/// The number that a bit string denotes, most significant bit first.
pub open spec fn value_of(s: Seq<bool>) -> nat
    decreases s.len(),
{
    if s.len() == 0 {
        0
    } else {
        2 * value_of(s.drop_last()) + if s.last() { 1nat } else { 0nat }
    }
}

/// The bits of a byte string: each byte's eight bits in turn.
pub open spec fn byte_bits(bytes: Seq<u8>) -> Seq<bool>
    decreases bytes.len(),
{
    if bytes.len() == 0 {
        Seq::empty()
    } else {
        byte_bits(bytes.drop_last()) + bits_of(bytes.last() as nat, 8)
    }
}

pub proof fn lemma_bits_of_len(v: nat, n: nat)
    ensures
        bits_of(v, n).len() == n,
    decreases n,
{
    if n > 0 {
        lemma_bits_of_len(v / 2, (n - 1) as nat);
    }
}

/// Writing `a + b` bits of `v` writes the high `a` bits, then the low `b` bits.
pub proof fn lemma_bits_of_split(v: nat, a: nat, b: nat)
    ensures
        bits_of(v, a + b) == bits_of(v / pow2(b), a) + bits_of(v, b),
    decreases b,
{
    lemma_pow2_pos(b);
    if b == 0 {
        assert(pow2(0) == 1) by {
            vstd::arithmetic::power2::lemma2_to64();
        }
        assert(bits_of(v, a + b) =~= bits_of(v / pow2(b), a) + bits_of(v, b));
    } else {
        lemma_bits_of_split(v / 2, a, (b - 1) as nat);
        lemma_pow2_unfold(b);
        lemma_pow2_pos((b - 1) as nat);
        lemma_div_denominator(v as int, 2, pow2((b - 1) as nat) as int);
        assert((a + b - 1) as nat == a + (b - 1) as nat);
        assert(bits_of(v, a + b) == bits_of(v / 2, (a + b - 1) as nat).push(v % 2 == 1));
        assert(bits_of(v, a + b) =~= bits_of(v / pow2(b), a) + bits_of(v, b));
    }
}

/// The value of the low `n` bits of `v`.
pub proof fn lemma_value_of_bits_of(v: nat, n: nat)
    ensures
        value_of(bits_of(v, n)) == v % pow2(n),
    decreases n,
{
    lemma_pow2_pos(n);
    if n == 0 {
        assert(pow2(0) == 1) by {
            vstd::arithmetic::power2::lemma2_to64();
        }
    } else {
        lemma_value_of_bits_of(v / 2, (n - 1) as nat);
        let s = bits_of(v, n);
        assert(s.drop_last() =~= bits_of(v / 2, (n - 1) as nat));
        lemma_pow2_unfold(n);
        lemma_pow2_pos((n - 1) as nat);
        lemma_mod_breakdown(v as int, 2, pow2((n - 1) as nat) as int);
    }
}

/// A bit string is the `len` low bits of its own value.
pub proof fn lemma_bits_of_value_of(s: Seq<bool>)
    ensures
        bits_of(value_of(s), s.len()) == s,
    decreases s.len(),
{
    if s.len() > 0 {
        lemma_bits_of_value_of(s.drop_last());
        let v = value_of(s);
        assert(v / 2 == value_of(s.drop_last()));
        assert(s =~= s.drop_last().push(s.last()));
    }
}

/// Only the low `n` bits of `v` matter.
pub proof fn lemma_bits_of_mod(v: nat, n: nat)
    ensures
        bits_of(v % pow2(n), n) == bits_of(v, n),
{
    lemma_bits_of_len(v, n);
    lemma_bits_of_value_of(bits_of(v, n));
    lemma_value_of_bits_of(v, n);
}

/// The value of a concatenation.
pub proof fn lemma_value_of_append(s: Seq<bool>, t: Seq<bool>)
    ensures
        value_of(s + t) == value_of(s) * pow2(t.len()) + value_of(t),
    decreases t.len(),
{
    lemma_pow2_pos(t.len());
    if t.len() == 0 {
        assert(pow2(0) == 1) by {
            vstd::arithmetic::power2::lemma2_to64();
        }
        assert(s + t =~= s);
    } else {
        lemma_value_of_append(s, t.drop_last());
        assert((s + t).drop_last() =~= s + t.drop_last());
        assert((s + t).last() == t.last());
        lemma_pow2_unfold(t.len());
        let p = pow2((t.len() - 1) as nat);
        assert(2 * (value_of(s) * p) == value_of(s) * (2 * p)) by (nonlinear_arith);
    }
}

/// A value below `pow2(n)` is its own low `n` bits.
pub proof fn lemma_value_of_bound(s: Seq<bool>)
    ensures
        value_of(s) < pow2(s.len()),
    decreases s.len(),
{
    lemma_pow2_pos(s.len());
    if s.len() == 0 {
        assert(pow2(0) == 1) by {
            vstd::arithmetic::power2::lemma2_to64();
        }
    } else {
        lemma_value_of_bound(s.drop_last());
        lemma_pow2_unfold(s.len());
    }
}

pub proof fn lemma_byte_bits_len(bytes: Seq<u8>)
    ensures
        byte_bits(bytes).len() == 8 * bytes.len(),
    decreases bytes.len(),
{
    if bytes.len() > 0 {
        lemma_byte_bits_len(bytes.drop_last());
        lemma_bits_of_len(bytes.last() as nat, 8);
    }
}

/// The bits of a concatenation of byte strings.
pub proof fn lemma_byte_bits_append(a: Seq<u8>, b: Seq<u8>)
    ensures
        byte_bits(a + b) == byte_bits(a) + byte_bits(b),
    decreases b.len(),
{
    if b.len() == 0 {
        assert(a + b =~= a);
        assert(byte_bits(a) + byte_bits(b) =~= byte_bits(a));
    } else {
        lemma_byte_bits_append(a, b.drop_last());
        assert((a + b).drop_last() =~= a + b.drop_last());
        assert((a + b).last() == b.last());
        assert(byte_bits(a + b) =~= byte_bits(a) + byte_bits(b));
    }
}

/// The bits of one pushed byte.
pub proof fn lemma_byte_bits_push(a: Seq<u8>, b: u8)
    ensures
        byte_bits(a.push(b)) == byte_bits(a) + bits_of(b as nat, 8),
{
    assert(a.push(b).drop_last() =~= a);
}

/// Dropping the first byte drops its eight bits.
pub proof fn lemma_byte_bits_skip(bytes: Seq<u8>, k: int)
    requires
        0 <= k <= bytes.len(),
    ensures
        byte_bits(bytes.skip(k)) == byte_bits(bytes).skip(8 * k),
        byte_bits(bytes.take(k)) == byte_bits(bytes).take(8 * k),
{
    assert(bytes =~= bytes.take(k) + bytes.skip(k));
    lemma_byte_bits_append(bytes.take(k), bytes.skip(k));
    lemma_byte_bits_len(bytes.take(k));
    assert(byte_bits(bytes).skip(8 * k) =~= byte_bits(bytes.skip(k)));
    assert(byte_bits(bytes).take(8 * k) =~= byte_bits(bytes.take(k)));
}

/// Decoding a byte string from its bits gives it back.
pub proof fn lemma_byte_bits_first(bytes: Seq<u8>)
    requires
        bytes.len() > 0,
    ensures
        byte_bits(bytes) == bits_of(bytes[0] as nat, 8) + byte_bits(bytes.drop_first()),
{
    assert(bytes =~= seq![bytes[0]] + bytes.drop_first());
    lemma_byte_bits_append(seq![bytes[0]], bytes.drop_first());
    let one = seq![bytes[0]];
    assert(one.drop_last() =~= Seq::<u8>::empty());
    assert(byte_bits(Seq::<u8>::empty()) == Seq::<bool>::empty());
    assert(one.last() == bytes[0]);
    assert(byte_bits(seq![bytes[0]]) =~= bits_of(bytes[0] as nat, 8));
}


/// A multiple of `2^b` is a multiple of every smaller power of two.
pub proof fn lemma_pow2_multiple_smaller(x: nat, a: nat, b: nat)
    requires
        a <= b,
        x % pow2(b) == 0,
    ensures
        x % pow2(a) == 0,
{
    lemma_pow2_pos(a);
    lemma_pow2_pos(b);
    lemma_pow2_pos((b - a) as nat);
    lemma_pow2_adds(a, (b - a) as nat);
    vstd::arithmetic::div_mod::lemma_fundamental_div_mod(x as int, pow2(b) as int);
    let q = x / pow2(b);
    assert(x == (q * pow2((b - a) as nat)) * pow2(a)) by (nonlinear_arith)
        requires
            x == pow2(b) * q + 0,
            pow2(b) == pow2(a) * pow2((b - a) as nat),
    ;
    vstd::arithmetic::div_mod::lemma_fundamental_div_mod_converse(
        x as int,
        pow2(a) as int,
        (q * pow2((b - a) as nat)) as int,
        0,
    );
}

/// `(a * d + b) / d == a` and `(a * d + b) % d == b` for `b < d`.
pub proof fn lemma_div_mod_of_combination(a: nat, b: nat, d: nat)
    requires
        b < d,
    ensures
        (a * d + b) / d == a,
        (a * d + b) % d == b,
{
    vstd::arithmetic::div_mod::lemma_fundamental_div_mod_converse(
        (a * d + b) as int,
        d as int,
        a as int,
        b as int,
    );
}

/// The low `c` bits of a byte-sized residue are the low `c` bits of the number.
pub proof fn lemma_mod_256_then_low(y: nat, c: nat)
    requires
        c <= 8,
    ensures
        (y % 256) % pow2(c) == y % pow2(c),
        y % pow2(c) < pow2(c),
{
    lemma_pow2_pos(c);
    lemma_pow2_pos((8 - c) as nat);
    lemma_pow2_adds(c, (8 - c) as nat);
    vstd::arithmetic::power2::lemma2_to64();
    vstd::arithmetic::div_mod::lemma_mod_mod(y as int, pow2(c) as int, pow2((8 - c) as nat) as int);
}

/// Taking `chunk` more bits of `v`, from position `shift` up, extends the
/// `done` bits already taken above them.
pub proof fn lemma_bits_of_shift_step(v: nat, shift: nat, chunk: nat, done: nat)
    ensures
        bits_of(v / pow2(shift + chunk), done) + bits_of((v / pow2(shift)) % pow2(chunk), chunk)
            == bits_of(v / pow2(shift), done + chunk),
{
    let w = v / pow2(shift);
    lemma_pow2_pos(shift);
    lemma_pow2_pos(chunk);
    lemma_pow2_adds(shift, chunk);
    lemma_div_denominator(v as int, pow2(shift) as int, pow2(chunk) as int);
    lemma_bits_of_split(w, done, chunk);
    lemma_bits_of_mod(w, chunk);
}

/// Appending `chunk` bits to a partly filled byte whose `count` high bits
/// are taken and whose low bits are zero.
pub proof fn lemma_pending_append(cb: nat, count: nat, bits: nat, chunk: nat)
    requires
        cb < 256,
        count + chunk <= 8,
        cb % pow2((8 - count) as nat) == 0,
        bits < pow2(chunk),
    ensures
        ({
            let p = (8 - count - chunk) as nat;
            let cb2 = cb + bits * pow2(p);
            &&& cb2 < 256
            &&& cb2 % pow2(p) == 0
            &&& bits_of(cb2 / pow2(p), count + chunk) == bits_of(cb / pow2((8 - count) as nat), count)
                + bits_of(bits, chunk)
        }),
{
    let p = (8 - count - chunk) as nat;
    let q = (8 - count) as nat;
    lemma_pow2_pos(p);
    lemma_pow2_pos(q);
    lemma_pow2_pos(chunk);
    lemma_pow2_pos(count);
    lemma_pow2_adds(p, chunk);
    lemma_pow2_adds(count, q);
    vstd::arithmetic::power2::lemma2_to64();
    assert(q == p + chunk);
    let a = cb / pow2(q);
    vstd::arithmetic::div_mod::lemma_fundamental_div_mod(cb as int, pow2(q) as int);
    assert(cb == a * pow2(q)) by (nonlinear_arith)
        requires cb == pow2(q) * a + 0;
    // a < 2^count because cb < 2^8 = 2^count * 2^q
    assert(a < pow2(count)) by (nonlinear_arith)
        requires cb == a * pow2(q), cb < pow2(count) * pow2(q), pow2(q) > 0;
    let m = a * pow2(chunk) + bits;
    let cb2 = cb + bits * pow2(p);
    assert(cb2 == m * pow2(p)) by (nonlinear_arith)
        requires
            cb2 == cb + bits * pow2(p),
            cb == a * pow2(q),
            pow2(q) == pow2(p) * pow2(chunk),
            m == a * pow2(chunk) + bits,
    ;
    lemma_div_mod_of_combination(m, 0, pow2(p));
    assert(m * pow2(p) + 0 == cb2);
    lemma_pow2_adds(count, chunk);
    assert(m < pow2(count + chunk)) by (nonlinear_arith)
        requires
            m == a * pow2(chunk) + bits,
            a + 1 <= pow2(count),
            bits < pow2(chunk),
            pow2(count + chunk) == pow2(count) * pow2(chunk),
    {
        assert((a + 1) * pow2(chunk) <= pow2(count) * pow2(chunk));
    }
    lemma_pow2_adds(count + chunk, p);
    assert(count + chunk + p == 8);
    assert(cb2 < 256) by (nonlinear_arith)
        requires
            cb2 == m * pow2(p),
            m < pow2(count + chunk),
            pow2(count + chunk) * pow2(p) == 256,
    {
        assert(m * pow2(p) < pow2(count + chunk) * pow2(p));
    }
    lemma_pow2_adds(count, chunk);
    lemma_bits_of_split(m, count, chunk);
    lemma_div_mod_of_combination(a, bits, pow2(chunk));
    lemma_bits_of_mod(m, chunk);
}


/// The low bits of zero are all zero.
pub proof fn lemma_bits_of_zero(n: nat)
    ensures
        bits_of(0, n) == Seq::new(n, |i: int| false),
    decreases n,
{
    if n > 0 {
        lemma_bits_of_zero((n - 1) as nat);
        assert(bits_of(0, n) =~= Seq::new(n, |i: int| false));
    } else {
        assert(bits_of(0, n) =~= Seq::new(n, |i: int| false));
    }
}

} // verus!
