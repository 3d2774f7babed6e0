//! Unsigned integer types that bit fields can be read into and written from.
use vstd::prelude::*;

verus! {

use vstd::arithmetic::power2::{pow2, lemma_pow2_pos, lemma_pow2_adds, lemma2_to64, lemma_pow2_strictly_increases};
use vstd::arithmetic::mul::lemma_mul_strict_inequality;

/// An unsigned integer type whose bits can be taken apart a byte at a time.
pub trait BitInt: Copy + Sized {
    /// The width of the type in bits.
    const BITS: u32;

    /// The value zero.
    const ZERO: Self;

    /// The number a value denotes.
    spec fn spec_val(self) -> nat;

    /// Every value fits in `BITS` bits, and `ZERO` denotes zero.
    proof fn lemma_int_facts(self)
        ensures
            8 <= Self::BITS <= 128,
            self.spec_val() < pow2(Self::BITS as nat),
            Self::ZERO.spec_val() == 0,
    ;

    /// Low 8 bits of `self >> shift`.
    fn extract_byte(self, shift: u32) -> (r: u8)
        requires
            shift < Self::BITS,
        ensures
            r as nat == (self.spec_val() / pow2(shift as nat)) % 256,
    ;

    /// `self | ((bits as Self) << shift)`.
    spec fn spec_deposit(self, bits: u8, shift: u32) -> Self;

    /// `self | ((bits as Self) << shift)`. Where the deposited bits fit in
    /// the type and land on zero bits of `self`, this is an addition.
    fn deposit_byte(self, bits: u8, shift: u32) -> (r: Self)
        requires
            shift < Self::BITS,
        ensures
            r == self.spec_deposit(bits, shift),
            (exists|k: nat|
                #![trigger pow2(k)]
                bits < pow2(k) && shift + k <= Self::BITS && self.spec_val() % pow2((shift + k) as nat) == 0)
                ==> r.spec_val() == self.spec_val() + bits * pow2(shift as nat),
    ;
}

/// The widths of the integer types that implement `BitInt`.
pub proof fn lemma_bit_widths()
    ensures
        <u8 as BitInt>::BITS == 8,
        <u16 as BitInt>::BITS == 16,
        <u32 as BitInt>::BITS == 32,
        <u64 as BitInt>::BITS == 64,
        <u128 as BitInt>::BITS == 128,
        <usize as BitInt>::BITS == usize::BITS,
{
}

/// Shared arithmetic step of `deposit_byte`: with `x` a multiple of `2^n` and
/// `b < 2^k`, the product `b * 2^s` lies below `2^n` when `n == s + k`.
proof fn lemma_deposit_bound(b: nat, s: nat, k: nat)
    requires
        b < pow2(k),
    ensures
        b * pow2(s) < pow2(s + k),
{
    lemma_pow2_pos(s);
    lemma_pow2_adds(s, k);
    lemma_mul_strict_inequality(b as int, pow2(k) as int, pow2(s) as int);
    assert(pow2(k) * pow2(s) == pow2(s) * pow2(k)) by (nonlinear_arith);
}

/// A multiple of `2^n` below `2^w` is zero when `n == w`.
proof fn lemma_multiple_of_top(x: nat, w: nat)
    requires
        x < pow2(w),
        x % pow2(w) == 0,
    ensures
        x == 0,
{
    lemma_pow2_pos(w);
    vstd::arithmetic::div_mod::lemma_small_mod(x, pow2(w));
}

proof fn lemma_or_is_add_u8(x: u8, y: u8, n: u8)
    by (bit_vector)
    requires
        n < 8,
        (x >> n) << n == x,
        y < (1u8 << n),
    ensures
        x | y == x + y,
{
}

/// A multiple of `2^n` keeps its value when its low `n` bits are shifted out and back.
proof fn lemma_multiple_shifts_u8(x: u8, n: u8)
    requires
        n < u8::BITS,
        x as nat % pow2(n as nat) == 0,
    ensures
        (x >> n) << n == x,
{
    lemma_pow2_pos(n as nat);
    vstd::bits::lemma_u8_shr_is_div(x, n);
    let q = x >> n;
    assert(q * pow2(n as nat) == x) by {
        vstd::arithmetic::div_mod::lemma_fundamental_div_mod(x as int, pow2(n as nat) as int);
        assert(pow2(n as nat) * (x as nat / pow2(n as nat)) == q * pow2(n as nat)) by (nonlinear_arith)
            requires q == x as nat / pow2(n as nat);
    }
    vstd::bits::lemma_u8_shl_is_mul(q, n);
}

impl BitInt for u8 {
    const BITS: u32 = 8;

    const ZERO: Self = 0;

    open spec fn spec_val(self) -> nat {
        self as nat
    }

    proof fn lemma_int_facts(self) {
        lemma2_to64();
    }

    fn extract_byte(self, shift: u32) -> (r: u8) {
        proof {
            vstd::bits::lemma_u8_shr_is_div(self, shift as u8);
            lemma2_to64();
        }
        self >> shift
    }

    open spec fn spec_deposit(self, bits: u8, shift: u32) -> u8 {
        self | ((bits as u8) << shift)
    }

    fn deposit_byte(self, bits: u8, shift: u32) -> (r: Self) {
        let moved = (bits as u8) << shift;
        proof {
            if exists|k: nat|
                #![trigger pow2(k)]
                bits < pow2(k) && shift + k <= Self::BITS && self.spec_val() % pow2((shift + k) as nat) == 0
            {
                let k = choose|k: nat|
                    #![trigger pow2(k)]
                    bits < pow2(k) && shift + k <= Self::BITS && self.spec_val() % pow2((shift + k) as nat) == 0;
                    lemma2_to64();
                    lemma_deposit_bound(bits as nat, shift as nat, k);
                    if shift + k < 8 {
                        lemma_pow2_strictly_increases((shift + k) as nat, 8);
                    }
                    vstd::bits::lemma_u8_pow2_no_overflow(shift as nat);
                    vstd::bits::lemma_u8_shl_is_mul(bits, shift as u8);
                    let n = (shift + k) as nat;
                    if n == 8 {
                        lemma_multiple_of_top(self as nat, 8);
                        assert(0u8 | moved == moved) by (bit_vector);
                    } else {
                        vstd::bits::lemma_u8_pow2_no_overflow(n);
                        vstd::bits::lemma_u8_shl_is_mul(1, n as u8);
                        lemma_multiple_shifts_u8(self, n as u8);
                        lemma_or_is_add_u8(self, moved, n as u8);
                    }
            }
        }
        self | moved
    }
}

proof fn lemma_or_is_add_u16(x: u16, y: u16, n: u16)
    by (bit_vector)
    requires
        n < 16,
        (x >> n) << n == x,
        y < (1u16 << n),
    ensures
        x | y == x + y,
{
}

/// A multiple of `2^n` keeps its value when its low `n` bits are shifted out and back.
proof fn lemma_multiple_shifts_u16(x: u16, n: u16)
    requires
        n < u16::BITS,
        x as nat % pow2(n as nat) == 0,
    ensures
        (x >> n) << n == x,
{
    lemma_pow2_pos(n as nat);
    vstd::bits::lemma_u16_shr_is_div(x, n);
    let q = x >> n;
    assert(q * pow2(n as nat) == x) by {
        vstd::arithmetic::div_mod::lemma_fundamental_div_mod(x as int, pow2(n as nat) as int);
        assert(pow2(n as nat) * (x as nat / pow2(n as nat)) == q * pow2(n as nat)) by (nonlinear_arith)
            requires q == x as nat / pow2(n as nat);
    }
    vstd::bits::lemma_u16_shl_is_mul(q, n);
}

impl BitInt for u16 {
    const BITS: u32 = 16;

    const ZERO: Self = 0;

    open spec fn spec_val(self) -> nat {
        self as nat
    }

    proof fn lemma_int_facts(self) {
        lemma2_to64();
    }

    fn extract_byte(self, shift: u32) -> (r: u8) {
        proof {
            vstd::bits::lemma_u16_shr_is_div(self, shift as u16);
            lemma2_to64();
        }
        let y = self >> shift;
        assert((y as u8) as u16 == y % 256) by (bit_vector);
        y as u8
    }

    open spec fn spec_deposit(self, bits: u8, shift: u32) -> u16 {
        self | ((bits as u16) << shift)
    }

    fn deposit_byte(self, bits: u8, shift: u32) -> (r: Self) {
        let moved = (bits as u16) << shift;
        proof {
            if exists|k: nat|
                #![trigger pow2(k)]
                bits < pow2(k) && shift + k <= Self::BITS && self.spec_val() % pow2((shift + k) as nat) == 0
            {
                let k = choose|k: nat|
                    #![trigger pow2(k)]
                    bits < pow2(k) && shift + k <= Self::BITS && self.spec_val() % pow2((shift + k) as nat) == 0;
                    lemma2_to64();
                    lemma_deposit_bound(bits as nat, shift as nat, k);
                    if shift + k < Self::BITS {
                        lemma_pow2_strictly_increases((shift + k) as nat, Self::BITS as nat);
                    }
                    vstd::bits::lemma_u16_pow2_no_overflow(shift as nat);
                    vstd::bits::lemma_u16_shl_is_mul(bits as u16, shift as u16);
                    let n = (shift + k) as nat;
                    if n == Self::BITS {
                        lemma_multiple_of_top(self as nat, Self::BITS as nat);
                        assert(0u16 | moved == moved) by (bit_vector);
                    } else {
                        vstd::bits::lemma_u16_pow2_no_overflow(n);
                        vstd::bits::lemma_u16_shl_is_mul(1, n as u16);
                        lemma_multiple_shifts_u16(self, n as u16);
                        lemma_or_is_add_u16(self, moved, n as u16);
                    }
            }
        }
        self | moved
    }
}

proof fn lemma_or_is_add_u32(x: u32, y: u32, n: u32)
    by (bit_vector)
    requires
        n < 32,
        (x >> n) << n == x,
        y < (1u32 << n),
    ensures
        x | y == x + y,
{
}

/// A multiple of `2^n` keeps its value when its low `n` bits are shifted out and back.
proof fn lemma_multiple_shifts_u32(x: u32, n: u32)
    requires
        n < u32::BITS,
        x as nat % pow2(n as nat) == 0,
    ensures
        (x >> n) << n == x,
{
    lemma_pow2_pos(n as nat);
    vstd::bits::lemma_u32_shr_is_div(x, n);
    let q = x >> n;
    assert(q * pow2(n as nat) == x) by {
        vstd::arithmetic::div_mod::lemma_fundamental_div_mod(x as int, pow2(n as nat) as int);
        assert(pow2(n as nat) * (x as nat / pow2(n as nat)) == q * pow2(n as nat)) by (nonlinear_arith)
            requires q == x as nat / pow2(n as nat);
    }
    vstd::bits::lemma_u32_shl_is_mul(q, n);
}

impl BitInt for u32 {
    const BITS: u32 = 32;

    const ZERO: Self = 0;

    open spec fn spec_val(self) -> nat {
        self as nat
    }

    proof fn lemma_int_facts(self) {
        lemma2_to64();
    }

    fn extract_byte(self, shift: u32) -> (r: u8) {
        proof {
            vstd::bits::lemma_u32_shr_is_div(self, shift as u32);
            lemma2_to64();
        }
        let y = self >> shift;
        assert((y as u8) as u32 == y % 256) by (bit_vector);
        y as u8
    }

    open spec fn spec_deposit(self, bits: u8, shift: u32) -> u32 {
        self | ((bits as u32) << shift)
    }

    fn deposit_byte(self, bits: u8, shift: u32) -> (r: Self) {
        let moved = (bits as u32) << shift;
        proof {
            if exists|k: nat|
                #![trigger pow2(k)]
                bits < pow2(k) && shift + k <= Self::BITS && self.spec_val() % pow2((shift + k) as nat) == 0
            {
                let k = choose|k: nat|
                    #![trigger pow2(k)]
                    bits < pow2(k) && shift + k <= Self::BITS && self.spec_val() % pow2((shift + k) as nat) == 0;
                    lemma2_to64();
                    lemma_deposit_bound(bits as nat, shift as nat, k);
                    if shift + k < Self::BITS {
                        lemma_pow2_strictly_increases((shift + k) as nat, Self::BITS as nat);
                    }
                    vstd::bits::lemma_u32_pow2_no_overflow(shift as nat);
                    vstd::bits::lemma_u32_shl_is_mul(bits as u32, shift as u32);
                    let n = (shift + k) as nat;
                    if n == Self::BITS {
                        lemma_multiple_of_top(self as nat, Self::BITS as nat);
                        assert(0u32 | moved == moved) by (bit_vector);
                    } else {
                        vstd::bits::lemma_u32_pow2_no_overflow(n);
                        vstd::bits::lemma_u32_shl_is_mul(1, n as u32);
                        lemma_multiple_shifts_u32(self, n as u32);
                        lemma_or_is_add_u32(self, moved, n as u32);
                    }
            }
        }
        self | moved
    }
}

proof fn lemma_or_is_add_u64(x: u64, y: u64, n: u64)
    by (bit_vector)
    requires
        n < 64,
        (x >> n) << n == x,
        y < (1u64 << n),
    ensures
        x | y == x + y,
{
}

/// A multiple of `2^n` keeps its value when its low `n` bits are shifted out and back.
proof fn lemma_multiple_shifts_u64(x: u64, n: u64)
    requires
        n < u64::BITS,
        x as nat % pow2(n as nat) == 0,
    ensures
        (x >> n) << n == x,
{
    lemma_pow2_pos(n as nat);
    vstd::bits::lemma_u64_shr_is_div(x, n);
    let q = x >> n;
    assert(q * pow2(n as nat) == x) by {
        vstd::arithmetic::div_mod::lemma_fundamental_div_mod(x as int, pow2(n as nat) as int);
        assert(pow2(n as nat) * (x as nat / pow2(n as nat)) == q * pow2(n as nat)) by (nonlinear_arith)
            requires q == x as nat / pow2(n as nat);
    }
    vstd::bits::lemma_u64_shl_is_mul(q, n);
}

impl BitInt for u64 {
    const BITS: u32 = 64;

    const ZERO: Self = 0;

    open spec fn spec_val(self) -> nat {
        self as nat
    }

    proof fn lemma_int_facts(self) {
        lemma2_to64();
    }

    fn extract_byte(self, shift: u32) -> (r: u8) {
        proof {
            vstd::bits::lemma_u64_shr_is_div(self, shift as u64);
            lemma2_to64();
        }
        let y = self >> shift;
        assert((y as u8) as u64 == y % 256) by (bit_vector);
        y as u8
    }

    open spec fn spec_deposit(self, bits: u8, shift: u32) -> u64 {
        self | ((bits as u64) << shift)
    }

    fn deposit_byte(self, bits: u8, shift: u32) -> (r: Self) {
        let moved = (bits as u64) << shift;
        proof {
            if exists|k: nat|
                #![trigger pow2(k)]
                bits < pow2(k) && shift + k <= Self::BITS && self.spec_val() % pow2((shift + k) as nat) == 0
            {
                let k = choose|k: nat|
                    #![trigger pow2(k)]
                    bits < pow2(k) && shift + k <= Self::BITS && self.spec_val() % pow2((shift + k) as nat) == 0;
                    lemma2_to64();
                    lemma_deposit_bound(bits as nat, shift as nat, k);
                    if shift + k < Self::BITS {
                        lemma_pow2_strictly_increases((shift + k) as nat, Self::BITS as nat);
                    }
                    vstd::bits::lemma_u64_pow2_no_overflow(shift as nat);
                    vstd::bits::lemma_u64_shl_is_mul(bits as u64, shift as u64);
                    let n = (shift + k) as nat;
                    if n == Self::BITS {
                        lemma_multiple_of_top(self as nat, Self::BITS as nat);
                        assert(0u64 | moved == moved) by (bit_vector);
                    } else {
                        vstd::bits::lemma_u64_pow2_no_overflow(n);
                        vstd::bits::lemma_u64_shl_is_mul(1, n as u64);
                        lemma_multiple_shifts_u64(self, n as u64);
                        lemma_or_is_add_u64(self, moved, n as u64);
                    }
            }
        }
        self | moved
    }
}

proof fn lemma_or_is_add_usize(x: usize, y: usize, n: usize)
    by (bit_vector)
    requires
        n < usize::BITS,
        (x >> n) << n == x,
        y < (1usize << n),
    ensures
        x | y == x + y,
{
}

/// A multiple of `2^n` keeps its value when its low `n` bits are shifted out and back.
proof fn lemma_multiple_shifts_usize(x: usize, n: usize)
    requires
        n < usize::BITS,
        x as nat % pow2(n as nat) == 0,
    ensures
        (x >> n) << n == x,
{
    lemma_pow2_pos(n as nat);
    vstd::bits::lemma_usize_shr_is_div(x, n);
    let q = x >> n;
    assert(q * pow2(n as nat) == x) by {
        vstd::arithmetic::div_mod::lemma_fundamental_div_mod(x as int, pow2(n as nat) as int);
        assert(pow2(n as nat) * (x as nat / pow2(n as nat)) == q * pow2(n as nat)) by (nonlinear_arith)
            requires q == x as nat / pow2(n as nat);
    }
    vstd::bits::lemma_usize_shl_is_mul(q, n);
}

impl BitInt for usize {
    const BITS: u32 = usize::BITS;

    const ZERO: Self = 0;

    open spec fn spec_val(self) -> nat {
        self as nat
    }

    proof fn lemma_int_facts(self) {
        lemma2_to64();
    }

    fn extract_byte(self, shift: u32) -> (r: u8) {
        proof {
            vstd::bits::lemma_usize_shr_is_div(self, shift as usize);
            lemma2_to64();
        }
        let y = self >> shift;
        assert((y as u8) as usize == y % 256) by (bit_vector);
        y as u8
    }

    open spec fn spec_deposit(self, bits: u8, shift: u32) -> usize {
        self | ((bits as usize) << shift)
    }

    fn deposit_byte(self, bits: u8, shift: u32) -> (r: Self) {
        let moved = (bits as usize) << shift;
        proof {
            if exists|k: nat|
                #![trigger pow2(k)]
                bits < pow2(k) && shift + k <= Self::BITS && self.spec_val() % pow2((shift + k) as nat) == 0
            {
                let k = choose|k: nat|
                    #![trigger pow2(k)]
                    bits < pow2(k) && shift + k <= Self::BITS && self.spec_val() % pow2((shift + k) as nat) == 0;
                    lemma2_to64();
                    lemma_deposit_bound(bits as nat, shift as nat, k);
                    if shift + k < Self::BITS {
                        lemma_pow2_strictly_increases((shift + k) as nat, Self::BITS as nat);
                    }
                    vstd::bits::lemma_usize_pow2_no_overflow(shift as nat);
                    vstd::bits::lemma_usize_shl_is_mul(bits as usize, shift as usize);
                    let n = (shift + k) as nat;
                    if n == Self::BITS {
                        lemma_multiple_of_top(self as nat, Self::BITS as nat);
                        assert(0usize | moved == moved) by (bit_vector);
                    } else {
                        vstd::bits::lemma_usize_pow2_no_overflow(n);
                        vstd::bits::lemma_usize_shl_is_mul(1, n as usize);
                        lemma_multiple_shifts_usize(self, n as usize);
                        lemma_or_is_add_usize(self, moved, n as usize);
                    }
            }
        }
        self | moved
    }
}

/// `2^128` is one more than the largest `u128`.
pub proof fn lemma_u128_pow2_top()
    ensures
        pow2(128) == u128::MAX + 1,
{
    lemma2_to64();
    lemma_pow2_adds(64, 64);
}

proof fn lemma_u128_pow2_no_overflow(n: nat)
    requires
        n < 128,
    ensures
        0 < pow2(n) < u128::MAX,
{
    lemma_pow2_pos(n);
    lemma_u128_pow2_top();
    if n < 127 {
        lemma_pow2_strictly_increases(n, 127);
    }
    vstd::arithmetic::power2::lemma_pow2_unfold(128);
}

/// Shifting a `u128` left multiplies it by a power of two when nothing is lost.
proof fn lemma_u128_shl_is_mul(x: u128, s: u128)
    requires
        s < 128,
        x * pow2(s as nat) <= u128::MAX,
    ensures
        x << s == x * pow2(s as nat),
    decreases s,
{
    lemma_pow2_pos(s as nat);
    if s == 0 {
        lemma2_to64();
        assert(x << 0 == x) by (bit_vector);
    } else {
        let t = (s - 1) as u128;
        assert(x << s == (x << t) << 1u128) by (bit_vector)
            requires
                0 < s < 128,
                t == s - 1,
        ;
        vstd::arithmetic::power2::lemma_pow2_unfold(s as nat);
        lemma_pow2_pos(t as nat);
        assert(x * pow2(t as nat) <= x * pow2(s as nat)) by (nonlinear_arith)
            requires pow2(t as nat) <= pow2(s as nat);
        lemma_u128_shl_is_mul(x, t);
        assert(x * pow2(s as nat) == (x * pow2(t as nat)) * 2) by (nonlinear_arith)
            requires pow2(s as nat) == 2 * pow2(t as nat);
        let y = x << t;
        assert(y << 1u128 == y + y) by (bit_vector)
            requires y <= 0x7fff_ffff_ffff_ffff_ffff_ffff_ffff_ffffu128;
    }
}

proof fn lemma_or_is_add_u128(x: u128, y: u128, n: u128)
    by (bit_vector)
    requires
        n < 128,
        (x >> n) << n == x,
        y < (1u128 << n),
    ensures
        x | y == x + y,
{
}

/// A multiple of `2^n` keeps its value when its low `n` bits are shifted out and back.
proof fn lemma_multiple_shifts_u128(x: u128, n: u128)
    requires
        n < u128::BITS,
        x as nat % pow2(n as nat) == 0,
    ensures
        (x >> n) << n == x,
{
    lemma_pow2_pos(n as nat);
    vstd::bits::lemma_u128_shr_is_div(x, n);
    let q = x >> n;
    assert(q * pow2(n as nat) == x) by {
        vstd::arithmetic::div_mod::lemma_fundamental_div_mod(x as int, pow2(n as nat) as int);
        assert(pow2(n as nat) * (x as nat / pow2(n as nat)) == q * pow2(n as nat)) by (nonlinear_arith)
            requires q == x as nat / pow2(n as nat);
    }
    lemma_u128_shl_is_mul(q, n);
}

impl BitInt for u128 {
    const BITS: u32 = 128;

    const ZERO: Self = 0;

    open spec fn spec_val(self) -> nat {
        self as nat
    }

    proof fn lemma_int_facts(self) {
        lemma_u128_pow2_top();
    }

    fn extract_byte(self, shift: u32) -> (r: u8) {
        proof {
            vstd::bits::lemma_u128_shr_is_div(self, shift as u128);
            lemma2_to64();
        }
        let y = self >> shift;
        assert((y as u8) as u128 == y % 256) by (bit_vector);
        y as u8
    }

    open spec fn spec_deposit(self, bits: u8, shift: u32) -> u128 {
        self | ((bits as u128) << shift)
    }

    fn deposit_byte(self, bits: u8, shift: u32) -> (r: Self) {
        let moved = (bits as u128) << shift;
        proof {
            if exists|k: nat|
                #![trigger pow2(k)]
                bits < pow2(k) && shift + k <= Self::BITS && self.spec_val() % pow2((shift + k) as nat) == 0
            {
                let k = choose|k: nat|
                    #![trigger pow2(k)]
                    bits < pow2(k) && shift + k <= Self::BITS && self.spec_val() % pow2((shift + k) as nat) == 0;
                    lemma_u128_pow2_top();
                    lemma2_to64();
                    lemma_deposit_bound(bits as nat, shift as nat, k);
                    if shift + k < Self::BITS {
                        lemma_pow2_strictly_increases((shift + k) as nat, Self::BITS as nat);
                    }
                    lemma_u128_pow2_no_overflow(shift as nat);
                    lemma_u128_shl_is_mul(bits as u128, shift as u128);
                    let n = (shift + k) as nat;
                    if n == Self::BITS {
                        lemma_multiple_of_top(self as nat, Self::BITS as nat);
                        assert(0u128 | moved == moved) by (bit_vector);
                    } else {
                        lemma_u128_pow2_no_overflow(n);
                        lemma_u128_shl_is_mul(1, n as u128);
                        lemma_multiple_shifts_u128(self, n as u128);
                        lemma_or_is_add_u128(self, moved, n as u128);
                    }
            }
        }
        self | moved
    }
}

} // verus!
