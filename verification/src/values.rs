//! Value model: parameterised widths, three-state bits, wrapping arithmetic.
//!
//! A net carries a `NetValue`: `val` holds the bit values and `unk` marks the
//! bits whose value is unknown (a driver conflict).  Every arithmetic
//! operation wraps in two's complement at the given width.
use vstd::prelude::*;
use vstd::arithmetic::power2::{pow2, lemma_pow2_pos, lemma2_to64, lemma_pow2_strictly_increases};
use vstd::bits::{lemma_u32_low_bits_mask_is_mod, lemma_u32_shl_is_mul, lemma_u32_pow2_no_overflow, low_bits_mask};
use vstd::string::StringExecFns;

verus! {

/// Signal width in bits.
pub type Width = u8;

/// Widest signal the model supports.
pub const MAX_WIDTH: Width = 32;

/// The widths that a component parameter may take.
pub open spec fn is_width(w: u8) -> bool {
    w == 1 || w == 4 || w == 8 || w == 16 || w == 32
}

/// Number of distinct values of a `w`-bit signal (capped at 32 bits).
pub open spec fn span(w: u8) -> nat {
    if w >= 32 { pow2(32) } else { pow2(w as nat) }
}

/// The mask with the low `w` bits set (all 32 bits once `w >= 32`).
pub open spec fn mask(w: u8) -> u32 {
    (span(w) - 1) as u32
}

/// The unsigned value of the low `w` bits of `v`.
pub open spec fn low(v: u32, w: u8) -> u32 {
    (v as nat % span(w)) as u32
}

pub proof fn lemma_span_bounds(w: u8)
    ensures
        1 <= span(w) <= 0x1_0000_0000,
        w >= 32 ==> span(w) == 0x1_0000_0000,
        w < 32 ==> span(w) <= 0x8000_0000,
        mask(w) as nat == span(w) - 1,
{
    lemma2_to64();
    if w < 32 {
        lemma_pow2_pos(w as nat);
        lemma_pow2_strictly_increases(w as nat, 32);
        if w < 31 {
            lemma_pow2_strictly_increases(w as nat, 31);
        }
    }
}

/// `v & mask(w)` keeps exactly the low `w` bits.
pub proof fn lemma_and_mask(v: u32, w: u8)
    ensures
        v & mask(w) == low(v, w),
        low(v, w) <= mask(w),
{
    lemma_span_bounds(w);
    lemma2_to64();
    if w < 32 {
        lemma_u32_pow2_no_overflow(w as nat);
        lemma_u32_low_bits_mask_is_mod(v, w as nat);
        assert(low_bits_mask(w as nat) == pow2(w as nat) - 1);
    } else {
        assert(v & 0xFFFF_FFFFu32 == v) by (bit_vector);
    }
}

/// `1 << w` is the power of two.
pub proof fn lemma_shl_one(w: u32)
    requires
        w < 32,
    ensures
        (1u32 << w) as nat == pow2(w as nat),
{
    lemma_u32_pow2_no_overflow(w as nat);
    lemma_u32_shl_is_mul(1, w);
}

/// The smallest allowed width that is at least `w` (32 beyond).
pub open spec fn normalized(w: u32) -> u8 {
    if w <= 1 { 1 } else if w <= 4 { 4 } else if w <= 8 { 8 } else if w <= 16 { 16 } else { 32 }
}

/// Rounds any width up to the nearest allowed width.
pub fn normalize_width(w: u32) -> (r: Width)
    ensures
        r == normalized(w),
        is_width(r),
        w <= r || r == 32,
        forall|x: u8| #[trigger] is_width(x) && w <= x ==> r <= x,
{
    if w <= 1 {
        1
    } else if w <= 4 {
        4
    } else if w <= 8 {
        8
    } else if w <= 16 {
        16
    } else {
        32
    }
}

/// The mask of a width; `u32::MAX` from 32 bits up (no shift overflow).
pub fn width_mask(w: Width) -> (m: u32)
    ensures
        m == mask(w),
{
    proof {
        lemma_span_bounds(w);
    }
    if w >= 32 {
        proof {
            lemma2_to64();
        }
        u32::MAX
    } else {
        proof {
            lemma_shl_one(w as u32);
        }
        (1u32 << w) - 1
    }
}

/// Smallest width from `w` up (at most 32) whose power of two reaches `bits`.
pub open spec fn bits_from(w: nat, bits: u32) -> nat
    decreases 32 - w,
{
    if w >= 32 || pow2(w) >= (if bits > 1 { bits as nat } else { 1 }) {
        w
    } else {
        bits_from(w + 1, bits)
    }
}

pub proof fn lemma_bits_from_bound(w: nat, bits: u32)
    requires
        w <= 32,
    ensures
        w <= bits_from(w, bits) <= 32,
    decreases 32 - w,
{
    if w < 32 {
        lemma_bits_from_bound(w + 1, bits);
    }
}

/// Smallest width (at least 1, at most 32) that can count `bits` values.
pub open spec fn bits_needed_spec(bits: u32) -> u8 {
    bits_from(1, bits) as u8
}

/// Smallest width (at least 1, at most 32) that can count `bits` values.
pub fn bits_needed(bits: u32) -> (r: Width)
    ensures
        r == bits_needed_spec(bits),
        1 <= r <= 32,
        bits <= pow2(r as nat) || r == 32,
        forall|k: nat| 1 <= k < r ==> pow2(k) < bits,
{
    let target: u32 = if bits > 1 { bits } else { 1 };
    let mut w: Width = 1;
    proof {
        lemma2_to64();
        lemma_bits_from_bound(1, bits);
    }
    while w < MAX_WIDTH && (1u32 << w) < target
        invariant
            1 <= w <= 32,
            target == if bits > 1 { bits } else { 1 },
            forall|k: nat| 1 <= k < w ==> pow2(k) < bits,
            bits_from(1, bits) == bits_from(w as nat, bits),
            bits_from(w as nat, bits) <= 32,
        decreases 32 - w,
    {
        proof {
            lemma_shl_one(w as u32);
            lemma_pow2_pos(w as nat);
        }
        w = w + 1;
    }
    proof {
        if w < 32 {
            lemma_shl_one(w as u32);
        }
    }
    w
}

/// A single three-state bit.
#[derive(Clone, Copy, PartialEq, Eq, Debug, Structural)]
pub enum Bit {
    Zero,
    One,
    /// Unknown / driver conflict.
    X,
}

impl Bit {
    pub fn from_bool(b: bool) -> (r: Bit)
        ensures
            r == (if b { Bit::One } else { Bit::Zero }),
    {
        if b {
            Bit::One
        } else {
            Bit::Zero
        }
    }

    /// An unknown bit reads as 0.
    pub fn as_bool(self) -> (r: bool)
        ensures
            r == (self == Bit::One),
    {
        match self {
            Bit::One => true,
            _ => false,
        }
    }
}

/// Whether bit `k` of `v` is set.
pub open spec fn bit_set(v: u32, k: u32) -> bool {
    (v >> k) & 1u32 == 1u32
}

/// The value on a pin or a net: `val` holds the bits, `unk` marks the
/// unknown ones.  An unconnected net reads as all zeros.
#[derive(Clone, Copy, PartialEq, Eq, Debug, Hash, Structural)]
pub struct NetValue {
    pub val: u32,
    pub unk: u32,
}

/// Merge of two drivers of the same net at width `w`: bits that both
/// drive as known but with opposite values become unknown (value 0).
pub open spec fn merged(a: NetValue, b: NetValue, w: u8) -> NetValue {
    let m = mask(w);
    let both_known = !(a.unk | b.unk) & m;
    let conflict = both_known & (a.val ^ b.val);
    NetValue { val: (a.val | b.val) & m & !conflict, unk: (a.unk | b.unk | conflict) & m }
}

impl NetValue {
    /// The all-zero value (what an unconnected net reads).
    pub fn zero() -> (r: Self)
        ensures
            r.val == 0,
            r.unk == 0,
    {
        NetValue { val: 0, unk: 0 }
    }

    /// The known value 1.
    pub fn one() -> (r: Self)
        ensures
            r.val == 1,
            r.unk == 0,
    {
        NetValue { val: 1, unk: 0 }
    }

    /// The three-state value of bit `i` (taken modulo 32).
    pub open spec fn bit_at(self, i: u8) -> Bit {
        let k = (i % 32) as u32;
        if bit_set(self.unk, k) {
            Bit::X
        } else if bit_set(self.val, k) {
            Bit::One
        } else {
            Bit::Zero
        }
    }

    pub fn new(val: u32, unk: u32) -> (r: Self)
        ensures
            r.val == val,
            r.unk == unk,
    {
        NetValue { val, unk }
    }

    /// A known value, cut to `w` bits.
    pub fn from_u32(v: u32, w: Width) -> (r: Self)
        ensures
            r.val == low(v, w),
            r.unk == 0,
    {
        proof {
            lemma_and_mask(v, w);
        }
        NetValue { val: v & width_mask(w), unk: 0 }
    }

    pub fn from_bit(b: bool) -> (r: Self)
        ensures
            r.val == (if b { 1u32 } else { 0u32 }),
            r.unk == 0,
    {
        if b {
            NetValue { val: 1, unk: 0 }
        } else {
            NetValue { val: 0, unk: 0 }
        }
    }

    /// All `w` bits one.
    pub fn all_ones(w: Width) -> (r: Self)
        ensures
            r.val == mask(w),
            r.unk == 0,
    {
        NetValue { val: width_mask(w), unk: 0 }
    }

    /// All `w` bits unknown.
    pub fn all_unknown(w: Width) -> (r: Self)
        ensures
            r.val == 0,
            r.unk == mask(w),
    {
        NetValue { val: 0, unk: width_mask(w) }
    }

    /// Cut both the value and the unknown mask to `w` bits.
    pub fn with_width(self, w: Width) -> (r: Self)
        ensures
            r.val == low(self.val, w),
            r.unk == low(self.unk, w),
    {
        proof {
            lemma_and_mask(self.val, w);
            lemma_and_mask(self.unk, w);
        }
        let m = width_mask(w);
        NetValue { val: self.val & m, unk: self.unk & m }
    }

    pub fn is_zero(self) -> (r: bool)
        ensures
            r == (self.val == 0 && self.unk == 0),
    {
        self.val == 0 && self.unk == 0
    }

    pub fn has_unknown(self) -> (r: bool)
        ensures
            r == (self.unk != 0),
    {
        self.unk != 0
    }

    /// The unsigned value of the low `w` bits (unknown bits read as their value bit).
    pub fn get(self, w: Width) -> (r: u32)
        ensures
            r == low(self.val, w),
    {
        proof {
            lemma_and_mask(self.val, w);
        }
        self.val & width_mask(w)
    }

    /// Bit `i` (modulo 32) as a three-state bit.
    pub fn bit(self, i: u8) -> (r: Bit)
        ensures
            r == self.bit_at(i),
    {
        let k = (i & 31) as u32;
        assert(i & 31 == i % 32) by (bit_vector);
        let m = 1u32 << k;
        let u = self.unk;
        let v = self.val;
        assert(u & m != 0 <==> (u >> k) & 1u32 == 1u32) by (bit_vector)
            requires
                m == 1u32 << k,
                k < 32,
        ;
        assert(v & m != 0 <==> (v >> k) & 1u32 == 1u32) by (bit_vector)
            requires
                m == 1u32 << k,
                k < 32,
        ;
        if self.unk & m != 0 {
            Bit::X
        } else if self.val & m != 0 {
            Bit::One
        } else {
            Bit::Zero
        }
    }

    /// Whether the two values differ in any of the low `w` bits
    /// (in value or in knownness).
    pub fn differs(self, other: NetValue, w: Width) -> (r: bool)
        ensures
            r == (low(self.val ^ other.val, w) != 0 || low(self.unk ^ other.unk, w) != 0),
    {
        let m = width_mask(w);
        proof {
            lemma_and_mask(self.val ^ other.val, w);
            lemma_and_mask(self.unk ^ other.unk, w);
        }
        let a = self.val ^ other.val;
        let b = self.unk ^ other.unk;
        assert(((a | b) & m != 0) == ((a & m) != 0 || (b & m) != 0)) by (bit_vector);
        ((self.val ^ other.val) | (self.unk ^ other.unk)) & m != 0
    }
}

/// Merge two drivers of one net (multi-driver / tri-state bus).
pub fn merge_drivers(a: NetValue, b: NetValue, w: Width) -> (r: NetValue)
    ensures
        r == merged(a, b, w),
{
    let m = width_mask(w);
    let both_known = !(a.unk | b.unk) & m;
    let conflict = both_known & (a.val ^ b.val);
    NetValue { val: (a.val | b.val) & m & !conflict, unk: (a.unk | b.unk | conflict) & m }
}

/// Merge `src` into `acc` in place.
pub fn merge_into(acc: &mut NetValue, src: NetValue, w: Width)
    ensures
        *final(acc) == merged(*old(acc), src, w),
{
    let m = width_mask(w);
    let both_known = !(acc.unk | src.unk) & m;
    let conflict = both_known & (acc.val ^ src.val);
    acc.val = (acc.val | src.val) & m & !conflict;
    acc.unk = (acc.unk | src.unk | conflict) & m;
}

/// Merging is symmetric in its two drivers.
pub proof fn lemma_merge_commutes(a: NetValue, b: NetValue, w: u8)
    ensures
        merged(a, b, w) == merged(b, a, w),
{
    let m = mask(w);
    let (av, au, bv, bu) = (a.val, a.unk, b.val, b.unk);
    assert((av | bv) & m & !(!(au | bu) & m & (av ^ bv)) == (bv | av) & m & !(!(bu | au) & m & (
    bv ^ av))) by (bit_vector);
    assert((au | bu | (!(au | bu) & m & (av ^ bv))) & m == (bu | au | (!(bu | au) & m & (bv ^ av)))
        & m) by (bit_vector);
}

/// A driver merged with an identical driver yields itself (cut to width):
/// equal values never conflict.
pub proof fn lemma_merge_same_is_identity(a: NetValue, w: u8)
    ensures
        merged(a, a, w).val == a.val & mask(w),
        merged(a, a, w).unk == a.unk & mask(w),
{
    let m = mask(w);
    let (av, au) = (a.val, a.unk);
    assert((av | av) & m & !(!(au | au) & m & (av ^ av)) == av & m) by (bit_vector);
    assert((au | au | (!(au | au) & m & (av ^ av))) & m == au & m) by (bit_vector);
}

// ---------------------------------------------------------------------------
// Wrapping arithmetic
// ---------------------------------------------------------------------------

/// Unsigned add with carry in; the carry out is bit `w` of the full sum
/// (always 0 above 32 bits, where the sum cannot reach bit `w`).
pub open spec fn add_spec(a: u32, b: u32, cin: u32, w: u8) -> (u32, u32) {
    let t = (low(a, w) + low(b, w) + cin % 2) as nat;
    ((t % span(w)) as u32, if w <= 32 && t >= span(w) { 1u32 } else { 0u32 })
}

/// Unsigned subtract with borrow in; the borrow out is set when the
/// difference is negative.
pub open spec fn sub_spec(a: u32, b: u32, bin: u32, w: u8) -> (u32, u32) {
    let d = low(a, w) - low(b, w) - bin % 2;
    ((d % (span(w) as int)) as u32, if d < 0 { 1u32 } else { 0u32 })
}

/// Two's-complement reading of the low `w` bits.
pub open spec fn signed_spec(v: u32, w: u8) -> int {
    let x = low(v, w) as int;
    if x >= span(w) / 2 { x - span(w) } else { x }
}

/// Unsigned add, returns (sum, carry).
pub fn add_wrap(a: u32, b: u32, cin: u32, w: Width) -> (r: (u32, u32))
    ensures
        r == add_spec(a, b, cin, w),
{
    let m = width_mask(w);
    proof {
        lemma_and_mask(a, w);
        lemma_and_mask(b, w);
        lemma_span_bounds(w);
    }
    assert(cin & 1 == cin % 2) by (bit_vector);
    let s: u64 = (a & m) as u64 + (b & m) as u64 + (cin & 1) as u64;
    let sp: u64 = m as u64 + 1;
    let sum = (s % sp) as u32;
    let carry: u32 = if w <= 32 && s >= sp { 1 } else { 0 };
    (sum, carry)
}

/// Unsigned subtract, returns (difference, borrow).
pub fn sub_wrap(a: u32, b: u32, bin: u32, w: Width) -> (r: (u32, u32))
    ensures
        r == sub_spec(a, b, bin, w),
{
    let m = width_mask(w);
    proof {
        lemma_and_mask(a, w);
        lemma_and_mask(b, w);
        lemma_span_bounds(w);
    }
    assert(bin & 1 == bin % 2) by (bit_vector);
    let x = (a & m) as u64;
    let y = (b & m) as u64 + (bin & 1) as u64;
    let sp: u64 = m as u64 + 1;
    if x >= y {
        proof {
            vstd::arithmetic::div_mod::lemma_small_mod((x - y) as nat, sp as nat);
        }
        ((x - y) as u32, 0)
    } else {
        let d = (sp + x - y) as u32;
        proof {
            let di = x - y;
            vstd::arithmetic::div_mod::lemma_fundamental_div_mod_converse(
                di as int,
                sp as int,
                -1,
                (sp + x - y) as int,
            );
        }
        (d, 1)
    }
}

/// Floor division of a negative number by a positive one, via a
/// division of non-negative numbers.
pub proof fn lemma_floor_div_neg(si: int, pp: int)
    requires
        si < 0,
        pp > 0,
    ensures
        si / pp == -((-si + pp - 1) / pp),
{
    let n = -si;
    let c = (n + pp - 1) / pp;
    let rr = (n + pp - 1) % pp;
    vstd::arithmetic::div_mod::lemma_fundamental_div_mod(n + pp - 1, pp);
    vstd::arithmetic::mul::lemma_mul_unary_negation(c, pp);
    vstd::arithmetic::div_mod::lemma_fundamental_div_mod_converse(si, pp, -c, pp - 1 - rr);
}

/// Euclidean remainder of a negative number, via the remainder of its negation.
pub proof fn lemma_mod_neg(q: int, sp: int)
    requires
        q < 0,
        sp > 0,
    ensures
        q % sp == (if (-q) % sp == 0 { 0 } else { sp - (-q) % sp }),
{
    let n = -q;
    let k = n / sp;
    let t = n % sp;
    vstd::arithmetic::div_mod::lemma_fundamental_div_mod(n, sp);
    vstd::arithmetic::mul::lemma_mul_unary_negation(k, sp);
    if t == 0 {
        vstd::arithmetic::div_mod::lemma_fundamental_div_mod_converse(q, sp, -k, 0);
    } else {
        vstd::arithmetic::mul::lemma_mul_is_distributive_add_other_way(sp, -k, -1);
        vstd::arithmetic::div_mod::lemma_fundamental_div_mod_converse(q, sp, -k - 1, sp - t);
    }
}

/// Unsigned multiply, low `w` bits of the product.
pub fn mul_wrap(a: u32, b: u32, w: Width) -> (r: u32)
    ensures
        r as nat == (low(a, w) as nat * low(b, w) as nat) % span(w),
        r == mul_spec(a, b, w),
{
    let m = width_mask(w);
    proof {
        lemma_and_mask(a, w);
        lemma_and_mask(b, w);
        lemma_span_bounds(w);
    }
    let x = (a & m) as u64;
    let y = (b & m) as u64;
    assert(x * y <= 0xFFFF_FFFFu64 * 0xFFFF_FFFFu64) by (nonlinear_arith)
        requires
            x <= 0xFFFF_FFFFu64,
            y <= 0xFFFF_FFFFu64,
    ;
    let sp: u64 = m as u64 + 1;
    ((x * y) % sp) as u32
}

/// Sign-extend the low `w` bits.
pub fn to_signed(v: u32, w: Width) -> (r: i64)
    ensures
        r as int == signed_spec(v, w),
{
    let m = width_mask(w);
    proof {
        lemma_and_mask(v, w);
        lemma_span_bounds(w);
    }
    let x = (v & m) as i64;
    let half: i64 = (m as i64 + 1) / 2;
    if x >= half {
        x - m as i64 - 1
    } else {
        x
    }
}

/// Logical shift right of the low `w` bits.
pub open spec fn shr_spec(v: u32, sh: u32, w: u8) -> u32 {
    (if sh >= w { 0 } else { low(v, w) as nat / pow2(sh as nat) }) as u32
}

/// Shift left of the low `w` bits, dropping the bits that leave the width.
pub open spec fn shl_spec(v: u32, sh: u32, w: u8) -> u32 {
    (if sh >= w { 0 } else { (low(v, w) as nat * pow2(sh as nat)) % span(w) }) as u32
}

/// Arithmetic shift right: the two's-complement reading of the low `w`
/// bits, floor-divided by `2^sh`, cut back to `w` bits.
pub open spec fn sar_spec(v: u32, sh: u32, w: u8) -> u32 {
    (if sh >= w {
        if signed_spec(v, w) < 0 { mask(w) as int } else { 0 }
    } else {
        (signed_spec(v, w) / pow2(sh as nat) as int) % (span(w) as int)
    }) as u32
}

/// Low `w` bits of the product.
pub open spec fn mul_spec(a: u32, b: u32, w: u8) -> u32 {
    ((low(a, w) as nat * low(b, w) as nat) % span(w)) as u32
}

/// Logical shift right of the low `w` bits.
pub fn shr(v: u32, sh: u32, w: Width) -> (r: u32)
    ensures
        r as nat == (if sh >= w { 0 } else { low(v, w) as nat / pow2(sh as nat) }),
        r == shr_spec(v, sh, w),
{
    let m = width_mask(w);
    proof {
        lemma_and_mask(v, w);
        lemma_span_bounds(w);
    }
    if sh >= w as u32 {
        0
    } else if sh >= 32 {
        proof {
            lemma2_to64();
            if sh > 32 {
                vstd::arithmetic::power2::lemma_pow2_strictly_increases(32, sh as nat);
            }
            vstd::arithmetic::div_mod::lemma_basic_div((v & m) as int, pow2(sh as nat) as int);
        }
        0
    } else {
        proof {
            vstd::bits::lemma_u32_shr_is_div(v & m, sh);
        }
        (v & m) >> sh
    }
}

/// Shift left of the low `w` bits, dropping what leaves the width.
pub fn shl(v: u32, sh: u32, w: Width) -> (r: u32)
    ensures
        r as nat == (if sh >= w { 0 } else { (low(v, w) as nat * pow2(sh as nat)) % span(w) }),
        r == shl_spec(v, sh, w),
{
    let m = width_mask(w);
    proof {
        lemma_and_mask(v, w);
        lemma_span_bounds(w);
    }
    if sh >= w as u32 {
        0
    } else if sh >= 32 {
        proof {
            lemma2_to64();
            assert(span(w) == pow2(32));
            vstd::arithmetic::power2::lemma_pow2_adds(32, (sh - 32) as nat);
            vstd::arithmetic::mul::lemma_mul_is_associative(
                (v & m) as int,
                pow2((sh - 32) as nat) as int,
                pow2(32) as int,
            );
            vstd::arithmetic::div_mod::lemma_mod_multiples_basic(
                ((v & m) as int) * pow2((sh - 32) as nat) as int,
                pow2(32) as int,
            );
        }
        0
    } else {
        let x = (v & m) as u64;
        proof {
            lemma_shl_one(sh);
            lemma2_to64();
            if sh < 31 {
                lemma_pow2_strictly_increases(sh as nat, 31);
            }
        }
        let p: u64 = (1u32 << sh) as u64;
        assert(x * p <= 0xFFFF_FFFFu64 * 0x8000_0000u64) by (nonlinear_arith)
            requires
                x <= 0xFFFF_FFFFu64,
                p <= 0x8000_0000u64,
        ;
        let sp: u64 = m as u64 + 1;
        ((x * p) % sp) as u32
    }
}

/// Arithmetic shift right: the two's-complement reading of the low `w`
/// bits, floor-divided by `2^sh`, cut back to `w` bits.
pub fn sar(v: u32, sh: u32, w: Width) -> (r: u32)
    ensures
        r as int == (if sh >= w {
            if signed_spec(v, w) < 0 { mask(w) as int } else { 0 }
        } else {
            (signed_spec(v, w) / pow2(sh as nat) as int) % (span(w) as int)
        }),
        r == sar_spec(v, sh, w),
{
    let m = width_mask(w);
    proof {
        lemma_span_bounds(w);
        lemma2_to64();
    }
    let s = to_signed(v, w);
    if sh >= w as u32 {
        if s < 0 {
            m
        } else {
            0
        }
    } else {
        proof {
            lemma_pow2_pos(sh as nat);
            if sh > 32 {
                lemma_pow2_strictly_increases(32, sh as nat);
            }
            // |s| is below half the span, so at most 2^31
            assert(-0x8000_0000 <= s as int && s as int <= 0x7FFF_FFFF) by {
                lemma_and_mask(v, w);
                if w < 32 {
                    lemma_pow2_strictly_increases(w as nat, 32);
                }
            }
        }
        let sp: u64 = m as u64 + 1;
        // q = floor(s / 2^sh)
        let q: i64 = if sh >= 32 {
            proof {
                let pp = pow2(sh as nat) as int;
                let si = s as int;
                if si < 0 {
                    vstd::arithmetic::div_mod::lemma_fundamental_div_mod_converse(si, pp, -1, si + pp);
                } else {
                    vstd::arithmetic::div_mod::lemma_basic_div(si, pp);
                }
            }
            if s < 0 { -1 } else { 0 }
        } else {
            proof {
                lemma_shl_one(sh);
            }
            let p: i64 = (1u32 << sh) as i64;
            if s >= 0 {
                s / p
            } else {
                proof {
                    lemma_floor_div_neg(s as int, p as int);
                }
                -((-s + p - 1) / p)
            }
        };
        assert(q as int == (s as int) / pow2(sh as nat) as int);
        if q >= 0 {
            ((q as u64) % sp) as u32
        } else {
            let t: u64 = ((-q) as u64) % sp;
            proof {
                lemma_mod_neg(q as int, sp as int);
            }
            if t == 0 {
                0
            } else {
                (sp - t) as u32
            }
        }
    }
}

// ---------------------------------------------------------------------------
// Display
// ---------------------------------------------------------------------------

/// The character of a decimal digit.
pub open spec fn digit_char(d: nat) -> char {
    if d == 0 { '0' }
    else if d == 1 { '1' }
    else if d == 2 { '2' }
    else if d == 3 { '3' }
    else if d == 4 { '4' }
    else if d == 5 { '5' }
    else if d == 6 { '6' }
    else if d == 7 { '7' }
    else if d == 8 { '8' }
    else { '9' }
}

/// Decimal digits of a natural number, most significant first.
pub open spec fn decimal(n: nat) -> Seq<char>
    decreases n,
{
    if n < 10 {
        seq![digit_char(n)]
    } else {
        decimal(n / 10) + seq![digit_char(n % 10)]
    }
}

/// Decimal form of an integer, with a leading minus when negative.
pub open spec fn signed_decimal(n: int) -> Seq<char> {
    if n < 0 { seq!['-'] + decimal((-n) as nat) } else { decimal(n as nat) }
}

fn digit_str(d: u64) -> (s: &'static str)
    requires
        d < 10,
    ensures
        s@ == seq![digit_char(d as nat)],
{
    proof {
        reveal_strlit("0");
        reveal_strlit("1");
        reveal_strlit("2");
        reveal_strlit("3");
        reveal_strlit("4");
        reveal_strlit("5");
        reveal_strlit("6");
        reveal_strlit("7");
        reveal_strlit("8");
        reveal_strlit("9");
    }
    match d {
        0 => "0",
        1 => "1",
        2 => "2",
        3 => "3",
        4 => "4",
        5 => "5",
        6 => "6",
        7 => "7",
        8 => "8",
        _ => "9",
    }
}

/// Appends the decimal digits of `n`.
pub fn push_decimal(s: &mut String, n: u64)
    ensures
        final(s)@ == old(s)@ + decimal(n as nat),
    decreases n,
{
    if n < 10 {
        s.append(digit_str(n));
    } else {
        push_decimal(s, n / 10);
        s.append(digit_str(n % 10));
    }
}

/// The three-state character of a bit.
pub open spec fn bit_char(b: Bit) -> char {
    match b {
        Bit::Zero => '0',
        Bit::One => '1',
        Bit::X => 'x',
    }
}

/// The bit characters of bits `w-1` down to `k` (most significant first).
pub open spec fn bit_chars(v: NetValue, w: u8, k: nat) -> Seq<char>
    decreases w - k,
{
    if k >= w { seq![] } else { bit_chars(v, w, k + 1) + seq![bit_char(v.bit_at(k as u8))] }
}

/// How a value is shown: bit by bit when any bit is unknown, otherwise
/// as a number (signed or unsigned); a 1-bit value is "0" or "1".
pub open spec fn format_spec(v: NetValue, w: u8, signed: bool) -> Seq<char> {
    if low(v.unk, w) != 0 {
        bit_chars(v, w, 0)
    } else if w == 1 {
        if low(v.val, w) != 0 { seq!['1'] } else { seq!['0'] }
    } else if signed {
        signed_decimal(signed_spec(v.val, w))
    } else {
        decimal(low(v.val, w) as nat)
    }
}

/// Format a value by width and signedness.
pub fn format_value(v: NetValue, w: Width, signed: bool) -> (s: String)
    ensures
        s@ == format_spec(v, w, signed),
{
    proof {
        lemma_and_mask(v.unk, w);
        lemma_and_mask(v.val, w);
        reveal_strlit("0");
        reveal_strlit("1");
        reveal_strlit("x");
        reveal_strlit("-");
    }
    if v.unk & width_mask(w) != 0 {
        let mut s = String::new();
        let mut i: u8 = w;
        while i > 0
            invariant
                i <= w,
                s@ == bit_chars(v, w, i as nat),
            decreases i,
        {
            i = i - 1;
            let b = v.bit(i);
            let c = match b {
                Bit::Zero => "0",
                Bit::One => "1",
                Bit::X => "x",
            };
            proof {
                reveal_strlit("0");
                reveal_strlit("1");
                reveal_strlit("x");
            }
            assert(c@ == seq![bit_char(b)]);
            let ghost before = s@;
            s.append(c);
            assert(s@ == before + seq![bit_char(v.bit_at(i))]);
        }
        return s;
    }
    let raw = v.get(w);
    if w == 1 {
        return if raw != 0 { String::from_str("1") } else { String::from_str("0") };
    }
    let mut s = String::new();
    if signed {
        let x = to_signed(raw, w);
        proof {
            lemma_and_mask(raw, w);
            lemma_span_bounds(w);
            vstd::arithmetic::div_mod::lemma_mod_twice(v.val as int, span(w) as int);
        }
        assert(signed_spec(raw, w) == signed_spec(v.val, w));
        if x < 0 {
            s.append("-");
            push_decimal(&mut s, (-x) as u64);
        } else {
            push_decimal(&mut s, x as u64);
        }
    } else {
        push_decimal(&mut s, raw as u64);
    }
    s
}

} // verus!
