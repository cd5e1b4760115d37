//! A 256-bit unsigned integer held as two 128-bit halves.
//!
//! Every operation is specified over the mathematical value `x@ : nat`,
//! `x@ == x.hi * 2^128 + x.lo`.  Operations that would leave the range
//! `[0, 2^256)` require that they do not.
use vstd::prelude::*;
use vstd::arithmetic::div_mod::*;
use vstd::arithmetic::power2::*;

verus! {

/// `2^128`.
pub open spec fn pow128() -> nat {
    0x1_0000_0000_0000_0000_0000_0000_0000_0000nat
}

/// `2^127`.
pub open spec fn pow127() -> nat {
    0x8000_0000_0000_0000_0000_0000_0000_0000nat
}

/// `2^255`.
pub open spec fn pow255() -> nat {
    0x8000_0000_0000_0000_0000_0000_0000_0000_0000_0000_0000_0000_0000_0000_0000_0000nat
}

/// `2^256`.
pub open spec fn pow256() -> nat {
    0x1_0000_0000_0000_0000_0000_0000_0000_0000_0000_0000_0000_0000_0000_0000_0000_0000nat
}

/// `2^64`.
pub open spec fn pow64() -> nat {
    0x1_0000_0000_0000_0000nat
}

#[derive(Clone, Copy, Debug, PartialEq, Eq, Structural)]
pub struct U256 {
    pub hi: u128,
    pub lo: u128,
}

impl View for U256 {
    type V = nat;

    open spec fn view(&self) -> nat {
        self.hi as nat * pow128() + self.lo as nat
    }
}

/// Splitting a value at `2^128` gives its two halves back.
pub proof fn lemma_split(hi: nat, lo: nat)
    requires
        lo < pow128(),
    ensures
        (hi * pow128() + lo) / pow128() == hi,
        (hi * pow128() + lo) % pow128() == lo,
{
    lemma_fundamental_div_mod_converse((hi * pow128() + lo) as int, pow128() as int, hi as int, lo as int);
}

/// Every value lies below `2^256`, and two values are equal exactly when
/// their halves are.
pub proof fn lemma_value_facts(x: U256)
    ensures
        x@ < pow256(),
        x@ / pow128() == x.hi,
        x@ % pow128() == x.lo,
{
    lemma_split(x.hi as nat, x.lo as nat);
    assert(x.hi as nat * pow128() <= (pow128() - 1) * pow128()) by (nonlinear_arith)
        requires x.hi < pow128();
}

/// Two values with the same number are the same.
pub proof fn lemma_value_injective(x: U256, y: U256)
    requires
        x@ == y@,
    ensures
        x == y,
{
    lemma_value_facts(x);
    lemma_value_facts(y);
}

/// Comparing by halves compares the values.
pub proof fn lemma_order(x: U256, y: U256)
    ensures
        x@ < y@ <==> (x.hi < y.hi || (x.hi == y.hi && x.lo < y.lo)),
{
    if x.hi < y.hi {
        assert(x.hi as nat * pow128() + pow128() <= y.hi as nat * pow128()) by (nonlinear_arith)
            requires x.hi < y.hi;
    } else if x.hi > y.hi {
        assert(y.hi as nat * pow128() + pow128() <= x.hi as nat * pow128()) by (nonlinear_arith)
            requires y.hi < x.hi;
    }
}


/// The concrete powers of two that the long division relies on.
pub proof fn lemma_pow2_values()
    ensures
        pow2(0) == 1,
        pow2(64) == pow64(),
        pow2(128) == pow128(),
        pow2(255) == pow255(),
        pow2(256) == pow256(),
{
    lemma2_to64();
    lemma_pow2_adds(64, 64);
    assert(pow2(128) == pow64() * pow64());
    assert(pow64() * pow64() == pow128());
    lemma_pow2_adds(128, 128);
    assert(pow128() * pow128() == pow256());
    lemma_pow2_unfold(256);
}

/// One step of the numerator register: doubling `low * m` moves the top
/// bit of `low` (relative to `2 * h`) out at the top.
proof fn lemma_register_step(low: nat, h: nat, m: nat, reg: nat, top: nat, reg2: nat)
    requires
        h * m * 2 == pow256(),
        h > 0,
        low < 2 * h,
        reg == low * m,
        2 * reg == top * pow256() + reg2,
        reg2 < pow256(),
    ensures
        top == low / h,
        reg2 == (low % h) * (2 * m),
        low / h <= 1,
{
    lemma_fundamental_div_mod(low as int, h as int);
    let b = low / h;
    let l = low % h;
    assert(b <= 1) by (nonlinear_arith)
        requires low == h * b + l, l >= 0, low < 2 * h, h > 0, b >= 0;
    assert(2 * reg == b * pow256() + l * (2 * m)) by (nonlinear_arith)
        requires reg == low * m, low == h * b + l, h * m * 2 == pow256();
    assert(l * (2 * m) < pow256()) by (nonlinear_arith)
        requires l < h, h * m * 2 == pow256(), m >= 0, l >= 0;
    lemma_fundamental_div_mod_converse((2 * reg) as int, pow256() as int, top as int, reg2 as int);
    lemma_fundamental_div_mod_converse((2 * reg) as int, pow256() as int, b as int, (l * (2 * m)) as int);
}

/// One step of the remainder: appending a bit to `top = q * d + r`.
proof fn lemma_remainder_step(top: nat, q: nat, r: nat, d: nat, bit: nat)
    requires
        q * d + r == top,
        r < d,
        bit <= 1,
    ensures
        2 * top + bit == (2 * q) * d + (2 * r + bit),
        2 * r + bit >= d ==> 2 * top + bit == (2 * q + 1) * d + (2 * r + bit - d),
        2 * r + bit < 2 * d,
{
    assert(2 * top + bit == (2 * q) * d + (2 * r + bit)) by (nonlinear_arith)
        requires q * d + r == top;
    assert((2 * q + 1) * d == (2 * q) * d + d) by (nonlinear_arith);
}

/// A quotient never exceeds its numerator.
proof fn lemma_quotient_bound(q: nat, d: nat, r: nat, top: nat)
    requires
        q * d + r == top,
        d > 0,
    ensures
        q <= top,
{
    assert(q <= q * d) by (nonlinear_arith)
        requires d > 0;
}

/// One step of double-and-add multiplication.
proof fn lemma_mul_step(acc: nat, xs: nat, rem: nat, total: nat)
    requires
        acc + xs * rem == total,
        rem > 0,
    ensures
        rem % 2 == 1 ==> acc + xs + (xs * 2) * (rem / 2) == total,
        rem % 2 == 0 ==> acc + (xs * 2) * (rem / 2) == total,
        rem % 2 == 1 ==> acc + xs <= total,
        rem / 2 > 0 ==> xs * 2 <= total,
{
    lemma_fundamental_div_mod(rem as int, 2);
    let h = rem / 2;
    let b = rem % 2;
    assert(xs * rem == b * xs + xs * 2 * h) by (nonlinear_arith)
        requires rem == 2 * h + b;
    assert(b * xs <= xs * rem) by (nonlinear_arith)
        requires rem == 2 * h + b, b <= 1, h >= 0;
    assert(h > 0 ==> xs * 2 <= xs * rem) by (nonlinear_arith)
        requires rem == 2 * h + b, b >= 0;
    assert(xs * 2 * h == (xs * 2) * h);
}


/// `256^n`.
pub open spec fn pow_byte(n: nat) -> nat
    decreases n,
{
    if n == 0 {
        1
    } else {
        256 * pow_byte((n - 1) as nat)
    }
}

/// The number that a byte sequence spells, least significant byte first.
pub open spec fn le_value(s: Seq<u8>) -> nat
    decreases s.len(),
{
    if s.len() == 0 {
        0
    } else {
        (s[0] + 256 * le_value(s.drop_first())) as nat
    }
}

/// The number that a byte sequence spells, most significant byte first.
pub open spec fn be_value(s: Seq<u8>) -> nat
    decreases s.len(),
{
    if s.len() == 0 {
        0
    } else {
        (be_value(s.drop_last()) * 256 + s.last()) as nat
    }
}

pub proof fn lemma_pow_byte_values()
    ensures
        pow_byte(16) == pow128(),
        pow_byte(32) == pow256(),
{
    reveal_with_fuel(pow_byte, 33);
}

pub proof fn lemma_pow_byte_pos(n: nat)
    ensures
        pow_byte(n) > 0,
    decreases n,
{
    if n > 0 {
        lemma_pow_byte_pos((n - 1) as nat);
    }
}

/// `256^n` grows with `n`.
pub proof fn lemma_pow_byte_mono(a: nat, b: nat)
    requires
        a <= b,
    ensures
        pow_byte(a) <= pow_byte(b),
    decreases b,
{
    if a < b {
        lemma_pow_byte_mono(a, (b - 1) as nat);
        lemma_pow_byte_pos((b - 1) as nat);
    }
}

/// Appending a byte at the top of a little-endian sequence.
/// The `n` least significant bytes of `v`, least significant first.
pub open spec fn le_bytes_of(v: nat, n: nat) -> Seq<u8>
    decreases n,
{
    if n == 0 {
        Seq::empty()
    } else {
        seq![(v % 256) as u8] + le_bytes_of(v / 256, (n - 1) as nat)
    }
}

/// `le_bytes_of` spells `v` modulo `256^n` in `n` bytes.
pub proof fn lemma_le_bytes_of(v: nat, n: nat)
    ensures
        le_bytes_of(v, n).len() == n,
        le_value(le_bytes_of(v, n)) == v % pow_byte(n),
    decreases n,
{
    if n == 0 {
        assert(v % 1 == 0);
    } else {
        lemma_le_bytes_of(v / 256, (n - 1) as nat);
        let s = le_bytes_of(v, n);
        assert(s.drop_first() =~= le_bytes_of(v / 256, (n - 1) as nat));
        lemma_pow_byte_pos((n - 1) as nat);
        lemma_mod_breakdown(v as int, 256, pow_byte((n - 1) as nat) as int);
        assert(pow_byte(n) == 256 * pow_byte((n - 1) as nat));
    }
}

pub proof fn lemma_le_push(s: Seq<u8>, b: u8)
    ensures
        le_value(s.push(b)) == le_value(s) + b * pow_byte(s.len()),
    decreases s.len(),
{
    if s.len() == 0 {
        assert(s.push(b).drop_first() =~= Seq::<u8>::empty());
        assert(le_value(Seq::<u8>::empty()) == 0);
        assert(s.push(b)[0] == b);
        assert(le_value(s.push(b)) == b);
        assert(pow_byte(0) == 1);
        assert(b * pow_byte(0) == b) by (nonlinear_arith) requires pow_byte(0) == 1;
    } else {
        assert(s.push(b).drop_first() =~= s.drop_first().push(b));
        lemma_le_push(s.drop_first(), b);
        let n = s.len();
        assert(s.push(b)[0] == s[0]);
        assert(pow_byte(n) == 256 * pow_byte((n - 1) as nat));
        assert(256 * (le_value(s.drop_first()) + b * pow_byte((n - 1) as nat))
            == 256 * le_value(s.drop_first()) + b * (256 * pow_byte((n - 1) as nat))) by (nonlinear_arith);
    }
}

/// A byte sequence spells a number below `256^len`.
pub proof fn lemma_be_bound(s: Seq<u8>)
    ensures
        be_value(s) < pow_byte(s.len()),
    decreases s.len(),
{
    if s.len() > 0 {
        lemma_be_bound(s.drop_last());
        let n = s.len();
        assert(be_value(s.drop_last()) * 256 + s.last() < 256 * pow_byte((n - 1) as nat)) by (nonlinear_arith)
            requires be_value(s.drop_last()) < pow_byte((n - 1) as nat), s.last() < 256;
    }
}

/// A byte sequence spells a number below `256^len`.
pub proof fn lemma_le_bound(s: Seq<u8>)
    ensures
        le_value(s) < pow_byte(s.len()),
    decreases s.len(),
{
    if s.len() > 0 {
        lemma_le_bound(s.drop_first());
        let n = s.len();
        assert(s[0] + 256 * le_value(s.drop_first()) < 256 * pow_byte((n - 1) as nat)) by (nonlinear_arith)
            requires le_value(s.drop_first()) < pow_byte((n - 1) as nat), s[0] < 256;
    }
}

/// Two byte sequences of the same length spell the same little-endian
/// number only if they are equal.
pub proof fn lemma_le_injective(a: Seq<u8>, b: Seq<u8>)
    requires
        a.len() == b.len(),
        le_value(a) == le_value(b),
    ensures
        a == b,
    decreases a.len(),
{
    if a.len() > 0 {
        lemma_le_bound(a.drop_first());
        lemma_le_bound(b.drop_first());
        lemma_fundamental_div_mod_converse(le_value(a) as int, 256, le_value(a.drop_first()) as int, a[0] as int);
        lemma_fundamental_div_mod_converse(le_value(b) as int, 256, le_value(b.drop_first()) as int, b[0] as int);
        lemma_le_injective(a.drop_first(), b.drop_first());
        assert(a =~= b) by {
            assert forall|i: int| 0 <= i < a.len() implies a[i] == b[i] by {
                if i > 0 {
                    assert(a[i] == a.drop_first()[i - 1]);
                    assert(b[i] == b.drop_first()[i - 1]);
                }
            }
        }
    } else {
        assert(a =~= b);
    }
}

impl U256 {
    /// Builds the value `hi * 2^128 + lo`.
    pub fn from_halves(hi: u128, lo: u128) -> (r: U256)
        ensures
            r.hi == hi,
            r.lo == lo,
            r@ == hi * pow128() + lo,
    {
        U256 { hi, lo }
    }

    /// Builds a value from four 64-bit words, least significant first, as
    /// the `uint` crate's `U256([u64; 4])` lays them out.
    pub fn from_words(words: [u64; 4]) -> (r: U256)
        ensures
            r@ == words[0] + words[1] * pow64() + words[2] * pow128() + words[3] * pow64() * pow128(),
    {
        let lo: u128 = words[0] as u128 + (words[1] as u128) * 0x1_0000_0000_0000_0000u128;
        let hi: u128 = words[2] as u128 + (words[3] as u128) * 0x1_0000_0000_0000_0000u128;
        proof {
            assert(words[1] as u128 * 0x1_0000_0000_0000_0000u128 + words[0] <= pow128() - 1) by (nonlinear_arith)
                requires words[1] < pow64(), words[0] < pow64();
        }
        let r = U256 { hi, lo };
        assert(r@ == words[0] + words[1] * pow64() + words[2] * pow128() + words[3] * pow64() * pow128()) by (nonlinear_arith)
            requires
                r@ == hi * pow128() + lo,
                hi == words[2] + words[3] * pow64(),
                lo == words[0] + words[1] * pow64();
        r
    }

    /// Zero.
    pub fn zero() -> (r: U256)
        ensures
            r@ == 0,
    {
        U256 { hi: 0, lo: 0 }
    }

    /// The largest value, `2^256 - 1`.
    pub fn max_value() -> (r: U256)
        ensures
            r@ == pow256() - 1,
    {
        U256 { hi: u128::MAX, lo: u128::MAX }
    }

    /// A value from a `u64`.
    pub fn from_u64(v: u64) -> (r: U256)
        ensures
            r@ == v,
    {
        U256 { hi: 0, lo: v as u128 }
    }

    /// Whether the value is zero.
    pub fn is_zero(&self) -> (b: bool)
        ensures
            b == (self@ == 0),
    {
        proof { lemma_value_facts(*self); }
        self.hi == 0 && self.lo == 0
    }

    /// `self < other`.
    pub fn lt(&self, other: &U256) -> (b: bool)
        ensures
            b == (self@ < other@),
    {
        proof { lemma_order(*self, *other); }
        self.hi < other.hi || (self.hi == other.hi && self.lo < other.lo)
    }

    /// `self <= other`.
    pub fn le(&self, other: &U256) -> (b: bool)
        ensures
            b == (self@ <= other@),
    {
        proof { lemma_order(*other, *self); }
        !other.lt(self)
    }

    /// `self == other` by value.
    pub fn eq_value(&self, other: &U256) -> (b: bool)
        ensures
            b == (self@ == other@),
            b == (*self == *other),
    {
        proof {
            lemma_value_facts(*self);
            lemma_value_facts(*other);
        }
        self.hi == other.hi && self.lo == other.lo
    }

    /// The smaller of two values.
    pub fn min(self, other: U256) -> (r: U256)
        ensures
            r@ == if self@ <= other@ { self@ } else { other@ },
    {
        if self.le(&other) { self } else { other }
    }

    /// `self + other`, which must not reach `2^256` (past it the value
    /// does not fit).
    pub fn add(&self, other: &U256) -> (r: U256)
        requires
            self@ + other@ < pow256(),
        ensures
            r@ == self@ + other@,
    {
        let (lo, carry) = if self.lo <= u128::MAX - other.lo {
            (self.lo + other.lo, 0u128)
        } else {
            (self.lo - (u128::MAX - other.lo) - 1, 1u128)
        };
        assert(lo + carry * pow128() == self.lo + other.lo);
        proof {
            lemma_value_facts(*self);
            lemma_value_facts(*other);
            if self.hi as nat + other.hi as nat + carry >= pow128() {
                assert((self.hi + other.hi + carry) * pow128() >= pow128() * pow128()) by (nonlinear_arith)
                    requires self.hi + other.hi + carry >= pow128();
                assert(false);
            }
        }
        let hi = self.hi + other.hi + carry;
        let r = U256 { hi, lo };
        assert(r@ == self@ + other@) by (nonlinear_arith)
            requires
                r@ == hi * pow128() + lo,
                hi == self.hi + other.hi + carry,
                lo + carry * pow128() == self.lo + other.lo,
                self@ == self.hi * pow128() + self.lo,
                other@ == other.hi * pow128() + other.lo;
        r
    }

    /// `self + other`, or `None` where the sum reaches `2^256`.
    pub fn checked_add(&self, other: &U256) -> (r: Option<U256>)
        ensures
            r matches Some(v) ==> v@ == self@ + other@,
            r is None <==> self@ + other@ >= pow256(),
    {
        let not_max = U256 { hi: u128::MAX - other.hi, lo: u128::MAX - other.lo };
        proof {
            lemma_value_facts(*other);
            assert(not_max@ == pow256() - 1 - other@) by (nonlinear_arith)
                requires
                    not_max@ == (pow128() - 1 - other.hi) * pow128() + (pow128() - 1 - other.lo),
                    other@ == other.hi * pow128() + other.lo,
                    pow256() == pow128() * pow128();
        }
        if self.le(&not_max) {
            Some(self.add(other))
        } else {
            None
        }
    }

    /// `self - other`, which must not go below zero (there is no
    /// negative value).
    pub fn sub(&self, other: &U256) -> (r: U256)
        requires
            other@ <= self@,
        ensures
            r@ == self@ - other@,
    {
        proof {
            lemma_order(*self, *other);
        }
        let (lo, borrow) = if self.lo >= other.lo {
            (self.lo - other.lo, 0u128)
        } else {
            (u128::MAX - (other.lo - self.lo) + 1, 1u128)
        };
        assert(lo == self.lo - other.lo + borrow * pow128());
        let hi = self.hi - other.hi - borrow;
        let r = U256 { hi, lo };
        assert(r@ == self@ - other@) by (nonlinear_arith)
            requires
                r@ == hi * pow128() + lo,
                hi == self.hi - other.hi - borrow,
                lo == self.lo - other.lo + borrow * pow128(),
                self@ == self.hi * pow128() + self.lo,
                other@ == other.hi * pow128() + other.lo;
        r
    }

    /// `(self - other) mod 2^256`.
    pub fn wrapping_sub(&self, other: &U256) -> (r: U256)
        ensures
            r@ == if other@ <= self@ { self@ - other@ } else { self@ + pow256() - other@ },
    {
        if other.le(self) {
            self.sub(other)
        } else {
            let m = U256::max_value();
            proof { lemma_value_facts(*other); }
            let t = m.sub(other);
            proof { lemma_value_facts(*self); }
            let s = t.add(self);
            s.add(&U256::from_u64(1))
        }
    }


    /// `self * m`, which must stay below `2^256` (past it the value does
    /// not fit).
    pub fn mul_u64(&self, m: u64) -> (r: U256)
        requires
            self@ * m < pow256(),
        ensures
            r@ == self@ * m,
    {
        let mut acc = U256::zero();
        let mut xs = *self;
        let mut rem = m;
        while rem > 0
            invariant
                acc@ + xs@ * rem == self@ * m,
                self@ * m < pow256(),
            decreases rem,
        {
            let ghost old_acc = acc@;
            let ghost old_xs = xs@;
            let ghost old_rem = rem as nat;
            proof { lemma_mul_step(acc@, xs@, rem as nat, (self@ * m) as nat); }
            if rem % 2 == 1 {
                acc = acc.add(&xs);
            }
            rem = rem / 2;
            assert(rem == old_rem / 2);
            assert(acc@ + (old_xs * 2) * rem == self@ * m);
            if rem > 0 {
                let (top, doubled) = xs.shl1();
                proof {
                    if top > 0 {
                        assert(top * pow256() >= pow256()) by (nonlinear_arith) requires top > 0;
                    }
                    assert(top == 0);
                    assert(doubled@ == old_xs * 2);
                }
                xs = doubled;
            } else {
                assert((old_xs * 2) * rem == 0) by (nonlinear_arith) requires rem == 0;
            }
        }
        acc
    }

    /// Quotient and remainder of `self / d` for `d > 0` (there is no
    /// quotient by zero), by binary long division.
    pub fn div_rem(&self, d: &U256) -> (res: (U256, U256))
        requires
            d@ > 0,
        ensures
            res.0@ == self@ / d@,
            res.1@ == self@ % d@,
    {
        let mut q = U256::zero();
        let mut r = U256::zero();
        let mut reg = *self;
        let ghost mut top: nat = 0;
        let ghost mut low: nat = self@;
        let ghost mut p: nat = pow256();
        let ghost mut m: nat = 1;
        proof {
            lemma_pow2_values();
            lemma_value_facts(*self);
            lemma_value_facts(*d);
        }
        let mut k: u32 = 0;
        while k < 256
            invariant
                k <= 256,
                d@ > 0,
                d@ < pow256(),
                p == pow2((256 - k) as nat),
                m == pow2(k as nat),
                p * m == pow256(),
                top * p + low == self@,
                low < p,
                reg@ == low * m,
                q@ * d@ + r@ == top,
                r@ < d@,
            decreases 256 - k,
        {
            let ghost h: nat = pow2((255 - k) as nat);
            proof {
                lemma_pow2_unfold((256 - k) as nat);
                lemma_pow2_unfold((k + 1) as nat);
                assert(p == 2 * h);
                assert(h * m * 2 == pow256()) by (nonlinear_arith)
                    requires p == 2 * h, p * m == pow256();
                if k < 255 {
                    lemma_pow2_strictly_increases(k as nat, 255);
                }
                lemma_pow2_values();
                assert(h > 0) by (nonlinear_arith) requires h * m * 2 == pow256();
            }
            let (bit, reg2) = reg.shl1();
            proof {
                lemma_value_facts(reg2);
                lemma_register_step(low, h, m, reg@, bit as nat, reg2@);
                lemma_remainder_step(top, q@, r@, d@, bit as nat);
                // the quotient so far stays below 2^255, so doubling it fits
                assert(top < m) by (nonlinear_arith)
                    requires top * p + low == self@, self@ < pow256(), p * m == pow256(), p > 0;
                lemma_quotient_bound(q@, d@, r@, top);
            }
            let (carry, r2) = r.shl1();
            proof {
                lemma_value_facts(r2);
                lemma_value_facts(r);
                if carry > 0 {
                    assert(r@ >= pow255());
                }
            }
            let r3 = r2.add(&U256::from_u64(bit as u64));
            let (qcarry, q2) = q.shl1();
            proof {
                lemma_value_facts(q2);
                assert(qcarry == 0);
            }
            if carry == 1 || d.le(&r3) {
                r = r3.wrapping_sub(d);
                q = q2.add(&U256::from_u64(1));
            } else {
                r = r3;
                q = q2;
            }
            proof {
                let t0 = top;
                let l0 = low;
                lemma_fundamental_div_mod(l0 as int, h as int);
                top = 2 * t0 + bit as nat;
                low = l0 % h;
                assert(top * h + low == self@) by (nonlinear_arith)
                    requires
                        t0 * (2 * h) + l0 == self@,
                        l0 == h * (l0 / h) + l0 % h,
                        bit == l0 / h,
                        top == 2 * t0 + bit,
                        low == l0 % h;
                p = h;
                m = 2 * m;
                assert(p * m == pow256()) by (nonlinear_arith)
                    requires p * (m / 2) * 2 == pow256(), m == 2 * (m / 2);
                assert(m == pow2((k + 1) as nat));
                assert(reg2@ == low * m);
                assert(p == pow2((256 - (k + 1)) as nat));
            }
            reg = reg2;
            k = k + 1;
        }
        proof {
            lemma_pow2_values();
            assert(p == 1);
            assert(low == 0);
            assert(top * p == top) by (nonlinear_arith) requires p == 1;
            assert(top == self@);
            lemma_fundamental_div_mod_converse(self@ as int, d@ as int, q@ as int, r@ as int);
        }
        (q, r)
    }

    /// `self / d` for `d > 0`.
    pub fn div(&self, d: &U256) -> (r: U256)
        requires
            d@ > 0,
        ensures
            r@ == self@ / d@,
    {
        self.div_rem(d).0
    }


    /// The value as 32 bytes, least significant first (what
    /// `to_little_endian` gives).
    pub fn to_le_bytes(&self) -> (out: [u8; 32])
        ensures
            le_value(out@) == self@,
    {
        let mut out = [0u8; 32];
        let mut rest: u128 = self.lo;
        let mut i: usize = 0;
        proof {
            lemma_pow_byte_values();
            assert(pow_byte(0) == 1);
            assert(rest * pow_byte(0) == rest);
            assert(le_value(out@.subrange(0, 0)) == 0);
        }
        while i < 16
            invariant
                i <= 16,
                out@.len() == 32,
                self.lo == le_value(out@.subrange(0, i as int)) + rest * pow_byte(i as nat),
                rest * pow_byte(i as nat) < pow128(),
                pow_byte(16) == pow128(),
            decreases 16 - i,
        {
            let b = (rest % 256) as u8;
            let ghost prefix = out@.subrange(0, i as int);
            out[i] = b;
            proof {
                assert(out@.subrange(0, i + 1) =~= prefix.push(b));
                lemma_le_push(prefix, b);
                lemma_fundamental_div_mod(rest as int, 256);
                assert(rest * pow_byte(i as nat) == b * pow_byte(i as nat) + (rest / 256) * pow_byte((i + 1) as nat)) by (nonlinear_arith)
                    requires rest == 256 * (rest / 256) + b, pow_byte((i + 1) as nat) == 256 * pow_byte(i as nat);
            }
            rest = rest / 256;
            i = i + 1;
        }
        proof {
            lemma_pow_byte_pos(16);
            assert(rest == 0) by (nonlinear_arith)
                requires rest * pow_byte(16) < pow128(), pow_byte(16) == pow128();
        }
        rest = self.hi;
        while i < 32
            invariant
                16 <= i <= 32,
                out@.len() == 32,
                self@ == le_value(out@.subrange(0, i as int)) + rest * pow_byte(i as nat),
            decreases 32 - i,
        {
            let b = (rest % 256) as u8;
            let ghost prefix = out@.subrange(0, i as int);
            out[i] = b;
            proof {
                assert(out@.subrange(0, i + 1) =~= prefix.push(b));
                lemma_le_push(prefix, b);
                lemma_fundamental_div_mod(rest as int, 256);
                assert(rest * pow_byte(i as nat) == b * pow_byte(i as nat) + (rest / 256) * pow_byte((i + 1) as nat)) by (nonlinear_arith)
                    requires rest == 256 * (rest / 256) + b, pow_byte((i + 1) as nat) == 256 * pow_byte(i as nat);
            }
            rest = rest / 256;
            i = i + 1;
        }
        proof {
            lemma_value_facts(*self);
            lemma_le_bound(out@);
            lemma_pow_byte_values();
            assert(rest == 0) by (nonlinear_arith)
                requires self@ == le_value(out@.subrange(0, 32)) + rest * pow_byte(32),
                    self@ < pow256(), pow_byte(32) == pow256();
            assert(out@.subrange(0, 32) =~= out@);
        }
        out
    }

    /// The value that 32 bytes spell, least significant first (the inverse
    /// of `to_le_bytes`).
    pub fn from_le_bytes(bytes: &[u8; 32]) -> (r: U256)
        ensures
            r@ == le_value(bytes@),
    {
        let mut acc = U256::zero();
        let mut i: usize = 32;
        proof { lemma_pow_byte_values(); }
        while i > 0
            invariant
                i <= 32,
                bytes@.len() == 32,
                acc@ == le_value(bytes@.subrange(i as int, 32)),
                pow_byte(32) == pow256(),
            decreases i,
        {
            i = i - 1;
            proof {
                let tail = bytes@.subrange(i as int, 32);
                assert(tail.drop_first() =~= bytes@.subrange(i + 1, 32));
                lemma_le_bound(tail);
                lemma_le_bound(bytes@.subrange(i + 1, 32));
                if i > 0 {
                    lemma_pow_byte_mono((32 - i) as nat, 32);
                }
                assert(acc@ * 256 < pow256()) by (nonlinear_arith)
                    requires acc@ < pow_byte((31 - i) as nat), pow_byte((32 - i) as nat) == 256 * pow_byte((31 - i) as nat),
                        pow_byte((32 - i) as nat) <= pow256();
            }
            let shifted = acc.mul_u64(256);
            acc = shifted.add(&U256::from_u64(bytes[i] as u64));
        }
        proof { assert(bytes@.subrange(0, 32) =~= bytes@); }
        acc
    }

    /// The value that 32 bytes spell, most significant first (as
    /// `From<[u8; 32]>` reads them).
    pub fn from_be_bytes(bytes: &[u8; 32]) -> (r: U256)
        ensures
            r@ == be_value(bytes@),
    {
        let mut acc = U256::zero();
        let mut i: usize = 0;
        proof { lemma_pow_byte_values(); }
        while i < 32
            invariant
                i <= 32,
                bytes@.len() == 32,
                acc@ == be_value(bytes@.subrange(0, i as int)),
                pow_byte(32) == pow256(),
            decreases 32 - i,
        {
            proof {
                let pre = bytes@.subrange(0, i + 1);
                assert(pre.drop_last() =~= bytes@.subrange(0, i as int));
                lemma_be_bound(pre);
                lemma_be_bound(bytes@.subrange(0, i as int));
                lemma_pow_byte_mono((i + 1) as nat, 32);
                assert(acc@ * 256 < pow256()) by (nonlinear_arith)
                    requires acc@ < pow_byte(i as nat), pow_byte((i + 1) as nat) == 256 * pow_byte(i as nat),
                        pow_byte((i + 1) as nat) <= pow256();
            }
            let shifted = acc.mul_u64(256);
            acc = shifted.add(&U256::from_u64(bytes[i] as u64));
            i = i + 1;
        }
        proof { assert(bytes@.subrange(0, 32) =~= bytes@); }
        acc
    }

    /// Doubles the value, returning the bit shifted out at the top and the
    /// remaining 256 bits: `2 * self@ == top * 2^256 + r@`.
    pub fn shl1(&self) -> (res: (u128, U256))
        ensures
            res.0 <= 1,
            2 * self@ == res.0 * pow256() + res.1@,
    {
        let top = self.hi / 0x8000_0000_0000_0000_0000_0000_0000_0000u128;
        let mid = self.lo / 0x8000_0000_0000_0000_0000_0000_0000_0000u128;
        let hi = (self.hi % 0x8000_0000_0000_0000_0000_0000_0000_0000u128) * 2 + mid;
        let lo = (self.lo % 0x8000_0000_0000_0000_0000_0000_0000_0000u128) * 2;
        proof {
            lemma_fundamental_div_mod(self.hi as int, pow127() as int);
            lemma_fundamental_div_mod(self.lo as int, pow127() as int);
        }
        let r = U256 { hi, lo };
        assert(2 * self@ == top * pow256() + r@) by (nonlinear_arith)
            requires
                self.hi == pow127() * top + (self.hi as nat) % pow127(),
                self.lo == pow127() * mid + (self.lo as nat) % pow127(),
                hi == ((self.hi as nat) % pow127()) * 2 + mid,
                lo == ((self.lo as nat) % pow127()) * 2,
                r@ == hi * pow128() + lo,
                self@ == self.hi * pow128() + self.lo,
                pow128() == 2 * pow127(),
                pow256() == pow128() * pow128();
        (top, r)
    }
}

} // verus!
