//! Numbers in the 64-bit binary floating point format, held by their bits.
//!
//! Coordinates, altitudes, speeds and distances pass through this library unchanged and are
//! only ever compared. A [`Double`] keeps the exact bits; the comparisons follow the order of
//! the format: two zeros are equal, and a value that is not a number compares with nothing.

use vstd::prelude::*;

verus! {

/// The sign bit.
pub const SIGN_BIT: u64 = 0x8000_0000_0000_0000;

/// The bits of positive infinity; larger magnitudes are not numbers.
pub const INFINITY_BITS: u64 = 0x7ff0_0000_0000_0000;

#[derive(Debug, Clone, Copy, PartialEq, Eq, Structural)]
pub struct Double {
    pub bits: u64,
}

impl Double {
    /// The bits without the sign: they grow with the distance from zero.
    pub open spec fn magnitude_bits(self) -> int {
        if self.bits >= SIGN_BIT {
            self.bits - SIGN_BIT
        } else {
            self.bits as int
        }
    }

    /// Whether the bits stand for a number (an infinity counts as one).
    pub open spec fn is_number(self) -> bool {
        self.magnitude_bits() <= INFINITY_BITS
    }

    /// The place of a number in the order of the format.
    pub open spec fn rank(self) -> int {
        if self.bits >= SIGN_BIT {
            -self.magnitude_bits()
        } else {
            self.magnitude_bits()
        }
    }

    /// `self < other`.
    pub open spec fn lt(self, other: Double) -> bool {
        self.is_number() && other.is_number() && self.rank() < other.rank()
    }

    /// `self <= other`.
    pub open spec fn le(self, other: Double) -> bool {
        self.is_number() && other.is_number() && self.rank() <= other.rank()
    }

    /// The number without its sign.
    pub open spec fn abs(self) -> Double {
        Double { bits: self.magnitude_bits() as u64 }
    }

    fn has_value(self) -> (r: bool)
        ensures
            r == self.is_number(),
    {
        if self.bits >= SIGN_BIT {
            self.bits - SIGN_BIT <= INFINITY_BITS
        } else {
            self.bits <= INFINITY_BITS
        }
    }

    fn order_key(self) -> (r: i128)
        ensures
            r == self.rank(),
    {
        if self.bits >= SIGN_BIT {
            -((self.bits - SIGN_BIT) as i128)
        } else {
            self.bits as i128
        }
    }

    /// Whether `self < other`.
    pub fn less(self, other: Double) -> (r: bool)
        ensures
            r == self.lt(other),
    {
        self.has_value() && other.has_value() && self.order_key() < other.order_key()
    }

    /// Whether `self <= other`.
    pub fn at_most(self, other: Double) -> (r: bool)
        ensures
            r == self.le(other),
    {
        self.has_value() && other.has_value() && self.order_key() <= other.order_key()
    }

    /// The number without its sign.
    pub fn size(self) -> (r: Double)
        ensures
            r == self.abs(),
    {
        if self.bits >= SIGN_BIT {
            Double { bits: self.bits - SIGN_BIT }
        } else {
            self
        }
    }
}

/// `n` halved `k` times, each time rounded down.
pub open spec fn halved(n: nat, k: nat) -> nat
    decreases k,
{
    if k == 0 {
        n
    } else {
        halved(n, (k - 1) as nat) / 2
    }
}

/// The exponent of the first number that an unsigned integer of 64 bits cannot hold.
pub const EXPONENT_BEYOND_U64: u64 = 1087;

/// The exponent of 1.0.
pub const EXPONENT_OF_ONE: u64 = 1023;

/// The weight of the hidden bit of a fraction.
pub const FRACTION_LIMIT: u64 = 0x10_0000_0000_0000;

impl Double {
    /// The whole part as an unsigned integer of 64 bits: 0 for what is negative, below 1 or not a
    /// number, and the largest integer for what is beyond it.
    pub open spec fn whole(self) -> nat {
        let exponent = self.bits as nat / FRACTION_LIMIT as nat;
        let fraction = self.bits as nat % FRACTION_LIMIT as nat;
        if self.bits >= SIGN_BIT || !self.is_number() || exponent < EXPONENT_OF_ONE {
            0
        } else if exponent >= EXPONENT_BEYOND_U64 {
            u64::MAX as nat
        } else {
            halved(
                (FRACTION_LIMIT + fraction) as nat * 2048,
                (EXPONENT_BEYOND_U64 - 1 - exponent) as nat,
            )
        }
    }

    /// The whole part as an unsigned integer of 64 bits.
    pub fn to_u64(self) -> (r: u64)
        ensures
            r == self.whole(),
    {
        let exponent: u64 = self.bits / FRACTION_LIMIT;
        let fraction: u64 = self.bits % FRACTION_LIMIT;
        if self.bits >= SIGN_BIT || !self.has_value() || exponent < EXPONENT_OF_ONE {
            return 0;
        }
        if exponent >= EXPONENT_BEYOND_U64 {
            return u64::MAX;
        }
        let full: u64 = (FRACTION_LIMIT + fraction) * 2048;
        let times: u64 = EXPONENT_BEYOND_U64 - 1 - exponent;
        let mut value: u64 = full;
        let mut k: u64 = 0;
        while k < times
            invariant
                0 <= k <= times,
                value == halved(full as nat, k as nat),
            decreases times - k,
        {
            value = value / 2;
            k += 1;
        }
        value
    }
}

/// The bits of 90.0, the largest latitude.
pub const NINETY_BITS: u64 = 0x4056_8000_0000_0000;

/// The bits of 180.0, the largest longitude.
pub const ONE_EIGHTY_BITS: u64 = 0x4066_8000_0000_0000;

/// Whether a latitude and a longitude in degrees name a point on the globe.
pub open spec fn on_globe(lat: Double, lon: Double) -> bool {
    &&& lat.abs().le(Double { bits: NINETY_BITS })
    &&& lon.abs().le(Double { bits: ONE_EIGHTY_BITS })
}

/// Whether a latitude and a longitude in degrees name a point on the globe.
pub fn is_on_globe(lat: Double, lon: Double) -> (r: bool)
    ensures
        r == on_globe(lat, lon),
{
    lat.size().at_most(Double { bits: NINETY_BITS }) && lon.size().at_most(
        Double { bits: ONE_EIGHTY_BITS },
    )
}

/// The order of numbers is total: of two numbers one is at most the other, and each is strictly
/// below the other exactly when the other is not at most it.
pub proof fn law_double_order_is_total(a: Double, b: Double)
    requires
        a.is_number(),
        b.is_number(),
    ensures
        a.le(b) || b.le(a),
        a.lt(b) <==> !b.le(a),
{
}

proof fn lemma_halved_grows(n: nat, m: nat, k: nat)
    requires
        n <= m,
    ensures
        halved(n, k) <= halved(m, k),
    decreases k,
{
    if k > 0 {
        lemma_halved_grows(n, m, (k - 1) as nat);
    }
}

proof fn lemma_halved_first(n: nat, k: nat)
    requires
        k > 0,
    ensures
        halved(n, k) == halved(n / 2, (k - 1) as nat),
    decreases k,
{
    if k > 1 {
        lemma_halved_first(n, (k - 1) as nat);
    } else {
        assert(halved(n, 0) == n);
        assert(halved(n / 2, 0) == n / 2);
    }
}

/// A smaller number that is halved more often stays smaller.
proof fn lemma_halved_crosses(n: nat, j: nat, m: nat, k: nat)
    requires
        n < 0x1_0000_0000_0000_0000,
        m >= 0x8000_0000_0000_0000,
        j > k,
    ensures
        halved(n, j) <= halved(m, k),
    decreases j,
{
    lemma_halved_first(n, j);
    if j == k + 1 {
        lemma_halved_grows(n / 2, m, k);
    } else {
        lemma_halved_crosses(n / 2, (j - 1) as nat, m, k);
    }
}

/// The whole part keeps the order of numbers that are not negative.
pub proof fn law_whole_part_keeps_order(x: Double, y: Double)
    requires
        x.bits < SIGN_BIT,
        y.bits < SIGN_BIT,
        x.le(y),
    ensures
        x.whole() <= y.whole(),
{
    let limit = FRACTION_LIMIT as nat;
    let ex = x.bits as nat / limit;
    let ey = y.bits as nat / limit;
    let fx = x.bits as nat % limit;
    let fy = y.bits as nat % limit;
    assert(x.bits as nat == ex * limit + fx);
    assert(y.bits as nat == ey * limit + fy);
    assert(ex <= ey);
    if ex >= EXPONENT_OF_ONE && ey < EXPONENT_BEYOND_U64 {
        let n = (FRACTION_LIMIT + fx) as nat * 2048;
        let m = (FRACTION_LIMIT + fy) as nat * 2048;
        let j = (EXPONENT_BEYOND_U64 - 1 - ex) as nat;
        let k = (EXPONENT_BEYOND_U64 - 1 - ey) as nat;
        if ex == ey {
            lemma_halved_grows(n, m, k);
        } else {
            lemma_halved_crosses(n, j, m, k);
        }
    } else if ex >= EXPONENT_OF_ONE && ex < EXPONENT_BEYOND_U64 {
        lemma_halved_bound(
            (FRACTION_LIMIT + fx) as nat * 2048,
            (EXPONENT_BEYOND_U64 - 1 - ex) as nat,
        );
    }
}

proof fn lemma_halved_bound(n: nat, k: nat)
    ensures
        halved(n, k) <= n,
    decreases k,
{
    if k > 0 {
        lemma_halved_bound(n, (k - 1) as nat);
    }
}

/// Where a number is compared with `limit`, the least number whose whole part is `n`, its whole part
/// tells the outcome.
pub open spec fn starts_whole(limit: Double, n: nat) -> bool {
    forall|x: Double|
        x.bits < SIGN_BIT && x.is_number() ==> (#[trigger] x.whole() < n <==> x.lt(limit))
}

proof fn lemma_starts_whole(limit: Double, n: nat)
    requires
        0 < limit.bits < INFINITY_BITS,
        n > 0,
        limit.whole() == n,
        (Double { bits: (limit.bits - 1) as u64 }).whole() < n,
    ensures
        starts_whole(limit, n),
{
    let below = Double { bits: (limit.bits - 1) as u64 };
    assert forall|x: Double| x.bits < SIGN_BIT && x.is_number() implies (#[trigger] x.whole() < n
        <==> x.lt(limit)) by {
        if x.lt(limit) {
            law_whole_part_keeps_order(x, below);
        } else {
            law_whole_part_keeps_order(limit, x);
        }
    }
}

/// The limits of the globe in whole degrees: a latitude of less than 90 degrees and a longitude of
/// less than 180, either way, name a point; one whose whole part is larger than 90, or 180, does
/// not, nor does what is no number.
pub proof fn law_globe_in_degrees(lat: Double, lon: Double)
    ensures
        lat.is_number() && lon.is_number() && lat.abs().whole() < 90 && lon.abs().whole() < 180
            ==> on_globe(lat, lon),
        on_globe(lat, lon) ==> lat.is_number() && lon.is_number() && lat.abs().whole() <= 90
            && lon.abs().whole() <= 180,
{
    lemma_limit(Double { bits: NINETY_BITS }, 90);
    lemma_limit(Double { bits: ONE_EIGHTY_BITS }, 180);
    if on_globe(lat, lon) {
        law_whole_part_keeps_order(lat.abs(), Double { bits: NINETY_BITS });
        law_whole_part_keeps_order(lon.abs(), Double { bits: ONE_EIGHTY_BITS });
    } else {
        assert(lat.abs().whole() < 90 <==> lat.abs().lt(Double { bits: NINETY_BITS }) || !lat.is_number());
    }
}

proof fn lemma_halved_is_division(n: nat, k: nat)
    ensures
        halved(n, k) == n / vstd::arithmetic::power2::pow2(k),
    decreases k,
{
    if k == 0 {
        vstd::arithmetic::power2::lemma2_to64();
    } else {
        let j = (k - 1) as nat;
        lemma_halved_is_division(n, j);
        vstd::arithmetic::power2::lemma_pow2_pos(j);
        vstd::arithmetic::power2::lemma_pow2_unfold(k);
        let d = vstd::arithmetic::power2::pow2(j);
        vstd::arithmetic::div_mod::lemma_div_denominator(n as int, d as int, 2);
        assert(d * 2 == 2 * d);
    }
}

/// The limits that this library compares with, each with the whole number that it is.
pub proof fn lemma_limit(limit: Double, n: nat)
    requires
        (limit.bits == 0x4020_0000_0000_0000 && n == 8) || (limit.bits == 0x4044_0000_0000_0000
            && n == 40) || (limit.bits == 0x4056_8000_0000_0000 && n == 90) || (limit.bits
            == 0x4059_0000_0000_0000 && n == 100) || (limit.bits == 0x4066_8000_0000_0000 && n
            == 180) || (limit.bits == 0x408c_2000_0000_0000 && n == 900),
    ensures
        limit.whole() == n,
        starts_whole(limit, n),
{
    let below = Double { bits: (limit.bits - 1) as u64 };
    vstd::arithmetic::power2::lemma2_to64_rest();
    if n == 8 {
        assert(limit.bits as nat / FRACTION_LIMIT as nat == 1026);
        assert(limit.bits as nat % FRACTION_LIMIT as nat == 0x0);
        lemma_halved_is_division(0x8000000000000000, 60);
        assert(0x8000000000000000nat / 0x1000000000000000 == 8);
        assert(below.bits as nat / FRACTION_LIMIT as nat == 1025);
        assert(below.bits as nat % FRACTION_LIMIT as nat == 0xfffffffffffff);
        lemma_halved_is_division(0xfffffffffffff800, 61);
        assert(0xfffffffffffff800nat / 0x2000000000000000 == 7);
    } else if n == 40 {
        assert(limit.bits as nat / FRACTION_LIMIT as nat == 1028);
        assert(limit.bits as nat % FRACTION_LIMIT as nat == 0x4000000000000);
        lemma_halved_is_division(0xa000000000000000, 58);
        assert(0xa000000000000000nat / 0x400000000000000 == 40);
        assert(below.bits as nat / FRACTION_LIMIT as nat == 1028);
        assert(below.bits as nat % FRACTION_LIMIT as nat == 0x3ffffffffffff);
        lemma_halved_is_division(0x9ffffffffffff800, 58);
        assert(0x9ffffffffffff800nat / 0x400000000000000 == 39);
    } else if n == 90 {
        assert(limit.bits as nat / FRACTION_LIMIT as nat == 1029);
        assert(limit.bits as nat % FRACTION_LIMIT as nat == 0x6800000000000);
        lemma_halved_is_division(0xb400000000000000, 57);
        assert(0xb400000000000000nat / 0x200000000000000 == 90);
        assert(below.bits as nat / FRACTION_LIMIT as nat == 1029);
        assert(below.bits as nat % FRACTION_LIMIT as nat == 0x67fffffffffff);
        lemma_halved_is_division(0xb3fffffffffff800, 57);
        assert(0xb3fffffffffff800nat / 0x200000000000000 == 89);
    } else if n == 100 {
        assert(limit.bits as nat / FRACTION_LIMIT as nat == 1029);
        assert(limit.bits as nat % FRACTION_LIMIT as nat == 0x9000000000000);
        lemma_halved_is_division(0xc800000000000000, 57);
        assert(0xc800000000000000nat / 0x200000000000000 == 100);
        assert(below.bits as nat / FRACTION_LIMIT as nat == 1029);
        assert(below.bits as nat % FRACTION_LIMIT as nat == 0x8ffffffffffff);
        lemma_halved_is_division(0xc7fffffffffff800, 57);
        assert(0xc7fffffffffff800nat / 0x200000000000000 == 99);
    } else if n == 180 {
        assert(limit.bits as nat / FRACTION_LIMIT as nat == 1030);
        assert(limit.bits as nat % FRACTION_LIMIT as nat == 0x6800000000000);
        lemma_halved_is_division(0xb400000000000000, 56);
        assert(0xb400000000000000nat / 0x100000000000000 == 180);
        assert(below.bits as nat / FRACTION_LIMIT as nat == 1030);
        assert(below.bits as nat % FRACTION_LIMIT as nat == 0x67fffffffffff);
        lemma_halved_is_division(0xb3fffffffffff800, 56);
        assert(0xb3fffffffffff800nat / 0x100000000000000 == 179);
    } else if n == 900 {
        assert(limit.bits as nat / FRACTION_LIMIT as nat == 1032);
        assert(limit.bits as nat % FRACTION_LIMIT as nat == 0xc200000000000);
        lemma_halved_is_division(0xe100000000000000, 54);
        assert(0xe100000000000000nat / 0x40000000000000 == 900);
        assert(below.bits as nat / FRACTION_LIMIT as nat == 1032);
        assert(below.bits as nat % FRACTION_LIMIT as nat == 0xc1fffffffffff);
        lemma_halved_is_division(0xe0fffffffffff800, 54);
        assert(0xe0fffffffffff800nat / 0x40000000000000 == 899);
    }
    lemma_starts_whole(limit, n);
}

/// The order of numbers by their signs: what is negative lies below what is positive, of two
/// negative numbers the larger in size lies below, of two others the smaller; the two zeros are
/// equal; and what is no number compares with nothing, itself included.
pub proof fn law_double_order_by_sign(a: Double, b: Double)
    ensures
        !a.is_number() ==> !a.lt(b) && !b.lt(a) && !a.le(b) && !b.le(a),
        a.is_number() <==> a.le(a),
        a.bits < 0x8000_0000_0000_0000 ==> a.abs() == a && (a.is_number() <==> a.bits
            <= 0x7ff0_0000_0000_0000),
        a.bits >= 0x8000_0000_0000_0000 ==> a.abs().bits == a.bits - 0x8000_0000_0000_0000
            && a.is_number() == a.abs().is_number(),
        a.is_number() && b.is_number() ==> {
            let a_negative = a.bits >= 0x8000_0000_0000_0000;
            let b_negative = b.bits >= 0x8000_0000_0000_0000;
            &&& !a_negative && !b_negative ==> (a.lt(b) <==> a.bits < b.bits) && (a.le(b) <==> a.bits
                <= b.bits)
            &&& a_negative && b_negative ==> (a.lt(b) <==> b.abs().lt(a.abs())) && (a.le(b)
                <==> b.abs().le(a.abs()))
            &&& a_negative && !b_negative ==> a.le(b) && (a.lt(b) <==> a.abs().bits != 0 || b.bits
                != 0)
        },
{
}

/// The whole part of a number from 1 up to 2^64 is the integer just below it: the number is
/// `2^52 + f` times 2 to the power of `e - 1075`, where `e` is its exponent and `f` its fraction.
pub proof fn law_whole_part_is_just_below(x: Double)
    requires
        0x3ff0_0000_0000_0000 <= x.bits < 0x43f0_0000_0000_0000,
    ensures
        ({
            let e = x.bits as nat / 0x10_0000_0000_0000;
            let f = x.bits as nat % 0x10_0000_0000_0000;
            let scale = vstd::arithmetic::power2::pow2((1086 - e) as nat);
            x.whole() * scale <= (0x10_0000_0000_0000 + f) * 2048 < (x.whole() + 1) * scale
        }),
{
    let e = x.bits as nat / 0x10_0000_0000_0000;
    let f = x.bits as nat % 0x10_0000_0000_0000;
    let n = ((0x10_0000_0000_0000 + f) * 2048) as nat;
    let scale = vstd::arithmetic::power2::pow2((1086 - e) as nat);
    lemma_halved_is_division(n, (1086 - e) as nat);
    vstd::arithmetic::power2::lemma_pow2_pos((1086 - e) as nat);
    vstd::arithmetic::div_mod::lemma_fundamental_div_mod(n as int, scale as int);
    vstd::arithmetic::div_mod::lemma_mod_bound(n as int, scale as int);
    let w = x.whole();
    assert(w == n / scale);
    assert((w + 1) * scale == w * scale + scale) by (nonlinear_arith);
    assert(scale * (n / scale) == w * scale) by (nonlinear_arith)
        requires
            w == n / scale,
    ;
}

/// What is negative, below 1 or no number has the whole part 0; what is 2^64 or more has the largest
/// integer of 64 bits.
pub proof fn law_whole_part_at_the_edges(x: Double)
    ensures
        x.bits < 0x3ff0_0000_0000_0000 || x.bits > 0x7ff0_0000_0000_0000 ==> x.whole() == 0,
        0x43f0_0000_0000_0000 <= x.bits <= 0x7ff0_0000_0000_0000 ==> x.whole()
            == 0xffff_ffff_ffff_ffff,
{
}

} // verus!
