//! Time tags and seconds.
//!
//! A time tag counts seconds in 32 bits and fractions of a second in another
//! 32.  Callers mostly hold a time as seconds in an IEEE-754 double; the
//! conversions here take and give such a number by its 64 bits, and are
//! stated over the exact value that the bits stand for.

use vstd::prelude::*;
use vstd::arithmetic::div_mod::{lemma_fundamental_div_mod, lemma_fundamental_div_mod_converse};
use vstd::arithmetic::power2::{
    lemma2_to64, lemma2_to64_rest, lemma_pow2_adds, lemma_pow2_pos,
    lemma_pow2_strictly_increases, lemma_pow2_unfold, pow2,
};

verus! {

/// A 64-bit fixed-point time: whole seconds, and a fraction of a second in
/// units of 2^-32 s.
#[derive(Clone, Copy, Debug, PartialEq, Eq, Structural)]
pub struct TimeTag {
    pub seconds: u32,
    pub fractional: u32,
}

/// 2^52: the weight of the hidden bit of a double's significand, and of one
/// step of its exponent field.
pub const HIDDEN_BIT: u64 = 0x10_0000_0000_0000;

/// The sign bit of a double.
pub const SIGN_BIT: u64 = 0x8000_0000_0000_0000;

/// The exponent field of a double: the eleven bits under the sign.
pub open spec fn exponent_field(bits: u64) -> nat {
    (bits / HIDDEN_BIT % 2048) as nat
}

/// The fraction field of a double: its low 52 bits.
pub open spec fn fraction_field(bits: u64) -> nat {
    (bits % HIDDEN_BIT) as nat
}

/// Whether the sign bit is set, be the rest a number or not.
pub open spec fn is_negative(bits: u64) -> bool {
    bits >= SIGN_BIT
}

/// Whether the bits stand for no number.
pub open spec fn is_nan(bits: u64) -> bool {
    exponent_field(bits) == 2047 && fraction_field(bits) != 0
}

/// Whether the bits stand for an infinity.
pub open spec fn is_infinite(bits: u64) -> bool {
    exponent_field(bits) == 2047 && fraction_field(bits) == 0
}

/// The magnitude of a finite double, in units of 2^-1074: the fraction
/// field alone where the exponent field is zero, and else the fraction
/// field under its hidden bit, doubled once for each step of the exponent
/// field above one.
pub open spec fn units(bits: u64) -> nat {
    let e = exponent_field(bits);
    if e == 0 {
        fraction_field(bits)
    } else {
        ((HIDDEN_BIT + fraction_field(bits)) * pow2((e - 1) as nat)) as nat
    }
}

/// The time of a tag in units of 2^-32 s.
pub open spec fn ticks(tag: TimeTag) -> nat {
    (tag.seconds * 0x1_0000_0000 + tag.fractional) as nat
}

/// The tag for a time in seconds, given as a double.
///
/// For a time from zero up to, and not including, 2^32 s the seconds are
/// those of the time, rounded down, and the fraction is the rest in units
/// of 2^-32 s, rounded to the nearest, a half upwards, and held at 2^32 - 1
/// where that would give a whole second.  A time outside of that is set to
/// the nearest tag: a negative one and one that is no number to zero, one
/// from 2^32 s on to the last tag.
pub open spec fn wire_time(bits: u64) -> TimeTag {
    if is_negative(bits) || is_nan(bits) {
        TimeTag { seconds: 0, fractional: 0 }
    } else if is_infinite(bits) || units(bits) >= pow2(1106) {
        TimeTag { seconds: u32::MAX, fractional: u32::MAX }
    } else {
        let whole = units(bits) / pow2(1074);
        let part = units(bits) % pow2(1074);
        let rounded = (part + pow2(1041)) / pow2(1042);
        TimeTag {
            seconds: whole as u32,
            fractional: if rounded > u32::MAX {
                u32::MAX
            } else {
                rounded as u32
            },
        }
    }
}

proof fn lemma_product(a: int, b: int, c: int)
    ensures
        (a * b) * c == a * (b * c),
        (a + b) * c == a * c + b * c,
        a * b == b * a,
{
    assert((a * b) * c == a * (b * c)) by (nonlinear_arith);
    assert((a + b) * c == a * c + b * c) by (nonlinear_arith);
    assert(a * b == b * a) by (nonlinear_arith);
}

proof fn lemma_scaled_bound(r: int, d: int, p: int)
    requires
        0 <= r < d,
        p > 0,
    ensures
        0 <= r * p < d * p,
        r * p <= (d - 1) * p,
        (d - 1) * p == d * p - p,
{
    assert(0 <= r * p < d * p) by (nonlinear_arith)
        requires
            0 <= r < d,
            p > 0,
    ;
    assert(r * p <= (d - 1) * p) by (nonlinear_arith)
        requires
            0 <= r < d,
            p > 0,
    ;
    assert((d - 1) * p == d * p - p) by (nonlinear_arith);
}

/// A time that is a whole number `v` of units of 2^-32 s has `v / 2^32`
/// seconds and `v % 2^32` as its fraction, with nothing to round.
proof fn lemma_on_grid(v: nat, u: nat)
    requires
        u == v * pow2(1042),
    ensures
        u / pow2(1074) == v / 0x1_0000_0000,
        (u % pow2(1074) + pow2(1041)) / pow2(1042) == v % 0x1_0000_0000,
{
    lemma2_to64();
    lemma_pow2_adds(32, 1042);
    lemma_pow2_pos(1042);
    lemma_pow2_pos(1041);
    lemma_pow2_strictly_increases(1041, 1042);
    let p32 = 0x1_0000_0000int;
    let p1042 = pow2(1042) as int;
    let q = v as int / p32;
    let r = v as int % p32;
    lemma_fundamental_div_mod(v as int, p32);
    lemma_product(p32, q, p1042);
    lemma_product(q, p32, p1042);
    lemma_product(p32 * q, r, p1042);
    lemma_scaled_bound(r, p32, p1042);
    assert(u == q * (p32 * p1042) + r * p1042);
    lemma_fundamental_div_mod_converse(u as int, pow2(1074) as int, q, r * p1042);
    lemma_fundamental_div_mod_converse(r * p1042 + pow2(1041), p1042, r, pow2(1041) as int);
}

/// A time of `m` units of 2^(k-1074) s, too fine for the grid of 2^-32 s,
/// has the seconds and the rounded fraction that its first 33 binary places
/// give.
proof fn lemma_below_grid(m: nat, k: nat, u: nat)
    requires
        k <= 1041,
        u == m * pow2(k),
    ensures
        ({
            let f = m / pow2((1041 - k) as nat);
            &&& u / pow2(1074) == f / 0x2_0000_0000
            &&& (u % pow2(1074) + pow2(1041)) / pow2(1042) == (f % 0x2_0000_0000 + 1) / 2
        }),
{
    lemma2_to64();
    lemma2_to64_rest();
    let i = (1041 - k) as nat;
    let pi = pow2(i) as int;
    let pk = pow2(k) as int;
    let p33 = 0x2_0000_0000int;
    let p1041 = pow2(1041) as int;
    let p1042 = pow2(1042) as int;
    lemma_pow2_pos(i);
    lemma_pow2_pos(k);
    lemma_pow2_pos(1041);
    lemma_pow2_adds(i, k);
    lemma_pow2_adds(33, 1041);
    lemma_pow2_unfold(1042);
    assert(p1042 == 2 * p1041);
    let f = m as int / pi;
    let rho = m as int % pi;
    lemma_fundamental_div_mod(m as int, pi);
    lemma_product(pi, f, pk);
    lemma_product(f, pi, pk);
    lemma_product(pi * f, rho, pk);
    lemma_scaled_bound(rho, pi, pk);
    assert(pi * pk == p1041);
    assert(u == f * p1041 + rho * pk);
    let s = f / p33;
    let g = f % p33;
    lemma_fundamental_div_mod(f, p33);
    lemma_product(p33, s, p1041);
    lemma_product(s, p33, p1041);
    lemma_product(p33 * s, g, p1041);
    lemma_scaled_bound(g, p33, p1041);
    assert(u == s * (p33 * p1041) + (g * p1041 + rho * pk));
    lemma_fundamental_div_mod_converse(u as int, pow2(1074) as int, s, g * p1041 + rho * pk);
    let a = (g + 1) / 2;
    let b = (g + 1) % 2;
    lemma_product(g, 1, p1041);
    lemma_product(2 * a, b, p1041);
    lemma_product(a, 2, p1041);
    assert((g + 1) * p1041 == a * p1042 + b * p1041);
    assert(b * p1041 <= p1041) by (nonlinear_arith)
        requires
            0 <= b <= 1,
            p1041 > 0,
    ;
    assert(b * p1041 >= 0) by (nonlinear_arith)
        requires
            0 <= b <= 1,
            p1041 > 0,
    ;
    lemma_fundamental_div_mod_converse(
        g * p1041 + rho * pk + p1041,
        p1042,
        a,
        b * p1041 + rho * pk,
    );
}

/// Two to the power of `k`.
fn two_to(k: u64) -> (p: u64)
    requires
        k < 64,
    ensures
        p == pow2(k as nat),
{
    let mut p: u64 = 1;
    let mut i: u64 = 0;
    proof {
        lemma2_to64();
    }
    while i < k
        invariant
            i <= k < 64,
            p == pow2(i as nat),
        decreases k - i,
    {
        proof {
            lemma_pow2_unfold((i + 1) as nat);
            if i + 1 < 63 {
                lemma_pow2_strictly_increases((i + 1) as nat, 63);
            }
            lemma2_to64_rest();
        }
        p = p * 2;
        i += 1;
    }
    p
}

proof fn lemma_fields(bits: u64)
    ensures
        bits == (bits / HIDDEN_BIT) * HIDDEN_BIT + fraction_field(bits),
        fraction_field(bits) < HIDDEN_BIT,
        bits / HIDDEN_BIT < 4096,
        !is_negative(bits) ==> exponent_field(bits) == bits / HIDDEN_BIT,
{
}

proof fn lemma_magnitude(bits: u64)
    requires
        0 < exponent_field(bits),
    ensures
        pow2(exponent_field(bits) + 51) <= units(bits) < pow2(exponent_field(bits) + 52),
{
    let e = exponent_field(bits);
    let k = (e - 1) as nat;
    let pk = pow2(k) as int;
    let f = fraction_field(bits) as int;
    lemma2_to64_rest();
    lemma_pow2_pos(k);
    lemma_pow2_adds(52, k);
    lemma_pow2_adds(53, k);
    lemma_scaled_bound(HIDDEN_BIT + f, 2 * HIDDEN_BIT, pk);
    assert((HIDDEN_BIT + f) * pk >= HIDDEN_BIT * pk) by (nonlinear_arith)
        requires
            f >= 0,
            pk > 0,
    ;
}

impl TimeTag {
    /// The tag for a time in seconds, given by the bits of a double.
    pub fn from_seconds_bits(bits: u64) -> (tag: TimeTag)
        ensures
            tag == wire_time(bits),
    {
        proof {
            lemma_fields(bits);
            lemma2_to64();
            lemma2_to64_rest();
        }
        if bits >= SIGN_BIT {
            return TimeTag { seconds: 0, fractional: 0 };
        }
        let e: u64 = bits / HIDDEN_BIT;
        let fraction: u64 = bits % HIDDEN_BIT;
        if e == 2047 {
            return if fraction == 0 {
                TimeTag { seconds: u32::MAX, fractional: u32::MAX }
            } else {
                TimeTag { seconds: 0, fractional: 0 }
            };
        }
        if e >= 1055 {
            proof {
                lemma_magnitude(bits);
                if e > 1055 {
                    lemma_pow2_strictly_increases(1106, (e + 51) as nat);
                }
            }
            return TimeTag { seconds: u32::MAX, fractional: u32::MAX };
        }
        proof {
            if e > 0 {
                lemma_magnitude(bits);
                if e < 1054 {
                    lemma_pow2_strictly_increases((e + 52) as nat, 1106);
                }
            } else {
                lemma_pow2_strictly_increases(52, 1106);
            }
        }
        let significand: u64 = if e == 0 {
            fraction
        } else {
            HIDDEN_BIT + fraction
        };
        let step: u64 = if e == 0 {
            0
        } else {
            e - 1
        };
        assert(units(bits) == significand * pow2(step as nat)) by {
            lemma_product(significand as int, 1, 1);
        }
        if step >= 1042 {
            let scale: u64 = two_to(step - 1042);
            proof {
                lemma_pow2_adds((step - 1042) as nat, 1042);
                lemma_product(significand as int, scale as int, pow2(1042) as int);
                if step < 1053 {
                    lemma_pow2_strictly_increases((step - 1042) as nat, 11);
                }
                lemma_scaled_bound(significand as int, 0x20_0000_0000_0000, scale as int);
                assert(0x20_0000_0000_0000 * scale <= 0x20_0000_0000_0000 * 0x800)
                    by (nonlinear_arith)
                    requires
                        scale <= 0x800,
                ;
            }
            let whole: u64 = significand * scale;
            proof {
                lemma_on_grid(whole as nat, units(bits));
            }
            TimeTag {
                seconds: (whole / 0x1_0000_0000) as u32,
                fractional: (whole % 0x1_0000_0000) as u32,
            }
        } else {
            let shift: u64 = 1041 - step;
            let halves: u64 = if shift >= 53 {
                proof {
                    if shift > 53 {
                        lemma_pow2_strictly_increases(53, shift as nat);
                    }
                    vstd::arithmetic::div_mod::lemma_basic_div(
                        significand as int,
                        pow2(shift as nat) as int,
                    );
                }
                0
            } else {
                significand / two_to(shift)
            };
            proof {
                lemma_below_grid(significand as nat, step as nat, units(bits));
            }
            let rounded: u64 = (halves % 0x2_0000_0000 + 1) / 2;
            TimeTag {
                seconds: (halves / 0x2_0000_0000) as u32,
                fractional: if rounded > 0xffff_ffff {
                    u32::MAX
                } else {
                    rounded as u32
                },
            }
        }
    }
}

/// Where the highest set bit of `w` stands: the whole part of its binary
/// logarithm.
pub open spec fn top_bit(w: nat) -> nat
    decreases w,
{
    if w < 2 {
        0
    } else {
        1 + top_bit(w / 2)
    }
}

/// The double nearest to the time of a tag in seconds, by its bits.
///
/// A time of up to 53 significant bits is a double as it stands.  Of a
/// longer one the bits below the 53rd are rounded off, to the nearest and,
/// from the middle, to the even neighbour.
pub open spec fn seconds_bits(tag: TimeTag) -> u64 {
    let w = ticks(tag);
    let p = top_bit(w);
    if w == 0 {
        0
    } else if p <= 52 {
        ((p + 991) * HIDDEN_BIT + (w * pow2((52 - p) as nat) - HIDDEN_BIT)) as u64
    } else {
        let d = pow2((p - 52) as nat);
        let up: int = if 2 * (w % d) > d || (2 * (w % d) == d && (w / d) % 2 == 1) {
            1
        } else {
            0
        };
        ((p + 991) * HIDDEN_BIT + (w / d - HIDDEN_BIT) + up) as u64
    }
}

/// The highest set bit of `w` stands at `top_bit(w)`.
pub proof fn lemma_top_bit(w: nat)
    requires
        w > 0,
    ensures
        pow2(top_bit(w)) <= w < pow2(top_bit(w) + 1),
    decreases w,
{
    lemma2_to64();
    if w >= 2 {
        lemma_top_bit(w / 2);
        lemma_pow2_unfold(top_bit(w));
        lemma_pow2_unfold(top_bit(w) + 1);
    }
}

/// `top_bit(w)` is the one `p` with `2^p <= w < 2^(p+1)`.
pub proof fn lemma_top_bit_is(w: nat, p: nat)
    requires
        pow2(p) <= w < pow2(p + 1),
    ensures
        top_bit(w) == p,
{
    lemma_pow2_pos(p);
    lemma_top_bit(w);
    let t = top_bit(w);
    if t < p {
        if t + 1 < p {
            lemma_pow2_strictly_increases(t + 1, p);
        }
    } else if t > p {
        if p + 1 < t {
            lemma_pow2_strictly_increases(p + 1, t);
        }
    }
}

fn highest_bit(w: u64) -> (p: u64)
    requires
        w > 0,
    ensures
        p == top_bit(w as nat),
        p < 64,
{
    proof {
        lemma_top_bit(w as nat);
        lemma2_to64();
        if top_bit(w as nat) > 64 {
            lemma_pow2_strictly_increases(64, top_bit(w as nat));
        }
    }
    let mut x: u64 = w;
    let mut p: u64 = 0;
    while x >= 2
        invariant
            x > 0,
            top_bit(w as nat) == p + top_bit(x as nat),
            top_bit(w as nat) < 64,
        decreases x,
    {
        x = x / 2;
        p += 1;
    }
    p
}

impl TimeTag {
    /// The double nearest to the time of this tag in seconds, by its bits.
    pub fn to_seconds_bits(self) -> (bits: u64)
        ensures
            bits == seconds_bits(self),
    {
        let w: u64 = self.seconds as u64 * 0x1_0000_0000 + self.fractional as u64;
        if w == 0 {
            return 0;
        }
        let p: u64 = highest_bit(w);
        proof {
            lemma_top_bit(w as nat);
            lemma2_to64();
            lemma2_to64_rest();
        }
        if p <= 52 {
            let scale: u64 = two_to(52 - p);
            proof {
                lemma_pow2_adds(p as nat, (52 - p) as nat);
                lemma_pow2_adds((p + 1) as nat, (52 - p) as nat);
                lemma_pow2_pos((52 - p) as nat);
                lemma_scaled_bound(w as int, pow2((p + 1) as nat) as int, scale as int);
                assert(w * scale >= pow2(p as nat) * scale) by (nonlinear_arith)
                    requires
                        w >= pow2(p as nat),
                        scale > 0,
                ;
            }
            let significand: u64 = w * scale;
            (p + 991) * HIDDEN_BIT + (significand - HIDDEN_BIT)
        } else {
            let d: u64 = two_to(p - 52);
            proof {
                lemma_pow2_adds(52, (p - 52) as nat);
                lemma_pow2_adds(53, (p - 52) as nat);
                lemma_pow2_pos((p - 52) as nat);
                if p < 63 {
                    lemma_pow2_strictly_increases((p - 52) as nat, 11);
                }
                lemma_fundamental_div_mod(w as int, d as int);
                let q = w as int / d as int;
                lemma_product(q, d as int, 1);
                if q < HIDDEN_BIT {
                    lemma_scaled_bound(q, HIDDEN_BIT as int, d as int);
                }
                if q >= 2 * HIDDEN_BIT {
                    assert(q * d >= 2 * HIDDEN_BIT * d) by (nonlinear_arith)
                        requires
                            q >= 2 * HIDDEN_BIT,
                            d > 0,
                    ;
                }
            }
            let q: u64 = w / d;
            let rest: u64 = w % d;
            let up: u64 = if 2 * rest > d || (2 * rest == d && q % 2 == 1) {
                1
            } else {
                0
            };
            (p + 991) * HIDDEN_BIT + (q - HIDDEN_BIT) + up
        }
    }
}

proof fn lemma_bits_of(e: nat, f: nat, bits: u64)
    requires
        e < 2047,
        f < HIDDEN_BIT,
        bits == e * HIDDEN_BIT + f,
    ensures
        !is_negative(bits),
        exponent_field(bits) == e,
        fraction_field(bits) == f,
{
    lemma_fundamental_div_mod_converse(bits as int, HIDDEN_BIT as int, e as int, f as int);
}

/// A tag whose time has at most 53 significant bits becomes the double
/// that is exactly that time.
pub proof fn law_exact_seconds(tag: TimeTag)
    requires
        ticks(tag) < 0x20_0000_0000_0000,
    ensures
        !is_negative(seconds_bits(tag)),
        exponent_field(seconds_bits(tag)) < 2047,
        units(seconds_bits(tag)) == ticks(tag) * pow2(1042),
{
    let w = ticks(tag);
    lemma2_to64();
    lemma2_to64_rest();
    if w > 0 {
        let p = top_bit(w);
        lemma_top_bit(w);
        if p > 52 {
            if p > 53 {
                lemma_pow2_strictly_increases(53, p);
            }
        }
        let scale = pow2((52 - p) as nat) as int;
        lemma_pow2_adds(p, (52 - p) as nat);
        lemma_pow2_adds(p + 1, (52 - p) as nat);
        lemma_pow2_pos((52 - p) as nat);
        lemma_scaled_bound(w as int, pow2(p + 1) as int, scale);
        assert(w * scale >= pow2(p) * scale) by (nonlinear_arith)
            requires
                w >= pow2(p),
                scale > 0,
        ;
        let f = (w * scale - HIDDEN_BIT) as nat;
        lemma_bits_of(p + 991, f, seconds_bits(tag));
        lemma_pow2_adds((52 - p) as nat, p + 990);
        lemma_product(w as int, scale, pow2(p + 990) as int);
    } else {
        lemma_bits_of(0, 0, 0);
        lemma_product(0, pow2(1042) as int, 1);
    }
}

/// A tag whose time has at most 53 significant bits comes back from the
/// double that it becomes.
pub proof fn law_tag_round_trip(tag: TimeTag)
    requires
        ticks(tag) < 0x20_0000_0000_0000,
    ensures
        wire_time(seconds_bits(tag)) == tag,
{
    let w = ticks(tag);
    let bits = seconds_bits(tag);
    law_exact_seconds(tag);
    lemma2_to64();
    lemma_pow2_adds(64, 1042);
    lemma_pow2_pos(1042);
    lemma_scaled_bound(w as int, pow2(64) as int, pow2(1042) as int);
    lemma_on_grid(w, units(bits));
}

/// The double that a tag becomes is the nearest to its time: it is the time
/// itself where that has at most 53 significant bits, and else off by no
/// more than half of what the lowest of its 53 bits is worth.
pub proof fn law_nearest_seconds(tag: TimeTag)
    ensures
        !is_negative(seconds_bits(tag)),
        exponent_field(seconds_bits(tag)) < 2047,
        top_bit(ticks(tag)) <= 52 ==> units(seconds_bits(tag)) == ticks(tag) * pow2(1042),
        top_bit(ticks(tag)) > 52 ==> {
            let half = pow2((top_bit(ticks(tag)) - 53) as nat) * pow2(1042);
            &&& units(seconds_bits(tag)) - ticks(tag) * pow2(1042) <= half
            &&& ticks(tag) * pow2(1042) - units(seconds_bits(tag)) <= half
        },
{
    let w = ticks(tag);
    let p = top_bit(w);
    lemma2_to64();
    lemma2_to64_rest();
    if w > 0 {
        lemma_top_bit(w);
    }
    if p <= 52 {
        if w > 0 && p < 52 {
            lemma_pow2_strictly_increases(p + 1, 53);
        }
        law_exact_seconds(tag);
    } else {
        if p >= 64 {
            if p > 64 {
                lemma_pow2_strictly_increases(64, p);
            }
        }
        let r = (p - 52) as nat;
        let d = pow2(r) as int;
        let q = w as int / d;
        let rest = w as int % d;
        let up: int = if 2 * rest > d || (2 * rest == d && q % 2 == 1) {
            1
        } else {
            0
        };
        lemma_pow2_adds(52, r);
        lemma_pow2_adds(53, r);
        lemma_pow2_pos(r);
        lemma_pow2_unfold(r);
        lemma_fundamental_div_mod(w as int, d);
        lemma_product(q, d, 1);
        if q < HIDDEN_BIT {
            lemma_scaled_bound(q, HIDDEN_BIT as int, d);
        }
        if q >= 2 * HIDDEN_BIT {
            assert(q * d >= 2 * HIDDEN_BIT * d) by (nonlinear_arith)
                requires
                    q >= 2 * HIDDEN_BIT,
                    d > 0,
            ;
        }
        let bits = seconds_bits(tag);
        let grain = pow2(p + 990) as int;
        lemma_pow2_adds(r, 1042);
        lemma_pow2_adds((r - 1) as nat, 1042);
        lemma_pow2_unfold(p + 991);
        lemma_pow2_pos(p + 990);
        assert(units(bits) == (q + up) * grain) by {
            if q + up == 2 * HIDDEN_BIT {
                lemma_bits_of(p + 992, 0, bits);
                lemma_product(HIDDEN_BIT as int, 2, grain);
                lemma_product(2, HIDDEN_BIT as int, grain);
            } else {
                lemma_bits_of(p + 991, (q + up - HIDDEN_BIT) as nat, bits);
            }
        }
        let p1042 = pow2(1042) as int;
        let half = pow2((r - 1) as nat) as int;
        assert(d == 2 * half);
        assert(grain == d * p1042);
        lemma_product(q + up, d, p1042);
        lemma_product(q * d, rest, p1042);
        lemma_product(q, up, d);
        lemma_product(up, d, 1);
        assert(units(bits) - w * p1042 == (up * d - rest) * p1042) by (nonlinear_arith)
            requires
                units(bits) == (q + up) * (d * p1042),
                w == q * d + rest,
        ;
        assert(-half <= up * d - rest <= half) by (nonlinear_arith)
            requires
                d == 2 * half,
                0 <= rest < d,
                up == 1 ==> 2 * rest >= d,
                up == 0 ==> 2 * rest <= d,
                up == 0 || up == 1,
        ;
        lemma_pow2_pos(1042);
        assert((up * d - rest) * p1042 <= half * p1042 && (up * d - rest) * p1042 >= -(half
            * p1042)) by (nonlinear_arith)
            requires
                -half <= up * d - rest <= half,
                p1042 > 0,
        ;
    }
}

/// A time from zero up to 2^32 s that is made a tag and then seconds again
/// comes back within 2^-32 s of itself, and a time from 2^20 s on comes
/// back unchanged.
pub proof fn law_time_round_trip(bits: u64)
    requires
        !is_negative(bits) || bits == SIGN_BIT,
        exponent_field(bits) < 2047,
        units(bits) < pow2(1106),
    ensures
        ({
            let back = seconds_bits(wire_time(bits));
            &&& !is_negative(back)
            &&& exponent_field(back) < 2047
            &&& units(back) - units(bits) <= pow2(1042)
            &&& units(bits) - units(back) <= pow2(1042)
            &&& units(bits) >= pow2(1094) ==> back == bits
        }),
{
    if bits == SIGN_BIT {
        lemma_bits_of(0, 0, 0);
        lemma_pow2_pos(1094);
    } else {
        lemma_time_round_trip(bits);
    }
}

proof fn lemma_time_round_trip(bits: u64)
    requires
        !is_negative(bits),
        exponent_field(bits) < 2047,
        units(bits) < pow2(1106),
    ensures
        ({
            let back = seconds_bits(wire_time(bits));
            &&& !is_negative(back)
            &&& exponent_field(back) < 2047
            &&& units(back) - units(bits) <= pow2(1042)
            &&& units(bits) - units(back) <= pow2(1042)
            &&& units(bits) >= pow2(1094) ==> back == bits
        }),
{
    let tag = wire_time(bits);
    let e = exponent_field(bits);
    let fraction = fraction_field(bits);
    let u = units(bits);
    lemma_fields(bits);
    lemma2_to64();
    lemma2_to64_rest();
    lemma_pow2_pos(1042);
    let significand: nat = if e == 0 {
        fraction
    } else {
        (HIDDEN_BIT + fraction) as nat
    };
    let step: nat = if e == 0 {
        0
    } else {
        (e - 1) as nat
    };
    assert(u == significand * pow2(step)) by {
        lemma_product(significand as int, 1, 1);
    }
    if e > 0 {
        lemma_magnitude(bits);
        if e >= 1055 {
            if e > 1055 {
                lemma_pow2_strictly_increases(1106, e + 51);
            }
        }
    }
    if step >= 1042 {
        let j = (step - 1042) as nat;
        let scale = pow2(j) as int;
        lemma_pow2_adds(j, 1042);
        lemma_pow2_adds(52, j);
        lemma_pow2_adds(53, j);
        lemma_pow2_pos(j);
        lemma_product(significand as int, scale, pow2(1042) as int);
        if j < 11 {
            lemma_pow2_strictly_increases(j, 11);
        }
        lemma_scaled_bound(significand as int, 0x20_0000_0000_0000, scale);
        assert(0x20_0000_0000_0000 * scale <= 0x20_0000_0000_0000 * 0x800) by (nonlinear_arith)
            requires
                scale <= 0x800,
        ;
        assert(significand * scale >= HIDDEN_BIT * scale) by (nonlinear_arith)
            requires
                significand >= HIDDEN_BIT,
                scale > 0,
        ;
        let v = (significand * scale) as nat;
        lemma_on_grid(v, u);
        assert(ticks(tag) == v);
        lemma_top_bit_is(v, 52 + j);
        assert(bits == e * HIDDEN_BIT + fraction);
        assert(e == 1043 + j);
        assert(top_bit(ticks(tag)) == 52 + j);
        if j == 0 {
            assert(scale == 1 && pow2((52 - (52 + j)) as nat) == 1);
            assert(significand * 1 == significand && v * 1 == v) by (nonlinear_arith);
            assert(v * pow2((52 - (52 + j)) as nat) == significand);
        } else {
            lemma_fundamental_div_mod_converse(v as int, scale, significand as int, 0);
            assert(pow2(((52 + j) - 52) as nat) == scale);
            assert(v as int / scale == significand);
            assert(v as int % scale == 0);
        }
        assert((1043 + j) * HIDDEN_BIT + (significand - HIDDEN_BIT) == bits) by (nonlinear_arith)
            requires
                bits == e * HIDDEN_BIT + fraction,
                e == 1043 + j,
                significand == HIDDEN_BIT + fraction,
        ;
        assert(seconds_bits(tag) == bits);
        lemma_pow2_strictly_increases(1093, 1094);
    } else {
        lemma_below_grid(significand, step, u);
        let p1074 = pow2(1074) as int;
        let p1042 = pow2(1042) as int;
        let p1041 = pow2(1041) as int;
        lemma_pow2_adds(32, 1042);
        lemma_pow2_adds(20, 1074);
        lemma_pow2_pos(1074);
        lemma_pow2_pos(1041);
        lemma_pow2_unfold(1042);
        let whole = u as int / p1074;
        let part = u as int % p1074;
        lemma_fundamental_div_mod(u as int, p1074);
        let rounded = (part + p1041) / p1042;
        lemma_fundamental_div_mod(part + p1041, p1042);
        assert(u < pow2(1094)) by {
            if e > 0 {
                if e + 52 < 1094 {
                    lemma_pow2_strictly_increases(e + 52, 1094);
                }
            } else {
                lemma_pow2_strictly_increases(52, 1094);
            }
        }
        assert(whole < 0x10_0000) by {
            if whole >= 0x10_0000 {
                assert(p1074 * whole >= p1074 * 0x10_0000) by (nonlinear_arith)
                    requires
                        whole >= 0x10_0000,
                        p1074 > 0,
                ;
            }
        }
        let frac: int = tag.fractional as int;
        assert(ticks(tag) == whole * 0x1_0000_0000 + frac);
        law_exact_seconds(tag);
        lemma_product(whole * 0x1_0000_0000, frac, p1042);
        lemma_product(whole, 0x1_0000_0000, p1042);
        lemma_product(p1074, whole, 1);
        assert(ticks(tag) * p1042 == whole * p1074 + frac * p1042);
        if rounded > u32::MAX {
            assert(p1042 * rounded >= p1042 * 0x1_0000_0000) by (nonlinear_arith)
                requires
                    rounded >= 0x1_0000_0000,
                    p1042 > 0,
            ;
            lemma_product(0xffff_ffff, 1, p1042);
        } else {
            lemma_product(p1042, rounded, 1);
        }
    }
}

} // verus!
