use osc_wasm::TimeTag;

const TWO_32: f64 = 4294967296.0;

struct Lcg(u64);

impl Lcg {
    fn next(&mut self) -> u64 {
        self.0 = self.0.wrapping_mul(6364136223846793005).wrapping_add(1442695040888963407);
        let high = self.0 >> 32;
        self.0 = self.0.wrapping_mul(6364136223846793005).wrapping_add(1442695040888963407);
        (high << 32) | (self.0 >> 32)
    }
}

fn by_floats(x: f64) -> TimeTag {
    let rounded = (x.fract() * TWO_32).round();
    TimeTag {
        seconds: x.trunc() as u32,
        fractional: if rounded >= TWO_32 { u32::MAX } else { rounded as u32 },
    }
}

fn seconds_by_floats(tag: TimeTag) -> f64 {
    tag.seconds as f64 + tag.fractional as f64 / TWO_32
}

fn tag_of(x: f64) -> TimeTag {
    TimeTag::from_seconds_bits(x.to_bits())
}

fn seconds_of(tag: TimeTag) -> f64 {
    f64::from_bits(tag.to_seconds_bits())
}

#[test]
fn one_and_a_half_seconds() {
    assert_eq!(tag_of(1.5), TimeTag { seconds: 1, fractional: 0x8000_0000 });
    assert_eq!(seconds_of(TimeTag { seconds: 1, fractional: 0x8000_0000 }), 1.5);
    assert_eq!(TimeTag { seconds: 1, fractional: 0x8000_0000 }.to_seconds_bits(), 0x3ff8_0000_0000_0000);
}

#[test]
fn chosen_times_become_the_tags_that_the_formula_gives() {
    assert_eq!(tag_of(0.0), TimeTag { seconds: 0, fractional: 0 });
    assert_eq!(tag_of(1.0), TimeTag { seconds: 1, fractional: 0 });
    assert_eq!(tag_of(0.25), TimeTag { seconds: 0, fractional: 0x4000_0000 });
    assert_eq!(tag_of(2.0f64.powi(-32)), TimeTag { seconds: 0, fractional: 1 });
    assert_eq!(tag_of(2.0f64.powi(-33)), TimeTag { seconds: 0, fractional: 1 });
    assert_eq!(tag_of(2.0f64.powi(-33) * 0.999), TimeTag { seconds: 0, fractional: 0 });
    assert_eq!(tag_of(2.0f64.powi(-34)), TimeTag { seconds: 0, fractional: 0 });
    assert_eq!(tag_of(3.0 * 2.0f64.powi(-33)), TimeTag { seconds: 0, fractional: 2 });
    assert_eq!(tag_of(f64::MIN_POSITIVE), TimeTag { seconds: 0, fractional: 0 });
    assert_eq!(tag_of(f64::from_bits(1)), TimeTag { seconds: 0, fractional: 0 });
    assert_eq!(tag_of(4294967295.0), TimeTag { seconds: u32::MAX, fractional: 0 });
    assert_eq!(tag_of(4294967295.5), TimeTag { seconds: u32::MAX, fractional: 0x8000_0000 });
    assert_eq!(tag_of(1048576.0 + 0.5), TimeTag { seconds: 1 << 20, fractional: 0x8000_0000 });
    assert_eq!(tag_of(3_900_000_000.125), TimeTag { seconds: 3_900_000_000, fractional: 0x2000_0000 });
}

#[test]
fn a_fraction_that_rounds_to_a_whole_second_is_held_below_it() {
    let just_below_one = f64::from_bits(1.0f64.to_bits() - 1);
    assert_eq!(tag_of(just_below_one), TimeTag { seconds: 0, fractional: u32::MAX });
    let just_below_two = f64::from_bits(2.0f64.to_bits() - 1);
    assert_eq!(tag_of(just_below_two), TimeTag { seconds: 1, fractional: u32::MAX });
    assert_eq!(tag_of(1.0 - 2.0f64.powi(-33)), TimeTag { seconds: 0, fractional: u32::MAX });
    assert_eq!(tag_of(1.0 - 2.0f64.powi(-32)), TimeTag { seconds: 0, fractional: u32::MAX });
    assert_eq!(tag_of(1.0 - 3.0 * 2.0f64.powi(-33)), TimeTag { seconds: 0, fractional: u32::MAX });
    assert_eq!(tag_of(1.0 - 2.0f64.powi(-31)), TimeTag { seconds: 0, fractional: u32::MAX - 1 });
}

#[test]
fn times_out_of_range_go_to_the_nearest_tag() {
    let zero = TimeTag { seconds: 0, fractional: 0 };
    let last = TimeTag { seconds: u32::MAX, fractional: u32::MAX };
    assert_eq!(tag_of(-0.0), zero);
    assert_eq!(tag_of(-1.5), zero);
    assert_eq!(tag_of(-1e300), zero);
    assert_eq!(tag_of(f64::NEG_INFINITY), zero);
    assert_eq!(tag_of(f64::NAN), zero);
    assert_eq!(tag_of(-f64::NAN), zero);
    assert_eq!(TimeTag::from_seconds_bits(0x7ff0_0000_0000_0001), zero);
    assert_eq!(tag_of(TWO_32), last);
    assert_eq!(tag_of(TWO_32 + 0.5), last);
    assert_eq!(tag_of(1e300), last);
    assert_eq!(tag_of(f64::MAX), last);
    assert_eq!(tag_of(f64::INFINITY), last);
    let just_below = f64::from_bits(TWO_32.to_bits() - 1);
    assert_eq!(tag_of(just_below), by_floats(just_below));
    assert_eq!(tag_of(just_below).seconds, u32::MAX);
}

#[test]
fn times_in_range_become_the_tags_that_float_arithmetic_gives() {
    let mut random = Lcg(1);
    for _ in 0..200_000 {
        let bits = random.next();
        let exponent = 960 + bits % 95;
        let x = f64::from_bits((exponent << 52) | (bits >> 12));
        assert!(x >= 0.0 && x < TWO_32);
        assert_eq!(tag_of(x), by_floats(x), "{:e}", x);
    }
    for bits in 0..4096u64 {
        let x = f64::from_bits(bits << 40);
        if x < TWO_32 {
            assert_eq!(tag_of(x), by_floats(x), "{:e}", x);
        }
    }
}

#[test]
fn tags_become_the_seconds_that_float_arithmetic_gives() {
    let mut random = Lcg(2);
    for _ in 0..200_000 {
        let bits = random.next();
        let shift = random.next() % 64;
        let w = bits >> shift;
        let tag = TimeTag { seconds: (w >> 32) as u32, fractional: w as u32 };
        assert_eq!(tag.to_seconds_bits(), seconds_by_floats(tag).to_bits(), "{:?}", tag);
    }
}

#[test]
fn chosen_tags_become_the_nearest_double() {
    assert_eq!(seconds_of(TimeTag { seconds: 0, fractional: 0 }).to_bits(), 0);
    assert_eq!(seconds_of(TimeTag { seconds: 0, fractional: 1 }), 2.0f64.powi(-32));
    assert_eq!(seconds_of(TimeTag { seconds: 1, fractional: 0 }), 1.0);
    assert_eq!(seconds_of(TimeTag { seconds: u32::MAX, fractional: 0 }), 4294967295.0);
    // 53 bits are kept as they are.
    let exact = TimeTag { seconds: (1 << 21) - 1, fractional: u32::MAX };
    assert_eq!(seconds_of(exact), 2097152.0 - 2.0f64.powi(-32));
    // With 54 bits the last is rounded off: from the middle to the even neighbour.
    assert_eq!(seconds_of(TimeTag { seconds: 1 << 21, fractional: 1 }), 2097152.0);
    assert_eq!(
        seconds_of(TimeTag { seconds: 1 << 21, fractional: 3 }),
        2097152.0 + 4.0 * 2.0f64.powi(-32)
    );
    assert_eq!(
        seconds_of(TimeTag { seconds: 1 << 21, fractional: 2 }),
        2097152.0 + 2.0 * 2.0f64.powi(-32)
    );
    // Rounding may carry into the next power of two.
    assert_eq!(seconds_of(TimeTag { seconds: u32::MAX, fractional: u32::MAX }), TWO_32);
    assert_eq!(seconds_of(TimeTag { seconds: (1 << 22) - 1, fractional: u32::MAX }), 4194304.0);
}

#[test]
fn a_time_comes_back_within_one_unit_of_the_fraction() {
    let mut random = Lcg(3);
    for _ in 0..200_000 {
        let bits = random.next();
        let exponent = 900 + bits % 155;
        let x = f64::from_bits((exponent << 52) | (bits >> 12));
        assert!(x >= 0.0 && x < TWO_32);
        let back = seconds_of(tag_of(x));
        assert!((back - x).abs() <= 1.0 / TWO_32, "{:e} came back as {:e}", x, back);
        if x >= 1048576.0 {
            assert_eq!(back.to_bits(), x.to_bits());
        }
    }
}

#[test]
fn a_tag_of_at_most_53_bits_comes_back_as_it_was() {
    let mut random = Lcg(4);
    for _ in 0..200_000 {
        let w = random.next() >> (11 + random.next() % 53);
        let tag = TimeTag { seconds: (w >> 32) as u32, fractional: w as u32 };
        assert_eq!(TimeTag::from_seconds_bits(tag.to_seconds_bits()), tag);
    }
}
