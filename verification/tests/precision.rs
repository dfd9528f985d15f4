use resmon::binary::{divide, from_whole, hold, multiply, Double};
use resmon::percent::{cells_of, percent_of};
use resmon::single::{from_pattern, take_from_hundred, to_single, Single};

struct Noise(u64);

impl Noise {
    fn next(&mut self) -> u64 {
        self.0 ^= self.0 << 13;
        self.0 ^= self.0 >> 7;
        self.0 ^= self.0 << 17;
        self.0
    }
}

fn value(x: Double) -> f64 {
    x.mant as f64 * 2f64.powi(x.exp)
}

fn single_value(x: Single) -> f32 {
    match x {
        Single::Finite { negative, mant, exp } => {
            let size = (mant as f64 * 2f64.powi(exp)) as f32;
            if negative {
                -size
            } else {
                size
            }
        }
        Single::Infinite { negative } => {
            if negative {
                f32::NEG_INFINITY
            } else {
                f32::INFINITY
            }
        }
        Single::NotANumber => f32::NAN,
    }
}

fn percent_in_floats(part: u64, whole: u64) -> f64 {
    if whole > 0 {
        (part as f64 / whole as f64) * 100.0
    } else {
        0.0
    }
}

#[test]
fn whole_numbers_agree_with_floats() {
    let mut noise = Noise(2463534242);
    for i in 0..300_000u32 {
        let n = noise.next() >> (i % 64);
        assert_eq!(value(from_whole(n)), n as f64);
        assert_eq!(hold(n), n as f64 as u128);
    }
    assert_eq!(value(from_whole(u64::MAX)), u64::MAX as f64);
    assert_eq!(from_whole(100), Double { mant: 100 << 46, exp: -46 });
}

#[test]
fn quotients_and_products_agree_with_floats() {
    let mut noise = Noise(88172645463325252);
    for i in 0..300_000u32 {
        let a = from_whole(noise.next() >> (i % 64));
        let b = from_whole((noise.next() >> (i / 64 % 64)) | 1);
        assert_eq!(value(divide(a, b)), value(a) / value(b));
        assert_eq!(value(multiply(a, b)), value(a) * value(b));
    }
}

#[test]
fn shares_agree_with_floats() {
    let mut noise = Noise(777);
    for i in 0..300_000u32 {
        let whole = noise.next() >> (i % 64);
        let part = noise.next() >> (i / 7 % 64);
        let share = percent_of(part, whole);
        assert_eq!(value(share), percent_in_floats(part, whole));
        assert_eq!(single_value(to_single(share)), percent_in_floats(part, whole) as f32);
    }
    assert_eq!(percent_of(5, 0), Double { mant: 0, exp: 0 });
}

#[test]
fn filled_cells_agree_with_floats() {
    let mut noise = Noise(31337);
    for i in 0..300_000u32 {
        let whole = (noise.next() >> (i % 63)) + 1;
        let part = noise.next() % whole;
        let bars = (noise.next() % 256) as u8;
        let percent = percent_in_floats(part, whole);
        let filled = ((percent / 100.0) * bars as f64).round() as usize;
        assert_eq!(cells_of(percent_of(part, whole), bars), Some(filled as u8));
    }
}

#[test]
fn filled_cells_round_half_up() {
    assert_eq!(cells_of(from_whole(50), 1), Some(1));
    assert_eq!(cells_of(from_whole(25), 2), Some(1));
    assert_eq!(cells_of(from_whole(24), 2), Some(0));
    assert_eq!(cells_of(from_whole(75), 2), Some(2));
}

#[test]
fn shares_above_the_whole_overflow_their_bar() {
    assert_eq!(cells_of(percent_of(3, 2), 10), None);
    assert_eq!(cells_of(percent_of(u64::MAX, 1), 255), None);
    assert_eq!(cells_of(from_whole(100), 255), Some(255));
}

#[test]
fn parts_never_overflow_their_bar() {
    let mut noise = Noise(99);
    for i in 0..100_000u32 {
        let whole = noise.next() >> (i % 64);
        let part = if i % 3 == 0 { whole } else { noise.next() % (whole | 1) };
        let part = if part > whole { whole } else { part };
        let bars = (i % 256) as u8;
        assert!(cells_of(percent_of(part, whole), bars).is_some());
    }
}

#[test]
fn whole_is_a_hundred_percent() {
    for n in [1u64, 3, 7, 1000, u64::MAX] {
        assert_eq!(percent_of(n, n), from_whole(100));
        assert_eq!(percent_of(0, n), from_whole(0));
    }
}

#[test]
fn greater_shares_fill_no_fewer_cells() {
    for whole in [7u64, 100, 1023] {
        for part in 0..whole {
            let less = cells_of(percent_of(part, whole), 20);
            let more = cells_of(percent_of(part + 1, whole), 20);
            assert!(less <= more);
            assert!(percent_of(part + 1, whole).reaches(percent_of(part, whole)));
        }
    }
}

fn shown(x: Single) -> String {
    let mut out = String::new();
    x.push_text(&mut out);
    out
}

#[test]
fn patterns_agree_with_floats() {
    let mut noise = Noise(4242);
    for i in 0..300_000u32 {
        let pattern = (noise.next() >> (i % 32)) as u32;
        let x = f32::from_bits(pattern);
        let read = from_pattern(pattern);
        assert_eq!(single_value(read).is_nan(), x.is_nan());
        if !x.is_nan() {
            assert_eq!(single_value(read), x);
        }
        assert_eq!(shown(read), format!("{:.1}", x));
    }
}

#[test]
fn what_is_left_of_a_hundred_agrees_with_floats() {
    let mut noise = Noise(1234567);
    for i in 0..300_000u32 {
        let x = match i % 3 {
            0 => f32::from_bits(noise.next() as u32),
            1 => (noise.next() % 200_000) as f32 / 1000.0,
            _ => (noise.next() % 2000) as f32 / 10.0 - 50.0,
        };
        let rest = take_from_hundred(from_pattern(x.to_bits()));
        let want = 100.0f32 - x;
        if want.is_nan() {
            assert!(single_value(rest).is_nan());
        } else {
            assert_eq!(single_value(rest), want);
            assert_eq!(shown(rest), format!("{:.1}", want));
        }
    }
    for x in [100.0f32, 0.0, -0.0, f32::MAX, f32::MIN, f32::MIN_POSITIVE, f32::INFINITY, 1e-45] {
        let rest = take_from_hundred(from_pattern(x.to_bits()));
        assert_eq!(single_value(rest), 100.0f32 - x);
    }
}

#[test]
fn infinities_and_no_numbers_are_named() {
    assert_eq!(shown(from_pattern(f32::INFINITY.to_bits())), "inf");
    assert_eq!(shown(from_pattern(f32::NEG_INFINITY.to_bits())), "-inf");
    assert_eq!(shown(from_pattern(f32::NAN.to_bits())), "NaN");
    assert_eq!(shown(from_pattern((-0.0f32).to_bits())), "-0.0");
}
