use pdf_page::Single;

struct Source {
    state: u64,
}

impl Source {
    fn next(&mut self) -> u32 {
        self.state = self
            .state
            .wrapping_mul(6364136223846793005)
            .wrapping_add(1442695040888963407);
        (self.state >> 32) as u32
    }
}

fn same(ours: Single, theirs: f32) -> bool {
    let number = f32::from_bits(ours.to_bits());
    (number.is_nan() && theirs.is_nan()) || ours.to_bits() == theirs.to_bits()
}

fn equal(ours: Single, theirs: f32) -> bool {
    let number = f32::from_bits(ours.to_bits());
    (number.is_nan() && theirs.is_nan()) || number == theirs
}

const EDGES: [u32; 24] = [
    0x0000_0000, 0x8000_0000, 0x0000_0001, 0x8000_0001, 0x0000_0002, 0x007f_ffff, 0x0080_0000,
    0x0080_0001, 0x00ff_ffff, 0x0100_0000, 0x3f80_0000, 0xbf80_0000, 0x3f80_0001, 0x3f7f_ffff,
    0x4b00_0000, 0x4b7f_ffff, 0x7f7f_ffff, 0xff7f_ffff, 0x7f80_0000, 0xff80_0000, 0x7fc0_0000,
    0x7f80_0001, 0x4f00_0000, 0x3300_0000,
];

fn check_pair(a: u32, b: u32) {
    let (x, y) = (Single::from_bits(a), Single::from_bits(b));
    let (p, q) = (f32::from_bits(a), f32::from_bits(b));
    assert!(same(x.plus(y), p + q), "{:x} + {:x}", a, b);
    assert!(same(x.minus(y), p - q), "{:x} - {:x}", a, b);
    assert!(same(x.times(y), p * q), "{:x} * {:x}", a, b);
    assert!(same(x.divided_by(y), p / q), "{:x} / {:x}", a, b);
    assert!(equal(x.min(y), p.min(q)), "{:x} min {:x}", a, b);
    assert!(equal(x.max(y), p.max(q)), "{:x} max {:x}", a, b);
    assert_eq!(x.less_than(y), p < q, "{:x} < {:x}", a, b);
}

fn check_one(a: u32) {
    let x = Single::from_bits(a);
    let p = f32::from_bits(a);
    assert_eq!(x.round(), p.round() as i32, "round {:x}", a);
    assert_eq!(x.not_a_number(), p.is_nan());
    assert!(same(x.negated(), -p));
    assert!(same(Single::from_u32(a), a as f32), "{} as single", a);
    assert!(same(Single::from_i32(a as i32), a as i32 as f32), "{} as single", a as i32);
}

#[test]
fn edge_cases_agree_with_hardware() {
    for a in EDGES {
        check_one(a);
        for b in EDGES {
            check_pair(a, b);
        }
    }
}

#[test]
fn random_bits_agree_with_hardware() {
    let mut source = Source { state: 1 };
    for _ in 0..200_000 {
        let a = source.next();
        let b = source.next();
        check_one(a);
        check_pair(a, b);
    }
}

#[test]
fn close_exponents_agree_with_hardware() {
    let mut source = Source { state: 7 };
    for _ in 0..200_000 {
        let a = source.next();
        let spread = source.next() % 80;
        let exponent = ((a >> 23) & 0xff).saturating_sub(40) + spread;
        let b = (source.next() & 0x807f_ffff) | (exponent.min(254) << 23);
        check_pair(a, b);
    }
}

#[test]
fn halfway_cases_agree_with_hardware() {
    let mut source = Source { state: 11 };
    for _ in 0..100_000 {
        // A few significant bits each, so that sums and products meet ties.
        let a = 0x3f80_0000 + ((source.next() % 64) << 23) + ((source.next() % 8) << 20)
            + source.next() % 4;
        let b = 0x3780_0000 + ((source.next() % 32) << 23) + ((source.next() % 4) << 21);
        check_pair(a, b);
        check_pair(a, b | 0x8000_0000);
        check_pair(a / 2, b / 3);
    }
}

#[test]
fn small_numbers_round_to_integers() {
    for (value, rounded) in [
        (0.5f32, 1),
        (-0.5, -1),
        (0.49999997, 0),
        (2.5, 3),
        (-2.5, -3),
        (612000.0, 612000),
        (2147483648.0, i32::MAX),
        (-2147483648.0, i32::MIN),
        (-3.0e9, i32::MIN),
        (f32::INFINITY, i32::MAX),
        (f32::NEG_INFINITY, i32::MIN),
        (f32::NAN, 0),
    ] {
        assert_eq!(Single::from_bits(value.to_bits()).round(), rounded);
    }
}

#[test]
fn least_and_greatest_of_four() {
    let single = |x: f32| Single::from_bits(x.to_bits());
    let (a, b, c, d) = (single(3.0), single(-1.0), single(f32::NAN), single(2.0));
    assert_eq!(Single::min_of(a, b, c, d).to_bits(), (-1.0f32).to_bits());
    assert_eq!(Single::max_of(a, b, c, d).to_bits(), 3.0f32.to_bits());
    let nan = single(f32::NAN);
    assert_eq!(Single::min_of(nan, nan, nan, nan).to_bits(), f32::INFINITY.to_bits());
    assert_eq!(Single::max_of(nan, nan, nan, nan).to_bits(), f32::NEG_INFINITY.to_bits());
}
