use catalog_api::nearest::nearest;
use catalog_api::price::to_storage;
use catalog_api::price::to_transport;
use catalog_api::price::Decimal;

/// The decimal written as plain digits with an optional point, such as
/// "19.99"; leading zeros of the whole part are dropped.
fn decimal(text: &str) -> Decimal {
    let scale = match text.find('.') {
        Some(at) => (text.len() - at - 1) as i32,
        None => 0,
    };
    let mut digits: Vec<u8> = text.bytes().filter(|b| *b != b'.').map(|b| b - b'0').collect();
    while digits.len() > 1 && digits[0] == 0 {
        digits.remove(0);
    }
    digits.reverse();
    Decimal::from_digits(digits, scale).unwrap()
}

/// What the standard library's parser, which rounds correctly, makes of
/// the digits and the scale.
fn parsed(digits_le: &Vec<u8>, scale: i32) -> f64 {
    let mut text = String::new();
    for d in digits_le.iter().rev() {
        text.push((b'0' + d) as char);
    }
    format!("{}e{}", text, -(scale as i64)).parse::<f64>().unwrap()
}

fn agrees_with_the_parser(digits_le: Vec<u8>, scale: i32) {
    let expected = parsed(&digits_le, scale);
    let got = nearest(&digits_le, scale);
    assert_eq!(got, expected.to_bits(), "{:?} scale {}", digits_le, scale);
}

struct Lcg(u64);

impl Lcg {
    fn next(&mut self) -> u64 {
        self.0 = self.0.wrapping_mul(6364136223846793005).wrapping_add(1442695040888963407);
        self.0 >> 11
    }
}

#[test]
fn common_prices_round_to_their_nearest_number() {
    for (text, value) in [
        ("0.1", 0.1f64),
        ("0.2", 0.2),
        ("0.3", 0.3),
        ("19.99", 19.99),
        ("1", 1.0),
        ("1.5", 1.5),
        ("100", 100.0),
        ("1234567.89", 1234567.89),
        ("0.000001", 0.000001),
        ("3.141592653589793", 3.141592653589793),
        ("3.14159265358979323846264338327950288", std::f64::consts::PI),
        ("2.71828182845904523536028747135266250", std::f64::consts::E),
        ("9007199254740992", 9007199254740992.0),
        ("123456789012345678901234567890", 123456789012345678901234567890.0),
    ] {
        assert_eq!(to_transport(&decimal(text)), value.to_bits(), "{}", text);
    }
}

#[test]
fn ties_go_to_the_even_significand() {
    // 2^53 + 1 lies halfway between 2^53 and 2^53 + 2
    assert_eq!(to_transport(&decimal("9007199254740993")), 9007199254740992.0f64.to_bits());
    // 2^53 + 3 lies halfway between 2^53 + 2 and 2^53 + 4
    assert_eq!(to_transport(&decimal("9007199254740995")), 9007199254740996.0f64.to_bits());
    // one digit tips the balance
    assert_eq!(
        to_transport(&decimal("9007199254740993.0000000000000000000000000001")),
        9007199254740994.0f64.to_bits()
    );
    assert_eq!(
        to_transport(&decimal("9007199254740992.9999999999999999999999999999")),
        9007199254740992.0f64.to_bits()
    );
    // halfway between 1 and the next number above it
    assert_eq!(to_transport(&decimal("1.00000000000000011102230246251565404236316680908203125")), 1.0f64.to_bits());
    assert_eq!(
        to_transport(&decimal("1.00000000000000011102230246251565404236316680908203126")),
        (1.0f64 + f64::EPSILON).to_bits()
    );
}

#[test]
fn rounding_up_may_enter_the_next_binade() {
    // just below 2^53: rounds up to 2^53
    assert_eq!(
        to_transport(&decimal("9007199254740991.75")),
        9007199254740992.0f64.to_bits()
    );
    assert_eq!(to_transport(&decimal("1.9999999999999999999999")), 2.0f64.to_bits());
}

#[test]
fn the_largest_number_and_beyond() {
    let max = format!("{:.0}", f64::MAX);
    assert_eq!(to_transport(&decimal(&max)), f64::MAX.to_bits());
    // half an ulp above the largest number is the first decimal that
    // leaves the finite numbers: 2^1024 - 2^970
    let stored_max = to_storage(f64::MAX.to_bits()).unwrap();
    assert_eq!(to_transport(&stored_max), f64::MAX.to_bits());
    agrees_with_the_parser(vec![8, 5, 1, 3, 2, 6, 8, 4, 3, 1, 3, 9, 6, 7, 9, 7, 1], -292);
    agrees_with_the_parser(vec![9, 5, 1, 3, 2, 6, 8, 4, 3, 1, 3, 9, 6, 7, 9, 7, 1], -292);
    assert_eq!(nearest(&vec![2], -308), f64::INFINITY.to_bits());
    assert_eq!(nearest(&vec![1], -309), f64::INFINITY.to_bits());
    assert_eq!(nearest(&vec![1], -308), 1e308f64.to_bits());
}

#[test]
fn subnormal_numbers_and_below() {
    assert_eq!(nearest(&vec![5], 324), 1);
    assert_eq!(nearest(&vec![9, 4], 325), 1);
    // below half of the least number
    assert_eq!(nearest(&vec![4, 2], 325), 0);
    assert_eq!(nearest(&vec![3], 324), 1);
    assert_eq!(nearest(&vec![2], 324), 0);
    agrees_with_the_parser(vec![7, 4, 2], 326);
    agrees_with_the_parser(vec![8, 4, 2], 326);
    // the least normal number and its neighbours
    assert_eq!(
        nearest(&vec![4, 1, 0, 2, 7, 0, 5, 8, 5, 8, 3, 7, 0, 5, 2, 2, 2], 324),
        f64::MIN_POSITIVE.to_bits()
    );
    agrees_with_the_parser(vec![9, 0, 0, 2, 7, 0, 5, 8, 5, 8, 3, 7, 0, 5, 2, 2, 2], 324);
    let least = to_storage(1).unwrap();
    assert_eq!(to_transport(&least), 1);
}

#[test]
fn storage_and_back_gives_the_same_bits() {
    for x in [
        0.0f64,
        0.1,
        0.5,
        1.0,
        19.99,
        1234.5678,
        1e-7,
        99999999.99,
        3.141592653589793,
        1e22,
        1e23,
        f64::MAX,
        f64::MIN_POSITIVE,
        f64::EPSILON,
        4.9e-324,
        2.2250738585072009e-308,
    ] {
        let stored = to_storage(x.to_bits()).unwrap();
        assert_eq!(to_transport(&stored), x.to_bits(), "{}", x);
    }
    let stored = to_storage((-0.0f64).to_bits()).unwrap();
    assert_eq!(to_transport(&stored), 0);
}

#[test]
fn storage_and_back_gives_the_same_bits_for_scattered_patterns() {
    let mut lcg = Lcg(0x2545_F491_4F6C_DD1D);
    let mut done = 0;
    while done < 60 {
        let bits = (lcg.next() << 11 | lcg.next() & 0x7FF) & 0x7FFF_FFFF_FFFF_FFFF;
        if f64::from_bits(bits).is_finite() {
            let stored = to_storage(bits).unwrap();
            assert_eq!(to_transport(&stored), bits, "{:#x}", bits);
            done += 1;
        }
    }
}

#[test]
fn scattered_decimals_round_as_the_parser_does() {
    let mut lcg = Lcg(0x9E37_79B9_7F4A_7C15);
    for _ in 0..400 {
        let length = 1 + (lcg.next() % 40) as usize;
        let mut digits: Vec<u8> = (0..length).map(|_| (lcg.next() % 10) as u8).collect();
        if length > 1 && digits[length - 1] == 0 {
            digits[length - 1] = 1 + (lcg.next() % 9) as u8;
        }
        let scale = (lcg.next() % 700) as i32 - 340;
        agrees_with_the_parser(digits, scale);
    }
}

#[test]
fn scattered_short_prices_round_as_the_parser_does() {
    let mut lcg = Lcg(42);
    for _ in 0..2000 {
        let cents = lcg.next() % 10_000_000;
        let text = format!("{}.{:02}", cents / 100, cents % 100);
        let expected: f64 = text.parse().unwrap();
        assert_eq!(to_transport(&decimal(&text)), expected.to_bits(), "{}", text);
    }
}

#[test]
fn beyond_the_largest_number_lies_infinity() {
    assert_eq!(to_transport(&decimal("1").clone()), 1.0f64.to_bits());
    let d = Decimal::from_digits(vec![1], -309).unwrap();
    assert_eq!(to_transport(&d), f64::INFINITY.to_bits());
    // halfway between the largest number and 2^1024, which is
    // 2^1024 - 2^970, rounds up, to infinity; the whole number just below
    // it stays finite
    let one = bigdecimal::num_bigint::BigUint::from(1u8);
    let halfway = (one.clone() << 1024usize) - (one.clone() << 970usize);
    let below = halfway.clone() - one;
    let d = Decimal::from_digits(halfway.to_radix_le(10), 0).unwrap();
    assert_eq!(to_transport(&d), f64::INFINITY.to_bits());
    let d = Decimal::from_digits(below.to_radix_le(10), 0).unwrap();
    assert_eq!(to_transport(&d), f64::MAX.to_bits());
    assert_eq!(halfway.to_string().parse::<f64>().unwrap(), f64::INFINITY);
    assert_eq!(below.to_string().parse::<f64>().unwrap(), f64::MAX);
}
