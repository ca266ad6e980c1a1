use pak::value::{order_bytes, same_text};
use pak::ieee::{order_bits, order_bits_int};
use pak::{PakOrder, PakValue};
use std::cmp::Ordering;

fn expected(order: Option<Ordering>) -> Option<PakOrder> {
    order.map(|o| match o {
        Ordering::Less => PakOrder::Less,
        Ordering::Equal => PakOrder::Equal,
        Ordering::Greater => PakOrder::Greater,
    })
}

fn floats() -> Vec<f64> {
    vec![
        0.0,
        -0.0,
        1.0,
        -1.0,
        0.5,
        -0.5,
        1.5,
        2.5,
        -2.5,
        3.0,
        f64::MIN_POSITIVE,
        -f64::MIN_POSITIVE,
        5e-324,
        -5e-324,
        1e300,
        -1e300,
        f64::MAX,
        f64::MIN,
        f64::INFINITY,
        f64::NEG_INFINITY,
        f64::NAN,
        9007199254740992.0,
        9007199254740993.0,
        9007199254740994.0,
        -9007199254740992.0,
        9223372036854775807.0,
        9223372036854775808.0,
        -9223372036854775808.0,
        18446744073709551615.0,
        18446744073709551616.0,
        36893488147419103232.0,
        4611686018427387904.0,
        4503599627370496.0,
        4503599627370495.5,
        1024.0,
        1023.999,
        0.1,
        255.0,
    ]
}

fn signed() -> Vec<i64> {
    vec![
        0,
        1,
        -1,
        2,
        3,
        -3,
        255,
        1024,
        1 << 52,
        (1 << 53) - 1,
        1 << 53,
        (1 << 53) + 1,
        (1 << 53) + 2,
        (1 << 53) + 3,
        -((1 << 53) + 1),
        -((1 << 53) + 3),
        (1 << 54) + 2,
        (1 << 54) + 6,
        (1 << 62) + 1,
        i64::MAX,
        i64::MAX - 1,
        i64::MAX - 511,
        i64::MAX - 512,
        i64::MAX - 513,
        i64::MIN,
        i64::MIN + 1,
        i64::MIN + 512,
        i64::MIN + 513,
    ]
}

fn unsigned() -> Vec<u64> {
    vec![
        0,
        1,
        2,
        255,
        1 << 53,
        (1 << 53) + 1,
        (1 << 53) + 3,
        1 << 63,
        (1 << 63) + 1024,
        (1 << 63) + 1025,
        (1 << 63) + 3072,
        u64::MAX,
        u64::MAX - 1023,
        u64::MAX - 1024,
        u64::MAX - 2047,
        u64::MAX - 2048,
    ]
}

#[test]
fn float_and_signed_compare_as_floats() {
    for f in floats() {
        for i in signed() {
            let got = PakValue::Float(f.to_bits()).partial_compare(&PakValue::Int(i));
            assert_eq!(got, expected(f.partial_cmp(&(i as f64))), "{f} against {i}");
            let back = PakValue::Int(i).partial_compare(&PakValue::Float(f.to_bits()));
            assert_eq!(back, expected((i as f64).partial_cmp(&f)), "{i} against {f}");
        }
    }
}

#[test]
fn float_and_unsigned_compare_as_floats() {
    for f in floats() {
        for u in unsigned() {
            let got = PakValue::Float(f.to_bits()).partial_compare(&PakValue::Uint(u));
            assert_eq!(got, expected(f.partial_cmp(&(u as f64))), "{f} against {u}");
            let back = PakValue::Uint(u).partial_compare(&PakValue::Float(f.to_bits()));
            assert_eq!(back, expected((u as f64).partial_cmp(&f)), "{u} against {f}");
        }
    }
}

#[test]
fn bits_and_integer_order_on_chosen_values() {
    assert_eq!(order_bits_int(2.5f64.to_bits(), 2), Some(PakOrder::Greater));
    assert_eq!(order_bits_int(2.5f64.to_bits(), 3), Some(PakOrder::Less));
    assert_eq!(order_bits_int(3.0f64.to_bits(), 3), Some(PakOrder::Equal));
    assert_eq!(order_bits_int((-0.0f64).to_bits(), 0), Some(PakOrder::Equal));
    assert_eq!(order_bits_int(f64::NAN.to_bits(), 0), None);
    assert_eq!(order_bits_int(f64::INFINITY.to_bits(), u64::MAX as i128), Some(PakOrder::Greater));
    assert_eq!(
        order_bits_int(f64::NEG_INFINITY.to_bits(), i64::MIN as i128),
        Some(PakOrder::Less)
    );
    // 2^53 + 1 rounds to 2^53: a tie goes to the even neighbour.
    assert_eq!(
        order_bits_int(9007199254740992.0f64.to_bits(), (1i128 << 53) + 1),
        Some(PakOrder::Equal)
    );
    // 2^53 + 3 rounds to 2^53 + 4.
    assert_eq!(
        order_bits_int(9007199254740996.0f64.to_bits(), (1i128 << 53) + 3),
        Some(PakOrder::Equal)
    );
    // The largest unsigned number rounds to 2^64.
    assert_eq!(
        order_bits_int(18446744073709551616.0f64.to_bits(), u64::MAX as i128),
        Some(PakOrder::Equal)
    );
}

#[test]
fn floats_compare_as_numbers() {
    let one = PakValue::Float(1.0f64.to_bits());
    let two = PakValue::Float(2.0f64.to_bits());
    let minus = PakValue::Float((-1.0f64).to_bits());
    assert_eq!(one.partial_compare(&two), Some(PakOrder::Less));
    assert_eq!(two.partial_compare(&one), Some(PakOrder::Greater));
    assert_eq!(one.partial_compare(&one), Some(PakOrder::Equal));
    assert_eq!(minus.partial_compare(&one), Some(PakOrder::Less));
    assert_eq!(one.partial_compare(&minus), Some(PakOrder::Greater));
    assert!(minus < PakValue::Int(0) && PakValue::Int(0) < one && minus < one);
}

#[test]
fn floats_compare_like_the_machine_compares_them() {
    let mut all = floats();
    all.extend([
        0.0,
        -0.0,
        f64::MIN_POSITIVE,
        -f64::MIN_POSITIVE,
        f64::from_bits(1),
        -f64::from_bits(1),
        f64::from_bits(0x000f_ffff_ffff_ffff),
        f64::MAX,
        f64::MIN,
        f64::INFINITY,
        f64::NEG_INFINITY,
        f64::NAN,
        -f64::NAN,
        f64::from_bits(0x7ff0_0000_0000_0001),
        1.5,
        -1.5,
        1e-300,
        -1e300,
    ]);
    for a in &all {
        for b in &all {
            let got = PakValue::Float(a.to_bits()).partial_compare(&PakValue::Float(b.to_bits()));
            assert_eq!(got, expected(a.partial_cmp(b)), "{a} against {b}");
            assert_eq!(order_bits(a.to_bits(), b.to_bits()), expected(a.partial_cmp(b)));
            assert_eq!(PakValue::Float(a.to_bits()) == PakValue::Float(b.to_bits()), a == b);
        }
    }
}

#[test]
fn zeros_are_equal_and_what_is_no_number_equals_nothing() {
    let plus = PakValue::Float(0.0f64.to_bits());
    let minus = PakValue::Float((-0.0f64).to_bits());
    let none = PakValue::Float(f64::NAN.to_bits());
    assert_eq!(plus.partial_compare(&minus), Some(PakOrder::Equal));
    assert!(plus == minus);
    assert_eq!(none.partial_compare(&none), None);
    assert!(none != none);
    assert_eq!(none.partial_compare(&plus), None);
    // The order by which keys are sorted counts incomparable values as equal.
    assert_eq!(none.compare(&plus), PakOrder::Equal);
    assert_eq!(none.cmp(&none), std::cmp::Ordering::Equal);
}

#[test]
fn signed_and_unsigned_compare_as_signed() {
    assert_eq!(PakValue::Int(26).partial_compare(&PakValue::Uint(25)), Some(PakOrder::Greater));
    assert_eq!(PakValue::Int(25).partial_compare(&PakValue::Uint(25)), Some(PakOrder::Equal));
    assert_eq!(PakValue::Uint(3).partial_compare(&PakValue::Int(7)), Some(PakOrder::Less));
    assert_eq!(PakValue::Int(-1).partial_compare(&PakValue::Uint(u64::MAX)), Some(PakOrder::Equal));
    assert_eq!(PakValue::Uint(1 << 63).partial_compare(&PakValue::Int(0)), Some(PakOrder::Less));
    assert_eq!(PakValue::Uint(1 << 63).partial_compare(&PakValue::Uint(1)), Some(PakOrder::Greater));
}

#[test]
fn texts_compare_byte_by_byte() {
    let text = |s: &str| PakValue::String(s.to_string());
    assert_eq!(text("a").partial_compare(&text("b")), Some(PakOrder::Less));
    assert_eq!(text("b").partial_compare(&text("a")), Some(PakOrder::Greater));
    assert_eq!(text("ab").partial_compare(&text("a")), Some(PakOrder::Greater));
    assert_eq!(text("").partial_compare(&text("a")), Some(PakOrder::Less));
    assert_eq!(text("John").partial_compare(&text("John")), Some(PakOrder::Equal));
    assert_eq!(text("Z").partial_compare(&text("a")), Some(PakOrder::Less));
    assert_eq!(text("é").partial_compare(&text("z")), Some(PakOrder::Greater));
    assert_eq!(order_bytes(&[1, 2, 3], &[1, 2, 4]), PakOrder::Less);
    assert_eq!(order_bytes(&[1, 2, 3], &[1, 2]), PakOrder::Greater);
    assert_eq!(order_bytes(&[], &[]), PakOrder::Equal);
    assert!(same_text("abc", "abc"));
    assert!(!same_text("abc", "abd"));
    assert!(!same_text("abc", "ab"));
}

#[test]
fn truth_values_and_void() {
    assert_eq!(
        PakValue::Boolean(false).partial_compare(&PakValue::Boolean(true)),
        Some(PakOrder::Less)
    );
    assert_eq!(
        PakValue::Boolean(true).partial_compare(&PakValue::Boolean(true)),
        Some(PakOrder::Equal)
    );
    assert_eq!(PakValue::Void.partial_compare(&PakValue::Void), Some(PakOrder::Equal));
    assert_eq!(PakValue::Void.partial_compare(&PakValue::Int(1)), None);
    assert_eq!(PakValue::Int(1).partial_compare(&PakValue::Void), None);
}

#[test]
fn incomparable_values_sort_as_equal() {
    let text = PakValue::String("a".to_string());
    assert_eq!(text.partial_compare(&PakValue::Int(1)), None);
    assert_eq!(text.compare(&PakValue::Int(1)), PakOrder::Equal);
    assert_eq!(PakValue::Void.compare(&PakValue::Uint(9)), PakOrder::Equal);
    assert_eq!(PakValue::Boolean(true).compare(&PakValue::Uint(0)), PakOrder::Equal);
    assert_eq!(PakValue::Float(f64::NAN.to_bits()).compare(&PakValue::Int(0)), PakOrder::Equal);
    assert_eq!(text.cmp(&PakValue::Int(1)), Ordering::Equal);
    assert_eq!(PakValue::Int(1).cmp(&PakValue::Int(2)), Ordering::Less);
}

#[test]
fn operators_follow_the_order() {
    assert!(PakValue::Int(1) < PakValue::Int(2));
    assert!(PakValue::Uint(3) > PakValue::Int(2));
    assert!(PakValue::Int(2) == PakValue::Uint(2));
    assert!(PakValue::Int(2) != PakValue::Uint(3));
    assert!(PakValue::Float(2.0f64.to_bits()) == PakValue::Int(2));
    assert!(PakValue::Float(2.5f64.to_bits()) > PakValue::Uint(2));
    assert!(PakValue::String("a".to_string()) != PakValue::Int(1));
    assert!(!(PakValue::String("a".to_string()) < PakValue::Int(1)));
    assert!(!(PakValue::String("a".to_string()) > PakValue::Int(1)));
    assert!(PakValue::Void == PakValue::Void);
    assert!(PakValue::Float(f64::NAN.to_bits()) != PakValue::Int(0));
}

#[test]
fn projections() {
    assert_eq!(PakValue::String("x".to_string()).as_string(), Some("x".to_string()));
    assert_eq!(PakValue::Int(1).as_string(), None);
    assert_eq!(PakValue::Uint(0x1_2345_6789).as_u64(), Some(0x1_2345_6789));
    assert_eq!(PakValue::Uint(0x1_2345_6789).as_u32(), Some(0x2345_6789));
    assert_eq!(PakValue::Uint(0x1_2345_6789).as_u16(), Some(0x6789));
    assert_eq!(PakValue::Uint(0x1_2345_6789).as_u8(), Some(0x89));
    assert_eq!(PakValue::Int(7).as_u64(), None);
    assert_eq!(PakValue::Int(-2).as_i64(), Some(-2));
    assert_eq!(PakValue::Int(-2).as_i32(), Some(-2));
    assert_eq!(PakValue::Int(-2).as_i16(), Some(-2));
    assert_eq!(PakValue::Int(-2).as_i8(), Some(-2));
    assert_eq!(PakValue::Int(0x1_8000_0001).as_i32(), Some(0x1_8000_0001u64 as i64 as i32));
    assert_eq!(PakValue::Int(0x1_8001).as_i16(), Some(0x1_8001i64 as i16));
    assert_eq!(PakValue::Int(0x181).as_i8(), Some(0x181i64 as i8));
    assert_eq!(PakValue::Int(i64::MIN).as_i32(), Some(0));
    assert_eq!(PakValue::Int(i64::MAX).as_i8(), Some(-1));
    assert_eq!(PakValue::Uint(7).as_i64(), None);
    assert_eq!(PakValue::Boolean(true).as_bool(), Some(true));
    assert_eq!(PakValue::Void.as_bool(), None);
    assert_eq!(PakValue::Float(1.5f64.to_bits()).as_float_bits(), Some(1.5f64.to_bits()));
    assert_eq!(PakValue::Int(1).as_float_bits(), None);
}

#[test]
fn conversions() {
    assert_eq!(PakValue::from("a"), PakValue::String("a".to_string()));
    assert_eq!(PakValue::from("a".to_string()), PakValue::String("a".to_string()));
    assert!(matches!(PakValue::from(5i32), PakValue::Int(5)));
    assert!(matches!(PakValue::from(-5i8), PakValue::Int(-5)));
    assert!(matches!(PakValue::from(5i16), PakValue::Int(5)));
    assert!(matches!(PakValue::from(5i64), PakValue::Int(5)));
    assert!(matches!(PakValue::from(5u8), PakValue::Uint(5)));
    assert!(matches!(PakValue::from(5u16), PakValue::Uint(5)));
    assert!(matches!(PakValue::from(5u32), PakValue::Uint(5)));
    assert!(matches!(PakValue::from(5u64), PakValue::Uint(5)));
    assert!(matches!(PakValue::from(true), PakValue::Boolean(true)));
    assert!(matches!(PakValue::of_int(5i32), PakValue::Int(5)));
    assert!(matches!(PakValue::uint(5u16), PakValue::Uint(5)));
    assert!(matches!(PakValue::default(), PakValue::Void));
    assert!(matches!(pak::IntoPakValue::into_pak_value(None::<u32>), PakValue::Void));
    assert!(matches!(pak::IntoPakValue::into_pak_value(Some(3u32)), PakValue::Uint(3)));
    let copy = PakValue::String("a".to_string()).clone();
    assert_eq!(copy, PakValue::String("a".to_string()));
}
