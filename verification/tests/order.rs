use ivf_store::order::{least, nearest, word_is_nan, word_less};

fn samples() -> Vec<f32> {
    vec![
        0.0,
        -0.0,
        1.0,
        -1.0,
        0.4,
        0.5,
        -0.5,
        2.5,
        1.0e-40,
        -1.0e-40,
        f32::MIN_POSITIVE,
        f32::MAX,
        f32::MIN,
        f32::INFINITY,
        f32::NEG_INFINITY,
        f32::NAN,
        -f32::NAN,
        f32::from_bits(0x7f80_0001),
        f32::from_bits(0xffff_ffff),
        f32::EPSILON,
        123456.79,
        -123456.79,
    ]
}

#[test]
fn word_less_agrees_with_the_numbers() {
    let xs = samples();
    for a in xs.iter() {
        for b in xs.iter() {
            assert_eq!(word_less(a.to_bits(), b.to_bits()), a < b, "{:?} < {:?}", a, b);
        }
    }
}

#[test]
fn word_is_nan_agrees_with_the_numbers() {
    for a in samples().iter() {
        assert_eq!(word_is_nan(a.to_bits()), a.is_nan(), "{:?}", a);
    }
}

#[test]
fn zeros_of_either_sign_are_equal() {
    assert!(!word_less(0x8000_0000, 0));
    assert!(!word_less(0, 0x8000_0000));
}

#[test]
fn nearest_takes_the_first_of_equal_distances() {
    let ds: Vec<u32> = vec![3.0f32, 1.0, 1.0, 2.0].iter().map(|x| x.to_bits()).collect();
    assert_eq!(nearest(&ds), 1);
}

#[test]
fn nearest_of_one_is_zero() {
    assert_eq!(nearest(&vec![9.5f32.to_bits()]), 0);
}

#[test]
fn nearest_skips_what_is_not_a_number() {
    let ds: Vec<u32> = vec![5.0f32, f32::NAN, 2.0, f32::NAN].iter().map(|x| x.to_bits()).collect();
    assert_eq!(nearest(&ds), 2);
}

#[test]
fn nearest_stays_at_a_first_word_that_is_not_a_number() {
    let ds: Vec<u32> = vec![f32::NAN, 1.0, 0.5].iter().map(|x| x.to_bits()).collect();
    assert_eq!(nearest(&ds), 0);
}

#[test]
fn least_finds_the_first_least() {
    let ds: Vec<u32> = vec![4.0f32, 0.25, 7.0, 0.25].iter().map(|x| x.to_bits()).collect();
    assert_eq!(least(&ds), Some(1));
}

#[test]
fn least_finds_nothing_in_nothing() {
    assert_eq!(least(&Vec::new()), None);
}

#[test]
fn least_takes_the_largest_words_for_numbers() {
    let ds: Vec<u32> =
        vec![f32::INFINITY, f32::MAX, f32::INFINITY].iter().map(|x| x.to_bits()).collect();
    assert_eq!(least(&ds), Some(1));
    let ds: Vec<u32> = vec![f32::INFINITY, f32::INFINITY].iter().map(|x| x.to_bits()).collect();
    assert_eq!(least(&ds), Some(0));
}

#[test]
fn least_passes_over_what_is_not_a_number() {
    let ds: Vec<u32> = vec![f32::NAN, 3.0, f32::NAN, 1.0].iter().map(|x| x.to_bits()).collect();
    assert_eq!(least(&ds), Some(3));
    let ds: Vec<u32> = vec![f32::NAN, f32::INFINITY].iter().map(|x| x.to_bits()).collect();
    assert_eq!(least(&ds), Some(1));
}

#[test]
fn least_finds_nothing_where_no_word_is_a_number() {
    let ds: Vec<u32> = vec![f32::NAN, -f32::NAN].iter().map(|x| x.to_bits()).collect();
    assert_eq!(least(&ds), None);
}

#[test]
fn least_takes_negative_words_for_smaller() {
    let ds: Vec<u32> = vec![0.0f32, -1.0, -3.0, -2.0].iter().map(|x| x.to_bits()).collect();
    assert_eq!(least(&ds), Some(2));
}

#[test]
fn least_takes_the_first_zero_of_either_sign() {
    let ds: Vec<u32> = vec![1.0f32, -0.0, 0.0].iter().map(|x| x.to_bits()).collect();
    assert_eq!(least(&ds), Some(1));
}
