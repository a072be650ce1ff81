use prime_ledger::msd::{normalize, Msd};

fn decode(digits: &[i8]) -> i64 {
    let mut value: i64 = 0;
    let mut weight: i64 = 1;
    for d in digits {
        value += (*d as i64) * weight;
        weight *= 4;
    }
    value
}

#[test]
fn round_trip_examples() {
    for n in -20..20 {
        let msd = Msd::from_int(n);
        assert_eq!(msd.to_int(), n);
    }
}

#[test]
fn round_trip_wide_range() {
    for n in -10000..=10000 {
        let msd = Msd::from_int(n);
        assert_eq!(msd.to_int(), n);
        assert_eq!(decode(msd.as_slice()), n as i64);
        for d in msd.as_slice() {
            assert!(-2 <= *d && *d <= 2);
        }
        let digits = msd.as_slice();
        assert!(digits.len() == 1 || digits[digits.len() - 1] != 0);
    }
}

#[test]
fn zero_is_a_single_zero_digit() {
    let msd = Msd::from_int(0);
    assert_eq!(msd.as_slice(), &[0i8][..]);
    assert_eq!(msd.to_int(), 0);
}

#[test]
fn exact_digits_of_small_numbers() {
    assert_eq!(Msd::from_int(1).as_slice(), &[1i8][..]);
    assert_eq!(Msd::from_int(2).as_slice(), &[2i8][..]);
    assert_eq!(Msd::from_int(3).as_slice(), &[-1i8, 1][..]);
    assert_eq!(Msd::from_int(4).as_slice(), &[0i8, 1][..]);
    assert_eq!(Msd::from_int(6).as_slice(), &[2i8, 1][..]);
    assert_eq!(Msd::from_int(7).as_slice(), &[-1i8, 2][..]);
    assert_eq!(Msd::from_int(15).as_slice(), &[-1i8, 0, 1][..]);
    assert_eq!(Msd::from_int(-1).as_slice(), &[-1i8][..]);
    assert_eq!(Msd::from_int(-3).as_slice(), &[1i8, -1][..]);
    assert_eq!(Msd::from_int(-6).as_slice(), &[-2i8, -1][..]);
}

#[test]
fn extremes_round_trip() {
    for n in [i32::MAX, i32::MAX - 1, i32::MIN, i32::MIN + 1, 1 << 30, -(1 << 30)] {
        let msd = Msd::from_int(n);
        assert_eq!(msd.to_int(), n);
        assert_eq!(decode(msd.as_slice()), n as i64);
        for d in msd.as_slice() {
            assert!(-2 <= *d && *d <= 2);
        }
    }
}

#[test]
fn vector_holds_the_digits() {
    for n in [0, 1, -7, 11, 4096, -10000] {
        let msd = Msd::from_int(n);
        let v = msd.as_vector();
        assert_eq!(v.size(), msd.as_slice().len());
        assert_eq!(v.data().as_slice(), msd.as_slice());
    }
}

#[test]
fn normalize_propagates_carries() {
    assert_eq!(normalize(vec![3]), vec![-1, 1]);
    assert_eq!(normalize(vec![-3]), vec![1, -1]);
    assert_eq!(normalize(vec![3, 2]), vec![-1, -1, 1]);
    assert_eq!(normalize(vec![5, 0]), vec![1, 1]);
    assert_eq!(normalize(vec![-5, -2]), vec![-1, 1, -1]);
}

#[test]
fn normalize_strips_zeros_at_the_top() {
    assert_eq!(normalize(vec![0, 0, 0]), vec![0]);
    assert_eq!(normalize(vec![2, 0, 0]), vec![2]);
    assert_eq!(normalize(vec![0, 1, 0]), vec![0, 1]);
    assert_eq!(normalize(vec![0]), vec![0]);
    assert_eq!(normalize(Vec::new()), Vec::<i8>::new());
}

#[test]
fn normalize_keeps_the_value() {
    let inputs: Vec<Vec<i8>> = vec![
        vec![3, 3, 3],
        vec![-3, 2, -1, 5],
        vec![2, 2, 2, 2],
        vec![126, -127, 7],
        vec![1, -1, 0, 0],
    ];
    for input in inputs {
        let before = decode(&input);
        let out = normalize(input);
        assert_eq!(decode(&out), before);
        assert!(out.len() == 1 || out[out.len() - 1] != 0);
    }
}
