use live_plotter::number::Number;

fn num(v: f64) -> Number {
    Number { bits: v.to_bits() }
}

fn val(n: Number) -> f64 {
    f64::from_bits(n.bits)
}

const VALUES: [f64; 17] = [
    f64::NEG_INFINITY,
    f64::MIN,
    -2.5,
    -1.0,
    -1e-300,
    -5e-324,
    -0.0,
    0.0,
    5e-324,
    1e-300,
    1.0,
    1.5,
    2.0,
    1e10,
    f64::MAX,
    f64::INFINITY,
    f64::NAN,
];

#[test]
fn order_is_that_of_the_numbers() {
    for a in VALUES {
        for b in VALUES {
            assert_eq!(num(a).lt(num(b)), a < b, "{} < {}", a, b);
            assert_eq!(num(a).le(num(b)), a <= b, "{} <= {}", a, b);
            assert_eq!(num(a).equals(num(b)), a == b, "{} == {}", a, b);
        }
    }
}

#[test]
fn min_and_max_pass_nan_over() {
    for a in VALUES {
        for b in VALUES {
            let (lo, hi) = (val(num(a).min(num(b))), val(num(a).max(num(b))));
            assert!(lo == a.min(b) || (a.is_nan() && b.is_nan() && lo.is_nan()));
            assert!(hi == a.max(b) || (a.is_nan() && b.is_nan() && hi.is_nan()));
        }
    }
}

#[test]
fn kinds_of_numbers() {
    for a in VALUES {
        assert_eq!(num(a).is_nan(), a.is_nan());
        assert_eq!(num(a).is_infinite(), a.is_infinite());
    }
    assert!(num(-f64::NAN).is_nan());
}
