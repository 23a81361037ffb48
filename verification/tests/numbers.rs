//! The library's numbers against the machine's.
use quant_trader::num::series::{argmax, mean, sorted, stable_order, sum};
use quant_trader::num::Real;

fn r(x: f64) -> Real {
    Real::from_bits(x.to_bits())
}

fn f(x: Real) -> f64 {
    f64::from_bits(x.bits)
}

struct Dice(u64);

impl Dice {
    fn next(&mut self) -> u64 {
        self.0 ^= self.0 << 13;
        self.0 ^= self.0 >> 7;
        self.0 ^= self.0 << 17;
        self.0
    }

    /// Any pattern, a special value, or a number of moderate size.
    fn number(&mut self) -> f64 {
        let special = [
            0.0,
            -0.0,
            1.0,
            -1.0,
            f64::INFINITY,
            f64::NEG_INFINITY,
            f64::NAN,
            f64::MIN_POSITIVE,
            f64::MAX,
            -f64::MAX,
            5e-324,
            -5e-324,
            2.2250738585072011e-308,
            0.5,
            1.5,
            2.5,
            0.49999999999999994,
            9007199254740993.0,
        ];
        match self.next() % 8 {
            0 => special[(self.next() % 18) as usize],
            1 => f64::from_bits(self.next()),
            2 => f64::from_bits(self.next() % (1 << 54)),
            3 => (self.next() % 2000) as f64 / 8.0 - 100.0,
            4 => f64::from_bits(0x3ff0_0000_0000_0000 + self.next() % (1 << 30)),
            _ => {
                let e = 0x3c0 + self.next() % 0x80;
                let m = self.next() % (1 << 52);
                let s = self.next() % 2;
                f64::from_bits((s << 63) | (e << 52) | m)
            }
        }
    }
}

fn same(a: Real, b: f64, what: &str) {
    if b.is_nan() {
        assert!(a.is_nan(), "{}: {:x} is not NaN", what, a.bits);
    } else {
        assert_eq!(a.bits, b.to_bits(), "{}: {} against {}", what, f(a), b);
    }
}

#[test]
fn arithmetic_agrees_with_machine_numbers() {
    let mut d = Dice(0x9e37_79b9_7f4a_7c15);
    for _ in 0..200_000 {
        let (x, y) = (d.number(), d.number());
        let what = format!("{:e} {:e}", x, y);
        same(r(x) + r(y), x + y, &what);
        same(r(x) - r(y), x - y, &what);
        same(r(x) * r(y), x * y, &what);
        same(r(x) / r(y), x / y, &what);
        same(r(x).sqrt(), x.sqrt(), &what);
        same(r(x).neg(), -x, &what);
        same(r(x).abs(), x.abs(), &what);
        same(r(x).signum(), x.signum(), &what);
        same(r(x).round(), x.round(), &what);
        assert_eq!(r(x).index(), x as usize, "{}", what);
    }
}

#[test]
fn comparison_agrees_with_machine_numbers() {
    let mut d = Dice(0x1234_5678_9abc_def1);
    for _ in 0..200_000 {
        let (x, y) = (d.number(), d.number());
        let y = if d.next() % 4 == 0 { x } else { y };
        assert_eq!(r(x) < r(y), x < y);
        assert_eq!(r(x) <= r(y), x <= y);
        assert_eq!(r(x) > r(y), x > y);
        assert_eq!(r(x) >= r(y), x >= y);
        assert_eq!(r(x) == r(y), x == y);
        assert_eq!(r(x).is_nan(), x.is_nan());
        let (a, b) = (r(x).max(r(y)), x.max(y));
        assert!(f(a) == b || (a.is_nan() && b.is_nan()));
        let (a, b) = (r(x).min(r(y)), x.min(y));
        assert!(f(a) == b || (a.is_nan() && b.is_nan()));
        if x <= y {
            let z = d.number();
            same(r(z).clamp(r(x), r(y)), z.clamp(x, y), "clamp");
        }
    }
}

#[test]
fn integers_and_literals_agree_with_machine_numbers() {
    let mut d = Dice(77);
    for _ in 0..100_000 {
        let i = (d.next() as i64) >> (d.next() % 64);
        same(Real::whole(i), i as f64, "whole");
        let n = (d.next() >> (d.next() % 64)) as usize;
        same(Real::count(n), n as f64, "count");
    }
    same(Real::whole(i64::MIN), i64::MIN as f64, "whole");
    same(Real::count(usize::MAX), usize::MAX as f64, "count");
    same(Real::ratio(5, 100), 0.05, "0.05");
    same(Real::ratio(15, 1000), 0.015, "0.015");
    same(Real::ratio(1, 10_000_000_000), 1e-10, "1e-10");
    same(Real::ratio(-7, 10), -0.7, "-0.7");
}

#[test]
fn sums_run_from_the_front() {
    let mut d = Dice(3);
    for len in 0..40 {
        let v: Vec<f64> = (0..len).map(|_| d.number()).collect();
        let w: Vec<Real> = v.iter().map(|&x| r(x)).collect();
        same(sum(&w), v.iter().sum::<f64>(), "sum");
        same(mean(&w), v.iter().sum::<f64>() / v.len() as f64, "mean");
    }
}

#[test]
fn orderings_are_stable() {
    let mut d = Dice(5);
    for len in 1..60usize {
        let v: Vec<f64> = (0..len).map(|_| (d.next() % 16) as f64 / 4.0 - 2.0).collect();
        let w: Vec<Real> = v.iter().map(|&x| r(x)).collect();
        let mut idx: Vec<usize> = (0..len).collect();
        idx.sort_by(|&a, &b| v[a].partial_cmp(&v[b]).unwrap());
        assert_eq!(stable_order(&w), idx);
        let s: Vec<f64> = sorted(&w).iter().map(|&x| f(x)).collect();
        let mut t = v.clone();
        t.sort_by(|a, b| a.partial_cmp(b).unwrap());
        assert_eq!(s, t);
        let best = v
            .iter()
            .enumerate()
            .max_by(|a, b| a.1.partial_cmp(b.1).unwrap())
            .map(|(i, _)| i);
        assert_eq!(Some(argmax(&w)), best);
    }
}
