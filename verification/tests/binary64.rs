//! Arithmetic against that of the machine.
use pyrisk::binary64::Binary64;
use pyrisk::output::{percent_of, tenths_of};

fn value(x: Binary64) -> f64 {
    f64::from_bits(x.to_bits())
}

/// Numbers of every size, some of them next to powers of two.
fn samples() -> Vec<usize> {
    let mut v: Vec<usize> = (0..40).collect();
    for s in 5..64 {
        let p = 1usize << s;
        v.push(p - 1);
        v.push(p);
        v.push(p + 1);
        v.push(p + p / 3);
    }
    let mut x: u64 = 88172645463325252;
    for _ in 0..60 {
        x ^= x << 13;
        x ^= x >> 7;
        x ^= x << 17;
        v.push(x as usize);
        v.push((x >> 11) as usize);
        v.push((x >> 40) as usize);
    }
    v.push(usize::MAX);
    v
}

#[test]
fn whole_numbers_round_like_the_machine() {
    for n in samples() {
        assert_eq!(value(Binary64::from_usize(n)), n as f64);
    }
}

#[test]
fn quotients_round_like_the_machine() {
    let v = samples();
    for &n in &v {
        for &d in &v {
            if d > 0 {
                assert_eq!(value(Binary64::ratio(n, d)), n as f64 / d as f64);
            }
        }
    }
}

#[test]
fn products_and_sums_round_like_the_machine() {
    let v = samples();
    for (i, &n) in v.iter().enumerate() {
        let d = v[(i * 7 + 3) % v.len()].max(1);
        let m = v[(i * 5 + 1) % v.len()];
        let x = Binary64::ratio(n, d);
        let y = Binary64::ratio(m, d);
        for k in [1usize, 3, 40, 60, 100, 12345678901234567] {
            let f = k as f64;
            let (p, q) = (x.multiply(Binary64::from_usize(k)), y.multiply(Binary64::from_usize(41)));
            assert_eq!(value(p), n as f64 / d as f64 * f);
            let sum = p.plus_value(q);
            assert_eq!(value(sum), n as f64 / d as f64 * f + m as f64 / d as f64 * 41.0);
            let other = q.plus_value(p);
            assert_eq!(value(other), value(sum));
            assert_eq!(p.is_less(q), value(p) < value(q));
            assert_eq!(sum.truncate(), value(sum) as usize);
        }
    }
    assert_eq!(value(Binary64::nothing()), 0.0);
}

#[test]
fn percentages_print_like_the_machine() {
    for d in 1..220usize {
        for n in 0..=d {
            let ratio = n as f64 / d as f64;
            let shown = format!("{:.0}", ratio * 100.0);
            assert_eq!(percent_of(Binary64::ratio(n, d)).to_string(), shown);
        }
    }
    // Halves go to the even neighbour.
    assert_eq!(percent_of(Binary64::ratio(1, 200)), 0);
    assert_eq!(percent_of(Binary64::ratio(1, 8)), 12);
    assert_eq!(percent_of(Binary64::ratio(3, 8)), 38);
    assert_eq!(percent_of(Binary64::ratio(1, 1)), 100);
}

#[test]
fn tenths_print_like_the_machine() {
    for d in 1..90usize {
        for n in 0..=d {
            let p = Binary64::ratio(n, d);
            let r = Binary64::ratio(d - n, d + 1);
            let score = p.multiply(Binary64::from_usize(60)).plus_value(r.multiply(Binary64::from_usize(40)));
            let expected = n as f64 / d as f64 * 60.0 + (d - n) as f64 / (d + 1) as f64 * 40.0;
            assert_eq!(tenths_of(score), format!("{:.1}", expected));
        }
    }
    // A quarter lies between two tenths: the even one is shown.
    assert_eq!(tenths_of(Binary64::ratio(1, 4)), "0.2");
    assert_eq!(tenths_of(Binary64::ratio(3, 4)), "0.8");
    assert_eq!(tenths_of(Binary64::from_usize(100)), "100.0");
    assert_eq!(tenths_of(Binary64::nothing()), "0.0");
}
