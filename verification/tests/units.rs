use diffuse_daemon::display::render_bar;
use diffuse_daemon::marketplace::human_bytes as market_bytes;
use diffuse_daemon::units::{
    compute_share, fits, human_bytes, human_count, human_params, share_of_model, usable,
};

/// Numbers of all sizes, with those around powers and ties among them.
fn samples() -> Vec<u64> {
    let mut v: Vec<u64> = vec![0, 1, 2, 9, 10, 999, 1000, 1001, 1023, 1024, 1025, 1499, 1500, 1501, 2500, 3500];
    let mut x: u64 = 12345;
    for _ in 0..4000 {
        x = x.wrapping_mul(6364136223846793005).wrapping_add(1442695040888963407);
        let shift = (x >> 58) as u32;
        v.push(x >> shift);
    }
    for k in 0..64u32 {
        let p = 1u64 << k;
        v.push(p);
        v.push(p - 1);
        v.push(p.wrapping_add(1));
        v.push(p.wrapping_mul(3) / 2);
    }
    for k in 0..200u64 {
        v.push(k * 50_000_000 + 1_000_000_000);
        v.push(k * 500_000);
        v.push(k * 500);
        v.push(k * 50_000 + 1_000_000);
    }
    v.push(u64::MAX);
    v.push(u64::MAX - 1);
    v
}

fn float_bytes(b: u64, units: &[&str]) -> (f64, usize, String) {
    let mut value = b as f64;
    let mut unit = 0;
    while value >= 1024.0 && unit < units.len() - 1 {
        value /= 1024.0;
        unit += 1;
    }
    (value, unit, format!("{:.1} {}", value, units[unit]))
}

#[test]
fn sizes_read_as_floating_point_numbers_give_them() {
    for b in samples() {
        let (_, unit, s) = float_bytes(b, &["B", "KB", "MB", "GB"]);
        let expected = if unit == 0 { format!("{} B", b) } else { s };
        assert_eq!(human_bytes(b), expected, "{}", b);
        let (_, _, s) = float_bytes(b, &["B", "KB", "MB", "GB", "TB"]);
        assert_eq!(market_bytes(b), s, "{}", b);
    }
    assert_eq!(human_bytes(512), "512 B");
    assert_eq!(human_bytes(1536), "1.5 KB");
    assert_eq!(market_bytes(512), "512.0 B");
    assert_eq!(market_bytes(12_000_000_000), "11.2 GB");
}

#[test]
fn parameters_and_counts_read_as_floating_point_numbers_give_them() {
    for n in samples() {
        let expected = if n == 0 {
            "   ?  ".to_string()
        } else {
            let b = n as f64 / 1e9;
            if b >= 1.0 {
                format!("{:>5.1}B", b)
            } else {
                format!("{:>5.0}M", n as f64 / 1e6)
            }
        };
        assert_eq!(human_params(n), expected, "{}", n);
        let expected = if n >= 1_000_000 {
            format!("{:.1}M", n as f64 / 1e6)
        } else if n >= 1_000 {
            format!("{:.0}k", n as f64 / 1e3)
        } else {
            n.to_string()
        };
        assert_eq!(human_count(n), expected, "{}", n);
    }
    assert_eq!(human_params(494_000_000), "  494M");
    assert_eq!(human_params(70_000_000_000), " 70.0B");
    assert_eq!(human_count(2_100_000), "2.1M");
    assert_eq!(human_count(1432), "1k");
}

#[test]
fn what_fits_is_what_floating_point_numbers_say() {
    let all = samples();
    for (i, a) in all.iter().enumerate() {
        for k in [1usize, 7, 31, 101] {
            let b = all[(i * k + k) % all.len()];
            assert_eq!(fits(*a, b), (*a as f64) * 1.3 <= b as f64, "{} {}", a, b);
        }
        assert_eq!(usable(*a), (*a as f64 * 0.7) as u64, "{}", a);
    }
    assert!(fits(10, 13));
    assert!(!fits(10, 12));
    assert_eq!(usable(10), 7);
}

#[test]
fn shares_are_what_floating_point_numbers_say() {
    let mut all: Vec<u32> = samples().iter().map(|n| *n as u32).collect();
    all.extend(0..130);
    for (i, a) in all.iter().enumerate() {
        for k in [1usize, 3, 17] {
            let b = all[(i * k + k) % all.len()];
            let share = (*a as f64 / b.max(1) as f64 * 100.0).min(100.0);
            assert_eq!(share_of_model(*a, b).to_string(), format!("{:.0}", share), "{} {}", a, b);
        }
    }
    for a in 0..130u32 {
        for b in 0..130u32 {
            let share = (a as f64 / b.max(1) as f64 * 100.0).min(100.0);
            assert_eq!(share_of_model(a, b).to_string(), format!("{:.0}", share), "{} {}", a, b);
        }
    }
    assert_eq!(share_of_model(7, 28), 25);
}

#[test]
fn the_time_that_went_into_computing() {
    let all = samples();
    for (i, a) in all.iter().enumerate() {
        let b = all[(i * 13 + 5) % all.len()];
        if let Some(sum) = a.checked_add(b) {
            let expected =
                if sum > 0 { ((*a as f64 / sum as f64) * 100.0).round() as u32 } else { 50 };
            assert_eq!(compute_share(*a, b), expected, "{} {}", a, b);
        }
    }
    for a in 0..210u64 {
        for b in 0..210u64 {
            let expected =
                if a + b > 0 { ((a as f64 / (a + b) as f64) * 100.0).round() as u32 } else { 50 };
            assert_eq!(compute_share(a, b), expected, "{} {}", a, b);
        }
    }
    assert_eq!(compute_share(0, 0), 50);
    assert_eq!(compute_share(1, 3), 25);
}

/// A bar as floating-point numbers fill it.
fn float_bar(current: u32, total: u32) -> String {
    if total == 0 {
        return " ".repeat(24);
    }
    let filled = ((current as f64 / total as f64) * 24f64).round() as usize;
    let filled = filled.min(24);
    let bar: String = "█".repeat(filled) + &"░".repeat(24 - filled);
    let code = if current >= total { 92 } else { 33 };
    format!("\x1b[{}m{}\x1b[39m", code, bar)
}

#[test]
fn a_bar_is_filled_as_floating_point_numbers_fill_it() {
    for total in 0..260u32 {
        for current in 0..300u32 {
            assert_eq!(render_bar(current, total), float_bar(current, total), "{} {}", current, total);
        }
    }
    let all = samples();
    for (i, a) in all.iter().enumerate() {
        let b = all[(i * 13 + 5) % all.len()] as u32;
        assert_eq!(render_bar(*a as u32, b), float_bar(*a as u32, b), "{} {}", a, b);
    }
    for k in 0..24u32 {
        for m in [1u32, 5, 1000, 70_000_001] {
            let (current, total) = ((2 * k + 1) * m, 48 * m);
            assert_eq!(render_bar(current, total), float_bar(current, total), "{} {}", current, total);
        }
    }
}
