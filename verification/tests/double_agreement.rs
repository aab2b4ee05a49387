use space::model::{Percent, StorageReport, StorageVolume};
use space::output::terminal::{format_bytes, render_with_options, RenderOptions};

fn double_bytes(n: u64) -> String {
    let (v, u) = if n >= 1_000_000_000_000 {
        (n as f64 / 1e12, "TB")
    } else if n >= 1_000_000_000 {
        (n as f64 / 1e9, "GB")
    } else if n >= 1_000_000 {
        (n as f64 / 1e6, "MB")
    } else if n >= 1_000 {
        (n as f64 / 1e3, "KB")
    } else {
        return format!("{n} B");
    };
    format!("{v:.1} {u}")
}

fn double_percent(used: u64, total: u64) -> f64 {
    if total == 0 {
        0.0
    } else {
        used as f64 / total as f64 * 100.0
    }
}

struct Lcg(u64);

impl Lcg {
    fn next(&mut self) -> u64 {
        self.0 = self.0.wrapping_mul(6364136223846793005).wrapping_add(1442695040888963407);
        self.0 ^ (self.0 >> 29)
    }
}

fn byte_samples() -> Vec<u64> {
    let mut v = vec![0, 1, 999, 1_000, 1_149, 1_150, 1_151, 1_250, 1_350, 1_450, 999_949, 999_950, 999_999];
    v.extend([u64::MAX, u64::MAX - 1, (1 << 53) - 1, 1 << 53, (1 << 53) + 1, 1 << 63]);
    for d in [1_000u64, 1_000_000, 1_000_000_000, 1_000_000_000_000] {
        for j in 20..4_000u64 {
            let n = d / 20 * j;
            v.extend([n - 1, n, n + 1]);
        }
    }
    let mut r = Lcg(7);
    for _ in 0..20_000 {
        let x = r.next();
        v.push(x >> (r.next() % 64));
    }
    v
}

#[test]
fn byte_counts_match_double_formatting() {
    for n in byte_samples() {
        assert_eq!(format_bytes(n), double_bytes(n), "{n}");
    }
}

#[test]
fn exact_ties_and_near_ties_of_bytes() {
    assert_eq!(format_bytes(1_150), "1.1 KB");
    assert_eq!(format_bytes(1_250), "1.2 KB");
    assert_eq!(format_bytes(1_350), "1.4 KB");
    assert_eq!(format_bytes(1_250_000), "1.2 MB");
    assert_eq!(format_bytes(999_999), "1000.0 KB");
    assert_eq!(format_bytes(1_000_000_000_000), "1.0 TB");
}

fn percent_samples() -> Vec<(u64, u64)> {
    let mut v = vec![(0, 0), (1, 0), (0, 5), (3, 2_000), (1, 24), (1, 2_000), (5, 10), (1, 3), (2, 3)];
    v.extend([(u64::MAX, u64::MAX), (u64::MAX, 1), (1, u64::MAX), (650_000_000_000, 1_000_000_000_000)]);
    for total in [24u64, 100, 1_000, 2_000, 2_400, 123_456] {
        for used in 0..=total.min(3_000) {
            v.push((used, total));
        }
    }
    let mut r = Lcg(11);
    for _ in 0..20_000 {
        let total = r.next() >> (r.next() % 64);
        let used = if total == 0 { 0 } else { r.next() % (total + 1) };
        v.push((used, total));
    }
    v
}

#[test]
fn percentages_match_double_formatting() {
    for (used, total) in percent_samples() {
        let t = Percent { used, total }.tenths();
        assert_eq!(
            format!("{}.{}", t / 10, t % 10),
            format!("{:.1}", double_percent(used, total)),
            "{used} / {total}"
        );
    }
}

fn volume(used: u64, total: u64) -> StorageVolume {
    StorageVolume {
        id: "v".into(),
        name: "Disk".into(),
        filesystem: "ext4".into(),
        representative_mount: "/".into(),
        total_bytes: total,
        used_bytes: used,
        available_bytes: total.saturating_sub(used),
        reserved_bytes: Some(0),
        used_percent: Percent { used, total },
        physical: true,
        removable: false,
        categories: vec![],
        mounts: vec!["/".into()],
    }
}

#[test]
fn bars_and_colors_match_double_arithmetic() {
    let mut samples = percent_samples();
    samples.truncate(6_000);
    for (used, total) in samples {
        let mut report = StorageReport::empty();
        report.storage = vec![volume(used, total)];
        let text = render_with_options(
            &report,
            false,
            RenderOptions {
                ascii: true,
                color: false,
                width: 100,
            },
        );
        let p = double_percent(used, total);
        let filled = (p.clamp(0.0, 100.0) / 100.0 * 12.0).round() as usize;
        let bar = "#".repeat(filled) + &"-".repeat(12usize.saturating_sub(filled));
        assert!(text.contains(&format!("  {bar}  ")), "{used} / {total}: {text}");
        let colored = render_with_options(
            &report,
            false,
            RenderOptions {
                ascii: false,
                color: true,
                width: 100,
            },
        );
        let code = if p < 70.0 {
            32
        } else if p < 85.0 {
            33
        } else {
            31
        };
        let pct = format!("\u{1b}[{code}m{:>4.1}%\u{1b}[0m", p);
        assert!(colored.contains(&pct), "{used} / {total}: {colored}");
    }
}
