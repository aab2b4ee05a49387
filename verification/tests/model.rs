use space::binary64::{from_u64, Double};
use space::model::{used_percent, Estimate, Percent, StorageReport};

#[test]
fn percentage_uses_used_over_total() {
    assert_eq!(used_percent(650_000_000_000, 1_000_000_000_000).value(), from_u64(65));
    assert_eq!(used_percent(1, 0).value(), Double { m: 0, e: 0 });
}

#[test]
fn lower_bound_estimate_records_inaccessible_paths() {
    let estimate = Estimate::lower_bound(86, 3);
    assert_eq!(estimate.bytes, 86);
    assert!(estimate.incomplete);
    assert_eq!(estimate.inaccessible_paths, 3);
}

#[test]
fn exact_estimate_is_complete() {
    let estimate = Estimate::exact(42);
    assert_eq!(estimate.bytes, 42);
    assert!(!estimate.incomplete);
    assert_eq!(estimate.inaccessible_paths, 0);
}

#[test]
fn percentages_show_tenths_of_the_double_ratio() {
    assert_eq!(used_percent(1, 0), Percent { used: 0, total: 0 });
    assert_eq!(used_percent(471, 1000).tenths(), 471);
    assert_eq!(used_percent(1, 3).tenths(), 333);
    assert_eq!(used_percent(2, 3).tenths(), 667);
    assert_eq!(used_percent(1, 2000).tenths(), 1);
    assert_eq!(used_percent(5, 10).tenths(), 500);
    assert_eq!(used_percent(u64::MAX, u64::MAX).tenths(), 1000);
}

#[test]
fn empty_report_is_at_schema_version_one() {
    let r = StorageReport::empty();
    assert_eq!(r.schema_version, 1);
    assert!(r.storage.is_empty());
    assert!(r.hidden_mounts.is_empty());
    assert_eq!(r.mount_count, 0);
    assert_eq!(r.independent_storage_count, 0);
    assert_eq!(r.inaccessible_paths, 0);
    assert!(r.warnings.is_empty());
}
