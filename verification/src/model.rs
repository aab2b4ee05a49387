//! The report model: storage volumes, hidden mounts, semantic categories
//! and estimates.
use vstd::prelude::*;
use vstd::arithmetic::power2::pow2;
use crate::binary64::{
    Double, from_nat, from_u64, product, product_exec, quotient, quotient_exec, scaled, tenths, tenths_exec,
    wf,
};

verus! {

/// How sure a classification is.
#[derive(Debug, Clone, Copy, PartialEq, Eq, Structural)]
pub enum Confidence {
    Exact,
    High,
    Medium,
    Unknown,
}

/// Whether the data in a category can be removed.
#[derive(Debug, Clone, Copy, PartialEq, Eq, Structural)]
pub enum Reclaimability {
    Required,
    UserOwned,
    Cache,
    Generated,
    Temporary,
    Stale,
    PossiblyRemovable,
    Unknown,
}

/// A size in bytes, exact or a lower bound when some paths could not be read.
#[derive(Debug, Clone, Copy, PartialEq, Eq, Structural)]
pub struct Estimate {
    pub bytes: u64,
    pub incomplete: bool,
    pub inaccessible_paths: usize,
}

impl Estimate {
    /// An exact size.
    pub fn exact(bytes: u64) -> (r: Self)
        ensures
            r == (Estimate { bytes, incomplete: false, inaccessible_paths: 0 }),
    {
        Self { bytes, incomplete: false, inaccessible_paths: 0 }
    }

    /// A size of which `inaccessible_paths` paths could not be read.
    pub fn lower_bound(bytes: u64, inaccessible_paths: usize) -> (r: Self)
        ensures
            r == (Estimate { bytes, incomplete: true, inaccessible_paths }),
    {
        Self { bytes, incomplete: true, inaccessible_paths }
    }
}

/// A named part of a volume's contents, such as `Developer / Rust`.
#[derive(Debug, PartialEq, Eq)]
pub struct SemanticCategory {
    pub name: String,
    pub path: Vec<String>,
    pub estimate: Estimate,
    pub confidence: Confidence,
    pub reclaimability: Reclaimability,
    pub children: Vec<SemanticCategory>,
}

/// A mount that is not reported as storage of its own.
#[derive(Debug, Clone, PartialEq, Eq)]
pub struct MountView {
    pub source: String,
    pub target: String,
    pub filesystem: String,
    pub device_id: Option<String>,
    pub backing_storage_id: Option<String>,
    pub independent: bool,
    pub hidden_reason: Option<String>,
    pub total_bytes: u64,
    pub used_bytes: u64,
    pub available_bytes: u64,
}

/// A usage ratio, `used` out of `total`, read as a percentage; a zero total
/// reads as zero percent.
#[derive(Debug, Clone, Copy, PartialEq, Eq, Structural)]
pub struct Percent {
    pub used: u64,
    pub total: u64,
}

/// The percentage as a double: `used / total * 100`, each step rounded to
/// the nearest double; zero for a zero total.
pub open spec fn percent_value(p: Percent) -> Double {
    if p.total == 0 {
        Double { m: 0, e: 0 }
    } else {
        product(quotient(from_nat(p.used as nat), from_nat(p.total as nat)), from_nat(100))
    }
}

/// The percentage in tenths of a percent, as one decimal shows it.
pub open spec fn percent_tenths(p: Percent) -> nat {
    tenths(percent_value(p))
}

impl Percent {
    /// The percentage as a double.
    pub fn value(&self) -> (r: Double)
        ensures
            r == percent_value(*self),
            wf(r),
            r.e <= 280,
            r.m != 0 ==> 139 <= r.e,
    {
        if self.total == 0 {
            return Double { m: 0, e: 0 };
        }
        let a = from_u64(self.used);
        let b = from_u64(self.total);
        let h = from_u64(100);
        if self.used == 0 {
            proof {
                assert(scaled(a) == 0) by (nonlinear_arith)
                    requires
                        a.m == 0,
                        scaled(a) == a.m * pow2(a.e as nat),
                ;
                let q = quotient(a, b);
                assert(q.m == 0 && q.e == 0);
                assert(scaled(q) == 0) by (nonlinear_arith)
                    requires
                        q.m == 0,
                        scaled(q) == q.m * pow2(q.e as nat),
                ;
                assert(scaled(q) * scaled(h) == 0);
            }
            return Double { m: 0, e: 0 };
        }
        let q = quotient_exec(a, b);
        product_exec(q, h)
    }

    /// The percentage in tenths of a percent, as one decimal shows it.
    pub fn tenths(&self) -> (r: u128)
        ensures
            r == percent_tenths(*self),
    {
        tenths_exec(self.value())
    }
}

/// An independently backed storage location.
#[derive(Debug, PartialEq, Eq)]
pub struct StorageVolume {
    pub id: String,
    pub name: String,
    pub filesystem: String,
    pub representative_mount: String,
    pub total_bytes: u64,
    pub used_bytes: u64,
    pub available_bytes: u64,
    pub reserved_bytes: Option<u64>,
    pub used_percent: Percent,
    pub physical: bool,
    pub removable: bool,
    pub categories: Vec<SemanticCategory>,
    pub mounts: Vec<String>,
}

/// A problem met while gathering the report.
#[derive(Debug, Clone, PartialEq, Eq)]
pub struct Warning {
    pub kind: String,
    pub count: usize,
    pub message: String,
}

/// Everything `space` reports.
#[derive(Debug, PartialEq, Eq)]
pub struct StorageReport {
    pub schema_version: u32,
    pub storage: Vec<StorageVolume>,
    pub hidden_mounts: Vec<MountView>,
    pub mount_count: usize,
    pub independent_storage_count: usize,
    pub inaccessible_paths: usize,
    pub warnings: Vec<Warning>,
}

impl StorageReport {
    /// A report with nothing in it, at the current schema version.
    pub fn empty() -> (r: Self)
        ensures
            r.schema_version == 1,
            r.storage@.len() == 0,
            r.hidden_mounts@.len() == 0,
            r.mount_count == 0,
            r.independent_storage_count == 0,
            r.inaccessible_paths == 0,
            r.warnings@.len() == 0,
    {
        Self {
            schema_version: 1,
            storage: Vec::new(),
            hidden_mounts: Vec::new(),
            mount_count: 0,
            independent_storage_count: 0,
            inaccessible_paths: 0,
            warnings: Vec::new(),
        }
    }
}

/// The share of `total` that `used` takes; zero when `total` is zero.
pub fn used_percent(used: u64, total: u64) -> (r: Percent)
    ensures
        total == 0 ==> r == (Percent { used: 0, total: 0 }),
        total != 0 ==> r == (Percent { used, total }),
{
    if total == 0 {
        Percent { used: 0, total: 0 }
    } else {
        Percent { used, total }
    }
}

} // verus!
