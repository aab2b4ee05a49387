//! What mount discovery yields, before it is normalized into a report.
use vstd::prelude::*;

pub mod linux;
pub mod macos;


verus! {

/// Capacity figures of one filesystem.
#[derive(Debug, Clone, Copy, PartialEq, Eq, Structural)]
pub struct FilesystemStats {
    pub total_bytes: u64,
    pub used_bytes: u64,
    pub available_bytes: u64,
}

/// One entry of the mount table, with what discovery learned about it.
#[derive(Debug, PartialEq, Eq)]
pub struct RawMount {
    pub mount_id: u64,
    pub parent_id: u64,
    pub device_id: String,
    pub root: String,
    pub target: String,
    pub mount_options: Vec<String>,
    pub filesystem: String,
    pub source: String,
    pub super_options: Vec<String>,
    pub stats: Option<FilesystemStats>,
    pub stats_error: Option<String>,
    pub backing_id: Option<String>,
    pub volume_name: Option<String>,
    pub removable: bool,
}

/// The mount table of the machine, with warnings met while reading it.
#[derive(Debug, PartialEq, Eq)]
pub struct Discovery {
    pub mounts: Vec<RawMount>,
    pub warnings: Vec<String>,
}

/// What the operating system's mount table gave, before discovery.
pub enum MountTable {
    /// Linux: the mounts parsed from `/proc/self/mountinfo`, and what reading
    /// the capacity of each gave.
    Linux { mounts: Vec<RawMount>, stats: Vec<Result<FilesystemStats, String>> },
    /// macOS: the entries of the mount table, and the APFS listing or why it
    /// was unavailable.
    Macos { entries: Vec<macos::MountTableEntry>, apfs: Result<macos::ApfsVolumes, String> },
    /// An operating system that is not supported.
    Unsupported,
}

/// Why no discovery could be made.
#[derive(Debug, Clone, Copy, PartialEq, Eq, Structural)]
pub enum DiscoveryError {
    /// The operating system is neither Linux nor macOS.
    UnsupportedOs,
}

impl DiscoveryError {
    /// The message to show for the error.
    pub fn message(&self) -> (r: &'static str)
        ensures
            r@ == "unsupported operating system"@,
    {
        "unsupported operating system"
    }
}

/// The mount table can be discovered.
pub open spec fn table_ready(table: MountTable) -> bool {
    match table {
        MountTable::Linux { mounts, stats } => mounts@.len() == stats@.len(),
        MountTable::Macos { entries, apfs } => apfs matches Ok(v) ==> v.wf(),
        MountTable::Unsupported => true,
    }
}

/// The discovery of the mount table of the running system, by the rules of
/// its operating system.
pub fn discover(table: MountTable) -> (r: Result<Discovery, DiscoveryError>)
    requires
        table_ready(table),
    ensures
        match table {
            MountTable::Linux { mounts, stats } => r matches Ok(d) && linux::is_discovery_of(d, mounts@, stats@),
            MountTable::Macos { entries, apfs } => r matches Ok(d) && macos::is_discovery_of(d, entries@, apfs),
            MountTable::Unsupported => r == Err::<Discovery, DiscoveryError>(DiscoveryError::UnsupportedOs),
        },
{
    match table {
        MountTable::Linux { mounts, stats } => Ok(linux::discover(mounts, stats)),
        MountTable::Macos { entries, apfs } => Ok(macos::discover(entries, apfs)),
        MountTable::Unsupported => Err(DiscoveryError::UnsupportedOs),
    }
}

} // verus!
