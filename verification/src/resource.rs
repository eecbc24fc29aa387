//! Resource status: how much a Task, its members, its memory and its
//! resources occupy on disk, how full the filesystem and host memory are,
//! and whether an import or an expansion leaves enough headroom.
use crate::error::Error;
use crate::text::{decimal, join, render_u64};
use vstd::prelude::*;

verus! {

pub const MIB: u64 = 1048576;
pub const GIB: u64 = 1073741824;
/// A Task or member tree at this size warns.
pub const TASK_WARN: u64 = 2147483648;
/// A Task or member tree at this size is critical.
pub const TASK_CRIT: u64 = 8589934592;
/// Task memory or a resource at this size warns.
pub const SEAT_WARN: u64 = 536870912;
/// Task memory or a resource at this size is critical.
pub const SEAT_CRIT: u64 = 2147483648;
/// A filesystem this full, in percent, warns.
pub const USED_WARN: u64 = 60;
/// A filesystem this full, in percent, is critical.
pub const USED_CRIT: u64 = 75;
/// Host memory this free, in percent or less, warns.
pub const MEMORY_WARN: u64 = 40;
/// Host memory this free, in percent or less, is critical.
pub const MEMORY_CRIT: u64 = 25;
/// The least free space an import must leave.
pub const MINIMUM_RESERVE: u64 = 1073741824;

/// How a measured resource stands.
#[derive(Clone, Copy, Debug, PartialEq, Eq, Structural)]
pub enum Status {
    Okay,
    Warn,
    Crit,
    Unknown,
}

impl Status {
    /// How bad a status is: OK, then UNKNOWN, then WARN, then CRIT.
    pub open spec fn severity(self) -> int {
        match self {
            Status::Okay => 0,
            Status::Unknown => 1,
            Status::Warn => 2,
            Status::Crit => 3,
        }
    }

    pub open spec fn text(self) -> Seq<char> {
        match self {
            Status::Okay => "OK"@,
            Status::Warn => "WARN"@,
            Status::Crit => "CRIT"@,
            Status::Unknown => "UNKNOWN"@,
        }
    }

    /// The status as reports print it.
    pub fn label(self) -> (r: &'static str)
        ensures
            r@ == self.text(),
    {
        match self {
            Status::Okay => "OK",
            Status::Warn => "WARN",
            Status::Crit => "CRIT",
            Status::Unknown => "UNKNOWN",
        }
    }
}

/// The severity of a status.
pub fn rank(status: Status) -> (r: u8)
    ensures
        r == status.severity(),
{
    match status {
        Status::Okay => 0,
        Status::Unknown => 1,
        Status::Warn => 2,
        Status::Crit => 3,
    }
}

/// The worse of two statuses, the left one on a tie.
pub open spec fn worse(left: Status, right: Status) -> Status {
    if right.severity() > left.severity() {
        right
    } else {
        left
    }
}

/// The worse of two statuses.
pub fn worst(left: Status, right: Status) -> (r: Status)
    ensures
        r == worse(left, right),
{
    if rank(right) > rank(left) {
        right
    } else {
        left
    }
}

/// The status of a value against a warning and a critical threshold.
pub open spec fn level(value: u64, warn: u64, crit: u64) -> Status {
    if value >= crit {
        Status::Crit
    } else if value >= warn {
        Status::Warn
    } else {
        Status::Okay
    }
}

/// The status of a value against a warning and a critical threshold.
pub fn high_status(value: u64, warn: u64, crit: u64) -> (r: Status)
    ensures
        r == level(value, warn, crit),
{
    if value >= crit {
        Status::Crit
    } else if value >= warn {
        Status::Warn
    } else {
        Status::Okay
    }
}

/// The status of a filesystem or inode table by how full it is.
pub fn used_status(used: u64) -> (r: Status)
    ensures
        r == level(used, USED_WARN, USED_CRIT),
{
    high_status(used, USED_WARN, USED_CRIT)
}

/// The share of `total` in use, in whole percent, rounded down; 100 when
/// there is no capacity at all.  The product saturates at `u64::MAX`.
pub open spec fn usage(total: u64, available: u64) -> int {
    if total == 0 {
        100
    } else {
        let used: int = if available >= total { 0 } else { total - available };
        let scaled: int = if used * 100 > u64::MAX { u64::MAX as int } else { used * 100 };
        scaled / (total as int)
    }
}

/// The share of `total` in use, in whole percent.
pub fn used_percent(total: u64, available: u64) -> (r: u64)
    ensures
        r == usage(total, available),
{
    if total == 0 {
        return 100;
    }
    let used = total.saturating_sub(available);
    let scaled = match used.checked_mul(100) {
        Some(v) => v,
        None => u64::MAX,
    };
    scaled / total
}

/// The disk use of one tree: its bytes and entries, or why they are unknown.
#[derive(Clone, Debug)]
pub struct Footprint {
    pub name: String,
    pub path: String,
    pub status: Status,
    pub bytes: Option<u64>,
    pub entries: Option<u64>,
    pub note: Option<String>,
}

/// A measured tree: allocated bytes and entries.
#[derive(Clone, Copy, Debug, PartialEq, Eq, Structural)]
pub struct Scan {
    pub bytes: u64,
    pub entries: u64,
}

/// A filesystem's capacity and fullness.
#[derive(Clone, Debug)]
pub struct Filesystem {
    pub status: Status,
    pub total_bytes: u64,
    pub available_bytes: u64,
    pub used_percent: u64,
    pub inodes: Option<Inodes>,
    pub inode_note: Option<String>,
}

/// A filesystem's inode table and its fullness.
#[derive(Clone, Copy, Debug, PartialEq, Eq, Structural)]
pub struct Inodes {
    pub status: Status,
    pub total: u64,
    pub available: u64,
    pub used_percent: u64,
}

/// The host's memory and how much of it is free.
#[derive(Clone, Copy, Debug, PartialEq, Eq, Structural)]
pub struct HostMemory {
    pub status: Status,
    pub total_bytes: u64,
    pub available_bytes: u64,
    pub available_percent: u64,
    pub swap_total_bytes: u64,
    pub swap_used_bytes: u64,
}

/// A measurement, or why it could not be taken.
#[derive(Clone, Debug)]
pub struct Observation<T> {
    pub status: Status,
    pub value: Option<T>,
    pub note: Option<String>,
}

/// Everything a Task occupies and the room around it.
#[derive(Clone, Debug)]
pub struct TaskResources {
    pub identity: String,
    pub status: Status,
    pub task: Footprint,
    pub members: Vec<Footprint>,
    pub memory: Option<Footprint>,
    pub resources: Vec<Footprint>,
    pub filesystem: Observation<Filesystem>,
    pub host_memory: Observation<HostMemory>,
}

/// What an import needs and what the filesystem offers.
#[derive(Clone, Debug)]
pub struct ImportPreflight {
    pub source: String,
    pub target: String,
    pub logical_bytes: u64,
    pub required_bytes: u64,
    pub entries: u64,
    pub available_bytes: u64,
    pub reserve_bytes: u64,
    pub available_inodes: Option<u64>,
    pub reserve_inodes: Option<u64>,
}

/// A tree that could not be measured.
pub fn unknown(name: &str, path: &str, note: String) -> (r: Footprint)
    ensures
        r.name@ == name@,
        r.path@ == path@,
        r.status == Status::Unknown,
        r.bytes is None,
        r.entries is None,
        r.note == Some(note),
{
    Footprint {
        name: String::from_str(name),
        path: String::from_str(path),
        status: Status::Unknown,
        bytes: None,
        entries: None,
        note: Some(note),
    }
}

/// The footprint of a tree from its measurement: its status by size against
/// the thresholds, or unknown with the reason the measurement failed.
pub fn footprint(name: &str, path: &str, scan: Result<Scan, String>, warn: u64, crit: u64) -> (r: Footprint)
    ensures
        r.name@ == name@,
        r.path@ == path@,
        match scan {
            Ok(s) => r.status == level(s.bytes, warn, crit) && r.bytes == Some(s.bytes) && r.entries == Some(s.entries) && r.note is None,
            Err(note) => r.status == Status::Unknown && r.bytes is None && r.entries is None && r.note == Some(note),
        },
{
    match scan {
        Ok(s) => Footprint {
            name: String::from_str(name),
            path: String::from_str(path),
            status: high_status(s.bytes, warn, crit),
            bytes: Some(s.bytes),
            entries: Some(s.entries),
            note: None,
        },
        Err(note) => unknown(name, path, note),
    }
}

/// The inode table from the filesystem's counts, or nothing when the
/// filesystem reports no inodes.
pub fn inode_stats(files: u64, available: u64) -> (r: Option<Inodes>)
    ensures
        files == 0 ==> r is None,
        files != 0 ==> r == Some(Inodes {
            status: level(usage(files, available) as u64, USED_WARN, USED_CRIT),
            total: files,
            available,
            used_percent: usage(files, available) as u64,
        }),
{
    if files == 0 {
        return None;
    }
    let used = used_percent(files, available);
    Some(Inodes { status: used_status(used), total: files, available, used_percent: used })
}

/// The inode table, or the note that says why it is missing.
pub fn observed_inodes(stats: Result<Option<Inodes>, String>) -> (r: (Option<Inodes>, Option<String>))
    ensures
        match stats {
            Ok(Some(i)) => r.0 == Some(i) && r.1 is None,
            Ok(None) => r.0 is None && (r.1 matches Some(n) && n@ == "inode capacity is unavailable on this platform"@),
            Err(e) => r.0 is None && r.1 == Some(e),
        },
{
    match stats {
        Ok(Some(i)) => (Some(i), None),
        Ok(None) => (None, Some(String::from_str("inode capacity is unavailable on this platform"))),
        Err(e) => (None, Some(e)),
    }
}

/// The filesystem's observation from its capacity and free space, or the
/// reason they could not be read: fullness sets the status, made worse by
/// the inode table's.
pub fn filesystem(stats: Result<(u64, u64), String>, inodes: (Option<Inodes>, Option<String>)) -> (r: Observation<Filesystem>)
    ensures
        match stats {
            Err(e) => r.status == Status::Unknown && r.value is None && r.note == Some(e),
            Ok((total, available)) => {
                let used = usage(total, available) as u64;
                let status = match inodes.0 {
                    None => level(used, USED_WARN, USED_CRIT),
                    Some(i) => worse(level(used, USED_WARN, USED_CRIT), i.status),
                };
                &&& r.status == status
                &&& r.note is None
                &&& (r.value matches Some(f) && f.status == status && f.total_bytes == total && f.available_bytes == available && f.used_percent == used && f.inodes == inodes.0 && f.inode_note == inodes.1)
            },
        },
{
    match stats {
        Ok((total, available)) => {
            let used = used_percent(total, available);
            let (held, note) = inodes;
            let status = match held {
                None => used_status(used),
                Some(i) => worst(used_status(used), i.status),
            };
            Observation {
                status,
                value: Some(Filesystem {
                    status,
                    total_bytes: total,
                    available_bytes: available,
                    used_percent: used,
                    inodes: held,
                    inode_note: note,
                }),
                note: None,
            }
        },
        Err(e) => Observation { status: Status::Unknown, value: None, note: Some(e) },
    }
}

/// The share of host memory free, in whole percent, rounded down; the
/// product saturates at `u64::MAX`.
pub open spec fn free_share(total: u64, available: u64) -> int {
    let scaled: int = if available * 100 > u64::MAX { u64::MAX as int } else { available * 100 };
    scaled / (total as int)
}

/// The status of host memory by its free share.
pub open spec fn memory_level(percent: int) -> Status {
    if percent <= MEMORY_CRIT {
        Status::Crit
    } else if percent <= MEMORY_WARN {
        Status::Warn
    } else {
        Status::Okay
    }
}

/// The host memory observation from the machine's counts: unknown without
/// any memory, else critical at 25% free or less and warning at 40%.
pub fn host_memory(total: u64, available: u64, swap_total: u64, swap_used: u64) -> (r: Observation<HostMemory>)
    ensures
        total == 0 ==> r.status == Status::Unknown && r.value is None && (r.note matches Some(n) && n@ == "host memory capacity is unavailable"@),
        total != 0 ==> {
            let percent = free_share(total, available);
            &&& r.status == memory_level(percent)
            &&& r.note is None
            &&& r.value == Some(HostMemory {
                status: memory_level(percent),
                total_bytes: total,
                available_bytes: available,
                available_percent: percent as u64,
                swap_total_bytes: swap_total,
                swap_used_bytes: swap_used,
            })
        },
{
    if total == 0 {
        return Observation { status: Status::Unknown, value: None, note: Some(String::from_str("host memory capacity is unavailable")) };
    }
    let scaled = match available.checked_mul(100) {
        Some(v) => v,
        None => u64::MAX,
    };
    let percent = scaled / total;
    let status = if percent <= MEMORY_CRIT {
        Status::Crit
    } else if percent <= MEMORY_WARN {
        Status::Warn
    } else {
        Status::Okay
    };
    Observation {
        status,
        value: Some(HostMemory {
            status,
            total_bytes: total,
            available_bytes: available,
            available_percent: percent,
            swap_total_bytes: swap_total,
            swap_used_bytes: swap_used,
        }),
        note: None,
    }
}

/// The worst status over a list of footprints, starting from `from`.
pub open spec fn fold_worst(from: Status, prints: Seq<Footprint>) -> Status
    decreases prints.len(),
{
    if prints.len() == 0 {
        from
    } else {
        fold_worst(worse(from, prints[0].status), prints.drop_first())
    }
}

fn worst_over(from: Status, prints: &[Footprint]) -> (r: Status)
    ensures
        r == fold_worst(from, prints@),
{
    let mut status = from;
    let mut i: usize = 0;
    proof {
        assert(prints@.skip(0) =~= prints@);
    }
    while i < prints.len()
        invariant
            i <= prints@.len(),
            fold_worst(status, prints@.skip(i as int)) == fold_worst(from, prints@),
        decreases prints@.len() - i,
    {
        proof {
            assert(prints@.skip(i as int)[0] == prints@[i as int]);
            assert(prints@.skip(i as int).drop_first() =~= prints@.skip(i + 1));
        }
        status = worst(status, prints[i].status);
        i = i + 1;
    }
    proof {
        assert(prints@.skip(i as int) =~= Seq::<Footprint>::empty());
    }
    status
}

/// The memory footprint as a list of none or one.
pub open spec fn optional(memory: Option<Footprint>) -> Seq<Footprint> {
    match memory {
        Some(m) => seq![m],
        None => Seq::empty(),
    }
}

/// Gathers a Task's resources; its status is the worst of the Task's own
/// footprint, then its members', its memory's and its resources'.
pub fn inspect(identity: String, task: Footprint, members: Vec<Footprint>, memory: Option<Footprint>, resources: Vec<Footprint>, filesystem: Observation<Filesystem>, host_memory: Observation<HostMemory>) -> (r: TaskResources)
    ensures
        r.status == fold_worst(fold_worst(fold_worst(task.status, members@), optional(memory)), resources@),
        r.identity == identity,
        r.task == task,
        r.members == members,
        r.memory == memory,
        r.resources == resources,
        r.filesystem == filesystem,
        r.host_memory == host_memory,
{
    let mut status = worst_over(task.status, members.as_slice());
    let ghost before = status;
    match &memory {
        Some(m) => {
            status = worst(status, m.status);
            proof {
                let o = optional(memory);
                assert(o.drop_first() =~= Seq::<Footprint>::empty());
                assert(o[0] == *m);
                assert(fold_worst(before, o) == fold_worst(worse(before, m.status), o.drop_first()));
            }
        },
        None => {
            proof {
                assert(optional(memory).len() == 0);
            }
        },
    }
    let status = worst_over(status, resources.as_slice());
    TaskResources { identity, status, task, members, memory, resources, filesystem, host_memory }
}

} // verus!
