//! The arithmetic of a resource import and of a tree's measurement: sizes
//! rounded to the allocation granularity, counts that refuse to overflow,
//! hard links counted once, and the headroom an import must leave.
use crate::error::Error;
use crate::resource::{GIB, ImportPreflight, MINIMUM_RESERVE, USED_CRIT, Scan, usage, used_percent};
use crate::text::{decimal, join, render_u64};
use vstd::prelude::*;

verus! {

/// The message of a sum that overflows.
pub open spec fn overflows(label: Seq<char>) -> Seq<char> {
    label + " overflows"@
}

/// Adds two counts, refusing when the sum leaves `u64`.
pub fn checked_add(left: u64, right: u64, label: &str) -> (r: Result<u64, Error>)
    ensures
        left + right <= u64::MAX ==> r == Ok::<u64, Error>((left + right) as u64),
        left + right > u64::MAX ==> (r matches Err(e) && e.code is None && e.message@ == overflows(label@)),
{
    match left.checked_add(right) {
        Some(v) => Ok(v),
        None => Err(Error::new(join(label, " overflows"))),
    }
}

/// A size rounded up to a whole number of allocation units.
pub open spec fn round_up(value: int, granularity: int) -> int {
    (value + granularity - 1) / granularity * granularity
}

/// Rounds a file's size up to the allocation granularity; a granularity of
/// 0 leaves it as it is.
pub fn rounded(value: u64, granularity: u64) -> (r: Result<u64, Error>)
    ensures
        granularity == 0 ==> r == Ok::<u64, Error>(value),
        granularity != 0 && value + granularity - 1 <= u64::MAX ==> (r matches Ok(v) && v == round_up(value as int, granularity as int)),
        granularity != 0 && value + granularity - 1 > u64::MAX ==> (r matches Err(e) && e.code is None && e.message@ == "resource size overflows"@),
{
    if granularity == 0 {
        return Ok(value);
    }
    match value.checked_add(granularity - 1) {
        Some(v) => {
            assert(v / granularity * granularity <= v) by (nonlinear_arith)
                requires
                    granularity > 0,
            ;
            Ok(v / granularity * granularity)
        },
        None => Err(Error::new(String::from_str("resource size overflows"))),
    }
}

/// What an import would write: its bytes, the bytes it would allocate,
/// and its entries.
#[derive(Clone, Copy, Debug, PartialEq, Eq, Structural)]
pub struct ImportSize {
    pub logical_bytes: u64,
    pub required_bytes: u64,
    pub entries: u64,
}

/// What one path of an import source is.
#[derive(Clone, Copy, Debug, PartialEq, Eq, Structural)]
pub enum Kind {
    Directory,
    File { len: u64 },
    Link,
    Special,
}

/// The outcome of taking one path into an import's size: the new size, or
/// the message that refuses the import.
pub open spec fn grow(size: ImportSize, kind: Kind, granularity: u64, path: Seq<char>) -> Result<ImportSize, Seq<char>> {
    match kind {
        Kind::Link => Err("resource import refuses symbolic link "@ + path),
        _ => if size.entries + 1 > u64::MAX {
            Err(overflows("resource entry count"@))
        } else {
            let counted = ImportSize { entries: (size.entries + 1) as u64, ..size };
            match kind {
                Kind::Directory => if counted.required_bytes + granularity > u64::MAX {
                    Err(overflows("resource size"@))
                } else {
                    Ok(ImportSize { required_bytes: (counted.required_bytes + granularity) as u64, ..counted })
                },
                Kind::File { len } => if counted.logical_bytes + len > u64::MAX {
                    Err(overflows("resource size"@))
                } else if granularity != 0 && len + granularity - 1 > u64::MAX {
                    Err("resource size overflows"@)
                } else {
                    let block: int = if granularity == 0 { len as int } else { round_up(len as int, granularity as int) };
                    if counted.required_bytes + block > u64::MAX {
                        Err(overflows("resource size"@))
                    } else {
                        Ok(ImportSize {
                            logical_bytes: (counted.logical_bytes + len) as u64,
                            required_bytes: (counted.required_bytes + block) as u64,
                            ..counted
                        })
                    }
                },
                _ => Err("resource import refuses special file "@ + path),
            }
        },
    }
}

impl ImportSize {
    /// Nothing yet.
    pub fn new() -> (r: ImportSize)
        ensures
            r == (ImportSize { logical_bytes: 0, required_bytes: 0, entries: 0 }),
    {
        ImportSize { logical_bytes: 0, required_bytes: 0, entries: 0 }
    }

    /// Takes one path of the source into the size: a directory costs one
    /// allocation unit, a file its size rounded up; links and special files
    /// refuse the import.
    pub fn take(&mut self, kind: Kind, granularity: u64, path: &str) -> (r: Result<(), Error>)
        ensures
            match grow(*old(self), kind, granularity, path@) {
                Ok(next) => r is Ok && *final(self) == next,
                Err(m) => r matches Err(e) && e.code is None && e.message@ == m,
            },
    {
        if kind == Kind::Link {
            return Err(Error::new(join("resource import refuses symbolic link ", path)));
        }
        self.entries = match checked_add(self.entries, 1, "resource entry count") {
            Err(e) => {
                return Err(e);
            },
            Ok(v) => v,
        };
        match kind {
            Kind::Directory => {
                self.required_bytes = match checked_add(self.required_bytes, granularity, "resource size") {
                    Err(e) => {
                        return Err(e);
                    },
                    Ok(v) => v,
                };
                Ok(())
            },
            Kind::File { len } => {
                let logical = match checked_add(self.logical_bytes, len, "resource size") {
                    Err(e) => {
                        return Err(e);
                    },
                    Ok(v) => v,
                };
                let block = match rounded(len, granularity) {
                    Err(e) => {
                        return Err(e);
                    },
                    Ok(v) => v,
                };
                let required = match checked_add(self.required_bytes, block, "resource size") {
                    Err(e) => {
                        return Err(e);
                    },
                    Ok(v) => v,
                };
                self.logical_bytes = logical;
                self.required_bytes = required;
                Ok(())
            },
            _ => Err(Error::new(join("resource import refuses special file ", path))),
        }
    }

    /// Adds the allocation unit of the import's root once every path is in.
    pub fn close(&mut self, granularity: u64) -> (r: Result<(), Error>)
        ensures
            old(self).required_bytes + granularity <= u64::MAX ==> r is Ok && *final(self) == (ImportSize { required_bytes: (old(self).required_bytes + granularity) as u64, ..*old(self) }),
            old(self).required_bytes + granularity > u64::MAX ==> (r matches Err(e) && e.code is None && e.message@ == overflows("resource size"@)),
    {
        self.required_bytes = match checked_add(self.required_bytes, granularity, "resource size") {
            Err(e) => {
                return Err(e);
            },
            Ok(v) => v,
        };
        Ok(())
    }
}

/// The free space an import must leave: a quarter of the filesystem, and
/// never less than one GiB.
pub open spec fn reserve_of(total: u64) -> int {
    if total / 4 > MINIMUM_RESERVE { (total / 4) as int } else { MINIMUM_RESERVE as int }
}

pub open spec fn short_of_bytes(required: u64, reserve: int, available: u64) -> Seq<char> {
    "resource import requires "@ + decimal(required as int) + " bytes plus "@ + decimal(reserve) + " bytes reserve, but only "@ + decimal(available as int) + " bytes are available"@
}

/// Whether the filesystem has room for an import's bytes and the reserve;
/// returns the reserve.
pub fn headroom(total: u64, available: u64, required: u64) -> (r: Result<u64, Error>)
    ensures
        required + reserve_of(total) > u64::MAX ==> (r matches Err(e) && e.code is None && e.message@ == overflows("resource headroom"@)),
        required + reserve_of(total) <= u64::MAX && available < required + reserve_of(total) ==> (r matches Err(e) && e.code is None && e.message@ == short_of_bytes(required, reserve_of(total), available)),
        required + reserve_of(total) <= u64::MAX && available >= required + reserve_of(total) ==> r == Ok::<u64, Error>(reserve_of(total) as u64),
{
    let quarter = total / 4;
    let reserve = if quarter > MINIMUM_RESERVE { quarter } else { MINIMUM_RESERVE };
    let needed = match checked_add(required, reserve, "resource headroom") {
        Err(e) => {
            return Err(e);
        },
        Ok(v) => v,
    };
    if available < needed {
        let a = join("resource import requires ", render_u64(required).as_str());
        let b = join(a.as_str(), " bytes plus ");
        let c = join(b.as_str(), render_u64(reserve).as_str());
        let d = join(c.as_str(), " bytes reserve, but only ");
        let f = join(d.as_str(), render_u64(available).as_str());
        return Err(Error::new(join(f.as_str(), " bytes are available")));
    }
    Ok(reserve)
}

pub open spec fn short_of_inodes(required: u64, reserve: int, available: u64) -> Seq<char> {
    "resource import requires "@ + decimal(required as int) + " inodes plus "@ + decimal(reserve) + " reserve, but only "@ + decimal(available as int) + " are available"@
}

/// Whether the inode table has room for an import's entries and a quarter
/// of the table in reserve; returns the free inodes and the reserve, or
/// nothing when the filesystem reports no inodes.
pub fn inode_headroom(files: u64, available: u64, required: u64) -> (r: Result<(Option<u64>, Option<u64>), Error>)
    ensures
        files == 0 ==> r == Ok::<(Option<u64>, Option<u64>), Error>((None, None)),
        files != 0 && required + files / 4 > u64::MAX ==> (r matches Err(e) && e.code is None && e.message@ == overflows("resource inode headroom"@)),
        files != 0 && required + files / 4 <= u64::MAX && available < required + files / 4 ==> (r matches Err(e) && e.code is None && e.message@ == short_of_inodes(required, (files / 4) as int, available)),
        files != 0 && required + files / 4 <= u64::MAX && available >= required + files / 4 ==> r == Ok::<(Option<u64>, Option<u64>), Error>((Some(available), Some(files / 4))),
{
    if files == 0 {
        return Ok((None, None));
    }
    let reserve = files / 4;
    let needed = match checked_add(required, reserve, "resource inode headroom") {
        Err(e) => {
            return Err(e);
        },
        Ok(v) => v,
    };
    if available < needed {
        let a = join("resource import requires ", render_u64(required).as_str());
        let b = join(a.as_str(), " inodes plus ");
        let c = join(b.as_str(), render_u64(reserve).as_str());
        let d = join(c.as_str(), " reserve, but only ");
        let f = join(d.as_str(), render_u64(available).as_str());
        return Err(Error::new(join(f.as_str(), " are available")));
    }
    Ok((Some(available), Some(reserve)))
}

/// Refuses to expand resources on a filesystem already critically full.
pub fn ensure_expansion_headroom(total: u64, available: u64) -> (r: Result<(), Error>)
    ensures
        usage(total, available) < USED_CRIT ==> r is Ok,
        usage(total, available) >= USED_CRIT ==> (r matches Err(e) && e.code is None && e.message@ == "resource expansion refuses filesystem at "@ + decimal(usage(total, available)) + "% used (critical threshold 75%)"@),
{
    let used = used_percent(total, available);
    if used >= USED_CRIT {
        let a = join("resource expansion refuses filesystem at ", render_u64(used).as_str());
        return Err(Error::new(join(a.as_str(), "% used (critical threshold 75%)")));
    }
    Ok(())
}

/// The plan of an import once its source is measured: refused when the
/// filesystem lacks room for its bytes or its inodes.
pub fn preflight(source: String, target: String, size: ImportSize, total: u64, available: u64, inodes: (u64, u64)) -> (r: Result<ImportPreflight, Error>)
    requires
        size.entries < u64::MAX,
    ensures
        ({
            let reserve = reserve_of(total);
            let (files, free) = inodes;
            let need = size.entries + 1;
            if size.required_bytes + reserve > u64::MAX || available < size.required_bytes + reserve {
                r is Err
            } else if files != 0 && (need + files / 4 > u64::MAX || free < need + files / 4) {
                r is Err
            } else {
                r matches Ok(p) && {
                    &&& p.source == source
                    &&& p.target == target
                    &&& p.logical_bytes == size.logical_bytes
                    &&& p.required_bytes == size.required_bytes
                    &&& p.entries == size.entries
                    &&& p.available_bytes == available
                    &&& p.reserve_bytes == reserve
                    &&& p.available_inodes == (if files == 0 { None } else { Some(free) })
                    &&& p.reserve_inodes == (if files == 0 { None } else { Some((files / 4) as u64) })
                }
            }
        }),
{
    let reserve = match headroom(total, available, size.required_bytes) {
        Err(e) => {
            return Err(e);
        },
        Ok(v) => v,
    };
    let (free, kept) = match inode_headroom(inodes.0, inodes.1, size.entries + 1) {
        Err(e) => {
            return Err(e);
        },
        Ok(v) => v,
    };
    Ok(ImportPreflight {
        source,
        target,
        logical_bytes: size.logical_bytes,
        required_bytes: size.required_bytes,
        entries: size.entries,
        available_bytes: available,
        reserve_bytes: reserve,
        available_inodes: free,
        reserve_inodes: kept,
    })
}

/// The bytes a file occupies from its count of 512-byte blocks, saturating.
pub fn allocated(blocks: u64) -> (r: u64)
    ensures
        r == (if blocks * 512 > u64::MAX { u64::MAX as int } else { blocks * 512 }),
{
    match blocks.checked_mul(512) {
        Some(v) => v,
        None => u64::MAX,
    }
}

/// Whether a path's allocation counts toward a tree's bytes: anything but a
/// file with several links counts; such a file counts the first time its
/// (device, inode) is met, which is then remembered.
pub fn count_allocation(is_file: bool, nlink: u64, dev: u64, ino: u64, links: &mut Vec<(u64, u64)>) -> (r: bool)
    ensures
        !is_file || nlink <= 1 ==> r && final(links)@ == old(links)@,
        is_file && nlink > 1 ==> r == !old(links)@.contains((dev, ino)),
        is_file && nlink > 1 && !old(links)@.contains((dev, ino)) ==> final(links)@ == old(links)@.push((dev, ino)),
        is_file && nlink > 1 && old(links)@.contains((dev, ino)) ==> final(links)@ == old(links)@,
{
    if !is_file || nlink <= 1 {
        return true;
    }
    let mut i: usize = 0;
    while i < links.len()
        invariant
            i <= links@.len(),
            is_file && nlink > 1,
            links@ == old(links)@,
            forall|j: int| 0 <= j < i ==> links@[j] != (dev, ino),
        decreases links@.len() - i,
    {
        if links[i].0 == dev && links[i].1 == ino {
            assert(links@[i as int] == (dev, ino));
            return false;
        }
        i = i + 1;
    }
    links.push((dev, ino));
    true
}

impl Scan {
    /// Counts one more entry of a tree and, when it counts, its bytes.
    pub fn take(&mut self, counted: bool, bytes: u64) -> (r: Result<(), Error>)
        ensures
            old(self).entries + 1 > u64::MAX ==> (r matches Err(e) && e.code is None && e.message@ == "resource entry count overflows"@),
            old(self).entries + 1 <= u64::MAX && counted && old(self).bytes + bytes > u64::MAX ==> (r matches Err(e) && e.code is None && e.message@ == "resource byte count overflows"@),
            old(self).entries + 1 <= u64::MAX && !(counted && old(self).bytes + bytes > u64::MAX) ==> r is Ok && final(self).entries == old(self).entries + 1 && final(self).bytes == (if counted { old(self).bytes + bytes } else { old(self).bytes as int }),
    {
        self.entries = match self.entries.checked_add(1) {
            None => {
                return Err(Error::new(String::from_str("resource entry count overflows")));
            },
            Some(v) => v,
        };
        if counted {
            self.bytes = match self.bytes.checked_add(bytes) {
                None => {
                    return Err(Error::new(String::from_str("resource byte count overflows")));
                },
                Some(v) => v,
            };
        }
        Ok(())
    }
}

} // verus!
