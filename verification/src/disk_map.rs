//! Where the entries of a map that may spill to disk are kept.
//!
//! Entries are kept in memory as long as a quota of bytes, which all entries share, is not
//! used up. The entry whose write would use it up is moved to disk, with all that it
//! holds, and what it had taken of the quota is free again.
use vstd::prelude::*;

verus! {

/// What a write does to an entry and to the quota.
#[derive(PartialEq, Eq, Structural, Copy, Clone, Debug)]
pub struct WritePlan {
    /// Whether the entry is to be moved to disk before the write.
    pub spill: bool,
    /// The bytes of the quota that are left after the write.
    pub quota: isize,
    /// The size of the entry after the write.
    pub size: usize,
}

/// What a write of `u` bytes does to an entry of `size` bytes, with `quota` bytes of the
/// quota left, where numbers can be counted.
pub open spec fn planned(on_disk: bool, quota: int, size: int, u: int) -> WritePlan {
    if on_disk {
        WritePlan { spill: false, quota: quota as isize, size: (size + u) as usize }
    } else if quota - u < 0 {
        WritePlan { spill: true, quota: (quota + size) as isize, size: (size + u) as usize }
    } else {
        WritePlan { spill: false, quota: (quota - u) as isize, size: (size + u) as usize }
    }
}

/// Plans a write of `u` bytes to an entry of `size` bytes, with `quota` bytes of the quota
/// left.
///
/// An entry on disk grows and leaves the quota as it is. An entry in memory takes `u`
/// bytes of the quota; where the quota does not have them, the entry is moved to disk and
/// gives back what it had taken. There is no plan where a number cannot be counted.
pub fn prepare_write(on_disk: bool, quota: isize, size: usize, u: usize) -> (plan: Option<
    WritePlan,
>)
    ensures
        plan is Some <==> size + u <= usize::MAX && (!on_disk ==> u <= isize::MAX && quota - u
            >= isize::MIN && (quota - u < 0 ==> size <= isize::MAX && quota + size
            <= isize::MAX)),
        plan matches Some(p) ==> p == planned(on_disk, quota as int, size as int, u as int),
{
    let grown = match size.checked_add(u) {
        Some(g) => g,
        None => {
            return None;
        },
    };
    if on_disk {
        return Some(WritePlan { spill: false, quota, size: grown });
    }
    if u > isize::MAX as usize {
        return None;
    }
    let left = match quota.checked_sub(u as isize) {
        Some(l) => l,
        None => {
            return None;
        },
    };
    if left < 0 {
        if size > isize::MAX as usize {
            return None;
        }
        match quota.checked_add(size as isize) {
            Some(q) => Some(WritePlan { spill: true, quota: q, size: grown }),
            None => None,
        }
    } else {
        Some(WritePlan { spill: false, quota: left, size: grown })
    }
}

} // verus!
