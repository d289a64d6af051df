//! The walk over a process's address space that collects the memory regions
//! a scan reads. Each step takes what one query of the address space reported.

use vstd::prelude::*;
use crate::types::MemoryRegion;

verus! {

/// The state value of committed memory.
pub const MEM_COMMIT: u32 = 0x1000;

/// The protection value of memory that cannot be accessed at all.
pub const PAGE_NOACCESS: u32 = 0x01;

/// The protection flag of guard pages.
pub const PAGE_GUARD: u32 = 0x100;

/// What one query of the address space reports about the region that holds
/// the queried address.
#[derive(Debug, Clone, Copy, PartialEq, Eq, Structural)]
pub struct RegionInfo {
    pub base_address: usize,
    pub region_size: usize,
    pub state: u32,
    pub protect: u32,
}

/// Whether a reported region is scanned: committed, accessible, not a guard
/// page, and not empty.
pub open spec fn is_scannable(info: RegionInfo) -> bool {
    &&& info.state == MEM_COMMIT
    &&& info.protect != PAGE_NOACCESS
    &&& info.protect & PAGE_GUARD == 0
    &&& info.region_size > 0
}

/// The address queried after a region: its end, or `None` when that end
/// does not lie above its base (the walk has reached the end of the
/// address space, or the region is empty).
pub open spec fn next_address(info: RegionInfo) -> Option<usize> {
    if info.base_address + info.region_size <= usize::MAX && info.region_size > 0 {
        Some((info.base_address + info.region_size) as usize)
    } else {
        None
    }
}

/// The walk goes on past every region that is not empty and ends below the
/// top of the address space, whatever the region's state or protection:
/// the next address queried is the region's end.
pub proof fn lemma_walk_passes_every_region(info: RegionInfo)
    requires
        info.region_size > 0,
        info.base_address + info.region_size <= usize::MAX,
    ensures
        next_address(info) == Some((info.base_address + info.region_size) as usize),
{
}

/// A walk over the address space, from address zero upwards.
pub struct RegionWalk {
    /// The address to query next.
    pub address: usize,
    /// The scannable regions found so far, in order.
    pub regions: Vec<MemoryRegion>,
    /// Whether the walk has ended.
    pub done: bool,
}

impl RegionWalk {
    /// A walk that has found nothing yet and queries address zero first.
    pub fn new() -> (r: RegionWalk)
        ensures
            r.address == 0,
            r.regions@.len() == 0,
            !r.done,
    {
        RegionWalk { address: 0, regions: Vec::new(), done: false }
    }

    /// Take what the query of `self.address` reported: `None` when the query
    /// failed, which ends the walk. A scannable region is recorded, and the
    /// walk moves on to the region's end or ends as `next_address` says.
    pub fn step(&mut self, info: Option<RegionInfo>)
        requires
            !old(self).done,
        ensures
            match info {
                None => {
                    &&& final(self).done
                    &&& final(self).regions@ == old(self).regions@
                    &&& final(self).address == old(self).address
                },
                Some(i) => {
                    &&& final(self).regions@ == (if is_scannable(i) {
                        old(self).regions@.push(MemoryRegion { base_address: i.base_address as u64, size: i.region_size as u64 })
                    } else {
                        old(self).regions@
                    })
                    &&& match next_address(i) {
                        Some(a) => !final(self).done && final(self).address == a,
                        None => final(self).done && final(self).address == old(self).address,
                    }
                },
            },
    {
        match info {
            None => {
                self.done = true;
            },
            Some(i) => {
                let is_committed = i.state == MEM_COMMIT;
                let is_accessible = i.protect != PAGE_NOACCESS && (i.protect & PAGE_GUARD) == 0;
                if is_committed && is_accessible && i.region_size > 0 {
                    self.regions.push(MemoryRegion { base_address: i.base_address as u64, size: i.region_size as u64 });
                }
                if i.region_size > 0 && i.base_address <= usize::MAX - i.region_size {
                    self.address = i.base_address + i.region_size;
                } else {
                    self.done = true;
                }
            },
        }
    }
}

} // verus!
