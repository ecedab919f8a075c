//! Counters of an imaging run.

use vstd::prelude::*;

verus! {

/// Sector counts of an imaging run. Counts saturate at `u64::MAX` instead of wrapping.
#[derive(Debug, Clone)]
pub struct RecoveryStats {
    pub total_sectors: u64,
    pub sector_size: u32,
    pub rescued_sectors: u64,
    pub bad_sectors: u64,
    pub non_tried_sectors: u64,
}

/// `a * b`, or `u64::MAX` when the product does not fit.
pub open spec fn sat_mul(a: u64, b: u64) -> u64 {
    if a * b <= u64::MAX {
        (a * b) as u64
    } else {
        u64::MAX
    }
}

/// `a + b`, or `u64::MAX` when the sum does not fit.
pub open spec fn sat_add(a: u64, b: u64) -> u64 {
    if a + b <= u64::MAX {
        (a + b) as u64
    } else {
        u64::MAX
    }
}

/// `a - b`, or 0 when `b` exceeds `a`.
pub open spec fn sat_sub(a: u64, b: u64) -> u64 {
    if a >= b {
        (a - b) as u64
    } else {
        0
    }
}

fn saturating_product(a: u64, b: u64) -> (r: u64)
    ensures
        r == sat_mul(a, b),
{
    match a.checked_mul(b) {
        Some(x) => x,
        None => u64::MAX,
    }
}

impl RecoveryStats {
    /// Counters for a run over `total_sectors` sectors, none tried yet.
    pub fn new(total_sectors: u64, sector_size: u32) -> (r: Self)
        ensures
            r.total_sectors == total_sectors,
            r.sector_size == sector_size,
            r.rescued_sectors == 0,
            r.bad_sectors == 0,
            r.non_tried_sectors == total_sectors,
    {
        RecoveryStats {
            total_sectors,
            sector_size,
            rescued_sectors: 0,
            bad_sectors: 0,
            non_tried_sectors: total_sectors,
        }
    }

    pub fn total_bytes(&self) -> (r: u64)
        ensures
            r == sat_mul(self.total_sectors, self.sector_size as u64),
    {
        saturating_product(self.total_sectors, self.sector_size as u64)
    }

    pub fn rescued_bytes(&self) -> (r: u64)
        ensures
            r == sat_mul(self.rescued_sectors, self.sector_size as u64),
    {
        saturating_product(self.rescued_sectors, self.sector_size as u64)
    }

    pub fn bad_bytes(&self) -> (r: u64)
        ensures
            r == sat_mul(self.bad_sectors, self.sector_size as u64),
    {
        saturating_product(self.bad_sectors, self.sector_size as u64)
    }

    /// Counts `count` sectors as rescued.
    pub fn record_good_sectors(&mut self, count: u64)
        ensures
            final(self).total_sectors == old(self).total_sectors,
            final(self).sector_size == old(self).sector_size,
            final(self).rescued_sectors == sat_add(old(self).rescued_sectors, count),
            final(self).bad_sectors == old(self).bad_sectors,
            final(self).non_tried_sectors == sat_sub(old(self).non_tried_sectors, count),
    {
        self.rescued_sectors = self.rescued_sectors.saturating_add(count);
        self.non_tried_sectors = self.non_tried_sectors.saturating_sub(count);
    }

    /// Counts `count` sectors as unreadable.
    pub fn record_bad_sectors(&mut self, count: u64)
        ensures
            final(self).total_sectors == old(self).total_sectors,
            final(self).sector_size == old(self).sector_size,
            final(self).rescued_sectors == old(self).rescued_sectors,
            final(self).bad_sectors == sat_add(old(self).bad_sectors, count),
            final(self).non_tried_sectors == sat_sub(old(self).non_tried_sectors, count),
    {
        self.bad_sectors = self.bad_sectors.saturating_add(count);
        self.non_tried_sectors = self.non_tried_sectors.saturating_sub(count);
    }

    /// Sectors tried so far, rescued or not, saturating.
    pub fn tried_sectors(&self) -> (r: u64)
        ensures
            r == sat_add(self.rescued_sectors, self.bad_sectors),
    {
        self.rescued_sectors.saturating_add(self.bad_sectors)
    }
}

} // verus!
