use vstd::prelude::*;

verus! {

/// Watermark level.
#[derive(Debug, Clone, Copy, PartialEq, Eq, Structural)]
pub enum WatermarkLevel {
    /// Below this level allocations report pressure (and may fail).
    Min,
    /// Below this level background reclaim should start.
    Low,
    /// Below this level reclaim may stop.
    High,
}

impl WatermarkLevel {
    /// Short name of the level.
    pub fn as_str(self) -> (r: &'static str)
        ensures
            r@ == (match self {
                WatermarkLevel::Min => "min"@,
                WatermarkLevel::Low => "low"@,
                WatermarkLevel::High => "high"@,
            }),
    {
        match self {
            WatermarkLevel::Min => "min",
            WatermarkLevel::Low => "low",
            WatermarkLevel::High => "high",
        }
    }
}

/// Thresholds on the number of free pages of a zone.
#[derive(Debug, Clone, Copy)]
pub struct Watermark {
    total_pages: usize,
    min: usize,
    low: usize,
    high: usize,
}

/// The `min` threshold for a zone of `total` pages: `total / 128`, at least 1.
pub open spec fn wm_min(total: nat) -> nat {
    if total / 128 >= 1 { total / 128 } else { 1 }
}

impl Watermark {
    /// Total pages of the zone the thresholds were computed for.
    pub closed spec fn spec_total(&self) -> nat {
        self.total_pages as nat
    }

    /// `min` threshold.
    pub closed spec fn spec_min(&self) -> nat {
        self.min as nat
    }

    /// `low` threshold.
    pub closed spec fn spec_low(&self) -> nat {
        self.low as nat
    }

    /// `high` threshold.
    pub closed spec fn spec_high(&self) -> nat {
        self.high as nat
    }

    /// Thresholds for a zone of `total_pages` pages: min = max(total/128, 1),
    /// low = 2·min, high = 3·min.
    pub fn new(total_pages: usize) -> (r: Self)
        ensures
            r.spec_total() == total_pages,
            r.spec_min() == wm_min(total_pages as nat),
            r.spec_low() == 2 * wm_min(total_pages as nat),
            r.spec_high() == 3 * wm_min(total_pages as nat),
    {
        let min = if total_pages / 128 >= 1 { total_pages / 128 } else { 1 };
        let low = if min * 2 >= 2 { min * 2 } else { 2 };
        let high = if min * 3 >= 3 { min * 3 } else { 3 };
        Self { total_pages, min, low, high }
    }

    /// Whether `free_pages` lies below the given level.
    pub fn below(&self, free_pages: usize, level: WatermarkLevel) -> (r: bool)
        ensures
            r == (match level {
                WatermarkLevel::Min => free_pages < self.spec_min(),
                WatermarkLevel::Low => free_pages < self.spec_low(),
                WatermarkLevel::High => free_pages < self.spec_high(),
            }),
    {
        match level {
            WatermarkLevel::Min => free_pages < self.min,
            WatermarkLevel::Low => free_pages < self.low,
            WatermarkLevel::High => free_pages < self.high,
        }
    }

    /// The level `free_pages` sits at: High from `high` on, Low from `low` on, Min below.
    pub fn level_of(&self, free_pages: usize) -> (r: WatermarkLevel)
        ensures
            r == (if free_pages >= self.spec_high() {
                WatermarkLevel::High
            } else if free_pages >= self.spec_low() {
                WatermarkLevel::Low
            } else {
                WatermarkLevel::Min
            }),
    {
        if free_pages >= self.high {
            WatermarkLevel::High
        } else if free_pages >= self.low {
            WatermarkLevel::Low
        } else if free_pages >= self.min {
            WatermarkLevel::Min
        } else {
            WatermarkLevel::Min
        }
    }

    /// `min` threshold (pages).
    pub fn min(&self) -> (r: usize)
        ensures
            r == self.spec_min(),
    {
        self.min
    }

    /// `low` threshold (pages).
    pub fn low(&self) -> (r: usize)
        ensures
            r == self.spec_low(),
    {
        self.low
    }

    /// `high` threshold (pages).
    pub fn high(&self) -> (r: usize)
        ensures
            r == self.spec_high(),
    {
        self.high
    }

    /// Total pages of the zone.
    pub fn total_pages(&self) -> (r: usize)
        ensures
            r == self.spec_total(),
    {
        self.total_pages
    }
}

/// Law: the thresholds are ordered, `1 <= min <= low <= high`.
pub proof fn lemma_watermark_ordered(total: nat)
    ensures
        1 <= wm_min(total) <= 2 * wm_min(total) <= 3 * wm_min(total),
{
}

/// Allocation-quality counters of a zone.
#[derive(Debug, Clone, Copy)]
pub struct PressureCounters {
    /// Allocation requests.
    pub alloc_requests: u64,
    /// Frees.
    pub free_requests: u64,
    /// Requests that found the zone below its `min` watermark.
    pub water_failures: u64,
    /// Requests that failed for want of memory.
    pub oom: u64,
    /// Times reclaim was triggered.
    pub reclaim_tripped: u64,
}

/// All counters are zero.
pub open spec fn counters_zero(c: PressureCounters) -> bool {
    c.alloc_requests == 0 && c.free_requests == 0 && c.water_failures == 0 && c.oom == 0 && c.reclaim_tripped == 0
}

impl Default for PressureCounters {
    fn default() -> (r: Self)
        ensures
            counters_zero(r),
    {
        Self::empty()
    }
}

impl PressureCounters {
    /// All counters zero.
    pub fn empty() -> (r: Self)
        ensures
            counters_zero(r),
    {
        Self { alloc_requests: 0, free_requests: 0, water_failures: 0, oom: 0, reclaim_tripped: 0 }
    }

    /// Count an allocation request.
    pub fn note_alloc(&mut self)
        requires
            old(self).alloc_requests < u64::MAX,
        ensures
            *final(self) == (PressureCounters { alloc_requests: (old(self).alloc_requests + 1) as u64, ..*old(self) }),
    {
        self.alloc_requests = self.alloc_requests + 1;
    }

    /// Count a free.
    pub fn note_free(&mut self)
        requires
            old(self).free_requests < u64::MAX,
        ensures
            *final(self) == (PressureCounters { free_requests: (old(self).free_requests + 1) as u64, ..*old(self) }),
    {
        self.free_requests = self.free_requests + 1;
    }

    /// Count a request below the `min` watermark.
    pub fn note_water_fail(&mut self)
        requires
            old(self).water_failures < u64::MAX,
        ensures
            *final(self) == (PressureCounters { water_failures: (old(self).water_failures + 1) as u64, ..*old(self) }),
    {
        self.water_failures = self.water_failures + 1;
    }

    /// Count a failure for want of memory.
    pub fn note_oom(&mut self)
        requires
            old(self).oom < u64::MAX,
        ensures
            *final(self) == (PressureCounters { oom: (old(self).oom + 1) as u64, ..*old(self) }),
    {
        self.oom = self.oom + 1;
    }

    /// Count a reclaim trigger.
    pub fn note_reclaim(&mut self)
        requires
            old(self).reclaim_tripped < u64::MAX,
        ensures
            *final(self) == (PressureCounters { reclaim_tripped: (old(self).reclaim_tripped + 1) as u64, ..*old(self) }),
    {
        self.reclaim_tripped = self.reclaim_tripped + 1;
    }
}

} // verus!
