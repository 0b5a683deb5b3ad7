//! Per-partition counters for the outcome of each processed candidate.

use vstd::prelude::*;

verus! {

/// Counts, for one partition, how many candidates were covered by an
/// already-blocked ancestor (`parent`), were duplicate input lines
/// (`duplicate`), were suppressed by the whitelist (`whitelisted`, with
/// `distinct_whitelisted` counting each such domain once), or were newly
/// blocked (`blocked`).
pub struct Statistics {
    pub parent: usize,
    pub duplicate: usize,
    pub whitelisted: usize,
    pub distinct_whitelisted: usize,
    pub blocked: usize,
}

impl Statistics {
    pub fn new() -> (r: Statistics)
        ensures
            r.parent == 0,
            r.duplicate == 0,
            r.whitelisted == 0,
            r.distinct_whitelisted == 0,
            r.blocked == 0,
    {
        Statistics {
            parent: 0,
            duplicate: 0,
            whitelisted: 0,
            distinct_whitelisted: 0,
            blocked: 0,
        }
    }

    pub fn increment_parent(&mut self)
        requires
            old(self).parent < usize::MAX,
        ensures
            *final(self) == (Statistics { parent: (old(self).parent + 1) as usize, ..*old(self) }),
    {
        self.parent += 1;
    }

    pub fn increment_duplicate(&mut self)
        requires
            old(self).duplicate < usize::MAX,
        ensures
            *final(self) == (Statistics {
                duplicate: (old(self).duplicate + 1) as usize,
                ..*old(self)
            }),
    {
        self.duplicate += 1;
    }

    pub fn increment_whitelisted(&mut self)
        requires
            old(self).whitelisted < usize::MAX,
        ensures
            *final(self) == (Statistics {
                whitelisted: (old(self).whitelisted + 1) as usize,
                ..*old(self)
            }),
    {
        self.whitelisted += 1;
    }

    pub fn increment_distinct_whitelisted(&mut self)
        requires
            old(self).distinct_whitelisted < usize::MAX,
        ensures
            *final(self) == (Statistics {
                distinct_whitelisted: (old(self).distinct_whitelisted + 1) as usize,
                ..*old(self)
            }),
    {
        self.distinct_whitelisted += 1;
    }

    pub fn increment_blocked(&mut self)
        requires
            old(self).blocked < usize::MAX,
        ensures
            *final(self) == (Statistics { blocked: (old(self).blocked + 1) as usize, ..*old(self) }),
    {
        self.blocked += 1;
    }

    /// Field-wise sum, used to combine the two partitions' statistics.
    pub fn aggregate(stat1: &Statistics, stat2: &Statistics) -> (r: Statistics)
        requires
            stat1.parent + stat2.parent <= usize::MAX,
            stat1.duplicate + stat2.duplicate <= usize::MAX,
            stat1.whitelisted + stat2.whitelisted <= usize::MAX,
            stat1.distinct_whitelisted + stat2.distinct_whitelisted <= usize::MAX,
            stat1.blocked + stat2.blocked <= usize::MAX,
        ensures
            r.parent == stat1.parent + stat2.parent,
            r.duplicate == stat1.duplicate + stat2.duplicate,
            r.whitelisted == stat1.whitelisted + stat2.whitelisted,
            r.distinct_whitelisted == stat1.distinct_whitelisted + stat2.distinct_whitelisted,
            r.blocked == stat1.blocked + stat2.blocked,
    {
        Statistics {
            parent: stat1.parent + stat2.parent,
            duplicate: stat1.duplicate + stat2.duplicate,
            whitelisted: stat1.whitelisted + stat2.whitelisted,
            distinct_whitelisted: stat1.distinct_whitelisted + stat2.distinct_whitelisted,
            blocked: stat1.blocked + stat2.blocked,
        }
    }
}

} // verus!
