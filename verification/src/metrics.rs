use vstd::prelude::*;

verus! {

/// What a heal tick restored: shields or hull.
#[derive(Debug, Clone, Copy, PartialEq, Eq, Structural)]
pub enum SpecificHealTick {
    Shield,
    Hull,
}

/// Counts of values, all of them and those on shields and on hull.
#[derive(Debug, Clone, Copy, PartialEq, Eq, Structural)]
pub struct ShieldAndHullCounts {
    pub all: u64,
    pub shield: u64,
    pub hull: u64,
}

/// How many of `kinds` are `kind`.
pub open spec fn count_kind(kinds: Seq<SpecificHealTick>, kind: SpecificHealTick) -> nat
    decreases kinds.len(),
{
    if kinds.len() == 0 {
        0
    } else {
        count_kind(kinds.drop_last(), kind) + if kinds.last() == kind {
            1nat
        } else {
            0nat
        }
    }
}

impl Default for ShieldAndHullCounts {
    fn default() -> (res: Self)
        ensures
            res.all == 0 && res.shield == 0 && res.hull == 0,
    {
        ShieldAndHullCounts { all: 0, shield: 0, hull: 0 }
    }
}

impl ShieldAndHullCounts {
    /// Counts heal ticks by what they restored; `all` counts every tick.
    pub fn of_heal_ticks(kinds: &Vec<SpecificHealTick>) -> (res: Self)
        ensures
            res.shield == count_kind(kinds@, SpecificHealTick::Shield),
            res.hull == count_kind(kinds@, SpecificHealTick::Hull),
            res.all == kinds@.len(),
            res.all == res.shield + res.hull,
    {
        let mut shield: u64 = 0;
        let mut hull: u64 = 0;
        let mut i: usize = 0;
        while i < kinds.len()
            invariant
                i <= kinds@.len(),
                shield == count_kind(kinds@.take(i as int), SpecificHealTick::Shield),
                hull == count_kind(kinds@.take(i as int), SpecificHealTick::Hull),
                shield + hull == i,
            decreases kinds@.len() - i,
        {
            proof {
                assert(kinds@.take(i + 1).drop_last() == kinds@.take(i as int));
            }
            match kinds[i] {
                SpecificHealTick::Shield => shield = shield + 1,
                SpecificHealTick::Hull => hull = hull + 1,
            }
            i = i + 1;
        }
        assert(kinds@.take(kinds@.len() as int) == kinds@);
        ShieldAndHullCounts { all: shield + hull, shield, hull }
    }
}

} // verus!
