//! Vector clocks: per-machine "last seen operation count" entries, used to
//! decide whether one operation causally observed another. Cross-machine
//! wall clocks are not comparable, so causality is tracked with these
//! explicit counters only.

use vstd::prelude::*;

use crate::ids::MachineId;

verus! {

/// One entry of a vector clock: this many operations of `machine` had been
/// observed when the operation carrying the clock was issued.
#[derive(Clone, Copy, PartialEq, Eq, Structural, Debug)]
pub struct ClockEntry {
    pub machine: MachineId,
    pub count: u64,
}

/// A vector clock: a set of per-machine counters. A machine absent from the
/// entries has count 0 (nothing of it was observed). If a machine occurs
/// twice, the first entry is the one that counts.
#[derive(Debug, PartialEq, Eq)]
pub struct VectorClock {
    pub entries: Vec<ClockEntry>,
}

impl View for VectorClock {
    type V = Seq<ClockEntry>;

    open spec fn view(&self) -> Seq<ClockEntry> {
        self.entries@
    }
}

impl DeepView for VectorClock {
    type V = Seq<ClockEntry>;

    open spec fn deep_view(&self) -> Seq<ClockEntry> {
        self.entries@
    }
}

/// How many operations of machine `m` the clock `c` records as observed.
pub open spec fn seen(c: Seq<ClockEntry>, m: MachineId) -> u64
    decreases c.len(),
{
    if c.len() == 0 {
        0
    } else if c[0].machine == m {
        c[0].count
    } else {
        seen(c.drop_first(), m)
    }
}

/// True iff an operation carrying clock `c` had causally observed the
/// operation issued as number `counter` by machine `origin`.
pub open spec fn spec_observes(c: Seq<ClockEntry>, origin: MachineId, counter: u64) -> bool {
    seen(c, origin) >= counter
}

impl Clone for VectorClock {
    fn clone(&self) -> (res: Self)
        ensures
            res@ == self@,
    {
        let mut entries: Vec<ClockEntry> = Vec::new();
        let mut i: usize = 0;
        while i < self.entries.len()
            invariant
                i <= self.entries.len(),
                entries@ == self.entries@.take(i as int),
            decreases self.entries.len() - i,
        {
            entries.push(self.entries[i]);
            proof {
                assert(entries@ =~= self.entries@.take(i + 1));
            }
            i = i + 1;
        }
        proof {
            assert(entries@ =~= self.entries@);
        }
        VectorClock { entries }
    }
}

impl VectorClock {
    /// A clock that has observed nothing of any machine.
    pub fn empty() -> (r: Self)
        ensures
            r@ == Seq::<ClockEntry>::empty(),
    {
        VectorClock { entries: Vec::new() }
    }

    /// The count recorded for machine `m`, 0 when `m` has no entry.
    pub fn get(&self, m: MachineId) -> (r: u64)
        ensures
            r == seen(self@, m),
    {
        let mut i: usize = 0;
        proof {
            assert(self@.skip(0) =~= self@);
        }
        while i < self.entries.len()
            invariant
                i <= self.entries.len(),
                seen(self@, m) == seen(self@.skip(i as int), m),
                forall|j: int| 0 <= j < i ==> self@[j].machine != m,
            decreases self.entries.len() - i,
        {
            if self.entries[i].machine == m {
                proof {
                    assert(self@.skip(i as int)[0] == self@[i as int]);
                }
                return self.entries[i].count;
            }
            proof {
                assert(self@.skip(i as int).drop_first() =~= self@.skip(i + 1));
                assert(self@.skip(i as int)[0] == self@[i as int]);
            }
            i = i + 1;
        }
        proof {
            assert(self@.skip(i as int).len() == 0);
        }
        0
    }

    /// True iff this clock had observed operation `counter` of `origin`.
    pub fn observes(&self, origin: MachineId, counter: u64) -> (r: bool)
        ensures
            r == spec_observes(self@, origin, counter),
    {
        self.get(origin) >= counter
    }
}

} // verus!
