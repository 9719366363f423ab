//! The holiday record.

use vstd::prelude::*;
use crate::date::Date;
use crate::lands::{ascending, is_ascending, land_set};

verus! {

/// One holiday: its name, its date and the regions that observe it.
#[derive(Clone, Debug, PartialEq, Eq, PartialOrd, Ord, Hash)]
pub struct Feiertag {
    pub name: String,
    pub date: Date,
    /// The observing regions, in strictly ascending order.
    pub lands: Vec<String>,
}

impl Feiertag {
    /// The date exists and the regions are in strictly ascending order.
    pub open spec fn wf(&self) -> bool {
        self.date.wf() && ascending(self.lands@)
    }

    /// The regions as a set.
    pub open spec fn regions(&self) -> Set<Seq<char>> {
        land_set(self.lands@)
    }

    /// Whether the date exists and the regions are in strictly ascending
    /// order.
    pub fn is_valid(&self) -> (r: bool)
        ensures
            r == self.wf(),
    {
        self.date.is_valid() && is_ascending(&self.lands)
    }

    /// A holiday observed by one region.
    pub fn new(name: String, date: Date, land: String) -> (day: Feiertag)
        ensures
            day.name == name,
            day.date == date,
            day.lands@ == seq![land],
            day.regions() == set![land@],
            date.wf() ==> day.wf(),
    {
        let mut lands: Vec<String> = Vec::new();
        lands.push(land);
        proof {
            assert(lands@ =~= seq![land]);
            assert forall|t: Seq<char>| land_set(lands@).contains(t) <==> set![land@].contains(
                t,
            ) by {
                if t == land@ {
                    assert(lands@[0]@ == t);
                }
            }
            assert(land_set(lands@) =~= set![land@]);
        }
        Feiertag { name, date, lands }
    }
}

/// Every record is well formed and the dates strictly increase.
pub open spec fn sorted_by_date(days: Seq<Feiertag>) -> bool {
    &&& forall|i: int| 0 <= i < days.len() ==> (#[trigger] days[i]).wf()
    &&& forall|i: int, j: int|
        0 <= i < j < days.len() ==> (#[trigger] days[i]).date.key() < (#[trigger] days[j]).date.key()
}

/// Whether every record is well formed and the dates strictly increase.
pub fn is_sorted_by_date(days: &[Feiertag]) -> (r: bool)
    ensures
        r == sorted_by_date(days@),
{
    let mut i: usize = 0;
    while i < days.len()
        invariant
            i <= days@.len(),
            sorted_by_date(days@.take(i as int)),
        decreases days@.len() - i,
    {
        if !days[i].is_valid() {
            return false;
        }
        if i > 0 && !days[i - 1].date.is_before(&days[i].date) {
            proof {
                assert(!(days@[i - 1].date.key() < days@[i as int].date.key()));
            }
            return false;
        }
        proof {
            let done = days@.take(i as int);
            let more = days@.take(i + 1);
            assert forall|k: int| 0 <= k < more.len() implies (#[trigger] more[k]).wf() by {
                if k < i {
                    assert(done[k].wf());
                }
            }
            assert forall|a: int, b: int| 0 <= a < b < more.len() implies (#[trigger] more[a]).date.key()
                < (#[trigger] more[b]).date.key() by {
                if b < i {
                    assert(done[a].date.key() < done[b].date.key());
                } else if a < i - 1 {
                    assert(done[a].date.key() < done[i - 1].date.key());
                }
            }
        }
        i += 1;
    }
    proof {
        assert(days@.take(days@.len() as int) =~= days@);
    }
    true
}

} // verus!
