//! Population: demographic groups per province. Unrest is an `f32` kept as its bit
//! pattern; growth, unrest and assimilation are computed on it outside this library.

use vstd::prelude::*;
use crate::tags::TagId;
use crate::world::{ProvinceId, ScopeId};

verus! {

/// A demographic group within a province.
#[derive(Clone, Copy, Debug, PartialEq, Eq, Structural)]
pub struct PopGroup {
    /// Culture tag.
    pub culture: TagId,
    /// Religion tag.
    pub religion: TagId,
    /// Number of people.
    pub size: u32,
    /// Unrest, 0.0 content to 100.0 revolting (`f32` bit pattern).
    pub unrest_bits: u32,
}

/// Sum of the sizes of `gs`.
pub open spec fn total_size(gs: Seq<PopGroup>) -> nat
    decreases gs.len(),
{
    if gs.len() == 0 { 0 } else { total_size(gs.drop_last()) + gs.last().size as nat }
}

/// Population groups per province (province with raw id `r` at position `r - 1`).
pub struct ProvincePops {
    pub groups: Vec<Vec<PopGroup>>,
}

impl ProvincePops {
    /// The groups of each province.
    pub open spec fn groups_view(&self) -> Seq<Seq<PopGroup>> {
        self.groups@.map_values(|v: Vec<PopGroup>| v@)
    }

    /// The groups of province `id` (none when it is out of range).
    pub open spec fn groups_of(&self, id: ProvinceId) -> Seq<PopGroup> {
        let i = id.spec_raw() - 1;
        if 0 <= i < self.groups@.len() { self.groups@[i]@ } else { Seq::empty() }
    }

    /// No groups, for `province_count` provinces.
    pub fn new(province_count: usize) -> (r: Self)
        ensures
            r.groups_view() == Seq::new(province_count as nat, |i: int| Seq::<PopGroup>::empty()),
    {
        let mut groups: Vec<Vec<PopGroup>> = Vec::new();
        let mut i: usize = 0;
        while i < province_count
            invariant
                i <= province_count,
                groups@.len() == i,
                forall|j: int| 0 <= j < i ==> (#[trigger] groups@[j])@.len() == 0,
            decreases province_count - i,
        {
            groups.push(Vec::new());
            i += 1;
        }
        let r = ProvincePops { groups };
        proof {
            assert forall|j: int| 0 <= j < province_count implies #[trigger] r.groups_view()[j] =~= Seq::<PopGroup>::empty() by {
                assert(r.groups_view()[j] == r.groups@[j]@);
            }
            assert(r.groups_view() =~= Seq::new(province_count as nat, |i: int| Seq::<PopGroup>::empty()));
        }
        r
    }

    /// The groups of province `id` (empty when it is out of range).
    pub fn get(&self, id: ProvinceId) -> (r: &[PopGroup])
        ensures
            r@ == self.groups_of(id),
    {
        let i = id.index();
        if i < self.groups.len() {
            self.groups[i].as_slice()
        } else {
            proof {
                assert(Seq::<PopGroup>::empty() =~= self.groups_of(id));
            }
            &[]
        }
    }

    /// The groups of province `id` for changing, when it is in range.
    pub fn get_mut(&mut self, id: ProvinceId) -> (r: Option<&mut Vec<PopGroup>>)
        ensures
            match r {
                Some(v) => {
                    &&& 0 <= id.spec_raw() - 1 < old(self).groups@.len()
                    &&& *v == old(self).groups@[id.spec_raw() - 1]
                    &&& final(self).groups@ == old(self).groups@.update(id.spec_raw() - 1, *final(v))
                },
                None => !(0 <= id.spec_raw() - 1 < old(self).groups@.len()) && final(self).groups@ == old(self).groups@,
            },
    {
        let i = id.index();
        if i < self.groups.len() {
            Some(&mut self.groups[i])
        } else {
            None
        }
    }

    /// Number of people in province `id`.
    pub fn total_pop(&self, id: ProvinceId) -> (r: u32)
        requires
            total_size(self.groups_of(id)) <= u32::MAX,
        ensures
            r == total_size(self.groups_of(id)),
    {
        let gs = self.get(id);
        let mut total: u32 = 0;
        let mut i: usize = 0;
        while i < gs.len()
            invariant
                i <= gs@.len(),
                total_size(gs@) <= u32::MAX,
                total == total_size(gs@.take(i as int)),
            decreases gs@.len() - i,
        {
            proof {
                assert(gs@.take(i + 1).drop_last() =~= gs@.take(i as int));
                lemma_total_size_prefix(gs@, i + 1);
            }
            total = total + gs[i].size;
            i += 1;
        }
        proof {
            assert(gs@.take(i as int) =~= gs@);
        }
        total
    }
}

proof fn lemma_total_size_prefix(gs: Seq<PopGroup>, k: int)
    requires
        0 <= k <= gs.len(),
    ensures
        total_size(gs.take(k)) <= total_size(gs),
    decreases gs.len() - k,
{
    if k < gs.len() {
        lemma_total_size_prefix(gs, k + 1);
        assert(gs.take(k + 1).drop_last() =~= gs.take(k));
    } else {
        assert(gs.take(k) =~= gs);
    }
}

} // verus!
