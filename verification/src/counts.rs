//! The corpus aggregate: one group map per tracked category plus the
//! running total byte size of every processed file.

use vstd::prelude::*;

use crate::digest::digest_of;
use crate::digest::hash;
use crate::groups::{
    counts_le, digest_eq, dup_sum, gm_wf, group_count, group_size, has_digest, index_of,
    lemma_dup_take_le, lemma_first_occurrence, lemma_record_one_wf, lemma_unique_index, record_one,
    Group, GroupEntry, GroupMap,
};

verus! {

/// The single mutable aggregate of a corpus scan. `total_size` sums the
/// byte length of every file handed to the walker; each category owns an
/// independent digest map, and digests are never compared across
/// categories.
pub struct Counts {
    pub total_size: u64,
    pub data_segments: GroupMap,
    pub elem_segments: GroupMap,
    pub code_bodies: GroupMap,
    pub custom_sections: GroupMap,
}

impl Counts {
    /// Every category map is well formed.
    pub open spec fn wf(&self) -> bool {
        &&& gm_wf(self.data_segments@)
        &&& gm_wf(self.elem_segments@)
        &&& gm_wf(self.code_bodies@)
        &&& gm_wf(self.custom_sections@)
    }

    /// No occurrence count exceeds the total number of bytes processed.
    /// The walker establishes this because every recorded occurrence is
    /// paid for by at least one consumed input byte; it is what keeps the
    /// counters away from their machine limit.
    pub open spec fn bounded(&self) -> bool {
        &&& counts_le(self.data_segments@, self.total_size as int)
        &&& counts_le(self.elem_segments@, self.total_size as int)
        &&& counts_le(self.code_bodies@, self.total_size as int)
        &&& counts_le(self.custom_sections@, self.total_size as int)
    }

    /// Record one byte range in the given category map: a range whose
    /// digest is new opens a group of one occurrence; a known digest gains
    /// one occurrence.
    pub fn add_entry(map: &mut GroupMap, data: &[u8])
        requires
            gm_wf(old(map)@),
            counts_le(old(map)@, u64::MAX - 1),
        ensures
            final(map)@ == record_one(old(map)@, digest_of(data@), data@.len() as u64),
            gm_wf(final(map)@),
    {
        let ghost d = digest_of(data@);
        let h = hash(data);
        let len = map.entries.len();
        let mut i: usize = 0;
        while i < len
            invariant
                len == map.entries@.len(),
                i <= len,
                map.entries@ == old(map).entries@,
                h@ == d,
                d == digest_of(data@),
                gm_wf(map@),
                counts_le(map@, u64::MAX - 1),
                forall|j: int| 0 <= j < i ==> map.entries@[j].digest@ != d,
            decreases len - i,
        {
            if digest_eq(&map.entries[i].digest, &h) {
                let size_i = map.entries[i].size;
                let count_i = map.entries[i].count;
                proof {
                    assert(map@[i as int] == map.entries@[i as int].model());
                    assert(count_i <= u64::MAX - 1);
                }
                map.entries[i] = GroupEntry { digest: h, size: size_i, count: count_i + 1 };
                proof {
                    lemma_unique_index(old(map)@, d, i as int);
                    assert forall|j: int| 0 <= j < map@.len() implies map@[j] == record_one(
                        old(map)@,
                        d,
                        data@.len() as u64,
                    )[j] by {
                        if j != i {
                            assert(old(map)@[j].digest != d);
                        }
                    }
                    assert(map@ =~= record_one(old(map)@, d, data@.len() as u64));
                    lemma_record_one_wf(old(map)@, d, data@.len() as u64);
                }
                return ;
            }
            i = i + 1;
        }
        map.entries.push(GroupEntry { digest: h, size: data.len() as u64, count: 1 });
        proof {
            assert(!has_digest(old(map)@, d)) by {
                if has_digest(old(map)@, d) {
                    let j = index_of(old(map)@, d);
                    assert(0 <= j < old(map)@.len() && old(map)@[j].digest == d);
                }
            }
            assert(map@ =~= record_one(old(map)@, d, data@.len() as u64));
            lemma_record_one_wf(old(map)@, d, data@.len() as u64);
        }
    }

    pub fn add_data_segment(&mut self, data_segment: &[u8])
        requires
            gm_wf(old(self).data_segments@),
            counts_le(old(self).data_segments@, u64::MAX - 1),
        ensures
            final(self).data_segments@ == record_one(
                old(self).data_segments@,
                digest_of(data_segment@),
                data_segment@.len() as u64,
            ),
            gm_wf(final(self).data_segments@),
            final(self).elem_segments == old(self).elem_segments,
            final(self).code_bodies == old(self).code_bodies,
            final(self).custom_sections == old(self).custom_sections,
            final(self).total_size == old(self).total_size,
    {
        Self::add_entry(&mut self.data_segments, data_segment);
    }

    pub fn add_elem_segment(&mut self, elem_segment: &[u8])
        requires
            gm_wf(old(self).elem_segments@),
            counts_le(old(self).elem_segments@, u64::MAX - 1),
        ensures
            final(self).elem_segments@ == record_one(
                old(self).elem_segments@,
                digest_of(elem_segment@),
                elem_segment@.len() as u64,
            ),
            gm_wf(final(self).elem_segments@),
            final(self).data_segments == old(self).data_segments,
            final(self).code_bodies == old(self).code_bodies,
            final(self).custom_sections == old(self).custom_sections,
            final(self).total_size == old(self).total_size,
    {
        Self::add_entry(&mut self.elem_segments, elem_segment);
    }

    pub fn add_code_body(&mut self, code_body: &[u8])
        requires
            gm_wf(old(self).code_bodies@),
            counts_le(old(self).code_bodies@, u64::MAX - 1),
        ensures
            final(self).code_bodies@ == record_one(
                old(self).code_bodies@,
                digest_of(code_body@),
                code_body@.len() as u64,
            ),
            gm_wf(final(self).code_bodies@),
            final(self).data_segments == old(self).data_segments,
            final(self).elem_segments == old(self).elem_segments,
            final(self).custom_sections == old(self).custom_sections,
            final(self).total_size == old(self).total_size,
    {
        Self::add_entry(&mut self.code_bodies, code_body);
    }

    pub fn add_custom_section(&mut self, custom: &[u8])
        requires
            gm_wf(old(self).custom_sections@),
            counts_le(old(self).custom_sections@, u64::MAX - 1),
        ensures
            final(self).custom_sections@ == record_one(
                old(self).custom_sections@,
                digest_of(custom@),
                custom@.len() as u64,
            ),
            gm_wf(final(self).custom_sections@),
            final(self).data_segments == old(self).data_segments,
            final(self).elem_segments == old(self).elem_segments,
            final(self).code_bodies == old(self).code_bodies,
            final(self).total_size == old(self).total_size,
    {
        Self::add_entry(&mut self.custom_sections, custom);
    }

    pub fn duplicated_data_segments(&self) -> (r: u64)
        requires
            gm_wf(self.data_segments@),
            dup_sum(self.data_segments@) <= u64::MAX,
        ensures
            r as int == dup_sum(self.data_segments@),
    {
        dup_bytes(&self.data_segments)
    }

    pub fn duplicated_elem_segments(&self) -> (r: u64)
        requires
            gm_wf(self.elem_segments@),
            dup_sum(self.elem_segments@) <= u64::MAX,
        ensures
            r as int == dup_sum(self.elem_segments@),
    {
        dup_bytes(&self.elem_segments)
    }

    pub fn duplicated_code_bodies(&self) -> (r: u64)
        requires
            gm_wf(self.code_bodies@),
            dup_sum(self.code_bodies@) <= u64::MAX,
        ensures
            r as int == dup_sum(self.code_bodies@),
    {
        dup_bytes(&self.code_bodies)
    }

    pub fn duplicated_custom_sections(&self) -> (r: u64)
        requires
            gm_wf(self.custom_sections@),
            dup_sum(self.custom_sections@) <= u64::MAX,
        ensures
            r as int == dup_sum(self.custom_sections@),
    {
        dup_bytes(&self.custom_sections)
    }
}

impl Default for Counts {
    fn default() -> (c: Counts)
        ensures
            c.total_size == 0,
            c.data_segments@ == Seq::<Group>::empty(),
            c.elem_segments@ == Seq::<Group>::empty(),
            c.code_bodies@ == Seq::<Group>::empty(),
            c.custom_sections@ == Seq::<Group>::empty(),
            c.wf(),
            c.bounded(),
    {
        Counts {
            total_size: 0,
            data_segments: GroupMap::new(),
            elem_segments: GroupMap::new(),
            code_bodies: GroupMap::new(),
            custom_sections: GroupMap::new(),
        }
    }
}

/// Sum `size * (count - 1)` over every group of one category map.
fn dup_bytes(m: &GroupMap) -> (r: u64)
    requires
        gm_wf(m@),
        dup_sum(m@) <= u64::MAX,
    ensures
        r as int == dup_sum(m@),
{
    let len = m.entries.len();
    let mut acc: u64 = 0;
    let mut i: usize = 0;
    while i < len
        invariant
            len == m.entries@.len(),
            i <= len,
            gm_wf(m@),
            dup_sum(m@) <= u64::MAX,
            acc as int == dup_sum(m@.take(i as int)),
        decreases len - i,
    {
        let e_size = m.entries[i].size;
        let e_count = m.entries[i].count;
        proof {
            assert(m@[i as int] == m.entries@[i as int].model());
            assert(e_count >= 1);
            assert(m@.take((i + 1) as int).drop_last() =~= m@.take(i as int));
            assert(m@.take((i + 1) as int).last() == m@[i as int]);
            lemma_dup_take_le(m@, (i + 1) as int);
        }
        acc = acc + e_size * (e_count - 1);
        i = i + 1;
    }
    proof {
        assert(m@.take(len as int) =~= m@);
    }
    acc
}

/// Category isolation: recording byte-identical content once in one
/// category and once in another opens a fresh group in each, each with a
/// single occurrence, and neither category's duplicated-byte total moves.
/// The categories cannot interact: each recording touches exactly one map.
pub proof fn lemma_category_isolation(
    first: Seq<Group>,
    second: Seq<Group>,
    d: Seq<u8>,
    n: u64,
)
    requires
        gm_wf(first),
        gm_wf(second),
        !has_digest(first, d),
        !has_digest(second, d),
    ensures
        group_count(record_one(first, d, n), d) == 1,
        group_count(record_one(second, d, n), d) == 1,
        group_size(record_one(first, d, n), d) == n as int,
        group_size(record_one(second, d, n), d) == n as int,
        dup_sum(record_one(first, d, n)) == dup_sum(first),
        dup_sum(record_one(second, d, n)) == dup_sum(second),
{
    lemma_first_occurrence(first, d, n);
    lemma_first_occurrence(second, d, n);
}

} // verus!
