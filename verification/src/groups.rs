//! The group aggregator: per category, a mapping from content digest to the
//! group of byte ranges that share it, together with the arithmetic that
//! turns group statistics into a duplicated-byte estimate.

use vstd::arithmetic::mul::*;
use vstd::prelude::*;

use crate::digest::digest_of;

verus! {

/// The mathematical image of one group: the digest that keys it, the byte
/// size of the content it stands for, and how often that content occurred.
#[verifier::ext_equal]
pub ghost struct Group {
    pub digest: Seq<u8>,
    pub size: u64,
    pub count: u64,
}

/// A category map is well formed when no digest keys two groups and every
/// group records at least one occurrence.
pub open spec fn gm_wf(s: Seq<Group>) -> bool {
    &&& forall|i: int, j: int| 0 <= i < j < s.len() ==> s[i].digest != s[j].digest
    &&& forall|i: int| 0 <= i < s.len() ==> s[i].count >= 1
}

pub open spec fn has_digest(s: Seq<Group>, d: Seq<u8>) -> bool {
    exists|i: int| 0 <= i < s.len() && s[i].digest == d
}

pub open spec fn index_of(s: Seq<Group>, d: Seq<u8>) -> int {
    choose|i: int| 0 <= i < s.len() && s[i].digest == d
}

/// How often content with digest `d` has been recorded in this category.
pub open spec fn group_count(s: Seq<Group>, d: Seq<u8>) -> int {
    if has_digest(s, d) {
        s[index_of(s, d)].count as int
    } else {
        0
    }
}

/// The representative byte size of the group keyed by `d`.
pub open spec fn group_size(s: Seq<Group>, d: Seq<u8>) -> int {
    if has_digest(s, d) {
        s[index_of(s, d)].size as int
    } else {
        0
    }
}

/// Every occurrence count in the map is at most `b`.
pub open spec fn counts_le(s: Seq<Group>, b: int) -> bool {
    forall|i: int| 0 <= i < s.len() ==> s[i].count <= b
}

pub open spec fn bump_entry(g: Group, d: Seq<u8>) -> Group {
    if g.digest == d {
        Group { digest: g.digest, size: g.size, count: (g.count + 1) as u64 }
    } else {
        g
    }
}

pub open spec fn bump(s: Seq<Group>, d: Seq<u8>) -> Seq<Group> {
    Seq::new(s.len(), |i: int| bump_entry(s[i], d))
}

/// One recording of content with digest `d` and byte size `n`: a fresh
/// digest opens a group of one occurrence; a known digest gains one
/// occurrence and keeps its representative size.
pub open spec fn record_one(s: Seq<Group>, d: Seq<u8>, n: u64) -> Seq<Group> {
    if has_digest(s, d) {
        bump(s, d)
    } else {
        s.push(Group { digest: d, size: n, count: 1u64 })
    }
}

/// `k` recordings of the same digest and size, one after the other.
pub open spec fn record_n(s: Seq<Group>, d: Seq<u8>, n: u64, k: nat) -> Seq<Group>
    decreases k,
{
    if k == 0 {
        s
    } else {
        record_one(record_n(s, d, n, (k - 1) as nat), d, n)
    }
}

/// The duplicated bytes of a category: per group, every occurrence beyond
/// the first could be deduplicated, so a group of size `s` seen `c` times
/// contributes `s * (c - 1)`.
pub open spec fn dup_sum(s: Seq<Group>) -> int
    decreases s.len(),
{
    if s.len() == 0 {
        0
    } else {
        dup_sum(s.drop_last()) + s.last().size * (s.last().count - 1)
    }
}

/// `b` holds everything `a` held: the old groups stand at their old places
/// with their digests and sizes, and no occurrence count has decreased.
pub open spec fn extends(a: Seq<Group>, b: Seq<Group>) -> bool {
    &&& a.len() <= b.len()
    &&& forall|i: int|
        0 <= i < a.len() ==> b[i].digest == a[i].digest && b[i].size == a[i].size && b[i].count
            >= a[i].count
}

/// One group as stored: the digest bytes, the representative size and the
/// occurrence count.
pub struct GroupEntry {
    pub digest: Vec<u8>,
    pub size: u64,
    pub count: u64,
}

impl GroupEntry {
    pub open spec fn model(&self) -> Group {
        Group { digest: self.digest@, size: self.size, count: self.count }
    }
}

/// One category's mapping from digest to group.
pub struct GroupMap {
    pub entries: Vec<GroupEntry>,
}

impl View for GroupMap {
    type V = Seq<Group>;

    open spec fn view(&self) -> Seq<Group> {
        Seq::new(self.entries@.len(), |i: int| self.entries@[i].model())
    }
}

impl GroupMap {
    pub fn new() -> (m: GroupMap)
        ensures
            m@ == Seq::<Group>::empty(),
    {
        let m = GroupMap { entries: Vec::new() };
        proof {
            assert(m@ =~= Seq::<Group>::empty());
        }
        m
    }
}

pub(crate) fn digest_eq(a: &Vec<u8>, b: &Vec<u8>) -> (r: bool)
    ensures
        r == (a@ == b@),
{
    if a.len() != b.len() {
        return false;
    }
    let mut i: usize = 0;
    while i < a.len()
        invariant
            i <= a@.len(),
            a@.len() == b@.len(),
            forall|j: int| 0 <= j < i ==> a@[j] == b@[j],
        decreases a@.len() - i,
    {
        if a[i] != b[i] {
            return false;
        }
        i = i + 1;
    }
    proof {
        assert(a@ =~= b@);
    }
    true
}

/// If `i` holds digest `d` in a well-formed map, then `i` is the index that
/// the map's queries resolve `d` to.
pub proof fn lemma_unique_index(s: Seq<Group>, d: Seq<u8>, i: int)
    requires
        gm_wf(s),
        0 <= i < s.len(),
        s[i].digest == d,
    ensures
        has_digest(s, d),
        index_of(s, d) == i,
        group_count(s, d) == s[i].count as int,
        group_size(s, d) == s[i].size as int,
{
    assert(has_digest(s, d));
    let j = index_of(s, d);
    assert(0 <= j < s.len() && s[j].digest == d);
    if i < j {
        assert(s[i].digest != s[j].digest);
    }
    if j < i {
        assert(s[j].digest != s[i].digest);
    }
}

/// Bumping a digest that is not in the map changes nothing.
pub proof fn lemma_bump_noop(s: Seq<Group>, d: Seq<u8>)
    requires
        !has_digest(s, d),
    ensures
        bump(s, d) == s,
{
    assert forall|i: int| 0 <= i < s.len() implies bump(s, d)[i] == s[i] by {
        assert(s[i].digest != d);
    }
    assert(bump(s, d) =~= s);
}

/// Recording preserves well-formedness.
pub proof fn lemma_record_one_wf(s: Seq<Group>, d: Seq<u8>, n: u64)
    requires
        gm_wf(s),
        counts_le(s, u64::MAX - 1),
    ensures
        gm_wf(record_one(s, d, n)),
{
    let r = record_one(s, d, n);
    if has_digest(s, d) {
        assert forall|i: int| 0 <= i < r.len() implies r[i].count >= 1 by {
            assert(s[i].count >= 1);
            assert(s[i].count <= u64::MAX - 1);
        }
        assert forall|i: int, j: int| 0 <= i < j < r.len() implies r[i].digest != r[j].digest by {
            assert(s[i].digest != s[j].digest);
        }
    } else {
        assert forall|i: int, j: int| 0 <= i < j < r.len() implies r[i].digest != r[j].digest by {
            if j < s.len() {
                assert(s[i].digest != s[j].digest);
            } else {
                assert(s[i].digest != d);
            }
        }
    }
}

/// Recording raises no occurrence count by more than one.
pub proof fn lemma_record_one_counts_le(s: Seq<Group>, d: Seq<u8>, n: u64, b: int)
    requires
        counts_le(s, b),
        counts_le(s, u64::MAX - 1),
        0 <= b,
    ensures
        counts_le(record_one(s, d, n), b + 1),
{
    let r = record_one(s, d, n);
    assert forall|i: int| 0 <= i < r.len() implies r[i].count <= b + 1 by {
        if i < s.len() {
            assert(s[i].count <= b);
            assert(s[i].count <= u64::MAX - 1);
        }
    }
}

/// Recording only extends a category map.
pub proof fn lemma_record_one_extends(s: Seq<Group>, d: Seq<u8>, n: u64)
    requires
        counts_le(s, u64::MAX - 1),
    ensures
        extends(s, record_one(s, d, n)),
{
    let r = record_one(s, d, n);
    assert forall|i: int|
        0 <= i < s.len() implies r[i].digest == s[i].digest && r[i].size == s[i].size && r[i].count
        >= s[i].count by {
        assert(s[i].count <= u64::MAX - 1);
    }
}

/// A counter bound may be relaxed.
pub proof fn lemma_counts_le_mono(s: Seq<Group>, a: int, b: int)
    requires
        counts_le(s, a),
        a <= b,
    ensures
        counts_le(s, b),
{
    assert forall|i: int| 0 <= i < s.len() implies s[i].count <= b by {
        assert(s[i].count <= a);
    }
}

pub proof fn lemma_extends_trans(a: Seq<Group>, b: Seq<Group>, c: Seq<Group>)
    requires
        extends(a, b),
        extends(b, c),
    ensures
        extends(a, c),
{
    assert forall|i: int|
        0 <= i < a.len() implies c[i].digest == a[i].digest && c[i].size == a[i].size && c[i].count
        >= a[i].count by {
        assert(b[i].digest == a[i].digest && b[i].size == a[i].size && b[i].count >= a[i].count);
    }
}

/// How recording moves the per-digest counters: the recorded digest gains
/// one occurrence, keeps its size (or takes `n` when fresh), and every other
/// digest is untouched.
pub proof fn lemma_record_one_counters(s: Seq<Group>, d: Seq<u8>, n: u64)
    requires
        gm_wf(s),
        counts_le(s, u64::MAX - 1),
    ensures
        group_count(record_one(s, d, n), d) == group_count(s, d) + 1,
        group_size(record_one(s, d, n), d) == if has_digest(s, d) {
            group_size(s, d)
        } else {
            n as int
        },
        forall|d2: Seq<u8>| d2 != d ==> group_count(record_one(s, d, n), d2) == group_count(s, d2),
        forall|d2: Seq<u8>| d2 != d ==> group_size(record_one(s, d, n), d2) == group_size(s, d2),
{
    let r = record_one(s, d, n);
    lemma_record_one_wf(s, d, n);
    if has_digest(s, d) {
        let i = index_of(s, d);
        assert(0 <= i < s.len() && s[i].digest == d);
        lemma_unique_index(s, d, i);
        assert(r[i].digest == d && r[i].count == s[i].count + 1 && r[i].size == s[i].size);
        lemma_unique_index(r, d, i);
    } else {
        lemma_unique_index(r, d, s.len() as int);
    }
    assert forall|d2: Seq<u8>| d2 != d implies group_count(r, d2) == group_count(s, d2)
        && group_size(r, d2) == group_size(s, d2) by {
        if has_digest(s, d2) {
            let i = index_of(s, d2);
            assert(0 <= i < s.len() && s[i].digest == d2);
            lemma_unique_index(s, d2, i);
            assert(r[i].digest == d2 && r[i].count == s[i].count && r[i].size == s[i].size);
            lemma_unique_index(r, d2, i);
        } else {
            assert forall|i: int| 0 <= i < r.len() implies r[i].digest != d2 by {
                if i < s.len() {
                    assert(s[i].digest != d2);
                }
            }
            assert(!has_digest(r, d2));
        }
    }
}

/// Appending one group adds exactly its own contribution to the total.
pub proof fn lemma_dup_push(s: Seq<Group>, g: Group)
    ensures
        dup_sum(s.push(g)) == dup_sum(s) + g.size * (g.count - 1),
{
    assert(s.push(g).drop_last() =~= s);
    assert(s.push(g).last() == g);
}

/// Bumping a digest that the map holds adds exactly that group's size.
pub proof fn lemma_dup_bump(s: Seq<Group>, d: Seq<u8>)
    requires
        gm_wf(s),
        has_digest(s, d),
        counts_le(s, u64::MAX - 1),
    ensures
        dup_sum(bump(s, d)) == dup_sum(s) + group_size(s, d),
    decreases s.len(),
{
    let t = s.drop_last();
    let g = s.last();
    assert(bump(s, d).drop_last() =~= bump(t, d));
    assert(bump(s, d).last() == bump_entry(g, d));
    assert(gm_wf(t));
    assert(counts_le(t, u64::MAX - 1));
    if g.digest == d {
        lemma_unique_index(s, d, s.len() - 1);
        assert(!has_digest(t, d)) by {
            if has_digest(t, d) {
                let i = index_of(t, d);
                assert(0 <= i < t.len() && t[i].digest == d);
                assert(s[i].digest != s[s.len() - 1].digest);
            }
        }
        lemma_bump_noop(t, d);
        assert(g.count <= u64::MAX - 1);
        assert((g.count + 1) as u64 == g.count + 1);
        assert(g.size * (g.count - 1) == g.size * (g.count as int) - g.size) by {
            lemma_mul_is_distributive_sub(g.size as int, g.count as int, 1);
            lemma_mul_basics(g.size as int);
        }
    } else {
        let i = index_of(s, d);
        assert(0 <= i < s.len() && s[i].digest == d);
        assert(i != s.len() - 1);
        lemma_unique_index(s, d, i);
        assert(t[i].digest == d);
        lemma_unique_index(t, d, i);
        lemma_dup_bump(t, d);
        assert(bump_entry(g, d) == g);
    }
}

/// One recording raises the duplicated-byte total by the recorded group's
/// size when the digest was already present, and by nothing when it is new.
pub proof fn lemma_dup_record_one(s: Seq<Group>, d: Seq<u8>, n: u64)
    requires
        gm_wf(s),
        counts_le(s, u64::MAX - 1),
    ensures
        dup_sum(record_one(s, d, n)) == dup_sum(s) + if has_digest(s, d) {
            group_size(s, d)
        } else {
            0
        },
{
    if has_digest(s, d) {
        lemma_dup_bump(s, d);
    } else {
        lemma_dup_push(s, Group { digest: d, size: n, count: 1u64 });
        lemma_mul_basics(n as int);
    }
}

/// A first occurrence is never duplicated: recording a byte range whose
/// digest is new to a category opens a group of one occurrence and leaves
/// the category's duplicated-byte total unchanged; it stays unchanged until
/// a second occurrence of identical content is recorded.
pub proof fn lemma_first_occurrence(s: Seq<Group>, d: Seq<u8>, n: u64)
    requires
        gm_wf(s),
        !has_digest(s, d),
    ensures
        record_one(s, d, n) == s.push(Group { digest: d, size: n, count: 1u64 }),
        dup_sum(record_one(s, d, n)) == dup_sum(s),
        group_count(record_one(s, d, n), d) == 1,
        group_size(record_one(s, d, n), d) == n as int,
        gm_wf(record_one(s, d, n)),
{
    let g = Group { digest: d, size: n, count: 1u64 };
    let r = record_one(s, d, n);
    lemma_dup_push(s, g);
    assert(g.size * (g.count - 1) == 0) by {
        lemma_mul_basics(g.size as int);
    }
    assert(gm_wf(r)) by {
        assert forall|i: int, j: int| 0 <= i < j < r.len() implies r[i].digest != r[j].digest by {
            if j < s.len() {
                assert(s[i].digest != s[j].digest);
            } else {
                assert(s[i].digest != d);
            }
        }
    }
    lemma_unique_index(r, d, s.len() as int);
}

/// Duplication arithmetic: `k` byte-identical occurrences of content of
/// size `n`, all new to the category, form one group of `k` occurrences and
/// contribute exactly `n * (k - 1)` duplicated bytes.
pub proof fn lemma_duplication_arithmetic(s: Seq<Group>, d: Seq<u8>, n: u64, k: nat)
    requires
        gm_wf(s),
        !has_digest(s, d),
        1 <= k <= u64::MAX,
    ensures
        record_n(s, d, n, k) == s.push(Group { digest: d, size: n, count: k as u64 }),
        dup_sum(record_n(s, d, n, k)) == dup_sum(s) + n * (k - 1),
        group_count(record_n(s, d, n, k), d) == k,
        group_size(record_n(s, d, n, k), d) == n as int,
        gm_wf(record_n(s, d, n, k)),
    decreases k,
{
    if k == 1 {
        assert(record_n(s, d, n, k) == record_one(s, d, n)) by {
            reveal_with_fuel(record_n, 2);
        }
        lemma_first_occurrence(s, d, n);
        assert(n * (1 - 1) == 0) by {
            lemma_mul_basics(n as int);
        }
    } else {
        lemma_duplication_arithmetic(s, d, n, (k - 1) as nat);
        let t = record_n(s, d, n, (k - 1) as nat);
        let gprev = Group { digest: d, size: n, count: (k - 1) as u64 };
        let gnext = Group { digest: d, size: n, count: k as u64 };
        assert(t == s.push(gprev));
        assert(t[s.len() as int] == gprev);
        lemma_unique_index(t, d, s.len() as int);
        assert(has_digest(t, d));
        assert(record_n(s, d, n, k) == bump(t, d));
        assert forall|i: int| 0 <= i < t.len() implies bump(t, d)[i] == s.push(gnext)[i] by {
            if i < s.len() {
                assert(s[i].digest != d);
                assert(t[i] == s[i]);
            }
        }
        assert(bump(t, d) =~= s.push(gnext));
        lemma_dup_push(s, gprev);
        lemma_dup_push(s, gnext);
        assert(n * (k - 2) == n * (k - 1) - n) by {
            lemma_mul_is_distributive_sub(n as int, k - 1 as int, 1);
            lemma_mul_basics(n as int);
        }
        lemma_unique_index(s.push(gnext), d, s.len() as int);
    }
}

/// Cutting a well-formed map short never raises the total.
pub proof fn lemma_dup_take_le(b: Seq<Group>, m: int)
    requires
        0 <= m <= b.len(),
        forall|i: int| m <= i < b.len() ==> b[i].count >= 1,
    ensures
        dup_sum(b.take(m)) <= dup_sum(b),
    decreases b.len() - m,
{
    if m == b.len() {
        assert(b.take(m) =~= b);
    } else {
        let t = b.drop_last();
        assert(b.take(m) =~= t.take(m));
        lemma_dup_take_le(t, m);
        assert(b.last().size * (b.last().count - 1) >= 0) by {
            lemma_mul_nonnegative(b.last().size as int, b.last().count - 1);
        }
    }
}

proof fn lemma_dup_pointwise_le(a: Seq<Group>, b: Seq<Group>)
    requires
        a.len() == b.len(),
        forall|i: int| 0 <= i < a.len() ==> b[i].size == a[i].size && b[i].count >= a[i].count,
    ensures
        dup_sum(a) <= dup_sum(b),
    decreases a.len(),
{
    if a.len() > 0 {
        lemma_dup_pointwise_le(a.drop_last(), b.drop_last());
        assert(a.last().size * (a.last().count - 1) <= b.last().size * (b.last().count - 1)) by {
            lemma_mul_inequality(a.last().count - 1, b.last().count - 1, a.last().size as int);
        }
    }
}

/// Extending a well-formed category map never decreases its duplicated-byte
/// total: the estimate is monotone under further recordings.
pub proof fn lemma_extends_dup_monotone(a: Seq<Group>, b: Seq<Group>)
    requires
        extends(a, b),
        gm_wf(b),
    ensures
        dup_sum(a) <= dup_sum(b),
{
    let p = b.take(a.len() as int);
    lemma_dup_pointwise_le(a, p);
    lemma_dup_take_le(b, a.len() as int);
}

} // verus!
