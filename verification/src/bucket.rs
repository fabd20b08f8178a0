//! Four-entry buckets with depth-preferred replacement.
//!
//! A bucket stores entries as `(verification, payload)` pairs; a zero
//! verification marks an unused slot. A store always aims at the leftmost
//! slot of minimum payload depth, so shallow entries are evicted before
//! deep ones and unused slots (depth zero) are filled first.

use vstd::prelude::*;
use crate::data::IHashData;
use crate::defs::ENTRIES_PER_BUCKET;

verus! {

/// One slot of a bucket: a verification key and its payload.
///
/// In a wide table the verification is the full Zobrist key; in a narrow
/// table it is the key's low 32 bits, stored widened.
#[derive(Copy, Clone)]
pub struct Entry<D> {
    pub verification: u64,
    pub data: D,
}

impl<D: IHashData + Copy> Entry<D> {
    pub fn new() -> (r: Self)
        ensures
            r.verification == 0,
            r.data.spec_depth() == 0,
    {
        Self { verification: 0, data: D::new() }
    }
}

/// A verification occupies at most one slot: two slots agree on their
/// verification only when both are unused.
pub open spec fn bucket_unique<D: IHashData>(s: Seq<Entry<D>>) -> bool {
    forall|k: int, l: int|
        0 <= k < l < 4 && (#[trigger] s[k]).verification == (#[trigger] s[l]).verification
            ==> s[k].verification == 0
}

/// Number of live (non-zero verification) entries among the first `j` slots.
pub open spec fn live_count<D: IHashData>(s: Seq<Entry<D>>, j: int) -> int
    decreases j,
{
    if j <= 0 {
        0
    } else {
        live_count(s, j - 1) + if s[j - 1].verification != 0 {
            1int
        } else {
            0int
        }
    }
}

pub proof fn lemma_live_count_bounds<D: IHashData>(s: Seq<Entry<D>>, j: int)
    requires
        0 <= j <= s.len(),
    ensures
        0 <= live_count(s, j) <= j,
    decreases j,
{
    if j > 0 {
        lemma_live_count_bounds(s, j - 1);
    }
}

/// Replacing slot `i` shifts the live count by the liveness difference of
/// the old and new entry.
pub proof fn lemma_live_count_update<D: IHashData>(s: Seq<Entry<D>>, j: int, i: int, e: Entry<D>)
    requires
        0 <= i < j <= s.len(),
    ensures
        live_count(s.update(i, e), j) == live_count(s, j) - (if s[i].verification != 0 {
            1int
        } else {
            0int
        }) + (if e.verification != 0 {
            1int
        } else {
            0int
        }),
    decreases j,
{
    if i == j - 1 {
        assert(forall|k: int| 0 <= k < j - 1 ==> s.update(i, e)[k] == s[k]);
        lemma_live_count_same(s, s.update(i, e), j - 1);
    } else {
        lemma_live_count_update(s, j - 1, i, e);
    }
}

/// Two sequences that agree on their first `j` slots have the same live count
/// there.
pub proof fn lemma_live_count_same<D: IHashData>(s: Seq<Entry<D>>, t: Seq<Entry<D>>, j: int)
    requires
        0 <= j <= s.len(),
        j <= t.len(),
        forall|k: int| 0 <= k < j ==> s[k] == t[k],
    ensures
        live_count(s, j) == live_count(t, j),
    decreases j,
{
    if j > 0 {
        lemma_live_count_same(s, t, j - 1);
    }
}

/// Index of the leftmost minimum-depth entry among the first `j` slots,
/// mirroring the left-to-right scan of `store`.
pub open spec fn target_slot<D: IHashData>(s: Seq<Entry<D>>, j: int) -> int
    decreases j,
{
    if j <= 1 {
        0
    } else {
        let m = target_slot(s, j - 1);
        if s[j - 1].data.spec_depth() < s[m].data.spec_depth() {
            j - 1
        } else {
            m
        }
    }
}

pub proof fn lemma_target_slot_is_min<D: IHashData>(s: Seq<Entry<D>>, j: int)
    requires
        1 <= j <= s.len(),
    ensures
        0 <= target_slot(s, j) < j,
        forall|k: int|
            0 <= k < j ==> s[target_slot(s, j)].data.spec_depth() <= (#[trigger] s[k]).data.spec_depth(),
        forall|k: int|
            0 <= k < target_slot(s, j) ==> s[target_slot(s, j)].data.spec_depth()
                < (#[trigger] s[k]).data.spec_depth(),
    decreases j,
{
    if j > 1 {
        lemma_target_slot_is_min(s, j - 1);
    }
}

/// The payload of the first slot whose verification equals `v`, scanning
/// from slot `i` on.
pub open spec fn find_from<D: IHashData>(s: Seq<Entry<D>>, v: u64, i: int) -> Option<D>
    decreases s.len() - i,
{
    if i < 0 || i >= s.len() {
        None
    } else if s[i].verification == v {
        Some(s[i].data)
    } else {
        find_from(s, v, i + 1)
    }
}

/// What a lookup of `v` in a bucket with slots `s` returns.
pub open spec fn bucket_find<D: IHashData>(s: Seq<Entry<D>>, v: u64) -> Option<D> {
    find_from(s, v, 0)
}

/// The slot index of the first match for `v` at or after `i`, or the slot
/// count when there is none.
pub open spec fn match_from<D: IHashData>(s: Seq<Entry<D>>, v: u64, i: int) -> int
    decreases s.len() - i,
{
    if i < 0 || i >= s.len() {
        s.len() as int
    } else if s[i].verification == v {
        i
    } else {
        match_from(s, v, i + 1)
    }
}

/// The first match determines the lookup: slots before it carry other
/// verifications, and a hit returns exactly its payload.
pub proof fn lemma_match_from_properties<D: IHashData>(s: Seq<Entry<D>>, v: u64, i: int)
    requires
        0 <= i <= s.len(),
    ensures
        i <= match_from(s, v, i) <= s.len(),
        match_from(s, v, i) < s.len() ==> s[match_from(s, v, i)].verification == v && find_from(
            s,
            v,
            i,
        ) == Some(s[match_from(s, v, i)].data),
        match_from(s, v, i) == s.len() ==> find_from(s, v, i) is None,
        forall|k: int| i <= k < match_from(s, v, i) ==> (#[trigger] s[k]).verification != v,
    decreases s.len() - i,
{
    if i < s.len() && s[i].verification != v {
        lemma_match_from_properties(s, v, i + 1);
    }
}

/// Writing the first matching slot keeps it the first match, so the lookup
/// afterwards returns exactly the written payload.
pub proof fn lemma_find_from_update_at_match<D: IHashData>(
    s: Seq<Entry<D>>,
    v: u64,
    i: int,
    e: Entry<D>,
)
    requires
        0 <= i <= s.len(),
        match_from(s, v, i) < s.len(),
        e.verification == v,
    ensures
        find_from(s.update(match_from(s, v, i), e), v, i) == Some(e.data),
    decreases s.len() - i,
{
    if i < s.len() && s[i].verification != v {
        lemma_match_from_properties(s, v, i + 1);
        lemma_find_from_update_at_match(s, v, i + 1, e);
        assert(match_from(s, v, i) == match_from(s, v, i + 1));
        assert(match_from(s, v, i) >= i + 1);
        assert(s.update(match_from(s, v, i), e)[i] == s[i]);
    }
}

/// A fixed array of four entries; the unit of probing at one table index.
#[derive(Copy, Clone)]
pub struct Bucket<D> {
    pub slots: [Entry<D>; 4],
}

impl<D: IHashData + Copy> Bucket<D> {
    pub fn new() -> (r: Self)
        ensures
            forall|k: int|
                0 <= k < 4 ==> (#[trigger] r.slots@[k]).verification == 0
                    && r.slots@[k].data.spec_depth() == 0,
            live_count(r.slots@, 4) == 0,
    {
        let e = Entry::<D>::new();
        let r = Self { slots: [e, e, e, e] };
        proof {
            assert(r.slots@[0] == e);
            assert(r.slots@[1] == e);
            assert(r.slots@[2] == e);
            assert(r.slots@[3] == e);
            assert(live_count(r.slots@, 0) == 0);
            assert(live_count(r.slots@, 1) == 0);
            assert(live_count(r.slots@, 2) == 0);
            assert(live_count(r.slots@, 3) == 0);
            assert(live_count(r.slots@, 4) == 0);
        }
        r
    }

    /// Store `(verification, data)`.
    ///
    /// A slot already carrying the verification is updated in place — and
    /// only by a payload at least as deep, so a same-key store never adds a
    /// second slot for the key and its deepest payload survives. Otherwise the
    /// leftmost minimum-depth slot is the target: an unused one is always
    /// taken, a used one only when `overwrite` is set. `used_entries` is
    /// kept equal to the caller's count of live entries.
    pub fn store(
        &mut self,
        verification: u64,
        data: D,
        used_entries: &mut usize,
        overwrite: bool,
    ) -> (stored: bool)
        requires
            *old(used_entries) < usize::MAX,
            live_count(old(self).slots@, 4) <= *old(used_entries),
        ensures
            ({
                let s0 = old(self).slots@;
                let u = match_from(s0, verification, 0);
                let t = target_slot(s0, 4);
                &&& (u < 4 ==> {
                    &&& stored
                    &&& *final(used_entries) == *old(used_entries)
                    &&& (data.spec_depth() >= s0[u].data.spec_depth() ==> final(self).slots@
                        == s0.update(u, Entry { verification, data }))
                    &&& (data.spec_depth() < s0[u].data.spec_depth() ==> *final(self) == *old(
                        self,
                    ))
                })
                &&& (u == 4 ==> {
                    &&& stored == (s0[t].verification == 0 || overwrite)
                    &&& (stored ==> final(self).slots@ == s0.update(
                        t,
                        Entry { verification, data },
                    ))
                    &&& (!stored ==> *final(self) == *old(self) && *final(used_entries) == *old(
                        used_entries,
                    ))
                })
                &&& *final(used_entries) - *old(used_entries) == live_count(final(self).slots@, 4)
                    - live_count(s0, 4)
            }),
    {
        proof {
            lemma_match_from_properties(self.slots@, verification, 0);
        }
        let mut u: usize = 0;
        while u < ENTRIES_PER_BUCKET
            invariant
                0 <= u <= 4,
                *self == *old(self),
                match_from(old(self).slots@, verification, 0) == match_from(
                    old(self).slots@,
                    verification,
                    u as int,
                ),
            decreases 4 - u,
        {
            if self.slots[u].verification == verification {
                // the key is already here: keep the deeper payload
                proof {
                    assert(match_from(old(self).slots@, verification, u as int) == u as int);
                    lemma_match_from_properties(old(self).slots@, verification, 0);
                }
                if data.depth() >= self.slots[u].data.depth() {
                    let ghost s0 = self.slots@;
                    self.slots[u] = Entry { verification, data };
                    proof {
                        lemma_live_count_update(s0, 4, u as int, Entry { verification, data });
                    }
                }
                return true;
            }
            u = u + 1;
        }
        proof {
            assert(match_from(old(self).slots@, verification, 4) == 4);
        }

        let mut idx: usize = 0;
        let mut k: usize = 1;
        while k < ENTRIES_PER_BUCKET
            invariant
                1 <= k <= 4,
                idx < k,
                idx as int == target_slot(self.slots@, k as int),
            decreases 4 - k,
        {
            if self.slots[k].data.depth() < self.slots[idx].data.depth() {
                idx = k;
            }
            k = k + 1;
        }

        let ghost t = target_slot(self.slots@, 4);
        proof {
            lemma_target_slot_is_min(self.slots@, 4);
            lemma_live_count_bounds::<D>(self.slots@, 4);
        }

        let target_is_free = self.slots[idx].verification == 0;
        if !target_is_free && !overwrite {
            return false;
        }

        // Keep the caller's live-entry count exact.
        if target_is_free && verification != 0 {
            *used_entries = *used_entries + 1;
        } else if !target_is_free && verification == 0 {
            proof {
                lemma_live_at_least_one(self.slots@, idx as int);
            }
            *used_entries = *used_entries - 1;
        }

        self.slots[idx] = Entry { verification, data };
        proof {
            lemma_live_count_update(old(self).slots@, 4, t, Entry { verification, data });
        }
        true
    }

    /// Look `verification` up among the four slots; first match wins.
    pub fn find(&self, verification: u64) -> (r: Option<&D>)
        ensures
            r matches Some(d) ==> bucket_find(self.slots@, verification) == Some(*d),
            r is None ==> bucket_find(self.slots@, verification) is None,
    {
        let mut i: usize = 0;
        while i < ENTRIES_PER_BUCKET
            invariant
                0 <= i <= 4,
                bucket_find(self.slots@, verification) == find_from(
                    self.slots@,
                    verification,
                    i as int,
                ),
            decreases 4 - i,
        {
            if self.slots[i].verification == verification {
                return Some(&self.slots[i].data);
            }
            i = i + 1;
        }
        None
    }
}

/// A live slot contributes at least one to the live count.
pub proof fn lemma_live_at_least_one<D: IHashData>(s: Seq<Entry<D>>, i: int)
    requires
        0 <= i < 4 <= s.len(),
        s[i].verification != 0,
    ensures
        live_count(s, 4) >= 1,
{
    lemma_live_count_bounds(s, i);
    lemma_live_count_step_up(s, i, 4);
}

/// The live count is monotone in the prefix length.
pub proof fn lemma_live_count_step_up<D: IHashData>(s: Seq<Entry<D>>, i: int, j: int)
    requires
        0 <= i < j <= s.len(),
        s[i].verification != 0,
    ensures
        live_count(s, j) >= live_count(s, i) + 1,
    decreases j,
{
    if j == i + 1 {
    } else {
        lemma_live_count_step_up(s, i, j - 1);
    }
}


/// A lookup misses exactly when no slot carries the sought verification.
pub proof fn lemma_find_from_none_iff<D: IHashData>(s: Seq<Entry<D>>, v: u64, i: int)
    requires
        0 <= i <= s.len(),
    ensures
        (find_from(s, v, i) is None) == (forall|k: int|
            i <= k < s.len() ==> (#[trigger] s[k]).verification != v),
    decreases s.len() - i,
{
    if i < s.len() {
        lemma_find_from_none_iff(s, v, i + 1);
    }
}

pub proof fn lemma_find_none_iff<D: IHashData>(s: Seq<Entry<D>>, v: u64)
    ensures
        (bucket_find(s, v) is None) == (forall|k: int|
            0 <= k < s.len() ==> (#[trigger] s[k]).verification != v),
{
    lemma_find_from_none_iff(s, v, 0);
}

/// A hit returns the payload of some slot carrying the sought verification.
pub proof fn lemma_find_from_witness<D: IHashData>(s: Seq<Entry<D>>, v: u64, i: int, d: D)
    requires
        0 <= i <= s.len(),
        find_from(s, v, i) == Some(d),
    ensures
        exists|k: int| i <= k < s.len() && s[k] == (Entry { verification: v, data: d }),
    decreases s.len() - i,
{
    if i < s.len() {
        if s[i].verification == v {
            assert(s[i] == (Entry { verification: v, data: d }));
        } else {
            lemma_find_from_witness(s, v, i + 1, d);
        }
    }
}

pub proof fn lemma_find_witness<D: IHashData>(s: Seq<Entry<D>>, v: u64, d: D)
    requires
        bucket_find(s, v) == Some(d),
    ensures
        exists|k: int| 0 <= k < s.len() && s[k] == (Entry { verification: v, data: d }),
{
    lemma_find_from_witness(s, v, 0, d);
}

/// Writing the only slot that matches `v` makes the lookup return exactly it.
pub proof fn lemma_find_from_update_only_match<D: IHashData>(
    s: Seq<Entry<D>>,
    v: u64,
    i: int,
    t: int,
    e: Entry<D>,
)
    requires
        0 <= i <= s.len(),
        0 <= t < s.len(),
        e.verification == v,
        forall|k: int| 0 <= k < s.len() ==> (#[trigger] s[k]).verification != v,
    ensures
        t >= i ==> find_from(s.update(t, e), v, i) == Some(e.data),
        t < i ==> find_from(s.update(t, e), v, i) == find_from(s, v, i),
    decreases s.len() - i,
{
    if i < s.len() {
        lemma_find_from_update_only_match(s, v, i + 1, t, e);
    }
}

pub proof fn lemma_find_update_only_match<D: IHashData>(s: Seq<Entry<D>>, v: u64, t: int, e: Entry<D>)
    requires
        0 <= t < s.len(),
        e.verification == v,
        forall|k: int| 0 <= k < s.len() ==> (#[trigger] s[k]).verification != v,
    ensures
        bucket_find(s.update(t, e), v) == Some(e.data),
{
    lemma_find_from_update_only_match(s, v, 0, t, e);
}

/// A bucket whose slots are all live has live count four; so any bucket with
/// fewer live entries keeps a free slot.
pub proof fn lemma_live_count_all_live<D: IHashData>(s: Seq<Entry<D>>, j: int)
    requires
        0 <= j <= s.len(),
        forall|k: int| 0 <= k < j ==> (#[trigger] s[k]).verification != 0,
    ensures
        live_count(s, j) == j,
    decreases j,
{
    if j > 0 {
        lemma_live_count_all_live(s, j - 1);
    }
}

impl<D: IHashData + Copy> Bucket<D> {
    /// The leftmost unused slot, if the bucket is not full.
    pub fn first_free_slot(&self) -> (r: Option<usize>)
        ensures
            r matches Some(k) ==> k < 4 && self.slots@[k as int].verification == 0,
            r is None ==> forall|k: int|
                0 <= k < 4 ==> (#[trigger] self.slots@[k]).verification != 0,
    {
        let mut k: usize = 0;
        while k < ENTRIES_PER_BUCKET
            invariant
                0 <= k <= 4,
                forall|k2: int| 0 <= k2 < k ==> (#[trigger] self.slots@[k2]).verification != 0,
            decreases 4 - k,
        {
            if self.slots[k].verification == 0 {
                return Some(k);
            }
            k = k + 1;
        }
        None
    }
}

} // verus!
