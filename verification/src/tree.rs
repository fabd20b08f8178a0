//! The transposition cache facade: a map from the 32-bit digest of the
//! monotonic hash to one inner table per equivalence class, under one
//! global byte budget.
//!
//! The digest is the low 32 bits of the 128-bit monotonic hash; two classes
//! may collide on it, which only merges their tables — the Zobrist
//! verification inside the table still tells their positions apart. Whole
//! classes that the game can no longer reach have digests above the root's
//! and are pruned by one comparison.

use vstd::prelude::*;
use vstd::arithmetic::mul::lemma_mul_nonnegative;
use crate::board::Board;
use crate::bucket::{Bucket, Entry};
use crate::budget::Budget;
use crate::data::{IHashData, SearchData};
use crate::defs::MEGABYTE;
use crate::monotonic_hash::spec_monotonic_hash;
use crate::table::{TT, bucket_bytes};

verus! {

/// One equivalence class: its digest and its table.
pub type Class = (u32, TT<SearchData>);

/// No digest appears twice.
pub open spec fn keys_unique(m: Seq<Class>) -> bool {
    forall|i: int, j: int| 0 <= i < j < m.len() ==> (#[trigger] m[i]).0 != (#[trigger] m[j]).0
}

/// After a resize, a class's table is either exactly what it was or a
/// strictly smaller, freshly emptied one under the same digest.
pub open spec fn kept_or_discarded_smaller(before: Class, after: Class) -> bool {
    after == before || (after.0 == before.0 && after.1.num_buckets() < before.1.num_buckets()
        && after.1.used_entries == 0 && (forall|vv: u64, d: SearchData| !after.1.has_entry(vv, d)))
}

/// The digest has a class and its table is the wide variant.
pub open spec fn wide_class(m: Seq<Class>, d: u32) -> bool {
    at_key(m, d) matches Some(t) && t.is_wide()
}

/// The table stored under a digest: first match.
pub open spec fn at_key(m: Seq<Class>, d: u32) -> Option<TT<SearchData>>
    decreases m.len(),
{
    if m.len() == 0 {
        None
    } else if m[0].0 == d {
        Some(m[0].1)
    } else {
        at_key(m.drop_first(), d)
    }
}

/// Bytes of bucket storage of the first `j` classes.
pub open spec fn total_cost(m: Seq<Class>, j: int) -> int
    decreases j,
{
    if j <= 0 {
        0
    } else {
        total_cost(m, j - 1) + m[j - 1].1.cost()
    }
}

/// Buckets of the first `j` classes.
pub open spec fn total_buckets(m: Seq<Class>, j: int) -> int
    decreases j,
{
    if j <= 0 {
        0
    } else {
        total_buckets(m, j - 1) + m[j - 1].1.num_buckets()
    }
}

pub proof fn lemma_at_key_none(m: Seq<Class>, d: u32)
    ensures
        (at_key(m, d) is None) == (forall|i: int| 0 <= i < m.len() ==> (#[trigger] m[i]).0 != d),
    decreases m.len(),
{
    if m.len() > 0 {
        lemma_at_key_none(m.drop_first(), d);
        assert forall|i: int| 1 <= i < m.len() implies m.drop_first()[i - 1] == m[i] by {}
        if m[0].0 != d && (at_key(m.drop_first(), d) is None) {
            assert forall|i: int| 0 <= i < m.len() implies (#[trigger] m[i]).0 != d by {
                if i > 0 {
                    assert(m.drop_first()[i - 1] == m[i]);
                }
            }
        }
    }
}

/// With unique keys, the entry at any index determines the lookup.
pub proof fn lemma_at_key_of_index(m: Seq<Class>, i: int)
    requires
        keys_unique(m),
        0 <= i < m.len(),
    ensures
        at_key(m, m[i].0) == Some(m[i].1),
    decreases m.len(),
{
    if i == 0 {
    } else {
        assert(m[0].0 != m[i].0);
        assert(m.drop_first()[i - 1] == m[i]);
        assert(keys_unique(m.drop_first())) by {
            assert forall|a: int, b: int|
                0 <= a < b < m.drop_first().len() implies (#[trigger] m.drop_first()[a]).0 != (
            #[trigger] m.drop_first()[b]).0 by {
                assert(m.drop_first()[a] == m[a + 1]);
                assert(m.drop_first()[b] == m[b + 1]);
            }
        }
        lemma_at_key_of_index(m.drop_first(), i - 1);
    }
}

/// A hit names some index holding the digest.
pub proof fn lemma_at_key_witness(m: Seq<Class>, d: u32, t: TT<SearchData>)
    requires
        at_key(m, d) == Some(t),
    ensures
        exists|i: int| 0 <= i < m.len() && m[i] == (d, t),
    decreases m.len(),
{
    if m.len() > 0 {
        if m[0].0 == d {
            assert(m[0] == (d, t));
        } else {
            lemma_at_key_witness(m.drop_first(), d, t);
            let i = choose|i: int| 0 <= i < m.drop_first().len() && m.drop_first()[i] == (d, t);
            assert(m[i + 1] == (d, t));
        }
    }
}

pub proof fn lemma_total_cost_agree(m1: Seq<Class>, m2: Seq<Class>, j: int)
    requires
        0 <= j <= m1.len(),
        j <= m2.len(),
        forall|k: int| 0 <= k < j ==> m1[k] == m2[k],
    ensures
        total_cost(m1, j) == total_cost(m2, j),
        total_buckets(m1, j) == total_buckets(m2, j),
    decreases j,
{
    if j > 0 {
        lemma_total_cost_agree(m1, m2, j - 1);
    }
}

pub proof fn lemma_total_cost_update(m: Seq<Class>, j: int, i: int, e: Class)
    requires
        0 <= i < j <= m.len(),
    ensures
        total_cost(m.update(i, e), j) == total_cost(m, j) - m[i].1.cost() + e.1.cost(),
        total_buckets(m.update(i, e), j) == total_buckets(m, j) - m[i].1.num_buckets()
            + e.1.num_buckets(),
    decreases j,
{
    if i == j - 1 {
        lemma_total_cost_agree(m, m.update(i, e), j - 1);
    } else {
        lemma_total_cost_update(m, j - 1, i, e);
    }
}

/// Costs are non-negative, so prefix sums are monotone.
pub proof fn lemma_total_cost_bounds(m: Seq<Class>, j: int)
    requires
        0 <= j <= m.len(),
        forall|i: int| 0 <= i < m.len() ==> (#[trigger] m[i]).1.num_buckets() >= 0,
    ensures
        total_cost(m, j) >= 0,
        total_buckets(m, j) >= 0,
        forall|i: int|
            0 <= i < j ==> (#[trigger] m[i]).1.cost() <= total_cost(m, j)
                && m[i].1.num_buckets() <= total_buckets(m, j),
    decreases j,
{
    if j > 0 {
        lemma_total_cost_bounds(m, j - 1);
        lemma_mul_nonnegative(m[j - 1].1.num_buckets(), vstd::layout::size_of::<
            Bucket<SearchData>,
        >() as int);
    }
}

/// Relies on `core::mem::size_of` as specified by vstd, for the concrete
/// search-payload bucket: an `Entry<SearchData>` is a `u64` verification and
/// six payload bytes, padded to sixteen by the verification's eight-byte
/// alignment, so a bucket of four entries is 64 bytes.
#[verifier::external_body]
pub(crate) fn search_bucket_bytes() -> (r: usize)
    ensures
        r as nat == vstd::layout::size_of::<Bucket<SearchData>>(),
        r <= 64,
{
    core::mem::size_of::<Bucket<SearchData>>()
}

/// The transposition cache: outer map, size cap and byte budget.
pub struct TTree {
    pub map: Vec<Class>,
    pub max_size: usize,
    pub room_to_grow: Budget,
}

impl TTree {
    /// The digest a board is filed under: the low 32 bits of its monotonic
    /// hash.
    pub open spec fn spec_digest(b: Board) -> u32 {
        spec_monotonic_hash(b) as u32
    }

    /// What probing the cache for a board returns.
    pub open spec fn tree_probe(&self, d: u32, z: u64) -> Option<SearchData> {
        match at_key(self.map@, d) {
            Some(t) => t.probe_spec(z),
            None => None,
        }
    }

    /// Well-formedness: digests are unique, every table is well-formed and
    /// non-empty, the cap fits the budget counter, and the budget counter
    /// holds exactly the cap minus the allocated bytes.
    pub open spec fn wf(&self) -> bool {
        &&& keys_unique(self.map@)
        &&& forall|i: int|
            0 <= i < self.map@.len() ==> (#[trigger] self.map@[i]).1.wf() && self.map@[i].1.num_buckets() >= 1
        &&& self.max_size <= isize::MAX
        &&& 0 <= total_cost(self.map@, self.map@.len() as int) <= isize::MAX
        &&& self.room_to_grow.room() == self.max_size - total_cost(
            self.map@,
            self.map@.len() as int,
        )
    }

    /// A fresh cache capped at the given megabytes.
    pub fn new(size_mb: usize) -> (r: TTree)
        requires
            size_mb * MEGABYTE <= isize::MAX as usize,
        ensures
            r.wf(),
            r.map@.len() == 0,
            r.max_size == size_mb * MEGABYTE,
            r.room_to_grow.room() == size_mb * MEGABYTE,
            // a megabyte-scale cache always admits its first class
            vstd::layout::size_of::<Bucket<SearchData>>() <= 64,
            size_mb >= 1 ==> vstd::layout::size_of::<Bucket<SearchData>>()
                <= r.room_to_grow.room(),
    {
        let bb = search_bucket_bytes();
        proof {
            assert(size_mb >= 1 ==> size_mb * MEGABYTE >= MEGABYTE) by (nonlinear_arith)
                requires
                    size_mb * MEGABYTE <= isize::MAX as usize,
            ;
        }
        let size_bytes = size_mb * MEGABYTE;
        TTree {
            map: Vec::new(),
            max_size: size_bytes,
            room_to_grow: Budget::new(size_bytes as isize),
        }
    }

    /// The index of a digest's class, if present.
    fn find_index(&self, digest: u32) -> (r: Option<usize>)
        ensures
            r matches Some(i) ==> i < self.map@.len() && self.map@[i as int].0 == digest,
            r is None ==> at_key(self.map@, digest) is None,
    {
        let mut i: usize = 0;
        while i < self.map.len()
            invariant
                i <= self.map@.len(),
                forall|k: int| 0 <= k < i ==> (#[trigger] self.map@[k]).0 != digest,
            decreases self.map@.len() - i,
        {
            if self.map[i].0 == digest {
                return Some(i);
            }
            i = i + 1;
        }
        proof {
            lemma_at_key_none(self.map@, digest);
        }
        None
    }

    /// Bytes of bucket storage across all classes.
    pub fn size_bytes(&self) -> (r: usize)
        requires
            forall|i: int| 0 <= i < self.map@.len() ==> (#[trigger] self.map@[i]).1.wf(),
            total_cost(self.map@, self.map@.len() as int) <= isize::MAX,
        ensures
            r as int == total_cost(self.map@, self.map@.len() as int),
    {
        let mut sum: usize = 0;
        let mut i: usize = 0;
        proof {
            lemma_total_cost_bounds(self.map@, self.map@.len() as int);
        }
        while i < self.map.len()
            invariant
                forall|i2: int| 0 <= i2 < self.map@.len() ==> (#[trigger] self.map@[i2]).1.wf(),
                i <= self.map@.len(),
                sum as int == total_cost(self.map@, i as int),
                total_cost(self.map@, self.map@.len() as int) <= isize::MAX,
            decreases self.map@.len() - i,
    {
            proof {
                lemma_total_cost_bounds(self.map@, self.map@.len() as int);
                lemma_total_cost_prefix_step(self.map@, i as int, self.map@.len() as int);
            }
            sum = sum + self.map[i].1.size_bytes();
            i = i + 1;
        }
        sum
    }

    /// Look a position up: its class by digest, the position by Zobrist.
    pub fn probe(&self, board: &Board) -> (r: Option<SearchData>)
        requires
            self.wf(),
        ensures
            r == self.tree_probe(Self::spec_digest(*board), board.zobrist_key),
    {
        let digest = #[verifier::truncate] (board.monotonic_hash() as u32);
        match self.find_index(digest) {
            Some(i) => {
                proof {
                    lemma_at_key_of_index(self.map@, i as int);
                }
                match self.map[i].1.probe(board.zobrist_key) {
                    Some(d) => Some(*d),
                    None => None,
                }
            },
            None => None,
        }
    }

    /// Memoize a search result for a board. A new class is opened with a
    /// one-bucket table if the budget allows; if it refuses, the payload is
    /// dropped silently. Within an existing class the inner table stores,
    /// grows within the budget, or overwrites its shallowest entry.
    pub fn insert(&mut self, board: &Board, value: SearchData)
        requires
            old(self).wf(),
        ensures
            final(self).wf(),
            final(self).max_size == old(self).max_size,
            old(self).room_to_grow.room() >= 0 ==> final(self).room_to_grow.room() >= 0,
            forall|d2: u32|
                d2 != Self::spec_digest(*board) ==> at_key(final(self).map@, d2) == at_key(
                    old(self).map@,
                    d2,
                ),
            ({
                let d = Self::spec_digest(*board);
                let z = board.zobrist_key;
                &&& (at_key(old(self).map@, d) matches Some(t) ==> (final(self).tree_probe(d, z)
                    matches Some(d2) && d2.spec_depth() >= value.spec_depth()))
                &&& (at_key(old(self).map@, d) matches Some(t) && t.probe_spec(z) is None && ((
                z as u32) as u64) != 0 ==> final(self).tree_probe(d, z) == Some(value))
                &&& (at_key(old(self).map@, d) is None && vstd::layout::size_of::<
                    Bucket<SearchData>,
                >() <= old(self).room_to_grow.room() ==> (final(self).tree_probe(d, z) == Some(
                    value,
                ) && (at_key(final(self).map@, d) matches Some(t) && t.is_wide()
                    && t.num_buckets() == 1 && t.used_entries as int == (if z != 0 {
                    1int
                } else {
                    0int
                }) && (forall|vv: u64, dd: SearchData| t.has_entry(vv, dd) ==> vv == z && dd == value))
                    && final(self).room_to_grow.room() == old(self).room_to_grow.room()
                    - vstd::layout::size_of::<Bucket<SearchData>>()))
                &&& (at_key(old(self).map@, d) is None && vstd::layout::size_of::<
                    Bucket<SearchData>,
                >() > old(self).room_to_grow.room() ==> *final(self) == *old(self))
                // within the class, other nonzero keys are undisturbed: a
                // later probe sees what it saw before, or misses
                &&& (forall|z2: u64|
                    (wide_class(old(self).map@, d) && wide_class(final(self).map@, d) && z2 != z
                        && z2 != 0) ==> (final(self).tree_probe(d, z2) == old(self).tree_probe(
                        d,
                        z2,
                    ) || final(self).tree_probe(d, z2) is None))
                // and the key's own cached payload is only ever deepened
                &&& (z != 0 ==> (wide_class(old(self).map@, d) ==> (wide_class(
                    final(self).map@,
                    d,
                ) ==> (old(self).tree_probe(d, z) matches Some(y0) ==> (final(self).tree_probe(
                    d,
                    z,
                ) matches Some(d2) && d2.spec_depth() >= y0.spec_depth())))))
            }),
    {
        let digest = #[verifier::truncate] (board.monotonic_hash() as u32);
        let zobrist_key = board.zobrist_key;
        let ghost m0 = self.map@;
        match self.find_index(digest) {
            Some(i) => {
                proof {
                    lemma_at_key_of_index(self.map@, i as int);
                    lemma_total_cost_bounds(self.map@, self.map@.len() as int);
                }
                self.map[i].1.insert(zobrist_key, value, &mut self.room_to_grow);
                proof {
                    let mi = self.map@;
                    assert(mi =~= m0.update(i as int, mi[i as int]));
                    lemma_total_cost_update(m0, m0.len() as int, i as int, mi[i as int]);
                    assert(keys_unique(mi)) by {
                        assert forall|a: int, b: int|
                            0 <= a < b < mi.len() implies (#[trigger] mi[a]).0 != (
                        #[trigger] mi[b]).0 by {
                            assert(mi[a].0 == m0[a].0);
                            assert(mi[b].0 == m0[b].0);
                        }
                    }
                    lemma_at_key_of_index(mi, i as int);
                    assert forall|d2: u32| d2 != digest implies at_key(mi, d2) == at_key(
                        m0,
                        d2,
                    ) by {
                        lemma_at_key_frame(m0, mi, i as int, d2);
                    }
                }
            },
            None => {
                let bb = bucket_bytes::<SearchData>();
                if !self.room_to_grow.reserve(bb) {
                    return;
                }
                let t = TT::<SearchData>::with_first_entry(zobrist_key, value);
                self.map.push((digest, t));
                proof {
                    let mi = self.map@;
                    assert(mi == m0.push((digest, t)));
                    lemma_total_cost_agree(m0, mi, m0.len() as int);
                    assert(total_cost(mi, mi.len() as int) == total_cost(m0, m0.len() as int)
                        + t.cost());
                    lemma_at_key_none(m0, digest);
                    assert(keys_unique(mi)) by {
                        assert forall|a: int, b: int|
                            0 <= a < b < mi.len() implies (#[trigger] mi[a]).0 != (
                        #[trigger] mi[b]).0 by {
                            if b == mi.len() - 1 {
                                assert(mi[a].0 == m0[a].0);
                            } else {
                                assert(mi[a].0 == m0[a].0);
                                assert(mi[b].0 == m0[b].0);
                            }
                        }
                    }
                    lemma_at_key_of_index(mi, mi.len() - 1);
                    assert forall|d2: u32| d2 != digest implies at_key(mi, d2) == at_key(
                        m0,
                        d2,
                    ) by {
                        lemma_at_key_push_frame(m0, (digest, t), d2);
                    }
                }
            },
        }
    }

    /// Empty the cache and give the whole cap back to the budget.
    pub fn clear(&mut self)
        requires
            old(self).wf(),
        ensures
            final(self).wf(),
            final(self).map@.len() == 0,
            final(self).max_size == old(self).max_size,
            final(self).room_to_grow.room() == final(self).max_size,
            forall|d: u32, z: u64| final(self).tree_probe(d, z) is None,
    {
        self.map = Vec::new();
        let cap = self.max_size;
        self.room_to_grow.set(cap as isize);
    }
}

impl TTree {
    /// Drop every class whose digest exceeds the new root's, then recompute
    /// the budget from the bytes still allocated. Classes at or below the
    /// threshold are kept untouched, so their cached results stay probeable.
    #[verifier::rlimit(80)]
    pub fn remove_unreachable(&mut self, new_monotonic_hash: u32)
        requires
            old(self).wf(),
        ensures
            final(self).wf(),
            final(self).max_size == old(self).max_size,
            forall|d: u32|
                d <= new_monotonic_hash ==> at_key(final(self).map@, d) == at_key(
                    old(self).map@,
                    d,
                ),
            forall|d: u32| d > new_monotonic_hash ==> at_key(final(self).map@, d) is None,
            final(self).room_to_grow.room() == final(self).max_size - total_cost(
                final(self).map@,
                final(self).map@.len() as int,
            ),
    {
        let t = new_monotonic_hash;
        let ghost m0 = self.map@;
        proof {
            lemma_total_cost_bounds(m0, m0.len() as int);
        }
        let mut kept: Vec<Class> = Vec::new();
        while self.map.len() > 0
            invariant
                self.max_size == old(self).max_size,
                self.max_size <= isize::MAX,
                self.room_to_grow == old(self).room_to_grow,
                forall|j: int| 0 <= j < self.map@.len() ==> self.map@[j] == m0[j],
                self.map@.len() <= m0.len(),
                forall|i: int| 0 <= i < m0.len() ==> (#[trigger] m0[i]).1.wf() && m0[i].1.num_buckets() >= 1,
                keys_unique(m0),
                keys_unique(kept@),
                forall|k2: int|
                    0 <= k2 < kept@.len() ==> (#[trigger] kept@[k2]).0 <= t && exists|i: int|
                        self.map@.len() <= i < m0.len() && m0[i] == kept@[k2],
                forall|i: int|
                    self.map@.len() <= i < m0.len() && (#[trigger] m0[i]).0 <= t ==> exists|k2: int|
                        0 <= k2 < kept@.len() && kept@[k2] == m0[i],
                total_cost(kept@, kept@.len() as int) + total_cost(self.map@, self.map@.len() as int)
                    <= total_cost(m0, m0.len() as int),
            decreases self.map@.len(),
        {
            let ghost pre_map = self.map@;
            let ghost pre_kept = kept@;
            match self.map.pop() {
                Some(e) => {
                    proof {
                        assert(e == m0[pre_map.len() - 1]);
                        assert(self.map@ =~= pre_map.drop_last());
                        lemma_total_cost_agree(pre_map, self.map@, self.map@.len() as int);
                    }
                    if e.0 <= t {
                        kept.push(e);
                        proof {
                            lemma_total_cost_agree(pre_kept, kept@, pre_kept.len() as int);
                            // the new class comes from an earlier index than
                            // every class already kept, so its digest is new
                            assert(keys_unique(kept@)) by {
                                assert forall|a: int, b: int|
                                    0 <= a < b < kept@.len() implies (#[trigger] kept@[a]).0 != (
                                #[trigger] kept@[b]).0 by {
                                    if b == kept@.len() - 1 {
                                        assert(kept@[a] == pre_kept[a]);
                                        let i = choose|i: int|
                                            pre_map.len() <= i < m0.len() && m0[i] == pre_kept[a];
                                        assert(m0[i].0 != m0[pre_map.len() - 1].0);
                                    } else {
                                        assert(kept@[a] == pre_kept[a]);
                                        assert(kept@[b] == pre_kept[b]);
                                    }
                                }
                            }
                            assert forall|i: int|
                                self.map@.len() <= i < m0.len() && (#[trigger] m0[i]).0 <= t
                                    implies exists|k2: int|
                                    0 <= k2 < kept@.len() && kept@[k2] == m0[i] by {
                                if i == self.map@.len() {
                                    assert(kept@[kept@.len() - 1] == m0[i]);
                                } else {
                                    let k2 = choose|k2: int|
                                        0 <= k2 < pre_kept.len() && pre_kept[k2] == m0[i];
                                    assert(kept@[k2] == m0[i]);
                                }
                            }
                        }
                    } else {
                        proof {
                            lemma_mul_nonnegative(e.1.num_buckets(), vstd::layout::size_of::<
                                Bucket<SearchData>,
                            >() as int);
                        }
                    }
                },
                None => {},
            }
        }
        let ghost gkept = kept@;
        proof {
            assert(self.map@.len() == 0);
            assert(total_cost(self.map@, 0) == 0);
            assert(total_cost(gkept, gkept.len() as int) <= total_cost(m0, m0.len() as int));
        }
        self.map = kept;
        proof {
            assert(self.map@ == gkept);
            let mi = self.map@;
            assert forall|i: int| 0 <= i < mi.len() implies (#[trigger] mi[i]).1.wf()
                && mi[i].1.num_buckets() >= 1 by {
                let i0 = choose|k: int| 0 <= k < m0.len() && m0[k] == mi[i];
            }
            lemma_total_cost_bounds(mi, mi.len() as int);
            assert(total_cost(mi, mi.len() as int) <= isize::MAX);
        }
        let sz = self.size_bytes();
        let cap = self.max_size;
        self.room_to_grow.set((cap as isize) - (sz as isize));
        proof {
            let mi = self.map@;
            assert forall|d: u32| d <= t implies at_key(mi, d) == at_key(m0, d) by {
                lemma_at_key_none(mi, d);
                lemma_at_key_none(m0, d);
                if at_key(m0, d) is Some {
                    let tt = at_key(m0, d).unwrap();
                    lemma_at_key_witness(m0, d, tt);
                    let i = choose|i: int| 0 <= i < m0.len() && m0[i] == (d, tt);
                    let k2 = choose|k2: int| 0 <= k2 < mi.len() && mi[k2] == m0[i];
                    lemma_at_key_of_index(mi, k2);
                } else {
                    if at_key(mi, d) is Some {
                        let tt = at_key(mi, d).unwrap();
                        lemma_at_key_witness(mi, d, tt);
                        let k2 = choose|k2: int| 0 <= k2 < mi.len() && mi[k2] == (d, tt);
                        let i = choose|i: int| 0 <= i < m0.len() && m0[i] == mi[k2];
                    }
                }
            }
            assert forall|d: u32| d > t implies at_key(mi, d) is None by {
                lemma_at_key_none(mi, d);
            }
        }
    }

    /// Change the size cap. The budget absorbs the difference; while it is
    /// negative, the largest tables are halved (dropping their contents)
    /// until the cache fits or only one-bucket tables are left. No class is
    /// ever dropped: a table is either left exactly as it was or replaced by
    /// a smaller empty one, and a cap that still covers the allocated bytes
    /// changes nothing at all.
    pub fn resize(&mut self, megabytes: usize)
        requires
            old(self).wf(),
            megabytes * MEGABYTE <= isize::MAX as usize,
        ensures
            final(self).wf(),
            final(self).max_size == megabytes * MEGABYTE,
            final(self).room_to_grow.room() >= 0 || (forall|i: int|
                0 <= i < final(self).map@.len() ==> (#[trigger] final(self).map@[i]).1.num_buckets()
                    == 1),
            final(self).map@.len() == old(self).map@.len(),
            forall|k: int|
                0 <= k < old(self).map@.len() ==> kept_or_discarded_smaller(
                    old(self).map@[k],
                    #[trigger] final(self).map@[k],
                ),
            megabytes * MEGABYTE >= total_cost(old(self).map@, old(self).map@.len() as int)
                ==> final(self).map@ == old(self).map@,
    {
        let bb = bucket_bytes::<SearchData>();
        let new_max_size = megabytes * MEGABYTE;
        let old_max_size = self.max_size;
        self.max_size = new_max_size;
        let size_change: isize = (new_max_size as isize) - (old_max_size as isize);
        proof {
            lemma_total_cost_bounds(self.map@, self.map@.len() as int);
        }
        self.room_to_grow.add_signed(size_change);
        while self.room_to_grow.room_left() < 0
            invariant
                self.wf(),
                self.max_size == new_max_size,
                new_max_size == megabytes * MEGABYTE,
                bb as int == vstd::layout::size_of::<Bucket<SearchData>>() as int,
                32 <= bb <= isize::MAX as usize,
                self.map@.len() == old(self).map@.len(),
                forall|k: int|
                    0 <= k < old(self).map@.len() ==> kept_or_discarded_smaller(
                        old(self).map@[k],
                        #[trigger] self.map@[k],
                    ),
                new_max_size >= total_cost(old(self).map@, old(self).map@.len() as int)
                    ==> self.map@ == old(self).map@,
            decreases total_buckets(self.map@, self.map@.len() as int),
        {
            proof {
                lemma_total_cost_bounds(self.map@, self.map@.len() as int);
                if self.map@.len() == 0 {
                    assert(total_cost(self.map@, 0) == 0);
                }
            }
            // a negative budget means bytes are allocated, so the map is
            // non-empty and has a largest table
            let mut max_buckets: usize = 0;
            let mut i: usize = 0;
            let ghost mpre = self.map@;
            while i < self.map.len()
                invariant
                    self.wf(),
                    self.map@ == mpre,
                    i <= mpre.len(),
                    forall|k: int|
                        0 <= k < i ==> (#[trigger] mpre[k]).1.num_buckets() <= max_buckets,
                    i > 0 ==> exists|k: int|
                        0 <= k < i && (#[trigger] mpre[k]).1.num_buckets() == max_buckets,
                    i == 0 ==> max_buckets == 0,
                decreases mpre.len() - i,
            {
                let c = self.map[i].1.bucket_count();
                if c > max_buckets {
                    max_buckets = c;
                }
                i = i + 1;
            }
            let new_max_buckets = max_buckets / 2;
            if new_max_buckets < 1 {
                // every table is already at the one-bucket minimum: the
                // cache is degraded but stable
                proof {
                    assert forall|k: int| 0 <= k < self.map@.len() implies (
                    #[trigger] self.map@[k]).1.num_buckets() == 1 by {
                        assert(mpre[k].1.num_buckets() <= max_buckets);
                        assert(self.map@[k].1.num_buckets() >= 1);
                    }
                }
                return;
            }
            proof {
                lemma_total_cost_bounds(self.map@, self.map@.len() as int);
            }
            // shrink every table above the new bound; at least the largest
            // one shrinks strictly, so the total bucket count decreases
            let ghost m1 = self.map@;
            let ghost tb1 = total_buckets(m1, m1.len() as int);
            proof {
                assert(m1 == mpre);
            }
            let mut j: usize = 0;
            while j < self.map.len()
                invariant
                    self.wf(),
                    self.max_size == new_max_size,
                    self.map@.len() == m1.len(),
                    self.map@.len() == old(self).map@.len(),
                    forall|k: int|
                        0 <= k < old(self).map@.len() ==> kept_or_discarded_smaller(
                            old(self).map@[k],
                            #[trigger] self.map@[k],
                        ),
                    1 <= new_max_buckets,
                    bb as int == vstd::layout::size_of::<Bucket<SearchData>>() as int,
                    32 <= bb <= isize::MAX as usize,
                    forall|k: int|
                        0 <= k < m1.len() ==> (#[trigger] m1[k]).1.num_buckets() <= (max_buckets as int),
                    exists|k: int|
                        0 <= k < m1.len() && (#[trigger] m1[k]).1.num_buckets() == (max_buckets as int),
                    max_buckets / 2 == new_max_buckets,
                    forall|k: int| 0 <= k < m1.len() ==> (#[trigger] self.map@[k]).0 == m1[k].0,
                    forall|k: int|
                        0 <= k < m1.len() ==> (#[trigger] self.map@[k]).1.num_buckets()
                            <= m1[k].1.num_buckets(),
                    forall|k: int|
                        0 <= k < j ==> (#[trigger] self.map@[k]).1.num_buckets()
                            <= new_max_buckets,
                    total_buckets(self.map@, m1.len() as int) <= tb1,
                    j <= m1.len(),
                decreases m1.len() - j,
            {
                let ghost mp = self.map@;
                let c = self.map[j].1.bucket_count();
                if c > new_max_buckets {
                    proof {
                        lemma_total_cost_bounds(mp, mp.len() as int);
                        let szb = vstd::layout::size_of::<Bucket<SearchData>>() as int;
                        assert(new_max_buckets as int * szb < mp[j as int].1.cost())
                            by (nonlinear_arith)
                            requires
                                mp[j as int].1.cost() == mp[j as int].1.num_buckets() * szb,
                                new_max_buckets < mp[j as int].1.num_buckets(),
                                szb >= 32,
                        ;
                    }
                    self.map[j].1.resize_to_bucket_count(new_max_buckets, &mut self.room_to_grow);
                    proof {
                        let mi = self.map@;
                        assert(mi =~= mp.update(j as int, mi[j as int]));
                        lemma_total_cost_update(mp, mp.len() as int, j as int, mi[j as int]);
                        assert(keys_unique(mi)) by {
                            assert forall|a: int, b: int|
                                0 <= a < b < mi.len() implies (#[trigger] mi[a]).0 != (
                            #[trigger] mi[b]).0 by {
                                assert(mi[a].0 == mp[a].0);
                                assert(mi[b].0 == mp[b].0);
                            }
                        }
                        lemma_total_cost_agree(mp, mi, j as int);
                    }
                }
                j = j + 1;
            }
            proof {
                // the largest table had more than new_max_buckets and now has
                // at most new_max_buckets, so the bucket total went down
                let mi = self.map@;
                let k = choose|k: int|
                    0 <= k < m1.len() && (#[trigger] m1[k]).1.num_buckets() == (max_buckets as int);
                assert(mi[k].1.num_buckets() <= (new_max_buckets as int));
                assert((new_max_buckets as int) < (max_buckets as int));
                lemma_total_buckets_strict(m1, mi, m1.len() as int, k);
                lemma_total_cost_bounds(mi, mi.len() as int);
            }
        }
    }
}

/// If one component strictly shrank and none grew, the bucket total shrank.
pub proof fn lemma_total_buckets_strict(m1: Seq<Class>, m2: Seq<Class>, j: int, k: int)
    requires
        0 <= k < j <= m1.len(),
        m1.len() == m2.len(),
        forall|i: int|
            0 <= i < j ==> (#[trigger] m2[i]).1.num_buckets() <= m1[i].1.num_buckets(),
        m2[k].1.num_buckets() < m1[k].1.num_buckets(),
    ensures
        total_buckets(m2, j) < total_buckets(m1, j),
    decreases j,
{
    if k == j - 1 {
        lemma_total_buckets_le(m1, m2, j - 1);
    } else {
        lemma_total_buckets_strict(m1, m2, j - 1, k);
    }
}

pub proof fn lemma_total_buckets_le(m1: Seq<Class>, m2: Seq<Class>, j: int)
    requires
        0 <= j <= m1.len(),
        m1.len() == m2.len(),
        forall|i: int|
            0 <= i < j ==> (#[trigger] m2[i]).1.num_buckets() <= m1[i].1.num_buckets(),
    ensures
        total_buckets(m2, j) <= total_buckets(m1, j),
    decreases j,
{
    if j > 0 {
        lemma_total_buckets_le(m1, m2, j - 1);
    }
}

/// Bytes the cache reports as used: four key bytes plus the live entries of
/// each class, priced at this crate's single entry representation (a 64-bit
/// verification and its payload).
pub open spec fn used_bytes(m: Seq<Class>, j: int) -> int
    decreases j,
{
    if j <= 0 {
        0
    } else {
        used_bytes(m, j - 1) + 4 + vstd::layout::size_of::<Entry<SearchData>>() * m[j
            - 1].1.used_entries
    }
}

impl TTree {
    /// Permille of the size cap taken by live entries, rounded to nearest,
    /// truncated to 16 bits as reported to the search driver.
    pub fn hash_full(&self) -> (r: u16)
        requires
            self.wf(),
            self.max_size > 0,
        ensures
            r == (((used_bytes(self.map@, self.map@.len() as int) * 1000 + 500)
                / self.max_size as int) as u16),
    {
        let bb = bucket_bytes::<SearchData>();
        let entry_bytes = bb / 4;
        proof {
            assert(entry_bytes as int == vstd::layout::size_of::<Entry<SearchData>>() as int);
            lemma_total_cost_bounds(self.map@, self.map@.len() as int);
        }
        let mut sum: u128 = 0;
        let mut i: usize = 0;
        while i < self.map.len()
            invariant
                self.wf(),
                i <= self.map@.len(),
                entry_bytes as int == vstd::layout::size_of::<Entry<SearchData>>() as int,
                4 * (entry_bytes as int) == vstd::layout::size_of::<Bucket<SearchData>>() as int,
                sum as int == used_bytes(self.map@, i as int),
                sum as int <= 4 * i + total_cost(self.map@, i as int),
                total_cost(self.map@, self.map@.len() as int) <= isize::MAX,
            decreases self.map@.len() - i,
        {
            proof {
                let tt = self.map@[i as int].1;
                assert(self.map@[i as int].1.wf());
                let szb = vstd::layout::size_of::<Bucket<SearchData>>() as int;
                let e = vstd::layout::size_of::<Entry<SearchData>>() as int;
                crate::table::lemma_table_live_bounds(tt.buckets(), tt.num_buckets());
                assert(0 <= tt.used_entries as int <= 4 * tt.num_buckets());
                assert(e * tt.used_entries as int <= tt.num_buckets() * szb) by (nonlinear_arith)
                    requires
                        szb == 4 * e,
                        0 <= e,
                        0 <= tt.used_entries as int <= 4 * tt.num_buckets(),
                ;
                lemma_total_cost_prefix_step(self.map@, i as int, self.map@.len() as int);
            }
            let used = self.map[i].1.used_entries;
            sum = sum + 4 + (entry_bytes as u128) * (used as u128);
            i = i + 1;
        }
        proof {
            assert(sum as int == used_bytes(self.map@, self.map@.len() as int));
        }
        let permille: u128 = (sum * 1000 + 500) / (self.max_size as u128);
        proof {
            assert(permille as int == (used_bytes(self.map@, self.map@.len() as int) * 1000 + 500)
                / self.max_size as int);
        }
        #[verifier::truncate] (permille as u16)
    }
}

/// Updating one index leaves every other digest's lookup unchanged.
pub proof fn lemma_at_key_frame(m0: Seq<Class>, m1: Seq<Class>, i: int, d: u32)
    requires
        m0.len() == m1.len(),
        0 <= i < m0.len(),
        forall|k: int| 0 <= k < m0.len() && k != i ==> m0[k] == m1[k],
        m0[i].0 == m1[i].0,
        m0[i].0 != d,
    ensures
        at_key(m0, d) == at_key(m1, d),
    decreases m0.len(),
{
    if m0.len() > 0 {
        if i == 0 {
            lemma_at_key_same(m0.drop_first(), m1.drop_first(), d);
        } else if m0[0].0 == d {
        } else {
            lemma_at_key_frame(m0.drop_first(), m1.drop_first(), i - 1, d);
        }
    }
}

/// Lookups agree on equal sequences (helper for frame reasoning).
pub proof fn lemma_at_key_same(m0: Seq<Class>, m1: Seq<Class>, d: u32)
    requires
        m0.len() == m1.len(),
        forall|k: int| 0 <= k < m0.len() ==> m0[k] == m1[k],
    ensures
        at_key(m0, d) == at_key(m1, d),
{
    assert(m0 =~= m1);
}

/// Appending a class with a different digest leaves a lookup unchanged.
pub proof fn lemma_at_key_push_frame(m0: Seq<Class>, e: Class, d: u32)
    requires
        e.0 != d,
    ensures
        at_key(m0.push(e), d) == at_key(m0, d),
    decreases m0.len(),
{
    let p = m0.push(e);
    if m0.len() == 0 {
        assert(p.len() == 1);
        assert(p[0] == e);
        assert(p.drop_first() =~= Seq::<Class>::empty());
        assert(at_key(p, d) == at_key(p.drop_first(), d));
        assert(at_key(p, d) is None);
    } else {
        assert(p[0] == m0[0]);
        if m0[0].0 == d {
            assert(at_key(p, d) == Some(p[0].1));
            assert(at_key(m0, d) == Some(m0[0].1));
        } else {
            assert(p.drop_first() =~= m0.drop_first().push(e));
            lemma_at_key_push_frame(m0.drop_first(), e, d);
            assert(at_key(p, d) == at_key(p.drop_first(), d));
            assert(at_key(m0, d) == at_key(m0.drop_first(), d));
        }
    }
}

/// A step of a prefix cost sum stays within the full sum.
pub proof fn lemma_total_cost_prefix_step(m: Seq<Class>, i: int, j: int)
    requires
        0 <= i < j <= m.len(),
        forall|k: int| 0 <= k < m.len() ==> (#[trigger] m[k]).1.num_buckets() >= 0,
    ensures
        total_cost(m, i) + m[i].1.cost() <= total_cost(m, j),
        total_cost(m, i) >= 0,
    decreases j,
{
    lemma_total_cost_bounds(m, i);
    lemma_mul_nonnegative(m[i].1.num_buckets(), vstd::layout::size_of::<
        Bucket<SearchData>,
    >() as int);
    if i == j - 1 {
    } else {
        lemma_total_cost_prefix_step(m, i, j - 1);
        lemma_mul_nonnegative(m[j - 1].1.num_buckets(), vstd::layout::size_of::<
            Bucket<SearchData>,
        >() as int);
    }
}

/// The budget bound: whenever the byte counter is non-negative — as it is
/// after `clear` and stays across any sequence of inserts — the bytes
/// allocated by all tables together never exceed the configured cap.
pub proof fn lemma_budget_bound(t: TTree)
    requires
        t.wf(),
        t.room_to_grow.room() >= 0,
    ensures
        total_cost(t.map@, t.map@.len() as int) <= t.max_size,
{
}

} // verus!
