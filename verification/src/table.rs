//! The per-class transposition table.
//!
//! A table is a sequence of four-entry buckets indexed by `zobrist mod
//! bucket_count`. The wide variant stores the full 64-bit Zobrist key as
//! verification and can grow and rehash; the narrow variant is chosen when
//! the bucket count alone covers a 32-bit index space, stores only the low
//! 32 key bits, and never grows.

use vstd::prelude::*;
use vstd::arithmetic::div_mod::{lemma_mod_mod, lemma_mod_division_less_than_divisor};
use crate::bucket::{
    Bucket, Entry, bucket_find, bucket_unique, live_count, match_from, target_slot,
    lemma_live_count_bounds,
    lemma_live_count_update, lemma_match_from_properties, lemma_find_from_update_at_match,
    lemma_target_slot_is_min, lemma_find_none_iff, lemma_find_witness,
    lemma_find_update_only_match, lemma_live_count_all_live, lemma_live_at_least_one,
};
use crate::budget::Budget;
use crate::data::IHashData;
use crate::defs::{BUCKETS_FOR_PARTIAL_HASH, EXPANSION_FACTOR, MEGABYTE};

verus! {

/// Bucket storage of a table: wide (rehashable) or narrow (fixed).
pub enum TTCore<D> {
    FullHash(Vec<Bucket<D>>),
    HalfHash(Vec<Bucket<D>>),
}

/// A transposition table for one equivalence class of positions.
pub struct TT<D> {
    pub tt: TTCore<D>,
    pub used_entries: usize,
}

/// The verification value stored for a key: the whole key in a wide table,
/// its low 32 bits in a narrow one.
pub open spec fn verif_for(z: u64, wide: bool) -> u64 {
    if wide {
        z
    } else {
        (z as u32) as u64
    }
}

/// Total live entries in the first `j` buckets.
pub open spec fn table_live<D: IHashData>(bs: Seq<Bucket<D>>, j: int) -> int
    decreases j,
{
    if j <= 0 {
        0
    } else {
        table_live(bs, j - 1) + live_count(bs[j - 1].slots@, 4)
    }
}

/// Some bucket holds the live entry `(v, d)` in one of its slots.
pub open spec fn entry_in<D: IHashData>(bs: Seq<Bucket<D>>, v: u64, d: D) -> bool {
    v != 0 && exists|i: int, j: int|
        0 <= i < bs.len() && 0 <= j < 4 && bs[i].slots@[j] == (Entry { verification: v, data: d })
}

/// Every live entry of the first `n` buckets sits in the bucket its
/// verification selects.
pub open spec fn home_ok<D: IHashData>(bs: Seq<Bucket<D>>) -> bool {
    forall|i: int, j: int|
        0 <= i < bs.len() && 0 <= j < 4 && (#[trigger] bs[i].slots@[j]).verification != 0
            ==> bs[i].slots@[j].verification as int % bs.len() as int == i
}

impl<D: IHashData + Copy> TT<D> {
    pub open spec fn buckets(&self) -> Seq<Bucket<D>> {
        match self.tt {
            TTCore::FullHash(v) => v@,
            TTCore::HalfHash(v) => v@,
        }
    }

    pub open spec fn is_wide(&self) -> bool {
        self.tt is FullHash
    }

    pub open spec fn num_buckets(&self) -> int {
        self.buckets().len() as int
    }

    /// Bytes of bucket storage this table accounts for in the budget.
    pub open spec fn cost(&self) -> int {
        self.num_buckets() * vstd::layout::size_of::<Bucket<D>>()
    }

    /// What probing the table for `z` returns.
    pub open spec fn probe_spec(&self, z: u64) -> Option<D> {
        if self.num_buckets() == 0 {
            None
        } else {
            bucket_find(
                self.buckets()[z as int % self.num_buckets()].slots@,
                verif_for(z, self.is_wide()),
            )
        }
    }

    /// Some bucket of this table holds the live entry `(v, d)`.
    pub open spec fn has_entry(&self, v: u64, d: D) -> bool {
        entry_in(self.buckets(), v, d)
    }

    /// Well-formedness: the use counter is exactly the number of live
    /// entries, wide entries sit in their home bucket, no bucket holds a
    /// verification twice, and the bucket storage fits the signed byte
    /// budget.
    pub open spec fn wf(&self) -> bool {
        &&& self.used_entries as int == table_live(self.buckets(), self.num_buckets())
        &&& (self.is_wide() ==> home_ok(self.buckets()))
        &&& (forall|i: int|
            0 <= i < self.num_buckets() ==> bucket_unique((#[trigger] self.buckets()[i]).slots@))
        &&& self.cost() <= isize::MAX as int
    }
}

/// Relies on `core::mem::size_of` as specified by vstd, plus two layout
/// facts Rust documents: an array of four entries is four times the entry
/// size, and no Rust value exceeds `isize::MAX` bytes. An `Entry` contains
/// a `u64`, so a bucket is at least 32 bytes.
#[verifier::external_body]
pub(crate) fn bucket_bytes<D: IHashData + Copy>() -> (r: usize)
    ensures
        r as nat == vstd::layout::size_of::<Bucket<D>>(),
        r as nat == 4 * vstd::layout::size_of::<Entry<D>>(),
        32 <= r,
        r <= isize::MAX as usize,
{
    core::mem::size_of::<Bucket<D>>()
}

/// All-empty bucket sequences have no live entries.
pub proof fn lemma_table_live_empty<D: IHashData>(bs: Seq<Bucket<D>>, j: int)
    requires
        0 <= j <= bs.len(),
        forall|i: int, k: int|
            0 <= i < bs.len() && 0 <= k < 4 ==> (#[trigger] bs[i].slots@[k]).verification == 0,
    ensures
        table_live(bs, j) == 0,
    decreases j,
{
    if j > 0 {
        lemma_table_live_empty(bs, j - 1);
        lemma_live_count_all_zero(bs[j - 1].slots@, 4);
    }
}

pub proof fn lemma_live_count_all_zero<D: IHashData>(s: Seq<Entry<D>>, j: int)
    requires
        0 <= j <= s.len(),
        forall|k: int| 0 <= k < j ==> (#[trigger] s[k]).verification == 0,
    ensures
        live_count(s, j) == 0,
    decreases j,
{
    if j > 0 {
        lemma_live_count_all_zero(s, j - 1);
    }
}

/// Total live entries are bounded by four per bucket.
pub proof fn lemma_table_live_bounds<D: IHashData>(bs: Seq<Bucket<D>>, j: int)
    requires
        0 <= j <= bs.len(),
    ensures
        0 <= table_live(bs, j) <= 4 * j,
    decreases j,
{
    if j > 0 {
        lemma_table_live_bounds(bs, j - 1);
        lemma_live_count_bounds(bs[j - 1].slots@, 4);
    }
}

/// Replacing one bucket shifts the total live count by that bucket's
/// difference.
pub proof fn lemma_table_live_update<D: IHashData>(
    bs: Seq<Bucket<D>>,
    j: int,
    i: int,
    b: Bucket<D>,
)
    requires
        0 <= i < j <= bs.len(),
    ensures
        table_live(bs.update(i, b), j) == table_live(bs, j) - live_count(bs[i].slots@, 4)
            + live_count(b.slots@, 4),
    decreases j,
{
    if i == j - 1 {
        lemma_table_live_agree(bs, bs.update(i, b), j - 1);
    } else {
        lemma_table_live_update(bs, j - 1, i, b);
    }
}

/// Bucket sequences that agree on a prefix have the same live total there.
pub proof fn lemma_table_live_agree<D: IHashData>(bs: Seq<Bucket<D>>, cs: Seq<Bucket<D>>, j: int)
    requires
        0 <= j <= bs.len(),
        j <= cs.len(),
        forall|k: int| 0 <= k < j ==> bs[k] == cs[k],
    ensures
        table_live(bs, j) == table_live(cs, j),
    decreases j,
{
    if j > 0 {
        lemma_table_live_agree(bs, cs, j - 1);
    }
}

/// One bucket's live count never exceeds the total over a prefix holding it.
pub proof fn lemma_table_live_component<D: IHashData>(bs: Seq<Bucket<D>>, j: int, i: int)
    requires
        0 <= i < j <= bs.len(),
    ensures
        live_count(bs[i].slots@, 4) <= table_live(bs, j),
        table_live(bs, j) <= table_live(bs, i) + live_count(bs[i].slots@, 4) + 4 * (j - i - 1),
    decreases j,
{
    lemma_live_count_bounds(bs[i].slots@, 4);
    if i == j - 1 {
        lemma_table_live_bounds(bs, j - 1);
    } else {
        lemma_table_live_component(bs, j - 1, i);
        lemma_live_count_bounds(bs[j - 1].slots@, 4);
    }
}

impl<D: IHashData + Copy> TT<D> {
    /// A vector of `n` empty buckets.
    fn empty_buckets(n: usize) -> (r: Vec<Bucket<D>>)
        ensures
            r@.len() == n,
            forall|i: int, k: int|
                0 <= i < n && 0 <= k < 4 ==> (#[trigger] r@[i].slots@[k]).verification == 0,
            table_live(r@, n as int) == 0,
    {
        let mut r: Vec<Bucket<D>> = Vec::new();
        let mut i: usize = 0;
        while i < n
            invariant
                r@.len() == i,
                i <= n,
                forall|i2: int, k: int|
                    0 <= i2 < i && 0 <= k < 4 ==> (#[trigger] r@[i2].slots@[k]).verification == 0,
            decreases n - i,
        {
            r.push(Bucket::new());
            i = i + 1;
        }
        proof {
            lemma_table_live_empty(r@, n as int);
        }
        r
    }

    /// Create a table with the given bucket count; the narrow variant is
    /// chosen once the count covers the 32-bit index space.
    fn new_with_buckets(buckets: usize) -> (r: TT<D>)
        requires
            buckets * vstd::layout::size_of::<Bucket<D>>() <= isize::MAX as int,
        ensures
            r.wf(),
            r.num_buckets() == buckets,
            r.is_wide() == ((buckets as u64) < BUCKETS_FOR_PARTIAL_HASH),
            r.used_entries == 0,
            forall|v: u64, d: D| !r.has_entry(v, d),
            forall|z: u64| verif_for(z, r.is_wide()) != 0 ==> r.probe_spec(z) is None,
    {
        let v = Self::empty_buckets(buckets);
        let r = if (buckets as u64) >= BUCKETS_FOR_PARTIAL_HASH {
            TT { tt: TTCore::HalfHash(v), used_entries: 0 }
        } else {
            TT { tt: TTCore::FullHash(v), used_entries: 0 }
        };
        proof {
            lemma_empty_table_facts(r);
        }
        r
    }

    /// Create a table sized to the requested megabytes.
    pub fn new(megabytes: usize) -> (r: TT<D>)
        requires
            megabytes * MEGABYTE <= isize::MAX as usize,
        ensures
            r.wf(),
            r.num_buckets() == (megabytes * MEGABYTE) as int / vstd::layout::size_of::<
                Bucket<D>,
            >() as int,
            r.used_entries == 0,
            r.is_wide() == (r.num_buckets() < BUCKETS_FOR_PARTIAL_HASH as int),
            forall|v: u64, d: D| !r.has_entry(v, d),
            forall|z: u64| verif_for(z, r.is_wide()) != 0 ==> r.probe_spec(z) is None,
    {
        let bb_exec = bucket_bytes::<D>();
        let total_buckets = Self::calculate_init_buckets(megabytes);
        proof {
            let bb = vstd::layout::size_of::<Bucket<D>>() as int;
            let m = (megabytes * MEGABYTE) as int;
            vstd::arithmetic::div_mod::lemma_fundamental_div_mod(m, bb);
            assert((m / bb) * bb <= m) by (nonlinear_arith)
                requires
                    bb >= 32,
                    m >= 0,
                    m == bb * (m / bb) + m % bb,
                    0 <= m % bb,
            ;
        }
        Self::new_with_buckets(total_buckets)
    }

    /// Bucket count that fits the requested megabytes.
    fn calculate_init_buckets(megabytes: usize) -> (r: usize)
        requires
            megabytes * MEGABYTE <= usize::MAX,
        ensures
            r as int == (megabytes * MEGABYTE) as int / vstd::layout::size_of::<Bucket<D>>() as int,
    {
        megabytes * MEGABYTE / bucket_bytes::<D>()
    }

    pub fn bucket_count(&self) -> (r: usize)
        ensures
            r as int == self.num_buckets(),
    {
        match &self.tt {
            TTCore::FullHash(v) => v.len(),
            TTCore::HalfHash(v) => v.len(),
        }
    }

    /// Bytes of bucket storage currently allocated.
    pub fn size_bytes(&self) -> (r: usize)
        requires
            self.wf(),
        ensures
            r as int == self.cost(),
    {
        self.bucket_count() * bucket_bytes::<D>()
    }

    /// Look the position up by its exact Zobrist key.
    pub fn probe(&self, zobrist_key: u64) -> (r: Option<&D>)
        ensures
            r matches Some(d) ==> self.probe_spec(zobrist_key) == Some(*d),
            r is None ==> self.probe_spec(zobrist_key) is None,
    {
        let len = self.bucket_count();
        if len > 0 {
            let index = (zobrist_key % (len as u64)) as usize;
            let verification = self.calculate_verification(zobrist_key);
            match &self.tt {
                TTCore::FullHash(v) => v[index].find(verification),
                TTCore::HalfHash(v) => v[index].find(verification),
            }
        } else {
            None
        }
    }

    /// The verification to store or match for a key in this table.
    fn calculate_verification(&self, zobrist_key: u64) -> (r: u64)
        ensures
            r == verif_for(zobrist_key, self.is_wide()),
    {
        match &self.tt {
            TTCore::FullHash(_) => zobrist_key,
            TTCore::HalfHash(_) => (#[verifier::truncate] (zobrist_key as u32)) as u64,
        }
    }

    /// Reset to a minimal one-bucket wide table.
    pub fn clear(&mut self)
        ensures
            final(self).wf(),
            final(self).num_buckets() == 1,
            final(self).is_wide(),
            final(self).used_entries == 0,
            forall|v: u64, d: D| !final(self).has_entry(v, d),
            forall|z: u64| z != 0 ==> final(self).probe_spec(z) is None,
    {
        let bb = bucket_bytes::<D>();
        let v = Self::empty_buckets(1);
        self.tt = TTCore::FullHash(v);
        self.used_entries = 0;
        proof {
            lemma_empty_table_facts(*self);
            assert(self.cost() == vstd::layout::size_of::<Bucket<D>>() as int) by {
                assert(self.num_buckets() == 1);
                assert(1int * vstd::layout::size_of::<Bucket<D>>() as int
                    == vstd::layout::size_of::<Bucket<D>>() as int);
            }
            assert(bb as nat == vstd::layout::size_of::<Bucket<D>>());
        }
    }

    /// Table usage in permille of its entry capacity.
    pub fn hash_full(&self) -> (r: u16)
        requires
            self.wf(),
        ensures
            r as int == if self.num_buckets() == 0 {
                0
            } else {
                self.used_entries as int * 1000 / (self.num_buckets() * 4)
            },
    {
        let len = self.bucket_count();
        if len > 0 {
            proof {
                lemma_table_live_bounds(self.buckets(), self.num_buckets());
                assert(self.used_entries as int * 1000 / (self.num_buckets() * 4) <= 1000)
                    by (nonlinear_arith)
                    requires
                        0 <= self.used_entries as int <= 4 * self.num_buckets(),
                        self.num_buckets() > 0,
                ;
            }
            let permille: u128 = (self.used_entries as u128) * 1000 / ((len as u128) * 4);
            permille as u16
        } else {
            0
        }
    }
}


/// Buckets that are empty past `from` contribute nothing to the live total.
pub proof fn lemma_table_live_empty_tail<D: IHashData>(bs: Seq<Bucket<D>>, from: int, j: int)
    requires
        0 <= from <= j <= bs.len(),
        forall|t: int, k: int|
            from <= t < j && 0 <= k < 4 ==> (#[trigger] bs[t].slots@[k]).verification == 0,
    ensures
        table_live(bs, j) == table_live(bs, from),
    decreases j,
{
    if j > from {
        lemma_table_live_empty_tail(bs, from, j - 1);
        lemma_live_count_all_zero(bs[j - 1].slots@, 4);
    }
}

impl<D: IHashData + Copy> TT<D> {
    /// Extend a wide table to a multiple of its bucket count and move every
    /// entry to the bucket its verification selects under the new modulus.
    ///
    /// Growing by an integer factor sends each entry either to its old
    /// bucket or to a fresh one past the old length, so no bucket ever
    /// receives entries from two sources and every move finds a free slot:
    /// no entry is lost.
    fn grow_rehash(&mut self, buckets: usize)
        requires
            old(self).wf(),
            old(self).is_wide(),
            0 < old(self).num_buckets() < buckets,
            buckets as int % old(self).num_buckets() == 0,
            buckets * vstd::layout::size_of::<Bucket<D>>() <= isize::MAX as int,
        ensures
            final(self).wf(),
            final(self).is_wide(),
            final(self).num_buckets() == buckets,
            final(self).used_entries == old(self).used_entries,
            forall|vv: u64, d: D| final(self).has_entry(vv, d) <==> old(self).has_entry(vv, d),
    {
        let ghost orig = old(self).buckets();
        let old_len = self.bucket_count();
        match &mut self.tt {
            TTCore::FullHash(v) => {
                // Phase one: append fresh empty buckets.
                let mut n = v.len();
                while n < buckets
                    invariant
                        old_len <= n <= buckets,
                        v@.len() == n,
                        forall|t: int| 0 <= t < old_len ==> v@[t] == orig[t],
                        orig.len() == old_len,
                        forall|t: int, k: int|
                            old_len <= t < n && 0 <= k < 4 ==> (#[trigger] v@[t].slots@[k]).verification == 0,
                    decreases buckets - n,
                {
                    v.push(Bucket::new());
                    n = n + 1;
                }

                let ghost ext = v@;
                proof {
                    assert forall|a: int| 0 <= a < buckets implies bucket_unique(
                        (#[trigger] ext[a]).slots@,
                    ) by {
                        if a < old_len {
                            assert(ext[a] == orig[a]);
                        } else {
                            assert forall|k: int, l: int|
                                0 <= k < l < 4 && (#[trigger] ext[a].slots@[k]).verification == (
                            #[trigger] ext[a].slots@[l]).verification implies ext[a].slots@[k].verification == 0 by {}
                        }
                    }
                    lemma_table_live_agree(ext, orig, old_len as int);
                    lemma_table_live_empty_tail(ext, old_len as int, buckets as int);
                    // An entry of the extension is an entry of the original.
                    assert forall|vv: u64, d: D| entry_in(ext, vv, d) implies entry_in(orig, vv, d) by {
                        let (a, b): (int, int) = choose|a: int, b: int|
                            0 <= a < ext.len() && 0 <= b < 4 && ext[a].slots@[b] == (Entry {
                                verification: vv,
                                data: d,
                            });
                        assert(a < old_len);
                        assert(orig[a].slots@[b] == (Entry { verification: vv, data: d }));
                    }
                    assert forall|vv: u64, d: D| entry_in(orig, vv, d) implies entry_in(ext, vv, d) by {
                        let (a, b): (int, int) = choose|a: int, b: int|
                            0 <= a < orig.len() && 0 <= b < 4 && orig[a].slots@[b] == (Entry {
                                verification: vv,
                                data: d,
                            });
                        assert(ext[a].slots@[b] == (Entry { verification: vv, data: d }));
                    }
                }

                // Phase two: move each entry to its new home bucket.
                let ghost m = buckets as int / old_len as int;
                proof {
                    vstd::arithmetic::div_mod::lemma_fundamental_div_mod(
                        buckets as int,
                        old_len as int,
                    );
                    assert(buckets as int == old_len as int * m);
                    assert(m >= 1) by (nonlinear_arith)
                        requires
                            buckets as int == old_len as int * m,
                            0 < old_len as int,
                            old_len < buckets,
                    ;
                    assert forall|t: int, k: int|
                        0 <= t < old_len && 0 <= k < 4
                            && (#[trigger] v@[t].slots@[k]).verification != 0
                            implies v@[t].slots@[k].verification as int % old_len as int
                                == t by {
                        assert(v@[t] == orig[t]);
                        assert(orig[t].slots@[k].verification != 0);
                        assert(orig[t].slots@[k].verification as int % orig.len() as int == t);
                    }
                    assert forall|t: int| old_len <= t < buckets implies live_count(
                        v@[t].slots@,
                        4,
                    ) == 0 by {
                        lemma_live_count_all_zero(v@[t].slots@, 4);
                    }
                }
                let mut i: usize = 0;
                while i < old_len
                    invariant
                        0 <= i <= old_len < buckets,
                        buckets as int == old_len as int * m,
                        v@.len() == buckets,
                        // every entry of the start state is still here, and none appeared
                        forall|vv: u64, d: D| entry_in(v@, vv, d) <==> entry_in(ext, vv, d),
                        // the live total is unchanged
                        table_live(v@, buckets as int) == table_live(ext, buckets as int),
                        // no bucket has come to hold a verification twice
                        forall|a: int| 0 <= a < buckets ==> bucket_unique((#[trigger] v@[a]).slots@),
                        // scanned buckets are at home under the new modulus
                        forall|t: int, k: int|
                            0 <= t < i && 0 <= k < 4 && (#[trigger] v@[t].slots@[k]).verification != 0
                                ==> v@[t].slots@[k].verification as int % buckets as int == t,
                        // fresh buckets hold only relocated, homed entries
                        forall|t: int, k: int|
                            old_len <= t < buckets && 0 <= k < 4
                                && (#[trigger] v@[t].slots@[k]).verification != 0
                                ==> v@[t].slots@[k].verification as int % buckets as int == t,
                        // unscanned old buckets still satisfy the old home rule
                        forall|t: int, k: int|
                            i <= t < old_len && 0 <= k < 4
                                && (#[trigger] v@[t].slots@[k]).verification != 0
                                ==> v@[t].slots@[k].verification as int % old_len as int == t,
                        // fresh buckets whose source is not yet scanned are empty
                        forall|t: int|
                            old_len <= t < buckets && #[trigger] (t % old_len as int) >= i
                                ==> live_count(v@[t].slots@, 4) == 0,
                    decreases old_len - i,
                {
                    proof {
                        // fresh buckets whose source is unscanned are empty
                        assert forall|t2: int, k2: int|
                            old_len <= t2 < buckets && t2 % old_len as int == i as int && 0 <= k2
                                < 4 implies (#[trigger] v@[t2].slots@[k2]).verification == 0 by {
                            if v@[t2].slots@[k2].verification != 0 {
                                lemma_live_at_least_one(v@[t2].slots@, k2);
                            }
                        }
                    }
                    let mut j: usize = 0;
                    while j < 4
                        invariant
                            0 <= i < old_len < buckets,
                            0 <= j <= 4,
                            buckets as int == old_len as int * m,
                            v@.len() == buckets,
                            forall|vv: u64, d: D| entry_in(v@, vv, d) <==> entry_in(ext, vv, d),
                            table_live(v@, buckets as int) == table_live(ext, buckets as int),
                            forall|a: int|
                                0 <= a < buckets ==> bucket_unique((#[trigger] v@[a]).slots@),
                            // entries already relocated never share a
                            // verification with a slot still to be scanned
                            forall|t2: int, k2: int, j2: int|
                                old_len <= t2 < buckets && t2 % old_len as int == i as int && 0
                                    <= k2 < 4 && j <= j2 < 4 && (#[trigger] v@[t2].slots@[k2]).verification == (
                                #[trigger] v@[i as int].slots@[j2]).verification
                                    ==> v@[t2].slots@[k2].verification == 0,
                            forall|t: int, k: int|
                                0 <= t < i && 0 <= k < 4
                                    && (#[trigger] v@[t].slots@[k]).verification != 0
                                    ==> v@[t].slots@[k].verification as int % buckets as int == t,
                            forall|k: int|
                                0 <= k < j && (#[trigger] v@[i as int].slots@[k]).verification != 0
                                    ==> v@[i as int].slots@[k].verification as int % buckets as int
                                        == i as int,
                            forall|t: int, k: int|
                                old_len <= t < buckets && 0 <= k < 4
                                    && (#[trigger] v@[t].slots@[k]).verification != 0
                                    ==> v@[t].slots@[k].verification as int % buckets as int == t,
                            forall|t: int, k: int|
                                i < t < old_len && 0 <= k < 4
                                    && (#[trigger] v@[t].slots@[k]).verification != 0
                                    ==> v@[t].slots@[k].verification as int % old_len as int == t,
                            forall|k: int|
                                j <= k < 4 && (#[trigger] v@[i as int].slots@[k]).verification != 0
                                    ==> v@[i as int].slots@[k].verification as int % old_len as int
                                        == i as int,
                            forall|t: int|
                                old_len <= t < buckets && #[trigger] (t % old_len as int) > i
                                    ==> live_count(v@[t].slots@, 4) == 0,
                            forall|t: int|
                                old_len <= t < buckets && #[trigger] (t % old_len as int) == i
                                    ==> live_count(v@[t].slots@, 4) <= j,
                        decreases 4 - j,
                    {
                        let e = v[i].slots[j];
                        if e.verification != 0 {
                            let new_index = (e.verification % (buckets as u64)) as usize;
                            proof {
                                lemma_mod_division_less_than_divisor(
                                    e.verification as int,
                                    buckets as int,
                                );
                            }
                            if new_index != i {
                                proof {
                                    assert(m >= 1) by (nonlinear_arith)
                                        requires
                                            buckets as int == old_len as int * m,
                                            0 < old_len as int,
                                            old_len < buckets,
                                    ;
                                    lemma_mod_mod(e.verification as int, old_len as int, m);
                                    assert(new_index as int % old_len as int == i as int);
                                    if new_index < old_len {
                                        lemma_mod_division_less_than_divisor(
                                            new_index as int,
                                            old_len as int,
                                        );
                                        vstd::arithmetic::div_mod::lemma_small_mod(
                                            new_index as nat,
                                            old_len as nat,
                                        );
                                    }
                                    assert(new_index >= old_len);
                                    lemma_live_count_bounds(v@[new_index as int].slots@, 4);
                                }
                                let tb0 = v[new_index];
                                let k_free = match tb0.first_free_slot() {
                                    Some(k) => k,
                                    None => {
                                        proof {
                                            lemma_live_count_all_live(
                                                v@[new_index as int].slots@,
                                                4,
                                            );
                                        }
                                        0
                                    },
                                };
                                let ghost v1 = v@;
                                let mut tb = tb0;
                                tb.slots[k_free] = e;
                                let mut sb = v[i];
                                sb.slots[j] = Entry::new();
                                v[new_index] = tb;
                                v[i] = sb;
                                proof {
                                    lemma_rehash_move_step(
                                        v1,
                                        v@,
                                        ext,
                                        i as int,
                                        j as int,
                                        new_index as int,
                                        k_free as int,
                                        e,
                                        sb.slots@[j as int],
                                        buckets as int,
                                    );
                                }
                            }
                        }
                        j = j + 1;
                    }
                    i = i + 1;
                    proof {
                        assert forall|t: int|
                            old_len <= t < buckets && #[trigger] (t % old_len as int) >= i as int
                                implies live_count(v@[t].slots@, 4) == 0 by {
                            assert(t % old_len as int > i as int - 1);
                        }
                    }
                }
                proof {
                    lemma_table_live_agree(orig, ext, old_len as int);
                }
            },
            TTCore::HalfHash(_) => {
                proof {
                    assert(false);
                }
            },
        }
    }
}

/// One rehash move: entry `e` leaves slot `(i, j)` for the free slot
/// `(t, k)`. The set of live entries and the live total are unchanged.
pub proof fn lemma_rehash_move_step<D: IHashData>(
    v1: Seq<Bucket<D>>,
    v2: Seq<Bucket<D>>,
    ext: Seq<Bucket<D>>,
    i: int,
    j: int,
    t: int,
    k: int,
    e: Entry<D>,
    zeroed: Entry<D>,
    buckets: int,
)
    requires
        v1.len() == buckets,
        v2.len() == buckets,
        0 <= i < buckets,
        0 <= t < buckets,
        t != i,
        0 <= j < 4,
        0 <= k < 4,
        e == v1[i].slots@[j],
        e.verification != 0,
        v1[t].slots@[k].verification == 0,
        zeroed.verification == 0,
        v2[t].slots@ == v1[t].slots@.update(k, e),
        v2[i].slots@ == v1[i].slots@.update(j, zeroed),
        forall|a: int| 0 <= a < buckets && a != i && a != t ==> v2[a] == v1[a],
        forall|vv: u64, d: D| entry_in(v1, vv, d) <==> entry_in(ext, vv, d),
    ensures
        forall|vv: u64, d: D| entry_in(v2, vv, d) <==> entry_in(ext, vv, d),
        table_live(v2, buckets) == table_live(v1, buckets) + (live_count(v2[t].slots@, 4)
            - live_count(v1[t].slots@, 4)) + (live_count(v2[i].slots@, 4) - live_count(
            v1[i].slots@,
            4,
        )),
        live_count(v2[t].slots@, 4) == live_count(v1[t].slots@, 4) + 1,
        live_count(v2[i].slots@, 4) == live_count(v1[i].slots@, 4) - 1,
{
    lemma_live_count_update(v1[t].slots@, 4, k, e);
    lemma_live_count_update(v1[i].slots@, 4, j, zeroed);

    let mid = v1.update(t, v2[t]);
    assert(v2 =~= mid.update(i, v2[i]));
    lemma_table_live_update(v1, buckets, t, v2[t]);
    lemma_table_live_update(mid, buckets, i, v2[i]);
    assert(mid[i] == v1[i]);

    assert forall|vv: u64, d: D| entry_in(v2, vv, d) implies entry_in(v1, vv, d) by {
        let (a, b): (int, int) = choose|a: int, b: int|
            0 <= a < v2.len() && 0 <= b < 4 && v2[a].slots@[b] == (Entry {
                verification: vv,
                data: d,
            });
        if a == t {
            if b == k {
                assert(v1[i].slots@[j] == (Entry { verification: vv, data: d }));
            } else {
                assert(v1[t].slots@[b] == (Entry { verification: vv, data: d }));
            }
        } else if a == i {
            if b == j {
                assert(vv == 0);
            } else {
                assert(v1[i].slots@[b] == (Entry { verification: vv, data: d }));
            }
        } else {
            assert(v1[a].slots@[b] == (Entry { verification: vv, data: d }));
        }
    }
    assert forall|vv: u64, d: D| entry_in(v1, vv, d) implies entry_in(v2, vv, d) by {
        let (a, b): (int, int) = choose|a: int, b: int|
            0 <= a < v1.len() && 0 <= b < 4 && v1[a].slots@[b] == (Entry {
                verification: vv,
                data: d,
            });
        if a == i && b == j {
            assert(v2[t].slots@[k] == (Entry { verification: vv, data: d }));
        } else if a == t && b == k {
            assert(vv == 0);
        } else if a == t {
            assert(v2[t].slots@[b] == (Entry { verification: vv, data: d }));
        } else if a == i {
            assert(v2[i].slots@[b] == (Entry { verification: vv, data: d }));
        } else {
            assert(v2[a].slots@[b] == (Entry { verification: vv, data: d }));
        }
    }
}

/// The bucket count reached the second from the first by doublings alone:
/// the only growth the expansion schedule allows.
pub open spec fn grew_by_doubling(a: int, b: int) -> bool
    decreases b,
{
    if b == a {
        true
    } else if b > a && b >= 2 && b % 2 == 0 {
        grew_by_doubling(a, b / 2)
    } else {
        false
    }
}

/// Doubling chains compose: what a doubled count reaches, the count before
/// the doubling reaches too.
pub proof fn lemma_grew_by_doubling_step(a: int, b: int)
    requires
        a >= 1,
        grew_by_doubling(2 * a, b),
    ensures
        grew_by_doubling(a, b),
    decreases b,
{
    lemma_one_doubling(a);
    if b == 2 * a {
    } else {
        lemma_grew_by_doubling_step(a, b / 2);
    }
}

/// One doubling is a doubling chain.
pub proof fn lemma_one_doubling(a: int)
    requires
        a >= 1,
    ensures
        grew_by_doubling(a, 2 * a),
{
    assert((2 * a) % 2 == 0) by (nonlinear_arith);
    assert((2 * a) / 2 == a) by (nonlinear_arith);
    assert(grew_by_doubling(a, a));
}

/// An accepted resize that grows a wide table in place, by a whole multiple
/// of its bucket count, within the wide index space: the one case that
/// rehashes instead of discarding.
pub open spec fn preserving_grow<D: IHashData + Copy>(t: TT<D>, buckets: int) -> bool {
    &&& t.is_wide()
    &&& 0 < t.num_buckets() < buckets
    &&& buckets % t.num_buckets() == 0
    &&& buckets < BUCKETS_FOR_PARTIAL_HASH as int
}

/// Writing one slot of one bucket adds at most the written entry.
pub proof fn lemma_store_update_entries<D: IHashData>(
    v1: Seq<Bucket<D>>,
    v2: Seq<Bucket<D>>,
    i: int,
    t: int,
    e: Entry<D>,
)
    requires
        v1.len() == v2.len(),
        0 <= i < v1.len(),
        0 <= t < 4,
        v2[i].slots@ == v1[i].slots@.update(t, e),
        forall|a: int| 0 <= a < v1.len() && a != i ==> v2[a] == v1[a],
    ensures
        forall|vv: u64, d: D|
            entry_in(v2, vv, d) ==> entry_in(v1, vv, d) || (vv == e.verification && d == e.data),
{
    assert forall|vv: u64, d: D|
        entry_in(v2, vv, d) && !(vv == e.verification && d == e.data) implies entry_in(
        v1,
        vv,
        d,
    ) by {
        let (a, b): (int, int) = choose|a: int, b: int|
            0 <= a < v2.len() && 0 <= b < 4 && v2[a].slots@[b] == (Entry {
                verification: vv,
                data: d,
            });
        if a == i && b == t {
            assert(false);
        } else if a == i {
            assert(v1[a].slots@[b] == (Entry { verification: vv, data: d }));
        } else {
            assert(v1[a].slots@[b] == (Entry { verification: vv, data: d }));
        }
    }
}

impl<D: IHashData + Copy> TT<D> {
    /// Resize to the exact bucket count, settling the byte difference with
    /// the budget. A growth that the budget refuses, or that would not fit
    /// the counter, is rejected and changes nothing. A whole-multiple growth
    /// of a wide table rehashes and keeps every entry; any other accepted
    /// resize installs a fresh empty table of the new size.
    pub fn resize_to_bucket_count(&mut self, buckets: usize, room_to_grow: &mut Budget) -> (ok:
        bool)
        requires
            old(self).wf(),
            buckets * vstd::layout::size_of::<Bucket<D>>() < old(self).cost() ==> old(room_to_grow).room() + old(self).cost() <= isize::MAX,
        ensures
            final(self).wf(),
            !ok ==> *final(self) == *old(self) && final(room_to_grow).room() == old(room_to_grow).room(),
            ok ==> final(self).num_buckets() == buckets,
            ok ==> final(room_to_grow).room() == old(room_to_grow).room() - (final(self).cost()
                - old(self).cost()),
            ok && final(self).cost() > old(self).cost() ==> final(room_to_grow).room() >= 0,
            ok && final(self).cost() <= old(self).cost() ==> final(room_to_grow).room() >= old(room_to_grow).room(),
            ok ==> final(self).is_wide() == ((buckets as u64) < BUCKETS_FOR_PARTIAL_HASH),
            buckets * vstd::layout::size_of::<Bucket<D>>() <= old(self).cost() ==> ok,
            buckets * vstd::layout::size_of::<Bucket<D>>() <= isize::MAX && buckets
                * vstd::layout::size_of::<Bucket<D>>() - old(self).cost() <= old(
                room_to_grow,
            ).room() ==> ok,
            ok && preserving_grow(*old(self), buckets as int) ==> final(self).used_entries == old(self).used_entries && (forall|vv: u64, d: D|
                final(self).has_entry(vv, d) <==> old(self).has_entry(vv, d)),
            ok && !preserving_grow(*old(self), buckets as int) ==> final(self).used_entries == 0
                && (forall|vv: u64, d: D| !final(self).has_entry(vv, d)) && (forall|z2: u64|
                verif_for(z2, final(self).is_wide()) != 0 ==> final(self).probe_spec(z2) is None),
    {
        let old_len = self.bucket_count();
        let bb = bucket_bytes::<D>();
        let old_bytes = old_len * bb;
        let new_bytes = match buckets.checked_mul(bb) {
            Some(nb) => nb,
            None => {
                return false;
            },
        };
        if new_bytes > isize::MAX as usize {
            return false;
        }
        if new_bytes > old_bytes {
            if !room_to_grow.reserve(new_bytes - old_bytes) {
                return false;
            }
        } else {
            room_to_grow.release(old_bytes - new_bytes);
        }
        if (buckets as u64) >= BUCKETS_FOR_PARTIAL_HASH {
            let v = Self::empty_buckets(buckets);
            self.tt = TTCore::HalfHash(v);
            self.used_entries = 0;
            proof {
                lemma_empty_table_facts(*self);
            }
            return true;
        }
        let wide = match &self.tt {
            TTCore::FullHash(_) => true,
            TTCore::HalfHash(_) => false,
        };
        if wide && old_len > 0 && buckets > old_len && buckets % old_len == 0 {
            self.grow_rehash(buckets);
            return true;
        }
        let v = Self::empty_buckets(buckets);
        self.tt = TTCore::FullHash(v);
        self.used_entries = 0;
        proof {
            lemma_empty_table_facts(*self);
        }
        true
    }
}

impl<D: IHashData + Copy> TT<D> {
    /// Usable bounds on the use counter that follow from well-formedness.
    proof fn lemma_used_bounds(&self, idx: int)
        requires
            self.wf(),
            0 <= idx < self.num_buckets(),
            32 <= vstd::layout::size_of::<Bucket<D>>(),
        ensures
            self.used_entries < usize::MAX,
            live_count(self.buckets()[idx].slots@, 4) <= self.used_entries as int,
    {
        lemma_table_live_bounds(self.buckets(), self.num_buckets());
        lemma_table_live_component(self.buckets(), self.num_buckets(), idx);
        lemma_table_live_bounds(self.buckets(), idx);
        assert(4 * self.num_buckets() <= isize::MAX as int) by (nonlinear_arith)
            requires
                self.num_buckets() * vstd::layout::size_of::<Bucket<D>>() <= isize::MAX as int,
                32 <= vstd::layout::size_of::<Bucket<D>>(),
                0 <= self.num_buckets(),
        ;
    }

    /// Store into the bucket the key selects, after the scan and proof
    /// bookkeeping shared by every insertion path.
    fn store_at_home(&mut self, zobrist_key: u64, data: D, overwrite: bool) -> (stored: bool)
        requires
            old(self).wf(),
            old(self).num_buckets() > 0,
        ensures
            final(self).wf(),
            final(self).is_wide() == old(self).is_wide(),
            final(self).num_buckets() == old(self).num_buckets(),
            final(self).cost() == old(self).cost(),
            stored ==> (final(self).probe_spec(zobrist_key) matches Some(d2) && d2.spec_depth()
                >= data.spec_depth() && (d2 == data || old(self).probe_spec(zobrist_key) == Some(
                d2,
            ))),
            verif_for(zobrist_key, old(self).is_wide()) != 0 ==> final(self).used_entries >= old(
                self,
            ).used_entries,
            overwrite ==> stored,
            stored && old(self).probe_spec(zobrist_key) is None ==> final(self).probe_spec(
                zobrist_key,
            ) == Some(data),
            old(self).probe_spec(zobrist_key) matches Some(y0) ==> (final(self).probe_spec(
                zobrist_key,
            ) matches Some(d2) && d2.spec_depth() >= y0.spec_depth()),
            forall|vv: u64, d: D|
                final(self).has_entry(vv, d) ==> old(self).has_entry(vv, d) || (vv == verif_for(
                    zobrist_key,
                    old(self).is_wide(),
                ) && d == data),
            !stored ==> *final(self) == *old(self),
    {
        let len = self.bucket_count();
        let bb = bucket_bytes::<D>();
        let index = (zobrist_key % (len as u64)) as usize;
        proof {
            lemma_mod_division_less_than_divisor(zobrist_key as int, len as int);
            self.lemma_used_bounds(index as int);
        }
        let verification = self.calculate_verification(zobrist_key);
        let mut b = match &self.tt {
            TTCore::FullHash(v) => v[index],
            TTCore::HalfHash(v) => v[index],
        };
        let ghost old_bucket = b;
        let ghost old_bs = self.buckets();
        let stored = b.store(verification, data, &mut self.used_entries, overwrite);
        proof {
            lemma_match_from_properties(old_bucket.slots@, verification, 0);
            lemma_target_slot_is_min(old_bucket.slots@, 4);
        }
        if !stored {
            return false;
        }
        match &mut self.tt {
            TTCore::FullHash(v) => {
                v[index] = b;
            },
            TTCore::HalfHash(v) => {
                v[index] = b;
            },
        }
        proof {
            let s0 = old_bucket.slots@;
            let u = match_from(s0, verification, 0);
            let e = Entry { verification, data };
            let bs = self.buckets();
            assert(bs =~= old_bs.update(index as int, b));
            lemma_table_live_update(old_bs, len as int, index as int, b);
            // which slot was written: the in-place match, or the leftmost
            // minimum-depth slot when the key was absent
            let w: int = if u < 4 {
                u
            } else {
                target_slot(s0, 4)
            };
            if u < 4 && data.spec_depth() < s0[u].data.spec_depth() {
                // kept the deeper resident payload; the table is unchanged
                assert(b == old_bucket);
                assert(bs =~= old_bs);
                lemma_table_live_agree(bs, old_bs, len as int);
            } else {
                assert(b.slots@ == s0.update(w, e));
                if u < 4 {
                    lemma_live_count_update(s0, 4, u, e);
                    lemma_find_from_update_at_match(s0, verification, 0, e);
                } else {
                    lemma_live_count_update(s0, 4, w, e);
                    lemma_find_update_only_match(s0, verification, w, e);
                }
                lemma_store_update_entries(old_bs, bs, index as int, w, e);
                // home rule: the written slot holds the key whose modulus
                // picked this bucket; all other slots are unchanged
                if self.is_wide() {
                    assert forall|i2: int, k2: int|
                        0 <= i2 < bs.len() && 0 <= k2 < 4 && (#[trigger] bs[i2].slots@[k2]).verification != 0 implies bs[i2].slots@[k2].verification as int
                            % bs.len() as int == i2 by {
                        if i2 == index as int && k2 == w {
                        } else {
                            assert(bs[i2].slots@[k2] == old_bs[i2].slots@[k2]);
                        }
                    }
                }
            }
        }
        true
    }

    /// Try to store, growing by the expansion factor while the budget
    /// allows, as a wide table does under load.
    fn try_store_or_grow(&mut self, zobrist_key: u64, data: D, room_to_grow: &mut Budget) -> (
        stored: bool)
        requires
            old(self).wf(),
            old(self).is_wide(),
            old(self).num_buckets() >= 1,
        ensures
            final(self).wf(),
            final(self).num_buckets() >= old(self).num_buckets(),
            final(room_to_grow).room() == old(room_to_grow).room() - (final(self).cost() - old(self).cost()),
            final(self).cost() >= old(self).cost(),
            old(room_to_grow).room() >= 0 ==> final(room_to_grow).room() >= 0,
            final(self).cost() > old(self).cost() ==> final(room_to_grow).room() >= 0,
            stored ==> final(self).is_wide() && (final(self).probe_spec(zobrist_key)
                matches Some(d2) && d2.spec_depth() >= data.spec_depth()),
            stored && zobrist_key != 0 && (forall|d: D|
                !old(self).has_entry(zobrist_key, d)) ==> final(self).probe_spec(zobrist_key)
                == Some(data),
            forall|vv: u64, d: D|
                final(self).has_entry(vv, d) ==> old(self).has_entry(vv, d) || (vv == zobrist_key
                    && d == data),
            !stored ==> forall|vv: u64, d: D|
                final(self).has_entry(vv, d) ==> old(self).has_entry(vv, d),
            !stored && final(self).num_buckets() == old(self).num_buckets() ==> *final(self)
                == *old(self) && final(room_to_grow).room() == old(room_to_grow).room(),
            stored && final(self).num_buckets() == old(self).num_buckets() && zobrist_key != 0
                ==> final(self).used_entries >= old(self).used_entries,
            !final(self).is_wide() ==> final(self).used_entries == 0 && (forall|vv: u64, d: D|
                !final(self).has_entry(vv, d)) && (forall|z2: u64|
                verif_for(z2, false) != 0 ==> final(self).probe_spec(z2) is None),
            grew_by_doubling(old(self).num_buckets(), final(self).num_buckets()),
            zobrist_key != 0 ==> (final(self).is_wide() ==> (old(self).probe_spec(zobrist_key)
                matches Some(y0) ==> (final(self).probe_spec(zobrist_key) matches Some(d2)
                && d2.spec_depth() >= y0.spec_depth()))),
        decreases
                (if room_to_grow.room() >= 0 {
                    room_to_grow.room()
                } else {
                    0int
                }),
    {
        proof {
            if zobrist_key != 0 && (forall|d: D| !self.has_entry(zobrist_key, d)) {
                lemma_absent_key_probe_none(*self, zobrist_key);
            }
        }
        let stored = self.store_at_home(zobrist_key, data, false);
        if stored {
            return true;
        }
        let len = self.bucket_count();
        let bb = bucket_bytes::<D>();
        match len.checked_mul(EXPANSION_FACTOR) {
            None => false,
            Some(new_count) => {
                proof {
                    vstd::arithmetic::div_mod::lemma_mod_multiples_basic(2, len as int);
                    assert(new_count as int % len as int == 0) by {
                        assert(new_count as int == 2 * len as int);
                    }
                    assert(new_count as int * vstd::layout::size_of::<Bucket<D>>() as int
                        >= self.cost()) by (nonlinear_arith)
                        requires
                            new_count as int == 2 * len as int,
                            self.cost() == len as int * vstd::layout::size_of::<Bucket<D>>() as int,
                            len as int >= 0,
                            vstd::layout::size_of::<Bucket<D>>() >= 0,
                    ;
                }
                if self.resize_to_bucket_count(new_count, room_to_grow) {
                    proof {
                        let szb = vstd::layout::size_of::<Bucket<D>>() as int;
                        let lenin = len as int;
                        let ncin = new_count as int;
                        assert(ncin * szb - lenin * szb >= 32) by (nonlinear_arith)
                            requires
                                ncin == 2 * lenin,
                                lenin >= 1,
                                szb >= 32,
                        ;
                        lemma_one_doubling(lenin);
                    }
                    let still_wide = match &self.tt {
                        TTCore::FullHash(_) => true,
                        TTCore::HalfHash(_) => false,
                    };
                    if still_wide {
                        proof {
                            // a preserving growth relocates the key's single
                            // entry to its new home, so its probe is unchanged
                            if zobrist_key != 0 && old(self).probe_spec(zobrist_key) is Some {
                                let y0 = old(self).probe_spec(zobrist_key).unwrap();
                                lemma_probe_hit_is_exact(*old(self), zobrist_key, y0);
                                lemma_entry_determines_probe(*self, zobrist_key, y0);
                            }
                        }
                        let r = self.try_store_or_grow(zobrist_key, data, room_to_grow);
                        proof {
                            lemma_grew_by_doubling_step(len as int, self.num_buckets());
                        }
                        r
                    } else {
                        false
                    }
                } else {
                    false
                }
            },
        }
    }

    /// Memoize `data` under the exact key. A key already present is updated
    /// in place, keeping whichever payload is deeper; a new key lands in the
    /// bucket it selects, growing a full wide table by doublings within the
    /// byte budget and finally overwriting the bucket's shallowest entry.
    /// Probing the key right after therefore always hits, with a payload at
    /// least as deep as the one just inserted.
    pub fn insert(&mut self, zobrist_key: u64, data: D, room_to_grow: &mut Budget)
        requires
            old(self).wf(),
        ensures
            final(self).wf(),
            final(self).num_buckets() >= old(self).num_buckets(),
            final(room_to_grow).room() == old(room_to_grow).room() - (final(self).cost() - old(self).cost()),
            final(self).cost() >= old(self).cost(),
            old(room_to_grow).room() >= 0 ==> final(room_to_grow).room() >= 0,
            final(self).cost() > old(self).cost() ==> final(room_to_grow).room() >= 0,
            old(self).num_buckets() > 0 ==> (final(self).probe_spec(zobrist_key)
                matches Some(d2) && d2.spec_depth() >= data.spec_depth()),
            old(self).num_buckets() > 0 && ((zobrist_key as u32) as u64) != 0 && old(self).probe_spec(zobrist_key) is None ==> final(self).probe_spec(zobrist_key) == Some(
                data,
            ),
            forall|vv: u64, d: D|
                final(self).has_entry(vv, d) ==> old(self).has_entry(vv, d) || ((vv == zobrist_key
                    || vv == ((zobrist_key as u32) as u64)) && d == data),
            final(self).num_buckets() == old(self).num_buckets() && verif_for(
                zobrist_key,
                old(self).is_wide(),
            ) != 0 ==> final(self).used_entries >= old(self).used_entries,
            old(self).num_buckets() == 0 ==> *final(self) == *old(self) && final(room_to_grow).room() == old(room_to_grow).room(),
            !old(self).is_wide() ==> !final(self).is_wide() && final(self).num_buckets() == old(self).num_buckets() && final(room_to_grow).room() == old(room_to_grow).room(),
            grew_by_doubling(old(self).num_buckets(), final(self).num_buckets()),
            final(self).is_wide() ==> (forall|vv: u64, d: D|
                final(self).has_entry(vv, d) ==> old(self).has_entry(vv, d) || (vv == zobrist_key
                    && d == data)),
            forall|z2: u64|
                old(self).is_wide() && final(self).is_wide() && z2 != zobrist_key && z2 != 0 ==> (
                final(self).probe_spec(z2) == old(self).probe_spec(z2) || final(self).probe_spec(
                    z2,
                ) is None),
            zobrist_key != 0 ==> (final(self).is_wide() ==> (old(self).probe_spec(zobrist_key)
                matches Some(y0) ==> (final(self).probe_spec(zobrist_key) matches Some(d2)
                && d2.spec_depth() >= y0.spec_depth()))),
    {
        let len0 = self.bucket_count();
        if len0 == 0 {
            return;
        }
        proof {
            // a missed probe in a wide table means the key is nowhere: every
            // live entry sits in the bucket its key selects
            if self.is_wide() && self.probe_spec(zobrist_key) is None {
                lemma_probe_none_absent(*self, zobrist_key);
            }
        }
        let wide = match &self.tt {
            TTCore::FullHash(_) => true,
            TTCore::HalfHash(_) => false,
        };
        if wide {
            if self.try_store_or_grow(zobrist_key, data, room_to_grow) {
                proof {
                    if self.is_wide() {
                        lemma_insert_frame(*old(self), *self, zobrist_key);
                    }
                }
                return;
            }
        }
        proof {
            // after a refused growth the key is still absent if it was
            if old(self).probe_spec(zobrist_key) is None && ((zobrist_key as u32) as u64) != 0 {
                if self.is_wide() {
                    lemma_absent_key_probe_none(*self, zobrist_key);
                }
            }
        }
        self.store_at_home(zobrist_key, data, true);
        proof {
            if old(self).is_wide() && self.is_wide() {
                lemma_insert_frame(*old(self), *self, zobrist_key);
            }
        }
    }
}

/// In a wide table a key that is stored nowhere cannot be probed: its home
/// bucket carries no matching slot.
pub proof fn lemma_absent_key_probe_none<D: IHashData + Copy>(t: TT<D>, z: u64)
    requires
        t.wf(),
        t.is_wide(),
        t.num_buckets() > 0,
        z != 0,
        forall|d: D| !t.has_entry(z, d),
    ensures
        t.probe_spec(z) is None,
{
    let i = z as int % t.num_buckets();
    lemma_mod_division_less_than_divisor(z as int, t.num_buckets());
    assert forall|k: int| 0 <= k < 4 implies (#[trigger] t.buckets()[i].slots@[k]).verification
        != z by {
        if t.buckets()[i].slots@[k].verification == z {
            assert(t.has_entry(z, t.buckets()[i].slots@[k].data)) by {
                assert(t.buckets()[i].slots@[k] == (Entry {
                    verification: z,
                    data: t.buckets()[i].slots@[k].data,
                }));
            }
        }
    }
    lemma_find_none_iff(t.buckets()[i].slots@, z);
}

/// In a wide table a missed probe means the key is stored nowhere: every
/// live entry sits in the bucket its key selects, so a match anywhere would
/// have been found.
pub proof fn lemma_probe_none_absent<D: IHashData + Copy>(t: TT<D>, z: u64)
    requires
        t.wf(),
        t.is_wide(),
        t.num_buckets() > 0,
        t.probe_spec(z) is None,
    ensures
        forall|d: D| !t.has_entry(z, d),
{
    let i = z as int % t.num_buckets();
    lemma_mod_division_less_than_divisor(z as int, t.num_buckets());
    lemma_find_none_iff(t.buckets()[i].slots@, z);
    assert forall|d: D| !t.has_entry(z, d) by {
        if t.has_entry(z, d) {
            let (a, b): (int, int) = choose|a: int, b: int|
                0 <= a < t.buckets().len() && 0 <= b < 4 && t.buckets()[a].slots@[b] == (Entry {
                    verification: z,
                    data: d,
                });
            assert(a == i);
            assert(t.buckets()[i].slots@[b].verification == z);
        }
    }
}

impl<D: IHashData + Copy> TT<D> {
    /// Resize the table to the requested megabytes; the byte difference is
    /// settled with the budget and a refused growth changes nothing.
    pub fn resize(&mut self, megabytes: usize, room_to_grow: &mut Budget)
        requires
            old(self).wf(),
            megabytes * MEGABYTE <= isize::MAX as usize,
            old(room_to_grow).room() + old(self).cost() <= isize::MAX,
        ensures
            final(self).wf(),
            final(room_to_grow).room() == old(room_to_grow).room() - (final(self).cost() - old(self).cost()),
            final(self).num_buckets() == (megabytes * MEGABYTE) as int / vstd::layout::size_of::<
                Bucket<D>,
            >() as int || *final(self) == *old(self),
            ({
                let target = (megabytes * MEGABYTE) as int / vstd::layout::size_of::<
                    Bucket<D>,
                >() as int;
                (target * vstd::layout::size_of::<Bucket<D>>() <= isize::MAX && target
                    * vstd::layout::size_of::<Bucket<D>>() - old(self).cost() <= old(
                    room_to_grow,
                ).room()) ==> final(self).num_buckets() == target
            }),
    {
        let bb_exec = bucket_bytes::<D>();
        let total_buckets = Self::calculate_init_buckets(megabytes);
        self.resize_to_bucket_count(total_buckets, room_to_grow);
    }

    /// A fresh one-bucket wide table holding a single entry, as installed
    /// for the first position of a new equivalence class.
    pub(crate) fn with_first_entry(zobrist_key: u64, data: D) -> (r: TT<D>)
        ensures
            r.wf(),
            r.is_wide(),
            r.num_buckets() == 1,
            r.cost() == vstd::layout::size_of::<Bucket<D>>(),
            r.probe_spec(zobrist_key) == Some(data),
            r.used_entries as int == (if zobrist_key != 0 {
                1int
            } else {
                0int
            }),
            forall|vv: u64, d: D| r.has_entry(vv, d) ==> vv == zobrist_key && d == data,
    {
        let bb = bucket_bytes::<D>();
        let mut b = Bucket::<D>::new();
        let ghost b0 = b;
        b.slots[0] = Entry { verification: zobrist_key, data };
        let used: usize = if zobrist_key != 0 {
            1
        } else {
            0
        };
        let mut v: Vec<Bucket<D>> = Vec::new();
        v.push(b);
        let r = TT { tt: TTCore::FullHash(v), used_entries: used };
        proof {
            lemma_live_count_update(b0.slots@, 4, 0, Entry { verification: zobrist_key, data });
            lemma_live_count_all_zero(b0.slots@, 4);
            assert(r.buckets() =~= seq![b]);
            assert(r.buckets()[0] == b);
            assert(table_live(r.buckets(), 0) == 0);
            assert(table_live(r.buckets(), 1) == live_count(r.buckets()[0].slots@, 4));
            assert(live_count(r.buckets()[0].slots@, 4) == live_count(b.slots@, 4));
            assert(r.num_buckets() == 1);
            assert(zobrist_key as int % 1int == 0);
            assert forall|vv: u64, d: D| r.has_entry(vv, d) implies vv == zobrist_key && d
                == data by {
                let (a, c): (int, int) = choose|a: int, c: int|
                    0 <= a < r.buckets().len() && 0 <= c < 4 && r.buckets()[a].slots@[c] == (Entry {
                        verification: vv,
                        data: d,
                    });
                assert(a == 0);
                if c != 0 {
                    assert(b.slots@[c] == b0.slots@[c]);
                }
            }
            assert(b.slots@[0].verification == zobrist_key);
            assert(r.probe_spec(zobrist_key) == Some(data));
        }
        r
    }
}

/// A table of empty buckets has no entries and misses every probe.
pub proof fn lemma_empty_table_facts<D: IHashData + Copy>(t: TT<D>)
    requires
        forall|i: int, k: int|
            0 <= i < t.num_buckets() && 0 <= k < 4 ==> (#[trigger] t.buckets()[i].slots@[k]).verification == 0,
        t.used_entries == 0,
    ensures
        t.wf() <==> t.cost() <= isize::MAX as int,
        forall|i: int| 0 <= i < t.num_buckets() ==> bucket_unique((#[trigger] t.buckets()[i]).slots@),
        forall|v: u64, d: D| !t.has_entry(v, d),
        forall|z: u64| verif_for(z, t.is_wide()) != 0 ==> t.probe_spec(z) is None,
{
    lemma_table_live_empty(t.buckets(), t.num_buckets());
    assert forall|z: u64| verif_for(z, t.is_wide()) != 0 implies t.probe_spec(z) is None by {
        if t.num_buckets() > 0 {
            let i = z as int % t.num_buckets();
            lemma_mod_division_less_than_divisor(z as int, t.num_buckets());
            lemma_find_none_iff(t.buckets()[i].slots@, verif_for(z, t.is_wide()));
        }
    }
    assert forall|v: u64, d: D| !t.has_entry(v, d) by {}
}

/// A probe hit in a wide table is always backed by an entry stored under
/// exactly the probed Zobrist key: positions with different keys can share a
/// bucket, but never satisfy each other's probes.
pub proof fn lemma_probe_hit_is_exact<D: IHashData + Copy>(t: TT<D>, z: u64, d: D)
    requires
        t.num_buckets() > 0,
        z != 0,
        t.is_wide(),
        t.probe_spec(z) == Some(d),
    ensures
        t.has_entry(z, d),
{
    lemma_mod_division_less_than_divisor(z as int, t.num_buckets());
    let i = z as int % t.num_buckets();
    lemma_find_witness(t.buckets()[i].slots@, z, d);
    let k = choose|k: int|
        0 <= k < t.buckets()[i].slots@.len() && t.buckets()[i].slots@[k] == (Entry {
            verification: z,
            data: d,
        });
    assert(t.buckets()[i].slots@[k] == (Entry { verification: z, data: d }));
}

/// In a well-formed wide table a live entry determines the probe outright:
/// it sits in its home bucket, and no bucket carries a verification twice,
/// so the lookup's first match is that entry.
pub proof fn lemma_entry_determines_probe<D: IHashData + Copy>(t: TT<D>, z: u64, d: D)
    requires
        t.wf(),
        t.is_wide(),
        t.num_buckets() > 0,
        t.has_entry(z, d),
    ensures
        t.probe_spec(z) == Some(d),
{
    let (a, b): (int, int) = choose|a: int, b: int|
        0 <= a < t.buckets().len() && 0 <= b < 4 && t.buckets()[a].slots@[b] == (Entry {
            verification: z,
            data: d,
        });
    lemma_mod_division_less_than_divisor(z as int, t.num_buckets());
    assert(a == z as int % t.num_buckets());
    let s = t.buckets()[a].slots@;
    lemma_match_from_properties(s, z, 0);
    let m = match_from(s, z, 0);
    assert(m < 4) by {
        if m == 4 {
            assert(s[b].verification != z);
        }
    }
    assert(m == b) by {
        if m < b {
            assert(s[m].verification == s[b].verification);
        }
    }
}

/// An insert disturbs no other key of a wide table: a later probe of any
/// different, nonzero key returns what it returned before, or misses because
/// its entry was evicted — never another payload.
pub proof fn lemma_insert_frame<D: IHashData + Copy>(pre: TT<D>, post: TT<D>, z: u64)
    requires
        pre.wf(),
        post.wf(),
        pre.is_wide(),
        post.is_wide(),
        pre.num_buckets() > 0,
        post.num_buckets() > 0,
        forall|vv: u64, d: D| post.has_entry(vv, d) ==> pre.has_entry(vv, d) || vv == z,
    ensures
        forall|z2: u64|
            z2 != z && z2 != 0 ==> (post.probe_spec(z2) == pre.probe_spec(z2) || post.probe_spec(
                z2,
            ) is None),
{
    assert forall|z2: u64| z2 != z && z2 != 0 implies (post.probe_spec(z2) == pre.probe_spec(z2)
        || post.probe_spec(z2) is None) by {
        if post.probe_spec(z2) is Some {
            let y = post.probe_spec(z2).unwrap();
            lemma_probe_hit_is_exact(post, z2, y);
            assert(pre.has_entry(z2, y));
            lemma_entry_determines_probe(pre, z2, y);
        }
    }
}

/// The fill factor is non-decreasing while the bucket count stands still:
/// more live entries can only raise the reported permille.
pub proof fn lemma_hash_full_monotone<D: IHashData + Copy>(t1: TT<D>, t2: TT<D>)
    requires
        t1.num_buckets() == t2.num_buckets(),
        t1.num_buckets() > 0,
        t1.used_entries <= t2.used_entries,
    ensures
        t1.used_entries as int * 1000 / (t1.num_buckets() * 4) <= t2.used_entries as int * 1000 / (
        t2.num_buckets() * 4),
{
    let n4 = t1.num_buckets() * 4;
    assert(n4 > 0) by (nonlinear_arith)
        requires
            t1.num_buckets() > 0,
            n4 == t1.num_buckets() * 4,
    ;
    vstd::arithmetic::div_mod::lemma_div_is_ordered(
        t1.used_entries as int * 1000,
        t2.used_entries as int * 1000,
        n4,
    );
}

} // verus!
