use vstd::prelude::*;

use crate::entry::{agg_empty, agg_update, agg_merge, Agg, WeatherEntry};
use crate::fnv::{fnv_hash, hash_bytes};

verus! {

/// Number of hash chains of a table.
pub const N_BUCKETS: usize = 1024;

/// Table from keys to accumulators. A key is a byte range `[start, end)` of a
/// buffer that the table does not own; every operation is handed that buffer.
///
/// Entries are kept in insertion order. Each entry also stores the FNV-1a hash of
/// its key, and entries of one bucket are linked from the newest to the oldest:
/// `heads[b]` and `next[j]` hold one plus the index of the entry they point to,
/// or zero at the end of a chain.
pub struct FnvTable {
    pub keys: Vec<(usize, usize)>,
    pub vals: Vec<WeatherEntry>,
    pub hashes: Vec<u64>,
    pub next: Vec<usize>,
    pub heads: Vec<usize>,
}

pub open spec fn bucket_of(h: u64) -> int {
    (h % (N_BUCKETS as u64)) as int
}

impl FnvTable {
    pub open spec fn len_spec(&self) -> int {
        self.keys@.len() as int
    }

    /// The bytes of the key of entry `j`.
    pub open spec fn key_at(&self, b: Seq<u8>, j: int) -> Seq<u8> {
        b.subrange(self.keys@[j].0 as int, self.keys@[j].1 as int)
    }

    pub open spec fn entry_bucket(&self, j: int) -> int {
        bucket_of(self.hashes@[j])
    }

    /// The link `l` (one plus an index, or zero) starts a chain through every
    /// entry below `n` of bucket `bk`, from the newest down.
    pub open spec fn chain_link(&self, l: int, n: int, bk: int) -> bool {
        &&& 0 <= l <= n
        &&& l > 0 ==> self.entry_bucket(l - 1) == bk
        &&& forall|k: int| l <= k < n ==> self.entry_bucket(k) != bk
    }

    pub open spec fn wf(&self, b: Seq<u8>) -> bool {
        &&& self.vals@.len() == self.keys@.len()
        &&& self.hashes@.len() == self.keys@.len()
        &&& self.next@.len() == self.keys@.len()
        &&& self.heads@.len() == N_BUCKETS
        &&& forall|j: int| 0 <= j < self.len_spec() ==>
            (#[trigger] self.keys@[j]).0 <= self.keys@[j].1 <= b.len()
        &&& forall|j: int| 0 <= j < self.len_spec() ==>
            #[trigger] self.hashes@[j] == fnv_hash(self.key_at(b, j))
        &&& forall|i: int, j: int| 0 <= i < j < self.len_spec() ==>
            self.key_at(b, i) != self.key_at(b, j)
        &&& forall|j: int| 0 <= j < self.len_spec() ==>
            self.chain_link(#[trigger] self.next@[j] as int, j, self.entry_bucket(j))
        &&& forall|bk: int| 0 <= bk < N_BUCKETS ==>
            self.chain_link(#[trigger] self.heads@[bk] as int, self.len_spec(), bk)
    }

    /// Whether one of the first `n` entries has key `k`.
    pub open spec fn has_key_below(&self, b: Seq<u8>, k: Seq<u8>, n: int) -> bool {
        exists|j: int| 0 <= j < n && self.key_at(b, j) == k
    }

    /// The keys of the first `n` entries with their aggregates.
    pub open spec fn view_below(&self, b: Seq<u8>, n: int) -> Map<Seq<u8>, Agg> {
        Map::new(
            |k: Seq<u8>| self.has_key_below(b, k, n),
            |k: Seq<u8>| self.vals@[choose|j: int| 0 <= j < n && self.key_at(b, j) == k].view(),
        )
    }

    /// What the table holds, over buffer `b`.
    pub open spec fn view_in(&self, b: Seq<u8>) -> Map<Seq<u8>, Agg> {
        self.view_below(b, self.len_spec())
    }

    pub proof fn lemma_view_index(&self, b: Seq<u8>, n: int, j: int)
        requires
            self.wf(b),
            0 <= j < n <= self.len_spec(),
        ensures
            self.view_below(b, n).contains_key(self.key_at(b, j)),
            self.view_below(b, n)[self.key_at(b, j)] == self.vals@[j].view(),
    {
        let k = self.key_at(b, j);
        assert(self.has_key_below(b, k, n));
        let i = choose|i: int| 0 <= i < n && self.key_at(b, i) == k;
        if i != j {
            assert(self.key_at(b, i) != self.key_at(b, j));
        }
    }

    /// An empty table.
    pub fn new() -> (r: FnvTable)
        ensures
            forall|b: Seq<u8>| #[trigger] r.wf(b),
            forall|b: Seq<u8>| #[trigger] r.view_in(b) == Map::<Seq<u8>, Agg>::empty(),
    {
        let mut heads: Vec<usize> = Vec::new();
        let mut i: usize = 0;
        while i < N_BUCKETS
            invariant
                i <= N_BUCKETS,
                heads@.len() == i,
                forall|x: int| 0 <= x < i ==> heads@[x] == 0,
            decreases N_BUCKETS - i,
        {
            heads.push(0);
            i = i + 1;
        }
        let r = FnvTable { keys: Vec::new(), vals: Vec::new(), hashes: Vec::new(), next: Vec::new(), heads };
        assert forall|b: Seq<u8>| #[trigger] r.view_in(b) == Map::<Seq<u8>, Agg>::empty() by {
            assert(r.view_in(b) =~= Map::<Seq<u8>, Agg>::empty());
        }
        r
    }

    /// Number of keys.
    pub fn len(&self) -> (r: usize)
        ensures
            r == self.len_spec(),
    {
        self.keys.len()
    }

    /// Index of the entry whose key has the bytes `b[ks..ke]`, if there is one.
    pub fn find(&self, b: &[u8], ks: usize, ke: usize) -> (r: Option<usize>)
        requires
            self.wf(b@),
            ks <= ke <= b@.len(),
        ensures
            match r {
                Some(j) => j < self.len_spec() && self.key_at(b@, j as int) == b@.subrange(ks as int, ke as int),
                None => !self.view_in(b@).contains_key(b@.subrange(ks as int, ke as int)),
            },
    {
        let h = hash_bytes(slice_range(b, ks, ke));
        let bk = (h % (N_BUCKETS as u64)) as usize;
        let ghost key = b@.subrange(ks as int, ke as int);
        let mut cur = self.heads[bk];
        proof {
            assert(self.chain_link(self.heads@[bk as int] as int, self.len_spec(), bk as int));
        }
        while cur > 0
            invariant
                self.wf(b@),
                ks <= ke <= b@.len(),
                key == b@.subrange(ks as int, ke as int),
                h == fnv_hash(key),
                bk == bucket_of(h),
                cur <= self.len_spec(),
                cur > 0 ==> self.entry_bucket(cur - 1) == bk,
                forall|k: int| cur <= k < self.len_spec() && self.entry_bucket(k) == bk ==>
                    self.key_at(b@, k) != key,
            decreases cur,
        {
            let j = cur - 1;
            let se = self.keys[j];
            let s = se.0;
            let e = se.1;
            assert(s == self.keys@[j as int].0 && e == self.keys@[j as int].1);
            let same = bytes_eq(b, s, e, ks, ke);
            if same {
                return Some(j);
            }
            assert(self.key_at(b@, j as int) == b@.subrange(s as int, e as int));
            let nx = self.next[j];
            proof {
                assert(self.key_at(b@, j as int) != key);
                assert(self.chain_link(self.next@[j as int] as int, j as int, self.entry_bucket(j as int)));
                assert forall|k: int| nx <= k < self.len_spec() && self.entry_bucket(k) == bk implies
                    self.key_at(b@, k) != key by {
                    if k < j {
                        assert(self.entry_bucket(k) != self.entry_bucket(j as int));
                    }
                }
            }
            cur = nx;
        }
        proof {
            if self.view_in(b@).contains_key(key) {
                let j = choose|j: int| 0 <= j < self.len_spec() && self.key_at(b@, j) == key;
                assert(self.hashes@[j] == fnv_hash(self.key_at(b@, j)));
                assert(self.entry_bucket(j) == bk);
                assert(self.key_at(b@, j) != key);
            }
        }
        None
    }
}

impl FnvTable {
    proof fn lemma_view_step(&self, b: Seq<u8>, n: int)
        requires
            self.wf(b),
            0 <= n < self.len_spec(),
        ensures
            self.view_below(b, n + 1) == self.view_below(b, n).insert(self.key_at(b, n), self.vals@[n].view()),
    {
        let m1 = self.view_below(b, n + 1);
        let m0 = self.view_below(b, n).insert(self.key_at(b, n), self.vals@[n].view());
        assert forall|k: Seq<u8>| m1.contains_key(k) <==> m0.contains_key(k) by {
            if self.has_key_below(b, k, n + 1) && k != self.key_at(b, n) {
                let j = choose|j: int| 0 <= j < n + 1 && self.key_at(b, j) == k;
                assert(self.has_key_below(b, k, n));
            }
        }
        assert forall|k: Seq<u8>| #[trigger] m1.contains_key(k) implies m1[k] == m0[k] by {
            if k == self.key_at(b, n) {
                self.lemma_view_index(b, n + 1, n);
            } else {
                let j = choose|j: int| 0 <= j < n + 1 && self.key_at(b, j) == k;
                self.lemma_view_index(b, n + 1, j);
                self.lemma_view_index(b, n, j);
            }
        }
        assert(m1 =~= m0);
    }

    proof fn lemma_view_same_prefix(&self, other: &FnvTable, b: Seq<u8>, n: int)
        requires
            self.wf(b),
            other.wf(b),
            0 <= n <= self.len_spec(),
            n <= other.len_spec(),
            forall|j: int| 0 <= j < n ==> self.keys@[j] == other.keys@[j] && self.vals@[j] == other.vals@[j],
        ensures
            self.view_below(b, n) == other.view_below(b, n),
    {
        let m1 = self.view_below(b, n);
        let m2 = other.view_below(b, n);
        assert forall|k: Seq<u8>| m1.contains_key(k) <==> m2.contains_key(k) by {
            if self.has_key_below(b, k, n) {
                let j = choose|j: int| 0 <= j < n && self.key_at(b, j) == k;
                assert(other.key_at(b, j) == k);
            }
            if other.has_key_below(b, k, n) {
                let j = choose|j: int| 0 <= j < n && other.key_at(b, j) == k;
                assert(self.key_at(b, j) == k);
            }
        }
        assert forall|k: Seq<u8>| #[trigger] m1.contains_key(k) implies m1[k] == m2[k] by {
            let j = choose|j: int| 0 <= j < n && self.key_at(b, j) == k;
            self.lemma_view_index(b, n, j);
            assert(other.key_at(b, j) == k);
            other.lemma_view_index(b, n, j);
        }
        assert(m1 =~= m2);
    }

    /// Appends an entry for a key that the table does not hold.
    #[verifier::rlimit(60)]
    fn insert_new(&mut self, b: &[u8], ks: usize, ke: usize, e: WeatherEntry)
        requires
            old(self).wf(b@),
            ks <= ke <= b@.len(),
            !old(self).view_in(b@).contains_key(b@.subrange(ks as int, ke as int)),
        ensures
            final(self).wf(b@),
            final(self).view_in(b@) == old(self).view_in(b@).insert(b@.subrange(ks as int, ke as int), e.view()),
    {
        let ghost pre = *self;
        let ghost key = b@.subrange(ks as int, ke as int);
        let h = hash_bytes(slice_range(b, ks, ke));
        let bk = (h % (N_BUCKETS as u64)) as usize;
        let n = self.keys.len();
        let head = self.heads[bk];
        self.keys.push((ks, ke));
        self.vals.push(e);
        self.hashes.push(h);
        self.next.push(head);
        let n1 = self.keys.len();
        self.heads.set(bk, n1);
        proof {
            assert(self.key_at(b@, n as int) == key);
            assert forall|j: int| 0 <= j < n implies #[trigger] self.key_at(b@, j) == pre.key_at(b@, j) by {
                assert(self.keys@[j] == pre.keys@[j]);
            }
            assert forall|i: int, j: int| 0 <= i < j < self.len_spec() implies
                self.key_at(b@, i) != self.key_at(b@, j) by {
                if j == n {
                    assert(self.key_at(b@, i) == pre.key_at(b@, i));
                    if pre.key_at(b@, i) == key {
                        assert(pre.has_key_below(b@, key, n as int));
                    }
                } else {
                    assert(self.key_at(b@, i) == pre.key_at(b@, i));
                    assert(self.key_at(b@, j) == pre.key_at(b@, j));
                }
            }
            assert forall|j: int| 0 <= j < self.len_spec() implies
                #[trigger] self.hashes@[j] == fnv_hash(self.key_at(b@, j)) by {
                if j < n {
                    assert(pre.hashes@[j] == fnv_hash(pre.key_at(b@, j)));
                }
            }
            assert(pre.chain_link(pre.heads@[bk as int] as int, n as int, bk as int));
            assert forall|k: int| 0 <= k < n implies #[trigger] self.entry_bucket(k) == pre.entry_bucket(k) by {
                assert(self.hashes@[k] == pre.hashes@[k]);
            }
            assert(self.entry_bucket(n as int) == bk);
            assert forall|j: int| 0 <= j < self.len_spec() implies
                self.chain_link(#[trigger] self.next@[j] as int, j, self.entry_bucket(j)) by {
                if j < n {
                    assert(pre.chain_link(pre.next@[j] as int, j, pre.entry_bucket(j)));
                    assert(self.next@[j] == pre.next@[j]);
                    assert forall|k: int| self.next@[j] <= k < j implies self.entry_bucket(k) != self.entry_bucket(j) by {
                        assert(pre.entry_bucket(k) != pre.entry_bucket(j));
                    }
                } else {
                    assert forall|k: int| self.next@[j] <= k < j implies self.entry_bucket(k) != self.entry_bucket(j) by {
                        assert(pre.entry_bucket(k) != bk);
                    }
                    if self.next@[j] > 0 {
                        assert(pre.entry_bucket(self.next@[j] - 1) == bk);
                    }
                }
            }
            assert forall|x: int| 0 <= x < N_BUCKETS implies
                self.chain_link(#[trigger] self.heads@[x] as int, self.len_spec(), x) by {
                if x != bk {
                    assert(pre.chain_link(pre.heads@[x] as int, n as int, x));
                    assert(self.heads@[x] == pre.heads@[x]);
                    assert forall|k: int| self.heads@[x] <= k < self.len_spec() implies self.entry_bucket(k) != x by {
                        if k < n {
                            assert(pre.entry_bucket(k) != x);
                        }
                    }
                    if self.heads@[x] > 0 {
                        assert(pre.entry_bucket(self.heads@[x] - 1) == x);
                    }
                }
            }
            assert forall|j: int| 0 <= j < self.len_spec() implies
                (#[trigger] self.keys@[j]).0 <= self.keys@[j].1 <= b@.len() by {
                if j < n {
                    assert(pre.keys@[j] == self.keys@[j]);
                }
            }
            assert(self.wf(b@));
            self.lemma_view_step(b@, n as int);
            self.lemma_view_same_prefix(&pre, b@, n as int);
        }
    }

    /// Replaces the accumulator of entry `j`.
    fn set_val(&mut self, b: Ghost<Seq<u8>>, j: usize, e: WeatherEntry)
        requires
            old(self).wf(b@),
            j < old(self).len_spec(),
        ensures
            final(self).wf(b@),
            final(self).view_in(b@) == old(self).view_in(b@).insert(old(self).key_at(b@, j as int), e.view()),
            final(self).keys@ == old(self).keys@,
    {
        let ghost pre = *self;
        self.vals.set(j, e);
        proof {
            assert(self.keys@ == pre.keys@);
            assert(self.hashes@ == pre.hashes@);
            assert(self.next@ == pre.next@);
            assert(self.heads@ == pre.heads@);
            assert forall|i: int| 0 <= i < self.len_spec() implies #[trigger] self.key_at(b@, i) == pre.key_at(b@, i) by {}
            assert forall|i: int| 0 <= i < self.len_spec() implies #[trigger] self.entry_bucket(i) == pre.entry_bucket(i) by {}
            assert forall|i: int| 0 <= i < self.len_spec() implies
                self.chain_link(#[trigger] self.next@[i] as int, i, self.entry_bucket(i)) by {
                assert(pre.chain_link(pre.next@[i] as int, i, pre.entry_bucket(i)));
            }
            assert forall|x: int| 0 <= x < N_BUCKETS implies
                self.chain_link(#[trigger] self.heads@[x] as int, self.len_spec(), x) by {
                assert(pre.chain_link(pre.heads@[x] as int, self.len_spec(), x));
            }
            assert forall|i: int| 0 <= i < self.len_spec() implies
                #[trigger] self.hashes@[i] == fnv_hash(self.key_at(b@, i)) by {
                assert(pre.hashes@[i] == fnv_hash(pre.key_at(b@, i)));
            }
            assert(self.wf(b@));
            let n = self.len_spec();
            let m1 = self.view_in(b@);
            let m0 = pre.view_in(b@).insert(pre.key_at(b@, j as int), e.view());
            assert forall|k: Seq<u8>| m1.contains_key(k) <==> m0.contains_key(k) by {
                if self.has_key_below(b@, k, n) {
                    let i = choose|i: int| 0 <= i < n && self.key_at(b@, i) == k;
                    assert(pre.key_at(b@, i) == k);
                }
                if pre.has_key_below(b@, k, n) {
                    let i = choose|i: int| 0 <= i < n && pre.key_at(b@, i) == k;
                    assert(self.key_at(b@, i) == k);
                }
            }
            assert forall|k: Seq<u8>| #[trigger] m1.contains_key(k) implies m1[k] == m0[k] by {
                let i = choose|i: int| 0 <= i < n && self.key_at(b@, i) == k;
                self.lemma_view_index(b@, n, i);
                if i != j {
                    pre.lemma_view_index(b@, n, i);
                }
            }
            assert(m1 =~= m0);
        }
    }

    /// Records the value `v` under the key `b[ks..ke]`, creating its accumulator
    /// if the key is new.
    pub fn update_key(&mut self, b: &[u8], ks: usize, ke: usize, v: i64)
        requires
            old(self).wf(b@),
            ks <= ke <= b@.len(),
            old(self).view_in(b@).contains_key(b@.subrange(ks as int, ke as int)) ==> {
                let a = old(self).view_in(b@)[b@.subrange(ks as int, ke as int)];
                a.count < u64::MAX && i128::MIN <= a.sum + v <= i128::MAX
            },
        ensures
            final(self).wf(b@),
            final(self).view_in(b@) == old(self).view_in(b@).insert(
                b@.subrange(ks as int, ke as int),
                agg_update(
                    if old(self).view_in(b@).contains_key(b@.subrange(ks as int, ke as int)) {
                        old(self).view_in(b@)[b@.subrange(ks as int, ke as int)]
                    } else {
                        agg_empty()
                    },
                    v as int,
                ),
            ),
    {
        match self.find(b, ks, ke) {
            Some(j) => {
                let mut e = self.vals[j];
                proof {
                    self.lemma_view_index(b@, self.len_spec(), j as int);
                }
                e.update(v);
                self.set_val(Ghost(b@), j, e);
            },
            None => {
                let mut e = WeatherEntry::new();
                e.update(v);
                self.insert_new(b, ks, ke, e);
            },
        }
    }

    /// Folds `e` into the accumulator of the key `b[ks..ke]`, or stores it for a
    /// new key. Returns false, leaving the table as it was, where the count or the
    /// sum would not fit.
    pub fn merge_key(&mut self, b: &[u8], ks: usize, ke: usize, e: &WeatherEntry) -> (ok: bool)
        requires
            old(self).wf(b@),
            ks <= ke <= b@.len(),
        ensures
            final(self).wf(b@),
            ok == merge_fits(old(self).view_in(b@), b@.subrange(ks as int, ke as int), e.view()),
            ok ==> final(self).view_in(b@) == old(self).view_in(b@).insert(
                b@.subrange(ks as int, ke as int),
                if old(self).view_in(b@).contains_key(b@.subrange(ks as int, ke as int)) {
                    agg_merge(old(self).view_in(b@)[b@.subrange(ks as int, ke as int)], e.view())
                } else {
                    e.view()
                },
            ),
            !ok ==> final(self).view_in(b@) == old(self).view_in(b@),
    {
        match self.find(b, ks, ke) {
            Some(j) => {
                let mut cur = self.vals[j];
                proof {
                    self.lemma_view_index(b@, self.len_spec(), j as int);
                }
                if cur.cnt > u64::MAX - e.cnt {
                    return false;
                }
                if e.sum > 0 && cur.sum > i128::MAX - e.sum {
                    return false;
                }
                if e.sum < 0 && cur.sum < i128::MIN - e.sum {
                    return false;
                }
                cur.merge(e);
                self.set_val(Ghost(b@), j, cur);
                true
            },
            None => {
                self.insert_new(b, ks, ke, *e);
                true
            },
        }
    }
}

/// Whether merging `a` into the aggregate that `m` holds for `k` keeps the count
/// and the sum within their machine types.
pub open spec fn merge_fits(m: Map<Seq<u8>, Agg>, k: Seq<u8>, a: Agg) -> bool {
    m.contains_key(k) ==> (m[k].count + a.count <= u64::MAX && i128::MIN <= m[k].sum + a.sum
        <= i128::MAX)
}

/// Keys of either map; a key of both gets the merge of its two aggregates.
pub open spec fn merge_maps(l: Map<Seq<u8>, Agg>, r: Map<Seq<u8>, Agg>) -> Map<Seq<u8>, Agg> {
    Map::new(
        |k: Seq<u8>| l.contains_key(k) || r.contains_key(k),
        |k: Seq<u8>|
            if l.contains_key(k) && r.contains_key(k) {
                agg_merge(l[k], r[k])
            } else if l.contains_key(k) {
                l[k]
            } else {
                r[k]
            },
    )
}

/// Every key of both maps has aggregates whose merge keeps count and sum within
/// their machine types.
pub open spec fn mergeable(l: Map<Seq<u8>, Agg>, r: Map<Seq<u8>, Agg>) -> bool {
    forall|k: Seq<u8>| l.contains_key(k) && r.contains_key(k) ==> #[trigger] merge_fits(l, k, r[k])
}

/// Folds the table `right` into `left`; both hold keys of the buffer `b`.
/// Fails when a key's merged count or sum would not fit.
pub fn merge(left: FnvTable, right: FnvTable, b: &[u8]) -> (r: Result<FnvTable, MergeOverflow>)
    requires
        left.wf(b@),
        right.wf(b@),
    ensures
        r is Ok <==> mergeable(left.view_in(b@), right.view_in(b@)),
        r matches Ok(t) ==> t.wf(b@) && t.view_in(b@) == merge_maps(left.view_in(b@), right.view_in(b@)),
{
    let ghost l0 = left.view_in(b@);
    let mut acc = left;
    let n = right.len();
    let mut j: usize = 0;
    while j < n
        invariant
            l0 == left.view_in(b@),
            right.wf(b@),
            n == right.len_spec(),
            j <= n,
            acc.wf(b@),
            acc.view_in(b@) == merge_maps(l0, right.view_below(b@, j as int)),
            mergeable(l0, right.view_below(b@, j as int)),
        decreases n - j,
    {
        let (ks, ke) = right.keys[j];
        let ghost key = right.key_at(b@, j as int);
        let ghost rj = right.view_below(b@, j as int);
        proof {
            assert(right.keys@[j as int].0 <= right.keys@[j as int].1 <= b@.len());
            if rj.contains_key(key) {
                let i = choose|i: int| 0 <= i < j && right.key_at(b@, i) == key;
                assert(right.key_at(b@, i) != right.key_at(b@, j as int));
            }
            right.lemma_view_step(b@, j as int);
        }
        let ok = acc.merge_key(b, ks, ke, &right.vals[j]);
        if !ok {
            proof {
                let full = right.view_in(b@);
                right.lemma_view_index(b@, n as int, j as int);
                assert(!rj.contains_key(key));
                assert(full[key] == right.vals@[j as int].view());
                assert(l0.contains_key(key));
                assert(!merge_fits(l0, key, full[key]));
                assert(!mergeable(l0, full));
            }
            return Err(MergeOverflow);
        }
        proof {
            let rj1 = right.view_below(b@, j + 1);
            assert(acc.view_in(b@) =~= merge_maps(l0, rj1));
            assert forall|k: Seq<u8>| l0.contains_key(k) && rj1.contains_key(k) implies
                #[trigger] merge_fits(l0, k, rj1[k]) by {
                if k != key {
                    assert(merge_fits(l0, k, rj[k]));
                }
            }
        }
        j = j + 1;
    }
    proof {
        assert(right.view_below(b@, n as int) == right.view_in(b@));
    }
    Ok(acc)
}

/// Merging two tables would overflow a count or a sum.
#[derive(Clone, Copy, Debug, PartialEq, Eq, Structural)]
pub struct MergeOverflow;

/// The bytes `b[s..e]`.
fn slice_range(b: &[u8], s: usize, e: usize) -> (r: &[u8])
    requires
        s <= e <= b@.len(),
    ensures
        r@ == b@.subrange(s as int, e as int),
{
    vstd::slice::slice_subrange(b, s, e)
}

/// Whether the byte ranges `b[s1..e1]` and `b[s2..e2]` hold the same bytes.
pub fn bytes_eq(b: &[u8], s1: usize, e1: usize, s2: usize, e2: usize) -> (r: bool)
    requires
        s1 <= e1 <= b@.len(),
        s2 <= e2 <= b@.len(),
    ensures
        r == (b@.subrange(s1 as int, e1 as int) == b@.subrange(s2 as int, e2 as int)),
{
    if e1 - s1 != e2 - s2 {
        assert(b@.subrange(s1 as int, e1 as int).len() != b@.subrange(s2 as int, e2 as int).len());
        return false;
    }
    let n = e1 - s1;
    let mut i: usize = 0;
    while i < n
        invariant
            s1 + n == e1 <= b@.len(),
            s2 + n == e2 <= b@.len(),
            i <= n,
            forall|k: int| 0 <= k < i ==> #[trigger] b@[s1 + k] == b@[s2 + k],
        decreases n - i,
    {
        if b[s1 + i] != b[s2 + i] {
            assert(b@.subrange(s1 as int, e1 as int)[i as int] != b@.subrange(s2 as int, e2 as int)[i as int]);
            return false;
        }
        i = i + 1;
    }
    assert forall|k: int| 0 <= k < n implies
        b@.subrange(s1 as int, e1 as int)[k] == b@.subrange(s2 as int, e2 as int)[k] by {
        assert(b@[s1 + k] == b@[s2 + k]);
    }
    assert(b@.subrange(s1 as int, e1 as int) =~= b@.subrange(s2 as int, e2 as int));
    true
}

} // verus!
