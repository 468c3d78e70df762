//! A small chaining hash table with dynamic rehashing, the second
//! utility of the bootstrap phase; it is independent of the allocator.
//! Keys are machine words hashed by a seeded polynomial hasher over the
//! key's little-endian bytes; each bucket is an unordered list of pairs,
//! and the table doubles its bucket count when the load grows past two
//! pairs per bucket.

use vstd::prelude::*;

verus! {

use vstd::arithmetic::div_mod::lemma_mod_bound;

/// A running polynomial hash: each absorbed byte multiplies the state by
/// 31 and adds the byte, wrapping on overflow.
pub struct SimpleHasher {
    hash: u64,
}

/// One hashing step: absorb one byte into the running state.
pub open spec fn hash_step(h: u64, b: u8) -> u64 {
    h.wrapping_mul(31).wrapping_add(b as u64)
}

/// The hasher state after absorbing `bytes`, front to back.
pub open spec fn hash_bytes(h: u64, bytes: Seq<u8>) -> u64
    decreases bytes.len(),
{
    if bytes.len() == 0 {
        h
    } else {
        hash_step(hash_bytes(h, bytes.drop_last()), bytes.last())
    }
}

impl SimpleHasher {
    /// The running hash value.
    pub closed spec fn state(&self) -> u64 {
        self.hash
    }

    /// A hasher whose state starts at `seed`.
    pub fn new(seed: u64) -> (r: Self)
        ensures
            r.state() == seed,
    {
        SimpleHasher { hash: seed }
    }

    /// Absorb `bytes` into the running hash, front to back.
    pub fn write(&mut self, bytes: &[u8])
        ensures
            final(self).state() == hash_bytes(old(self).state(), bytes@),
    {
        let ghost h0 = self.hash;
        let mut i: usize = 0;
        while i < bytes.len()
            invariant
                i <= bytes@.len(),
                self.hash == hash_bytes(h0, bytes@.take(i as int)),
            decreases bytes@.len() - i,
        {
            let b = bytes[i];
            proof {
                assert(bytes@.take(i + 1).drop_last() =~= bytes@.take(i as int));
                assert(bytes@.take(i + 1).last() == bytes@[i as int]);
            }
            self.hash = self.hash.wrapping_mul(31).wrapping_add(b as u64);
            i = i + 1;
        }
        proof {
            assert(bytes@.take(bytes@.len() as int) =~= bytes@);
        }
    }

    /// The hash accumulated so far.
    pub fn finish(&self) -> (r: u64)
        ensures
            r == self.state(),
    {
        self.hash
    }
}

/// The eight bytes of a key, lowest first.
pub open spec fn key_bytes(key: u64) -> Seq<u8> {
    seq![
        (key % 256) as u8,
        ((key / 0x100) % 256) as u8,
        ((key / 0x10000) % 256) as u8,
        ((key / 0x1000000) % 256) as u8,
        ((key / 0x100000000) % 256) as u8,
        ((key / 0x10000000000) % 256) as u8,
        ((key / 0x1000000000000) % 256) as u8,
        ((key / 0x100000000000000) % 256) as u8,
    ]
}

/// Split a key into its little-endian bytes for hashing.
fn key_to_bytes(key: u64) -> (r: Vec<u8>)
    ensures
        r@ == key_bytes(key),
{
    let mut v: Vec<u8> = Vec::new();
    v.push((key % 256) as u8);
    v.push(((key / 0x100) % 256) as u8);
    v.push(((key / 0x10000) % 256) as u8);
    v.push(((key / 0x1000000) % 256) as u8);
    v.push(((key / 0x100000000) % 256) as u8);
    v.push(((key / 0x10000000000) % 256) as u8);
    v.push(((key / 0x1000000000000) % 256) as u8);
    v.push(((key / 0x100000000000000) % 256) as u8);
    proof {
        assert(v@ =~= key_bytes(key));
    }
    v
}

/// A key's full hash: the polynomial hash of its little-endian bytes.
/// Opaque so that reasoning about buckets never unrolls the hash chain.
#[verifier::opaque]
pub open spec fn key_hash(seed: u64, key: u64) -> u64 {
    hash_bytes(seed, key_bytes(key))
}

/// The bucket a key lands in: its hash reduced modulo the bucket count.
pub open spec fn bucket_of(seed: u64, key: u64, n: int) -> int {
    key_hash(seed, key) as int % n
}

/// Whether some pair in a bucket carries `key`.
pub open spec fn bucket_has_key<V>(es: Seq<(u64, V)>, key: u64) -> bool {
    exists|j: int| 0 <= j < es.len() && es[j].0 == key
}

/// The value stored beside `key` in a bucket.
pub open spec fn bucket_value_of<V>(es: Seq<(u64, V)>, key: u64) -> V {
    es[choose|j: int| 0 <= j < es.len() && es[j].0 == key].1
}

/// No key appears twice within one bucket.
pub open spec fn bucket_keys_distinct<V>(es: Seq<(u64, V)>) -> bool {
    forall|j1: int, j2: int| 0 <= j1 < j2 < es.len() ==> es[j1].0 != es[j2].0
}

/// All pairs of the first `i` buckets, bucket by bucket, in place order.
pub open spec fn flatten_buckets<V>(bs: Seq<Vec<(u64, V)>>, i: int) -> Seq<(u64, V)>
    decreases i,
{
    if i <= 0 {
        Seq::empty()
    } else {
        flatten_buckets(bs, i - 1) + bs[i - 1]@
    }
}

/// How many pairs the first `i` buckets hold.
pub open spec fn pairs_upto<V>(bs: Seq<Vec<(u64, V)>>, i: int) -> int {
    flatten_buckets(bs, i).len() as int
}

/// Whether some bucket of `bs` still holds a pair carrying `k`.
spec fn in_remaining<V>(bs: Seq<Vec<(u64, V)>>, k: u64) -> bool {
    exists|m: int, jj: int|
        0 <= m < bs.len() && 0 <= jj < bs[m]@.len() && bs[m]@[jj].0 == k
}

/// In a bucket without repeated keys, the pair at any index carrying
/// `key` is the pair `bucket_value_of` reads.
proof fn lemma_bucket_value_at<V>(es: Seq<(u64, V)>, key: u64, j: int)
    requires
        bucket_keys_distinct(es),
        0 <= j < es.len(),
        es[j].0 == key,
    ensures
        bucket_has_key(es, key),
        bucket_value_of(es, key) == es[j].1,
{
    let j2 = choose|j2: int| 0 <= j2 < es.len() && es[j2].0 == key;
    if j2 != j {
        assert(es[j].0 != es[j2].0);
    }
}

/// Replacing the single bucket `b` changes the flattened pairs by
/// exactly the difference between the new and old bucket contents.
proof fn lemma_flatten_update_len<V>(bs1: Seq<Vec<(u64, V)>>, bs2: Seq<Vec<(u64, V)>>, b: int, i: int)
    requires
        bs1.len() == bs2.len(),
        0 <= b < bs1.len(),
        forall|m: int| 0 <= m < bs1.len() && m != b ==> bs1[m] == bs2[m],
    ensures
        b < i <= bs1.len() ==> pairs_upto(bs2, i) == pairs_upto(bs1, i) + bs2[b]@.len() - bs1[b]@.len(),
        i <= b ==> pairs_upto(bs2, i) == pairs_upto(bs1, i),
    decreases i,
{
    if i > 0 {
        lemma_flatten_update_len(bs1, bs2, b, i - 1);
    }
}

/// Pair counts accumulate: later prefixes hold at least as many pairs.
proof fn lemma_pairs_upto_monotone<V>(bs: Seq<Vec<(u64, V)>>, i: int, i2: int)
    requires
        i <= i2,
    ensures
        pairs_upto(bs, i) <= pairs_upto(bs, i2),
    decreases i2,
{
    if i < i2 && i2 > 0 {
        lemma_pairs_upto_monotone(bs, i, i2 - 1);
    }
}

/// Where each bucket's pairs land in the flattened sequence.
proof fn lemma_flatten_index<V>(bs: Seq<Vec<(u64, V)>>, n: int, i: int, j: int)
    requires
        0 <= i < n <= bs.len(),
        0 <= j < bs[i]@.len(),
    ensures
        0 <= pairs_upto(bs, i) + j < pairs_upto(bs, n),
        flatten_buckets(bs, n)[pairs_upto(bs, i) + j] == bs[i]@[j],
    decreases n,
{
    lemma_pairs_upto_monotone(bs, 0, i);
    if i == n - 1 {
    } else {
        lemma_flatten_index(bs, n - 1, i, j);
    }
}

/// A chaining hash table from machine-word keys to values; the map it
/// represents is its view.
pub struct HashMap<V> {
    seed: u64,
    buckets: Vec<Vec<(u64, V)>>,
    bucket_count: usize,
    size: usize,
}

impl<V> View for HashMap<V> {
    type V = Map<u64, V>;

    /// The abstract map: a key is present when its own bucket holds it.
    closed spec fn view(&self) -> Map<u64, V> {
        Map::new(
            |k: u64|
                0 < self.bucket_count && bucket_has_key(
                    self.buckets@[bucket_of(self.seed, k, self.bucket_count as int)]@,
                    k,
                ),
            |k: u64|
                bucket_value_of(
                    self.buckets@[bucket_of(self.seed, k, self.bucket_count as int)]@,
                    k,
                ),
        )
    }
}

impl<V> HashMap<V> {
    /// Internal consistency: the bucket vector matches the bucket count,
    /// the stored size counts the pairs, every key sits in its own
    /// bucket, and no bucket repeats a key.
    pub closed spec fn wf(&self) -> bool {
        &&& 0 < self.bucket_count
        &&& self.buckets@.len() == self.bucket_count
        &&& self.size == pairs_upto(self.buckets@, self.buckets@.len() as int)
        &&& forall|i: int| 0 <= i < self.buckets@.len() ==> bucket_keys_distinct(
            #[trigger] self.buckets@[i]@,
        )
        &&& forall|i: int, j: int|
            0 <= i < self.buckets@.len() && 0 <= j < self.buckets@[i]@.len() ==> bucket_of(
                self.seed,
                (#[trigger] self.buckets@[i]@[j]).0,
                self.bucket_count as int,
            ) == i
    }

    /// How many pairs the table holds.
    pub closed spec fn spec_len(&self) -> int {
        self.size as int
    }

    /// All pairs in bucket order: what iteration yields.
    pub closed spec fn entries(&self) -> Seq<(u64, V)> {
        flatten_buckets(self.buckets@, self.buckets@.len() as int)
    }

    /// An empty table with sixteen buckets and the given hash seed.
    pub fn with_seed(seed: u64) -> (r: Self)
        ensures
            r.wf(),
            r@ == Map::<u64, V>::empty(),
            r.spec_len() == 0,
    {
        let mut buckets: Vec<Vec<(u64, V)>> = Vec::new();
        let mut i: usize = 0;
        while i < 16
            invariant
                i <= 16,
                buckets@.len() == i,
                forall|m: int| 0 <= m < i ==> (#[trigger] buckets@[m])@.len() == 0,
            decreases 16 - i,
        {
            buckets.push(Vec::new());
            i = i + 1;
        }
        let r = HashMap { seed, buckets, bucket_count: 16, size: 0 };
        proof {
            lemma_flatten_all_empty(r.buckets@, 16);
            assert forall|k: u64| !(#[trigger] r@.dom().contains(k)) by {
                lemma_mod_bound(key_hash(seed, k) as int, 16);
            }
            assert(r@ =~= Map::<u64, V>::empty());
        }
        r
    }

    /// An empty table with the default seed.
    pub fn new() -> (r: Self)
        ensures
            r.wf(),
            r@ == Map::<u64, V>::empty(),
            r.spec_len() == 0,
    {
        Self::with_seed(0)
    }

    /// How many pairs the table holds. Together with the contracts of
    /// `new` and `insert` this is exactly the number of distinct keys
    /// ever inserted and still distinct.
    pub fn size(&self) -> (r: usize)
        ensures
            r == self.spec_len(),
    {
        self.size
    }

    /// The bucket index for `key`, computed by hashing its bytes with
    /// the table's seed and reducing modulo the bucket count.
    fn hash(&self, key: &u64) -> (r: u64)
        requires
            0 < self.bucket_count,
        ensures
            r == bucket_of(self.seed, *key, self.bucket_count as int),
            r < self.bucket_count,
    {
        proof {
            reveal(key_hash);
        }
        let bytes = key_to_bytes(*key);
        let mut hasher = SimpleHasher::new(self.seed);
        hasher.write(bytes.as_slice());
        let h = hasher.finish();
        h % (self.bucket_count as u64)
    }

    /// Store `value` under `key` without ever resizing: the pair replaces
    /// an equal key in its bucket or is appended to that bucket.
    fn insert_pair(&mut self, key: u64, value: V)
        requires
            old(self).wf(),
            old(self).size < usize::MAX,
        ensures
            final(self).wf(),
            final(self)@ == old(self)@.insert(key, value),
            final(self).spec_len() == old(self).spec_len() + (if old(self)@.dom().contains(key) {
                0int
            } else {
                1int
            }),
            final(self).seed == old(self).seed,
            final(self).bucket_count == old(self).bucket_count,
    {
        let ghost pre = *self;
        let ghost n = self.bucket_count as int;
        let ghost bs0 = self.buckets@;
        let b = self.hash(&key) as usize;
        let ghost bi = b as int;
        let ghost es0 = bs0[bi]@;
        match find_key_in_bucket(&self.buckets[b], key) {
            Some(j) => {
                let bucket = &mut self.buckets[b];
                let slot = &mut bucket[j];
                *slot = (key, value);
                proof {
                    let nb = self.buckets@[bi]@;
                    assert(self.buckets@ =~= bs0.update(bi, self.buckets@[bi]));
                    assert(nb =~= es0.update(j as int, (key, value)));
                    assert forall|m: int| 0 <= m < nb.len() implies (#[trigger] nb[m]).0
                        == es0[m].0 by {}
                    lemma_flatten_update_len(bs0, self.buckets@, bi, bs0.len() as int);
                    assert(self.wf());
                    Self::lemma_insert_view(pre, *self, key, value, j as int);
                }
            },
            None => {
                let bucket = &mut self.buckets[b];
                bucket.push((key, value));
                self.size = self.size + 1;
                proof {
                    let nb = self.buckets@[bi]@;
                    assert(self.buckets@ =~= bs0.update(bi, self.buckets@[bi]));
                    assert(nb =~= es0.push((key, value)));
                    lemma_flatten_update_len(bs0, self.buckets@, bi, bs0.len() as int);
                    assert(!pre@.dom().contains(key));
                    assert(self.wf());
                    Self::lemma_insert_view(pre, *self, key, value, es0.len() as int);
                }
            },
        }
    }

    /// A cursor over all pairs of the table, bucket by bucket.
    pub fn iter(&self) -> (r: Iter<'_, V>)
        requires
            self.wf(),
        ensures
            r.wf(),
            r.position() == 0,
            r.stream() == self.entries(),
            r.stream().len() == self.spec_len(),
    {
        Iter { buckets: self.buckets.as_slice(), index1: 0, index2: 0 }
    }

    /// Law: iteration and the map agree. Every pair the cursor yields is
    /// a binding of the map, and every binding of the map is yielded at
    /// some position.
    pub proof fn lemma_entries_match_view(&self)
        requires
            self.wf(),
        ensures
            forall|t: int|
                0 <= t < self.entries().len() ==> #[trigger] self@.dom().contains(
                    self.entries()[t].0,
                ) && self@[self.entries()[t].0] == self.entries()[t].1,
            forall|k: u64| #[trigger]
                self@.dom().contains(k) ==> exists|t: int|
                    0 <= t < self.entries().len() && self.entries()[t] == (k, self@[k]),
    {
        let bs = self.buckets@;
        let n = self.bucket_count as int;
        assert forall|t: int| 0 <= t < self.entries().len() implies #[trigger] self@.dom().contains(
            self.entries()[t].0,
        ) && self@[self.entries()[t].0] == self.entries()[t].1 by {
            lemma_flatten_at(bs, bs.len() as int, t);
            let (i, j): (int, int) = choose|i: int, j: int|
                0 <= i < bs.len() && 0 <= j < bs[i]@.len() && flatten_buckets(
                    bs,
                    bs.len() as int,
                )[t] == bs[i]@[j];
            let k = bs[i]@[j].0;
            assert(bucket_of(self.seed, k, n) == i);
            lemma_bucket_value_at(bs[i]@, k, j);
        }
        assert forall|k: u64| #[trigger] self@.dom().contains(k) implies exists|t: int|
            0 <= t < self.entries().len() && self.entries()[t] == (k, self@[k]) by {
            lemma_mod_bound(key_hash(self.seed, k) as int, n);
            let bk = bucket_of(self.seed, k, n);
            let jj = choose|jj: int| 0 <= jj < bs[bk]@.len() && bs[bk]@[jj].0 == k;
            lemma_bucket_value_at(bs[bk]@, k, jj);
            lemma_flatten_index(bs, bs.len() as int, bk, jj);
            assert(self.entries()[pairs_upto(bs, bk) + jj] == (k, self@[k]));
        }
    }

    /// Store `value` under `key`: the pair replaces an equal key or joins
    /// the table, and the table doubles its bucket count when the load
    /// grows past two pairs per bucket.
    pub fn insert(&mut self, key: u64, value: V)
        requires
            old(self).wf(),
            old(self).spec_len() < usize::MAX,
        ensures
            final(self).wf(),
            final(self)@ == old(self)@.insert(key, value),
            final(self).spec_len() == old(self).spec_len() + (if old(self)@.dom().contains(key) {
                0int
            } else {
                1int
            }),
    {
        self.insert_pair(key, value);
        if self.bucket_count <= usize::MAX / 2 && self.size > self.bucket_count * 2 {
            self.rehash();
        }
    }

    /// Double the bucket count and move every pair into the bucket its
    /// hash selects under the new count; the map itself is unchanged.
    #[verifier::loop_isolation(false)]
    fn rehash(&mut self)
        requires
            old(self).wf(),
            old(self).bucket_count * 2 <= usize::MAX,
        ensures
            final(self).wf(),
            final(self)@ == old(self)@,
            final(self).spec_len() == old(self).spec_len(),
            final(self).seed == old(self).seed,
    {
        let ghost pre = *self;
        let ghost bs0 = self.buckets@;
        let ghost n0 = self.bucket_count as int;
        let new_count = self.bucket_count * 2;
        let mut old_buckets: Vec<Vec<(u64, V)>> = Vec::new();
        core::mem::swap(&mut old_buckets, &mut self.buckets);
        self.bucket_count = new_count;
        self.size = 0;
        let mut i: usize = 0;
        while i < new_count
            invariant
                i <= new_count,
                self.buckets@.len() == i,
                self.bucket_count == new_count,
                self.seed == pre.seed,
                self.size == 0,
                forall|m: int| 0 <= m < i ==> (#[trigger] self.buckets@[m])@.len() == 0,
            decreases new_count - i,
        {
            self.buckets.push(Vec::new());
            i = i + 1;
        }
        proof {
            lemma_flatten_all_empty(self.buckets@, self.buckets@.len() as int);
            assert forall|k: u64| !(#[trigger] self@.dom().contains(k)) by {
                lemma_mod_bound(key_hash(self.seed, k) as int, self.bucket_count as int);
            }
            assert forall|k: u64| pre@.dom().contains(k) implies in_remaining(
                old_buckets@,
                k,
            ) by {
                lemma_mod_bound(key_hash(pre.seed, k) as int, n0);
                let bb = bucket_of(pre.seed, k, n0);
                let jj = choose|jj: int| 0 <= jj < bs0[bb]@.len() && bs0[bb]@[jj].0 == k;
                assert(old_buckets@[bb]@[jj].0 == k);
            }
            assert forall|m: int| 0 <= m < old_buckets@.len() implies (#[trigger] old_buckets@[m])@
                == bs0[m]@.take(old_buckets@[m]@.len() as int) by {
                assert(bs0[m]@.take(bs0[m]@.len() as int) =~= bs0[m]@);
            }
        }
        let mut bi: usize = 0;
        while bi < old_buckets.len()
            invariant
                pre.wf(),
                bi <= old_buckets@.len(),
                old_buckets@.len() == bs0.len(),
                self.wf(),
                self.seed == pre.seed,
                forall|m: int|
                    0 <= m < old_buckets@.len() ==> (#[trigger] old_buckets@[m])@.len()
                        <= bs0[m]@.len() && old_buckets@[m]@ == bs0[m]@.take(
                        old_buckets@[m]@.len() as int,
                    ),
                forall|m: int| 0 <= m < bi ==> (#[trigger] old_buckets@[m])@.len() == 0,
                forall|k: u64| #[trigger]
                    self@.dom().contains(k) ==> pre@.dom().contains(k) && self@[k] == pre@[k],
                forall|k: u64| #[trigger]
                    pre@.dom().contains(k) ==> self@.dom().contains(k) || in_remaining(
                        old_buckets@,
                        k,
                    ),
                forall|k: u64| #[trigger] self@.dom().contains(k) ==> !in_remaining(old_buckets@, k),
                self.spec_len() + pairs_upto(old_buckets@, old_buckets@.len() as int)
                    == pre.spec_len(),
            decreases old_buckets@.len() - bi,
        {
            while old_buckets[bi].len() > 0
                invariant
                    pre.wf(),
                    bi < old_buckets@.len(),
                    old_buckets@.len() == bs0.len(),
                    self.wf(),
                    self.seed == pre.seed,
                    forall|m: int|
                        0 <= m < old_buckets@.len() ==> (#[trigger] old_buckets@[m])@.len()
                            <= bs0[m]@.len() && old_buckets@[m]@ == bs0[m]@.take(
                            old_buckets@[m]@.len() as int,
                        ),
                    forall|m: int| 0 <= m < bi ==> (#[trigger] old_buckets@[m])@.len() == 0,
                    forall|k: u64| #[trigger]
                        self@.dom().contains(k) ==> pre@.dom().contains(k) && self@[k] == pre@[k],
                    forall|k: u64| #[trigger]
                        pre@.dom().contains(k) ==> self@.dom().contains(k) || in_remaining(
                            old_buckets@,
                            k,
                        ),
                    forall|k: u64| #[trigger]
                        self@.dom().contains(k) ==> !in_remaining(old_buckets@, k),
                    self.spec_len() + pairs_upto(old_buckets@, old_buckets@.len() as int)
                        == pre.spec_len(),
                decreases old_buckets@[bi as int]@.len(),
            {
                let ghost obs_before = old_buckets@;
                let ghost ell = old_buckets@[bi as int]@.len() as int;
                let bucket = &mut old_buckets[bi];
                let pair_opt = bucket.pop();
                let pair = pair_opt.unwrap();
                let ghost k = pair.0;
                proof {
                    assert(pair == bs0[bi as int]@[ell - 1]);
                    assert(old_buckets@ =~= obs_before.update(bi as int, old_buckets@[bi as int]));
                    assert(old_buckets@[bi as int]@ =~= bs0[bi as int]@.take(ell - 1));
                    lemma_flatten_update_len(obs_before, old_buckets@, bi as int, obs_before.len() as int);
                    // the popped pair was already in the table before the
                    // resize, so it is the one its old bucket holds for
                    // that key
                    assert(bucket_of(pre.seed, k, n0) == bi as int);
                    lemma_bucket_value_at(bs0[bi as int]@, k, ell - 1);
                    assert(pre@.dom().contains(k) && pre@[k] == pair.1);
                    // it was never inserted before: it was still remaining
                    assert(in_remaining(obs_before, k));
                    assert(!self@.dom().contains(k));
                    assert(self.spec_len() < pre.spec_len());
                }
                let ghost table_before = *self;
                self.insert_pair(pair.0, pair.1);
                proof {
                    assert(self@ == table_before@.insert(k, pair.1));
                    // every key still remaining keeps its witness: only
                    // the popped slot disappeared, and it held `k`
                    assert forall|k2: u64| #[trigger]
                        pre@.dom().contains(k2) implies self@.dom().contains(k2) || in_remaining(
                        old_buckets@,
                        k2,
                    ) by {
                        if k2 != k && !table_before@.dom().contains(k2) {
                            if in_remaining(obs_before, k2) {
                                let (m, jj): (int, int) = choose|m: int, jj: int|
                                    0 <= m < obs_before.len() && 0 <= jj < obs_before[m]@.len()
                                        && obs_before[m]@[jj].0 == k2;
                                if m == bi as int && jj == ell - 1 {
                                    assert(false);
                                } else {
                                    assert(old_buckets@[m]@[jj].0 == k2);
                                }
                            }
                        }
                    }
                    // no key of the table is still remaining: the popped
                    // slot was the only place `k` ever sat
                    assert forall|k2: u64| #[trigger]
                        self@.dom().contains(k2) implies !in_remaining(old_buckets@, k2) by {
                        if in_remaining(old_buckets@, k2) {
                            let (m, jj): (int, int) = choose|m: int, jj: int|
                                0 <= m < old_buckets@.len() && 0 <= jj < old_buckets@[m]@.len()
                                    && old_buckets@[m]@[jj].0 == k2;
                            assert(bs0[m]@[jj].0 == k2);
                            assert(in_remaining(obs_before, k2));
                            if k2 == k {
                                Self::lemma_key_positions(
                                    bs0,
                                    pre.seed,
                                    n0,
                                    m,
                                    jj,
                                    bi as int,
                                    ell - 1,
                                );
                            }
                        }
                    }
                }
            }
            bi = bi + 1;
        }
        proof {
            lemma_flatten_all_empty(old_buckets@, old_buckets@.len() as int);
            assert forall|k: u64| !in_remaining(old_buckets@, k) by {}
            assert(self@ =~= pre@);
        }
    }

    /// Two occupied slots carrying the same key in a table that places
    /// every key in its own bucket and repeats no key within a bucket
    /// are the same slot.
    proof fn lemma_key_positions(
        bs: Seq<Vec<(u64, V)>>,
        seed: u64,
        n: int,
        m1: int,
        j1: int,
        m2: int,
        j2: int,
    )
        requires
            forall|i: int| 0 <= i < bs.len() ==> bucket_keys_distinct(#[trigger] bs[i]@),
            forall|i: int, j: int|
                0 <= i < bs.len() && 0 <= j < bs[i]@.len() ==> bucket_of(
                    seed,
                    (#[trigger] bs[i]@[j]).0,
                    n,
                ) == i,
            0 <= m1 < bs.len(),
            0 <= j1 < bs[m1]@.len(),
            0 <= m2 < bs.len(),
            0 <= j2 < bs[m2]@.len(),
            bs[m1]@[j1].0 == bs[m2]@[j2].0,
        ensures
            m1 == m2,
            j1 == j2,
    {
        assert(bucket_of(seed, bs[m1]@[j1].0, n) == m1);
        assert(bucket_of(seed, bs[m2]@[j2].0, n) == m2);
        if j1 != j2 {
            assert(bs[m1]@[j1].0 != bs[m1]@[j2].0);
        }
    }

    /// After writing the pair `(key, value)` at index `j` of its bucket
    /// (replacing the key in place or appending), the table's map is the
    /// old map with `key` bound to `value`.
    #[verifier::rlimit(100)]
    proof fn lemma_insert_view(pre: Self, post: Self, key: u64, value: V, j: int)
        requires
            pre.wf(),
            post.wf(),
            post.seed == pre.seed,
            post.bucket_count == pre.bucket_count,
            post.buckets@ == pre.buckets@.update(
                bucket_of(pre.seed, key, pre.bucket_count as int),
                post.buckets@[bucket_of(pre.seed, key, pre.bucket_count as int)],
            ),
            0 <= j,
            (j < pre.buckets@[bucket_of(pre.seed, key, pre.bucket_count as int)]@.len()
                && post.buckets@[bucket_of(pre.seed, key, pre.bucket_count as int)]@
                == pre.buckets@[
                bucket_of(pre.seed, key, pre.bucket_count as int)
            ]@.update(j, (key, value)) && pre.buckets@[bucket_of(
                pre.seed,
                key,
                pre.bucket_count as int,
            )]@[j].0 == key) || (j == pre.buckets@[bucket_of(
                pre.seed,
                key,
                pre.bucket_count as int,
            )]@.len() && post.buckets@[bucket_of(pre.seed, key, pre.bucket_count as int)]@
                == pre.buckets@[bucket_of(pre.seed, key, pre.bucket_count as int)]@.push(
                (key, value),
            )),
        ensures
            post@ == pre@.insert(key, value),
    {
        let n = pre.bucket_count as int;
        let seed = pre.seed;
        let bi = bucket_of(seed, key, n);
        let es0 = pre.buckets@[bi]@;
        let nb = post.buckets@[bi]@;
        lemma_mod_bound(key_hash(seed, key) as int, n);
        if j < es0.len() {
            assert(nb == es0.update(j, (key, value)) && es0[j].0 == key);
            assert(nb.len() == es0.len());
        } else {
            assert(j == es0.len());
            assert(nb == es0.push((key, value)));
        }
        assert(nb[j] == (key, value));
        assert forall|k: u64| #[trigger] post@.dom().contains(k) == pre@.insert(
            key,
            value,
        ).dom().contains(k) by {
            lemma_mod_bound(key_hash(seed, k) as int, n);
            let bk = bucket_of(seed, k, n);
            if k == key {
                assert(bucket_has_key(nb, k));
            } else if bk == bi {
                if bucket_has_key(es0, k) {
                    let jj = choose|jj: int| 0 <= jj < es0.len() && es0[jj].0 == k;
                    assert(nb[jj].0 == k);
                    assert(bucket_has_key(nb, k));
                }
                if bucket_has_key(nb, k) {
                    let jj = choose|jj: int| 0 <= jj < nb.len() && nb[jj].0 == k;
                    assert(jj != j);
                    assert(es0[jj].0 == k);
                    assert(bucket_has_key(es0, k));
                }
            }
        }
        assert forall|k: u64| post@.dom().contains(k) implies #[trigger] post@[k] == pre@.insert(
            key,
            value,
        )[k] by {
            lemma_mod_bound(key_hash(seed, k) as int, n);
            let bk = bucket_of(seed, k, n);
            if k == key {
                lemma_bucket_value_at(nb, key, j);
            } else if bk == bi {
                let jj = choose|jj: int| 0 <= jj < nb.len() && nb[jj].0 == k;
                assert(jj != j);
                assert(es0[jj] == nb[jj]);
                lemma_bucket_value_at(nb, k, jj);
                lemma_bucket_value_at(es0, k, jj);
            }
        }
        assert(post@ =~= pre@.insert(key, value));
    }
}

/// The index of the pair carrying `key`, if the bucket has one.
fn find_key_in_bucket<V>(bucket: &Vec<(u64, V)>, key: u64) -> (r: Option<usize>)
    ensures
        match r {
            Some(j) => j < bucket@.len() && bucket@[j as int].0 == key,
            None => !bucket_has_key(bucket@, key),
        },
{
    let mut j: usize = 0;
    while j < bucket.len()
        invariant
            j <= bucket@.len(),
            forall|m: int| 0 <= m < j ==> bucket@[m].0 != key,
        decreases bucket@.len() - j,
    {
        if bucket[j].0 == key {
            return Some(j);
        }
        j = j + 1;
    }
    None
}

/// A cursor over a table's pairs, bucket by bucket.
pub struct Iter<'a, V> {
    buckets: &'a [Vec<(u64, V)>],
    index1: usize,
    index2: usize,
}

impl<'a, V> Iter<'a, V> {
    /// The pairs the iteration walks, in order.
    pub closed spec fn stream(&self) -> Seq<(u64, V)> {
        flatten_buckets(self.buckets@, self.buckets@.len() as int)
    }

    /// How many pairs have been handed out already.
    pub closed spec fn position(&self) -> int {
        pairs_upto(self.buckets@, self.index1 as int) + self.index2
    }

    /// The cursor points at a pair of some bucket, or past everything.
    pub closed spec fn wf(&self) -> bool {
        &&& self.index1 <= self.buckets@.len()
        &&& (self.index1 < self.buckets@.len() ==> self.index2
            <= self.buckets@[self.index1 as int]@.len())
        &&& (self.index1 == self.buckets@.len() ==> self.index2 == 0)
    }

    /// Hand out the next pair in bucket order, skipping exhausted
    /// buckets, or nothing once every pair has been seen.
    #[verifier::loop_isolation(false)]
    pub fn next(&mut self) -> (r: Option<&'a (u64, V)>)
        requires
            old(self).wf(),
        ensures
            final(self).wf(),
            final(self).stream() == old(self).stream(),
            old(self).position() < old(self).stream().len() ==> (r matches Some(p)
                && *p == old(self).stream()[old(self).position()]
                && final(self).position() == old(self).position() + 1),
            old(self).position() >= old(self).stream().len() ==> r is None
                && final(self).position() == old(self).position(),
    {
        let bs: &'a [Vec<(u64, V)>] = self.buckets;
        while self.index1 < bs.len()
            invariant
                self.buckets@ == bs@,
                self.wf(),
                self.position() == old(self).position(),
            decreases bs@.len() - self.index1,
        {
            if self.index2 < bs[self.index1].len() {
                let p = &bs[self.index1][self.index2];
                proof {
                    lemma_flatten_index(
                        bs@,
                        bs@.len() as int,
                        self.index1 as int,
                        self.index2 as int,
                    );
                }
                self.index2 = self.index2 + 1;
                return Some(p);
            }
            self.index1 = self.index1 + 1;
            self.index2 = 0;
        }
        None
    }
}

/// Every position of the flattened sequence reads some bucket's pair.
proof fn lemma_flatten_at<V>(bs: Seq<Vec<(u64, V)>>, n: int, t: int)
    requires
        0 <= n <= bs.len(),
        0 <= t < pairs_upto(bs, n),
    ensures
        exists|i: int, j: int|
            0 <= i < n && 0 <= j < bs[i]@.len() && flatten_buckets(bs, n)[t] == bs[i]@[j],
    decreases n,
{
    if t < pairs_upto(bs, n - 1) {
        lemma_flatten_at(bs, n - 1, t);
        let (i, j): (int, int) = choose|i: int, j: int|
            0 <= i < n - 1 && 0 <= j < bs[i]@.len() && flatten_buckets(bs, n - 1)[t] == bs[i]@[j];
        assert(flatten_buckets(bs, n)[t] == bs[i]@[j]);
    } else {
        let j = t - pairs_upto(bs, n - 1);
        assert(flatten_buckets(bs, n)[t] == bs[n - 1]@[j]);
    }
}

/// A sequence of empty buckets flattens to no pairs at all.
proof fn lemma_flatten_all_empty<V>(bs: Seq<Vec<(u64, V)>>, i: int)
    requires
        forall|m: int| 0 <= m < i ==> (#[trigger] bs[m])@.len() == 0,
    ensures
        pairs_upto(bs, i) == 0,
    decreases i,
{
    if i > 0 {
        lemma_flatten_all_empty(bs, i - 1);
    }
}

} // verus!
