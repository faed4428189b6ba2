//! The approximate index: bucket tables keyed by hash digits, and the policy
//! that picks the bucket width.
use crate::shared::CompareTask;
use std::collections::HashMap;
use std::collections::HashSet;
use vstd::prelude::*;
use vstd::std_specs::hash::*;

verus! {

/// The bucket width chosen for a similarity threshold given in percent.
///
/// A step function over an ordered table of threshold bounds: the looser the
/// match that is asked for, the wider the buckets.
pub open spec fn bucket_width(threshold: int) -> int {
    if threshold < 10 {
        140
    } else if threshold < 20 {
        130
    } else if threshold < 30 {
        120
    } else if threshold < 40 {
        110
    } else if threshold < 60 {
        100
    } else if threshold < 70 {
        80
    } else if threshold < 80 {
        70
    } else if threshold < 90 {
        60
    } else if threshold < 95 {
        30
    } else {
        25
    }
}

/// Picks the bucket width of the hash family for a threshold in percent.
pub fn get_bucket_width(threshold: u8) -> (width: u32)
    ensures
        width == bucket_width(threshold as int),
        25 <= width <= 140,
{
    if threshold < 10 {
        140
    } else if threshold < 20 {
        130
    } else if threshold < 30 {
        120
    } else if threshold < 40 {
        110
    } else if threshold < 60 {
        100
    } else if threshold < 70 {
        80
    } else if threshold < 80 {
        70
    } else if threshold < 90 {
        60
    } else if threshold < 95 {
        30
    } else {
        25
    }
}

/// The bucket width never grows with the threshold: a stricter threshold
/// gets buckets that are as narrow or narrower.
pub proof fn lemma_bucket_width_monotone(lower: int, higher: int)
    requires
        lower <= higher,
    ensures
        bucket_width(lower) >= bucket_width(higher),
{
}

/// One stored vector in one bucket: the bucket's key and the vector's dense
/// index.
struct Entry {
    key: Vec<i8>,
    index: usize,
}

/// The indices of the entries filed under `key`, in the order in which they
/// were filed.
spec fn matching(entries: Seq<Entry>, key: Seq<i8>) -> Seq<usize>
    decreases entries.len(),
{
    if entries.len() == 0 {
        Seq::empty()
    } else {
        let rest = matching(entries.drop_last(), key);
        if entries.last().key@ == key {
            rest.push(entries.last().index)
        } else {
            rest
        }
    }
}

/// One step of the fingerprint: the next digit folded into `hash`.
spec fn mix(hash: u64, digit: i8) -> u64 {
    ((hash as int * 0x100_0000_01b3 + (digit as int + 128)) % 0x1_0000_0000_0000_0000) as u64
}

/// A fingerprint of a bucket key, under which its entries are filed.
spec fn fingerprint(key: Seq<i8>) -> u64
    decreases key.len(),
{
    if key.len() == 0 {
        0xcbf2_9ce4_8422_2325
    } else {
        mix(fingerprint(key.drop_last()), key.last())
    }
}

fn compute_fingerprint(key: &Vec<i8>) -> (hash: u64)
    ensures
        hash == fingerprint(key@),
{
    let mut hash: u64 = 0xcbf2_9ce4_8422_2325;
    let mut i: usize = 0;
    assert(key@.take(0) =~= Seq::<i8>::empty());
    while i < key.len()
        invariant
            0 <= i <= key.len(),
            hash == fingerprint(key@.take(i as int)),
        decreases key.len() - i,
    {
        let digit: u128 = (key[i] as i16 + 128) as u128;
        let wide: u128 = hash as u128 * 0x100_0000_01b3 + digit;
        proof {
            assert(key@.take(i + 1).drop_last() =~= key@.take(i as int));
            assert(key@.take(i + 1).last() == key@[i as int]);
        }
        hash = (wide % 0x1_0000_0000_0000_0000) as u64;
        i += 1;
    }
    assert(key@.take(key.len() as int) =~= key@);
    hash
}

fn same_key(a: &Vec<i8>, b: &Vec<i8>) -> (same: bool)
    ensures
        same == (a@ == b@),
{
    if a.len() != b.len() {
        return false;
    }
    let mut i: usize = 0;
    while i < a.len()
        invariant
            0 <= i <= a.len(),
            a.len() == b.len(),
            forall|j: int| 0 <= j < i ==> a@[j] == b@[j],
        decreases a.len() - i,
    {
        if a[i] != b[i] {
            return false;
        }
        i += 1;
    }
    assert(a@ =~= b@);
    true
}

fn copy_key(key: &Vec<i8>) -> (copy: Vec<i8>)
    ensures
        copy@ == key@,
{
    let mut copy: Vec<i8> = Vec::with_capacity(key.len());
    let mut i: usize = 0;
    while i < key.len()
        invariant
            0 <= i <= key.len(),
            copy@ == key@.take(i as int),
        decreases key.len() - i,
    {
        copy.push(key[i]);
        assert(key@.take(i + 1) =~= key@.take(i as int).push(key@[i as int]));
        i += 1;
    }
    assert(key@.take(key.len() as int) =~= key@);
    copy
}

/// One hash table of the index: it maps a bucket key, a tuple of hash
/// digits, to the dense indices of the vectors that hashed to it, in the
/// order in which they were stored.
pub struct BucketTable {
    slots: HashMap<u64, Vec<Entry>>,
}

impl BucketTable {
    /// The dense indices stored under `key`, oldest first; none where
    /// nothing was stored under it.
    pub closed spec fn bucket(&self, key: Seq<i8>) -> Seq<usize> {
        if self.slots@.contains_key(fingerprint(key)) {
            matching(self.slots@[fingerprint(key)]@, key)
        } else {
            Seq::empty()
        }
    }

    /// A table with no buckets.
    pub fn new() -> (table: BucketTable)
        ensures
            forall|key: Seq<i8>| #[trigger] table.bucket(key) == Seq::<usize>::empty(),
    {
        BucketTable { slots: HashMap::new() }
    }

    /// The dense indices stored under `key`, oldest first.
    pub fn members(&self, key: &Vec<i8>) -> (members: Vec<usize>)
        ensures
            members@ == self.bucket(key@),
    {
        broadcast use group_hash_axioms;

        let hash = compute_fingerprint(key);
        let mut members: Vec<usize> = Vec::new();
        match self.slots.get(&hash) {
            Some(entries) => {
                let mut i: usize = 0;
                assert(entries@.take(0) =~= Seq::<Entry>::empty());
                while i < entries.len()
                    invariant
                        0 <= i <= entries.len(),
                        members@ == matching(entries@.take(i as int), key@),
                    decreases entries.len() - i,
                {
                    proof {
                        assert(entries@.take(i + 1).drop_last() =~= entries@.take(i as int));
                        assert(entries@.take(i + 1).last() == entries@[i as int]);
                    }
                    if same_key(&entries[i].key, key) {
                        members.push(entries[i].index);
                    }
                    i += 1;
                }
                assert(entries@.take(entries.len() as int) =~= entries@);
            },
            None => {},
        }
        members
    }

    /// Stores `index` under `key`, behind what is stored there already.
    pub fn append(&mut self, key: &Vec<i8>, index: usize)
        ensures
            final(self).bucket(key@) == old(self).bucket(key@).push(index),
            forall|other: Seq<i8>|
                other != key@ ==> #[trigger] final(self).bucket(other) == old(self).bucket(other),
    {
        broadcast use group_hash_axioms;

        let hash = compute_fingerprint(key);
        let mut entries = match self.slots.remove(&hash) {
            Some(entries) => entries,
            None => Vec::new(),
        };
        let ghost before = entries@;
        entries.push(Entry { key: copy_key(key), index });
        proof {
            assert(entries@.drop_last() =~= before);
            assert forall|other: Seq<i8>| other != key@ implies matching(entries@, other) == matching(
                before,
                other,
            ) by {}
        }
        self.slots.insert(hash, entries);
        proof {
            assert(matching(entries@, key@) == matching(before, key@).push(index));
            assert(matching(before, key@) == old(self).bucket(key@));
            assert(final(self).slots@[hash]@ == entries@);
            assert forall|other: Seq<i8>| other != key@ implies #[trigger] final(self).bucket(other)
                == old(self).bucket(other) by {
                if fingerprint(other) == hash {
                    assert(matching(entries@, other) == matching(before, other));
                }
            }
        }
    }
}

/// Why the index refused a vector.
#[derive(Debug, Clone, Copy, PartialEq, Eq, Structural)]
pub enum IndexError {
    /// The vector came with another number of bucket keys than the index
    /// has tables.
    KeyCount,
    /// Every dense index has been given out.
    Full,
}

/// What storing a vector gave: its dense index, and the pairs to compare.
#[derive(Debug)]
pub struct Insertion {
    /// The dense index given to the vector.
    pub index: usize,
    /// One task for each vector stored before that shares a bucket with it.
    pub tasks: Vec<CompareTask>,
}

/// The bucket keys of a vector, one for each table, as sequences of digits.
pub open spec fn key_views(keys: Seq<Vec<i8>>) -> Seq<Seq<i8>> {
    keys.map_values(|key: Vec<i8>| key@)
}

/// Two vectors share a bucket: in some table they have the same key.
pub open spec fn collides(stored: Seq<Seq<i8>>, keys: Seq<Seq<i8>>) -> bool {
    exists|t: int| 0 <= t < stored.len() && t < keys.len() && #[trigger] stored[t] == keys[t]
}

/// `task` pairs a vector that arrives with bucket keys `keys`, when `stored`
/// holds the keys of the vectors before it, with one of those that shares a
/// bucket with it.
pub open spec fn candidate(stored: Seq<Seq<Seq<i8>>>, keys: Seq<Seq<i8>>, task: CompareTask) -> bool {
    &&& task.index1 == stored.len()
    &&& task.index2 < stored.len()
    &&& collides(stored[task.index2 as int], keys)
}

/// The second index of each task.
pub open spec fn second_indices(tasks: Seq<CompareTask>) -> Seq<usize> {
    tasks.map_values(|task: CompareTask| task.index2)
}

/// The dense indices of the vectors whose key in table `t` is `key`, in
/// rising order.
spec fn colliding(stored: Seq<Seq<Seq<i8>>>, t: int, key: Seq<i8>) -> Seq<usize>
    decreases stored.len(),
{
    if stored.len() == 0 {
        Seq::empty()
    } else {
        let rest = colliding(stored.drop_last(), t, key);
        if stored.last()[t] == key {
            rest.push((stored.len() - 1) as usize)
        } else {
            rest
        }
    }
}

proof fn lemma_colliding_contains(stored: Seq<Seq<Seq<i8>>>, t: int, key: Seq<i8>, i: usize)
    requires
        stored.len() <= usize::MAX,
    ensures
        colliding(stored, t, key).contains(i) <==> i < stored.len() && stored[i as int][t] == key,
    decreases stored.len(),
{
    if stored.len() > 0 {
        let rest = colliding(stored.drop_last(), t, key);
        lemma_colliding_contains(stored.drop_last(), t, key, i);
        let last = (stored.len() - 1) as usize;
        if stored.last()[t] == key {
            assert(rest.push(last).contains(i) <==> rest.contains(i) || i == last) by {
                if rest.push(last).contains(i) {
                    let j = choose|j: int| 0 <= j < rest.push(last).len() && rest.push(last)[j] == i;
                    if j < rest.len() {
                        assert(rest[j] == i);
                    }
                }
                if rest.contains(i) {
                    let j = choose|j: int| 0 <= j < rest.len() && rest[j] == i;
                    assert(rest.push(last)[j] == i);
                }
                if i == last {
                    assert(rest.push(last)[rest.len() as int] == i);
                }
            }
        }
        if i < stored.len() - 1 {
            assert(stored.drop_last()[i as int] == stored[i as int]);
        }
    }
}

/// Some table before table `t` holds `i` in the bucket of the key for it.
spec fn hit_before(tables: Seq<BucketTable>, keys: Seq<Vec<i8>>, t: int, i: usize) -> bool {
    exists|u: int| 0 <= u < t && #[trigger] tables[u].bucket(keys[u]@).contains(i)
}

/// The approximate index: a fixed number of bucket tables, and a count of
/// the vectors stored.
///
/// A vector is known to the index by its bucket keys alone, one for each
/// table.  Each vector stored gets the next dense index, starting at zero.
pub struct ApproxIndex {
    tables: Vec<BucketTable>,
    count: usize,
    stored: Ghost<Seq<Seq<Seq<i8>>>>,
}

impl View for ApproxIndex {
    type V = Seq<Seq<Seq<i8>>>;

    /// The bucket keys of every vector stored, by dense index.
    closed spec fn view(&self) -> Seq<Seq<Seq<i8>>> {
        self.stored@
    }
}

impl ApproxIndex {
    /// The number of tables.
    pub closed spec fn table_count(&self) -> nat {
        self.tables@.len()
    }

    /// The tables hold exactly what was stored: the bucket of a key in a
    /// table lists the vectors that have that key in that table.
    pub closed spec fn wf(&self) -> bool {
        &&& self.count == self.stored@.len()
        &&& forall|i: int|
            0 <= i < self.stored@.len() ==> (#[trigger] self.stored@[i]).len() == self.tables@.len()
        &&& forall|t: int, key: Seq<i8>|
            0 <= t < self.tables@.len() ==> #[trigger] self.tables@[t].bucket(key) == colliding(
                self.stored@,
                t,
                key,
            )
    }

    /// An empty index of `n_tables` tables.
    pub fn new(n_tables: usize) -> (index: ApproxIndex)
        ensures
            index.wf(),
            index.table_count() == n_tables,
            index@ == Seq::<Seq<Seq<i8>>>::empty(),
    {
        let mut tables: Vec<BucketTable> = Vec::new();
        let mut t: usize = 0;
        while t < n_tables
            invariant
                0 <= t <= n_tables,
                tables@.len() == t,
                forall|u: int, key: Seq<i8>|
                    0 <= u < t ==> #[trigger] tables@[u].bucket(key) == Seq::<usize>::empty(),
            decreases n_tables - t,
        {
            tables.push(BucketTable::new());
            t += 1;
        }
        ApproxIndex { tables, count: 0, stored: Ghost(Seq::empty()) }
    }

    /// The number of vectors stored, which is the next dense index.
    pub fn len(&self) -> (count: usize)
        requires
            self.wf(),
        ensures
            count == self@.len(),
    {
        self.count
    }

    /// The number of tables.
    pub fn tables(&self) -> (count: usize)
        ensures
            count == self.table_count(),
    {
        self.tables.len()
    }

    /// The dense indices of the vectors stored that share a bucket with a
    /// vector whose bucket keys are `keys`: the union of its buckets over
    /// the tables, each index once.
    pub fn query_candidates(&self, keys: &Vec<Vec<i8>>) -> (result: Result<Vec<usize>, IndexError>)
        requires
            self.wf(),
        ensures
            result is Err <==> keys@.len() != self.table_count(),
            result matches Err(error) ==> error == IndexError::KeyCount,
            result matches Ok(found) ==> {
                &&& found@.no_duplicates()
                &&& forall|i: usize| #[trigger]
                    found@.contains(i) <==> i < self@.len() && collides(self@[i as int], key_views(keys@))
            },
    {
        broadcast use group_hash_axioms;

        if keys.len() != self.tables.len() {
            return Err(IndexError::KeyCount);
        }
        let mut seen: HashSet<usize> = HashSet::new();
        let mut found: Vec<usize> = Vec::new();
        let mut t: usize = 0;
        while t < self.tables.len()
            invariant
                0 <= t <= self.tables@.len(),
                keys@.len() == self.tables@.len(),
                found@.no_duplicates(),
                forall|i: usize| seen@.contains(i) <==> found@.contains(i),
                forall|i: usize| #[trigger] found@.contains(i) <==> hit_before(self.tables@, keys@, t as int, i),
            decreases self.tables@.len() - t,
        {
            let members = self.tables[t].members(&keys[t]);
            let mut j: usize = 0;
            assert(members@.take(0) =~= Seq::<usize>::empty());
            while j < members.len()
                invariant
                    0 <= j <= members@.len(),
                    0 <= t < self.tables@.len(),
                    keys@.len() == self.tables@.len(),
                    members@ == self.tables@[t as int].bucket(keys@[t as int]@),
                    found@.no_duplicates(),
                    forall|i: usize| seen@.contains(i) <==> found@.contains(i),
                    forall|i: usize| #[trigger]
                        found@.contains(i) <==> hit_before(self.tables@, keys@, t as int, i)
                            || members@.take(j as int).contains(i),
                decreases members@.len() - j,
            {
                let member = members[j];
                let ghost before = found@;
                let ghost seen_before = seen@;
                if !seen.contains(&member) {
                    seen.insert(member);
                    found.push(member);
                }
                proof {
                    assert(members@.take(j + 1) =~= members@.take(j as int).push(member));
                    assert forall|i: usize| #[trigger]
                        found@.contains(i) <==> hit_before(self.tables@, keys@, t as int, i)
                            || members@.take(j + 1).contains(i) by {
                        crate::shared::lemma_contains_push(before, member, i);
                        crate::shared::lemma_contains_push(members@.take(j as int), member, i);
                        assert(before.contains(i) <==> hit_before(self.tables@, keys@, t as int, i)
                            || members@.take(j as int).contains(i));
                    }
                    assert forall|i: usize| seen@.contains(i) <==> found@.contains(i) by {
                        crate::shared::lemma_contains_push(before, member, i);
                        assert(seen_before.contains(i) <==> before.contains(i));
                    }
                }
                j += 1;
            }
            proof {
                assert(members@.take(members@.len() as int) =~= members@);
                assert forall|i: usize| #[trigger]
                    found@.contains(i) <==> hit_before(self.tables@, keys@, t + 1, i) by {
                    if hit_before(self.tables@, keys@, t + 1, i) {
                        let u = choose|u: int|
                            0 <= u < t + 1 && #[trigger] self.tables@[u].bucket(keys@[u]@).contains(i);
                        if u == t {
                            assert(members@.contains(i));
                        } else {
                            assert(hit_before(self.tables@, keys@, t as int, i));
                        }
                    }
                    if hit_before(self.tables@, keys@, t as int, i) {
                        let u = choose|u: int|
                            0 <= u < t && #[trigger] self.tables@[u].bucket(keys@[u]@).contains(i);
                        assert(self.tables@[u].bucket(keys@[u]@).contains(i));
                    }
                    if members@.contains(i) {
                        assert(self.tables@[t as int].bucket(keys@[t as int]@).contains(i));
                    }
                }
            }
            t += 1;
        }
        proof {
            let views = key_views(keys@);
            assert forall|i: usize| #[trigger]
                found@.contains(i) <==> i < self@.len() && collides(self@[i as int], views) by {
                if found@.contains(i) {
                    let u = choose|u: int|
                        0 <= u < self.tables@.len() && #[trigger] self.tables@[u].bucket(
                            keys@[u]@,
                        ).contains(i);
                    lemma_colliding_contains(self.stored@, u, keys@[u]@, i);
                    assert(self.tables@[u].bucket(keys@[u]@) == colliding(self.stored@, u, keys@[u]@));
                    assert(self.stored@[i as int][u] == views[u]);
                    assert(self.stored@[i as int].len() == self.tables@.len());
                }
                if i < self@.len() && collides(self@[i as int], views) {
                    let u = choose|u: int|
                        0 <= u < self@[i as int].len() && u < views.len() && #[trigger] self@[i as int][u]
                            == views[u];
                    assert(self.stored@[i as int].len() == self.tables@.len());
                    lemma_colliding_contains(self.stored@, u, keys@[u]@, i);
                    assert(self.tables@[u].bucket(keys@[u]@) == colliding(self.stored@, u, keys@[u]@));
                    assert(self.tables@[u].bucket(keys@[u]@).contains(i));
                    assert(hit_before(self.tables@, keys@, self.tables@.len() as int, i));
                }
            }
        }
        Ok(found)
    }

    /// Stores a vector whose bucket keys are `keys`: gives it the next dense
    /// index and files that index under its key in every table.
    pub fn insert(&mut self, keys: &Vec<Vec<i8>>) -> (result: Result<usize, IndexError>)
        requires
            old(self).wf(),
        ensures
            final(self).wf(),
            final(self).table_count() == old(self).table_count(),
            match result {
                Ok(index) => {
                    &&& keys@.len() == old(self).table_count()
                    &&& index == old(self)@.len()
                    &&& final(self)@ == old(self)@.push(key_views(keys@))
                },
                Err(IndexError::KeyCount) => {
                    &&& keys@.len() != old(self).table_count()
                    &&& final(self)@ == old(self)@
                },
                Err(IndexError::Full) => {
                    &&& keys@.len() == old(self).table_count()
                    &&& old(self)@.len() == usize::MAX
                    &&& final(self)@ == old(self)@
                },
            },
    {
        if keys.len() != self.tables.len() {
            return Err(IndexError::KeyCount);
        }
        if self.count == usize::MAX {
            return Err(IndexError::Full);
        }
        let index = self.count;
        let ghost before = self.stored@;
        let ghost after = before.push(key_views(keys@));
        let mut t: usize = 0;
        while t < self.tables.len()
            invariant
                0 <= t <= self.tables@.len(),
                self.tables@.len() == old(self).tables@.len(),
                keys@.len() == self.tables@.len(),
                self.count == index,
                self.stored@ == before,
                index == before.len(),
                after == before.push(key_views(keys@)),
                forall|u: int, key: Seq<i8>|
                    0 <= u < t ==> #[trigger] self.tables@[u].bucket(key) == colliding(after, u, key),
                forall|u: int, key: Seq<i8>|
                    t <= u < self.tables@.len() ==> #[trigger] self.tables@[u].bucket(key) == colliding(
                        before,
                        u,
                        key,
                    ),
            decreases self.tables@.len() - t,
        {
            let ghost tables_before = self.tables@;
            self.tables[t].append(&keys[t], index);
            proof {
                assert(after.drop_last() =~= before);
                assert(after.last()[t as int] == keys@[t as int]@);
                assert forall|u: int, key: Seq<i8>| 0 <= u < t + 1 implies #[trigger] self.tables@[u].bucket(
                    key,
                ) == colliding(after, u, key) by {
                    if u < t {
                        assert(self.tables@[u] == tables_before[u]);
                    } else {
                        assert(tables_before[u].bucket(key) == colliding(before, u, key));
                    }
                }
                assert forall|u: int, key: Seq<i8>|
                    t + 1 <= u < self.tables@.len() implies #[trigger] self.tables@[u].bucket(key)
                    == colliding(before, u, key) by {
                    assert(self.tables@[u] == tables_before[u]);
                }
            }
            t += 1;
        }
        self.count = index + 1;
        self.stored = Ghost(after);
        proof {
            assert forall|i: int| 0 <= i < after.len() implies (#[trigger] after[i]).len()
                == self.tables@.len() by {
                if i < before.len() {
                    assert(after[i] == before[i]);
                }
            }
        }
        Ok(index)
    }

    /// Stores a vector and names the vectors stored before it that it is to
    /// be compared with.
    ///
    /// The buckets are looked up first and the vector is stored after, so it
    /// is paired only with vectors that were there before it: never with
    /// itself, and with each of them once.
    pub fn insert_and_query(&mut self, keys: &Vec<Vec<i8>>) -> (result: Result<Insertion, IndexError>)
        requires
            old(self).wf(),
        ensures
            final(self).wf(),
            final(self).table_count() == old(self).table_count(),
            match result {
                Ok(insertion) => {
                    &&& keys@.len() == old(self).table_count()
                    &&& insertion.index == old(self)@.len()
                    &&& final(self)@ == old(self)@.push(key_views(keys@))
                    &&& second_indices(insertion.tasks@).no_duplicates()
                    &&& forall|j: int|
                        0 <= j < insertion.tasks@.len() ==> candidate(
                            old(self)@,
                            key_views(keys@),
                            #[trigger] insertion.tasks@[j],
                        )
                    &&& forall|i: usize|
                        i < old(self)@.len() && collides(old(self)@[i as int], key_views(keys@))
                            ==> #[trigger] second_indices(insertion.tasks@).contains(i)
                },
                Err(IndexError::KeyCount) => {
                    &&& keys@.len() != old(self).table_count()
                    &&& final(self)@ == old(self)@
                },
                Err(IndexError::Full) => {
                    &&& keys@.len() == old(self).table_count()
                    &&& old(self)@.len() == usize::MAX
                    &&& final(self)@ == old(self)@
                },
            },
    {
        let found = match self.query_candidates(keys) {
            Ok(found) => found,
            Err(error) => {
                return Err(error);
            },
        };
        let index = match self.insert(keys) {
            Ok(index) => index,
            Err(error) => {
                return Err(error);
            },
        };
        let mut tasks: Vec<CompareTask> = Vec::with_capacity(found.len());
        let mut j: usize = 0;
        while j < found.len()
            invariant
                0 <= j <= found@.len(),
                tasks@.len() == j,
                forall|k: int|
                    0 <= k < j ==> (#[trigger] tasks@[k]).index1 == index && tasks@[k].index2 == found@[k],
            decreases found@.len() - j,
        {
            tasks.push(CompareTask { index1: index, index2: found[j] });
            j += 1;
        }
        proof {
            let seconds = second_indices(tasks@);
            assert(seconds =~= found@);
            assert forall|k: int| 0 <= k < tasks@.len() implies candidate(
                old(self)@,
                key_views(keys@),
                #[trigger] tasks@[k],
            ) by {
                assert(found@.contains(found@[k]));
            }
        }
        Ok(Insertion { index, tasks })
    }
}

/// A candidate pair names a vector stored earlier and the vector that has
/// just arrived, which are never the same.
pub proof fn lemma_candidate_precedes(stored: Seq<Seq<Seq<i8>>>, keys: Seq<Seq<i8>>, task: CompareTask)
    requires
        candidate(stored, keys, task),
    ensures
        task.index2 < task.index1,
        task.index1 < stored.push(keys).len(),
{
}

/// No pair is named twice in a run: the candidate pairs of two vectors that
/// arrived at different times differ, whichever way round they are read.
pub proof fn lemma_no_pair_twice(
    stored1: Seq<Seq<Seq<i8>>>,
    keys1: Seq<Seq<i8>>,
    task1: CompareTask,
    stored2: Seq<Seq<Seq<i8>>>,
    keys2: Seq<Seq<i8>>,
    task2: CompareTask,
)
    requires
        candidate(stored1, keys1, task1),
        candidate(stored2, keys2, task2),
        stored1.len() != stored2.len(),
    ensures
        !(task1.index1 == task2.index1 && task1.index2 == task2.index2),
        !(task1.index1 == task2.index2 && task1.index2 == task2.index1),
{
}

} // verus!
