//! Directory sizes from a flat list of what a tree holds.
use vstd::hash_map::StringHashMap;
use vstd::prelude::*;

use crate::scanner::{copy_optional, FileEntry, ScanStats};
use crate::text::{text_eq, texts};
use crate::time::Timestamp;

verus! {

/// One file or directory of a tree, as a directory walker lists it.
pub struct Record {
    /// Tells this path from every other.
    pub key: String,
    /// The keys of all directories above, the nearest first.
    pub ancestors: Vec<String>,
    pub path: String,
    pub name: String,
    pub parent_path: Option<String>,
    pub len: u64,
    pub is_dir: bool,
    pub modified_at: Option<Timestamp>,
    pub depth: usize,
}

/// How often `key` stands in `keys`.
pub open spec fn times(keys: Seq<Seq<char>>, key: Seq<char>) -> nat
    decreases keys.len(),
{
    if keys.len() == 0 {
        0
    } else {
        times(keys.drop_last(), key) + if keys.last() == key {
            1nat
        } else {
            0
        }
    }
}

/// What a record adds to the directory `key`.
pub open spec fn share(r: Record, key: Seq<char>) -> nat {
    if r.is_dir {
        0
    } else {
        r.len as nat * times(texts(r.ancestors@), key)
    }
}

/// What some records add to the directory `key`.
pub open spec fn shares(records: Seq<Record>, key: Seq<char>) -> nat
    decreases records.len(),
{
    if records.len() == 0 {
        0
    } else {
        shares(records.drop_last(), key) + share(records.last(), key)
    }
}

/// What records add to the directory `key` when it starts from nothing again at its own record.
pub open spec fn shares_since(records: Seq<Record>, key: Seq<char>) -> nat
    decreases records.len(),
{
    if records.len() == 0 {
        0
    } else if records.last().is_dir && records.last().key@ == key {
        0
    } else {
        shares_since(records.drop_last(), key) + share(records.last(), key)
    }
}

/// The length of all files among the records.
pub open spec fn bytes_in(records: Seq<Record>) -> nat
    decreases records.len(),
{
    if records.len() == 0 {
        0
    } else {
        bytes_in(records.drop_last()) + if records.last().is_dir {
            0
        } else {
            records.last().len as nat
        }
    }
}

/// How many files the records hold.
pub open spec fn files_in(records: Seq<Record>) -> nat
    decreases records.len(),
{
    if records.len() == 0 {
        0
    } else {
        files_in(records.drop_last()) + if records.last().is_dir {
            0nat
        } else {
            1
        }
    }
}

/// How many directories the records hold.
pub open spec fn dirs_in(records: Seq<Record>) -> nat
    decreases records.len(),
{
    if records.len() == 0 {
        0
    } else {
        dirs_in(records.drop_last()) + if records.last().is_dir {
            1nat
        } else {
            0
        }
    }
}

/// No path lies twice above another.
pub open spec fn sound(r: Record) -> bool {
    texts(r.ancestors@).no_duplicates()
}

proof fn lemma_times_once(keys: Seq<Seq<char>>, key: Seq<char>)
    requires
        keys.no_duplicates(),
    ensures
        times(keys, key) <= 1,
        !keys.contains(key) ==> times(keys, key) == 0,
    decreases keys.len(),
{
    if keys.len() > 0 {
        let rest = keys.drop_last();
        assert(rest.no_duplicates()) by {
            assert forall|i: int, j: int|
                0 <= i < rest.len() && 0 <= j < rest.len() && i != j implies rest[i] != rest[j] by {
                assert(rest[i] == keys[i] && rest[j] == keys[j]);
            }
        }
        lemma_times_once(rest, key);
        if keys.last() == key {
            assert(!rest.contains(key)) by {
                if rest.contains(key) {
                    let i = choose|i: int| 0 <= i < rest.len() && rest[i] == key;
                    assert(keys[i] == keys[keys.len() - 1]);
                }
            }
            assert(keys[keys.len() - 1] == key);
        } else if !keys.contains(key) && rest.contains(key) {
            let i = choose|i: int| 0 <= i < rest.len() && rest[i] == key;
            assert(keys[i] == key);
        }
    }
}

proof fn lemma_share_bound(r: Record, key: Seq<char>)
    requires
        sound(r),
    ensures
        share(r, key) <= if r.is_dir {
            0
        } else {
            r.len as nat
        },
{
    lemma_times_once(texts(r.ancestors@), key);
    let t = times(texts(r.ancestors@), key);
    assert(t <= 1 ==> r.len as nat * t <= r.len as nat) by (nonlinear_arith);
}

/// No directory is larger than all files together.
pub proof fn law_no_share_above_all(records: Seq<Record>, key: Seq<char>)
    requires
        forall|i: int| 0 <= i < records.len() ==> sound(#[trigger] records[i]),
    ensures
        shares(records, key) <= bytes_in(records),
        shares_since(records, key) <= shares(records, key),
    decreases records.len(),
{
    if records.len() > 0 {
        let rest = records.drop_last();
        assert forall|i: int| 0 <= i < rest.len() implies sound(#[trigger] rest[i]) by {
            assert(rest[i] == records[i]);
        }
        assert(sound(records[records.len() - 1]));
        law_no_share_above_all(rest, key);
        lemma_share_bound(records.last(), key);
    }
}

/// Starting again at a directory's own record changes nothing where that record comes before
/// everything below the directory.
pub proof fn law_parents_first(records: Seq<Record>, key: Seq<char>)
    requires
        forall|i: int, j: int|
            0 <= i < j < records.len() && (#[trigger] records[j]).is_dir && records[j].key@ == key
                ==> share(#[trigger] records[i], key) == 0,
    ensures
        shares_since(records, key) == shares(records, key),
    decreases records.len(),
{
    if records.len() > 0 {
        let rest = records.drop_last();
        let n = records.len() - 1;
        assert forall|i: int, j: int|
            0 <= i < j < rest.len() && (#[trigger] rest[j]).is_dir && rest[j].key@
                == key implies share(#[trigger] rest[i], key) == 0 by {
            assert(rest[i] == records[i] && rest[j] == records[j]);
        }
        law_parents_first(rest, key);
        if records[n].is_dir && records[n].key@ == key {
            assert forall|i: int| 0 <= i < rest.len() implies share(#[trigger] rest[i], key)
                == 0 by {
                assert(rest[i] == records[i]);
                assert(records[n].is_dir);
            }
            lemma_no_shares(rest, key);
        }
    }
}

proof fn lemma_no_shares(records: Seq<Record>, key: Seq<char>)
    requires
        forall|i: int| 0 <= i < records.len() ==> share(#[trigger] records[i], key) == 0,
    ensures
        shares(records, key) == 0,
    decreases records.len(),
{
    if records.len() > 0 {
        let rest = records.drop_last();
        assert(share(records[records.len() - 1], key) == 0);
        assert forall|i: int| 0 <= i < rest.len() implies share(#[trigger] rest[i], key) == 0 by {
            assert(rest[i] == records[i]);
        }
        lemma_no_shares(rest, key);
    }
}

/// Sizes under their keys; a key that was never met has size zero.
pub struct SizeMap {
    sizes: StringHashMap<u64>,
    keys: Vec<String>,
}

impl SizeMap {
    /// The size under `key`.
    pub closed spec fn amount(&self, key: Seq<char>) -> nat {
        if self.sizes@.contains_key(key) {
            self.sizes@[key] as nat
        } else {
            0
        }
    }

    /// Each key with a size is listed once.
    pub closed spec fn well_formed(&self) -> bool {
        &&& texts(self.keys@).no_duplicates()
        &&& forall|k: Seq<char>| #[trigger]
            self.sizes@.contains_key(k) <==> texts(self.keys@).contains(k)
    }

    /// No sizes.
    pub fn new() -> (m: SizeMap)
        ensures
            m.well_formed(),
            forall|k: Seq<char>| #[trigger] m.amount(k) == 0,
    {
        let m = SizeMap { sizes: StringHashMap::new(), keys: Vec::new() };
        assert(texts(m.keys@) =~= Seq::empty());
        m
    }

    /// The size under `key`.
    pub fn get(&self, key: &str) -> (n: u64)
        ensures
            n == self.amount(key@),
    {
        match self.sizes.get(key) {
            Some(n) => *n,
            None => 0,
        }
    }

    fn put(&mut self, key: &String, n: u64)
        requires
            old(self).well_formed(),
        ensures
            final(self).well_formed(),
            forall|k: Seq<char>| #[trigger]
                final(self).amount(k) == if k == key@ {
                    n as nat
                } else {
                    old(self).amount(k)
                },
    {
        let ghost before = texts(self.keys@);
        if !self.sizes.contains_key(key.as_str()) {
            self.keys.push(key.clone());
            proof {
                let after = texts(self.keys@);
                assert(after =~= before.push(key@));
                assert(!before.contains(key@));
                assert forall|i: int, j: int|
                    0 <= i < after.len() && 0 <= j < after.len() && i != j implies after[i]
                    != after[j] by {
                    if i < before.len() && j < before.len() {
                        assert(before[i] != before[j]);
                    } else if i < before.len() {
                        assert(before[i] == after[i]);
                    } else {
                        assert(before[j] == after[j]);
                    }
                }
            }
        }
        self.sizes.insert(key.clone(), n);
        proof {
            let after = texts(self.keys@);
            assert forall|k: Seq<char>| #[trigger]
                self.sizes@.contains_key(k) <==> after.contains(k) by {
                if before.contains(k) {
                    let i = choose|i: int| 0 <= i < before.len() && before[i] == k;
                    assert(after[i] == k);
                }
                if k == key@ {
                    if after.len() > before.len() {
                        assert(after[before.len() as int] == k);
                    }
                } else if after.contains(k) {
                    let i = choose|i: int| 0 <= i < after.len() && after[i] == k;
                    assert(before[i] == k);
                }
            }
        }
    }

    /// Adds `n` to the size under `key`.
    pub fn increase(&mut self, key: &String, n: u64)
        requires
            old(self).well_formed(),
            old(self).amount(key@) + n <= u64::MAX,
        ensures
            final(self).well_formed(),
            forall|k: Seq<char>| #[trigger]
                final(self).amount(k) == old(self).amount(k) + if k == key@ {
                    n as nat
                } else {
                    0
                },
    {
        let sum: u64 = self.get(key.as_str()) + n;
        self.put(key, sum);
    }

    /// Adds the length of a file to every directory above it.
    pub fn increase_all(&mut self, record: &Record)
        requires
            old(self).well_formed(),
            sound(*record),
            !record.is_dir,
            forall|k: Seq<char>| #[trigger] old(self).amount(k) + record.len <= u64::MAX,
        ensures
            final(self).well_formed(),
            forall|k: Seq<char>| #[trigger]
                final(self).amount(k) == old(self).amount(k) + share(*record, k),
    {
        let ghost above = texts(record.ancestors@);
        let mut i: usize = 0;
        proof {
            assert(above.take(0) =~= Seq::empty());
            assert forall|k: Seq<char>| #[trigger]
                self.amount(k) == old(self).amount(k) + record.len as nat * times(
                    above.take(0),
                    k,
                ) by {
                assert(record.len as nat * 0nat == 0) by (nonlinear_arith);
            }
        }
        while i < record.ancestors.len()
            invariant
                i <= record.ancestors@.len(),
                above == texts(record.ancestors@),
                above.no_duplicates(),
                self.well_formed(),
                forall|k: Seq<char>| #[trigger] old(self).amount(k) + record.len <= u64::MAX,
                forall|k: Seq<char>| #[trigger]
                    self.amount(k) == old(self).amount(k) + record.len as nat * times(
                        above.take(i as int),
                        k,
                    ),
            decreases record.ancestors@.len() - i,
        {
            let ghost seen = above.take(i as int);
            let ghost mid = *self;
            proof {
                let key = above[i as int];
                assert(seen.no_duplicates());
                lemma_times_once(seen, key);
                assert(!seen.contains(key)) by {
                    if seen.contains(key) {
                        let j = choose|j: int| 0 <= j < seen.len() && seen[j] == key;
                        assert(above[j] == above[i as int]);
                    }
                }
                assert(record.len as nat * 0nat == 0) by (nonlinear_arith);
                assert(self.amount(key) == old(self).amount(key));
            }
            self.increase(&record.ancestors[i], record.len);
            proof {
                assert(above.take(i + 1).drop_last() =~= seen);
                assert forall|k: Seq<char>| #[trigger]
                    self.amount(k) == old(self).amount(k) + record.len as nat * times(
                        above.take(i + 1),
                        k,
                    ) by {
                    let len = record.len as nat;
                    let t = times(seen, k);
                    assert(len * (t + 1) == len * t + len) by (nonlinear_arith);
                    assert(len * (t + 0) == len * t);
                    assert(mid.amount(k) == old(self).amount(k) + len * t);
                }
            }
            i = i + 1;
        }
        assert(above.take(i as int) =~= above);
    }

    /// Adds all sizes of `other`.
    pub fn merge(&mut self, other: &SizeMap)
        requires
            old(self).well_formed(),
            other.well_formed(),
            forall|k: Seq<char>| #[trigger] old(self).amount(k) + other.amount(k) <= u64::MAX,
        ensures
            final(self).well_formed(),
            forall|k: Seq<char>| #[trigger]
                final(self).amount(k) == old(self).amount(k) + other.amount(k),
    {
        let ghost keys = texts(other.keys@);
        let mut i: usize = 0;
        while i < other.keys.len()
            invariant
                i <= other.keys@.len(),
                keys == texts(other.keys@),
                keys.no_duplicates(),
                self.well_formed(),
                forall|k: Seq<char>| #[trigger]
                    old(self).amount(k) + other.amount(k) <= u64::MAX,
                forall|k: Seq<char>| #[trigger]
                    self.amount(k) == old(self).amount(k) + if keys.take(i as int).contains(k) {
                        other.amount(k)
                    } else {
                        0
                    },
            decreases other.keys@.len() - i,
        {
            let ghost mid = *self;
            let ghost key = keys[i as int];
            proof {
                assert(!keys.take(i as int).contains(key)) by {
                    if keys.take(i as int).contains(key) {
                        let j = choose|j: int|
                            0 <= j < keys.take(i as int).len() && keys.take(i as int)[j] == key;
                        assert(keys[j] == keys[i as int]);
                    }
                }
                assert(self.amount(key) == old(self).amount(key));
            }
            let n: u64 = other.get(other.keys[i].as_str());
            self.increase(&other.keys[i], n);
            proof {
                let part = keys.take(i + 1);
                assert(part =~= keys.take(i as int).push(key));
                assert forall|k: Seq<char>| #[trigger]
                    self.amount(k) == old(self).amount(k) + if part.contains(k) {
                        other.amount(k)
                    } else {
                        0
                    } by {
                    if k == key {
                        assert(part[i as int] == k);
                    } else {
                        assert(part.contains(k) == keys.take(i as int).contains(k)) by {
                            if keys.take(i as int).contains(k) {
                                let j = choose|j: int|
                                    0 <= j < keys.take(i as int).len() && keys.take(i as int)[j]
                                        == k;
                                assert(part[j] == k);
                            }
                            if part.contains(k) {
                                let j = choose|j: int| 0 <= j < part.len() && part[j] == k;
                                assert(keys.take(i as int)[j] == k);
                            }
                        }
                        assert(mid.amount(k) == self.amount(k));
                    }
                }
            }
            i = i + 1;
        }
        proof {
            assert(keys.take(i as int) =~= keys);
            assert forall|k: Seq<char>| #[trigger]
                self.amount(k) == old(self).amount(k) + other.amount(k) by {
                assert(other.sizes@.contains_key(k) <==> keys.contains(k));
            }
        }
    }
}

/// The entry for a record that, where it is a directory, has the given size. The root of a scan, at
/// depth zero, has no parent.
pub open spec fn entry_of(r: Record, size: nat) -> FileEntry {
    FileEntry {
        path: r.path,
        name: r.name,
        parent_path: if r.depth == 0 {
            None
        } else {
            r.parent_path
        },
        size: if r.is_dir {
            size as u64
        } else {
            r.len
        },
        is_dir: r.is_dir,
        modified_at: r.modified_at,
        depth: r.depth,
    }
}

/// Makes the entry for a record.
pub fn record_entry(r: &Record, sizes: &SizeMap) -> (e: FileEntry)
    ensures
        e == entry_of(*r, sizes.amount(r.key@)),
{
    FileEntry {
        path: r.path.clone(),
        name: r.name.clone(),
        parent_path: if r.depth == 0 {
            None
        } else {
            copy_optional(&r.parent_path)
        },
        size: if r.is_dir {
            sizes.get(r.key.as_str())
        } else {
            r.len
        },
        is_dir: r.is_dir,
        modified_at: r.modified_at,
        depth: r.depth,
    }
}

/// What a part of the records comes to.
pub struct Tally {
    pub sizes: SizeMap,
    pub stats: ScanStats,
}

impl Tally {
    /// The tally counts exactly `records`.
    pub open spec fn counts(&self, records: Seq<Record>) -> bool {
        &&& self.sizes.well_formed()
        &&& forall|k: Seq<char>| #[trigger] self.sizes.amount(k) == shares(records, k)
        &&& self.stats.total_size == bytes_in(records)
        &&& self.stats.total_files == files_in(records)
        &&& self.stats.total_dirs == dirs_in(records)
    }

    /// No directory has more than all files together.
    pub open spec fn bounded(&self) -> bool {
        &&& self.sizes.well_formed()
        &&& forall|k: Seq<char>| #[trigger] self.sizes.amount(k) <= self.stats.total_size
    }

    /// Nothing counted yet.
    pub fn new() -> (t: Tally)
        ensures
            t.bounded(),
            t.counts(Seq::empty()),
    {
        Tally {
            sizes: SizeMap::new(),
            stats: ScanStats { total_size: 0, total_files: 0, total_dirs: 0 },
        }
    }

    /// Counts one more record. A length that cannot be added is reported and leaves the tally as
    /// it was.
    pub fn count_record(&mut self, record: &Record) -> (ok: bool)
        requires
            old(self).bounded(),
            sound(*record),
            old(self).stats.total_files < u64::MAX,
            old(self).stats.total_dirs < u64::MAX,
        ensures
            ok <==> record.is_dir || old(self).stats.total_size + record.len <= u64::MAX,
            !ok ==> *final(self) == *old(self),
            final(self).bounded(),
            ok ==> forall|k: Seq<char>| #[trigger]
                final(self).sizes.amount(k) == old(self).sizes.amount(k) + share(*record, k),
            ok ==> final(self).stats == (ScanStats {
                total_size: (old(self).stats.total_size + if record.is_dir {
                    0
                } else {
                    record.len as int
                }) as u64,
                total_files: (old(self).stats.total_files + if record.is_dir {
                    0int
                } else {
                    1
                }) as u64,
                total_dirs: (old(self).stats.total_dirs + if record.is_dir {
                    1int
                } else {
                    0
                }) as u64,
            }),
            forall|records: Seq<Record>|
                ok && old(self).counts(records) ==> #[trigger] final(self).counts(
                    records.push(*record),
                ),
    {
        if record.is_dir {
            self.stats.total_dirs = self.stats.total_dirs + 1;
        } else {
            match self.stats.total_size.checked_add(record.len) {
                Some(sum) => {
                    self.sizes.increase_all(record);
                    self.stats.total_size = sum;
                    self.stats.total_files = self.stats.total_files + 1;
                },
                None => {
                    return false;
                },
            }
        }
        proof {
            assert forall|k: Seq<char>| #[trigger]
                self.sizes.amount(k) <= self.stats.total_size by {
                assert(self.sizes.amount(k) == old(self).sizes.amount(k) + share(*record, k));
                lemma_share_bound(*record, k);
            }
            assert forall|records: Seq<Record>| old(self).counts(records) implies #[trigger] self.counts(
                records.push(*record),
            ) by {
                assert(records.push(*record).drop_last() =~= records);
                assert forall|k: Seq<char>| #[trigger]
                    self.sizes.amount(k) == shares(records.push(*record), k) by {
                    assert(self.sizes.amount(k) == old(self).sizes.amount(k) + share(*record, k));
                }
            }
        }
        true
    }

    /// Both tallies in one, where the sums can be held.
    pub fn merge(self, other: Tally) -> (both: Option<Tally>)
        requires
            self.bounded(),
            other.bounded(),
        ensures
            both is Some <==> {
                &&& self.stats.total_size + other.stats.total_size <= u64::MAX
                &&& self.stats.total_files + other.stats.total_files <= u64::MAX
                &&& self.stats.total_dirs + other.stats.total_dirs <= u64::MAX
            },
            both is Some ==> {
                &&& both->0.bounded()
                &&& forall|k: Seq<char>| #[trigger]
                    both->0.sizes.amount(k) == self.sizes.amount(k) + other.sizes.amount(k)
                &&& both->0.stats.total_size == self.stats.total_size + other.stats.total_size
                &&& both->0.stats.total_files == self.stats.total_files + other.stats.total_files
                &&& both->0.stats.total_dirs == self.stats.total_dirs + other.stats.total_dirs
            },
            forall|a: Seq<Record>, b: Seq<Record>|
                both is Some && self.counts(a) && other.counts(b) ==> #[trigger] both->0.counts(
                    a + b,
                ),
    {
        let size = self.stats.total_size.checked_add(other.stats.total_size);
        let files = self.stats.total_files.checked_add(other.stats.total_files);
        let dirs = self.stats.total_dirs.checked_add(other.stats.total_dirs);
        match (size, files, dirs) {
            (Some(total_size), Some(total_files), Some(total_dirs)) => {
                let mut sizes = self.sizes;
                sizes.merge(&other.sizes);
                let both = Tally {
                    sizes,
                    stats: ScanStats { total_size, total_files, total_dirs },
                };
                proof {
                    assert forall|a: Seq<Record>, b: Seq<Record>|
                        self.counts(a) && other.counts(b) implies #[trigger] both.counts(a + b) by {
                        law_tally_splits(a, b);
                        assert forall|k: Seq<char>| #[trigger]
                            both.sizes.amount(k) == shares(a + b, k) by {
                            assert(both.sizes.amount(k) == self.sizes.amount(k)
                                + other.sizes.amount(k));
                            assert(shares(a + b, k) == shares(a, k) + shares(b, k));
                        }
                    }
                }
                Some(both)
            },
            _ => None,
        }
    }
}

/// Records can be counted in parts, and the parts added up.
pub proof fn law_tally_splits(a: Seq<Record>, b: Seq<Record>)
    ensures
        forall|k: Seq<char>| #[trigger] shares(a + b, k) == shares(a, k) + shares(b, k),
        bytes_in(a + b) == bytes_in(a) + bytes_in(b),
        files_in(a + b) == files_in(a) + files_in(b),
        dirs_in(a + b) == dirs_in(a) + dirs_in(b),
    decreases b.len(),
{
    if b.len() == 0 {
        assert(a + b =~= a);
    } else {
        law_tally_splits(a, b.drop_last());
        assert((a + b).drop_last() =~= a + b.drop_last());
        assert forall|k: Seq<char>| #[trigger] shares(a + b, k) == shares(a, k) + shares(b, k) by {
            assert(shares(a + b.drop_last(), k) == shares(a, k) + shares(b.drop_last(), k));
        }
    }
}

/// Whether no path lies twice above another.
pub fn is_sound(record: &Record) -> (b: bool)
    ensures
        b == sound(*record),
{
    let ghost above = texts(record.ancestors@);
    let mut i: usize = 0;
    while i < record.ancestors.len()
        invariant
            i <= record.ancestors@.len(),
            above == texts(record.ancestors@),
            forall|p: int, q: int| 0 <= p < i && p < q < above.len() ==> above[p] != above[q],
        decreases record.ancestors@.len() - i,
    {
        let mut j: usize = i + 1;
        while j < record.ancestors.len()
            invariant
                i < j <= record.ancestors@.len(),
                above == texts(record.ancestors@),
                forall|q: int| i < q < j ==> above[i as int] != above[q],
            decreases record.ancestors@.len() - j,
        {
            if text_eq(record.ancestors[i].as_str(), record.ancestors[j].as_str()) {
                assert(above[i as int] == above[j as int]);
                return false;
            }
            j = j + 1;
        }
        i = i + 1;
    }
    true
}

/// The entries and totals of a tree whose walker lists each directory before what it holds.
/// `None` where the lengths are too large to be added.
pub fn aggregate(records: &Vec<Record>) -> (r: Option<(Vec<FileEntry>, ScanStats)>)
    requires
        forall|i: int| 0 <= i < records@.len() ==> sound(#[trigger] records@[i]),
    ensures
        r is Some <==> bytes_in(records@) <= u64::MAX,
        r is Some ==> {
            &&& (r->0).0@ == Seq::new(
                records@.len(),
                |i: int| entry_of(records@[i], shares_since(records@, records@[i].key@)),
            )
            &&& (r->0).1.total_size == bytes_in(records@)
            &&& (r->0).1.total_files == files_in(records@)
            &&& (r->0).1.total_dirs == dirs_in(records@)
        },
{
    let mut sizes = SizeMap::new();
    let mut total_size: u64 = 0;
    let mut total_files: u64 = 0;
    let mut total_dirs: u64 = 0;
    let mut i: usize = 0;
    assert(records@.take(0) =~= Seq::empty());
    while i < records.len()
        invariant
            i <= records@.len(),
            forall|j: int| 0 <= j < records@.len() ==> sound(#[trigger] records@[j]),
            sizes.well_formed(),
            total_size == bytes_in(records@.take(i as int)),
            total_files == files_in(records@.take(i as int)),
            total_dirs == dirs_in(records@.take(i as int)),
            total_files + total_dirs == i,
            forall|k: Seq<char>| #[trigger]
                sizes.amount(k) == shares_since(records@.take(i as int), k),
        decreases records@.len() - i,
    {
        let ghost seen = records@.take(i as int);
        proof {
            assert(records@.take(i + 1).drop_last() =~= seen);
            lemma_bytes_grow(records@, i + 1);
            assert forall|j: int| 0 <= j < seen.len() implies sound(#[trigger] seen[j]) by {
                assert(seen[j] == records@[j]);
            }
        }
        let record = &records[i];
        if record.is_dir {
            total_dirs = total_dirs + 1;
            let ghost before = sizes;
            sizes.put(&record.key, 0);
            proof {
                assert forall|k: Seq<char>| #[trigger]
                    sizes.amount(k) == shares_since(records@.take(i + 1), k) by {
                    assert(before.amount(k) == shares_since(seen, k));
                }
            }
        } else {
            match total_size.checked_add(record.len) {
                Some(sum) => {
                    proof {
                        assert forall|k: Seq<char>| #[trigger]
                            sizes.amount(k) + record.len <= u64::MAX by {
                            law_no_share_above_all(seen, k);
                        }
                    }
                    let ghost before = sizes;
                    sizes.increase_all(record);
                    total_size = sum;
                    total_files = total_files + 1;
                    proof {
                        assert forall|k: Seq<char>| #[trigger]
                            sizes.amount(k) == shares_since(records@.take(i + 1), k) by {
                            assert(before.amount(k) == shares_since(seen, k));
                        }
                    }
                },
                None => {
                    return None;
                },
            }
        }
        i = i + 1;
    }
    assert(records@.take(i as int) =~= records@);
    let mut entries: Vec<FileEntry> = Vec::new();
    let mut j: usize = 0;
    while j < records.len()
        invariant
            j <= records@.len(),
            entries@.len() == j,
            forall|k: Seq<char>| #[trigger] sizes.amount(k) == shares_since(records@, k),
            forall|m: int|
                0 <= m < j ==> #[trigger] entries@[m] == entry_of(
                    records@[m],
                    shares_since(records@, records@[m].key@),
                ),
        decreases records@.len() - j,
    {
        entries.push(record_entry(&records[j], &sizes));
        j = j + 1;
    }
    assert(entries@ =~= Seq::new(
        records@.len(),
        |i: int| entry_of(records@[i], shares_since(records@, records@[i].key@)),
    ));
    Some((entries, ScanStats { total_size, total_files, total_dirs }))
}

proof fn lemma_bytes_grow(records: Seq<Record>, n: int)
    requires
        0 <= n <= records.len(),
    ensures
        bytes_in(records.take(n)) <= bytes_in(records),
    decreases records.len() - n,
{
    if n < records.len() {
        lemma_bytes_grow(records, n + 1);
        assert(records.take(n + 1).drop_last() =~= records.take(n));
    } else {
        assert(records.take(n) =~= records);
    }
}

} // verus!
