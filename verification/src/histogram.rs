//! The histogram of file types: for each category the bytes and the number
//! of the files that fall under it.

use crate::sums::lemma_sum_bounds_each;
use crate::sums::lemma_sum_push;
use crate::sums::lemma_sum_take_all;
use crate::sums::lemma_sum_take_le;
use crate::sums::lemma_sum_take_next;
use crate::sums::lemma_sum_update;
use crate::sums::lemma_sum_zeros;
use crate::sums::sum;
use crate::text::str_equals;
use vstd::prelude::*;
use vstd::string::StringExecFns;

verus! {

/// The share of one category.
#[derive(Debug)]
pub struct HistogramEntry {
    pub category: String,
    pub size: u64,
    pub count: u32,
}

/// The histogram of one worker or of a whole scan. The categories stand in
/// the order in which they were first seen.
#[derive(Debug)]
pub struct FileTypeHistogram {
    pub entries: Vec<HistogramEntry>,
}

/// The bytes of each entry.
pub open spec fn sizes(entries: Seq<HistogramEntry>) -> Seq<nat> {
    Seq::new(entries.len(), |i: int| entries[i].size as nat)
}

/// The number of files of each entry.
pub open spec fn counts(entries: Seq<HistogramEntry>) -> Seq<nat> {
    Seq::new(entries.len(), |i: int| entries[i].count as nat)
}

/// The bytes of each entry of category `category`, zero for the others.
pub open spec fn sizes_for(entries: Seq<HistogramEntry>, category: Seq<char>) -> Seq<nat> {
    Seq::new(
        entries.len(),
        |i: int|
            if entries[i].category@ == category {
                entries[i].size as nat
            } else {
                0nat
            },
    )
}

/// The number of files of each entry of category `category`, zero for the
/// others.
pub open spec fn counts_for(entries: Seq<HistogramEntry>, category: Seq<char>) -> Seq<nat> {
    Seq::new(
        entries.len(),
        |i: int|
            if entries[i].category@ == category {
                entries[i].count as nat
            } else {
                0nat
            },
    )
}

impl FileTypeHistogram {
    /// The bytes of all categories together.
    pub open spec fn total_bytes(&self) -> nat {
        sum(sizes(self.entries@))
    }

    /// The number of files of all categories together.
    pub open spec fn total_files(&self) -> nat {
        sum(counts(self.entries@))
    }

    /// The bytes under `category`; zero where the histogram does not hold it.
    pub open spec fn bytes_in(&self, category: Seq<char>) -> nat {
        sum(sizes_for(self.entries@, category))
    }

    /// The number of files under `category`.
    pub open spec fn files_in(&self, category: Seq<char>) -> nat {
        sum(counts_for(self.entries@, category))
    }

    /// Whether the histogram holds `category`.
    pub open spec fn has(&self, category: Seq<char>) -> bool {
        exists|i: int| 0 <= i < self.entries@.len() && #[trigger] self.entries@[i].category@
            == category
    }

    /// No category stands twice, and the totals fit their types.
    pub open spec fn wf(&self) -> bool {
        &&& forall|i: int, j: int|
            0 <= i < j < self.entries@.len() ==> #[trigger] self.entries@[i].category@
                != #[trigger] self.entries@[j].category@
        &&& self.total_bytes() <= u64::MAX
        &&& self.total_files() <= u32::MAX
    }

    /// A histogram without categories.
    pub fn new() -> (histogram: FileTypeHistogram)
        ensures
            histogram.wf(),
            histogram.entries@.len() == 0,
            histogram.total_bytes() == 0,
            histogram.total_files() == 0,
    {
        FileTypeHistogram { entries: Vec::new() }
    }

    /// Whether the histogram is well formed: no category stands twice and
    /// the totals fit their types.
    pub fn is_well_formed(&self) -> (well_formed: bool)
        ensures
            well_formed == self.wf(),
    {
        let n = self.entries.len();
        let mut bytes: u64 = 0;
        let mut files: u32 = 0;
        let mut j: usize = 0;
        while j < n
            invariant
                j <= n,
                n == self.entries@.len(),
                bytes == sum(sizes(self.entries@).take(j as int)),
                files == sum(counts(self.entries@).take(j as int)),
                forall|a: int, b: int|
                    0 <= a < b < j ==> #[trigger] self.entries@[a].category@
                        != #[trigger] self.entries@[b].category@,
            decreases n - j,
        {
            proof {
                lemma_sum_take_next(sizes(self.entries@), j as int);
                lemma_sum_take_next(counts(self.entries@), j as int);
                lemma_sum_take_le(sizes(self.entries@), j + 1);
                lemma_sum_take_le(counts(self.entries@), j + 1);
            }
            let entry = &self.entries[j];
            if entry.size > u64::MAX - bytes || entry.count > u32::MAX - files {
                return false;
            }
            bytes = bytes + entry.size;
            files = files + entry.count;
            let mut i: usize = 0;
            while i < j
                invariant
                    i <= j,
                    j < n,
                    n == self.entries@.len(),
                    forall|a: int|
                        0 <= a < i ==> #[trigger] self.entries@[a].category@
                            != self.entries@[j as int].category@,
                decreases j - i,
            {
                if str_equals(self.entries[i].category.as_str(), self.entries[j].category.as_str()) {
                    return false;
                }
                i += 1;
            }
            j += 1;
        }
        proof {
            lemma_sum_take_all(sizes(self.entries@));
            lemma_sum_take_all(counts(self.entries@));
        }
        true
    }

    /// The bytes of all categories together.
    pub fn total_size(&self) -> (total: u64)
        requires
            self.wf(),
        ensures
            total == self.total_bytes(),
    {
        let n = self.entries.len();
        let mut total: u64 = 0;
        let mut i: usize = 0;
        while i < n
            invariant
                i <= n,
                n == self.entries@.len(),
                total == sum(sizes(self.entries@).take(i as int)),
                sum(sizes(self.entries@)) <= u64::MAX,
            decreases n - i,
        {
            proof {
                lemma_sum_take_next(sizes(self.entries@), i as int);
                lemma_sum_take_le(sizes(self.entries@), i + 1);
            }
            total = total + self.entries[i].size;
            i += 1;
        }
        proof {
            lemma_sum_take_all(sizes(self.entries@));
        }
        total
    }

    /// The number of files of all categories together.
    pub fn total_count(&self) -> (total: u32)
        requires
            self.wf(),
        ensures
            total == self.total_files(),
    {
        let n = self.entries.len();
        let mut total: u32 = 0;
        let mut i: usize = 0;
        while i < n
            invariant
                i <= n,
                n == self.entries@.len(),
                total == sum(counts(self.entries@).take(i as int)),
                sum(counts(self.entries@)) <= u32::MAX,
            decreases n - i,
        {
            proof {
                lemma_sum_take_next(counts(self.entries@), i as int);
                lemma_sum_take_le(counts(self.entries@), i + 1);
            }
            total = total + self.entries[i].count;
            i += 1;
        }
        proof {
            lemma_sum_take_all(counts(self.entries@));
        }
        total
    }

    /// Where `category` stands in the histogram, if it does.
    fn position(&self, category: &str) -> (at: Option<usize>)
        ensures
            match at {
                Some(i) => i < self.entries@.len() && self.entries@[i as int].category@
                    == category@,
                None => !self.has(category@),
            },
    {
        let n = self.entries.len();
        let mut i: usize = 0;
        while i < n
            invariant
                i <= n,
                n == self.entries@.len(),
                forall|k: int| 0 <= k < i ==> self.entries@[k].category@ != category@,
            decreases n - i,
        {
            if str_equals(self.entries[i].category.as_str(), category) {
                return Some(i);
            }
            i += 1;
        }
        None
    }

    /// The bytes and the number of files under `category`.
    pub fn get(&self, category: &str) -> (share: (u64, u32))
        requires
            self.wf(),
        ensures
            share.0 == self.bytes_in(category@),
            share.1 == self.files_in(category@),
    {
        match self.position(category) {
            Some(i) => {
                proof {
                    self.lemma_share_at(i as int);
                }
                (self.entries[i].size, self.entries[i].count)
            },
            None => {
                proof {
                    lemma_sum_zeros(sizes_for(self.entries@, category@));
                    lemma_sum_zeros(counts_for(self.entries@, category@));
                }
                (0, 0)
            },
        }
    }

    /// In a histogram without repeated categories, the share of a category is
    /// what its one entry holds.
    pub proof fn lemma_share_at(&self, i: int)
        requires
            0 <= i < self.entries@.len(),
            forall|a: int, b: int|
                0 <= a < b < self.entries@.len() ==> #[trigger] self.entries@[a].category@
                    != #[trigger] self.entries@[b].category@,
        ensures
            self.bytes_in(self.entries@[i].category@) == self.entries@[i].size,
            self.files_in(self.entries@[i].category@) == self.entries@[i].count,
    {
        let c = self.entries@[i].category@;
        let s = sizes_for(self.entries@, c);
        let zeros = s.update(i, 0nat);
        assert forall|k: int| 0 <= k < zeros.len() implies zeros[k] == 0 by {
            if k != i {
                if k < i {
                    assert(self.entries@[k].category@ != self.entries@[i].category@);
                } else {
                    assert(self.entries@[i].category@ != self.entries@[k].category@);
                }
            }
        }
        lemma_sum_zeros(zeros);
        lemma_sum_update(s, i, 0nat);
        let n = counts_for(self.entries@, c);
        let nzeros = n.update(i, 0nat);
        assert forall|k: int| 0 <= k < nzeros.len() implies nzeros[k] == 0 by {
            if k != i {
                if k < i {
                    assert(self.entries@[k].category@ != self.entries@[i].category@);
                } else {
                    assert(self.entries@[i].category@ != self.entries@[k].category@);
                }
            }
        }
        lemma_sum_zeros(nzeros);
        lemma_sum_update(n, i, 0nat);
    }

    /// Adds `count` files of `size` bytes in all to `category`.
    pub fn credit(&mut self, category: &str, size: u64, count: u32)
        requires
            old(self).wf(),
            old(self).total_bytes() + size <= u64::MAX,
            old(self).total_files() + count <= u32::MAX,
        ensures
            final(self).wf(),
            final(self).total_bytes() == old(self).total_bytes() + size,
            final(self).total_files() == old(self).total_files() + count,
            forall|c: Seq<char>|
                #![trigger final(self).bytes_in(c)]
                final(self).bytes_in(c) == old(self).bytes_in(c) + if c == category@ {
                    size as nat
                } else {
                    0nat
                },
            forall|c: Seq<char>|
                #![trigger final(self).files_in(c)]
                final(self).files_in(c) == old(self).files_in(c) + if c == category@ {
                    count as nat
                } else {
                    0nat
                },
            forall|c: Seq<char>|
                #![trigger final(self).has(c)]
                final(self).has(c) <==> old(self).has(c) || c == category@,
    {
        let ghost before = self.entries@;
        match self.position(category) {
            Some(i) => {
                proof {
                    lemma_sum_bounds_each(sizes(before), i as int);
                    lemma_sum_bounds_each(counts(before), i as int);
                }
                let entry = HistogramEntry {
                    category: self.entries[i].category.clone(),
                    size: self.entries[i].size + size,
                    count: self.entries[i].count + count,
                };
                self.entries.set(i, entry);
                proof {
                    let after = self.entries@;
                    assert(sizes(after) =~= sizes(before).update(
                        i as int,
                        (before[i as int].size + size) as nat,
                    ));
                    assert(counts(after) =~= counts(before).update(
                        i as int,
                        (before[i as int].count + count) as nat,
                    ));
                    lemma_sum_update(sizes(before), i as int, (before[i as int].size + size) as nat);
                    lemma_sum_update(
                        counts(before),
                        i as int,
                        (before[i as int].count + count) as nat,
                    );
                    assert forall|c: Seq<char>|
                        #![trigger final(self).bytes_in(c)]
                        sum(sizes_for(after, c)) == sum(sizes_for(before, c)) + if c
                            == category@ {
                            size as nat
                        } else {
                            0nat
                        } by {
                        if c == category@ {
                            assert(sizes_for(after, c) =~= sizes_for(before, c).update(
                                i as int,
                                (before[i as int].size + size) as nat,
                            ));
                            lemma_sum_update(
                                sizes_for(before, c),
                                i as int,
                                (before[i as int].size + size) as nat,
                            );
                        } else {
                            assert(sizes_for(after, c) =~= sizes_for(before, c));
                        }
                    }
                    assert forall|c: Seq<char>|
                        #![trigger final(self).files_in(c)]
                        sum(counts_for(after, c)) == sum(counts_for(before, c)) + if c
                            == category@ {
                            count as nat
                        } else {
                            0nat
                        } by {
                        if c == category@ {
                            assert(counts_for(after, c) =~= counts_for(before, c).update(
                                i as int,
                                (before[i as int].count + count) as nat,
                            ));
                            lemma_sum_update(
                                counts_for(before, c),
                                i as int,
                                (before[i as int].count + count) as nat,
                            );
                        } else {
                            assert(counts_for(after, c) =~= counts_for(before, c));
                        }
                    }
                    assert forall|c: Seq<char>|
                #![trigger final(self).has(c)]
                final(self).has(c) <==> old(self).has(c) || c
                        == category@ by {
                        if old(self).has(c) {
                            let k = choose|k: int|
                                0 <= k < before.len() && #[trigger] before[k].category@ == c;
                            assert(after[k].category@ == c);
                        }
                        if c == category@ {
                            assert(after[i as int].category@ == c);
                        }
                        if final(self).has(c) {
                            let k = choose|k: int|
                                0 <= k < after.len() && #[trigger] after[k].category@ == c;
                            assert(before[k].category@ == c);
                        }
                    }
                }
            },
            None => {
                let entry = HistogramEntry { category: String::from_str(category), size, count };
                self.entries.push(entry);
                proof {
                    let after = self.entries@;
                    assert(sizes(after) =~= sizes(before).push(size as nat));
                    assert(counts(after) =~= counts(before).push(count as nat));
                    lemma_sum_push(sizes(before), size as nat);
                    lemma_sum_push(counts(before), count as nat);
                    assert forall|c: Seq<char>|
                        #![trigger final(self).bytes_in(c)]
                        sum(sizes_for(after, c)) == sum(sizes_for(before, c)) + if c
                            == category@ {
                            size as nat
                        } else {
                            0nat
                        } by {
                        let x = if c == category@ {
                            size as nat
                        } else {
                            0nat
                        };
                        assert(sizes_for(after, c) =~= sizes_for(before, c).push(x));
                        lemma_sum_push(sizes_for(before, c), x);
                    }
                    assert forall|c: Seq<char>|
                        #![trigger final(self).files_in(c)]
                        sum(counts_for(after, c)) == sum(counts_for(before, c)) + if c
                            == category@ {
                            count as nat
                        } else {
                            0nat
                        } by {
                        let x = if c == category@ {
                            count as nat
                        } else {
                            0nat
                        };
                        assert(counts_for(after, c) =~= counts_for(before, c).push(x));
                        lemma_sum_push(counts_for(before, c), x);
                    }
                    assert forall|c: Seq<char>|
                #![trigger final(self).has(c)]
                final(self).has(c) <==> old(self).has(c) || c
                        == category@ by {
                        if old(self).has(c) {
                            let k = choose|k: int|
                                0 <= k < before.len() && #[trigger] before[k].category@ == c;
                            assert(after[k].category@ == c);
                        }
                        if c == category@ {
                            assert(after[before.len() as int].category@ == c);
                        }
                        if final(self).has(c) {
                            let k = choose|k: int|
                                0 <= k < after.len() && #[trigger] after[k].category@ == c;
                            if k < before.len() {
                                assert(before[k].category@ == c);
                            }
                        }
                    }
                    assert forall|a: int, b: int| 0 <= a < b < after.len() implies #[trigger] after[a].category@
                        != #[trigger] after[b].category@ by {
                        if b == before.len() {
                            assert(before[a].category@ != category@);
                        } else {
                            assert(before[a].category@ != before[b].category@);
                        }
                    }
                }
            },
        }
    }

    /// Whether the totals of this histogram and of `other` together fit their
    /// types, so that the two can be merged.
    pub fn can_merge(&self, other: &FileTypeHistogram) -> (fits: bool)
        requires
            self.wf(),
            other.wf(),
        ensures
            fits == (self.total_bytes() + other.total_bytes() <= u64::MAX && self.total_files()
                + other.total_files() <= u32::MAX),
    {
        let a = self.total_size();
        let b = other.total_size();
        let m = self.total_count();
        let n = other.total_count();
        b <= u64::MAX - a && n <= u32::MAX - m
    }

    /// Adds the shares of `other` to this histogram, category by category.
    pub fn merge(&mut self, other: &FileTypeHistogram)
        requires
            old(self).wf(),
            other.wf(),
            old(self).total_bytes() + other.total_bytes() <= u64::MAX,
            old(self).total_files() + other.total_files() <= u32::MAX,
        ensures
            final(self).wf(),
            final(self).total_bytes() == old(self).total_bytes() + other.total_bytes(),
            final(self).total_files() == old(self).total_files() + other.total_files(),
            forall|c: Seq<char>|
                #![trigger final(self).bytes_in(c)]
                final(self).bytes_in(c) == old(self).bytes_in(c) + other.bytes_in(c),
            forall|c: Seq<char>|
                #![trigger final(self).files_in(c)]
                final(self).files_in(c) == old(self).files_in(c) + other.files_in(c),
            forall|c: Seq<char>|
                #![trigger final(self).has(c)]
                final(self).has(c) <==> old(self).has(c) || other.has(c),
    {
        let n = other.entries.len();
        let mut i: usize = 0;
        while i < n
            invariant
                i <= n,
                n == other.entries@.len(),
                self.wf(),
                other.wf(),
                old(self).total_bytes() + other.total_bytes() <= u64::MAX,
                old(self).total_files() + other.total_files() <= u32::MAX,
                self.total_bytes() == old(self).total_bytes() + sum(
                    sizes(other.entries@).take(i as int),
                ),
                self.total_files() == old(self).total_files() + sum(
                    counts(other.entries@).take(i as int),
                ),
                forall|c: Seq<char>|
                    #![trigger self.bytes_in(c)]
                    self.bytes_in(c) == old(self).bytes_in(c) + sum(
                        sizes_for(other.entries@, c).take(i as int),
                    ),
                forall|c: Seq<char>|
                    #![trigger self.files_in(c)]
                    self.files_in(c) == old(self).files_in(c) + sum(
                        counts_for(other.entries@, c).take(i as int),
                    ),
                forall|c: Seq<char>|
                    #![trigger self.has(c)]
                    self.has(c) <==> old(self).has(c) || exists|k: int|
                        0 <= k < i && #[trigger] other.entries@[k].category@ == c,
            decreases n - i,
        {
            let ghost before = *self;
            proof {
                lemma_sum_take_next(sizes(other.entries@), i as int);
                lemma_sum_take_le(sizes(other.entries@), i + 1);
                lemma_sum_take_next(counts(other.entries@), i as int);
                lemma_sum_take_le(counts(other.entries@), i + 1);
            }
            let entry = &other.entries[i];
            self.credit(entry.category.as_str(), entry.size, entry.count);
            proof {
                assert forall|c: Seq<char>|
                    #![trigger self.bytes_in(c)]
                    self.bytes_in(c) == old(self).bytes_in(c) + sum(
                        sizes_for(other.entries@, c).take(i + 1),
                    ) by {
                    assert(before.bytes_in(c) == old(self).bytes_in(c) + sum(
                        sizes_for(other.entries@, c).take(i as int),
                    ));
                    lemma_sum_take_next(sizes_for(other.entries@, c), i as int);
                }
                assert forall|c: Seq<char>|
                    #![trigger self.files_in(c)]
                    self.files_in(c) == old(self).files_in(c) + sum(
                        counts_for(other.entries@, c).take(i + 1),
                    ) by {
                    assert(before.files_in(c) == old(self).files_in(c) + sum(
                        counts_for(other.entries@, c).take(i as int),
                    ));
                    lemma_sum_take_next(counts_for(other.entries@, c), i as int);
                }
                assert forall|c: Seq<char>|
                    #![trigger self.has(c)]
                    self.has(c) <==> old(self).has(c) || exists|k: int|
                        0 <= k < i + 1 && #[trigger] other.entries@[k].category@ == c by {
                    assert(before.has(c) <==> old(self).has(c) || exists|k: int|
                        0 <= k < i && #[trigger] other.entries@[k].category@ == c);
                    if c == entry.category@ {
                        assert(other.entries@[i as int].category@ == c);
                    }
                }
            }
            i += 1;
        }
        proof {
            lemma_sum_take_all(sizes(other.entries@));
            lemma_sum_take_all(counts(other.entries@));
            assert forall|c: Seq<char>|
                #![trigger self.bytes_in(c)]
                self.bytes_in(c) == old(self).bytes_in(c) + other.bytes_in(c) by {
                lemma_sum_take_all(sizes_for(other.entries@, c));
            }
            assert forall|c: Seq<char>|
                #![trigger self.files_in(c)]
                self.files_in(c) == old(self).files_in(c) + other.files_in(c) by {
                lemma_sum_take_all(counts_for(other.entries@, c));
            }
        }
    }

    /// Adds one file of `size` bytes to `category`.
    pub fn add(&mut self, category: &str, size: u64)
        requires
            old(self).wf(),
            old(self).total_bytes() + size <= u64::MAX,
            old(self).total_files() + 1 <= u32::MAX,
        ensures
            final(self).wf(),
            final(self).total_bytes() == old(self).total_bytes() + size,
            final(self).total_files() == old(self).total_files() + 1,
            forall|c: Seq<char>|
                #![trigger final(self).bytes_in(c)]
                final(self).bytes_in(c) == old(self).bytes_in(c) + if c == category@ {
                    size as nat
                } else {
                    0nat
                },
            forall|c: Seq<char>|
                #![trigger final(self).files_in(c)]
                final(self).files_in(c) == old(self).files_in(c) + if c == category@ {
                    1nat
                } else {
                    0nat
                },
            forall|c: Seq<char>|
                #![trigger final(self).has(c)]
                final(self).has(c) <==> old(self).has(c) || c == category@,
    {
        self.credit(category, size, 1);
    }
}

} // verus!
