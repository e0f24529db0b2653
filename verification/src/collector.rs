//! Global bounded top-K merger, tagged with a query generation.
//!
//! The collector keeps at most `capacity` entries, sorted by descending
//! score. Workers submit batches already sorted descending; a batch tagged
//! with a stale generation is dropped unchanged. A merge keeps the
//! highest-scored entries of the old contents and the batch, existing
//! entries winning ties.

use vstd::multiset::Multiset;
use vstd::prelude::*;

use crate::byte_storage::FilePath;

verus! {

/// Scores never increase along the sequence.
pub open spec fn sorted_desc(s: Seq<(i32, Seq<u8>)>) -> bool {
    forall|i: int, j: int| 0 <= i < j < s.len() ==> (#[trigger] s[i]).0 >= (#[trigger] s[j]).0
}

/// Two-pointer merge of two descending sequences into one descending
/// sequence; the left (existing) side wins ties.
pub open spec fn merge_desc(a: Seq<(i32, Seq<u8>)>, b: Seq<(i32, Seq<u8>)>) -> Seq<
    (i32, Seq<u8>),
>
    decreases a.len(), b.len(),
{
    if a.len() == 0 {
        b
    } else if b.len() == 0 {
        a
    } else if a[0].0 < b[0].0 {
        seq![b[0]] + merge_desc(a, b.skip(1))
    } else {
        seq![a[0]] + merge_desc(a.skip(1), b)
    }
}

/// The entry sequence a pair of score and path columns stands for.
pub open spec fn zip_entries(points: Seq<i32>, items: Seq<FilePath>) -> Seq<(i32, Seq<u8>)> {
    Seq::new(points.len(), |i: int| (points[i], items[i]@))
}

pub proof fn lemma_merge_len(a: Seq<(i32, Seq<u8>)>, b: Seq<(i32, Seq<u8>)>)
    ensures
        merge_desc(a, b).len() == a.len() + b.len(),
    decreases a.len(), b.len(),
{
    if a.len() == 0 || b.len() == 0 {
    } else if a[0].0 < b[0].0 {
        lemma_merge_len(a, b.skip(1));
    } else {
        lemma_merge_len(a.skip(1), b);
    }
}

/// Merging two descending sequences yields a descending sequence whose head
/// is one of the two heads.
pub proof fn lemma_merge_sorted(a: Seq<(i32, Seq<u8>)>, b: Seq<(i32, Seq<u8>)>)
    requires
        sorted_desc(a),
        sorted_desc(b),
    ensures
        sorted_desc(merge_desc(a, b)),
        merge_desc(a, b).len() > 0 ==> (a.len() > 0 && merge_desc(a, b)[0] == a[0]) || (b.len()
            > 0 && merge_desc(a, b)[0] == b[0]),
    decreases a.len(), b.len(),
{
    let m = merge_desc(a, b);
    if a.len() == 0 || b.len() == 0 {
    } else if a[0].0 < b[0].0 {
        let mr = merge_desc(a, b.skip(1));
        lemma_merge_sorted(a, b.skip(1));
        assert forall|i: int, j: int| 0 <= i < j < m.len() implies (#[trigger] m[i]).0
            >= (#[trigger] m[j]).0 by {
            if i > 0 {
                assert(m[i] == mr[i - 1] && m[j] == mr[j - 1]);
            } else {
                assert(m[j] == mr[j - 1]);
                if mr.len() > 0 {
                    assert(mr[0].0 <= b[0].0);
                }
            }
        }
    } else {
        let mr = merge_desc(a.skip(1), b);
        lemma_merge_sorted(a.skip(1), b);
        assert forall|i: int, j: int| 0 <= i < j < m.len() implies (#[trigger] m[i]).0
            >= (#[trigger] m[j]).0 by {
            if i > 0 {
                assert(m[i] == mr[i - 1] && m[j] == mr[j - 1]);
            } else {
                assert(m[j] == mr[j - 1]);
                if mr.len() > 0 {
                    assert(mr[0].0 <= a[0].0);
                }
            }
        }
    }
}

/// A merge holds exactly the entries of its two inputs.
pub proof fn lemma_merge_multiset(a: Seq<(i32, Seq<u8>)>, b: Seq<(i32, Seq<u8>)>)
    ensures
        merge_desc(a, b).to_multiset() == a.to_multiset().add(b.to_multiset()),
    decreases a.len(), b.len(),
{
    broadcast use vstd::seq_lib::group_to_multiset_ensures;

    let m = merge_desc(a, b);
    if a.len() == 0 {
        assert(a.to_multiset() =~= Multiset::<(i32, Seq<u8>)>::empty());
        assert(m.to_multiset() =~= a.to_multiset().add(b.to_multiset()));
    } else if b.len() == 0 {
        assert(b.to_multiset() =~= Multiset::<(i32, Seq<u8>)>::empty());
        assert(m.to_multiset() =~= a.to_multiset().add(b.to_multiset()));
    } else if a[0].0 < b[0].0 {
        lemma_merge_multiset(a, b.skip(1));
        vstd::seq_lib::lemma_multiset_commutative(seq![b[0]], merge_desc(a, b.skip(1)));
        assert(seq![b[0]].to_multiset() =~= Multiset::<(i32, Seq<u8>)>::empty().insert(b[0]));
        assert(b =~= seq![b[0]] + b.skip(1));
        vstd::seq_lib::lemma_multiset_commutative(seq![b[0]], b.skip(1));
        assert(m.to_multiset() =~= a.to_multiset().add(b.to_multiset()));
    } else {
        lemma_merge_multiset(a.skip(1), b);
        vstd::seq_lib::lemma_multiset_commutative(seq![a[0]], merge_desc(a.skip(1), b));
        assert(seq![a[0]].to_multiset() =~= Multiset::<(i32, Seq<u8>)>::empty().insert(a[0]));
        assert(a =~= seq![a[0]] + a.skip(1));
        vstd::seq_lib::lemma_multiset_commutative(seq![a[0]], a.skip(1));
        assert(m.to_multiset() =~= a.to_multiset().add(b.to_multiset()));
    }
}

/// `kept` holds the `k` highest-scored of the entries in `all` (all of them
/// when there are fewer), sorted descending: every entry of `all` beyond
/// those kept scores no more than the lowest kept score.
pub open spec fn holds_top_k(
    kept: Seq<(i32, Seq<u8>)>,
    all: Multiset<(i32, Seq<u8>)>,
    k: int,
) -> bool {
    &&& sorted_desc(kept)
    &&& kept.len() == if all.len() <= k {
        all.len() as int
    } else {
        k
    }
    &&& forall|e: (i32, Seq<u8>)| #[trigger] kept.to_multiset().count(e) <= all.count(e)
    &&& forall|e: (i32, Seq<u8>)|
        kept.to_multiset().count(e) < #[trigger] all.count(e) ==> kept.len() > 0 && e.0
            <= kept.last().0
}

/// A merge is at least as good as the existing side at every rank.
proof fn lemma_merge_dominates(a: Seq<(i32, Seq<u8>)>, b: Seq<(i32, Seq<u8>)>)
    requires
        sorted_desc(a),
        sorted_desc(b),
    ensures
        forall|i: int| 0 <= i < a.len() ==> (#[trigger] merge_desc(a, b)[i]).0 >= a[i].0,
    decreases a.len(), b.len(),
{
    lemma_merge_len(a, b);
    let m = merge_desc(a, b);
    if a.len() == 0 || b.len() == 0 {
    } else if a[0].0 < b[0].0 {
        let mr = merge_desc(a, b.skip(1));
        lemma_merge_len(a, b.skip(1));
        lemma_merge_dominates(a, b.skip(1));
        lemma_merge_sorted(a, b.skip(1));
        assert forall|i: int| 0 <= i < a.len() implies (#[trigger] m[i]).0 >= a[i].0 by {
            if i == 0 {
                assert(m[0] == b[0]);
            } else {
                assert(m[i] == mr[i - 1]);
                assert(mr[i - 1].0 >= mr[i].0);
                assert(mr[i].0 >= a[i].0);
            }
        }
    } else {
        let mr = merge_desc(a.skip(1), b);
        lemma_merge_dominates(a.skip(1), b);
        assert forall|i: int| 0 <= i < a.len() implies (#[trigger] m[i]).0 >= a[i].0 by {
            if i == 0 {
                assert(m[0] == a[0]);
            } else {
                assert(m[i] == mr[i - 1]);
                assert(mr[i - 1].0 >= a.skip(1)[i - 1].0);
                assert(a.skip(1)[i - 1] == a[i]);
            }
        }
    }
}

/// Merging one more sorted batch into entries that are the `k` highest of
/// everything accepted so far, then keeping at most `k`, yields the `k`
/// highest of everything accepted including the batch. Applied once per
/// `update` of a generation, it shows the collector always holds the
/// highest-scored entries ever submitted under that generation.
pub proof fn lemma_update_keeps_top_k(
    a: Seq<(i32, Seq<u8>)>,
    b: Seq<(i32, Seq<u8>)>,
    all: Multiset<(i32, Seq<u8>)>,
    k: int,
)
    requires
        k >= 1,
        holds_top_k(a, all, k),
        sorted_desc(b),
    ensures
        ({
            let merged = merge_desc(a, b);
            let kept = if merged.len() <= k {
                merged
            } else {
                merged.take(k)
            };
            holds_top_k(kept, all.add(b.to_multiset()), k)
        }),
{
    broadcast use vstd::multiset::group_multiset_axioms;
    broadcast use vstd::seq_lib::group_to_multiset_ensures;

    lemma_merge_len(a, b);
    lemma_merge_sorted(a, b);
    lemma_merge_multiset(a, b);
    lemma_merge_dominates(a, b);
    let m = merge_desc(a, b);
    let bm = b.to_multiset();
    let all2 = all.add(bm);
    let kept = if m.len() <= k {
        m
    } else {
        m.take(k)
    };
    let rest = if m.len() <= k {
        Seq::<(i32, Seq<u8>)>::empty()
    } else {
        m.skip(k)
    };
    assert(m =~= kept + rest);
    vstd::seq_lib::lemma_multiset_commutative(kept, rest);
    assert(bm.len() == b.len());
    assert(all2.len() == all.len() + b.len());
    assert(a.to_multiset().len() == a.len());
    assert(a.to_multiset().subset_of(all));
    assert(all.sub(a.to_multiset()).len() == all.len() - a.len());
    assert(all.len() >= a.len());
    assert(kept.len() == if all2.len() <= k {
        all2.len() as int
    } else {
        k
    }) by {
        if m.len() <= k {
            if a.len() < k {
                assert(all.len() == a.len());
            } else {
                assert(a.len() == k);
                assert(b.len() == 0);
                assert(all.len() >= k);
            }
        } else {
            assert(all2.len() >= m.len());
        }
    }
    assert forall|i: int, j: int| 0 <= i < j < kept.len() implies (#[trigger] kept[i]).0
        >= (#[trigger] kept[j]).0 by {
        assert(kept[i] == m[i] && kept[j] == m[j]);
    }
    assert forall|e: (i32, Seq<u8>)| #[trigger]
        kept.to_multiset().count(e) <= all2.count(e) by {
        assert(m.to_multiset().count(e) == kept.to_multiset().count(e)
            + rest.to_multiset().count(e));
        assert(m.to_multiset().count(e) == a.to_multiset().count(e) + bm.count(e));
        assert(a.to_multiset().count(e) <= all.count(e));
    }
    assert forall|e: (i32, Seq<u8>)|
        kept.to_multiset().count(e) < #[trigger] all2.count(e) implies kept.len() > 0 && e.0
        <= kept.last().0 by {
        assert(all2.count(e) <= all2.len());
        assert(kept.len() > 0);
        assert(m.to_multiset().count(e) == kept.to_multiset().count(e)
            + rest.to_multiset().count(e));
        assert(m.to_multiset().count(e) == a.to_multiset().count(e) + bm.count(e));
        if rest.to_multiset().count(e) > 0 {
            assert(rest.contains(e));
            let j = choose|j: int| 0 <= j < rest.len() && rest[j] == e;
            assert(m[k + j] == e);
            assert(m[k + j].0 <= m[k - 1].0);
            assert(kept.last() == m[k - 1]);
        } else {
            assert(a.to_multiset().count(e) < all.count(e));
            assert(e.0 <= a.last().0);
            assert(a.len() > 0);
            let diff = all.sub(a.to_multiset());
            assert(diff.count(e) > 0);
            assert(diff.count(e) <= diff.len());
            assert(all.len() >= a.len() + 1);
            assert(a.len() == k);
            assert(m[k - 1].0 >= a[k - 1].0);
            assert(a.last() == a[k - 1]);
            if m.len() <= k {
                assert(m.len() == a.len() + b.len());
                assert(m.len() == k);
                assert(kept.last() == m[k - 1]);
            } else {
                assert(kept.last() == m[k - 1]);
            }
        }
    }
}

/// Bounded top-K structure. Entries are kept sorted by descending score and
/// all belong to the current generation.
pub struct Collector {
    data: Vec<FilePath>,
    points: Vec<i32>,
    capacity: usize,
    current_min: i32,
    tag: i32,
}

impl Collector {
    /// The kept entries: score and path bytes, best first.
    pub closed spec fn entries(&self) -> Seq<(i32, Seq<u8>)> {
        Seq::new(self.points@.len(), |i: int| (self.points@[i], self.data@[i]@))
    }

    pub closed spec fn cap(&self) -> int {
        self.capacity as int
    }

    pub closed spec fn generation(&self) -> int {
        self.tag as int
    }

    pub closed spec fn wf(&self) -> bool {
        &&& self.points@.len() == self.data@.len()
        &&& self.points@.len() <= self.capacity
        &&& self.capacity >= 1
        &&& sorted_desc(self.entries())
    }

    pub fn new(capacity: usize) -> (r: Self)
        requires
            capacity >= 1,
        ensures
            r.wf(),
            r.entries().len() == 0,
            r.cap() == capacity,
            r.generation() == 0,
    {
        Collector {
            data: Vec::new(),
            points: Vec::new(),
            capacity,
            current_min: 0,
            tag: 0,
        }
    }

    pub fn len(&self) -> (r: usize)
        ensures
            r == self.entries().len(),
    {
        self.points.len()
    }

    pub fn generation_tag(&self) -> (r: i32)
        ensures
            r == self.generation(),
    {
        self.tag
    }

    /// The entry at rank `i` (0 is the best): its score and a copy of its path.
    pub fn entry_at(&self, i: usize) -> (r: (i32, FilePath))
        requires
            self.wf(),
            i < self.entries().len(),
        ensures
            r.0 == self.entries()[i as int].0,
            r.1@ == self.entries()[i as int].1,
    {
        (self.points[i], self.data[i].duplicate())
    }

    /// Start a new generation: drop all entries and reset the lower bound.
    pub fn clear(&mut self)
        requires
            old(self).wf(),
            old(self).generation() < i32::MAX,
        ensures
            final(self).wf(),
            final(self).entries().len() == 0,
            final(self).generation() == old(self).generation() + 1,
            final(self).cap() == old(self).cap(),
    {
        self.tag = self.tag + 1;
        self.points.clear();
        self.data.clear();
        self.current_min = 0;
    }

    /// Merge a batch of candidates, sorted descending, into the kept
    /// entries. A batch whose generation is stale changes nothing and
    /// returns `-1`. Otherwise the highest-scored entries of both are kept,
    /// at most `capacity` of them, existing entries winning ties; the
    /// K-th score is returned exactly when the collector is now full.
    pub fn update(&mut self, points: Vec<i32>, items: Vec<FilePath>, tag: i32) -> (new_min: i32)
        requires
            old(self).wf(),
            points@.len() == items@.len(),
            sorted_desc(zip_entries(points@, items@)),
        ensures
            final(self).wf(),
            final(self).cap() == old(self).cap(),
            final(self).generation() == old(self).generation(),
            tag != old(self).generation() ==> *final(self) == *old(self) && new_min == -1,
            tag == old(self).generation() ==> ({
                let merged = merge_desc(old(self).entries(), zip_entries(points@, items@));
                let kept = if merged.len() <= old(self).cap() {
                    merged
                } else {
                    merged.take(old(self).cap())
                };
                &&& final(self).entries() == kept
                &&& (kept.len() == old(self).cap() ==> new_min == kept.last().0)
                &&& (kept.len() < old(self).cap() ==> new_min == -1)
            }),
    {
        if tag != self.tag {
            return -1;
        }
        let ghost a = self.entries();
        let ghost b = zip_entries(points@, items@);
        let ghost merged = merge_desc(a, b);
        proof {
            lemma_merge_len(a, b);
            lemma_merge_sorted(a, b);
        }
        let cap = self.capacity;
        proof {
            assert(a.skip(0) =~= a);
            assert(b.skip(0) =~= b);
            assert(merged.skip(0) =~= merged);
        }
        let mut new_points: Vec<i32> = Vec::new();
        let mut new_data: Vec<FilePath> = Vec::new();
        let mut mi: usize = 0;
        let mut yi: usize = 0;
        while mi < self.points.len() && yi < points.len() && mi + yi < cap
            invariant
                self.wf(),
                a == self.entries(),
                b == zip_entries(points@, items@),
                merged == merge_desc(a, b),
                merged.len() == a.len() + b.len(),
                points@.len() == items@.len(),
                cap == self.capacity,
                mi <= a.len(),
                yi <= b.len(),
                mi + yi <= cap,
                new_points@.len() == mi + yi,
                new_data@.len() == mi + yi,
                zip_entries(new_points@, new_data@) == merged.take(mi + yi),
                merge_desc(a.skip(mi as int), b.skip(yi as int)) == merged.skip(mi + yi),
            decreases a.len() + b.len() - mi - yi,
        {
            let ghost k = mi + yi;
            proof {
                assert(a.skip(mi as int)[0] == a[mi as int]);
                assert(b.skip(yi as int)[0] == b[yi as int]);
            }
            if self.points[mi] < points[yi] {
                new_points.push(points[yi]);
                new_data.push(items[yi].duplicate());
                proof {
                    assert(b.skip(yi as int).skip(1) =~= b.skip(yi as int + 1));
                    assert(merged.skip(k as int) == seq![b[yi as int]] + merge_desc(
                        a.skip(mi as int),
                        b.skip(yi as int + 1),
                    ));
                    assert(merged.skip(k as int)[0] == merged[k as int]);
                    assert(merged.skip(k as int)[0] == merged[k as int]);
                assert(merged[k as int] == b[yi as int]);
                    assert(merged.skip(k as int).skip(1) =~= merged.skip(k as int + 1));
                    assert(zip_entries(new_points@, new_data@) =~= merged.take(k as int + 1));
                }
                yi = yi + 1;
            } else {
                new_points.push(self.points[mi]);
                new_data.push(self.data[mi].duplicate());
                proof {
                    assert(a.skip(mi as int).skip(1) =~= a.skip(mi as int + 1));
                    assert(merged.skip(k as int) == seq![a[mi as int]] + merge_desc(
                        a.skip(mi as int + 1),
                        b.skip(yi as int),
                    ));
                    assert(merged.skip(k as int)[0] == merged[k as int]);
                    assert(merged.skip(k as int)[0] == merged[k as int]);
                assert(merged[k as int] == a[mi as int]);
                    assert(merged.skip(k as int).skip(1) =~= merged.skip(k as int + 1));
                    assert(zip_entries(new_points@, new_data@) =~= merged.take(k as int + 1));
                }
                mi = mi + 1;
            }
        }
        while mi < self.points.len() && mi + yi < cap
            invariant
                self.wf(),
                a == self.entries(),
                b == zip_entries(points@, items@),
                merged == merge_desc(a, b),
                merged.len() == a.len() + b.len(),
                points@.len() == items@.len(),
                cap == self.capacity,
                mi <= a.len(),
                yi <= b.len(),
                mi + yi <= cap,
                mi < a.len() && mi + yi < cap ==> yi == b.len(),
                new_points@.len() == mi + yi,
                new_data@.len() == mi + yi,
                zip_entries(new_points@, new_data@) == merged.take(mi + yi),
                merge_desc(a.skip(mi as int), b.skip(yi as int)) == merged.skip(mi + yi),
            decreases a.len() - mi,
        {
            let ghost k = mi + yi;
            proof {
                assert(b.skip(yi as int).len() == 0);
                assert(a.skip(mi as int)[0] == a[mi as int]);
                assert(merged.skip(k as int) == a.skip(mi as int));
            }
            new_points.push(self.points[mi]);
            new_data.push(self.data[mi].duplicate());
            proof {
                assert(a.skip(mi as int).skip(1) =~= a.skip(mi as int + 1));
                assert(merged.skip(k as int)[0] == merged[k as int]);
                assert(merged[k as int] == a[mi as int]);
                assert(merge_desc(a.skip(mi as int + 1), b.skip(yi as int)) == a.skip(
                    mi as int + 1,
                ));
                assert(merged.skip(k as int).skip(1) =~= merged.skip(k as int + 1));
                assert(zip_entries(new_points@, new_data@) =~= merged.take(k as int + 1));
            }
            mi = mi + 1;
        }
        while yi < points.len() && mi + yi < cap
            invariant
                self.wf(),
                a == self.entries(),
                b == zip_entries(points@, items@),
                merged == merge_desc(a, b),
                merged.len() == a.len() + b.len(),
                points@.len() == items@.len(),
                cap == self.capacity,
                mi <= a.len(),
                yi <= b.len(),
                mi + yi <= cap,
                yi < b.len() && mi + yi < cap ==> mi == a.len(),
                new_points@.len() == mi + yi,
                new_data@.len() == mi + yi,
                zip_entries(new_points@, new_data@) == merged.take(mi + yi),
                merge_desc(a.skip(mi as int), b.skip(yi as int)) == merged.skip(mi + yi),
            decreases b.len() - yi,
        {
            let ghost k = mi + yi;
            proof {
                assert(a.skip(mi as int).len() == 0);
                assert(b.skip(yi as int)[0] == b[yi as int]);
                assert(merged.skip(k as int) == b.skip(yi as int));
            }
            new_points.push(points[yi]);
            new_data.push(items[yi].duplicate());
            proof {
                assert(b.skip(yi as int).skip(1) =~= b.skip(yi as int + 1));
                assert(merged.skip(k as int)[0] == merged[k as int]);
                assert(merged[k as int] == b[yi as int]);
                assert(merge_desc(a.skip(mi as int), b.skip(yi as int + 1)) == b.skip(
                    yi as int + 1,
                ));
                assert(merged.skip(k as int).skip(1) =~= merged.skip(k as int + 1));
                assert(zip_entries(new_points@, new_data@) =~= merged.take(k as int + 1));
            }
            yi = yi + 1;
        }
        proof {
            if mi + yi < cap {
                assert(mi == a.len() && yi == b.len());
                assert(merged.take(mi + yi) =~= merged);
            }
        }
        self.points = new_points;
        self.data = new_data;
        let ghost kept = if merged.len() <= cap {
            merged
        } else {
            merged.take(cap as int)
        };
        proof {
            assert(self.entries() =~= zip_entries(self.points@, self.data@));
            assert(self.entries() == kept);
            assert forall|i: int, j: int| 0 <= i < j < kept.len() implies (#[trigger] kept[i]).0
                >= (#[trigger] kept[j]).0 by {
                assert(kept[i] == merged[i] && kept[j] == merged[j]);
            }
        }
        if self.points.len() == cap {
            let last = self.points[cap - 1];
            proof {
                assert(self.entries().last().0 == last);
            }
            return last;
        }
        -1
    }
}

} // verus!
