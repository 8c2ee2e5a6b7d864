//! Grouping parsed directives into a per-bucket work plan.
//!
//! A `WorkPlan` maps each bucket to the keys that must be fetched from it
//! and the destination of each key.  Directives are folded in input
//! order; a later directive for the same bucket and key overwrites the
//! recorded destination.  The plan is viewed as a nested map, so its
//! contents do not depend on the order in which buckets or keys happen to
//! be stored.

use vstd::prelude::*;

use crate::bytes::{bytes_eq, clone_bytes};
use vstd::map::*;
use crate::directive::{EntryV, ParsedEntry};

verus! {

/// One planned fetch: object key and destination path.
#[derive(Debug, Clone)]
pub struct WorkItem {
    pub key: Vec<u8>,
    pub dest: Vec<u8>,
}

/// All planned fetches from one bucket.
#[derive(Debug, Clone)]
pub struct BucketPlan {
    pub bucket: Vec<u8>,
    pub items: Vec<WorkItem>,
}

/// The whole run's work, grouped by bucket.
#[derive(Debug, Clone)]
pub struct WorkPlan {
    pub buckets: Vec<BucketPlan>,
}

/// Index of the first item at or after `from` whose key is `k`;
/// `items.len()` when there is none.
pub open spec fn item_index_from(items: Seq<WorkItem>, from: int, k: Seq<u8>) -> int
    decreases items.len() - from,
{
    if from < 0 || from >= items.len() {
        items.len() as int
    } else if items[from].key@ == k {
        from
    } else {
        item_index_from(items, from + 1, k)
    }
}

/// Index of the first item whose key is `k`; `items.len()` when absent.
pub open spec fn item_index(items: Seq<WorkItem>, k: Seq<u8>) -> int {
    item_index_from(items, 0, k)
}

/// Index of the first bucket at or after `from` named `b`; `bs.len()`
/// when there is none.
pub open spec fn bucket_index_from(bs: Seq<BucketPlan>, from: int, b: Seq<u8>) -> int
    decreases bs.len() - from,
{
    if from < 0 || from >= bs.len() {
        bs.len() as int
    } else if bs[from].bucket@ == b {
        from
    } else {
        bucket_index_from(bs, from + 1, b)
    }
}

/// Index of the first bucket named `b`; `bs.len()` when absent.
pub open spec fn bucket_index(bs: Seq<BucketPlan>, b: Seq<u8>) -> int {
    bucket_index_from(bs, 0, b)
}

/// `item_index_from` returns the least index at or after `from` whose key
/// is `k`.
pub proof fn lemma_item_index_from(items: Seq<WorkItem>, from: int, k: Seq<u8>)
    requires
        0 <= from <= items.len(),
    ensures
        from <= item_index_from(items, from, k) <= items.len(),
        item_index_from(items, from, k) < items.len() ==> items[item_index_from(
            items,
            from,
            k,
        )].key@ == k,
        forall|j: int| from <= j < item_index_from(items, from, k) ==> items[j].key@ != k,
    decreases items.len() - from,
{
    if from < items.len() && items[from].key@ != k {
        lemma_item_index_from(items, from + 1, k);
    }
}

/// An index whose key is `k`, with no earlier one, is exactly
/// `item_index_from`.
pub proof fn lemma_item_index_from_is(items: Seq<WorkItem>, from: int, k: Seq<u8>, i: int)
    requires
        0 <= from <= i < items.len(),
        items[i].key@ == k,
        forall|j: int| from <= j < i ==> items[j].key@ != k,
    ensures
        item_index_from(items, from, k) == i,
    decreases i - from,
{
    if from < i {
        lemma_item_index_from_is(items, from + 1, k, i);
    }
}

/// `bucket_index_from` returns the least index at or after `from` whose
/// name is `b`.
pub proof fn lemma_bucket_index_from(bs: Seq<BucketPlan>, from: int, b: Seq<u8>)
    requires
        0 <= from <= bs.len(),
    ensures
        from <= bucket_index_from(bs, from, b) <= bs.len(),
        bucket_index_from(bs, from, b) < bs.len() ==> bs[bucket_index_from(
            bs,
            from,
            b,
        )].bucket@ == b,
        forall|j: int| from <= j < bucket_index_from(bs, from, b) ==> bs[j].bucket@ != b,
    decreases bs.len() - from,
{
    if from < bs.len() && bs[from].bucket@ != b {
        lemma_bucket_index_from(bs, from + 1, b);
    }
}

/// An index whose name is `b`, with no earlier one, is exactly
/// `bucket_index_from`.
pub proof fn lemma_bucket_index_from_is(bs: Seq<BucketPlan>, from: int, b: Seq<u8>, i: int)
    requires
        0 <= from <= i < bs.len(),
        bs[i].bucket@ == b,
        forall|j: int| from <= j < i ==> bs[j].bucket@ != b,
    ensures
        bucket_index_from(bs, from, b) == i,
    decreases i - from,
{
    if from < i {
        lemma_bucket_index_from_is(bs, from + 1, b, i);
    }
}

/// The key-to-destination map held by one bucket's item list.
pub open spec fn items_as_map(items: Seq<WorkItem>) -> Map<Seq<u8>, Seq<u8>> {
    Map::new(
        |k: Seq<u8>| item_index(items, k) < items.len(),
        |k: Seq<u8>| items[item_index(items, k)].dest@,
    )
}

/// The nested bucket-to-key-to-destination map held by a bucket list.
pub open spec fn as_map(bs: Seq<BucketPlan>) -> Map<Seq<u8>, Map<Seq<u8>, Seq<u8>>> {
    Map::new(
        |b: Seq<u8>| bucket_index(bs, b) < bs.len(),
        |b: Seq<u8>| items_as_map(bs[bucket_index(bs, b)].items@),
    )
}

/// Keys are unique within one bucket's item list.
pub open spec fn items_wf(items: Seq<WorkItem>) -> bool {
    forall|i: int, j: int|
        #![trigger items[i], items[j]]
        0 <= i < j < items.len() ==> items[i].key@ != items[j].key@
}

/// Bucket names are unique, and each bucket's keys are unique.
pub open spec fn plan_wf(bs: Seq<BucketPlan>) -> bool {
    &&& forall|i: int, j: int|
        #![trigger bs[i], bs[j]]
        0 <= i < j < bs.len() ==> bs[i].bucket@ != bs[j].bucket@
    &&& forall|i: int| 0 <= i < bs.len() ==> items_wf(#[trigger] bs[i].items@)
}

impl View for WorkPlan {
    type V = Map<Seq<u8>, Map<Seq<u8>, Seq<u8>>>;

    open spec fn view(&self) -> Map<Seq<u8>, Map<Seq<u8>, Seq<u8>>> {
        as_map(self.buckets@)
    }
}

/// The views of a sequence of parsed directives.
pub open spec fn entries_view(s: Seq<ParsedEntry>) -> Seq<EntryV> {
    s.map_values(|e: ParsedEntry| e@)
}

/// The plan a directive list denotes: fold the directives in order,
/// inserting each key under its bucket and overwriting earlier
/// destinations for the same bucket and key.
pub open spec fn plan_map(es: Seq<EntryV>) -> Map<Seq<u8>, Map<Seq<u8>, Seq<u8>>>
    decreases es.len(),
{
    if es.len() == 0 {
        Map::empty()
    } else {
        let m = plan_map(es.drop_last());
        let e = es.last();
        let inner = if m.contains_key(e.bucket) {
            m[e.bucket]
        } else {
            Map::<Seq<u8>, Seq<u8>>::empty()
        };
        m.insert(e.bucket, inner.insert(e.key, e.dest))
    }
}

/// Where the first occurrence of a key sits after pushing an item whose
/// key was absent.
proof fn lemma_item_index_push(items: Seq<WorkItem>, it: WorkItem, k: Seq<u8>)
    requires
        item_index(items, it.key@) == items.len(),
    ensures
        item_index(items.push(it), k) == (if item_index(items, k) < items.len() {
            item_index(items, k)
        } else if it.key@ == k {
            items.len() as int
        } else {
            items.len() as int + 1
        }),
{
    let items2 = items.push(it);
    lemma_item_index_from(items, 0, k);
    lemma_item_index_from(items, 0, it.key@);
    let j0 = item_index(items, k);
    if j0 < items.len() {
        assert(items2[j0].key@ == k);
        assert forall|j: int| 0 <= j < j0 implies items2[j].key@ != k by {
            assert(items2[j] == items[j]);
        }
        lemma_item_index_from_is(items2, 0, k, j0);
    } else if it.key@ == k {
        assert(items2[items.len() as int].key@ == k);
        assert forall|j: int| 0 <= j < items.len() implies items2[j].key@ != k by {
            assert(items2[j] == items[j]);
        }
        lemma_item_index_from_is(items2, 0, k, items.len() as int);
    } else {
        lemma_item_index_from(items2, 0, k);
        if item_index(items2, k) < items2.len() {
            let j1 = item_index(items2, k);
            assert(items2[j1].key@ == k);
            if j1 < items.len() {
                assert(items[j1].key@ == k);
            } else {
                assert(items2[j1] == it);
            }
            assert(false);
        }
    }
}

/// Overwriting the item at an existing key leaves every key's first
/// occurrence where it was.
proof fn lemma_item_index_update(items: Seq<WorkItem>, ki: int, it: WorkItem, k: Seq<u8>)
    requires
        0 <= ki < items.len(),
        items[ki].key@ == it.key@,
    ensures
        item_index(items.update(ki, it), k) == item_index(items, k),
{
    let items2 = items.update(ki, it);
    assert forall|j: int| 0 <= j < items.len() implies #[trigger] items2[j].key@
        == items[j].key@ by {
        if j != ki {
            assert(items2[j] == items[j]);
        } else {
            assert(items2[j] == it);
        }
    }
    lemma_item_index_from(items, 0, k);
    let j0 = item_index(items, k);
    if j0 < items.len() {
        assert(items2[j0].key@ == k);
        assert forall|j: int| 0 <= j < j0 implies items2[j].key@ != k by {
            assert(items2[j].key@ == items[j].key@);
        }
        lemma_item_index_from_is(items2, 0, k, j0);
    } else {
        lemma_item_index_from(items2, 0, k);
        if item_index(items2, k) < items2.len() {
            assert(items2[item_index(items2, k)].key@ == k);
            assert(items[item_index(items2, k)].key@ == k);
            assert(false);
        }
    }
}

/// How pushing a fresh key changes the map a bucket's items hold.
proof fn lemma_items_map_push(items: Seq<WorkItem>, it: WorkItem)
    requires
        items_wf(items),
        item_index(items, it.key@) == items.len(),
    ensures
        items_wf(items.push(it)),
        items_as_map(items.push(it)) == items_as_map(items).insert(it.key@, it.dest@),
{
    let items2 = items.push(it);
    lemma_item_index_from(items, 0, it.key@);
    assert forall|i: int, j: int|
        #![trigger items2[i], items2[j]]
        0 <= i < j < items2.len() implies items2[i].key@ != items2[j].key@ by {
        if j < items.len() {
            assert(items2[i] == items[i] && items2[j] == items[j]);
        } else {
            assert(items2[j] == it && items2[i] == items[i]);
        }
    }
    let m1 = items_as_map(items2);
    let m2 = items_as_map(items).insert(it.key@, it.dest@);
    assert_maps_equal!(m1, m2, k => {
        lemma_item_index_push(items, it, k);
        lemma_item_index_from(items, 0, k);
        lemma_item_index_from(items2, 0, k);
        if item_index(items, k) < items.len() {
            assert(items2[item_index(items, k)] == items[item_index(items, k)]);
        } else if it.key@ == k {
            assert(items2[items.len() as int] == it);
        }
    });
}

/// How overwriting the destination at an existing key changes the map a
/// bucket's items hold.
proof fn lemma_items_map_update(items: Seq<WorkItem>, ki: int, it: WorkItem)
    requires
        items_wf(items),
        0 <= ki < items.len(),
        items[ki].key@ == it.key@,
    ensures
        items_wf(items.update(ki, it)),
        items_as_map(items.update(ki, it)) == items_as_map(items).insert(it.key@, it.dest@),
{
    let items2 = items.update(ki, it);
    assert forall|j: int| 0 <= j < items.len() implies #[trigger] items2[j].key@
        == items[j].key@ by {
        if j != ki {
            assert(items2[j] == items[j]);
        } else {
            assert(items2[j] == it);
        }
    }
    assert forall|i: int, j: int|
        #![trigger items2[i], items2[j]]
        0 <= i < j < items2.len() implies items2[i].key@ != items2[j].key@ by {
        assert(items2[i].key@ == items[i].key@ && items2[j].key@ == items[j].key@);
    }
    lemma_item_index_from(items, 0, it.key@);
    assert(item_index(items, it.key@) == ki) by {
        let j0 = item_index(items, it.key@);
        assert(j0 < items.len());
        if j0 < ki {
            assert(items[j0].key@ == items[ki].key@);
        }
    }
    let m1 = items_as_map(items2);
    let m2 = items_as_map(items).insert(it.key@, it.dest@);
    assert_maps_equal!(m1, m2, k => {
        lemma_item_index_update(items, ki, it, k);
        lemma_item_index_from(items, 0, k);
        lemma_item_index_from(items2, 0, k);
        if k == it.key@ {
            assert(items2[ki] == it);
        } else if item_index(items, k) < items.len() {
            assert(item_index(items, k) != ki);
            assert(items2[item_index(items, k)] == items[item_index(items, k)]);
        }
    });
}

/// Where the first occurrence of a name sits after pushing a bucket whose
/// name was absent.
proof fn lemma_bucket_index_push(bs: Seq<BucketPlan>, bp: BucketPlan, b: Seq<u8>)
    requires
        bucket_index(bs, bp.bucket@) == bs.len(),
    ensures
        bucket_index(bs.push(bp), b) == (if bucket_index(bs, b) < bs.len() {
            bucket_index(bs, b)
        } else if bp.bucket@ == b {
            bs.len() as int
        } else {
            bs.len() as int + 1
        }),
{
    let bs2 = bs.push(bp);
    lemma_bucket_index_from(bs, 0, b);
    lemma_bucket_index_from(bs, 0, bp.bucket@);
    let j0 = bucket_index(bs, b);
    if j0 < bs.len() {
        assert(bs2[j0].bucket@ == b);
        assert forall|j: int| 0 <= j < j0 implies bs2[j].bucket@ != b by {
            assert(bs2[j] == bs[j]);
        }
        lemma_bucket_index_from_is(bs2, 0, b, j0);
    } else if bp.bucket@ == b {
        assert(bs2[bs.len() as int].bucket@ == b);
        assert forall|j: int| 0 <= j < bs.len() implies bs2[j].bucket@ != b by {
            assert(bs2[j] == bs[j]);
        }
        lemma_bucket_index_from_is(bs2, 0, b, bs.len() as int);
    } else {
        lemma_bucket_index_from(bs2, 0, b);
        if bucket_index(bs2, b) < bs2.len() {
            let j1 = bucket_index(bs2, b);
            assert(bs2[j1].bucket@ == b);
            if j1 < bs.len() {
                assert(bs[j1].bucket@ == b);
            } else {
                assert(bs2[j1] == bp);
            }
            assert(false);
        }
    }
}

/// Replacing one bucket by another of the same name leaves every name's
/// first occurrence where it was.
proof fn lemma_bucket_index_update(bs: Seq<BucketPlan>, bi: int, bp: BucketPlan, b: Seq<u8>)
    requires
        0 <= bi < bs.len(),
        bs[bi].bucket@ == bp.bucket@,
    ensures
        bucket_index(bs.update(bi, bp), b) == bucket_index(bs, b),
{
    let bs2 = bs.update(bi, bp);
    assert forall|j: int| 0 <= j < bs.len() implies #[trigger] bs2[j].bucket@
        == bs[j].bucket@ by {
        if j != bi {
            assert(bs2[j] == bs[j]);
        } else {
            assert(bs2[j] == bp);
        }
    }
    lemma_bucket_index_from(bs, 0, b);
    let j0 = bucket_index(bs, b);
    if j0 < bs.len() {
        assert(bs2[j0].bucket@ == b);
        assert forall|j: int| 0 <= j < j0 implies bs2[j].bucket@ != b by {
            assert(bs2[j].bucket@ == bs[j].bucket@);
        }
        lemma_bucket_index_from_is(bs2, 0, b, j0);
    } else {
        lemma_bucket_index_from(bs2, 0, b);
        if bucket_index(bs2, b) < bs2.len() {
            assert(bs2[bucket_index(bs2, b)].bucket@ == b);
            assert(bs[bucket_index(bs2, b)].bucket@ == b);
            assert(false);
        }
    }
}

/// How appending a new bucket changes the plan's map.
proof fn lemma_as_map_push(bs: Seq<BucketPlan>, bp: BucketPlan)
    requires
        plan_wf(bs),
        items_wf(bp.items@),
        bucket_index(bs, bp.bucket@) == bs.len(),
    ensures
        plan_wf(bs.push(bp)),
        as_map(bs.push(bp)) == as_map(bs).insert(bp.bucket@, items_as_map(bp.items@)),
{
    let bs2 = bs.push(bp);
    lemma_bucket_index_from(bs, 0, bp.bucket@);
    assert forall|i: int, j: int|
        #![trigger bs2[i], bs2[j]]
        0 <= i < j < bs2.len() implies bs2[i].bucket@ != bs2[j].bucket@ by {
        if j < bs.len() {
            assert(bs2[i] == bs[i] && bs2[j] == bs[j]);
        } else {
            assert(bs2[j] == bp && bs2[i] == bs[i]);
        }
    }
    assert forall|i: int| 0 <= i < bs2.len() implies items_wf(#[trigger] bs2[i].items@) by {
        if i < bs.len() {
            assert(bs2[i] == bs[i]);
        } else {
            assert(bs2[i] == bp);
        }
    }
    let m1 = as_map(bs2);
    let m2 = as_map(bs).insert(bp.bucket@, items_as_map(bp.items@));
    assert_maps_equal!(m1, m2, b => {
        lemma_bucket_index_push(bs, bp, b);
        lemma_bucket_index_from(bs, 0, b);
        lemma_bucket_index_from(bs2, 0, b);
        if bucket_index(bs, b) < bs.len() {
            assert(bs2[bucket_index(bs, b)] == bs[bucket_index(bs, b)]);
        } else if bp.bucket@ == b {
            assert(bs2[bs.len() as int] == bp);
        }
    });
}

/// How replacing one bucket's items changes the plan's map.
proof fn lemma_as_map_update(bs: Seq<BucketPlan>, bi: int, bp: BucketPlan)
    requires
        plan_wf(bs),
        items_wf(bp.items@),
        0 <= bi < bs.len(),
        bs[bi].bucket@ == bp.bucket@,
    ensures
        plan_wf(bs.update(bi, bp)),
        as_map(bs.update(bi, bp)) == as_map(bs).insert(bp.bucket@, items_as_map(bp.items@)),
{
    let bs2 = bs.update(bi, bp);
    assert forall|j: int| 0 <= j < bs.len() implies #[trigger] bs2[j].bucket@
        == bs[j].bucket@ by {
        if j != bi {
            assert(bs2[j] == bs[j]);
        } else {
            assert(bs2[j] == bp);
        }
    }
    assert forall|i: int, j: int|
        #![trigger bs2[i], bs2[j]]
        0 <= i < j < bs2.len() implies bs2[i].bucket@ != bs2[j].bucket@ by {
        assert(bs2[i].bucket@ == bs[i].bucket@ && bs2[j].bucket@ == bs[j].bucket@);
    }
    assert forall|i: int| 0 <= i < bs2.len() implies items_wf(#[trigger] bs2[i].items@) by {
        if i != bi {
            assert(bs2[i] == bs[i]);
        } else {
            assert(bs2[i] == bp);
        }
    }
    lemma_bucket_index_from(bs, 0, bp.bucket@);
    assert(bucket_index(bs, bp.bucket@) == bi) by {
        let j0 = bucket_index(bs, bp.bucket@);
        assert(j0 < bs.len());
        if j0 < bi {
            assert(bs[j0].bucket@ == bs[bi].bucket@);
        }
    }
    let m1 = as_map(bs2);
    let m2 = as_map(bs).insert(bp.bucket@, items_as_map(bp.items@));
    assert_maps_equal!(m1, m2, b => {
        lemma_bucket_index_update(bs, bi, bp, b);
        lemma_bucket_index_from(bs, 0, b);
        lemma_bucket_index_from(bs2, 0, b);
        if b == bp.bucket@ {
            assert(bs2[bi] == bp);
        } else if bucket_index(bs, b) < bs.len() {
            assert(bucket_index(bs, b) != bi);
            assert(bs2[bucket_index(bs, b)] == bs[bucket_index(bs, b)]);
        }
    });
}

/// First bucket named `b`, as executable code.
pub fn find_bucket(bs: &Vec<BucketPlan>, b: &Vec<u8>) -> (r: usize)
    ensures
        r as int == bucket_index(bs@, b@),
{
    let mut i: usize = 0;
    while i < bs.len()
        invariant
            i <= bs.len(),
            bucket_index(bs@, b@) == bucket_index_from(bs@, i as int, b@),
        decreases bs.len() - i,
    {
        if bytes_eq(&bs[i].bucket, b) {
            return i;
        }
        i = i + 1;
    }
    i
}

/// First item keyed `k`, as executable code.
pub fn find_item(items: &Vec<WorkItem>, k: &Vec<u8>) -> (r: usize)
    ensures
        r as int == item_index(items@, k@),
{
    let mut i: usize = 0;
    while i < items.len()
        invariant
            i <= items.len(),
            item_index(items@, k@) == item_index_from(items@, i as int, k@),
        decreases items.len() - i,
    {
        if bytes_eq(&items[i].key, k) {
            return i;
        }
        i = i + 1;
    }
    i
}

/// Group parsed directives into a work plan.
///
/// The plan's content is exactly the fold of the directives in input
/// order; bucket names are unique in it, as are keys within one bucket.
pub fn build_plan(entries: &Vec<ParsedEntry>) -> (p: WorkPlan)
    ensures
        p@ == plan_map(entries_view(entries@)),
        plan_wf(p.buckets@),
{
    let ghost ev = entries_view(entries@);
    let mut buckets: Vec<BucketPlan> = Vec::new();
    proof {
        assert(ev.take(0) =~= Seq::<EntryV>::empty());
        assert(as_map(buckets@) =~= plan_map(ev.take(0)));
    }
    let mut idx: usize = 0;
    while idx < entries.len()
        invariant
            idx <= entries.len(),
            ev == entries_view(entries@),
            as_map(buckets@) == plan_map(ev.take(idx as int)),
            plan_wf(buckets@),
        decreases entries.len() - idx,
    {
        let e = &entries[idx];
        let ghost bs0 = buckets@;
        let ghost m0 = as_map(bs0);
        proof {
            lemma_bucket_index_from(bs0, 0, e.bucket@);
        }
        let bi = find_bucket(&buckets, &e.bucket);
        if bi == buckets.len() {
            let mut items: Vec<WorkItem> = Vec::new();
            items.push(WorkItem { key: clone_bytes(&e.key), dest: clone_bytes(&e.dest) });
            let bp = BucketPlan { bucket: clone_bytes(&e.bucket), items };
            proof {
                assert(items_wf(Seq::<WorkItem>::empty()));
                assert(item_index(Seq::<WorkItem>::empty(), bp.items@[0].key@) == 0);
                lemma_items_map_push(Seq::<WorkItem>::empty(), bp.items@[0]);
                assert(bp.items@ =~= Seq::<WorkItem>::empty().push(bp.items@[0]));
                assert(items_as_map(Seq::<WorkItem>::empty()) =~= Map::<Seq<u8>, Seq<u8>>::empty());
            }
            buckets.push(bp);
            proof {
                lemma_as_map_push(bs0, bp);
                assert(!m0.contains_key(e.bucket@));
            }
        } else {
            let mut bp = buckets.remove(bi);
            let ghost items0 = bp.items@;
            proof {
                lemma_item_index_from(items0, 0, e.key@);
            }
            let ki = find_item(&bp.items, &e.key);
            let it = WorkItem { key: clone_bytes(&e.key), dest: clone_bytes(&e.dest) };
            if ki == bp.items.len() {
                bp.items.push(it);
                proof {
                    lemma_items_map_push(items0, it);
                }
            } else {
                bp.items.remove(ki);
                bp.items.insert(ki, it);
                proof {
                    assert(bp.items@ =~= items0.update(ki as int, it));
                    lemma_items_map_update(items0, ki as int, it);
                }
            }
            buckets.insert(bi, bp);
            proof {
                assert(buckets@ =~= bs0.update(bi as int, bp));
                lemma_as_map_update(bs0, bi as int, bp);
                assert(m0.contains_key(e.bucket@));
                assert(m0[e.bucket@] == items_as_map(items0));
            }
        }
        proof {
            assert(ev.take(idx + 1).drop_last() =~= ev.take(idx as int));
            assert(ev.take(idx + 1).last() == ev[idx as int]);
            assert(ev[idx as int] == entries@[idx as int]@);
        }
        idx = idx + 1;
    }
    proof {
        assert(ev.take(entries@.len() as int) =~= ev);
    }
    WorkPlan { buckets }
}

impl WorkPlan {
    /// Destination recorded for `key` in `bucket`, if any.
    pub fn get_dest(&self, bucket: &Vec<u8>, key: &Vec<u8>) -> (r: Option<Vec<u8>>)
        ensures
            match r {
                Some(d) => self@.contains_key(bucket@) && self@[bucket@].contains_key(key@)
                    && d@ == self@[bucket@][key@],
                None => !(self@.contains_key(bucket@) && self@[bucket@].contains_key(key@)),
            },
    {
        proof {
            lemma_bucket_index_from(self.buckets@, 0, bucket@);
        }
        let bi = find_bucket(&self.buckets, bucket);
        if bi == self.buckets.len() {
            return None;
        }
        let items = &self.buckets[bi].items;
        proof {
            lemma_item_index_from(items@, 0, key@);
        }
        let ki = find_item(items, key);
        if ki == items.len() {
            return None;
        }
        Some(clone_bytes(&items[ki].dest))
    }
}


/// Entry `i` names bucket `b` and key `k`.
pub open spec fn pair_at(es: Seq<EntryV>, i: int, b: Seq<u8>, k: Seq<u8>) -> bool {
    0 <= i < es.len() && es[i].bucket == b && es[i].key == k
}

/// Some entry names bucket `b` and key `k`.
pub open spec fn has_pair(es: Seq<EntryV>, b: Seq<u8>, k: Seq<u8>) -> bool {
    exists|i: int| pair_at(es, i, b, k)
}

/// Entry `i` names bucket `b`.
pub open spec fn bucket_at(es: Seq<EntryV>, i: int, b: Seq<u8>) -> bool {
    0 <= i < es.len() && es[i].bucket == b
}

/// Some entry names bucket `b`.
pub open spec fn has_bucket(es: Seq<EntryV>, b: Seq<u8>) -> bool {
    exists|i: int| bucket_at(es, i, b)
}

/// The last entry naming bucket `b` and key `k`; `-1` when there is none.
pub open spec fn last_pair(es: Seq<EntryV>, b: Seq<u8>, k: Seq<u8>) -> int
    decreases es.len(),
{
    if es.len() == 0 {
        -1
    } else if es.last().bucket == b && es.last().key == k {
        es.len() - 1
    } else {
        last_pair(es.drop_last(), b, k)
    }
}

/// What the folded plan holds: a bucket appears exactly when some
/// directive named it, a key appears under a bucket exactly when some
/// directive named both, and the destination recorded for a key is the
/// one of the last directive that named its bucket and key.
pub proof fn lemma_plan_map_content(es: Seq<EntryV>)
    ensures
        forall|b: Seq<u8>| #[trigger] plan_map(es).contains_key(b) <==> has_bucket(es, b),
        forall|b: Seq<u8>, k: Seq<u8>|
            plan_map(es).contains_key(b) ==> (#[trigger] plan_map(es)[b].contains_key(k)
                <==> has_pair(es, b, k)),
        forall|b: Seq<u8>, k: Seq<u8>| #[trigger] has_pair(es, b, k) ==> {
            &&& pair_at(es, last_pair(es, b, k), b, k)
            &&& (forall|j: int| last_pair(es, b, k) < j < es.len() ==> !pair_at(es, j, b, k))
            &&& plan_map(es).contains_key(b)
            &&& plan_map(es)[b].contains_key(k)
            &&& plan_map(es)[b][k] == es[last_pair(es, b, k)].dest
        },
    decreases es.len(),
{
    if es.len() == 0 {
        assert forall|b: Seq<u8>| #[trigger] plan_map(es).contains_key(b) <==> has_bucket(
            es,
            b,
        ) by {
            if has_bucket(es, b) {
                let i = choose|i: int| bucket_at(es, i, b);
                assert(false);
            }
        }
        assert forall|b: Seq<u8>, k: Seq<u8>| #[trigger] has_pair(es, b, k) implies false by {
            let i = choose|i: int| pair_at(es, i, b, k);
        }
    } else {
        let es0 = es.drop_last();
        lemma_plan_map_content(es0);
        let e = es.last();
        let m0 = plan_map(es0);
        let inner0 = if m0.contains_key(e.bucket) {
            m0[e.bucket]
        } else {
            Map::<Seq<u8>, Seq<u8>>::empty()
        };
        let m = plan_map(es);
        assert(m == m0.insert(e.bucket, inner0.insert(e.key, e.dest)));
        assert(forall|i: int| 0 <= i < es0.len() ==> #[trigger] es0[i] == es[i]);
        assert(es[es.len() - 1] == e);
        assert forall|b: Seq<u8>| #[trigger] m.contains_key(b) <==> has_bucket(es, b) by {
            if b == e.bucket {
                assert(m.contains_key(b));
                assert(bucket_at(es, es.len() - 1, b));
            } else {
                if has_bucket(es, b) {
                    let i = choose|i: int| bucket_at(es, i, b);
                    assert(i < es.len() - 1);
                    assert(bucket_at(es0, i, b));
                }
                if has_bucket(es0, b) {
                    let i = choose|i: int| bucket_at(es0, i, b);
                    assert(bucket_at(es, i, b));
                }
                assert(m.contains_key(b) <==> m0.contains_key(b));
            }
        }
        assert forall|b: Seq<u8>, k: Seq<u8>|
            m.contains_key(b) implies (#[trigger] m[b].contains_key(k) <==> has_pair(
            es,
            b,
            k,
        )) by {
            if b == e.bucket {
                if k == e.key {
                    assert(m[b].contains_key(k));
                    assert(pair_at(es, es.len() - 1, b, k));
                    assert(has_pair(es, b, k));
                } else {
                    assert(m[b] == inner0.insert(e.key, e.dest));
                    if m0.contains_key(b) {
                        if has_pair(es, b, k) {
                            let i = choose|i: int| pair_at(es, i, b, k);
                            assert(i < es.len() - 1);
                            assert(pair_at(es0, i, b, k));
                            assert(has_pair(es0, b, k));
                        }
                        if has_pair(es0, b, k) {
                            let i = choose|i: int| pair_at(es0, i, b, k);
                            assert(pair_at(es, i, b, k));
                            assert(has_pair(es, b, k));
                        }
                    } else {
                        assert(!inner0.contains_key(k));
                        if has_pair(es, b, k) {
                            let i = choose|i: int| pair_at(es, i, b, k);
                            assert(i < es.len() - 1);
                            assert(bucket_at(es0, i, b));
                            assert(has_bucket(es0, b));
                            assert(false);
                        }
                    }
                }
            } else {
                assert(m[b] == m0[b]);
                assert(m0.contains_key(b));
                if has_pair(es, b, k) {
                    let i = choose|i: int| pair_at(es, i, b, k);
                    assert(i < es.len() - 1);
                    assert(pair_at(es0, i, b, k));
                    assert(has_pair(es0, b, k));
                }
                if has_pair(es0, b, k) {
                    let i = choose|i: int| pair_at(es0, i, b, k);
                    assert(pair_at(es, i, b, k));
                    assert(has_pair(es, b, k));
                }
            }
        }
        assert forall|b: Seq<u8>, k: Seq<u8>| #[trigger] has_pair(es, b, k) implies {
            &&& pair_at(es, last_pair(es, b, k), b, k)
            &&& (forall|j: int| last_pair(es, b, k) < j < es.len() ==> !pair_at(es, j, b, k))
            &&& m.contains_key(b)
            &&& m[b].contains_key(k)
            &&& m[b][k] == es[last_pair(es, b, k)].dest
        } by {
            let iw = choose|i: int| pair_at(es, i, b, k);
            assert(bucket_at(es, iw, b));
            assert(has_bucket(es, b));
            assert(m.contains_key(b));
            if b == e.bucket && k == e.key {
                assert(last_pair(es, b, k) == es.len() - 1);
                assert(pair_at(es, es.len() - 1, b, k));
                assert(m[b] == inner0.insert(k, e.dest));
                assert(m[b][k] == e.dest);
            } else {
                assert(last_pair(es, b, k) == last_pair(es0, b, k));
                assert(iw < es.len() - 1);
                assert(pair_at(es0, iw, b, k));
                assert(has_pair(es0, b, k));
                let lp = last_pair(es0, b, k);
                assert(pair_at(es0, lp, b, k));
                assert(pair_at(es, lp, b, k));
                assert forall|j: int| lp < j < es.len() implies !pair_at(es, j, b, k) by {
                    if j < es.len() - 1 {
                        if pair_at(es, j, b, k) {
                            assert(pair_at(es0, j, b, k));
                        }
                    }
                }
                assert(m0.contains_key(b));
                assert(m0[b].contains_key(k));
                assert(m0[b][k] == es0[lp].dest);
                if b == e.bucket {
                    assert(inner0 == m0[b]);
                    assert(m[b] == inner0.insert(e.key, e.dest));
                    assert(k != e.key);
                    assert(m[b][k] == inner0[k]);
                } else {
                    assert(m[b] == m0[b]);
                }
                assert(es[lp] == es0[lp]);
            }
        }
    }
}

/// Duplicate keys within a bucket collapse to the last-seen destination:
/// the plan records, for a bucket and key, exactly the destination of the
/// last directive that named them.
pub proof fn lemma_last_directive_wins(es: Seq<EntryV>, b: Seq<u8>, k: Seq<u8>, i: int)
    requires
        pair_at(es, i, b, k),
        forall|j: int| i < j < es.len() ==> !pair_at(es, j, b, k),
    ensures
        plan_map(es).contains_key(b),
        plan_map(es)[b].contains_key(k),
        plan_map(es)[b][k] == es[i].dest,
{
    lemma_plan_map_content(es);
    assert(has_pair(es, b, k));
    let lp = last_pair(es, b, k);
    assert(pair_at(es, lp, b, k));
    if lp < i {
        assert(!pair_at(es, i, b, k));
        assert(false);
    }
    if i < lp {
        assert(!pair_at(es, lp, b, k));
        assert(false);
    }
}

/// No two directives name the same bucket and key.
pub open spec fn distinct_pairs(es: Seq<EntryV>) -> bool {
    forall|i: int, j: int|
        #![trigger es[i], es[j]]
        0 <= i < j < es.len() ==> !(es[i].bucket == es[j].bucket && es[i].key == es[j].key)
}

/// Reordering the directive list leaves the plan's content unchanged,
/// provided no two directives name the same bucket and key.  (With such
/// duplicates the order decides which destination survives, so the claim
/// is made for duplicate-free lists only.)
pub proof fn lemma_plan_permutation(es1: Seq<EntryV>, es2: Seq<EntryV>)
    requires
        es1.to_multiset() == es2.to_multiset(),
        distinct_pairs(es1),
    ensures
        plan_map(es1) == plan_map(es2),
{
    broadcast use vstd::seq_lib::group_to_multiset_ensures;

    lemma_plan_map_content(es1);
    lemma_plan_map_content(es2);
    let m1 = plan_map(es1);
    let m2 = plan_map(es2);
    assert forall|x: EntryV| #[trigger] es1.contains(x) implies es2.contains(x) by {
        assert(es1.to_multiset().count(x) > 0);
    }
    assert forall|x: EntryV| #[trigger] es2.contains(x) implies es1.contains(x) by {
        assert(es2.to_multiset().count(x) > 0);
    }
    assert_maps_equal!(m1, m2, b => {
        if has_bucket(es1, b) {
            let i = choose|i: int| bucket_at(es1, i, b);
            assert(es1.contains(es1[i]));
            let x = es1[i];
            assert(es2.contains(x));
            let j = choose|j: int| 0 <= j < es2.len() && es2[j] == x;
            assert(bucket_at(es2, j, b));
            assert(has_bucket(es2, b));
        }
        if has_bucket(es2, b) {
            let i = choose|i: int| bucket_at(es2, i, b);
            assert(es2.contains(es2[i]));
            let x = es2[i];
            assert(es1.contains(x));
            let j = choose|j: int| 0 <= j < es1.len() && es1[j] == x;
            assert(bucket_at(es1, j, b));
            assert(has_bucket(es1, b));
        }
        if m1.contains_key(b) && m2.contains_key(b) {
            let inner1 = m1[b];
            let inner2 = m2[b];
            assert_maps_equal!(inner1, inner2, k => {
                if has_pair(es1, b, k) {
                    let i = choose|i: int| pair_at(es1, i, b, k);
                    assert(es1.contains(es1[i]));
                    let x = es1[i];
                    assert(es2.contains(x));
                    let j = choose|j: int| 0 <= j < es2.len() && es2[j] == x;
                    assert(pair_at(es2, j, b, k));
                    assert(has_pair(es2, b, k));
                }
                if has_pair(es2, b, k) {
                    let i = choose|i: int| pair_at(es2, i, b, k);
                    assert(es2.contains(es2[i]));
                    let x = es2[i];
                    assert(es1.contains(x));
                    let j = choose|j: int| 0 <= j < es1.len() && es1[j] == x;
                    assert(pair_at(es1, j, b, k));
                    assert(has_pair(es1, b, k));
                }
                if inner1.contains_key(k) {
                    assert(has_pair(es1, b, k));
                    assert(has_pair(es2, b, k));
                    let lp1 = last_pair(es1, b, k);
                    let lp2 = last_pair(es2, b, k);
                    assert(pair_at(es1, lp1, b, k));
                    assert(pair_at(es2, lp2, b, k));
                    let x2 = es2[lp2];
                    assert(es2.contains(x2));
                    assert(es1.contains(x2));
                    let i = choose|i: int| 0 <= i < es1.len() && es1[i] == x2;
                    assert(pair_at(es1, i, b, k));
                    if i != lp1 {
                        if i < lp1 {
                            assert(!(es1[i].bucket == es1[lp1].bucket && es1[i].key
                                == es1[lp1].key));
                        } else {
                            assert(!(es1[lp1].bucket == es1[i].bucket && es1[lp1].key
                                == es1[i].key));
                        }
                        assert(false);
                    }
                    assert(es1[lp1] == x2);
                    assert(inner1[k] == es1[lp1].dest);
                    assert(inner2[k] == es2[lp2].dest);
                }
            });
        }
    });
}

} // verus!

