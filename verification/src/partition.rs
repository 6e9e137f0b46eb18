//! The mathematical model shared by the indexes: particles grouped by cell.
//!
//! An index is seen as a map from each occupied cell to the particles in it,
//! in the order in which a query hands them out.  Particles are numbered
//! `0 .. n`, and a sequence of `n` cell keys says where each of them is.

use crate::block::{lemma_neighbourhood, neighbourhood_of};
use crate::cell::CellKey;
use crate::filtering::lemma_filter_no_duplicates;
use vstd::prelude::*;

verus! {

/// The particles that `cells` holds in cell `c`; none where the cell is not
/// occupied.
pub open spec fn bucket_of<K>(cells: Map<K, Seq<usize>>, c: K) -> Seq<usize> {
    if cells.contains_key(c) {
        cells[c]
    } else {
        Seq::empty()
    }
}

/// The buckets of the cells in `visit`, one after the other.
pub open spec fn gather<K>(cells: Map<K, Seq<usize>>, visit: Seq<K>) -> Seq<usize>
    decreases visit.len(),
{
    if visit.len() == 0 {
        Seq::empty()
    } else {
        gather(cells, visit.drop_last()) + bucket_of(cells, visit.last())
    }
}

/// The numbers `0 .. n` in rising order.
pub open spec fn ids(n: nat) -> Seq<usize> {
    Seq::new(n, |i: int| i as usize)
}

/// The test whether `keys` places a particle in cell `c`.
pub open spec fn placed_in<K>(keys: Seq<K>, c: K) -> spec_fn(usize) -> bool {
    |id: usize| keys[id as int] == c
}

/// The particles that `keys` places in cell `c`, in rising order.
pub open spec fn members<K>(keys: Seq<K>, c: K) -> Seq<usize> {
    ids(keys.len()).filter(placed_in(keys, c))
}

/// The grouping of the particles by their cells: every cell that some
/// particle is in, with its particles in rising order.
pub open spec fn grouped<K>(keys: Seq<K>) -> Map<K, Seq<usize>> {
    Map::new(|c: K| members(keys, c).len() > 0, |c: K| members(keys, c))
}

/// Whether `cells` files the particles under the cells that `keys` gives
/// them: each bucket holds exactly the particles of its cell, each of them
/// once, and no cell is listed without a particle.
pub open spec fn partitions<K>(cells: Map<K, Seq<usize>>, keys: Seq<K>) -> bool {
    &&& forall|c: K, id: usize| #[trigger]
        bucket_of(cells, c).contains(id) <==> id < keys.len() && keys[id as int] == c
    &&& forall|c: K| #[trigger] bucket_of(cells, c).no_duplicates()
    &&& forall|c: K| #[trigger] cells.contains_key(c) ==> cells[c].len() > 0
}

/// The numbers `0 .. n` are exactly the numbers below `n`, each of them
/// once.
pub proof fn lemma_ids(n: nat)
    requires
        n <= usize::MAX,
    ensures
        ids(n).no_duplicates(),
        forall|id: usize| #[trigger] ids(n).contains(id) <==> id < n,
{
    assert forall|id: usize| #[trigger] ids(n).contains(id) <==> id < n by {
        if id < n {
            assert(ids(n)[id as int] == id);
        }
        if ids(n).contains(id) {
            let i = choose|i: int| 0 <= i < n && ids(n)[i] == id;
            assert(id == i as usize);
        }
    }
}

/// The members of a cell are exactly the particles that the keys place in
/// it, each of them once.
pub proof fn lemma_members<K>(keys: Seq<K>, c: K)
    requires
        keys.len() <= usize::MAX,
    ensures
        forall|id: usize| #[trigger]
            members(keys, c).contains(id) <==> id < keys.len() && keys[id as int] == c,
        members(keys, c).no_duplicates(),
{
    let all = ids(keys.len());
    let pred = placed_in(keys, c);
    let found = all.filter(pred);
    assert forall|id: usize| #[trigger] found.contains(id) <==> id < keys.len() && keys[id as int]
        == c by {
        if id < keys.len() && keys[id as int] == c {
            assert(all[id as int] == id);
            all.lemma_filter_contains(pred, id as int);
        }
        if found.contains(id) {
            all.lemma_filter_contains_rev(pred, id);
            let i = choose|i: int| 0 <= i < all.len() && all[i] == id;
            assert(all[i] == i as usize);
            let j = choose|j: int| 0 <= j < found.len() && found[j] == id;
            all.lemma_filter_pred(pred, j);
        }
    }
    lemma_filter_no_duplicates(all, pred);
}

/// Grouping the particles by their cells files each under its cell.
pub proof fn lemma_grouped_partitions<K>(keys: Seq<K>)
    requires
        keys.len() <= usize::MAX,
    ensures
        partitions(grouped(keys), keys),
{
    let cells = grouped(keys);
    assert forall|c: K| bucket_of(cells, c) == members(keys, c) by {}
    assert forall|c: K, id: usize| #[trigger]
        bucket_of(cells, c).contains(id) <==> id < keys.len() && keys[id as int] == c by {
        lemma_members(keys, c);
    }
    assert forall|c: K| #[trigger] bucket_of(cells, c).no_duplicates() by {
        lemma_members(keys, c);
    }
}

/// The grouping tells where every particle is: two sequences of cells with
/// the same grouping are the same sequence.
pub proof fn lemma_grouped_injective<K>(first: Seq<K>, second: Seq<K>)
    requires
        first.len() <= usize::MAX,
        second.len() <= usize::MAX,
        grouped(first) == grouped(second),
    ensures
        first == second,
{
    lemma_grouped_partitions(first);
    lemma_grouped_partitions(second);
    let cells = grouped(first);
    if first.len() < second.len() {
        let i = first.len() as int;
        assert(bucket_of(cells, second[i]).contains(i as usize));
    }
    if second.len() < first.len() {
        let i = second.len() as int;
        assert(bucket_of(cells, first[i]).contains(i as usize));
    }
    assert forall|i: int| 0 <= i < first.len() implies #[trigger] second[i] == first[i] by {
        assert(bucket_of(cells, first[i]).contains(i as usize));
    }
    assert(first =~= second);
}

/// Two maps with the same buckets, neither listing a cell without a
/// particle, are the same map.
pub proof fn lemma_partition_unique<K>(first: Map<K, Seq<usize>>, second: Map<K, Seq<usize>>)
    requires
        forall|c: K| bucket_of(first, c) == bucket_of(second, c),
        forall|c: K| #[trigger] first.contains_key(c) ==> first[c].len() > 0,
        forall|c: K| #[trigger] second.contains_key(c) ==> second[c].len() > 0,
    ensures
        first == second,
{
    assert forall|c: K| first.contains_key(c) <==> second.contains_key(c) by {
        assert(bucket_of(first, c) == bucket_of(second, c));
    }
    assert forall|c: K| first.contains_key(c) implies first[c] == second[c] by {
        assert(bucket_of(first, c) == bucket_of(second, c));
    }
    assert(first =~= second);
}

/// Two maps that file the same particles under the same cells list the
/// same cells and hold the same particles in each of them; only the order
/// within a bucket can differ.
pub proof fn lemma_partitions_agree<K>(
    first: Map<K, Seq<usize>>,
    second: Map<K, Seq<usize>>,
    keys: Seq<K>,
)
    requires
        partitions(first, keys),
        partitions(second, keys),
    ensures
        first.dom() == second.dom(),
        forall|c: K| #[trigger] bucket_of(first, c).to_set() == bucket_of(second, c).to_set(),
        forall|c: K| #[trigger] bucket_of(first, c).len() == bucket_of(second, c).len(),
{
    assert forall|c: K| #[trigger] bucket_of(first, c).to_set() == bucket_of(second, c).to_set() by {
        assert forall|id: usize|
            bucket_of(first, c).to_set().contains(id) <==> bucket_of(second, c).to_set().contains(
                id,
            ) by {
            assert(bucket_of(first, c).contains(id) <==> id < keys.len() && keys[id as int] == c);
            assert(bucket_of(second, c).contains(id) <==> id < keys.len() && keys[id as int] == c);
        }
        assert(bucket_of(first, c).to_set() =~= bucket_of(second, c).to_set());
    }
    assert forall|c: K| #[trigger] bucket_of(first, c).len() == bucket_of(second, c).len() by {
        assert(bucket_of(first, c).no_duplicates());
        assert(bucket_of(second, c).no_duplicates());
        assert(bucket_of(first, c).to_set() == bucket_of(second, c).to_set());
        bucket_of(first, c).unique_seq_to_set();
        bucket_of(second, c).unique_seq_to_set();
    }
    assert forall|c: K| first.contains_key(c) <==> second.contains_key(c) by {
        assert(bucket_of(first, c).len() == bucket_of(second, c).len());
        if first.contains_key(c) {
            assert(first[c].len() > 0);
        }
        if second.contains_key(c) {
            assert(second[c].len() > 0);
        }
    }
    assert(first.dom() =~= second.dom());
}

/// Gathering the buckets of distinct cells hands out exactly the particles
/// that are in one of those cells, each of them once.
pub proof fn lemma_gather<K>(cells: Map<K, Seq<usize>>, keys: Seq<K>, visit: Seq<K>)
    requires
        partitions(cells, keys),
        visit.no_duplicates(),
    ensures
        forall|id: usize| #[trigger]
            gather(cells, visit).contains(id) <==> id < keys.len() && visit.contains(
                keys[id as int],
            ),
        gather(cells, visit).no_duplicates(),
    decreases visit.len(),
{
    broadcast use vstd::seq_lib::group_seq_properties;

    if visit.len() > 0 {
        let front = visit.drop_last();
        let last = visit.last();
        let before = gather(cells, front);
        let added = bucket_of(cells, last);
        lemma_gather(cells, keys, front);
        assert forall|id: usize| #[trigger]
            gather(cells, visit).contains(id) <==> id < keys.len() && visit.contains(
                keys[id as int],
            ) by {
            assert(visit =~= front.push(last));
            if id < keys.len() {
                assert(visit.contains(keys[id as int]) <==> front.contains(keys[id as int])
                    || keys[id as int] == last);
            }
        }
        assert forall|i: int, j: int| 0 <= i < before.len() && 0 <= j < added.len() implies before[i]
            != added[j] by {
            assert(before.contains(before[i]));
            assert(added.contains(added[j]));
            if before[i] == added[j] {
                let c = keys[before[i] as int];
                assert(front.contains(c));
                assert(c == last);
                let k = choose|k: int| 0 <= k < front.len() && front[k] == c;
                assert(visit[k] == visit[visit.len() - 1]);
            }
        }
        vstd::seq_lib::lemma_no_dup_in_concat(before, added);
    }
}

/// What gathering finds depends only on where the particles are, not on the
/// order in which an index has come to hold them: two maps that file the
/// same particles under the same cells give the same particles, and as many.
pub proof fn lemma_gather_agree<K>(
    first: Map<K, Seq<usize>>,
    second: Map<K, Seq<usize>>,
    keys: Seq<K>,
    visit: Seq<K>,
)
    requires
        partitions(first, keys),
        partitions(second, keys),
        visit.no_duplicates(),
    ensures
        gather(first, visit).to_set() == gather(second, visit).to_set(),
        gather(first, visit).len() == gather(second, visit).len(),
{
    lemma_gather(first, keys, visit);
    lemma_gather(second, keys, visit);
    let one = gather(first, visit);
    let other = gather(second, visit);
    assert forall|id: usize| one.to_set().contains(id) <==> other.to_set().contains(id) by {
        assert(one.contains(id) <==> id < keys.len() && visit.contains(keys[id as int]));
        assert(other.contains(id) <==> id < keys.len() && visit.contains(keys[id as int]));
    }
    assert(one.to_set() =~= other.to_set());
    one.unique_seq_to_set();
    other.unique_seq_to_set();
}

/// A query around a cell finds every particle whose cell lies within reach
/// of it along each axis, finds no other, and finds none twice.
pub proof fn lemma_query_complete(
    cells: Map<CellKey, Seq<usize>>,
    keys: Seq<CellKey>,
    key: CellKey,
    reach: int,
)
    requires
        partitions(cells, keys),
    ensures
        forall|id: usize| #[trigger]
            gather(cells, neighbourhood_of(key, reach)).contains(id) <==> id < keys.len()
                && key.within_reach(keys[id as int], reach),
        gather(cells, neighbourhood_of(key, reach)).no_duplicates(),
{
    lemma_neighbourhood(key, reach);
    lemma_gather(cells, keys, neighbourhood_of(key, reach));
}

/// Two particles are in reach of each other or neither of the other: a
/// query around the cell of one finds the other exactly when a query around
/// the cell of the other finds the one.
pub proof fn lemma_query_symmetric(
    cells: Map<CellKey, Seq<usize>>,
    keys: Seq<CellKey>,
    one: usize,
    other: usize,
    reach: int,
)
    requires
        partitions(cells, keys),
        one < keys.len(),
        other < keys.len(),
    ensures
        gather(cells, neighbourhood_of(keys[one as int], reach)).contains(other) <==> gather(
            cells,
            neighbourhood_of(keys[other as int], reach),
        ).contains(one),
{
    lemma_query_complete(cells, keys, keys[one as int], reach);
    lemma_query_complete(cells, keys, keys[other as int], reach);
}

/// A query around the cell of a particle finds the particle itself, unless
/// the reach is negative.
pub proof fn lemma_query_finds_self(
    cells: Map<CellKey, Seq<usize>>,
    keys: Seq<CellKey>,
    one: usize,
    reach: int,
)
    requires
        partitions(cells, keys),
        one < keys.len(),
        reach >= 0,
    ensures
        gather(cells, neighbourhood_of(keys[one as int], reach)).contains(one),
{
    lemma_query_complete(cells, keys, keys[one as int], reach);
}

/// A wider query finds whatever a narrower one around the same cell finds.
pub proof fn lemma_query_grows(
    cells: Map<CellKey, Seq<usize>>,
    keys: Seq<CellKey>,
    key: CellKey,
    reach: int,
    wider: int,
    id: usize,
)
    requires
        partitions(cells, keys),
        reach <= wider,
        gather(cells, neighbourhood_of(key, reach)).contains(id),
    ensures
        gather(cells, neighbourhood_of(key, wider)).contains(id),
{
    lemma_query_complete(cells, keys, key, reach);
    lemma_query_complete(cells, keys, key, wider);
}

/// After the particles were grouped by their cells, a query around a cell
/// finds every particle whose cell lies within reach of it along each axis,
/// finds no other, and finds none twice.
pub proof fn lemma_grouped_query_complete(keys: Seq<CellKey>, key: CellKey, reach: int)
    requires
        keys.len() <= usize::MAX,
    ensures
        forall|id: usize| #[trigger]
            gather(grouped(keys), neighbourhood_of(key, reach)).contains(id) <==> id < keys.len()
                && key.within_reach(keys[id as int], reach),
        gather(grouped(keys), neighbourhood_of(key, reach)).no_duplicates(),
{
    lemma_grouped_partitions(keys);
    lemma_query_complete(grouped(keys), keys, key, reach);
}

} // verus!
