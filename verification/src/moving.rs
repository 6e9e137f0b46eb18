//! How the model changes when particles are added or move to other cells.

use crate::filtering::{
    lemma_filter_agree, lemma_filter_all, lemma_filter_membership, lemma_filter_no_duplicates,
    lemma_filter_without,
};
use crate::partition::{
    bucket_of, grouped, ids, lemma_grouped_partitions, lemma_ids, lemma_partition_unique, members,
    partitions, placed_in,
};
use vstd::prelude::*;

verus! {

/// The map `cells` after particle `id` is filed at the end of the bucket of
/// cell `c`.
pub open spec fn placed<K>(cells: Map<K, Seq<usize>>, c: K, id: usize) -> Map<K, Seq<usize>> {
    cells.insert(c, bucket_of(cells, c).push(id))
}

/// The map `cells` after the particles `first .. first + keys.len()` are
/// filed one by one, particle `first + i` in cell `keys[i]`.
pub open spec fn filed<K>(cells: Map<K, Seq<usize>>, first: nat, keys: Seq<K>) -> Map<
    K,
    Seq<usize>,
>
    decreases keys.len(),
{
    if keys.len() == 0 {
        cells
    } else {
        placed(
            filed(cells, first, keys.drop_last()),
            keys.last(),
            (first + keys.len() - 1) as usize,
        )
    }
}

/// Filing the next particle under its cell keeps the particles filed under
/// their cells.
pub proof fn lemma_placed_partitions<K>(cells: Map<K, Seq<usize>>, keys: Seq<K>, c: K)
    requires
        partitions(cells, keys),
        keys.len() < usize::MAX,
    ensures
        partitions(placed(cells, c, keys.len() as usize), keys.push(c)),
{
    broadcast use vstd::seq_lib::group_seq_properties;

    let id = keys.len() as usize;
    let after = placed(cells, c, id);
    let more = keys.push(c);
    assert forall|d: K, x: usize| #[trigger]
        bucket_of(after, d).contains(x) <==> x < more.len() && more[x as int] == d by {
        assert(bucket_of(cells, d).contains(x) <==> x < keys.len() && keys[x as int] == d);
    }
    assert forall|d: K| #[trigger] bucket_of(after, d).no_duplicates() by {
        assert(bucket_of(cells, d).no_duplicates());
        if d == c {
            let old_bucket = bucket_of(cells, c);
            assert forall|i: int| 0 <= i < old_bucket.len() implies old_bucket[i] != id by {
                assert(old_bucket.contains(old_bucket[i]));
            }
        }
    }
    assert forall|d: K| #[trigger] after.contains_key(d) implies after[d].len() > 0 by {
        if d != c {
            assert(cells.contains_key(d));
        }
    }
}

/// Filing further particles one by one keeps the particles filed under
/// their cells.
pub proof fn lemma_filed_partitions<K>(cells: Map<K, Seq<usize>>, keys: Seq<K>, more: Seq<K>)
    requires
        partitions(cells, keys),
        keys.len() + more.len() <= usize::MAX,
    ensures
        partitions(filed(cells, keys.len(), more), keys + more),
    decreases more.len(),
{
    if more.len() == 0 {
        assert(keys + more =~= keys);
    } else {
        lemma_filed_partitions(cells, keys, more.drop_last());
        lemma_placed_partitions(
            filed(cells, keys.len(), more.drop_last()),
            keys + more.drop_last(),
            more.last(),
        );
        assert((keys + more.drop_last()).push(more.last()) =~= keys + more);
    }
}

/// With one more particle, the grouping is the grouping of the others with
/// the new particle filed at the end of the bucket of its cell.
pub proof fn lemma_grouped_push<K>(keys: Seq<K>, c: K)
    requires
        keys.len() < usize::MAX,
    ensures
        grouped(keys.push(c)) == placed(grouped(keys), c, keys.len() as usize),
{
    let n = keys.len();
    let more = keys.push(c);
    let before = grouped(keys);
    let target = placed(before, c, n as usize);
    assert(ids(n + 1) =~= ids(n).push(n as usize));
    assert forall|d: K| bucket_of(grouped(more), d) == bucket_of(target, d) by {
        assert forall|i: int| 0 <= i < n implies placed_in(more, d)(#[trigger] ids(n)[i])
            == placed_in(keys, d)(ids(n)[i]) by {}
        lemma_filter_agree(ids(n), placed_in(more, d), placed_in(keys, d));
        ids(n).lemma_filter_push(n as usize, placed_in(more, d));
        assert(bucket_of(before, d) == members(keys, d));
    }
    lemma_grouped_partitions(more);
    lemma_grouped_partitions(keys);
    lemma_placed_partitions(before, keys, c);
    lemma_partition_unique(grouped(more), target);
}

/// Filing the particles one by one into an empty map gives their grouping.
pub proof fn lemma_filed_is_grouped<K>(keys: Seq<K>)
    requires
        keys.len() <= usize::MAX,
    ensures
        filed(Map::<K, Seq<usize>>::empty(), 0, keys) == grouped(keys),
    decreases keys.len(),
{
    if keys.len() == 0 {
        assert forall|c: K| members(keys, c) == Seq::<usize>::empty() by {
            reveal(Seq::filter);
        }
        assert(grouped(keys) =~= Map::<K, Seq<usize>>::empty());
    } else {
        lemma_filed_is_grouped(keys.drop_last());
        lemma_grouped_push(keys.drop_last(), keys.last());
        assert(keys.drop_last().push(keys.last()) =~= keys);
    }
}

/// The test whether a particle comes to cell `c` from another cell.
pub open spec fn arrives_in<K>(from: Seq<K>, to: Seq<K>, c: K) -> spec_fn(usize) -> bool {
    |id: usize| to[id as int] == c && from[id as int] != c
}

/// The bucket of cell `c` after the particles were moved from the cells of
/// `from` to those of `to`: the particles that stay in the cell, in their
/// old order, and behind them those that come from elsewhere, in rising
/// order.
pub open spec fn rehomed_bucket<K>(
    cells: Map<K, Seq<usize>>,
    from: Seq<K>,
    to: Seq<K>,
    c: K,
) -> Seq<usize> {
    bucket_of(cells, c).filter(placed_in(to, c)) + ids(to.len()).filter(arrives_in(from, to, c))
}

/// The map `cells` after the particles were moved from the cells of `from`
/// to those of `to`.
pub open spec fn rehomed<K>(cells: Map<K, Seq<usize>>, from: Seq<K>, to: Seq<K>) -> Map<
    K,
    Seq<usize>,
> {
    Map::new(
        |c: K| rehomed_bucket(cells, from, to, c).len() > 0,
        |c: K| rehomed_bucket(cells, from, to, c),
    )
}

/// After a move the bucket of a cell holds exactly the particles that were
/// moved to it.
pub proof fn lemma_rehomed_bucket<K>(
    cells: Map<K, Seq<usize>>,
    from: Seq<K>,
    to: Seq<K>,
    c: K,
    id: usize,
)
    requires
        partitions(cells, from),
        from.len() == to.len() <= usize::MAX,
    ensures
        rehomed_bucket(cells, from, to, c).contains(id) <==> id < to.len() && to[id as int] == c,
{
    broadcast use vstd::seq_lib::group_seq_properties;

    lemma_filter_membership(bucket_of(cells, c), placed_in(to, c), id);
    lemma_filter_membership(ids(to.len()), arrives_in(from, to, c), id);
    lemma_ids(to.len());
    assert(bucket_of(cells, c).contains(id) <==> id < from.len() && from[id as int] == c);
}

/// Moving the particles leaves each of them filed under the cell that it
/// was moved to.
pub proof fn lemma_rehomed_partitions<K>(cells: Map<K, Seq<usize>>, from: Seq<K>, to: Seq<K>)
    requires
        partitions(cells, from),
        from.len() == to.len() <= usize::MAX,
    ensures
        partitions(rehomed(cells, from, to), to),
{
    let after = rehomed(cells, from, to);
    assert forall|c: K| bucket_of(after, c) == rehomed_bucket(cells, from, to, c) by {
        if rehomed_bucket(cells, from, to, c).len() == 0 {
            assert(rehomed_bucket(cells, from, to, c) =~= Seq::empty());
        }
    }
    assert forall|c: K, id: usize| #[trigger]
        bucket_of(after, c).contains(id) <==> id < to.len() && to[id as int] == c by {
        lemma_rehomed_bucket(cells, from, to, c, id);
    }
    assert forall|c: K| #[trigger] bucket_of(after, c).no_duplicates() by {
        let stayed = bucket_of(cells, c).filter(placed_in(to, c));
        let came = ids(to.len()).filter(arrives_in(from, to, c));
        assert(bucket_of(cells, c).no_duplicates());
        lemma_filter_no_duplicates(bucket_of(cells, c), placed_in(to, c));
        lemma_ids(to.len());
        lemma_filter_no_duplicates(ids(to.len()), arrives_in(from, to, c));
        assert forall|i: int, j: int| 0 <= i < stayed.len() && 0 <= j < came.len() implies stayed[i]
            != came[j] by {
            assert(stayed.contains(stayed[i]));
            assert(came.contains(came[j]));
            lemma_filter_membership(bucket_of(cells, c), placed_in(to, c), stayed[i]);
            lemma_filter_membership(ids(to.len()), arrives_in(from, to, c), came[j]);
            assert(bucket_of(cells, c).contains(stayed[i]));
        }
        vstd::seq_lib::lemma_no_dup_in_concat(stayed, came);
    }
}

/// A move that leaves every particle in its cell changes nothing.
pub proof fn lemma_rehomed_same<K>(cells: Map<K, Seq<usize>>, keys: Seq<K>)
    requires
        partitions(cells, keys),
    ensures
        rehomed(cells, keys, keys) == cells,
{
    assert forall|c: K| bucket_of(rehomed(cells, keys, keys), c) == bucket_of(cells, c) by {
        let held = bucket_of(cells, c);
        let all = ids(keys.len());
        assert forall|i: int| 0 <= i < held.len() implies placed_in(keys, c)(#[trigger] held[i]) by {
            assert(held.contains(held[i]));
        }
        lemma_filter_all(held, placed_in(keys, c));
        all.lemma_all_neg_filter_empty(arrives_in(keys, keys, c));
        assert(held + Seq::<usize>::empty() =~= held);
        if rehomed_bucket(cells, keys, keys, c).len() == 0 {
            assert(rehomed_bucket(cells, keys, keys, c) =~= Seq::empty());
        }
    }
    lemma_partition_unique(rehomed(cells, keys, keys), cells);
}

/// The test whether a particle is still to be looked at, from particle
/// `next` on, or is placed in cell `c` by `to`.
pub open spec fn kept<K>(to: Seq<K>, c: K, next: nat) -> spec_fn(usize) -> bool {
    |id: usize| id >= next || to[id as int] == c
}

/// The bucket of cell `c` while the particles are moved one by one, when
/// those before `next` have been moved.
pub open spec fn moving_bucket<K>(
    cells: Map<K, Seq<usize>>,
    from: Seq<K>,
    to: Seq<K>,
    c: K,
    next: nat,
) -> Seq<usize> {
    bucket_of(cells, c).filter(kept(to, c, next)) + ids(next).filter(arrives_in(from, to, c))
}

/// Before any particle has been moved, each bucket is as it was.
pub proof fn lemma_moving_start<K>(cells: Map<K, Seq<usize>>, from: Seq<K>, to: Seq<K>, c: K)
    ensures
        moving_bucket(cells, from, to, c, 0) == bucket_of(cells, c),
{
    reveal(Seq::filter);
    let held = bucket_of(cells, c);
    lemma_filter_all(held, kept(to, c, 0));
    assert(ids(0).filter(arrives_in(from, to, c)) =~= Seq::empty());
    assert(held + Seq::<usize>::empty() =~= held);
}

/// How the bucket of a cell changes when the next particle is moved: the
/// particle leaves the bucket of the cell it was in and joins the end of the
/// bucket of the cell it is in now, and no other bucket changes.
pub proof fn lemma_moving_step<K>(
    cells: Map<K, Seq<usize>>,
    from: Seq<K>,
    to: Seq<K>,
    c: K,
    next: usize,
)
    requires
        partitions(cells, from),
        from.len() == to.len(),
        next < from.len(),
    ensures
        ({
            let now = moving_bucket(cells, from, to, c, next as nat);
            let then = moving_bucket(cells, from, to, c, (next + 1) as nat);
            if from[next as int] == to[next as int] {
                then == now
            } else if c == from[next as int] {
                now.contains(next) && (now.no_duplicates() ==> then == now.remove(
                    now.index_of(next),
                ))
            } else if c == to[next as int] {
                then == now.push(next)
            } else {
                then == now
            }
        }),
{
    broadcast use vstd::seq_lib::group_seq_properties;

    let held = bucket_of(cells, c);
    let p = kept(to, c, next as nat);
    let q = kept(to, c, (next + 1) as nat);
    let arrives = arrives_in(from, to, c);
    let stayed = held.filter(p);
    let came = ids(next as nat).filter(arrives);
    let now = moving_bucket(cells, from, to, c, next as nat);
    let then = moving_bucket(cells, from, to, c, (next + 1) as nat);
    assert(ids((next + 1) as nat) =~= ids(next as nat).push(next));
    ids(next as nat).lemma_filter_push(next, arrives);
    assert(held.no_duplicates());
    assert forall|i: int| 0 <= i < held.len() implies (#[trigger] held[i]) < from.len()
        && from[held[i] as int] == c by {
        assert(held.contains(held[i]));
    }
    if c == from[next as int] && from[next as int] != to[next as int] {
        assert(held.contains(next));
        lemma_filter_without(held, p, q, next);
        let at = stayed.index_of(next);
        assert(0 <= at < stayed.len() && stayed[at] == next);
        assert(now[at] == next);
        if now.no_duplicates() {
            assert(now.index_of(next) == at);
            assert(now.remove(at) =~= stayed.remove(at) + came);
        }
    } else {
        assert forall|i: int| 0 <= i < held.len() implies p(#[trigger] held[i]) == q(held[i]) by {
            if held[i] == next {
                assert(from[next as int] == c);
            }
        }
        lemma_filter_agree(held, p, q);
        if c == to[next as int] && from[next as int] != to[next as int] {
            assert(then =~= now.push(next));
        }
    }
}

/// When every particle has been moved, each bucket is as the move leaves
/// it.
pub proof fn lemma_moving_done<K>(cells: Map<K, Seq<usize>>, from: Seq<K>, to: Seq<K>, c: K)
    requires
        partitions(cells, from),
        from.len() == to.len(),
    ensures
        moving_bucket(cells, from, to, c, to.len()) == rehomed_bucket(cells, from, to, c),
{
    let held = bucket_of(cells, c);
    assert forall|i: int| 0 <= i < held.len() implies kept(to, c, to.len())(#[trigger] held[i])
        == placed_in(to, c)(held[i]) by {
        assert(held.contains(held[i]));
    }
    lemma_filter_agree(held, kept(to, c, to.len()), placed_in(to, c));
}

} // verus!
