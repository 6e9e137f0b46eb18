//! The particle space: a hash table from cells to the particles in them,
//! which follows the particles as they move.

use crate::block::{neighbourhood, neighbourhood_of};
use crate::cell::CellKey;
use crate::moving::{
    filed, lemma_moving_done, lemma_moving_start, lemma_moving_step, lemma_placed_partitions,
    moving_bucket, placed, rehomed,
};
use crate::partition::{
    bucket_of, gather, grouped, lemma_grouped_partitions, lemma_partition_unique,
    lemma_query_complete, partitions,
};
use crate::table::{
    append_all, coded, group_pairs, lemma_coded_values, lemma_listing, listing, push_to, slot,
    take_from,
};
use std::collections::HashMap;
use vstd::prelude::*;

verus! {

broadcast use vstd::std_specs::hash::group_hash_axioms;

/// Particles filed by the cell they are in.
///
/// A particle is known by its number: the particles of a space are numbered
/// from zero in the order in which they were added.
#[derive(Debug)]
pub struct Space {
    table: HashMap<u128, Vec<usize>>,
    home: Vec<CellKey>,
}

impl View for Space {
    type V = Map<CellKey, Seq<usize>>;

    /// Every occupied cell with the particles in it, in the order in which a
    /// query hands them out.
    closed spec fn view(&self) -> Map<CellKey, Seq<usize>> {
        listing(self.table@)
    }
}

impl Space {
    /// The cell under which each particle is filed.
    pub closed spec fn cells(&self) -> Seq<CellKey> {
        self.home@
    }

    /// Every particle is filed under exactly one cell, its own.
    pub closed spec fn wf(&self) -> bool {
        partitions(listing(self.table@), self.home@)
    }

    /// A well-formed space files its particles under their cells.
    pub proof fn lemma_wf(&self)
        requires
            self.wf(),
        ensures
            partitions(self@, self.cells()),
    {
    }

    /// Builds the space of the particles `0 .. keys.len()`, where `keys[i]`
    /// is the cell of particle `i`.
    pub fn new(keys: Vec<CellKey>) -> (space: Space)
        ensures
            space.wf(),
            space.cells() == keys@,
            space@ == grouped(keys@),
    {
        let mut pairs: Vec<(u128, usize)> = Vec::new();
        let mut i: usize = 0;
        while i < keys.len()
            invariant
                i <= keys.len(),
                pairs@ == coded(keys@, i as nat),
            decreases keys.len() - i,
        {
            pairs.push((keys[i].pack(), i));
            i = i + 1;
        }
        let table = group_pairs(pairs);
        proof {
            assert forall|c: CellKey| bucket_of(listing(table@), c) == bucket_of(
                grouped(keys@),
                c,
            ) by {
                lemma_listing(table@, c);
                lemma_coded_values(keys@, keys@.len(), c);
            }
            lemma_partition_unique(listing(table@), grouped(keys@));
            lemma_grouped_partitions(keys@);
        }
        Space { table, home: keys }
    }

    /// Files the particles `0 .. keys.len()` afresh, where `keys[i]` is the
    /// cell of particle `i`.  What was in the space before is forgotten.
    pub fn rebuild(&mut self, keys: Vec<CellKey>)
        ensures
            final(self).wf(),
            final(self).cells() == keys@,
            final(self)@ == grouped(keys@),
    {
        *self = Space::new(keys);
    }

    /// Adds one particle, in cell `key`.  It gets the next free number.
    pub fn add_one(&mut self, key: CellKey)
        requires
            old(self).wf(),
        ensures
            final(self).wf(),
            final(self).cells() == old(self).cells().push(key),
            final(self)@ == placed(old(self)@, key, old(self).cells().len() as usize),
    {
        let id = self.home.len();
        let ghost before = self.table@;
        push_to(&mut self.table, key.pack(), id);
        self.home.push(key);
        proof {
            let after = self.table@;
            let target = placed(listing(before), key, id);
            assert forall|c: CellKey| bucket_of(listing(after), c) == bucket_of(target, c) by {
                lemma_listing(after, c);
                lemma_listing(before, c);
                CellKey::lemma_code_injective(c, key);
            }
            assert(self.home@.len() == self.home.len());
            lemma_placed_partitions(listing(before), old(self).home@, key);
            lemma_partition_unique(listing(after), target);
        }
    }

    /// Adds the particles of `keys` one by one, `keys[i]` being the cell of
    /// the `i`-th of them.
    pub fn add_bulk(&mut self, keys: Vec<CellKey>)
        requires
            old(self).wf(),
        ensures
            final(self).wf(),
            final(self).cells() == old(self).cells() + keys@,
            final(self)@ == filed(old(self)@, old(self).cells().len(), keys@),
    {
        let mut i: usize = 0;
        while i < keys.len()
            invariant
                i <= keys.len(),
                self.wf(),
                self.cells() == old(self).cells() + keys@.take(i as int),
                self@ == filed(old(self)@, old(self).cells().len(), keys@.take(i as int)),
            decreases keys.len() - i,
        {
            self.add_one(keys[i]);
            proof {
                let next = keys@.take(i + 1);
                assert(next.drop_last() =~= keys@.take(i as int));
                assert(old(self).cells() + next =~= (old(self).cells() + keys@.take(
                    i as int,
                )).push(keys@[i as int]));
            }
            i = i + 1;
        }
        assert(keys@.take(keys.len() as int) =~= keys@);
    }

    /// Files every particle under the cell that `keys` now gives it:
    /// `keys[i]` is the cell of particle `i`.  A particle whose cell has not
    /// changed stays where it is in its bucket.  The others leave their
    /// buckets and join the ends of the buckets of their new cells, in
    /// rising order.
    pub fn update(&mut self, keys: &Vec<CellKey>)
        requires
            old(self).wf(),
            keys.len() == old(self).cells().len(),
        ensures
            final(self).wf(),
            final(self).cells() == keys@,
            final(self)@ == rehomed(old(self)@, old(self).cells(), keys@),
    {
        let n = self.home.len();
        let ghost start = listing(self.table@);
        let ghost from = self.home@;
        let mut i: usize = 0;
        proof {
            assert forall|c: CellKey|
                slot(self.table@, c.code() as u128) == moving_bucket(start, from, keys@, c, 0) by {
                lemma_listing(self.table@, c);
                lemma_moving_start(start, from, keys@, c);
            }
        }
        while i < n
            invariant
                i <= n,
                n == keys.len(),
                n == self.home.len(),
                n == from.len(),
                partitions(start, from),
                partitions(listing(self.table@), self.home@),
                forall|j: int| 0 <= j < i ==> self.home@[j] == keys@[j],
                forall|j: int| i <= j < n ==> self.home@[j] == from[j],
                forall|c: CellKey|
                    slot(self.table@, c.code() as u128) == moving_bucket(
                        start,
                        from,
                        keys@,
                        c,
                        i as nat,
                    ),
            decreases n - i,
        {
            let here = self.home[i];
            let there = keys[i];
            let ghost before = self.table@;
            let ghost home = self.home@;
            if here.x != there.x || here.y != there.y || here.z != there.z {
                proof {
                    lemma_listing(before, here);
                    assert(bucket_of(listing(before), here).contains(i));
                    assert(bucket_of(listing(before), here).no_duplicates());
                }
                take_from(&mut self.table, here.pack(), i);
                let ghost between = self.table@;
                push_to(&mut self.table, there.pack(), i);
                self.home.set(i, there);
                proof {
                    lemma_moved(before, between, self.table@, home, i, there);
                }
            }
            proof {
                assert forall|c: CellKey|
                    slot(self.table@, c.code() as u128) == moving_bucket(
                        start,
                        from,
                        keys@,
                        c,
                        (i + 1) as nat,
                    ) by {
                    lemma_moving_step(start, from, keys@, c, i);
                    CellKey::lemma_code_injective(c, here);
                    CellKey::lemma_code_injective(c, there);
                    lemma_listing(before, c);
                    assert(bucket_of(listing(before), c).no_duplicates());
                    assert(slot(before, c.code() as u128) == moving_bucket(
                        start,
                        from,
                        keys@,
                        c,
                        i as nat,
                    ));
                }
            }
            i = i + 1;
        }
        proof {
            assert(self.home@ =~= keys@);
            assert forall|c: CellKey| bucket_of(self@, c) == bucket_of(
                rehomed(start, from, keys@),
                c,
            ) by {
                lemma_listing(self.table@, c);
                lemma_moving_done(start, from, keys@, c);
            }
            lemma_partition_unique(self@, rehomed(start, from, keys@));
        }
    }

    /// The particles in the cells within `reach` of `key` along every axis:
    /// the buckets of those cells one after the other, `x` slowest and `z`
    /// fastest.  These are all the particles whose cell is that near, each of
    /// them once.
    pub fn neighbour_by_key(&self, key: &CellKey, reach: i32) -> (found: Vec<usize>)
        requires
            self.wf(),
        ensures
            found@ == gather(self@, neighbourhood_of(*key, reach as int)),
            found@.no_duplicates(),
            forall|id: usize| #[trigger]
                found@.contains(id) <==> id < self.cells().len() && key.within_reach(
                    self.cells()[id as int],
                    reach as int,
                ),
    {
        let visit = neighbourhood(key, reach);
        let mut found: Vec<usize> = Vec::new();
        let mut k: usize = 0;
        while k < visit.len()
            invariant
                k <= visit.len(),
                found@ == gather(listing(self.table@), visit@.take(k as int)),
            decreases visit.len() - k,
        {
            let code = visit[k].pack();
            proof {
                lemma_listing(self.table@, visit@[k as int]);
                assert(visit@.take(k + 1).drop_last() =~= visit@.take(k as int));
            }
            match self.table.get(&code) {
                Some(bucket) => {
                    append_all(&mut found, bucket);
                },
                None => {
                    assert(found@ + Seq::<usize>::empty() =~= found@);
                },
            }
            k = k + 1;
        }
        proof {
            assert(visit@.take(visit.len() as int) =~= visit@);
            lemma_query_complete(listing(self.table@), self.home@, *key, reach as int);
        }
        found
    }

    /// The particles in the cells within `reach` of the cell of `particle`,
    /// the particle itself among them.  A number that no particle has gives
    /// none.
    pub fn neighbour(&self, particle: usize, reach: i32) -> (found: Vec<usize>)
        requires
            self.wf(),
        ensures
            particle < self.cells().len() ==> found@ == gather(
                self@,
                neighbourhood_of(self.cells()[particle as int], reach as int),
            ),
            particle >= self.cells().len() ==> found@ == Seq::<usize>::empty(),
            found@.no_duplicates(),
            forall|id: usize| #[trigger]
                found@.contains(id) <==> particle < self.cells().len() && id < self.cells().len()
                    && self.cells()[particle as int].within_reach(
                    self.cells()[id as int],
                    reach as int,
                ),
    {
        if particle < self.home.len() {
            self.neighbour_by_key(&self.home[particle], reach)
        } else {
            Vec::new()
        }
    }

    /// The number of particles.
    pub fn count(&self) -> (n: usize)
        ensures
            n == self.cells().len(),
    {
        self.home.len()
    }
}

impl Default for Space {
    /// The space without particles.
    fn default() -> (space: Space)
        ensures
            space.wf(),
            space.cells() == Seq::<CellKey>::empty(),
            space@ == Map::<CellKey, Seq<usize>>::empty(),
    {
        let space = Space { table: HashMap::new(), home: Vec::new() };
        proof {
            assert(space@ =~= Map::<CellKey, Seq<usize>>::empty());
        }
        space
    }
}

/// Moving one particle from the bucket of its old cell to the end of the
/// bucket of its new cell keeps the particles filed under their cells.
proof fn lemma_moved(
    before: Map<u128, Vec<usize>>,
    between: Map<u128, Vec<usize>>,
    after: Map<u128, Vec<usize>>,
    home: Seq<CellKey>,
    i: usize,
    to: CellKey,
)
    requires
        i < home.len(),
        home[i as int] != to,
        partitions(listing(before), home),
        slot(between, home[i as int].code() as u128) == slot(
            before,
            home[i as int].code() as u128,
        ).remove(slot(before, home[i as int].code() as u128).index_of(i)),
        forall|other: u128|
            other != home[i as int].code() as u128 ==> #[trigger] slot(between, other) == slot(
                before,
                other,
            ),
        slot(after, to.code() as u128) == slot(between, to.code() as u128).push(i),
        forall|other: u128|
            other != to.code() as u128 ==> #[trigger] slot(after, other) == slot(between, other),
    ensures
        partitions(listing(after), home.update(i as int, to)),
{
    broadcast use vstd::seq_lib::group_seq_properties;

    let from = home[i as int];
    let moved = home.update(i as int, to);
    let left = slot(before, from.code() as u128);
    let at = left.index_of(i);
    CellKey::lemma_code_injective(from, to);
    lemma_listing(before, from);
    lemma_listing(before, to);
    assert(left.contains(i));
    assert(left.no_duplicates()) by {
        assert(bucket_of(listing(before), from).no_duplicates());
    }
    assert(0 <= at < left.len() && left[at] == i);
    assert forall|c: CellKey, id: usize| #[trigger]
        bucket_of(listing(after), c).contains(id) <==> id < moved.len() && moved[id as int]
            == c by {
        lemma_listing(after, c);
        lemma_listing(before, c);
        CellKey::lemma_code_injective(c, from);
        CellKey::lemma_code_injective(c, to);
        assert(bucket_of(listing(before), c).contains(id) <==> id < home.len() && home[id as int]
            == c);
        if c == from {
            lemma_remove_contains(left, at, id);
        }
    }
    assert forall|c: CellKey| #[trigger] bucket_of(listing(after), c).no_duplicates() by {
        lemma_listing(after, c);
        lemma_listing(before, c);
        CellKey::lemma_code_injective(c, from);
        CellKey::lemma_code_injective(c, to);
        assert(bucket_of(listing(before), c).no_duplicates());
        if c == from {
            lemma_remove_no_duplicates(left, at);
        }
        if c == to {
            let joined = slot(before, to.code() as u128);
            assert forall|j: int| 0 <= j < joined.len() implies joined[j] != i by {
                assert(joined.contains(joined[j]));
                assert(bucket_of(listing(before), to).contains(joined[j]));
            }
        }
    }
}

/// Without its element at `at`, a sequence free of repetitions holds what it
/// held before, but for that element.
proof fn lemma_remove_contains(s: Seq<usize>, at: int, id: usize)
    requires
        s.no_duplicates(),
        0 <= at < s.len(),
    ensures
        s.remove(at).contains(id) <==> s.contains(id) && id != s[at],
{
    let rest = s.remove(at);
    if rest.contains(id) {
        let j = choose|j: int| 0 <= j < rest.len() && rest[j] == id;
        if j < at {
            assert(s[j] == id);
        } else {
            assert(s[j + 1] == id);
        }
    }
    if s.contains(id) && id != s[at] {
        let j = choose|j: int| 0 <= j < s.len() && s[j] == id;
        if j < at {
            assert(rest[j] == id);
        } else {
            assert(rest[j - 1] == id);
        }
    }
}

/// Taking an element out of a sequence free of repetitions leaves it free of
/// them.
proof fn lemma_remove_no_duplicates(s: Seq<usize>, at: int)
    requires
        s.no_duplicates(),
        0 <= at < s.len(),
    ensures
        s.remove(at).no_duplicates(),
{
    let rest = s.remove(at);
    assert forall|i: int, j: int| 0 <= i < rest.len() && 0 <= j < rest.len() && i != j implies rest[i]
        != rest[j] by {
        let a = if i < at { i } else { i + 1 };
        let b = if j < at { j } else { j + 1 };
        assert(rest[i] == s[a]);
        assert(rest[j] == s[b]);
    }
}

} // verus!
