//! The flat grid: all particles in one array, grouped by cell, and a hash
//! table that says which stretch of the array belongs to which cell.  It is
//! rebuilt as a whole when the particles have moved.

use crate::block::{neighbourhood, neighbourhood_of};
use crate::cell::CellKey;
use crate::partition::{
    bucket_of, gather, grouped, lemma_grouped_injective, lemma_grouped_partitions, lemma_members,
    lemma_partition_unique, lemma_query_complete, members, partitions,
};
use crate::table::{append_all, append_range, coded, group_pairs, lemma_coded_values, slot};
use std::collections::HashMap;
use vstd::prelude::*;

verus! {

broadcast use vstd::std_specs::hash::group_hash_axioms;

/// A stretch `start .. end` of the particle array.
#[derive(Clone, Copy, Debug)]
struct Span {
    start: usize,
    end: usize,
}

/// Particles grouped by cell in one array.
///
/// A particle is known by its number, its place in the sequence of cells
/// that the grid was last rebuilt from.
#[derive(Debug)]
pub struct SpatialHashGrid {
    table: Vec<usize>,
    info: HashMap<u128, Span>,
}

/// The stretch of `table` that `info` gives to the cell with code `code`;
/// empty where it gives none.
spec fn stretch(table: Seq<usize>, info: Map<u128, Span>, code: u128) -> Seq<usize> {
    if info.contains_key(code) {
        table.subrange(info[code].start as int, info[code].end as int)
    } else {
        Seq::empty()
    }
}

impl View for SpatialHashGrid {
    type V = Map<CellKey, Seq<usize>>;

    /// Every occupied cell with the particles in it, in the order in which a
    /// lookup hands them out.
    closed spec fn view(&self) -> Map<CellKey, Seq<usize>> {
        Map::new(
            |c: CellKey| stretch(self.table@, self.info@, c.code() as u128).len() > 0,
            |c: CellKey| stretch(self.table@, self.info@, c.code() as u128),
        )
    }
}

impl SpatialHashGrid {
    /// Whether the grid is the grouping of the particles that `keys` places.
    pub closed spec fn built_from(&self, keys: Seq<CellKey>) -> bool {
        keys.len() <= usize::MAX && self@ == grouped(keys)
    }

    /// The cells that the grid was last rebuilt from, one for each particle.
    pub closed spec fn cells(&self) -> Seq<CellKey> {
        choose|keys: Seq<CellKey>| self.built_from(keys)
    }

    /// Every stretch lies within the particle array, and the grid is the
    /// grouping of its particles by their cells.
    pub closed spec fn wf(&self) -> bool {
        &&& forall|code: u128| #[trigger]
            self.info@.contains_key(code) ==> self.info@[code].start <= self.info@[code].end
                <= self.table@.len()
        &&& exists|keys: Seq<CellKey>| self.built_from(keys)
    }

    /// A well-formed grid is the grouping of its particles by their cells.
    pub proof fn lemma_wf(&self)
        requires
            self.wf(),
        ensures
            self.cells().len() <= usize::MAX,
            self@ == grouped(self.cells()),
            partitions(self@, self.cells()),
    {
        lemma_grouped_partitions(self.cells());
    }

    /// What the grid lists for a cell is the stretch of that cell.
    proof fn lemma_view(&self, c: CellKey)
        ensures
            bucket_of(self@, c) == stretch(self.table@, self.info@, c.code() as u128),
    {
        if stretch(self.table@, self.info@, c.code() as u128).len() == 0 {
            assert(stretch(self.table@, self.info@, c.code() as u128) =~= Seq::empty());
        }
    }

    /// A grid without particles.
    pub fn new() -> (grid: SpatialHashGrid)
        ensures
            grid.wf(),
            grid.cells() == Seq::<CellKey>::empty(),
            grid@ == Map::<CellKey, Seq<usize>>::empty(),
    {
        let grid = SpatialHashGrid { table: Vec::new(), info: HashMap::new() };
        proof {
            let none = Seq::<CellKey>::empty();
            assert forall|c: CellKey| members(none, c) == Seq::<usize>::empty() by {
                reveal(Seq::filter);
            }
            assert(grid@ =~= Map::<CellKey, Seq<usize>>::empty());
            assert(grouped(none) =~= Map::<CellKey, Seq<usize>>::empty());
            assert(grid.built_from(none));
            lemma_grouped_injective(grid.cells(), none);
        }
        grid
    }

    /// Rebuilds the grid from the particles `0 .. keys.len()`, where
    /// `keys[i]` is the cell of particle `i`.  What was in it before is
    /// forgotten.
    pub fn update(&mut self, keys: &Vec<CellKey>)
        ensures
            final(self).wf(),
            final(self).cells() == keys@,
            final(self)@ == grouped(keys@),
    {
        let n = keys.len();
        let mut pairs: Vec<(u128, usize)> = Vec::new();
        let mut i: usize = 0;
        while i < n
            invariant
                i <= n,
                n == keys.len(),
                pairs@ == coded(keys@, i as nat),
            decreases n - i,
        {
            pairs.push((keys[i].pack(), i));
            i = i + 1;
        }
        let mut groups = group_pairs(pairs);
        let ghost all = groups@;
        proof {
            assert forall|c: CellKey| slot(all, c.code() as u128) == members(keys@, c) by {
                lemma_coded_values(keys@, keys@.len(), c);
            }
        }
        let mut table: Vec<usize> = Vec::new();
        let mut info: HashMap<u128, Span> = HashMap::new();
        i = 0;
        while i < n
            invariant
                i <= n,
                n == keys.len(),
                forall|c: CellKey| slot(all, c.code() as u128) == members(keys@, c),
                forall|code: u128| #[trigger]
                    groups@.contains_key(code) ==> all.contains_key(code) && groups@[code]
                        == all[code],
                forall|code: u128| #[trigger]
                    all.contains_key(code) ==> (groups@.contains_key(code)
                        <==> !info@.contains_key(code)),
                forall|code: u128| #[trigger]
                    info@.contains_key(code) ==> all.contains_key(code) && info@[code].start
                        <= info@[code].end <= table@.len() && table@.subrange(
                        info@[code].start as int,
                        info@[code].end as int,
                    ) == all[code]@,
                forall|j: int| 0 <= j < i ==> info@.contains_key(#[trigger] keys@[j].code() as u128),
            decreases n - i,
        {
            let code = keys[i].pack();
            proof {
                lemma_members(keys@, keys@[i as int]);
                assert(members(keys@, keys@[i as int]).contains(i));
                assert(all.contains_key(code));
            }
            let ghost laid = table@;
            match groups.remove(&code) {
                Some(bucket) => {
                    let start = table.len();
                    append_all(&mut table, &bucket);
                    let end = table.len();
                    info.insert(code, Span { start, end });
                    proof {
                        assert(table@.subrange(start as int, end as int) =~= bucket@);
                        assert forall|other: u128| #[trigger]
                            info@.contains_key(other) && other != code implies table@.subrange(
                            info@[other].start as int,
                            info@[other].end as int,
                        ) == all[other]@ by {
                            assert(table@.subrange(
                                info@[other].start as int,
                                info@[other].end as int,
                            ) =~= laid.subrange(
                                info@[other].start as int,
                                info@[other].end as int,
                            ));
                        }
                    }
                },
                None => {},
            }
            i = i + 1;
        }
        self.table = table;
        self.info = info;
        proof {
            assert forall|c: CellKey| bucket_of(self@, c) == bucket_of(grouped(keys@), c) by {
                let code = c.code() as u128;
                self.lemma_view(c);
                lemma_members(keys@, c);
                let found = members(keys@, c);
                if found.len() > 0 {
                    assert(found.contains(found[0]));
                    assert(self.info@.contains_key(keys@[found[0] as int].code() as u128));
                } else if self.info@.contains_key(code) {
                    assert(all[code]@.len() > 0);
                }
            }
            lemma_partition_unique(self@, grouped(keys@));
            assert(self.built_from(keys@));
            lemma_grouped_injective(self.cells(), keys@);
        }
    }

    /// The particles in the cells within `reach` of `key` along every axis:
    /// the stretches of those cells one after the other, `x` slowest and `z`
    /// fastest.  These are all the particles whose cell is that near, each of
    /// them once.
    pub fn lookup(&self, key: &CellKey, reach: i32) -> (found: Vec<usize>)
        requires
            self.wf(),
        ensures
            found@ == gather(self@, neighbourhood_of(*key, reach as int)),
            found@.no_duplicates(),
            forall|id: usize| #[trigger]
                found@.contains(id) <==> id < self.cells().len() && key.within_reach(
                    self.cells()[id as int],
                    reach as int,
                ),
    {
        let visit = neighbourhood(key, reach);
        let mut found: Vec<usize> = Vec::new();
        let mut k: usize = 0;
        while k < visit.len()
            invariant
                k <= visit.len(),
                self.wf(),
                found@ == gather(self@, visit@.take(k as int)),
            decreases visit.len() - k,
        {
            let code = visit[k].pack();
            proof {
                self.lemma_view(visit@[k as int]);
                assert(visit@.take(k + 1).drop_last() =~= visit@.take(k as int));
            }
            match self.info.get(&code) {
                Some(span) => {
                    append_range(&mut found, &self.table, span.start, span.end);
                },
                None => {
                    assert(found@ + Seq::<usize>::empty() =~= found@);
                },
            }
            k = k + 1;
        }
        proof {
            assert(visit@.take(visit.len() as int) =~= visit@);
            self.lemma_wf();
            lemma_query_complete(self@, self.cells(), *key, reach as int);
        }
        found
    }
}

impl Default for SpatialHashGrid {
    /// The grid without particles.
    fn default() -> (grid: SpatialHashGrid)
        ensures
            grid.wf(),
            grid.cells() == Seq::<CellKey>::empty(),
            grid@ == Map::<CellKey, Seq<usize>>::empty(),
    {
        SpatialHashGrid::new()
    }
}

} // verus!
