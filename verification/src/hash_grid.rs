//! The plane grid: a hash table from the cells of a two-dimensional grid to
//! the particles in them, rebuilt as a whole when the particles have moved.

use crate::partition::{bucket_of, gather, grouped, ids, lemma_partition_unique, placed_in};
use crate::table::{append_all, push_to, slot};
use std::collections::HashMap;
use vstd::prelude::*;

verus! {

broadcast use vstd::std_specs::hash::group_hash_axioms;

/// The key of one cell of the plane: two words, one per axis.  The grid asks
/// nothing of them but that equal cells have equal words.
#[derive(Clone, Copy, Debug, PartialEq, Eq, Hash, Structural)]
pub struct PlaneKey {
    pub x: u32,
    pub y: u32,
}

impl PlaneKey {
    /// The table code of this cell: the two words read as the digits of a
    /// number in base `2^32`.
    pub open spec fn code(self) -> int {
        self.x * 0x1_0000_0000 + self.y
    }

    pub fn new(x: u32, y: u32) -> (key: PlaneKey)
        ensures
            key == (PlaneKey { x, y }),
    {
        PlaneKey { x, y }
    }

    /// Computes the table code of this cell.
    pub fn pack(&self) -> (packed: u128)
        ensures
            packed == self.code(),
    {
        self.x as u128 * 0x1_0000_0000 + self.y as u128
    }

    /// Distinct cells have distinct codes.
    pub proof fn lemma_code_injective(a: PlaneKey, b: PlaneKey)
        ensures
            a.code() == b.code() <==> a == b,
    {
    }
}

/// Particles of the plane filed by cell.
///
/// A particle is known by its number, its place in the sequence of cells
/// that the grid was last rebuilt from.
#[derive(Debug)]
pub struct HashGrid {
    map: HashMap<u128, Vec<usize>>,
}

impl View for HashGrid {
    type V = Map<PlaneKey, Seq<usize>>;

    /// Every occupied cell with the particles in it, in the order in which a
    /// lookup hands them out.
    closed spec fn view(&self) -> Map<PlaneKey, Seq<usize>> {
        Map::new(
            |c: PlaneKey| slot(self.map@, c.code() as u128).len() > 0,
            |c: PlaneKey| slot(self.map@, c.code() as u128),
        )
    }
}

impl HashGrid {
    /// What the grid lists for a cell is the bucket under the cell's code.
    proof fn lemma_view(&self, c: PlaneKey)
        ensures
            bucket_of(self@, c) == slot(self.map@, c.code() as u128),
    {
        if slot(self.map@, c.code() as u128).len() == 0 {
            assert(slot(self.map@, c.code() as u128) =~= Seq::empty());
        }
    }

    /// A grid without particles.
    pub fn new() -> (grid: HashGrid)
        ensures
            grid@ == Map::<PlaneKey, Seq<usize>>::empty(),
    {
        let grid = HashGrid { map: HashMap::new() };
        assert(grid@ =~= Map::<PlaneKey, Seq<usize>>::empty());
        grid
    }

    /// Rebuilds the grid from the particles `0 .. keys.len()`, where
    /// `keys[i]` is the cell of particle `i`.  What was in it before is
    /// forgotten.
    pub fn update(&mut self, keys: &Vec<PlaneKey>)
        ensures
            final(self)@ == grouped(keys@),
    {
        self.map.clear();
        let n = keys.len();
        let mut i: usize = 0;
        proof {
            reveal(Seq::filter);
            assert forall|c: PlaneKey|
                slot(self.map@, c.code() as u128) == ids(0).filter(placed_in(keys@, c)) by {
                assert(ids(0).filter(placed_in(keys@, c)) =~= Seq::empty());
            }
        }
        while i < n
            invariant
                i <= n,
                n == keys.len(),
                forall|c: PlaneKey|
                    slot(self.map@, c.code() as u128) == ids(i as nat).filter(
                        placed_in(keys@, c),
                    ),
            decreases n - i,
        {
            let ghost before = self.map@;
            push_to(&mut self.map, keys[i].pack(), i);
            proof {
                assert(ids((i + 1) as nat) =~= ids(i as nat).push(i));
                assert forall|c: PlaneKey|
                    slot(self.map@, c.code() as u128) == ids((i + 1) as nat).filter(
                        placed_in(keys@, c),
                    ) by {
                    PlaneKey::lemma_code_injective(c, keys@[i as int]);
                    ids(i as nat).lemma_filter_push(i, placed_in(keys@, c));
                    assert(slot(before, c.code() as u128) == ids(i as nat).filter(
                        placed_in(keys@, c),
                    ));
                }
            }
            i = i + 1;
        }
        proof {
            assert forall|c: PlaneKey| bucket_of(self@, c) == bucket_of(grouped(keys@), c) by {
                self.lemma_view(c);
            }
            lemma_partition_unique(self@, grouped(keys@));
        }
    }

    /// The particles in the cells of `probes`: the buckets of those cells
    /// one after the other, in the order of `probes`.  A cell that is named
    /// twice gives its particles twice.
    pub fn lookup(&self, probes: &Vec<PlaneKey>) -> (found: Vec<usize>)
        ensures
            found@ == gather(self@, probes@),
    {
        let mut found: Vec<usize> = Vec::new();
        let mut k: usize = 0;
        while k < probes.len()
            invariant
                k <= probes.len(),
                found@ == gather(self@, probes@.take(k as int)),
            decreases probes.len() - k,
        {
            let code = probes[k].pack();
            proof {
                self.lemma_view(probes@[k as int]);
                assert(probes@.take(k + 1).drop_last() =~= probes@.take(k as int));
            }
            match self.map.get(&code) {
                Some(bucket) => {
                    append_all(&mut found, bucket);
                },
                None => {
                    assert(found@ + Seq::<usize>::empty() =~= found@);
                },
            }
            k = k + 1;
        }
        assert(probes@.take(probes.len() as int) =~= probes@);
        found
    }
}

impl Default for HashGrid {
    fn default() -> (grid: HashGrid)
        ensures
            grid@ == Map::<PlaneKey, Seq<usize>>::empty(),
    {
        HashGrid::new()
    }
}

} // verus!
