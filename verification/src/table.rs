//! Bucket tables: hash maps from the code of a cell to the particles in it.

use crate::cell::CellKey;
use crate::partition::{bucket_of, ids, placed_in};
use itertools::Itertools;
use std::collections::HashMap;
use vstd::prelude::*;

verus! {

broadcast use vstd::std_specs::hash::group_hash_axioms;

/// The particles that `table` holds under `code`; none where it has no such
/// bucket.
pub open spec fn slot(table: Map<u128, Vec<usize>>, code: u128) -> Seq<usize> {
    if table.contains_key(code) {
        table[code]@
    } else {
        Seq::empty()
    }
}

/// What a table keyed by cell codes lists: every cell whose bucket holds a
/// particle, with that bucket.
pub open spec fn listing(table: Map<u128, Vec<usize>>) -> Map<CellKey, Seq<usize>> {
    Map::new(
        |c: CellKey| slot(table, c.code() as u128).len() > 0,
        |c: CellKey| slot(table, c.code() as u128),
    )
}

/// The bucket that a table lists for a cell is the one it holds under the
/// cell's code.
pub proof fn lemma_listing(table: Map<u128, Vec<usize>>, c: CellKey)
    ensures
        bucket_of(listing(table), c) == slot(table, c.code() as u128),
{
    if slot(table, c.code() as u128).len() == 0 {
        assert(slot(table, c.code() as u128) =~= Seq::empty());
    }
}

/// The test whether a pair is filed under `code`.
pub open spec fn filed_under(code: u128) -> spec_fn((u128, usize)) -> bool {
    |pair: (u128, usize)| pair.0 == code
}

/// The second components of the pairs whose first component is `code`, in
/// the order of the pairs.
pub open spec fn values_under(pairs: Seq<(u128, usize)>, code: u128) -> Seq<usize> {
    pairs.filter(filed_under(code)).map_values(|pair: (u128, usize)| pair.1)
}

/// Appending a pair appends its value to the values under its code and
/// leaves those under every other code as they were.
pub proof fn lemma_values_under_push(pairs: Seq<(u128, usize)>, pair: (u128, usize), code: u128)
    ensures
        values_under(pairs.push(pair), code) == if pair.0 == code {
            values_under(pairs, code).push(pair.1)
        } else {
            values_under(pairs, code)
        },
{
    let second = |pair: (u128, usize)| pair.1;
    pairs.lemma_filter_push(pair, filed_under(code));
    if pair.0 == code {
        pairs.filter(filed_under(code)).lemma_push_map_commute(second, pair);
    }
}

/// Groups the values of `pairs` by their codes.
///
/// Calls `Itertools::into_group_map`.  Trusted: the map that comes back has
/// a bucket for a code exactly where some pair carries that code, and the
/// bucket holds the values of those pairs in the order in which they stood
/// in `pairs`.
#[verifier::external_body]
pub(crate) fn group_pairs(pairs: Vec<(u128, usize)>) -> (table: HashMap<u128, Vec<usize>>)
    ensures
        forall|code: u128| #[trigger] slot(table@, code) == values_under(pairs@, code),
        forall|code: u128| #[trigger] table@.contains_key(code) ==> table@[code]@.len() > 0,
{
    pairs.into_iter().into_group_map()
}

/// The pairs of code and number for the first `n` particles of `keys`.
pub open spec fn coded(keys: Seq<CellKey>, n: nat) -> Seq<(u128, usize)> {
    Seq::new(n, |i: int| (keys[i].code() as u128, i as usize))
}

/// Among the first `n` particles, the values under the code of a cell are
/// the particles placed in that cell.
pub proof fn lemma_coded_values(keys: Seq<CellKey>, n: nat, c: CellKey)
    requires
        n <= keys.len() <= usize::MAX,
    ensures
        values_under(coded(keys, n), c.code() as u128) == ids(n).filter(placed_in(keys, c)),
    decreases n,
{
    reveal(Seq::filter);
    if n == 0 {
        assert(coded(keys, n).filter(filed_under(c.code() as u128)) =~= Seq::empty());
        assert(values_under(coded(keys, n), c.code() as u128) =~= Seq::empty());
        assert(ids(n).filter(placed_in(keys, c)) =~= Seq::empty());
    } else {
        let m = (n - 1) as nat;
        let pair = (keys[m as int].code() as u128, m as usize);
        lemma_coded_values(keys, m, c);
        assert(coded(keys, n) =~= coded(keys, m).push(pair));
        assert(ids(n) =~= ids(m).push(m as usize));
        lemma_values_under_push(coded(keys, m), pair, c.code() as u128);
        ids(m).lemma_filter_push(m as usize, placed_in(keys, c));
        CellKey::lemma_code_injective(keys[m as int], c);
    }
}

/// Appends `id` to the bucket under `code`, which is made if there is none.
pub(crate) fn push_to(table: &mut HashMap<u128, Vec<usize>>, code: u128, id: usize)
    ensures
        slot(final(table)@, code) == slot(old(table)@, code).push(id),
        forall|other: u128|
            other != code ==> #[trigger] slot(final(table)@, other) == slot(old(table)@, other),
{
    table.entry(code).or_insert(Vec::new()).push(id);
}

/// Takes `id` out of the bucket under `code`.  A bucket that this leaves
/// without a particle is dropped.
pub(crate) fn take_from(table: &mut HashMap<u128, Vec<usize>>, code: u128, id: usize)
    requires
        slot(old(table)@, code).contains(id),
        slot(old(table)@, code).no_duplicates(),
    ensures
        slot(final(table)@, code) == slot(old(table)@, code).remove(
            slot(old(table)@, code).index_of(id),
        ),
        forall|other: u128|
            other != code ==> #[trigger] slot(final(table)@, other) == slot(old(table)@, other),
{
    let ghost before = slot(table@, code);
    match table.remove(&code) {
        Some(mut bucket) => {
            let mut at: usize = 0;
            while at < bucket.len() && bucket[at] != id
                invariant
                    bucket@ == before,
                    before.contains(id),
                    at <= bucket.len(),
                    forall|j: int| 0 <= j < at ==> before[j] != id,
                decreases bucket.len() - at,
            {
                at = at + 1;
            }
            assert(at < bucket.len());
            assert(before.index_of(id) == at);
            bucket.remove(at);
            if bucket.len() > 0 {
                table.insert(code, bucket);
            } else {
                assert(bucket@ =~= Seq::empty());
            }
        },
        None => {},
    }
}

/// Appends the particles of `bucket` to `found`.
pub(crate) fn append_all(found: &mut Vec<usize>, bucket: &Vec<usize>)
    ensures
        final(found)@ == old(found)@ + bucket@,
{
    let ghost before = found@;
    let mut j: usize = 0;
    while j < bucket.len()
        invariant
            j <= bucket.len(),
            found@ == before + bucket@.take(j as int),
        decreases bucket.len() - j,
    {
        found.push(bucket[j]);
        assert(bucket@.take(j + 1) =~= bucket@.take(j as int).push(bucket@[j as int]));
        j = j + 1;
    }
    assert(bucket@.take(bucket.len() as int) =~= bucket@);
}

/// Appends the particles at `start .. end` of `table` to `found`.
pub(crate) fn append_range(found: &mut Vec<usize>, table: &Vec<usize>, start: usize, end: usize)
    requires
        start <= end <= table.len(),
    ensures
        final(found)@ == old(found)@ + table@.subrange(start as int, end as int),
{
    let ghost before = found@;
    let mut j: usize = start;
    while j < end
        invariant
            start <= j <= end <= table.len(),
            found@ == before + table@.subrange(start as int, j as int),
        decreases end - j,
    {
        found.push(table[j]);
        assert(table@.subrange(start as int, j + 1) =~= table@.subrange(
            start as int,
            j as int,
        ).push(table@[j as int]));
        j = j + 1;
    }
}

} // verus!
