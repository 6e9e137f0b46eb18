//! Blocks of neighbouring cells.
//!
//! A query around a cell visits every cell within a given reach along each
//! axis.  The cells of such a block are enumerated with `x` varying slowest
//! and `z` fastest.

use crate::cell::{CellKey, COORD_MAX, COORD_MIN};
use vstd::prelude::*;

verus! {

/// Whether `v` is a coordinate that a cell key can hold.
pub open spec fn is_coord(v: int) -> bool {
    COORD_MIN <= v <= COORD_MAX
}

/// The cell with coordinates `(x, y, z)`.
pub open spec fn cell_at(x: int, y: int, z: int) -> CellKey {
    CellKey { x: x as i32, y: y as i32, z: z as i32 }
}

/// First coordinate of the span of `reach` cells around coordinate `c`, cut
/// off at the smallest coordinate.
pub open spec fn span_start(c: int, reach: int) -> int {
    if c - reach < COORD_MIN {
        COORD_MIN as int
    } else {
        c - reach
    }
}

/// One past the last coordinate of the span of `reach` cells around
/// coordinate `c`, cut off behind the largest coordinate.
pub open spec fn span_end(c: int, reach: int) -> int {
    if c + reach > COORD_MAX {
        COORD_MAX + 1
    } else {
        c + reach + 1
    }
}

/// The cells `(x, y, z)` for `z` in `z_start .. z_end`, in rising order.
pub open spec fn row(x: int, y: int, z_start: int, z_end: int) -> Seq<CellKey>
    decreases z_end - z_start,
{
    if z_end <= z_start {
        Seq::empty()
    } else {
        row(x, y, z_start, z_end - 1).push(cell_at(x, y, z_end - 1))
    }
}

/// The rows for `y` in `y_start .. y_end`, one after the other.
pub open spec fn slab(x: int, y_start: int, y_end: int, z_start: int, z_end: int) -> Seq<CellKey>
    decreases y_end - y_start,
{
    if y_end <= y_start {
        Seq::empty()
    } else {
        slab(x, y_start, y_end - 1, z_start, z_end) + row(x, y_end - 1, z_start, z_end)
    }
}

/// The slabs for `x` in `x_start .. x_end`, one after the other.
pub open spec fn block(
    x_start: int,
    x_end: int,
    y_start: int,
    y_end: int,
    z_start: int,
    z_end: int,
) -> Seq<CellKey>
    decreases x_end - x_start,
{
    if x_end <= x_start {
        Seq::empty()
    } else {
        block(x_start, x_end - 1, y_start, y_end, z_start, z_end) + slab(
            x_end - 1,
            y_start,
            y_end,
            z_start,
            z_end,
        )
    }
}

/// The cells within `reach` of `key` along every axis, `x` slowest and `z`
/// fastest.  Empty when `reach` is negative.
pub open spec fn neighbourhood_of(key: CellKey, reach: int) -> Seq<CellKey> {
    block(
        span_start(key.x as int, reach),
        span_end(key.x as int, reach),
        span_start(key.y as int, reach),
        span_end(key.y as int, reach),
        span_start(key.z as int, reach),
        span_end(key.z as int, reach),
    )
}

/// A row holds exactly the cells of its line segment.
pub proof fn lemma_row_contains(x: int, y: int, z_start: int, z_end: int, c: CellKey)
    requires
        is_coord(x),
        is_coord(y),
        COORD_MIN <= z_start,
        z_end <= COORD_MAX + 1,
    ensures
        row(x, y, z_start, z_end).contains(c) <==> (c.x == x && c.y == y && z_start <= c.z
            < z_end),
    decreases z_end - z_start,
{
    broadcast use vstd::seq_lib::group_seq_properties;

    if z_end > z_start {
        lemma_row_contains(x, y, z_start, z_end - 1, c);
    }
}

/// No cell occurs twice in a row.
pub proof fn lemma_row_no_duplicates(x: int, y: int, z_start: int, z_end: int)
    requires
        is_coord(x),
        is_coord(y),
        COORD_MIN <= z_start,
        z_end <= COORD_MAX + 1,
    ensures
        row(x, y, z_start, z_end).no_duplicates(),
    decreases z_end - z_start,
{
    if z_end > z_start {
        let rest = row(x, y, z_start, z_end - 1);
        let last = cell_at(x, y, z_end - 1);
        lemma_row_no_duplicates(x, y, z_start, z_end - 1);
        lemma_row_contains(x, y, z_start, z_end - 1, last);
        assert forall|i: int, j: int|
            0 <= i < rest.push(last).len() && 0 <= j < rest.push(last).len() && i != j implies rest.push(
            last,
        )[i] != rest.push(last)[j] by {
            if i < rest.len() {
                assert(rest.contains(rest[i]));
            }
            if j < rest.len() {
                assert(rest.contains(rest[j]));
            }
        }
    }
}

/// A slab holds exactly the cells of its rectangle.
pub proof fn lemma_slab_contains(
    x: int,
    y_start: int,
    y_end: int,
    z_start: int,
    z_end: int,
    c: CellKey,
)
    requires
        is_coord(x),
        COORD_MIN <= y_start,
        y_end <= COORD_MAX + 1,
        COORD_MIN <= z_start,
        z_end <= COORD_MAX + 1,
    ensures
        slab(x, y_start, y_end, z_start, z_end).contains(c) <==> (c.x == x && y_start <= c.y
            < y_end && z_start <= c.z < z_end),
    decreases y_end - y_start,
{
    broadcast use vstd::seq_lib::group_seq_properties;

    if y_end > y_start {
        lemma_slab_contains(x, y_start, y_end - 1, z_start, z_end, c);
        lemma_row_contains(x, y_end - 1, z_start, z_end, c);
    }
}

/// No cell occurs twice in a slab.
pub proof fn lemma_slab_no_duplicates(x: int, y_start: int, y_end: int, z_start: int, z_end: int)
    requires
        is_coord(x),
        COORD_MIN <= y_start,
        y_end <= COORD_MAX + 1,
        COORD_MIN <= z_start,
        z_end <= COORD_MAX + 1,
    ensures
        slab(x, y_start, y_end, z_start, z_end).no_duplicates(),
    decreases y_end - y_start,
{
    if y_end > y_start {
        let rest = slab(x, y_start, y_end - 1, z_start, z_end);
        let last = row(x, y_end - 1, z_start, z_end);
        lemma_slab_no_duplicates(x, y_start, y_end - 1, z_start, z_end);
        lemma_row_no_duplicates(x, y_end - 1, z_start, z_end);
        assert forall|i: int, j: int| 0 <= i < rest.len() && 0 <= j < last.len() implies rest[i]
            != last[j] by {
            assert(rest.contains(rest[i]));
            assert(last.contains(last[j]));
            lemma_slab_contains(x, y_start, y_end - 1, z_start, z_end, rest[i]);
            lemma_row_contains(x, y_end - 1, z_start, z_end, last[j]);
        }
        vstd::seq_lib::lemma_no_dup_in_concat(rest, last);
    }
}

/// A block holds exactly the cells of its box.
pub proof fn lemma_block_contains(
    x_start: int,
    x_end: int,
    y_start: int,
    y_end: int,
    z_start: int,
    z_end: int,
    c: CellKey,
)
    requires
        COORD_MIN <= x_start,
        x_end <= COORD_MAX + 1,
        COORD_MIN <= y_start,
        y_end <= COORD_MAX + 1,
        COORD_MIN <= z_start,
        z_end <= COORD_MAX + 1,
    ensures
        block(x_start, x_end, y_start, y_end, z_start, z_end).contains(c) <==> (x_start <= c.x
            < x_end && y_start <= c.y < y_end && z_start <= c.z < z_end),
    decreases x_end - x_start,
{
    broadcast use vstd::seq_lib::group_seq_properties;

    if x_end > x_start {
        lemma_block_contains(x_start, x_end - 1, y_start, y_end, z_start, z_end, c);
        lemma_slab_contains(x_end - 1, y_start, y_end, z_start, z_end, c);
    }
}

/// No cell occurs twice in a block.
pub proof fn lemma_block_no_duplicates(
    x_start: int,
    x_end: int,
    y_start: int,
    y_end: int,
    z_start: int,
    z_end: int,
)
    requires
        COORD_MIN <= x_start,
        x_end <= COORD_MAX + 1,
        COORD_MIN <= y_start,
        y_end <= COORD_MAX + 1,
        COORD_MIN <= z_start,
        z_end <= COORD_MAX + 1,
    ensures
        block(x_start, x_end, y_start, y_end, z_start, z_end).no_duplicates(),
    decreases x_end - x_start,
{
    if x_end > x_start {
        let rest = block(x_start, x_end - 1, y_start, y_end, z_start, z_end);
        let last = slab(x_end - 1, y_start, y_end, z_start, z_end);
        lemma_block_no_duplicates(x_start, x_end - 1, y_start, y_end, z_start, z_end);
        lemma_slab_no_duplicates(x_end - 1, y_start, y_end, z_start, z_end);
        assert forall|i: int, j: int| 0 <= i < rest.len() && 0 <= j < last.len() implies rest[i]
            != last[j] by {
            assert(rest.contains(rest[i]));
            assert(last.contains(last[j]));
            lemma_block_contains(x_start, x_end - 1, y_start, y_end, z_start, z_end, rest[i]);
            lemma_slab_contains(x_end - 1, y_start, y_end, z_start, z_end, last[j]);
        }
        vstd::seq_lib::lemma_no_dup_in_concat(rest, last);
    }
}

/// The neighbourhood of a cell holds exactly the cells within reach of it,
/// each of them once.
pub proof fn lemma_neighbourhood(key: CellKey, reach: int)
    ensures
        forall|c: CellKey| #[trigger]
            neighbourhood_of(key, reach).contains(c) <==> key.within_reach(c, reach),
        neighbourhood_of(key, reach).no_duplicates(),
{
    let x_start = span_start(key.x as int, reach);
    let x_end = span_end(key.x as int, reach);
    let y_start = span_start(key.y as int, reach);
    let y_end = span_end(key.y as int, reach);
    let z_start = span_start(key.z as int, reach);
    let z_end = span_end(key.z as int, reach);
    lemma_block_no_duplicates(x_start, x_end, y_start, y_end, z_start, z_end);
    assert forall|c: CellKey| #[trigger]
        neighbourhood_of(key, reach).contains(c) <==> key.within_reach(c, reach) by {
        lemma_block_contains(x_start, x_end, y_start, y_end, z_start, z_end, c);
    }
}

/// The span of `reach` cells around coordinate `c`: its first coordinate and
/// one past its last.
fn span(c: i32, reach: i32) -> (bounds: (i64, i64))
    ensures
        bounds.0 == span_start(c as int, reach as int),
        bounds.1 == span_end(c as int, reach as int),
{
    let low: i64 = c as i64 - reach as i64;
    let high: i64 = c as i64 + reach as i64;
    let start: i64 = if low < COORD_MIN as i64 {
        COORD_MIN as i64
    } else {
        low
    };
    let end: i64 = if high > COORD_MAX as i64 {
        COORD_MAX as i64 + 1
    } else {
        high + 1
    };
    (start, end)
}

/// Lists the cells within `reach` of `key` along every axis, `x` slowest and
/// `z` fastest.  Cells whose coordinates no key can hold are left out; a
/// negative `reach` gives no cell at all.
pub fn neighbourhood(key: &CellKey, reach: i32) -> (cells: Vec<CellKey>)
    ensures
        cells@ == neighbourhood_of(*key, reach as int),
{
    let (x_start, x_end) = span(key.x, reach);
    let (y_start, y_end) = span(key.y, reach);
    let (z_start, z_end) = span(key.z, reach);
    let mut cells: Vec<CellKey> = Vec::new();
    let mut x: i64 = x_start;
    while x < x_end
        invariant
            COORD_MIN <= x_start <= x,
            x <= x_end || x == x_start,
            x_end <= COORD_MAX + 1,
            COORD_MIN <= y_start,
            y_end <= COORD_MAX + 1,
            COORD_MIN <= z_start,
            z_end <= COORD_MAX + 1,
            cells@ == block(
                x_start as int,
                x as int,
                y_start as int,
                y_end as int,
                z_start as int,
                z_end as int,
            ),
        decreases x_end - x,
    {
        let ghost done = cells@;
        let mut y: i64 = y_start;
        while y < y_end
            invariant
                is_coord(x as int),
                COORD_MIN <= y_start <= y,
                y <= y_end || y == y_start,
                y_end <= COORD_MAX + 1,
                COORD_MIN <= z_start,
                z_end <= COORD_MAX + 1,
                cells@ == done + slab(
                    x as int,
                    y_start as int,
                    y as int,
                    z_start as int,
                    z_end as int,
                ),
            decreases y_end - y,
        {
            let ghost before = cells@;
            let mut z: i64 = z_start;
            while z < z_end
                invariant
                    is_coord(x as int),
                    is_coord(y as int),
                    COORD_MIN <= z_start <= z,
                    z <= z_end || z == z_start,
                    z_end <= COORD_MAX + 1,
                    cells@ == before + row(x as int, y as int, z_start as int, z as int),
                decreases z_end - z,
            {
                cells.push(CellKey { x: x as i32, y: y as i32, z: z as i32 });
                z = z + 1;
            }
            y = y + 1;
        }
        x = x + 1;
    }
    cells
}

} // verus!
