//! Facts about filtered sequences and about the hits of a query, which the
//! grid's operations and laws are proved from.

use crate::model::{
    after_moves, changes_cell, clamped, dropped, in_world, is_live, is_other, is_same, occurrences,
    pushed, range_hits, row_hits, same_shape, without, Move,
};
use vstd::prelude::*;

verus! {

/// Filtering a sequence that grew by one item: the item is kept or not.
pub proof fn lemma_filter_push(s: Seq<u64>, item: u64, pred: spec_fn(u64) -> bool)
    ensures
        s.push(item).filter(pred) == if pred(item) {
            s.filter(pred).push(item)
        } else {
            s.filter(pred)
        },
{
    reveal(Seq::filter);
    assert(s.push(item).drop_last() =~= s);
}

/// An item is in the concatenation of two sequences where it is in one of
/// them.
pub proof fn lemma_concat_contains(a: Seq<u64>, b: Seq<u64>, item: u64)
    ensures
        (a + b).contains(item) <==> a.contains(item) || b.contains(item),
{
    if a.contains(item) {
        let i = choose|i: int| 0 <= i < a.len() && a[i] == item;
        assert((a + b)[i] == item);
    }
    if b.contains(item) {
        let i = choose|i: int| 0 <= i < b.len() && b[i] == item;
        assert((a + b)[a.len() + i] == item);
    }
    if (a + b).contains(item) {
        let i = choose|i: int| 0 <= i < (a + b).len() && (a + b)[i] == item;
        if i < a.len() {
            assert(a[i] == item);
        } else {
            assert(b[i - a.len()] == item);
        }
    }
}

/// An item is in the filtered sequence where it is in the sequence and
/// meets the predicate.
pub proof fn lemma_filter_contains_iff(s: Seq<u64>, pred: spec_fn(u64) -> bool, item: u64)
    ensures
        s.filter(pred).contains(item) <==> s.contains(item) && pred(item),
    decreases s.len(),
{
    reveal(Seq::filter);
    if s.len() > 0 {
        let rest = s.drop_last();
        let last = s.last();
        assert(s =~= rest + seq![last]);
        assert(s =~= rest.push(last));
        lemma_filter_contains_iff(rest, pred, item);
        lemma_filter_push(rest, last, pred);
        lemma_concat_contains(rest, seq![last], item);
        assert(seq![last].contains(item) <==> last == item) by {
            if last == item {
                assert(seq![last][0] == item);
            }
        }
        if pred(last) {
            assert(s.filter(pred) =~= rest.filter(pred) + seq![last]);
            lemma_concat_contains(rest.filter(pred), seq![last], item);
        }
    }
}

/// The count of an identifier in a concatenation is the sum of its counts
/// in the parts.
pub proof fn lemma_concat_occurrences(a: Seq<u64>, b: Seq<u64>, id: u64)
    ensures
        occurrences(a + b, id) == occurrences(a, id) + occurrences(b, id),
{
    Seq::filter_distributes_over_add(a, b, is_same(id));
}

/// Appending an identifier adds one to its own count and leaves every other
/// count as it was.
pub proof fn lemma_push_occurrences(bucket: Seq<u64>, id: u64, other: u64)
    ensures
        occurrences(bucket.push(id), other) == occurrences(bucket, other) + if other == id {
            1nat
        } else {
            0nat
        },
{
    lemma_filter_push(bucket, id, is_same(other));
}

/// Taking an identifier out of a bucket brings its own count to zero and
/// leaves every other count as it was.
pub proof fn lemma_without_occurrences(bucket: Seq<u64>, id: u64, other: u64)
    ensures
        occurrences(without(bucket, id), other) == if other == id {
            0nat
        } else {
            occurrences(bucket, other)
        },
    decreases bucket.len(),
{
    reveal(Seq::filter);
    if bucket.len() > 0 {
        let rest = bucket.drop_last();
        let last = bucket.last();
        assert(bucket =~= rest.push(last));
        lemma_without_occurrences(rest, id, other);
        lemma_filter_push(rest, last, is_other(id));
        lemma_filter_push(rest, last, is_same(other));
        if last != id {
            lemma_filter_push(without(rest, id), last, is_same(other));
        }
    }
}

/// A bucket holds an identifier where it counts it at least once.
pub proof fn lemma_occurrences_contains(bucket: Seq<u64>, id: u64)
    ensures
        occurrences(bucket, id) > 0 <==> bucket.contains(id),
{
    let same = bucket.filter(is_same(id));
    lemma_filter_contains_iff(bucket, is_same(id), id);
    if same.len() > 0 {
        bucket.lemma_filter_pred(is_same(id), 0);
        assert(same[0] == id);
    }
}

/// A bucket that does not hold the identifier stays as it is when the
/// identifier is taken out.
pub proof fn lemma_without_absent(bucket: Seq<u64>, id: u64)
    requires
        !bucket.contains(id),
    ensures
        without(bucket, id) == bucket,
    decreases bucket.len(),
{
    reveal(Seq::filter);
    if bucket.len() > 0 {
        let rest = bucket.drop_last();
        let last = bucket.last();
        assert(bucket =~= rest.push(last));
        assert(last == bucket[bucket.len() - 1]);
        assert forall|i: int| 0 <= i < rest.len() implies rest[i] != id by {
            assert(rest[i] == bucket[i]);
        }
        lemma_without_absent(rest, id);
        lemma_filter_push(rest, last, is_other(id));
    } else {
        assert(without(bucket, id) =~= bucket);
    }
}

/// The hits of a bucket count an identifier as often as the bucket does
/// where the table holds it, and not at all where it does not.
pub proof fn lemma_live_occurrences(bucket: Seq<u64>, live: Set<u64>, id: u64)
    ensures
        occurrences(bucket.filter(is_live(live)), id) == if live.contains(id) {
            occurrences(bucket, id)
        } else {
            0nat
        },
    decreases bucket.len(),
{
    reveal(Seq::filter);
    if bucket.len() > 0 {
        let rest = bucket.drop_last();
        let last = bucket.last();
        assert(bucket =~= rest.push(last));
        lemma_live_occurrences(rest, live, id);
        lemma_filter_push(rest, last, is_live(live));
        lemma_filter_push(rest, last, is_same(id));
        if live.contains(last) {
            lemma_filter_push(rest.filter(is_live(live)), last, is_same(id));
        }
    }
}

/// Appending an identifier to a cell leaves every bucket's count of any
/// other identifier as it was.
pub proof fn lemma_pushed_other_occurrences(
    cells: Seq<Seq<Seq<u64>>>,
    id: u64,
    x: int,
    y: int,
    other: u64,
)
    requires
        in_world(cells, x, y),
        other != id,
    ensures
        same_shape(pushed(cells, x, y, id), cells),
        forall|ox: int, oy: int|
            in_world(cells, ox, oy) ==> occurrences(
                #[trigger] pushed(cells, x, y, id)[oy][ox],
                other,
            ) == occurrences(cells[oy][ox], other),
{
    lemma_push_occurrences(cells[y][x], id, other);
}

/// Taking an identifier out of a cell leaves every bucket's count of any
/// other identifier as it was.
pub proof fn lemma_dropped_other_occurrences(
    cells: Seq<Seq<Seq<u64>>>,
    id: u64,
    x: int,
    y: int,
    other: u64,
)
    requires
        other != id,
    ensures
        same_shape(dropped(cells, x, y, id), cells),
        forall|ox: int, oy: int|
            in_world(cells, ox, oy) ==> occurrences(
                #[trigger] dropped(cells, x, y, id)[oy][ox],
                other,
            ) == occurrences(cells[oy][ox], other),
{
    if in_world(cells, x, y) {
        lemma_without_occurrences(cells[y][x], id, other);
    }
}

/// A tick keeps the world's shape.
pub proof fn lemma_after_moves_shape(cells: Seq<Seq<Seq<u64>>>, moves: Seq<Move>)
    ensures
        same_shape(after_moves(cells, moves), cells),
    decreases moves.len(),
{
    if moves.len() > 0 {
        lemma_after_moves_shape(cells, moves.drop_last());
        let before = after_moves(cells, moves.drop_last());
        let mv = moves.last();
        if changes_cell(mv) {
            let cleared = dropped(before, mv.previous_x as int, mv.previous_y as int, mv.id);
            assert(same_shape(cleared, before));
            if in_world(before, mv.next_x as int, mv.next_y as int) {
                assert(in_world(cleared, mv.next_x as int, mv.next_y as int));
            }
        }
    }
}

/// Columns past the end of the row add nothing to a row's hits.
pub proof fn lemma_row_hits_upper(row: Seq<Seq<u64>>, start_x: int, end_x: int, live: Set<u64>)
    requires
        row.len() <= end_x,
    ensures
        row_hits(row, start_x, end_x, live) == row_hits(row, start_x, row.len() as int, live),
    decreases end_x - row.len(),
{
    if end_x > row.len() {
        lemma_row_hits_upper(row, start_x, end_x - 1, live);
        if end_x <= start_x {
            assert(row_hits(row, start_x, row.len() as int, live) == Seq::<u64>::empty());
        }
    }
}

/// Columns before the first add nothing to a row's hits.
pub proof fn lemma_row_hits_lower(row: Seq<Seq<u64>>, start_x: int, end_x: int, live: Set<u64>)
    requires
        start_x <= 0,
    ensures
        row_hits(row, start_x, end_x, live) == row_hits(row, 0, end_x, live),
    decreases end_x - start_x,
{
    if end_x > start_x {
        lemma_row_hits_lower(row, start_x, end_x - 1, live);
    }
}

/// A row's hits over a column range are its hits over the part of the
/// range that the row has.
pub proof fn lemma_row_hits_clamped(row: Seq<Seq<u64>>, start_x: int, end_x: int, live: Set<u64>)
    ensures
        row_hits(row, start_x, end_x, live) == row_hits(
            row,
            clamped(start_x, row.len() as int),
            clamped(end_x, row.len() as int),
            live,
        ),
{
    let upper = if end_x >= row.len() {
        row.len() as int
    } else {
        end_x
    };
    if end_x >= row.len() {
        lemma_row_hits_upper(row, start_x, end_x, live);
    }
    if start_x <= 0 {
        lemma_row_hits_lower(row, start_x, upper, live);
    }
}

/// Rows past the end of the world add nothing to a range's hits.
pub proof fn lemma_range_hits_upper(
    cells: Seq<Seq<Seq<u64>>>,
    start_x: int,
    start_y: int,
    end_x: int,
    end_y: int,
    live: Set<u64>,
)
    requires
        cells.len() <= end_y,
    ensures
        range_hits(cells, start_x, start_y, end_x, end_y, live) == range_hits(
            cells,
            start_x,
            start_y,
            end_x,
            cells.len() as int,
            live,
        ),
    decreases end_y - cells.len(),
{
    if end_y > cells.len() {
        lemma_range_hits_upper(cells, start_x, start_y, end_x, end_y - 1, live);
        if end_y <= start_y {
            assert(range_hits(cells, start_x, start_y, end_x, cells.len() as int, live) == Seq::<
                u64,
            >::empty());
        }
    }
}

/// Rows before the first add nothing to a range's hits.
pub proof fn lemma_range_hits_lower(
    cells: Seq<Seq<Seq<u64>>>,
    start_x: int,
    start_y: int,
    end_x: int,
    end_y: int,
    live: Set<u64>,
)
    requires
        start_y <= 0,
    ensures
        range_hits(cells, start_x, start_y, end_x, end_y, live) == range_hits(
            cells,
            start_x,
            0,
            end_x,
            end_y,
            live,
        ),
    decreases end_y - start_y,
{
    if end_y > start_y {
        lemma_range_hits_lower(cells, start_x, start_y, end_x, end_y - 1, live);
    }
}

/// A range's hits are its hits over the rows of the range that the world
/// has.
pub proof fn lemma_range_hits_clamped(
    cells: Seq<Seq<Seq<u64>>>,
    start_x: int,
    start_y: int,
    end_x: int,
    end_y: int,
    live: Set<u64>,
)
    ensures
        range_hits(cells, start_x, start_y, end_x, end_y, live) == range_hits(
            cells,
            start_x,
            clamped(start_y, cells.len() as int),
            end_x,
            clamped(end_y, cells.len() as int),
            live,
        ),
{
    let upper = if end_y >= cells.len() {
        cells.len() as int
    } else {
        end_y
    };
    if end_y >= cells.len() {
        lemma_range_hits_upper(cells, start_x, start_y, end_x, end_y, live);
    }
    if start_y <= 0 {
        lemma_range_hits_lower(cells, start_x, start_y, end_x, upper, live);
    }
}

/// An identifier is among a row's hits where the table holds it and a
/// bucket of the row, in the column range, holds it.
pub proof fn lemma_row_hits_contains(
    row: Seq<Seq<u64>>,
    start_x: int,
    end_x: int,
    live: Set<u64>,
    id: u64,
)
    ensures
        row_hits(row, start_x, end_x, live).contains(id) <==> live.contains(id) && exists|x: int|
            start_x <= x < end_x && 0 <= x < row.len() && (#[trigger] row[x]).contains(id),
    decreases end_x - start_x,
{
    if end_x > start_x {
        lemma_row_hits_contains(row, start_x, end_x - 1, live, id);
        let before = row_hits(row, start_x, end_x - 1, live);
        if 0 <= end_x - 1 < row.len() {
            let here = row[end_x - 1].filter(is_live(live));
            lemma_concat_contains(before, here, id);
            lemma_filter_contains_iff(row[end_x - 1], is_live(live), id);
        }
        if live.contains(id) {
            if exists|x: int|
                start_x <= x < end_x && 0 <= x < row.len() && (#[trigger] row[x]).contains(id) {
                let x = choose|x: int|
                    start_x <= x < end_x && 0 <= x < row.len() && (#[trigger] row[x]).contains(id);
                if x < end_x - 1 {
                    assert(start_x <= x < end_x - 1 && 0 <= x < row.len() && row[x].contains(id));
                }
            }
        }
    }
}

/// A row in which at most the bucket of column `x` holds a live identifier,
/// and holds it once, gives it once where that column is in the range, and
/// not at all where it is not.
pub proof fn lemma_row_hits_occurrences(
    row: Seq<Seq<u64>>,
    start_x: int,
    end_x: int,
    live: Set<u64>,
    id: u64,
    x: int,
)
    requires
        live.contains(id),
        forall|ox: int|
            0 <= ox < row.len() ==> occurrences(#[trigger] row[ox], id) == if ox == x {
                1nat
            } else {
                0nat
            },
    ensures
        occurrences(row_hits(row, start_x, end_x, live), id) == if start_x <= x < end_x && 0 <= x
            < row.len() {
            1nat
        } else {
            0nat
        },
    decreases end_x - start_x,
{
    if end_x > start_x {
        lemma_row_hits_occurrences(row, start_x, end_x - 1, live, id, x);
        if 0 <= end_x - 1 < row.len() {
            let before = row_hits(row, start_x, end_x - 1, live);
            let here = row[end_x - 1].filter(is_live(live));
            lemma_concat_occurrences(before, here, id);
            lemma_live_occurrences(row[end_x - 1], live, id);
        }
    }
}

} // verus!
