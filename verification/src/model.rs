//! The mathematical model of the grid: its buckets as nested sequences, and
//! what each operation does to them.

use vstd::prelude::*;

verus! {

/// One entity's step during a tick: the cell it stood in before its own
/// update ran, and the cell it stands in afterwards.
#[derive(Clone, Copy, Debug, PartialEq, Eq, Structural)]
pub struct Move {
    pub id: u64,
    pub previous_x: i64,
    pub previous_y: i64,
    pub next_x: i64,
    pub next_y: i64,
}

/// Cell `(x, y)` is one of the cells of the world.
pub open spec fn in_world(cells: Seq<Seq<Seq<u64>>>, x: int, y: int) -> bool {
    0 <= y < cells.len() && 0 <= x < cells[y].len()
}

/// The buckets of a world of `width` by `height` cells that holds nothing.
pub open spec fn empty_cells(width: nat, height: nat) -> Seq<Seq<Seq<u64>>> {
    Seq::new(height, |y: int| Seq::new(width, |x: int| Seq::<u64>::empty()))
}

/// The predicate "is another identifier than `id`".
pub open spec fn is_other(id: u64) -> spec_fn(u64) -> bool {
    |other: u64| other != id
}

/// The predicate "has an entry in the table with these keys".
pub open spec fn is_live(live: Set<u64>) -> spec_fn(u64) -> bool {
    |id: u64| live.contains(id)
}

/// The predicate "is the identifier `id`".
pub open spec fn is_same(id: u64) -> spec_fn(u64) -> bool {
    |other: u64| other == id
}

/// How often `id` stands in the bucket.
pub open spec fn occurrences(bucket: Seq<u64>, id: u64) -> nat {
    bucket.filter(is_same(id)).len()
}

/// Cell `(x, y)` is in the world and its bucket holds `id`.
pub open spec fn holds(cells: Seq<Seq<Seq<u64>>>, x: int, y: int, id: u64) -> bool {
    in_world(cells, x, y) && cells[y][x].contains(id)
}

/// No bucket holds `id`.
pub open spec fn absent(cells: Seq<Seq<Seq<u64>>>, id: u64) -> bool {
    forall|x: int, y: int| in_world(cells, x, y) ==> occurrences(#[trigger] cells[y][x], id) == 0
}

/// The bucket of cell `(x, y)` holds `id` once, and no other bucket holds
/// it.
pub open spec fn located_at(cells: Seq<Seq<Seq<u64>>>, id: u64, x: int, y: int) -> bool {
    &&& in_world(cells, x, y)
    &&& forall|ox: int, oy: int|
        in_world(cells, ox, oy) ==> occurrences(#[trigger] cells[oy][ox], id) == if ox == x && oy
            == y {
            1nat
        } else {
            0nat
        }
}

/// The two worlds have the same cells.
pub open spec fn same_shape(a: Seq<Seq<Seq<u64>>>, b: Seq<Seq<Seq<u64>>>) -> bool {
    &&& a.len() == b.len()
    &&& forall|y: int| 0 <= y < a.len() ==> (#[trigger] a[y]).len() == b[y].len()
}

/// The cell that an entity stands in after the steps, where it stood in
/// cell `(x, y)` before them and each of its steps starts where the one
/// before ended.
pub open spec fn place_after(id: u64, x: int, y: int, moves: Seq<Move>) -> (int, int)
    decreases moves.len(),
{
    if moves.len() == 0 {
        (x, y)
    } else if moves.last().id == id {
        (moves.last().next_x as int, moves.last().next_y as int)
    } else {
        place_after(id, x, y, moves.drop_last())
    }
}

/// The steps follow the entity `id` from cell `(x, y)` and keep it in the
/// world: each of its steps starts in the cell it stands in by then, and
/// ends in a cell of the world.
pub open spec fn tracks_within(
    cells: Seq<Seq<Seq<u64>>>,
    id: u64,
    x: int,
    y: int,
    moves: Seq<Move>,
) -> bool
    decreases moves.len(),
{
    if moves.len() == 0 {
        true
    } else {
        let before = moves.drop_last();
        let mv = moves.last();
        &&& tracks_within(cells, id, x, y, before)
        &&& mv.id == id ==> {
            &&& (mv.previous_x as int, mv.previous_y as int) == place_after(id, x, y, before)
            &&& in_world(cells, mv.next_x as int, mv.next_y as int)
        }
    }
}

/// The bucket with every occurrence of `id` taken out, the rest in order.
pub open spec fn without(bucket: Seq<u64>, id: u64) -> Seq<u64> {
    bucket.filter(is_other(id))
}

/// The buckets with cell `(x, y)` replaced.
pub open spec fn with_bucket(cells: Seq<Seq<Seq<u64>>>, x: int, y: int, bucket: Seq<u64>) -> Seq<
    Seq<Seq<u64>>,
> {
    cells.update(y, cells[y].update(x, bucket))
}

/// The buckets after `id` was appended to cell `(x, y)` of the world.
pub open spec fn pushed(cells: Seq<Seq<Seq<u64>>>, x: int, y: int, id: u64) -> Seq<Seq<Seq<u64>>> {
    with_bucket(cells, x, y, cells[y][x].push(id))
}

/// The buckets after `id` was taken out of cell `(x, y)`; unchanged where
/// the cell is not in the world.
pub open spec fn dropped(cells: Seq<Seq<Seq<u64>>>, x: int, y: int, id: u64) -> Seq<Seq<Seq<u64>>> {
    if in_world(cells, x, y) {
        with_bucket(cells, x, y, without(cells[y][x], id))
    } else {
        cells
    }
}

/// The step leaves its cell.
pub open spec fn changes_cell(mv: Move) -> bool {
    mv.previous_x != mv.next_x || mv.previous_y != mv.next_y
}

/// The step leaves its cell for one outside the world.
pub open spec fn evicts(cells: Seq<Seq<Seq<u64>>>, mv: Move) -> bool {
    changes_cell(mv) && !in_world(cells, mv.next_x as int, mv.next_y as int)
}

/// The buckets after one step was applied: nothing where the cell stays the
/// same; else the identifier leaves its old cell and, where the new one is
/// in the world, is appended there.
pub open spec fn relocated(cells: Seq<Seq<Seq<u64>>>, mv: Move) -> Seq<Seq<Seq<u64>>> {
    if !changes_cell(mv) {
        cells
    } else {
        let cleared = dropped(cells, mv.previous_x as int, mv.previous_y as int, mv.id);
        if in_world(cells, mv.next_x as int, mv.next_y as int) {
            pushed(cleared, mv.next_x as int, mv.next_y as int, mv.id)
        } else {
            cleared
        }
    }
}

/// The buckets after the steps were applied, first to last.
pub open spec fn after_moves(cells: Seq<Seq<Seq<u64>>>, moves: Seq<Move>) -> Seq<Seq<Seq<u64>>>
    decreases moves.len(),
{
    if moves.len() == 0 {
        cells
    } else {
        relocated(after_moves(cells, moves.drop_last()), moves.last())
    }
}

/// The identifiers that the steps evict, one entry for each evicting step,
/// in the order of the steps.
pub open spec fn evictions(cells: Seq<Seq<Seq<u64>>>, moves: Seq<Move>) -> Seq<u64>
    decreases moves.len(),
{
    if moves.len() == 0 {
        Seq::empty()
    } else {
        let before = evictions(cells, moves.drop_last());
        if evicts(cells, moves.last()) {
            before.push(moves.last().id)
        } else {
            before
        }
    }
}

/// The live identifiers in the buckets of one row, over the columns from
/// `start_x` up to but not including `end_x`, left to right; columns that
/// the row does not have give nothing.
pub open spec fn row_hits(row: Seq<Seq<u64>>, start_x: int, end_x: int, live: Set<u64>) -> Seq<u64>
    decreases end_x - start_x,
{
    if end_x <= start_x {
        Seq::empty()
    } else {
        let before = row_hits(row, start_x, end_x - 1, live);
        if 0 <= end_x - 1 < row.len() {
            before + row[end_x - 1].filter(is_live(live))
        } else {
            before
        }
    }
}

/// The live identifiers in the cells of the index range
/// `[start_x, end_x)` by `[start_y, end_y)`, row by row; rows that the
/// world does not have give nothing.
pub open spec fn range_hits(
    cells: Seq<Seq<Seq<u64>>>,
    start_x: int,
    start_y: int,
    end_x: int,
    end_y: int,
    live: Set<u64>,
) -> Seq<u64>
    decreases end_y - start_y,
{
    if end_y <= start_y {
        Seq::empty()
    } else {
        let before = range_hits(cells, start_x, start_y, end_x, end_y - 1, live);
        if 0 <= end_y - 1 < cells.len() {
            before + row_hits(cells[end_y - 1], start_x, end_x, live)
        } else {
            before
        }
    }
}

/// The index brought into `[0, limit]`.
pub open spec fn clamped(index: int, limit: int) -> int {
    if index < 0 {
        0
    } else if index > limit {
        limit
    } else {
        index
    }
}

} // verus!
