//! The grid itself: a dense, row-major array of buckets.

use crate::lemmas::{lemma_filter_push, lemma_range_hits_clamped, lemma_row_hits_clamped};
use crate::model::{
    after_moves, clamped, dropped, empty_cells, evictions, evicts, in_world, is_live, is_other,
    pushed, range_hits, relocated, row_hits, without, Move,
};
use std::collections::HashMap;
use vstd::prelude::*;

verus! {

/// Why the grid refused a cell index.
#[derive(Clone, Copy, Debug, PartialEq, Eq, Structural)]
pub enum GridError {
    /// The cell index lies outside the world.
    OutOfWorld,
}

/// The index: `world_height` rows of `world_width` buckets, each bucket the
/// identifiers of the entities in that cell, in insertion order.
#[derive(Debug)]
pub struct Grid {
    cells: Vec<Vec<Vec<u64>>>,
    world_width: usize,
    world_height: u8,
}

/// The identifiers of `bucket` other than `id`, in order.
fn retain_others(bucket: &Vec<u64>, id: u64) -> (kept: Vec<u64>)
    ensures
        kept@ == without(bucket@, id),
{
    let mut kept: Vec<u64> = Vec::new();
    let mut i: usize = 0;
    assert(bucket@.take(0) =~= Seq::<u64>::empty());
    proof {
        reveal(Seq::filter);
    }
    while i < bucket.len()
        invariant
            i <= bucket.len(),
            kept@ == without(bucket@.take(i as int), id),
        decreases bucket.len() - i,
    {
        proof {
            lemma_filter_push(bucket@.take(i as int), bucket@[i as int], is_other(id));
            assert(bucket@.take(i as int).push(bucket@[i as int]) =~= bucket@.take(i + 1));
        }
        if bucket[i] != id {
            kept.push(bucket[i]);
        }
        i += 1;
    }
    assert(bucket@.take(bucket.len() as int) =~= bucket@);
    kept
}

/// The index brought into `[0, limit]`.
fn clamp_index(index: i64, limit: usize) -> (within: usize)
    ensures
        within == clamped(index as int, limit as int),
{
    if index < 0 {
        0
    } else if index as u64 > limit as u64 {
        limit
    } else {
        index as usize
    }
}

impl Grid {
    /// The buckets, row by row: `self@[y][x]` is the bucket of cell `(x, y)`.
    pub closed spec fn view(&self) -> Seq<Seq<Seq<u64>>> {
        Seq::new(
            self.cells@.len(),
            |y: int| Seq::new(self.cells@[y]@.len(), |x: int| self.cells@[y]@[x]@),
        )
    }

    /// The number of cells in a row.
    pub closed spec fn spec_world_width(&self) -> nat {
        self.world_width as nat
    }

    /// The number of rows.
    pub closed spec fn spec_world_height(&self) -> nat {
        self.world_height as nat
    }

    /// The grid is rectangular and has the dimensions it was made with.
    pub open spec fn wf(&self) -> bool {
        &&& self@.len() == self.spec_world_height()
        &&& forall|y: int|
            0 <= y < self@.len() ==> (#[trigger] self@[y]).len() == self.spec_world_width()
    }

    /// The identifiers that a query of the index range gives, in the order
    /// of the result, for a table that holds the identifiers `live`.
    pub open spec fn spec_query(
        &self,
        start_x: i64,
        start_y: i64,
        end_x: i64,
        end_y: i64,
        live: Set<u64>,
    ) -> Seq<u64> {
        range_hits(self@, start_x as int, start_y as int, end_x as int, end_y as int, live)
    }

    /// A grid of `world_height` rows by `world_width` columns of empty
    /// buckets.
    pub fn new(world_height: u8, world_width: usize) -> (grid: Grid)
        ensures
            grid.wf(),
            grid.spec_world_width() == world_width,
            grid.spec_world_height() == world_height,
            grid@ == empty_cells(world_width as nat, world_height as nat),
    {
        let mut cells: Vec<Vec<Vec<u64>>> = Vec::new();
        let mut y_count: u8 = 0;
        while y_count < world_height
            invariant
                y_count <= world_height,
                cells@.len() == y_count,
                forall|y: int| 0 <= y < cells@.len() ==> (#[trigger] cells@[y])@.len() == world_width,
                forall|y: int, x: int|
                    0 <= y < cells@.len() && 0 <= x < world_width ==> (#[trigger] cells@[y]@[x])@
                        == Seq::<u64>::empty(),
            decreases world_height - y_count,
        {
            let mut row: Vec<Vec<u64>> = Vec::new();
            let mut x_count: usize = 0;
            while x_count < world_width
                invariant
                    x_count <= world_width,
                    row@.len() == x_count,
                    forall|x: int| 0 <= x < row@.len() ==> (#[trigger] row@[x])@ == Seq::<u64>::empty(),
                decreases world_width - x_count,
            {
                row.push(Vec::new());
                x_count += 1;
            }
            cells.push(row);
            y_count += 1;
        }
        let grid = Grid { cells, world_width, world_height };
        assert(grid@ =~~= empty_cells(world_width as nat, world_height as nat));
        grid
    }

    /// The number of cells in a row.
    pub fn world_width(&self) -> (width: usize)
        ensures
            width == self.spec_world_width(),
    {
        self.world_width
    }

    /// The number of rows.
    pub fn world_height(&self) -> (height: u8)
        ensures
            height == self.spec_world_height(),
    {
        self.world_height
    }

    /// Where cell `(x_index, y_index)` stands in the array, or `None` for an
    /// index that the world does not have. Every operation finds its cell
    /// through this.
    fn locate(&self, x_index: i64, y_index: i64) -> (place: Option<(usize, usize)>)
        requires
            self.wf(),
        ensures
            place.is_some() <==> in_world(self@, x_index as int, y_index as int),
            place.is_some() ==> place.unwrap().0 == x_index && place.unwrap().1 == y_index,
    {
        if x_index < 0 || y_index < 0 {
            return None;
        }
        let x: u64 = x_index as u64;
        let y: u64 = y_index as u64;
        if x < self.world_width as u64 && y < self.world_height as u64 {
            assert(self@[y_index as int].len() == self.world_width);
            Some((x as usize, y as usize))
        } else {
            if y < self.world_height as u64 {
                assert(self@[y_index as int].len() == self.world_width);
            }
            None
        }
    }

    /// The bucket of cell `(x_index, y_index)`, or `OutOfWorld` for an
    /// index that the world does not have.
    pub fn cell(&self, x_index: i64, y_index: i64) -> (result: Result<&Vec<u64>, GridError>)
        requires
            self.wf(),
        ensures
            result.is_ok() <==> in_world(self@, x_index as int, y_index as int),
            result.is_ok() ==> result.unwrap()@ == self@[y_index as int][x_index as int],
            result.is_err() ==> result == Err::<&Vec<u64>, GridError>(GridError::OutOfWorld),
    {
        match self.locate(x_index, y_index) {
            Some((x, y)) => Ok(&self.cells[y][x]),
            None => Err(GridError::OutOfWorld),
        }
    }

    /// Appends `id` to the bucket of cell `(x_index, y_index)`. An index
    /// outside the world is refused and the grid stays as it is.
    pub fn add(&mut self, id: u64, x_index: i64, y_index: i64) -> (result: Result<
        (),
        GridError,
    >)
        requires
            old(self).wf(),
        ensures
            final(self).wf(),
            final(self).spec_world_width() == old(self).spec_world_width(),
            final(self).spec_world_height() == old(self).spec_world_height(),
            result.is_ok() <==> in_world(old(self)@, x_index as int, y_index as int),
            result.is_ok() ==> final(self)@ == pushed(
                old(self)@,
                x_index as int,
                y_index as int,
                id,
            ),
            result.is_err() ==> final(self)@ == old(self)@ && result == Err::<(), GridError>(
                GridError::OutOfWorld,
            ),
    {
        match self.locate(x_index, y_index) {
            Some((x, y)) => {
                self.cells[y][x].push(id);
                assert(self@ =~~= pushed(old(self)@, x_index as int, y_index as int, id));
                Ok(())
            },
            None => Err(GridError::OutOfWorld),
        }
    }

    /// Takes every occurrence of `id` out of the bucket of cell
    /// `(x_index, y_index)`. Nothing happens for an index outside the world,
    /// or where the bucket does not hold `id`.
    pub fn remove(&mut self, id: u64, x_index: i64, y_index: i64)
        requires
            old(self).wf(),
        ensures
            final(self).wf(),
            final(self).spec_world_width() == old(self).spec_world_width(),
            final(self).spec_world_height() == old(self).spec_world_height(),
            final(self)@ == dropped(old(self)@, x_index as int, y_index as int, id),
    {
        if let Some((x, y)) = self.locate(x_index, y_index) {
            let kept = retain_others(&self.cells[y][x], id);
            self.cells[y][x] = kept;
            assert(self@ =~~= dropped(old(self)@, x_index as int, y_index as int, id));
        }
    }

    /// The entities of the table whose identifier is bucketed in a cell of
    /// the index range `[start_x, end_x)` by `[start_y, end_y)`: row by row,
    /// within a row cell by cell, within a cell in insertion order. Indices
    /// that the world does not have are passed over, and so are bucketed
    /// identifiers that the table does not hold.
    pub fn query<'a, V>(
        &self,
        start_x: i64,
        start_y: i64,
        end_x: i64,
        end_y: i64,
        entities: &'a HashMap<u64, V>,
    ) -> (found: Vec<&'a V>)
        requires
            self.wf(),
        ensures
            found@.len() == self.spec_query(start_x, start_y, end_x, end_y, entities@.dom()).len(),
            forall|i: int|
                0 <= i < found@.len() ==> {
                    let id = #[trigger] self.spec_query(
                        start_x,
                        start_y,
                        end_x,
                        end_y,
                        entities@.dom(),
                    )[i];
                    entities@.contains_key(id) && *found@[i] == entities@[id]
                },
    {
        broadcast use vstd::std_specs::hash::group_hash_axioms;

        let ghost live = entities@.dom();
        let ghost sx = start_x as int;
        let ghost ex = end_x as int;
        let mut found: Vec<&'a V> = Vec::new();
        let ghost mut ids: Seq<u64> = Seq::empty();
        let first_y: usize = clamp_index(start_y, self.cells.len());
        let last_y: usize = clamp_index(end_y, self.cells.len());
        let first_x: usize = clamp_index(start_x, self.world_width);
        let last_x: usize = clamp_index(end_x, self.world_width);
        let mut y: usize = first_y;
        while y < last_y
            invariant
                self.wf(),
                live == entities@.dom(),
                sx == start_x,
                ex == end_x,
                last_y <= self@.len(),
                first_x == clamped(sx, self.spec_world_width() as int),
                last_x == clamped(ex, self.spec_world_width() as int),
                first_y <= y,
                y == first_y || y <= last_y,
                ids == range_hits(self@, sx, first_y as int, ex, y as int, live),
                found@.len() == ids.len(),
                forall|i: int|
                    0 <= i < ids.len() ==> entities@.contains_key(#[trigger] ids[i]) && *found@[i]
                        == entities@[ids[i]],
            decreases last_y - y,
        {
            let ghost above = ids;
            let ghost row = self@[y as int];
            assert(row.len() == self.world_width);
            let mut x: usize = first_x;
            while x < last_x
                invariant
                    self.wf(),
                    live == entities@.dom(),
                    y < last_y <= self@.len(),
                    row == self@[y as int],
                    row.len() == self.spec_world_width(),
                    last_x <= self.spec_world_width(),
                    first_x <= x,
                    x == first_x || x <= last_x,
                    ids == above + row_hits(row, first_x as int, x as int, live),
                    found@.len() == ids.len(),
                    forall|i: int|
                        0 <= i < ids.len() ==> entities@.contains_key(#[trigger] ids[i])
                            && *found@[i] == entities@[ids[i]],
                decreases last_x - x,
            {
                let ghost left = ids;
                let bucket = &self.cells[y][x];
                assert(bucket@ == row[x as int]);
                let mut k: usize = 0;
                assert(bucket@.take(0) =~= Seq::<u64>::empty());
                proof {
                    reveal(Seq::filter);
                }
                while k < bucket.len()
                    invariant
                        live == entities@.dom(),
                        k <= bucket.len(),
                        ids == left + bucket@.take(k as int).filter(is_live(live)),
                        found@.len() == ids.len(),
                        forall|i: int|
                            0 <= i < ids.len() ==> entities@.contains_key(#[trigger] ids[i])
                                && *found@[i] == entities@[ids[i]],
                    decreases bucket.len() - k,
                {
                    let id: u64 = bucket[k];
                    proof {
                        lemma_filter_push(bucket@.take(k as int), id, is_live(live));
                        assert(bucket@.take(k as int).push(id) =~= bucket@.take(k + 1));
                    }
                    if let Some(entity) = entities.get(&id) {
                        found.push(entity);
                        proof {
                            ids = ids.push(id);
                        }
                    }
                    assert(ids =~= left + bucket@.take(k + 1).filter(is_live(live)));
                    k += 1;
                }
                assert(bucket@.take(bucket.len() as int) =~= bucket@);
                assert(ids =~= above + row_hits(row, first_x as int, x + 1, live));
                x += 1;
            }
            proof {
                lemma_row_hits_clamped(row, sx, ex, live);
                assert(row_hits(row, first_x as int, x as int, live) == row_hits(
                    row,
                    first_x as int,
                    last_x as int,
                    live,
                ));
                assert(ids == range_hits(self@, sx, first_y as int, ex, y + 1, live));
            }
            y += 1;
        }
        proof {
            lemma_range_hits_clamped(self@, sx, start_y as int, ex, end_y as int, live);
            assert(range_hits(self@, sx, first_y as int, ex, y as int, live) == range_hits(
                self@,
                sx,
                first_y as int,
                ex,
                last_y as int,
                live,
            ));
        }
        found
    }

    /// Applies one entity's step. Where the cell did not change, nothing
    /// happens. Else the identifier leaves its old cell; it enters the new
    /// one where that is in the world, and is evicted where it is not. The
    /// result says whether the entity was evicted.
    pub fn relocate(&mut self, mv: Move) -> (evicted: bool)
        requires
            old(self).wf(),
        ensures
            final(self).wf(),
            final(self).spec_world_width() == old(self).spec_world_width(),
            final(self).spec_world_height() == old(self).spec_world_height(),
            final(self)@ == relocated(old(self)@, mv),
            evicted == evicts(old(self)@, mv),
    {
        if mv.previous_x == mv.next_x && mv.previous_y == mv.next_y {
            return false;
        }
        self.remove(mv.id, mv.previous_x, mv.previous_y);
        match self.add(mv.id, mv.next_x, mv.next_y) {
            Ok(()) => false,
            Err(_) => true,
        }
    }

    /// Applies the steps of one tick, first to last, and returns the
    /// identifiers of the entities that left the world, one for each
    /// evicting step, in the order of the steps.
    pub fn update(&mut self, moves: &Vec<Move>) -> (evicted: Vec<u64>)
        requires
            old(self).wf(),
        ensures
            final(self).wf(),
            final(self).spec_world_width() == old(self).spec_world_width(),
            final(self).spec_world_height() == old(self).spec_world_height(),
            final(self)@ == after_moves(old(self)@, moves@),
            evicted@ == evictions(old(self)@, moves@),
    {
        let mut evicted: Vec<u64> = Vec::new();
        let mut i: usize = 0;
        assert(moves@.take(0) =~= Seq::<Move>::empty());
        while i < moves.len()
            invariant
                i <= moves.len(),
                self.wf(),
                self.spec_world_width() == old(self).spec_world_width(),
                self.spec_world_height() == old(self).spec_world_height(),
                old(self).wf(),
                self@ == after_moves(old(self)@, moves@.take(i as int)),
                evicted@ == evictions(old(self)@, moves@.take(i as int)),
            decreases moves.len() - i,
        {
            let mv = moves[i];
            proof {
                assert(moves@.take(i + 1).drop_last() =~= moves@.take(i as int));
                assert(moves@.take(i + 1).last() == mv);
                assert(in_world(self@, mv.next_x as int, mv.next_y as int) == in_world(
                    old(self)@,
                    mv.next_x as int,
                    mv.next_y as int,
                ));
            }
            if self.relocate(mv) {
                evicted.push(mv.id);
            }
            i += 1;
        }
        assert(moves@.take(moves.len() as int) =~= moves@);
        evicted
    }
}

} // verus!
