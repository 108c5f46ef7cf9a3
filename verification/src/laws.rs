//! What holds of the grid across its operations, stated over the model
//! that the operations' contracts speak of.

use crate::lemmas::{
    lemma_after_moves_shape, lemma_concat_contains, lemma_concat_occurrences,
    lemma_dropped_other_occurrences, lemma_occurrences_contains, lemma_push_occurrences,
    lemma_pushed_other_occurrences, lemma_row_hits_contains, lemma_row_hits_occurrences,
    lemma_without_absent, lemma_without_occurrences,
};
use crate::model::{
    absent, after_moves, changes_cell, dropped, evictions, evicts, holds, in_world, is_other,
    located_at, occurrences, place_after, pushed, range_hits, relocated, row_hits, same_shape,
    tracks_within, without, Move,
};
use vstd::prelude::*;

verus! {

/// Bucket consistency on insertion: an identifier that no bucket holds
/// stands, once it is added to a cell of the world, in that cell once and
/// in no other.
pub proof fn law_add_places(cells: Seq<Seq<Seq<u64>>>, id: u64, x: int, y: int)
    requires
        in_world(cells, x, y),
        absent(cells, id),
    ensures
        same_shape(pushed(cells, x, y, id), cells),
        located_at(pushed(cells, x, y, id), id, x, y),
{
    let after = pushed(cells, x, y, id);
    assert forall|ox: int, oy: int| in_world(after, ox, oy) implies occurrences(
        #[trigger] after[oy][ox],
        id,
    ) == if ox == x && oy == y {
        1nat
    } else {
        0nat
    } by {
        assert(in_world(cells, ox, oy));
        if ox == x && oy == y {
            lemma_push_occurrences(cells[y][x], id, id);
        } else {
            assert(after[oy][ox] == cells[oy][ox]);
        }
    }
}

/// Insertion leaves the other entities where they are: an identifier other
/// than the added one that stands in one cell, once and nowhere else, still
/// does so afterwards.
pub proof fn law_add_keeps_others(
    cells: Seq<Seq<Seq<u64>>>,
    id: u64,
    x: int,
    y: int,
    other: u64,
    other_x: int,
    other_y: int,
)
    requires
        in_world(cells, x, y),
        other != id,
        located_at(cells, other, other_x, other_y),
    ensures
        located_at(pushed(cells, x, y, id), other, other_x, other_y),
{
    lemma_pushed_other_occurrences(cells, id, x, y, other);
    let after = pushed(cells, x, y, id);
    assert forall|ox: int, oy: int| in_world(after, ox, oy) implies occurrences(
        #[trigger] after[oy][ox],
        other,
    ) == if ox == other_x && oy == other_y {
        1nat
    } else {
        0nat
    } by {
        assert(in_world(cells, ox, oy));
    }
}

/// Removal clears: after an identifier is taken out of the one cell that
/// holds it, no bucket holds it.
pub proof fn law_remove_clears(cells: Seq<Seq<Seq<u64>>>, id: u64, x: int, y: int)
    requires
        located_at(cells, id, x, y),
    ensures
        same_shape(dropped(cells, x, y, id), cells),
        absent(dropped(cells, x, y, id), id),
{
    let after = dropped(cells, x, y, id);
    assert forall|ox: int, oy: int| in_world(after, ox, oy) implies occurrences(
        #[trigger] after[oy][ox],
        id,
    ) == 0 by {
        assert(in_world(cells, ox, oy));
        if ox == x && oy == y {
            lemma_without_occurrences(cells[y][x], id, id);
        } else {
            assert(after[oy][ox] == cells[oy][ox]);
        }
    }
}

/// Removal leaves the other entities where they are: an identifier other
/// than the removed one that stands in one cell, once and nowhere else,
/// still does so afterwards.
pub proof fn law_remove_keeps_others(
    cells: Seq<Seq<Seq<u64>>>,
    id: u64,
    x: int,
    y: int,
    other: u64,
    other_x: int,
    other_y: int,
)
    requires
        other != id,
        located_at(cells, other, other_x, other_y),
    ensures
        located_at(dropped(cells, x, y, id), other, other_x, other_y),
{
    lemma_dropped_other_occurrences(cells, id, x, y, other);
    let after = dropped(cells, x, y, id);
    assert forall|ox: int, oy: int| in_world(after, ox, oy) implies occurrences(
        #[trigger] after[oy][ox],
        other,
    ) == if ox == other_x && oy == other_y {
        1nat
    } else {
        0nat
    } by {
        assert(in_world(cells, ox, oy));
    }
}

/// Removal is idempotent: taking an identifier out of a cell that does not
/// hold it, or of a cell outside the world, or from a grid that holds it
/// nowhere, changes nothing, and so does taking it out a second time.
pub proof fn law_remove_absent_is_noop(cells: Seq<Seq<Seq<u64>>>, id: u64, x: int, y: int)
    ensures
        !holds(cells, x, y, id) ==> dropped(cells, x, y, id) == cells,
        absent(cells, id) ==> dropped(cells, x, y, id) == cells,
        dropped(dropped(cells, x, y, id), x, y, id) == dropped(cells, x, y, id),
{
    if in_world(cells, x, y) {
        lemma_occurrences_contains(cells[y][x], id);
        if !cells[y][x].contains(id) {
            lemma_without_absent(cells[y][x], id);
            assert(dropped(cells, x, y, id) =~~= cells);
        }
        let once = dropped(cells, x, y, id);
        assert(once[y][x] == without(cells[y][x], id));
        assert(!once[y][x].contains(id)) by {
            broadcast use Seq::lemma_filter_pred;

            if once[y][x].contains(id) {
                let i = choose|i: int| 0 <= i < once[y][x].len() && once[y][x][i] == id;
                assert(is_other(id)(cells[y][x].filter(is_other(id))[i]));
            }
        }
        lemma_without_absent(once[y][x], id);
        assert(dropped(once, x, y, id) =~~= once);
    }
}

/// Bucket consistency across one step: an identifier that stands in the
/// cell where its step starts, once and nowhere else, stands after a step
/// into the world in the cell where the step ends, once and nowhere else;
/// after a step out of the world no bucket holds it, and the step evicts.
pub proof fn law_relocate_follows(cells: Seq<Seq<Seq<u64>>>, mv: Move)
    requires
        located_at(cells, mv.id, mv.previous_x as int, mv.previous_y as int),
    ensures
        same_shape(relocated(cells, mv), cells),
        in_world(cells, mv.next_x as int, mv.next_y as int) ==> located_at(
            relocated(cells, mv),
            mv.id,
            mv.next_x as int,
            mv.next_y as int,
        ) && !evicts(cells, mv),
        !in_world(cells, mv.next_x as int, mv.next_y as int) ==> absent(
            relocated(cells, mv),
            mv.id,
        ) && evicts(cells, mv),
{
    if changes_cell(mv) {
        let cleared = dropped(cells, mv.previous_x as int, mv.previous_y as int, mv.id);
        law_remove_clears(cells, mv.id, mv.previous_x as int, mv.previous_y as int);
        if in_world(cells, mv.next_x as int, mv.next_y as int) {
            assert(in_world(cleared, mv.next_x as int, mv.next_y as int));
            law_add_places(cleared, mv.id, mv.next_x as int, mv.next_y as int);
        }
    }
}

/// A step of one entity leaves the others where they are: an identifier
/// other than the step's that stands in one cell, once and nowhere else,
/// still does so after the step.
pub proof fn law_relocate_keeps_others(
    cells: Seq<Seq<Seq<u64>>>,
    mv: Move,
    other: u64,
    x: int,
    y: int,
)
    requires
        other != mv.id,
        located_at(cells, other, x, y),
    ensures
        same_shape(relocated(cells, mv), cells),
        located_at(relocated(cells, mv), other, x, y),
{
    if changes_cell(mv) {
        let cleared = dropped(cells, mv.previous_x as int, mv.previous_y as int, mv.id);
        law_remove_keeps_others(
            cells,
            mv.id,
            mv.previous_x as int,
            mv.previous_y as int,
            other,
            x,
            y,
        );
        if in_world(cells, mv.next_x as int, mv.next_y as int) {
            assert(in_world(cleared, mv.next_x as int, mv.next_y as int));
            law_add_keeps_others(cleared, mv.id, mv.next_x as int, mv.next_y as int, other, x, y);
        }
    }
}

/// Bucket consistency across a tick: an entity that stands in one cell,
/// once and nowhere else, and whose steps each start where it stands and
/// end in the world, stands after the tick in the cell where its last step
/// ended, once and nowhere else, whatever the other entities did.
pub proof fn law_update_keeps_consistent(
    cells: Seq<Seq<Seq<u64>>>,
    id: u64,
    x: int,
    y: int,
    moves: Seq<Move>,
)
    requires
        located_at(cells, id, x, y),
        tracks_within(cells, id, x, y, moves),
    ensures
        located_at(
            after_moves(cells, moves),
            id,
            place_after(id, x, y, moves).0,
            place_after(id, x, y, moves).1,
        ),
    decreases moves.len(),
{
    if moves.len() > 0 {
        let before = after_moves(cells, moves.drop_last());
        let mv = moves.last();
        law_update_keeps_consistent(cells, id, x, y, moves.drop_last());
        lemma_after_moves_shape(cells, moves.drop_last());
        let place = place_after(id, x, y, moves.drop_last());
        if mv.id == id {
            assert(in_world(before, mv.next_x as int, mv.next_y as int));
            law_relocate_follows(before, mv);
        } else {
            law_relocate_keeps_others(before, mv, id, place.0, place.1);
        }
    }
}

/// Eviction: a tick of the one step that takes an entity from the cell
/// that holds it to a cell outside the world leaves the identifier in no
/// bucket, and reports it once.
pub proof fn law_eviction(cells: Seq<Seq<Seq<u64>>>, mv: Move)
    requires
        located_at(cells, mv.id, mv.previous_x as int, mv.previous_y as int),
        !in_world(cells, mv.next_x as int, mv.next_y as int),
    ensures
        after_moves(cells, seq![mv]) == dropped(
            cells,
            mv.previous_x as int,
            mv.previous_y as int,
            mv.id,
        ),
        absent(after_moves(cells, seq![mv]), mv.id),
        evictions(cells, seq![mv]) == seq![mv.id],
{
    let moves = seq![mv];
    assert(moves.drop_last() =~= Seq::<Move>::empty());
    assert(moves.last() == mv);
    assert(after_moves(cells, moves.drop_last()) == cells);
    assert(evictions(cells, moves.drop_last()) =~= Seq::<u64>::empty());
    assert(evictions(cells, moves) =~= seq![mv.id]);
    law_relocate_follows(cells, mv);
}

/// Stability: a tick in which no entity changes its cell leaves every
/// bucket as it was and evicts nothing.
pub proof fn law_update_without_change(cells: Seq<Seq<Seq<u64>>>, moves: Seq<Move>)
    requires
        forall|i: int| 0 <= i < moves.len() ==> !changes_cell(#[trigger] moves[i]),
    ensures
        after_moves(cells, moves) == cells,
        evictions(cells, moves) == Seq::<u64>::empty(),
    decreases moves.len(),
{
    if moves.len() > 0 {
        assert forall|i: int| 0 <= i < moves.drop_last().len() implies !changes_cell(
            #[trigger] moves.drop_last()[i],
        ) by {
            assert(moves.drop_last()[i] == moves[i]);
        }
        law_update_without_change(cells, moves.drop_last());
        assert(!changes_cell(moves[moves.len() - 1]));
    }
}

/// Query completeness: an identifier is in the result of a query where
/// the table holds it and a bucket of the world holds it whose cell lies in
/// the queried index range; cells outside the world count for nothing.
pub proof fn law_query_membership(
    cells: Seq<Seq<Seq<u64>>>,
    start_x: int,
    start_y: int,
    end_x: int,
    end_y: int,
    live: Set<u64>,
    id: u64,
)
    ensures
        range_hits(cells, start_x, start_y, end_x, end_y, live).contains(id) <==> live.contains(id)
            && exists|x: int, y: int|
            start_x <= x < end_x && start_y <= y < end_y && #[trigger] holds(cells, x, y, id),
    decreases end_y - start_y,
{
    if end_y > start_y {
        law_query_membership(cells, start_x, start_y, end_x, end_y - 1, live, id);
        let before = range_hits(cells, start_x, start_y, end_x, end_y - 1, live);
        let last = end_y - 1;
        if 0 <= last < cells.len() {
            let here = row_hits(cells[last], start_x, end_x, live);
            lemma_concat_contains(before, here, id);
            lemma_row_hits_contains(cells[last], start_x, end_x, live, id);
            if here.contains(id) {
                let x = choose|x: int|
                    start_x <= x < end_x && 0 <= x < cells[last].len() && (
                    #[trigger] cells[last][x]).contains(id);
                assert(holds(cells, x, last, id));
            }
        }
        if live.contains(id) {
            if exists|x: int, y: int|
                start_x <= x < end_x && start_y <= y < end_y && #[trigger] holds(cells, x, y, id) {
                let (x, y) = choose|x: int, y: int|
                    start_x <= x < end_x && start_y <= y < end_y && #[trigger] holds(
                        cells,
                        x,
                        y,
                        id,
                    );
                if y < last {
                    assert(start_x <= x < end_x && start_y <= y < end_y - 1 && holds(
                        cells,
                        x,
                        y,
                        id,
                    ));
                } else {
                    assert(cells[last][x].contains(id));
                }
            }
        }
    } else {
        assert(!range_hits(cells, start_x, start_y, end_x, end_y, live).contains(id));
    }
}

/// Query finds each entity once: an identifier that the table holds and
/// that stands in one cell, once and nowhere else, is in the result of a
/// query once where its cell lies in the queried index range, and not at
/// all where it does not.
pub proof fn law_query_finds_once(
    cells: Seq<Seq<Seq<u64>>>,
    start_x: int,
    start_y: int,
    end_x: int,
    end_y: int,
    live: Set<u64>,
    id: u64,
    x: int,
    y: int,
)
    requires
        live.contains(id),
        located_at(cells, id, x, y),
    ensures
        occurrences(range_hits(cells, start_x, start_y, end_x, end_y, live), id) == if start_x <= x
            < end_x && start_y <= y < end_y {
            1nat
        } else {
            0nat
        },
    decreases end_y - start_y,
{
    if end_y > start_y {
        law_query_finds_once(cells, start_x, start_y, end_x, end_y - 1, live, id, x, y);
        let last = end_y - 1;
        if 0 <= last < cells.len() {
            let before = range_hits(cells, start_x, start_y, end_x, last, live);
            let row = cells[last];
            let column = if last == y {
                x
            } else {
                -1
            };
            assert forall|ox: int| 0 <= ox < row.len() implies occurrences(
                #[trigger] row[ox],
                id,
            ) == if ox == column {
                1nat
            } else {
                0nat
            } by {
                assert(in_world(cells, ox, last));
                assert(row[ox] == cells[last][ox]);
            }
            lemma_row_hits_occurrences(row, start_x, end_x, live, id, column);
            lemma_concat_occurrences(before, row_hits(row, start_x, end_x, live), id);
        }
    }
}

} // verus!
