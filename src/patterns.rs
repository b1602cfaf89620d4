//! Well-known patterns and how they evolve: the block stays still and the blinker
//! oscillates with period 2.
use vstd::prelude::*;

use crate::is_next_generation;
use crate::universe::Universe;

verus! {

/// The live cells of `u` are exactly the positions in `live`.
pub open spec fn alive_exactly(u: Universe, live: Set<(int, int)>) -> bool {
    forall|x: int, y: int| #[trigger] u.alive(x, y) == live.contains((x, y))
}

/// The 2x2 block whose top-left cell is `(a, b)`.
pub open spec fn block(a: int, b: int) -> Set<(int, int)> {
    set![(a, b), (a + 1, b), (a, b + 1), (a + 1, b + 1)]
}

/// The horizontal blinker centred on `(a, b)`.
pub open spec fn blinker_horizontal(a: int, b: int) -> Set<(int, int)> {
    set![(a - 1, b), (a, b), (a + 1, b)]
}

/// The vertical blinker centred on `(a, b)`.
pub open spec fn blinker_vertical(a: int, b: int) -> Set<(int, int)> {
    set![(a, b - 1), (a, b), (a, b + 1)]
}

/// A block is a still life: the generation after a block is the same block.
pub proof fn lemma_block_still(prev: Universe, next: Universe, a: int, b: int)
    requires
        prev.wf(),
        alive_exactly(prev, block(a, b)),
        is_next_generation(prev, next),
    ensures
        alive_exactly(next, block(a, b)),
{
    assert forall|x: int, y: int| #[trigger] next.alive(x, y) == block(a, b).contains((x, y)) by {
        assert(prev.alive(x - 1, y - 1) == block(a, b).contains((x - 1, y - 1)));
        assert(prev.alive(x, y - 1) == block(a, b).contains((x, y - 1)));
        assert(prev.alive(x + 1, y - 1) == block(a, b).contains((x + 1, y - 1)));
        assert(prev.alive(x - 1, y) == block(a, b).contains((x - 1, y)));
        assert(prev.alive(x, y) == block(a, b).contains((x, y)));
        assert(prev.alive(x + 1, y) == block(a, b).contains((x + 1, y)));
        assert(prev.alive(x - 1, y + 1) == block(a, b).contains((x - 1, y + 1)));
        assert(prev.alive(x, y + 1) == block(a, b).contains((x, y + 1)));
        assert(prev.alive(x + 1, y + 1) == block(a, b).contains((x + 1, y + 1)));
    }
}

/// The neighbourhood of `(x, y)` read through a description of every live cell.
proof fn lemma_read_around(u: Universe, live: Set<(int, int)>, x: int, y: int)
    requires
        alive_exactly(u, live),
    ensures
        u.alive(x - 1, y - 1) == live.contains((x - 1, y - 1)),
        u.alive(x, y - 1) == live.contains((x, y - 1)),
        u.alive(x + 1, y - 1) == live.contains((x + 1, y - 1)),
        u.alive(x - 1, y) == live.contains((x - 1, y)),
        u.alive(x, y) == live.contains((x, y)),
        u.alive(x + 1, y) == live.contains((x + 1, y)),
        u.alive(x - 1, y + 1) == live.contains((x - 1, y + 1)),
        u.alive(x, y + 1) == live.contains((x, y + 1)),
        u.alive(x + 1, y + 1) == live.contains((x + 1, y + 1)),
{
}

/// A horizontal blinker whose vertical form fits on the grid turns vertical.
pub proof fn lemma_blinker_turns_vertical(prev: Universe, next: Universe, a: int, b: int)
    requires
        prev.wf(),
        prev.in_bounds(a, b - 1),
        prev.in_bounds(a, b + 1),
        alive_exactly(prev, blinker_horizontal(a, b)),
        is_next_generation(prev, next),
    ensures
        alive_exactly(next, blinker_vertical(a, b)),
{
    assert forall|x: int, y: int| #[trigger] next.alive(x, y) == blinker_vertical(a, b).contains(
        (x, y),
    ) by {
        lemma_read_around(prev, blinker_horizontal(a, b), x, y);
    }
}

/// A vertical blinker whose horizontal form fits on the grid turns horizontal.
pub proof fn lemma_blinker_turns_horizontal(prev: Universe, next: Universe, a: int, b: int)
    requires
        prev.wf(),
        prev.in_bounds(a - 1, b),
        prev.in_bounds(a + 1, b),
        alive_exactly(prev, blinker_vertical(a, b)),
        is_next_generation(prev, next),
    ensures
        alive_exactly(next, blinker_horizontal(a, b)),
{
    assert forall|x: int, y: int| #[trigger] next.alive(x, y) == blinker_horizontal(a, b).contains(
        (x, y),
    ) by {
        lemma_read_around(prev, blinker_vertical(a, b), x, y);
    }
}

/// `gens` is a run of generations: each one follows the one before.
pub open spec fn is_run(gens: Seq<Universe>) -> bool {
    &&& gens.len() > 0
    &&& gens[0].wf()
    &&& forall|i: int| 0 <= i < gens.len() - 1 ==> is_next_generation(#[trigger] gens[i], gens[i + 1])
}

/// A block stays the same block in every generation of a run that starts from it.
pub proof fn lemma_block_still_in_run(gens: Seq<Universe>, a: int, b: int)
    requires
        is_run(gens),
        alive_exactly(gens[0], block(a, b)),
    ensures
        forall|i: int| 0 <= i < gens.len() ==> alive_exactly(#[trigger] gens[i], block(a, b)),
    decreases gens.len(),
{
    if gens.len() > 1 {
        let rest = gens.drop_first();
        lemma_block_still(gens[0], gens[1], a, b);
        assert(rest[0] == gens[1]);
        assert forall|i: int| 0 <= i < rest.len() - 1 implies is_next_generation(
            #[trigger] rest[i],
            rest[i + 1],
        ) by {
            assert(is_next_generation(gens[i + 1], gens[i + 2]));
        }
        lemma_block_still_in_run(rest, a, b);
        assert forall|i: int| 0 <= i < gens.len() implies alive_exactly(
            #[trigger] gens[i],
            block(a, b),
        ) by {
            if i > 0 {
                assert(gens[i] == rest[i - 1]);
            }
        }
    }
}

/// In a run that starts from a horizontal blinker whose vertical form fits on the grid,
/// the blinker is horizontal in the even generations and vertical in the odd ones.
pub proof fn lemma_blinker_oscillates_in_run(gens: Seq<Universe>, a: int, b: int)
    requires
        is_run(gens),
        gens[0].in_bounds(a, b - 1),
        gens[0].in_bounds(a, b + 1),
        alive_exactly(gens[0], blinker_horizontal(a, b)),
    ensures
        forall|i: int|
            0 <= i < gens.len() ==> alive_exactly(
                #[trigger] gens[i],
                if i % 2 == 0 {
                    blinker_horizontal(a, b)
                } else {
                    blinker_vertical(a, b)
                },
            ),
    decreases gens.len(),
{
    if gens.len() > 1 {
        lemma_blinker_turns_vertical(gens[0], gens[1], a, b);
        assert(gens[0].alive(a - 1, b) && gens[0].alive(a + 1, b));
        if gens.len() > 2 {
            lemma_blinker_turns_horizontal(gens[1], gens[2], a, b);
            let rest = gens.subrange(2, gens.len() as int);
            assert(rest[0] == gens[2]);
            assert forall|i: int| 0 <= i < rest.len() - 1 implies is_next_generation(
                #[trigger] rest[i],
                rest[i + 1],
            ) by {
                assert(is_next_generation(gens[i + 2], gens[i + 3]));
            }
            lemma_blinker_oscillates_in_run(rest, a, b);
            assert forall|i: int| 2 <= i < gens.len() implies alive_exactly(
                #[trigger] gens[i],
                if i % 2 == 0 {
                    blinker_horizontal(a, b)
                } else {
                    blinker_vertical(a, b)
                },
            ) by {
                assert(gens[i] == rest[i - 2]);
                assert((i - 2) % 2 == i % 2);
            }
        }
    }
}

} // verus!
