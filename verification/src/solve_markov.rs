//! The solver: for every placement of the two animals, the number of moves
//! the dog should expect to need, found by sweeping over all placements until
//! the numbers settle.

use crate::field::{
    all_cells, cell_at, centre, distance, dog_moves, gap, in_bounds, is_open, laid_out,
    lemma_cell_at, lemma_dog_moves_legal, lemma_rank, lemma_reactions_legal,
    lemma_sheep_moves_legal, rank, sheep_reactions, valid_size, Cell, Dog, Entity, Field, Sheep,
};
use crate::utility::{Table, Utility, UtilityMap, SCALE};
use vstd::prelude::*;

verus! {

/// What can go wrong when a table of values is read.
#[derive(Debug, Clone, Copy, PartialEq, Eq, Structural)]
pub enum Fault {
    /// The table has no value for a placement that had to be looked up.
    MissingEntry,
    /// The dog has no cell to go to.
    NoMove,
}

/// The sheep stands on the centre cell of the pen.
pub open spec fn at_centre(n: int, sheep: Sheep) -> bool {
    sheep.x == centre(n) && sheep.y == centre(n)
}

/// The two animals stand on one cell.
pub open spec fn collide(sheep: Sheep, dog: Dog) -> bool {
    sheep.x == dog.x && sheep.y == dog.y
}

/// Both animals stand on open cells.
pub open spec fn admissible(n: int, sheep: Sheep, dog: Dog) -> bool {
    is_open(n, sheep.x as int, sheep.y as int) && is_open(n, dog.x as int, dog.y as int)
}

/// The game goes on from this placement: it is admissible, the sheep is not
/// in the pen and the animals have not met.
pub open spec fn live(n: int, sheep: Sheep, dog: Dog) -> bool {
    admissible(n, sheep, dog) && !at_centre(n, sheep) && !collide(sheep, dog)
}

/// The sum of the values of the placements that the sheep's next cells
/// `cells` lead to, the dog standing at `dog`.
pub open spec fn total(values: Table, dog: Dog, cells: Seq<Cell>) -> Utility
    decreases cells.len(),
{
    if cells.len() == 0 {
        Utility::Finite(0)
    } else {
        total(values, dog, cells.drop_last()).plus(values[(cells.last().as_sheep(), dog)])
    }
}

/// The value to expect once the dog has gone to `dog`: the mean of the
/// values over the cells the sheep may pick next, each as likely as the
/// others.
pub open spec fn expected(values: Table, n: int, sheep: Sheep, dog: Dog) -> Utility {
    let cells = sheep_reactions(n, sheep, dog);
    total(values, dog, cells).shared_among(cells.len() as usize)
}

/// The least expected value over the dog's moves `moves`; the first of them
/// where several are least, the infinite value where there is no move.
pub open spec fn cheapest(
    values: Table,
    n: int,
    sheep: Sheep,
    moves: Seq<Cell>,
) -> Utility
    decreases moves.len(),
{
    if moves.len() == 0 {
        Utility::Infinite
    } else {
        let before = cheapest(values, n, sheep, moves.drop_last());
        let here = expected(values, n, sheep, moves.last().as_dog());
        if here.is_below(before) {
            here
        } else {
            before
        }
    }
}

/// `cheapest` is the least of the expected values: none of the moves lets
/// the dog expect less, and where there is a move, one of them lets it expect
/// just that.
pub proof fn lemma_cheapest_is_least(values: Table, n: int, sheep: Sheep, moves: Seq<Cell>)
    ensures
        forall|i: int|
            0 <= i < moves.len() ==> !expected(
                values,
                n,
                sheep,
                (#[trigger] moves[i]).as_dog(),
            ).is_below(cheapest(values, n, sheep, moves)),
        moves.len() > 0 ==> exists|i: int|
            0 <= i < moves.len() && cheapest(values, n, sheep, moves) == expected(
                values,
                n,
                sheep,
                (#[trigger] moves[i]).as_dog(),
            ),
        moves.len() == 0 ==> cheapest(values, n, sheep, moves) == Utility::Infinite,
    decreases moves.len(),
{
    if moves.len() > 0 {
        let rest = moves.drop_last();
        lemma_cheapest_is_least(values, n, sheep, rest);
        let before = cheapest(values, n, sheep, rest);
        let here = expected(values, n, sheep, moves.last().as_dog());
        assert forall|i: int| 0 <= i < moves.len() implies !expected(
            values,
            n,
            sheep,
            (#[trigger] moves[i]).as_dog(),
        ).is_below(cheapest(values, n, sheep, moves)) by {
            if i < rest.len() {
                assert(rest[i] == moves[i]);
            }
        }
        if here.is_below(before) || rest.len() == 0 {
            assert(moves[moves.len() - 1] == moves.last());
            if !here.is_below(before) {
                assert(before == Utility::Infinite);
                assert(here == Utility::Infinite);
            }
        } else {
            let i = choose|i: int|
                0 <= i < rest.len() && before == expected(
                    values,
                    n,
                    sheep,
                    (#[trigger] rest[i]).as_dog(),
                );
            assert(rest[i] == moves[i]);
        }
    }
}

/// The value of a placement from which the game goes on, computed from the
/// values `values` of the placements one move later: one move, and
/// ninety-nine hundredths of what the dog's best move lets it expect.
pub open spec fn backup(values: Table, n: int, sheep: Sheep, dog: Dog) -> Utility {
    Utility::Finite(SCALE).plus(
        cheapest(values, n, sheep, dog_moves(n, sheep, dog, true)).discounted(),
    )
}

/// The table has a value for the placement after the dog's move to `dog` and
/// each step the sheep may then take.
pub open spec fn reactions_known(values: Table, n: int, sheep: Sheep, dog: Dog) -> bool {
    forall|j: int|
        0 <= j < sheep_reactions(n, sheep, dog).len() ==> values.contains_key(
            ((#[trigger] sheep_reactions(n, sheep, dog)[j]).as_sheep(), dog),
        )
}

/// The table has a value for every placement that one move of the dog and
/// the sheep's answer can lead to.
pub open spec fn successors_known(values: Table, n: int, sheep: Sheep, dog: Dog) -> bool {
    forall|i: int|
        0 <= i < dog_moves(n, sheep, dog, true).len() ==> reactions_known(
            values,
            n,
            sheep,
            (#[trigger] dog_moves(n, sheep, dog, true)[i]).as_dog(),
        )
}

/// The mean value over the sheep's answers to the dog's move to `dog`, or
/// nothing if the table lacks one of the values.
fn expected_value(board: &Field, values: &UtilityMap, sheep: Sheep, dog: Dog) -> (mean: Option<
    Utility,
>)
    requires
        laid_out(board.grid@),
        in_bounds(board.side(), sheep.x as int, sheep.y as int),
        in_bounds(board.side(), dog.x as int, dog.y as int),
    ensures
        mean == if reactions_known(values@, board.side(), sheep, dog) {
            Some(expected(values@, board.side(), sheep, dog))
        } else {
            None
        },
{
    let cells = board.sheep_reactions_from(sheep, dog);
    let mut sum = Utility::Finite(0);
    let mut j: usize = 0;
    while j < cells.len()
        invariant
            cells@ == sheep_reactions(board.side(), sheep, dog),
            j <= cells@.len(),
            sum == total(values@, dog, cells@.take(j as int)),
            forall|k: int|
                0 <= k < j ==> values@.contains_key(((#[trigger] cells@[k]).as_sheep(), dog)),
        decreases cells@.len() - j,
    {
        let next = Sheep::at(cells[j].x, cells[j].y);
        match values.get(next, dog) {
            Some(value) => {
                assert(cells@.take(j + 1).drop_last() =~= cells@.take(j as int));
                sum = sum.plus(value);
            },
            None => {
                assert(cells@[j as int].as_sheep() == next);
                return None;
            },
        }
        j += 1;
    }
    assert(cells@.take(cells@.len() as int) =~= cells@);
    Some(sum.shared_among(cells.len()))
}

/// The value of a placement from which the game goes on, or nothing if the
/// table lacks a value that it rests on.
fn backup_value(board: &Field, values: &UtilityMap, sheep: Sheep, dog: Dog) -> (value: Option<
    Utility,
>)
    requires
        laid_out(board.grid@),
        in_bounds(board.side(), sheep.x as int, sheep.y as int),
        in_bounds(board.side(), dog.x as int, dog.y as int),
    ensures
        value == if successors_known(values@, board.side(), sheep, dog) {
            Some(backup(values@, board.side(), sheep, dog))
        } else {
            None
        },
{
    let moves = board.dog_moves_from(sheep, dog, true);
    let mut best = Utility::Infinite;
    let mut i: usize = 0;
    while i < moves.len()
        invariant
            laid_out(board.grid@),
            in_bounds(board.side(), sheep.x as int, sheep.y as int),
            in_bounds(board.side(), dog.x as int, dog.y as int),
            moves@ == dog_moves(board.side(), sheep, dog, true),
            i <= moves@.len(),
            best == cheapest(values@, board.side(), sheep, moves@.take(i as int)),
            forall|k: int|
                0 <= k < i ==> reactions_known(
                    values@,
                    board.side(),
                    sheep,
                    (#[trigger] moves@[k]).as_dog(),
                ),
        decreases moves@.len() - i,
    {
        let target = Dog::at(moves[i].x, moves[i].y);
        proof {
            assert(moves@.contains(moves@[i as int]));
            lemma_dog_moves_legal(board.side(), sheep, dog, true, moves@[i as int]);
            assert(moves@[i as int].as_dog() == target);
        }
        match expected_value(board, values, sheep, target) {
            Some(mean) => {
                assert(moves@.take(i + 1).drop_last() =~= moves@.take(i as int));
                if mean.is_below(best) {
                    best = mean;
                }
            },
            None => {
                return None;
            },
        }
        i += 1;
    }
    assert(moves@.take(moves@.len() as int) =~= moves@);
    Some(Utility::Finite(SCALE).plus(best.discounted()))
}

/// The value a sweep gives a placement. A sheep in the pen has nothing left
/// to do; animals that have met must never be the dog's choice; a placement
/// from which the game goes on is valued by `backup`. A placement that is
/// not admissible keeps the value it had.
pub open spec fn value_after(values: Table, n: int, sheep: Sheep, dog: Dog) -> Utility {
    if !admissible(n, sheep, dog) {
        values[(sheep, dog)]
    } else if at_centre(n, sheep) {
        Utility::Finite(0)
    } else if collide(sheep, dog) {
        Utility::Infinite
    } else {
        backup(values, n, sheep, dog)
    }
}

/// The table after one sweep: the same placements, each with the value that
/// the values before the sweep give it.
pub open spec fn swept(values: Table, n: int) -> Table {
    Map::new(
        |s: (Sheep, Dog)| values.contains_key(s),
        |s: (Sheep, Dog)| value_after(values, n, s.0, s.1),
    )
}

/// The table can be swept: for every placement in it from which the game
/// goes on, it has the values of all the placements one move later.
pub open spec fn complete(values: Table, n: int) -> bool {
    forall|s: (Sheep, Dog)|
        #[trigger] values.contains_key(s) && live(n, s.0, s.1) ==> successors_known(
            values,
            n,
            s.0,
            s.1,
        )
}

/// The placement comes before the one made of the cells at places `a` and
/// `b` when placements are counted sheep first, each cell row by row.
pub open spec fn before(n: int, a: int, b: int, s: (Sheep, Dog)) -> bool {
    let i = rank(n, s.0.x as int, s.0.y as int);
    let j = rank(n, s.1.x as int, s.1.y as int);
    i < a || (i == a && j < b)
}

/// A placement on the field comes before the one at places (`a`, `b` + 1)
/// exactly when it comes before the one at (`a`, `b`) or is that one.
proof fn lemma_before_next(n: int, a: int, b: int, s: (Sheep, Dog))
    requires
        valid_size(n),
        0 <= a < n * n,
        0 <= b < n * n,
        in_bounds(n, s.0.x as int, s.0.y as int),
        in_bounds(n, s.1.x as int, s.1.y as int),
    ensures
        before(n, a, b + 1, s) <==> before(n, a, b, s) || s == (
            cell_at(n, a).as_sheep(),
            cell_at(n, b).as_dog(),
        ),
        before(n, a, n * n, s) <==> before(n, a + 1, 0, s),
        before(n, n * n, 0, s),
        !before(n, 0, 0, s),
{
    lemma_rank(n, s.0.x as int, s.0.y as int);
    lemma_rank(n, s.1.x as int, s.1.y as int);
    lemma_cell_at(n, a);
    lemma_cell_at(n, b);
}

/// One sweep over the table, read from `old` only.
fn sweep(old: &UtilityMap) -> (fresh: Result<UtilityMap, Fault>)
    ensures
        match fresh {
            Ok(map) => {
                &&& complete(old@, old.side())
                &&& map.wf()
                &&& map.side() == old.side()
                &&& map@ == swept(old@, old.side())
            },
            Err(fault) => fault == Fault::MissingEntry && !complete(old@, old.side()),
        },
{
    let size: usize = old.size();
    let board = Field::sized(size);
    let cells = board.cells();
    let middle: i32 = ((size - 1) / 2) as i32;
    let mut fresh = UtilityMap::new(size);
    let ghost n = size as int;
    assert(n * n > 0) by (nonlinear_arith)
        requires
            n >= 3,
    ;
    let mut a: usize = 0;
    while a < cells.len()
        invariant
            old.wf(),
            n == old.side(),
            n == size,
            board.wf(),
            board.side() == n,
            middle == centre(n),
            cells@ == all_cells(n),
            cells@.len() == n * n,
            a <= cells@.len(),
            fresh.wf(),
            fresh.side() == n,
            forall|s: (Sheep, Dog)|
                #[trigger] fresh@.contains_key(s) <==> old@.contains_key(s) && before(
                    n,
                    a as int,
                    0,
                    s,
                ),
            forall|s: (Sheep, Dog)|
                #[trigger] fresh@.contains_key(s) ==> fresh@[s] == value_after(old@, n, s.0, s.1),
            forall|s: (Sheep, Dog)|
                #[trigger] old@.contains_key(s) && before(n, a as int, 0, s) && live(n, s.0, s.1)
                    ==> successors_known(old@, n, s.0, s.1),
        decreases cells@.len() - a,
    {
        let mut b: usize = 0;
        while b < cells.len()
            invariant
                old.wf(),
                n == old.side(),
                n == size,
                board.wf(),
                board.side() == n,
                middle == centre(n),
                cells@ == all_cells(n),
                cells@.len() == n * n,
                a < cells@.len(),
                b <= cells@.len(),
                fresh.wf(),
                fresh.side() == n,
                forall|s: (Sheep, Dog)|
                    #[trigger] fresh@.contains_key(s) <==> old@.contains_key(s) && before(
                        n,
                        a as int,
                        b as int,
                        s,
                    ),
                forall|s: (Sheep, Dog)|
                    #[trigger] fresh@.contains_key(s) ==> fresh@[s] == value_after(
                        old@,
                        n,
                        s.0,
                        s.1,
                    ),
                forall|s: (Sheep, Dog)|
                    #[trigger] old@.contains_key(s) && before(n, a as int, b as int, s) && live(
                        n,
                        s.0,
                        s.1,
                    ) ==> successors_known(old@, n, s.0, s.1),
            decreases cells@.len() - b,
        {
            let sheep = Sheep::at(cells[a].x, cells[a].y);
            let dog = Dog::at(cells[b].x, cells[b].y);
            proof {
                lemma_cell_at(n, a as int);
                lemma_cell_at(n, b as int);
                assert(cells@[a as int] == cell_at(n, a as int));
                assert(cells@[b as int] == cell_at(n, b as int));
                assert forall|s: (Sheep, Dog)| #[trigger] old@.contains_key(s) implies (before(
                    n,
                    a as int,
                    b + 1,
                    s,
                ) <==> before(n, a as int, b as int, s) || s == (sheep, dog)) by {
                    lemma_before_next(n, a as int, b as int, s);
                }
            }
            match old.get(sheep, dog) {
                Some(value) => {
                    let open = cells[a].entity != Entity::Fence && cells[b].entity
                        != Entity::Fence;
                    assert(open == admissible(n, sheep, dog));
                    let next = if !open {
                        value
                    } else if sheep.x == middle && sheep.y == middle {
                        Utility::Finite(0)
                    } else if sheep.x == dog.x && sheep.y == dog.y {
                        Utility::Infinite
                    } else {
                        match backup_value(&board, old, sheep, dog) {
                            Some(value) => value,
                            None => {
                                assert(old@.contains_key((sheep, dog)));
                                return Err(Fault::MissingEntry);
                            },
                        }
                    };
                    assert(next == value_after(old@, n, sheep, dog));
                    fresh.insert(sheep, dog, next);
                },
                None => {},
            }
            b += 1;
        }
        proof {
            assert forall|s: (Sheep, Dog)| #[trigger] old@.contains_key(s) implies (before(
                n,
                a as int,
                b as int,
                s,
            ) <==> before(n, a + 1, 0, s)) by {
                lemma_before_next(n, a as int, 0, s);
            }
        }
        a += 1;
    }
    proof {
        assert forall|s: (Sheep, Dog)| #[trigger] old@.contains_key(s) implies before(
            n,
            a as int,
            0,
            s,
        ) by {
            lemma_before_next(n, 0, 0, s);
        }
        assert(fresh@ =~= swept(old@, n));
    }
    Ok(fresh)
}

/// One sweep: the table in which every placement of `old_utility_map` has
/// the value that the values of `old_utility_map` give it. The sweep fails
/// when a value that it needs is missing.
pub fn t_star(old_utility_map: UtilityMap) -> (fresh: Result<UtilityMap, Fault>)
    ensures
        match fresh {
            Ok(map) => {
                &&& complete(old_utility_map@, old_utility_map.side())
                &&& map.wf()
                &&& map.side() == old_utility_map.side()
                &&& map@ == swept(old_utility_map@, old_utility_map.side())
                &&& terminals_fixed(map@, old_utility_map.side())
            },
            Err(fault) => fault == Fault::MissingEntry && !complete(
                old_utility_map@,
                old_utility_map.side(),
            ),
        },
{
    proof {
        lemma_sweep_fixes_terminals(old_utility_map@, old_utility_map.side());
    }
    sweep(&old_utility_map)
}

/// The first guess at the value of a placement: nothing for a sheep in the
/// pen, the infinite value for animals that have met, and otherwise the
/// number of steps the sheep is from the centre, along rows and columns, and
/// two more.
pub open spec fn seed_value(n: int, sheep: Sheep, dog: Dog) -> Utility {
    if at_centre(n, sheep) {
        Utility::Finite(0)
    } else if collide(sheep, dog) {
        Utility::Infinite
    } else {
        Utility::moves(
            (gap(sheep.x as int, centre(n)) + gap(sheep.y as int, centre(n)) + 2) as u64,
        )
    }
}

/// The table before the first sweep: every admissible placement, each with
/// its first guess.
pub open spec fn seeded(n: int) -> Table {
    Map::new(
        |s: (Sheep, Dog)| admissible(n, s.0, s.1),
        |s: (Sheep, Dog)| seed_value(n, s.0, s.1),
    )
}

/// Seeding is a function of the side alone: two tables seeded for one side
/// hold the same placements with the same values.
pub proof fn lemma_seeding_repeats(first: UtilityMap, second: UtilityMap, n: int)
    requires
        first@ == seeded(n),
        second@ == seeded(n),
    ensures
        first@ == second@,
{
}

/// The table in which the solver starts on a field of side `size`: every
/// admissible placement with its first guess.
pub fn seed_utility_map(size: usize) -> (map: UtilityMap)
    requires
        valid_size(size as int),
    ensures
        map.wf(),
        map.side() == size,
        map@ == seeded(size as int),
{
    let board = Field::sized(size);
    let cells = board.cells();
    let middle: i32 = ((size - 1) / 2) as i32;
    let mut map = UtilityMap::new(size);
    let ghost n = size as int;
    assert(n * n > 0) by (nonlinear_arith)
        requires
            n >= 3,
    ;
    let mut a: usize = 0;
    while a < cells.len()
        invariant
            valid_size(n),
            n == size,
            middle == centre(n),
            cells@ == all_cells(n),
            cells@.len() == n * n,
            a <= cells@.len(),
            map.wf(),
            map.side() == n,
            forall|s: (Sheep, Dog)|
                #[trigger] map@.contains_key(s) <==> admissible(n, s.0, s.1) && before(
                    n,
                    a as int,
                    0,
                    s,
                ),
            forall|s: (Sheep, Dog)|
                #[trigger] map@.contains_key(s) ==> map@[s] == seed_value(n, s.0, s.1),
        decreases cells@.len() - a,
    {
        let mut b: usize = 0;
        while b < cells.len()
            invariant
                valid_size(n),
                n == size,
                middle == centre(n),
                cells@ == all_cells(n),
                cells@.len() == n * n,
                a < cells@.len(),
                b <= cells@.len(),
                map.wf(),
                map.side() == n,
                forall|s: (Sheep, Dog)|
                    #[trigger] map@.contains_key(s) <==> admissible(n, s.0, s.1) && before(
                        n,
                        a as int,
                        b as int,
                        s,
                    ),
                forall|s: (Sheep, Dog)|
                    #[trigger] map@.contains_key(s) ==> map@[s] == seed_value(n, s.0, s.1),
            decreases cells@.len() - b,
        {
            let sheep = Sheep::at(cells[a].x, cells[a].y);
            let dog = Dog::at(cells[b].x, cells[b].y);
            proof {
                lemma_cell_at(n, a as int);
                lemma_cell_at(n, b as int);
                assert(cells@[a as int] == cell_at(n, a as int));
                assert(cells@[b as int] == cell_at(n, b as int));
                assert forall|s: (Sheep, Dog)| admissible(n, s.0, s.1) implies (before(
                    n,
                    a as int,
                    b + 1,
                    s,
                ) <==> before(n, a as int, b as int, s) || s == (sheep, dog)) by {
                    lemma_before_next(n, a as int, b as int, s);
                }
            }
            if cells[a].entity != Entity::Fence && cells[b].entity != Entity::Fence {
                let value = if sheep.x == middle && sheep.y == middle {
                    Utility::Finite(0)
                } else if sheep.x == dog.x && sheep.y == dog.y {
                    Utility::Infinite
                } else {
                    let steps: i32 = distance(sheep.x, middle) + distance(sheep.y, middle) + 2;
                    Utility::moves(steps as u64)
                };
                map.insert(sheep, dog, value);
            }
            b += 1;
        }
        proof {
            assert forall|s: (Sheep, Dog)| admissible(n, s.0, s.1) implies (before(
                n,
                a as int,
                b as int,
                s,
            ) <==> before(n, a + 1, 0, s)) by {
                lemma_before_next(n, a as int, 0, s);
            }
        }
        a += 1;
    }
    proof {
        assert forall|s: (Sheep, Dog)| admissible(n, s.0, s.1) implies before(
            n,
            a as int,
            0,
            s,
        ) by {
            lemma_before_next(n, 0, 0, s);
        }
        assert(map@ =~= seeded(n));
    }
    map
}

/// A hundredth of a move: the stopping statistic must fall below it for the
/// sweeps to end.
pub const EPSILON: u64 = 10_000;

/// How far the value of a placement has moved from one table to the other;
/// nothing for a placement that the first table does not hold.
pub open spec fn difference(
    old: Table,
    new: Table,
    s: (Sheep, Dog),
) -> Utility {
    if old.contains_key(s) {
        old[s].apart(new[s])
    } else {
        Utility::Finite(0)
    }
}

/// The differences summed over the placements of the sheep at place `a`
/// with the dog at the places below `b`.
pub open spec fn row_change(
    old: Table,
    new: Table,
    n: int,
    a: int,
    b: int,
) -> Utility
    decreases b,
{
    if b <= 0 {
        Utility::Finite(0)
    } else {
        row_change(old, new, n, a, b - 1).plus(
            difference(old, new, (cell_at(n, a).as_sheep(), cell_at(n, b - 1).as_dog())),
        )
    }
}

/// The differences summed over the placements of the sheep at the places
/// below `a` with the dog anywhere.
pub open spec fn change(
    old: Table,
    new: Table,
    n: int,
    a: int,
) -> Utility
    decreases a,
{
    if a <= 0 {
        Utility::Finite(0)
    } else {
        change(old, new, n, a - 1).plus(row_change(old, new, n, a - 1, n * n))
    }
}

/// The stopping statistic of a sweep: twice the sum of the differences over
/// all placements, divided by the hundredth that the discount leaves; two
/// hundred times the sum.
pub open spec fn stopping_statistic(
    old: Table,
    new: Table,
    n: int,
) -> Utility {
    change(old, new, n, n * n).times(200)
}

/// The second table holds every placement that the first one holds.
pub open spec fn covers(old: Table, new: Table) -> bool {
    forall|s: (Sheep, Dog)| #[trigger] old.contains_key(s) ==> new.contains_key(s)
}

/// The stopping statistic of the sweep that led from `old_map` to
/// `new_map`, or nothing if the tables are for fields of two sizes or
/// `new_map` lacks a placement of `old_map`.
pub fn update_size(old_map: &UtilityMap, new_map: &UtilityMap) -> (statistic: Option<Utility>)
    ensures
        statistic == if old_map.side() == new_map.side() && covers(old_map@, new_map@) {
            Some(stopping_statistic(old_map@, new_map@, old_map.side()))
        } else {
            None
        },
{
    let size: usize = old_map.size();
    if new_map.size() != size {
        return None;
    }
    let board = Field::sized(size);
    let cells = board.cells();
    let ghost n = size as int;
    assert(n * n > 0) by (nonlinear_arith)
        requires
            n >= 3,
    ;
    let mut sum = Utility::Finite(0);
    let mut a: usize = 0;
    while a < cells.len()
        invariant
            old_map.wf(),
            n == old_map.side(),
            n == new_map.side(),
            cells@ == all_cells(n),
            cells@.len() == n * n,
            a <= cells@.len(),
            sum == change(old_map@, new_map@, n, a as int),
            forall|s: (Sheep, Dog)|
                #[trigger] old_map@.contains_key(s) && before(n, a as int, 0, s)
                    ==> new_map@.contains_key(s),
        decreases cells@.len() - a,
    {
        let mut row = Utility::Finite(0);
        let mut b: usize = 0;
        while b < cells.len()
            invariant
                old_map.wf(),
                n == old_map.side(),
                n == new_map.side(),
                cells@ == all_cells(n),
                cells@.len() == n * n,
                a < cells@.len(),
                b <= cells@.len(),
                row == row_change(old_map@, new_map@, n, a as int, b as int),
                forall|s: (Sheep, Dog)|
                    #[trigger] old_map@.contains_key(s) && before(n, a as int, b as int, s)
                        ==> new_map@.contains_key(s),
            decreases cells@.len() - b,
        {
            let sheep = Sheep::at(cells[a].x, cells[a].y);
            let dog = Dog::at(cells[b].x, cells[b].y);
            proof {
                lemma_cell_at(n, a as int);
                lemma_cell_at(n, b as int);
                assert(cells@[a as int] == cell_at(n, a as int));
                assert(cells@[b as int] == cell_at(n, b as int));
                assert forall|s: (Sheep, Dog)| #[trigger] old_map@.contains_key(s) implies (before(
                    n,
                    a as int,
                    b + 1,
                    s,
                ) <==> before(n, a as int, b as int, s) || s == (sheep, dog)) by {
                    lemma_before_next(n, a as int, b as int, s);
                }
            }
            match old_map.get(sheep, dog) {
                Some(before_sweep) => match new_map.get(sheep, dog) {
                    Some(after_sweep) => {
                        row = row.plus(before_sweep.apart(after_sweep));
                    },
                    None => {
                        return None;
                    },
                },
                None => {
                    row = row.plus(Utility::Finite(0));
                },
            }
            b += 1;
        }
        proof {
            assert forall|s: (Sheep, Dog)| #[trigger] old_map@.contains_key(s) implies (before(
                n,
                a as int,
                b as int,
                s,
            ) <==> before(n, a + 1, 0, s)) by {
                lemma_before_next(n, a as int, 0, s);
            }
        }
        sum = sum.plus(row);
        a += 1;
    }
    proof {
        assert forall|s: (Sheep, Dog)| #[trigger] old_map@.contains_key(s) implies before(
            n,
            a as int,
            0,
            s,
        ) by {
            lemma_before_next(n, 0, 0, s);
        }
    }
    Some(sum.times(200))
}

/// The table after `k` sweeps from the first guesses.
pub open spec fn iterate(n: int, k: nat) -> Table
    decreases k,
{
    if k == 0 {
        seeded(n)
    } else {
        swept(iterate(n, (k - 1) as nat), n)
    }
}

/// Sweep number `k`, counted from one, met the stopping test: its stopping
/// statistic is below `EPSILON`.
pub open spec fn settled(n: int, k: nat) -> bool {
    k >= 1 && stopping_statistic(iterate(n, (k - 1) as nat), iterate(n, k), n).is_below(
        Utility::Finite(EPSILON),
    )
}

/// Between a table and itself nothing has changed: the differences over the
/// sheep at one place sum to nothing.
proof fn lemma_row_unchanged(values: Table, n: int, a: int, b: int)
    ensures
        row_change(values, values, n, a, b) == Utility::Finite(0),
    decreases b,
{
    if b > 0 {
        lemma_row_unchanged(values, n, a, b - 1);
    }
}

/// Between a table and itself nothing has changed: the differences over the
/// sheep at the places below `a` sum to nothing.
proof fn lemma_unchanged(values: Table, n: int, a: int)
    ensures
        change(values, values, n, a) == Utility::Finite(0),
    decreases a,
{
    if a > 0 {
        lemma_unchanged(values, n, a - 1);
        lemma_row_unchanged(values, n, a - 1, n * n);
    }
}

/// A sweep that changes nothing has the stopping statistic nothing.
pub proof fn lemma_unchanged_table_settles(values: Table, n: int)
    ensures
        stopping_statistic(values, values, n) == Utility::Finite(0),
{
    lemma_unchanged(values, n, n * n);
}

/// Once a sweep from the first guesses has changed nothing, no later sweep
/// changes anything: the table stays as it is, and every later sweep has the
/// stopping statistic nothing and meets the stopping test.
pub proof fn lemma_fixed_point_stays(n: int, k: nat, j: nat)
    requires
        iterate(n, k + 1) == iterate(n, k),
        j >= k,
    ensures
        iterate(n, j) == iterate(n, k),
        stopping_statistic(iterate(n, j), iterate(n, j + 1), n) == Utility::Finite(0),
        settled(n, j + 1),
    decreases j,
{
    if j > k {
        lemma_fixed_point_stays(n, k, (j - 1) as nat);
        assert(iterate(n, j) == swept(iterate(n, (j - 1) as nat), n));
    }
    assert(iterate(n, j + 1) == swept(iterate(n, j), n));
    assert(iterate(n, k + 1) == swept(iterate(n, k), n));
    lemma_unchanged_table_settles(iterate(n, j), n);
}

/// In the table, every admissible placement with the sheep in the pen has
/// the value nothing, and every other one in which the animals have met has
/// the infinite value.
pub open spec fn terminals_fixed(values: Table, n: int) -> bool {
    forall|s: (Sheep, Dog)|
        #[trigger] values.contains_key(s) && admissible(n, s.0, s.1) ==> {
            &&& at_centre(n, s.0) ==> values[s] == Utility::Finite(0)
            &&& !at_centre(n, s.0) && collide(s.0, s.1) ==> values[s] == Utility::Infinite
        }
}

/// The table holds the admissible placements and no others.
pub open spec fn holds_admissible(values: Table, n: int) -> bool {
    forall|s: (Sheep, Dog)| #[trigger] values.contains_key(s) <==> admissible(n, s.0, s.1)
}

/// Whatever the values before a sweep, after it a sheep in the pen is worth
/// nothing and animals that have met are worth the infinite value.
pub proof fn lemma_sweep_fixes_terminals(values: Table, n: int)
    ensures
        terminals_fixed(swept(values, n), n),
{
}

/// The first guesses give a sheep in the pen the value nothing and animals
/// that have met the infinite value.
pub proof fn lemma_seed_fixes_terminals(n: int)
    ensures
        terminals_fixed(seeded(n), n),
        holds_admissible(seeded(n), n),
{
}

/// After any number of sweeps from the first guesses the table holds the
/// admissible placements, a sheep in the pen is worth nothing, and animals
/// that have met are worth the infinite value.
pub proof fn lemma_iterate_fixes_terminals(n: int, k: nat)
    ensures
        terminals_fixed(iterate(n, k), n),
        holds_admissible(iterate(n, k), n),
    decreases k,
{
    if k > 0 {
        lemma_iterate_fixes_terminals(n, (k - 1) as nat);
    }
}

/// The table has a value for every admissible placement.
pub open spec fn knows_all(values: Table, n: int) -> bool {
    forall|s: (Sheep, Dog)| admissible(n, s.0, s.1) ==> #[trigger] values.contains_key(s)
}

/// A table that holds every admissible placement can be swept: a move of
/// the dog and the sheep's answer never leave the admissible placements.
pub proof fn lemma_admissible_complete(values: Table, n: int)
    requires
        valid_size(n),
        knows_all(values, n),
    ensures
        complete(values, n),
{
    assert forall|s: (Sheep, Dog)| #[trigger]
        values.contains_key(s) && live(n, s.0, s.1) implies successors_known(
        values,
        n,
        s.0,
        s.1,
    ) by {
        let moves = dog_moves(n, s.0, s.1, true);
        assert forall|i: int| 0 <= i < moves.len() implies reactions_known(
            values,
            n,
            s.0,
            (#[trigger] moves[i]).as_dog(),
        ) by {
            assert(moves.contains(moves[i]));
            lemma_dog_moves_legal(n, s.0, s.1, true, moves[i]);
            let target = moves[i].as_dog();
            let cells = sheep_reactions(n, s.0, target);
            assert forall|j: int| 0 <= j < cells.len() implies values.contains_key(
                ((#[trigger] cells[j]).as_sheep(), target),
            ) by {
                assert(cells.contains(cells[j]));
                lemma_reactions_legal(n, s.0, target, cells[j]);
                if cells[j].as_sheep() != s.0 {
                    lemma_sheep_moves_legal(n, s.0, cells[j]);
                }
                assert(admissible(n, cells[j].as_sheep(), target));
            }
        }
    }
}

/// What the solver hands back: the table after `sweeps` sweeps, and whether
/// the last of them met the stopping test.
#[derive(Debug, Clone, PartialEq, Eq)]
pub struct Solution {
    pub map: UtilityMap,
    pub sweeps: u64,
    pub converged: bool,
}

/// Solves the game on a field of side `size`: sweeps from the first guesses
/// until a sweep meets the stopping test, and for `ceiling` sweeps at most.
/// Where no sweep met the test, the table after the last one is handed back
/// with `converged` unset.
pub fn generate_optimal_utility(size: usize, ceiling: u64) -> (solution: Solution)
    requires
        valid_size(size as int),
    ensures
        solution.map.wf(),
        solution.map.side() == size,
        solution.sweeps <= ceiling,
        solution.map@ == iterate(size as int, solution.sweeps as nat),
        solution.converged == settled(size as int, solution.sweeps as nat),
        forall|k: nat| 1 <= k < solution.sweeps ==> !settled(size as int, k),
        !solution.converged ==> solution.sweeps == ceiling,
        terminals_fixed(solution.map@, size as int),
        holds_admissible(solution.map@, size as int),
        complete(solution.map@, size as int),
{
    let ghost n = size as int;
    let mut map = seed_utility_map(size);
    let mut sweeps: u64 = 0;
    while sweeps < ceiling
        invariant
            valid_size(n),
            n == size,
            sweeps <= ceiling,
            map.wf(),
            map.side() == n,
            map@ == iterate(n, sweeps as nat),
            forall|k: nat| 1 <= k <= sweeps ==> !settled(n, k),
        decreases ceiling - sweeps,
    {
        proof {
            lemma_iterate_fixes_terminals(n, sweeps as nat);
            lemma_admissible_complete(map@, n);
        }
        let fresh = match sweep(&map) {
            Ok(fresh) => fresh,
            Err(_) => {
                return Solution { map, sweeps, converged: false };
            },
        };
        let met = match update_size(&map, &fresh) {
            Some(statistic) => statistic.is_below(Utility::Finite(EPSILON)),
            None => false,
        };
        sweeps += 1;
        map = fresh;
        proof {
            lemma_iterate_fixes_terminals(n, sweeps as nat);
            lemma_admissible_complete(map@, n);
        }
        if met {
            return Solution { map, sweeps, converged: true };
        }
    }
    proof {
        lemma_iterate_fixes_terminals(n, sweeps as nat);
        lemma_admissible_complete(map@, n);
    }
    Solution { map, sweeps, converged: false }
}

} // verus!
