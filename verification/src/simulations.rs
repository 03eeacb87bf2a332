//! Playing the game with a table of values: where the dog should start, how
//! it picks each move, and how a run of games is tallied.

use crate::field::{
    all_cells, answered, cell_at, centre, dog_moves, in_bounds, is_open, lemma_cell_at,
    lemma_centre_open, lemma_dog_moves_legal, lemma_open_cells, lemma_rank,
    lemma_reactions_legal, lemma_sheep_moves_legal, rank, sheep_reactions, valid_size, Dog,
    Entity, Field, Sheep,
};
use crate::random::draw_below;
use crate::solve_markov::{
    admissible, at_centre, collide, knows_all, lemma_admissible_complete, reactions_known,
    successors_known, Fault,
};
use crate::utility::{Table, Utility, UtilityMap};
use rand::rngs::StdRng;
use vstd::prelude::*;

verus! {

/// The game may start from this placement: both animals stand on open
/// cells, and not on the same one.
pub open spec fn can_start(n: int, sheep: Sheep, dog: Dog) -> bool {
    admissible(n, sheep, dog) && !collide(sheep, dog)
}

/// The table has a value for every placement from which the game may start.
pub open spec fn starts_known(values: Table, n: int) -> bool {
    forall|s: (Sheep, Dog)| can_start(n, s.0, s.1) ==> #[trigger] values.contains_key(s)
}

/// What a dog at place `a` has to expect in all: the sum of the values over
/// the sheep at the places below `b` from which the game may start.
pub open spec fn aggregate(values: Table, n: int, a: int, b: int) -> Utility
    decreases b,
{
    if b <= 0 {
        Utility::Finite(0)
    } else {
        let sum = aggregate(values, n, a, b - 1);
        let sheep = cell_at(n, b - 1).as_sheep();
        let dog = cell_at(n, a).as_dog();
        if can_start(n, sheep, dog) {
            sum.plus(values[(sheep, dog)])
        } else {
            sum
        }
    }
}

/// The best start for the dog among the places below `a`, and what it has to
/// expect there in all: the first open cell whose sum is below that of every
/// open cell before it. Nothing where no place below `a` is open.
pub open spec fn best_start(values: Table, n: int, a: int) -> Option<
    (int, Utility),
>
    decreases a,
{
    if a <= 0 {
        None
    } else {
        let earlier = best_start(values, n, a - 1);
        let here = cell_at(n, a - 1);
        let sum = aggregate(values, n, a - 1, n * n);
        if !is_open(n, here.x as int, here.y as int) {
            earlier
        } else {
            match earlier {
                Some((_, least)) => if sum.is_below(least) {
                    Some((a - 1, sum))
                } else {
                    earlier
                },
                None => Some((a - 1, sum)),
            }
        }
    }
}

/// The best start among the places below `a` is an open cell; no open cell
/// below `a` has a smaller sum, and every open cell before it has a greater
/// one. There is a best start as soon as one of the places is open.
pub proof fn lemma_best_start(values: Table, n: int, a: int)
    requires
        valid_size(n),
        0 <= a <= n * n,
    ensures
        match best_start(values, n, a) {
            Some((place, least)) => {
                &&& 0 <= place < a
                &&& is_open(n, cell_at(n, place).x as int, cell_at(n, place).y as int)
                &&& least == aggregate(values, n, place, n * n)
                &&& forall|k: int|
                    0 <= k < a && is_open(n, cell_at(n, k).x as int, cell_at(n, k).y as int)
                        ==> !(#[trigger] aggregate(values, n, k, n * n)).is_below(least)
                &&& forall|k: int|
                    0 <= k < place && is_open(n, cell_at(n, k).x as int, cell_at(n, k).y as int)
                        ==> least.is_below(#[trigger] aggregate(values, n, k, n * n))
            },
            None => forall|k: int|
                0 <= k < a ==> !is_open(
                    n,
                    (#[trigger] cell_at(n, k)).x as int,
                    cell_at(n, k).y as int,
                ),
        },
    decreases a,
{
    if a > 0 {
        lemma_best_start(values, n, a - 1);
    }
}

/// The field with the dog where it should start: on the first open cell
/// from which, summed over all cells the sheep may start on, it has the
/// least to expect. The sheep is left in the top left corner. Fails when the
/// table lacks a placement from which the game may start.
pub fn find_best_starting_location(map: &UtilityMap) -> (start: Result<Field, Fault>)
    ensures
        match start {
            Ok(field) => {
                &&& starts_known(map@, map.side())
                &&& best_start(map@, map.side(), map.side() * map.side()) matches Some((place, _))
                &&& field.placed(
                    map.side(),
                    Sheep { x: 0, y: 0 },
                    cell_at(map.side(), place).as_dog(),
                )
                &&& is_open(map.side(), field.dog.x as int, field.dog.y as int)
            },
            Err(fault) => fault == Fault::MissingEntry && !starts_known(map@, map.side()),
        },
{
    let size: usize = map.size();
    let board = Field::sized(size);
    let cells = board.cells();
    let ghost n = size as int;
    assert(n * n > 0) by (nonlinear_arith)
        requires
            n >= 3,
    ;
    let mut best: Option<(usize, Utility)> = None;
    let mut a: usize = 0;
    while a < cells.len()
        invariant
            valid_size(n),
            n == map.side(),
            cells@ == all_cells(n),
            cells@.len() == n * n,
            a <= cells@.len(),
            match best {
                Some((place, least)) => best_start(map@, n, a as int) == Some(
                    (place as int, least),
                ),
                None => best_start(map@, n, a as int).is_none(),
            },
            forall|s: (Sheep, Dog)|
                can_start(n, s.0, s.1) && rank(n, s.1.x as int, s.1.y as int) < a
                    ==> #[trigger] map@.contains_key(s),
        decreases cells@.len() - a,
    {
        let dog = Dog::at(cells[a].x, cells[a].y);
        proof {
            lemma_cell_at(n, a as int);
            assert(cells@[a as int] == cell_at(n, a as int));
        }
        let mut sum = Utility::Finite(0);
        let mut b: usize = 0;
        while b < cells.len()
            invariant
                valid_size(n),
                n == map.side(),
                cells@ == all_cells(n),
                cells@.len() == n * n,
                a < cells@.len(),
                b <= cells@.len(),
                dog == cell_at(n, a as int).as_dog(),
                in_bounds(n, dog.x as int, dog.y as int),
                cells@[a as int] == cell_at(n, a as int),
                rank(n, dog.x as int, dog.y as int) == a,
                sum == aggregate(map@, n, a as int, b as int),
                forall|s: (Sheep, Dog)|
                    can_start(n, s.0, s.1) && (rank(n, s.1.x as int, s.1.y as int) < a || (s.1
                        == dog && rank(n, s.0.x as int, s.0.y as int) < b))
                        ==> #[trigger] map@.contains_key(s),
            decreases cells@.len() - b,
        {
            let sheep = Sheep::at(cells[b].x, cells[b].y);
            proof {
                lemma_cell_at(n, b as int);
                assert(cells@[b as int] == cell_at(n, b as int));
                assert forall|s: (Sheep, Dog)|
                    can_start(n, s.0, s.1) && s.1 == dog && rank(n, s.0.x as int, s.0.y as int)
                        == b implies s.0 == sheep by {
                    lemma_rank(n, s.0.x as int, s.0.y as int);
                }
            }
            let open = cells[a].entity != Entity::Fence && cells[b].entity != Entity::Fence;
            let met = sheep.x == dog.x && sheep.y == dog.y;
            proof {
                lemma_cell_at(n, a as int);
                assert(sheep == cell_at(n, b as int).as_sheep());
                assert(open == admissible(n, sheep, dog));
                assert((open && !met) == can_start(n, sheep, dog));
            }
            if open && !met {
                match map.get(sheep, dog) {
                    Some(value) => {
                        sum = sum.plus(value);
                    },
                    None => {
                        return Err(Fault::MissingEntry);
                    },
                }
            }
            b += 1;
        }
        proof {
            assert forall|s: (Sheep, Dog)|
                can_start(n, s.0, s.1) && rank(n, s.1.x as int, s.1.y as int) < a
                    + 1 implies #[trigger] map@.contains_key(s) by {
                lemma_rank(n, s.0.x as int, s.0.y as int);
                lemma_rank(n, s.1.x as int, s.1.y as int);
            }
        }
        if cells[a].entity != Entity::Fence {
            best = match best {
                Some((place, least)) => if sum.is_below(least) {
                    Some((a, sum))
                } else {
                    Some((place, least))
                },
                None => Some((a, sum)),
            };
        }
        a += 1;
    }
    proof {
        assert forall|s: (Sheep, Dog)| can_start(n, s.0, s.1) implies #[trigger] map@.contains_key(
            s,
        ) by {
            lemma_rank(n, s.1.x as int, s.1.y as int);
        }
        lemma_best_start(map@, n, n * n);
        lemma_centre_open(n);
        lemma_rank(n, centre(n), centre(n));
    }
    match best {
        Some((place, _)) => {
            proof {
                lemma_cell_at(n, place as int);
            }
            Ok(board.move_dog_to(cells[place]))
        },
        None => Err(Fault::MissingEntry),
    }
}

/// How a game ended.
#[derive(Debug, Clone, Copy, PartialEq, Eq, Structural)]
pub enum Outcome {
    /// The sheep reached the centre of the pen.
    Won,
    /// The animals met.
    Collided,
    /// The dog ran out of moves to make.
    Expired,
}

/// What a game reports: the moves the dog made, the number it had to expect
/// at the start, how the game ended, and where the animals stood then.
#[derive(Debug, Clone, Copy, PartialEq, Eq)]
pub struct EpisodeReport {
    pub steps: u64,
    pub expected: Utility,
    pub outcome: Outcome,
    pub sheep: Sheep,
    pub dog: Dog,
}

/// The number of moves after which a game that is still going on is given
/// up.
pub const STEP_BUDGET: u64 = 250;

/// By how much `made` exceeds `hoped`, rounded towards nothing after the
/// division by `count`; nothing where the number is too large to be held.
pub open spec fn excess(made: u64, hoped: u64, count: u64) -> Option<i64> {
    if made >= hoped {
        if (made - hoped) / (count as int) <= i64::MAX {
            Some(((made - hoped) / (count as int)) as i64)
        } else {
            None
        }
    } else {
        if (hoped - made) / (count as int) <= i64::MAX {
            Some((-((hoped - made) / (count as int))) as i64)
        } else {
            None
        }
    }
}

/// By how much `made` exceeds `hoped`, divided by `count`.
fn excess_of(made: u64, hoped: u64, count: u64) -> (mean: Option<i64>)
    requires
        count > 0,
    ensures
        mean == excess(made, hoped, count),
{
    if made >= hoped {
        let mean: u64 = (made - hoped) / count;
        if mean <= 0x7fff_ffff_ffff_ffff {
            Some(mean as i64)
        } else {
            None
        }
    } else {
        let mean: u64 = (hoped - made) / count;
        if mean <= 0x7fff_ffff_ffff_ffff {
            Some(-(mean as i64))
        } else {
            None
        }
    }
}

impl EpisodeReport {
    /// By how many millionths of a move the moves the dog made exceed those
    /// it had to expect. There is no such number where the expectation is
    /// infinite or the count of the moves made cannot be held in millionths.
    pub open spec fn spec_deviation(&self) -> Option<i64> {
        match (Utility::moves(self.steps), self.expected) {
            (Utility::Finite(made), Utility::Finite(hoped)) => excess(made, hoped, 1),
            _ => None,
        }
    }

    /// By how many millionths of a move the moves the dog made exceed those
    /// it had to expect.
    #[verifier::when_used_as_spec(spec_deviation)]
    pub fn deviation(&self) -> (apart: Option<i64>)
        ensures
            apart == self.spec_deviation(),
    {
        match (Utility::moves(self.steps), self.expected) {
            (Utility::Finite(made), Utility::Finite(hoped)) => excess_of(made, hoped, 1),
            _ => None,
        }
    }
}

/// The value the table gives the placement on the field.
pub open spec fn value_of(values: Table, field: Field) -> Utility {
    values[(field.sheep, field.dog)]
}

/// The table has a value for the placement on each of the fields.
pub open spec fn all_known(values: Table, fields: Seq<Field>) -> bool {
    forall|j: int|
        0 <= j < fields.len() ==> values.contains_key(
            ((#[trigger] fields[j]).sheep, fields[j].dog),
        )
}

/// `after` is what one move of the dog and the sheep's answer can make of
/// `before`.
pub open spec fn follows(before: Field, after: Field) -> bool {
    let moves = dog_moves(before.side(), before.sheep, before.dog, true);
    exists|i: int|
        0 <= i < moves.len() && answered(
            before.side(),
            before.sheep,
            (#[trigger] moves[i]).as_dog(),
            after,
        )
}

/// Place `i` holds the first of the fields whose value no other is below.
pub open spec fn is_best(values: Table, fields: Seq<Field>, i: int) -> bool {
    &&& 0 <= i < fields.len()
    &&& forall|j: int|
        0 <= j < fields.len() ==> !value_of(values, #[trigger] fields[j]).is_below(
            value_of(values, fields[i]),
        )
    &&& forall|j: int|
        0 <= j < i ==> value_of(values, fields[i]).is_below(value_of(values, #[trigger] fields[j]))
}

/// There is one best field: two places that both hold the first field of
/// least value are the same place.
pub proof fn lemma_best_unique(values: Table, fields: Seq<Field>, i: int, j: int)
    requires
        is_best(values, fields, i),
        is_best(values, fields, j),
    ensures
        i == j,
{
}

/// `outcomes` holds, for each of the dog's moves from `field` and in their
/// order, the field after that move and one step of the sheep in answer.
pub open spec fn tried(field: Field, outcomes: Seq<Field>) -> bool {
    let moves = dog_moves(field.side(), field.sheep, field.dog, true);
    &&& outcomes.len() == moves.len()
    &&& forall|j: int|
        0 <= j < outcomes.len() ==> answered(
            field.side(),
            field.sheep,
            moves[j].as_dog(),
            #[trigger] outcomes[j],
        )
}

/// `after` is what one turn of the game can make of `before` when the dog
/// goes by the table `values`: the dog tries each of its moves, the sheep
/// answers each with one step, the table has a value for every outcome, and
/// `after` is the first outcome of least value.
#[verifier::opaque]
pub open spec fn turn(values: Table, before: Field, after: Field) -> bool {
    exists|outcomes: Seq<Field>, i: int|
        tried(before, outcomes) && all_known(values, outcomes) && #[trigger] is_best(
            values,
            outcomes,
            i,
        ) && after == outcomes[i]
}

/// Among the fields that the dog's moves have led to, the place of the one
/// to go for: the first whose value no other is below. Fails with `NoMove`
/// where there is no field to pick from, with `MissingEntry` where the table
/// lacks the value of one of them.
pub fn pick_best(map: &UtilityMap, outcomes: &Vec<Field>) -> (choice: Result<usize, Fault>)
    ensures
        match choice {
            Ok(i) => all_known(map@, outcomes@) && is_best(map@, outcomes@, i as int),
            Err(Fault::NoMove) => outcomes@.len() == 0,
            Err(Fault::MissingEntry) => outcomes@.len() > 0 && !all_known(map@, outcomes@),
        },
{
    if outcomes.len() == 0 {
        return Err(Fault::NoMove);
    }
    let mut best: usize = 0;
    let mut least = match map.get(outcomes[0].sheep, outcomes[0].dog) {
        Some(value) => value,
        None => {
            return Err(Fault::MissingEntry);
        },
    };
    let mut j: usize = 1;
    while j < outcomes.len()
        invariant
            1 <= j <= outcomes@.len(),
            best < j,
            least == value_of(map@, outcomes@[best as int]),
            forall|k: int|
                0 <= k < j ==> map@.contains_key(
                    ((#[trigger] outcomes@[k]).sheep, outcomes@[k].dog),
                ),
            forall|k: int|
                0 <= k < j ==> !value_of(map@, #[trigger] outcomes@[k]).is_below(least),
            forall|k: int|
                0 <= k < best ==> least.is_below(value_of(map@, #[trigger] outcomes@[k])),
        decreases outcomes@.len() - j,
    {
        match map.get(outcomes[j].sheep, outcomes[j].dog) {
            Some(value) => {
                if value.is_below(least) {
                    best = j;
                    least = value;
                }
            },
            None => {
                return Err(Fault::MissingEntry);
            },
        }
        j += 1;
    }
    Ok(best)
}

/// For each of the dog's moves, in order, the field after that move and one
/// step of the sheep in answer, drawn from `rng`.
pub fn try_moves(field: &Field, rng: &mut StdRng) -> (outcomes: Vec<Field>)
    requires
        field.wf(),
    ensures
        tried(*field, outcomes@),
{
    let ghost n = field.side();
    let moves = field.get_dog_moves();
    let mut outcomes: Vec<Field> = Vec::new();
    let mut i: usize = 0;
    while i < moves.len()
        invariant
            field.wf(),
            n == field.side(),
            moves@ == dog_moves(n, field.sheep, field.dog, true),
            i <= moves@.len(),
            outcomes@.len() == i,
            forall|j: int|
                0 <= j < i ==> answered(
                    n,
                    field.sheep,
                    moves@[j].as_dog(),
                    #[trigger] outcomes@[j],
                ),
        decreases moves@.len() - i,
    {
        proof {
            assert(moves@.contains(moves@[i as int]));
            lemma_dog_moves_legal(n, field.sheep, field.dog, true, moves@[i as int]);
        }
        let mut after = field.move_dog_to(moves[i]);
        after.move_sheep(rng);
        outcomes.push(after);
        i += 1;
    }
    outcomes
}

/// Each of the fields that the dog's moves have led to follows from the
/// field before, and is valid if that one was.
pub proof fn lemma_tried_follow(field: Field, outcomes: Seq<Field>, i: int)
    requires
        field.wf(),
        tried(field, outcomes),
        0 <= i < outcomes.len(),
    ensures
        follows(field, outcomes[i]),
        field.valid() ==> outcomes[i].valid(),
{
    let n = field.side();
    let moves = dog_moves(n, field.sheep, field.dog, true);
    let target = moves[i].as_dog();
    assert(answered(n, field.sheep, target, outcomes[i]));
    let k = choose|k: int|
        0 <= k < sheep_reactions(n, field.sheep, target).len() && outcomes[i].placed(
            n,
            (#[trigger] sheep_reactions(n, field.sheep, target)[k]).as_sheep(),
            target,
        );
    let cell = sheep_reactions(n, field.sheep, target)[k];
    assert(moves.contains(moves[i]));
    lemma_dog_moves_legal(n, field.sheep, field.dog, true, moves[i]);
    assert(sheep_reactions(n, field.sheep, target).contains(cell));
    lemma_reactions_legal(n, field.sheep, target, cell);
    if cell.as_sheep() != field.sheep {
        lemma_sheep_moves_legal(n, field.sheep, cell);
    }
}

/// One turn of the game: the dog tries each of its moves, sees for each one
/// step that the sheep takes in answer, drawn from `rng`, and goes for the
/// first move whose outcome has the least value.
///
/// Fails with `NoMove` when the dog has no move, and with `MissingEntry`
/// when the table lacks the value of one of the outcomes. It does not fail
/// when the dog has a move and the table holds every placement that one
/// turn can lead to.
pub fn advance(map: &UtilityMap, field: &Field, rng: &mut StdRng) -> (next: Result<Field, Fault>)
    requires
        field.wf(),
    ensures
        match next {
            Ok(after) => {
                &&& turn(map@, *field, after)
                &&& follows(*field, after)
                &&& field.valid() ==> after.valid()
            },
            Err(Fault::NoMove) => dog_moves(field.side(), field.sheep, field.dog, true).len() == 0,
            Err(Fault::MissingEntry) => !successors_known(
                map@,
                field.side(),
                field.sheep,
                field.dog,
            ),
        },
        successors_known(map@, field.side(), field.sheep, field.dog) && dog_moves(
            field.side(),
            field.sheep,
            field.dog,
            true,
        ).len() > 0 ==> next is Ok,
        dog_moves(field.side(), field.sheep, field.dog, true).len() == 0 ==> next == Err::<
            Field,
            Fault,
        >(Fault::NoMove),
{
    let ghost n = field.side();
    let ghost moves = dog_moves(n, field.sheep, field.dog, true);
    let mut outcomes = try_moves(field, rng);
    let ghost all = outcomes@;
    match pick_best(map, &outcomes) {
        Ok(best) => {
            proof {
                lemma_tried_follow(*field, all, best as int);
                assert(is_best(map@, all, best as int));
                assert(turn(map@, *field, all[best as int])) by {
                    reveal(turn);
                }
            }
            Ok(outcomes.swap_remove(best))
        },
        Err(fault) => {
            proof {
                if fault == Fault::MissingEntry {
                    let j = choose|j: int|
                        0 <= j < all.len() && !map@.contains_key(
                            ((#[trigger] all[j]).sheep, all[j].dog),
                        );
                    let target = moves[j].as_dog();
                    assert(answered(n, field.sheep, target, all[j]));
                    let k = choose|k: int|
                        0 <= k < sheep_reactions(n, field.sheep, target).len() && all[j].placed(
                            n,
                            (#[trigger] sheep_reactions(n, field.sheep, target)[k]).as_sheep(),
                            target,
                        );
                    assert(!reactions_known(map@, n, field.sheep, target));
                }
            }
            Err(fault)
        },
    }
}

/// The report fits the way games end: a game is given up once the dog has
/// made more moves than `STEP_BUDGET`; before that it ends only with the
/// sheep in the pen, which is a win, or with the animals on one cell.
pub open spec fn ended(n: int, report: EpisodeReport) -> bool {
    &&& admissible(n, report.sheep, report.dog)
    &&& report.steps <= STEP_BUDGET + 1
    &&& report.outcome == if report.steps > STEP_BUDGET {
        Outcome::Expired
    } else if at_centre(n, report.sheep) {
        Outcome::Won
    } else {
        Outcome::Collided
    }
    &&& report.steps <= STEP_BUDGET ==> at_centre(n, report.sheep) || collide(
        report.sheep,
        report.dog,
    )
}

/// `trace` is a game played from `start` by the table `values`, field after
/// field: each comes from the one before by one turn, and none but the last
/// has the sheep in the pen or the animals on one cell.
pub open spec fn played(values: Table, start: Field, trace: Seq<Field>) -> bool {
    &&& trace.len() >= 1
    &&& trace[0] == start
    &&& forall|k: int|
        0 <= k < trace.len() - 1 ==> !(#[trigger] trace[k]).at_goal() && !trace[k].collided()
            && turn(values, trace[k], trace[k + 1])
}

/// `trace` is a game played from `start` that has not ended and has not yet
/// run out of moves: the dog is to move from its last field.
pub open spec fn in_play(values: Table, start: Field, trace: Seq<Field>) -> bool {
    &&& played(values, start, trace)
    &&& trace.len() <= STEP_BUDGET + 1
    &&& !trace.last().at_goal()
    &&& !trace.last().collided()
}

/// A game played from `start` can come to a field on which the dog is to
/// move and has no move.
pub open spec fn can_get_stuck(values: Table, start: Field) -> bool {
    exists|trace: Seq<Field>| #[trigger]
        in_play(values, start, trace) && dog_moves(
            start.side(),
            trace.last().sheep,
            trace.last().dog,
            true,
        ).len() == 0
}

/// The table lacks the value of `start`, or a game played from `start` can
/// come to a field on which the dog is to move and the table lacks the value
/// of a placement that the move can lead to.
pub open spec fn can_miss(values: Table, start: Field) -> bool {
    ||| !values.contains_key((start.sheep, start.dog))
    ||| exists|trace: Seq<Field>| #[trigger]
        in_play(values, start, trace) && !successors_known(
            values,
            start.side(),
            trace.last().sheep,
            trace.last().dog,
        )
}

/// `told` is the report of a game played from `start` with the table
/// `values`: it names the value of `start`, counts the turns of a game
/// played from there, and says where and how that game ended.
pub open spec fn reported(values: Table, start: Field, told: EpisodeReport) -> bool {
    &&& values.contains_key((start.sheep, start.dog))
    &&& told.expected == values[(start.sheep, start.dog)]
    &&& ended(start.side(), told)
    &&& exists|trace: Seq<Field>| #[trigger]
        played(values, start, trace) && trace.len() == told.steps + 1 && trace.last().sheep
            == told.sheep && trace.last().dog == told.dog
    &&& start.at_goal() || start.collided() ==> told.steps == 0
}

/// A game that is reported won was played from `start`, took no more moves
/// than `STEP_BUDGET`, and ended with the sheep in the pen; on no field before
/// the last did the animals stand on one cell.
pub proof fn lemma_won_game(values: Table, start: Field, told: EpisodeReport)
    requires
        reported(values, start, told),
        told.outcome == Outcome::Won,
    ensures
        told.steps <= STEP_BUDGET,
        at_centre(start.side(), told.sheep),
        exists|trace: Seq<Field>| #[trigger]
            played(values, start, trace) && trace.len() == told.steps + 1 && trace.last().sheep
                == told.sheep && trace.last().dog == told.dog && forall|k: int|
                0 <= k < trace.len() - 1 ==> !(#[trigger] trace[k]).collided(),
{
    let trace = choose|trace: Seq<Field>| #[trigger]
        played(values, start, trace) && trace.len() == told.steps + 1 && trace.last().sheep
            == told.sheep && trace.last().dog == told.dog;
    assert(played(values, start, trace));
}

/// What `run_episode` hands back for a game from `start` by the table
/// `values`.
///
/// A report is that of a game played from `start`. The game fails with
/// `MissingEntry` only where the table lacks the value of `start` or of a
/// placement that a turn of a game from `start` can lead to, and with
/// `NoMove` only where a game from `start` can box the dog in. A table
/// without the value of `start` always fails the game; a start at which the
/// game is over, and whose value the table has, never does; a start at which
/// the game goes on and the dog is boxed in always fails it with `NoMove`.
pub open spec fn episode_result(
    values: Table,
    start: Field,
    result: Result<EpisodeReport, Fault>,
) -> bool {
    &&& match result {
        Ok(told) => reported(values, start, told),
        Err(Fault::MissingEntry) => can_miss(values, start) && !knows_all(values, start.side()),
        Err(Fault::NoMove) => can_get_stuck(values, start),
    }
    &&& !values.contains_key((start.sheep, start.dog)) ==> result == Err::<EpisodeReport, Fault>(
        Fault::MissingEntry,
    )
    &&& values.contains_key((start.sheep, start.dog)) && (start.at_goal() || start.collided())
        ==> result is Ok
    &&& values.contains_key((start.sheep, start.dog)) && !start.at_goal() && !start.collided()
        && dog_moves(start.side(), start.sheep, start.dog, true).len() == 0 ==> result == Err::<
        EpisodeReport,
        Fault,
    >(Fault::NoMove)
}

/// A turn needs a move of the dog.
pub proof fn lemma_turn_needs_a_move(values: Table, before: Field, after: Field)
    requires
        turn(values, before, after),
    ensures
        dog_moves(before.side(), before.sheep, before.dog, true).len() > 0,
{
    reveal(turn);
}

/// A game that has not ended goes on by one turn.
proof fn lemma_played_on(values: Table, start: Field, trace: Seq<Field>, after: Field)
    requires
        played(values, start, trace),
        !trace.last().at_goal(),
        !trace.last().collided(),
        turn(values, trace.last(), after),
    ensures
        played(values, start, trace.push(after)),
{
    let longer = trace.push(after);
    assert forall|k: int| 0 <= k < longer.len() - 1 implies !(#[trigger] longer[k]).at_goal()
        && !longer[k].collided() && turn(values, longer[k], longer[k + 1]) by {
        if k < trace.len() - 1 {
            assert(longer[k] == trace[k]);
            assert(longer[k + 1] == trace[k + 1]);
        } else {
            assert(longer[k] == trace.last());
            assert(longer[k + 1] == after);
        }
    }
}

/// A game from a start on which the dog has no move has no turn.
proof fn lemma_boxed_in_at_start(values: Table, start: Field, trace: Seq<Field>)
    requires
        played(values, start, trace),
        dog_moves(start.side(), start.sheep, start.dog, true).len() == 0,
    ensures
        trace.len() == 1,
{
    if trace.len() > 1 {
        assert(turn(values, trace[0], trace[1]));
        lemma_turn_needs_a_move(values, trace[0], trace[1]);
    }
}

/// The report of a game that was played is what `run_episode` may hand back.
proof fn lemma_game_reported(values: Table, start: Field, trace: Seq<Field>, told: EpisodeReport)
    requires
        played(values, start, trace),
        trace.len() == told.steps + 1,
        trace.last().sheep == told.sheep,
        trace.last().dog == told.dog,
        values.contains_key((start.sheep, start.dog)),
        told.expected == values[(start.sheep, start.dog)],
        ended(start.side(), told),
    ensures
        episode_result(values, start, Ok::<EpisodeReport, Fault>(told)),
{
    if trace.len() > 1 {
        assert(!trace[0].at_goal() && !trace[0].collided());
    }
    if dog_moves(start.side(), start.sheep, start.dog, true).len() == 0 {
        lemma_boxed_in_at_start(values, start, trace);
    }
    assert(reported(values, start, told));
}

/// A game that boxes the dog in may fail with `NoMove`.
proof fn lemma_game_stuck(values: Table, start: Field, trace: Seq<Field>)
    requires
        in_play(values, start, trace),
        values.contains_key((start.sheep, start.dog)),
        dog_moves(start.side(), trace.last().sheep, trace.last().dog, true).len() == 0,
    ensures
        episode_result(values, start, Err::<EpisodeReport, Fault>(Fault::NoMove)),
{
    if trace.len() > 1 {
        assert(!trace[0].at_goal() && !trace[0].collided());
    }
    assert(can_get_stuck(values, start));
}

/// A game that comes to a turn for which the table lacks a value may fail
/// with `MissingEntry`.
proof fn lemma_game_missing(values: Table, start: Field, trace: Seq<Field>)
    requires
        in_play(values, start, trace),
        values.contains_key((start.sheep, start.dog)),
        trace.last().wf(),
        trace.last().valid(),
        trace.last().side() == start.side(),
        !successors_known(values, start.side(), trace.last().sheep, trace.last().dog),
    ensures
        episode_result(values, start, Err::<EpisodeReport, Fault>(Fault::MissingEntry)),
{
    let n = start.side();
    if trace.len() > 1 {
        assert(!trace[0].at_goal() && !trace[0].collided());
    }
    if dog_moves(n, start.sheep, start.dog, true).len() == 0 {
        lemma_boxed_in_at_start(values, start, trace);
    }
    if knows_all(values, n) {
        lemma_admissible_complete(values, n);
        assert(values.contains_key((trace.last().sheep, trace.last().dog)));
    }
    assert(can_miss(values, start));
}

/// Plays one game from `start`: turn by turn as `advance` does it, until the
/// sheep is in the pen, the animals meet, or the dog has made more moves
/// than `STEP_BUDGET`. The sheep's steps are drawn from `rng`.
///
/// Fails with `MissingEntry` when the table lacks the value of `start` or a
/// value that a turn needs, and with `NoMove` when the dog is boxed in.
pub fn run_episode(map: &UtilityMap, start: Field, rng: &mut StdRng) -> (report: Result<
    EpisodeReport,
    Fault,
>)
    requires
        start.wf(),
        start.valid(),
    ensures
        episode_result(map@, start, report),
{
    let ghost n = start.side();
    let expected = match map.get(start.sheep, start.dog) {
        Some(value) => value,
        None => {
            return Err(Fault::MissingEntry);
        },
    };
    let ghost mut trace = seq![start];
    let mut game = start;
    let mut steps: u64 = 0;
    while steps <= STEP_BUDGET
        invariant
            game.wf(),
            game.valid(),
            game.side() == n,
            start.side() == n,
            map@.contains_key((start.sheep, start.dog)),
            expected == map@[(start.sheep, start.dog)],
            steps <= STEP_BUDGET + 1,
            played(map@, start, trace),
            trace.len() == steps + 1,
            trace.last() == game,
        decreases STEP_BUDGET + 1 - steps,
    {
        if game.dog_won() {
            let told = EpisodeReport {
                steps,
                expected,
                outcome: Outcome::Won,
                sheep: game.sheep,
                dog: game.dog,
            };
            proof {
                lemma_game_reported(map@, start, trace, told);
            }
            return Ok(told);
        }
        if game.sheep_won() {
            let told = EpisodeReport {
                steps,
                expected,
                outcome: Outcome::Collided,
                sheep: game.sheep,
                dog: game.dog,
            };
            proof {
                lemma_game_reported(map@, start, trace, told);
            }
            return Ok(told);
        }
        game = match advance(map, &game, rng) {
            Ok(after) => after,
            Err(fault) => {
                proof {
                    match fault {
                        Fault::NoMove => lemma_game_stuck(map@, start, trace),
                        Fault::MissingEntry => lemma_game_missing(map@, start, trace),
                    }
                }
                return Err(fault);
            },
        };
        steps += 1;
        proof {
            lemma_played_on(map@, start, trace, game);
            trace = trace.push(game);
        }
    }
    let told = EpisodeReport {
        steps,
        expected,
        outcome: Outcome::Expired,
        sheep: game.sheep,
        dog: game.dog,
    };
    proof {
        lemma_game_reported(map@, start, trace, told);
    }
    Ok(told)
}

/// `start` is a field from which `run_simulation` may start a game: the dog
/// stands where `best_start` puts it, the sheep on an open cell.
pub open spec fn chosen_start(values: Table, n: int, start: Field) -> bool {
    &&& best_start(values, n, n * n) matches Some((place, _))
    &&& start.placed(n, start.sheep, cell_at(n, place).as_dog())
    &&& start.valid()
}

/// What `run_simulation` hands back for the table `values` of a field of
/// side `n`: what `run_episode` hands back for one of the starts that
/// `run_simulation` may choose. Where the table lacks the value of a
/// placement from which a game may start, no start is chosen and the game
/// fails with `MissingEntry`.
pub open spec fn simulated(values: Table, n: int, result: Result<EpisodeReport, Fault>) -> bool {
    if starts_known(values, n) {
        exists|start: Field| #[trigger]
            chosen_start(values, n, start) && episode_result(values, start, result)
    } else {
        result == Err::<EpisodeReport, Fault>(Fault::MissingEntry)
    }
}

/// Plays one game from a start of the library's choosing: the dog where
/// `find_best_starting_location` puts it, the sheep on an open cell drawn
/// from `rng`, each as likely as the others.
///
/// Fails as `find_best_starting_location` and `run_episode` do.
pub fn run_simulation(map: &UtilityMap, rng: &mut StdRng) -> (report: Result<
    EpisodeReport,
    Fault,
>)
    ensures
        simulated(map@, map.side(), report),
        report == Err::<EpisodeReport, Fault>(Fault::MissingEntry) ==> !knows_all(
            map@,
            map.side(),
        ),
{
    let dog_placed = match find_best_starting_location(map) {
        Ok(field) => field,
        Err(fault) => {
            return Err(fault);
        },
    };
    let cells = dog_placed.open_cells();
    let cell = cells[draw_below(rng, cells.len())];
    proof {
        assert(cells@.contains(cell));
        lemma_open_cells(map.side(), cell);
    }
    let start = dog_placed.move_sheep_to(cell);
    let report = run_episode(map, start, rng);
    proof {
        assert(chosen_start(map@, map.side(), start));
    }
    report
}

/// The tally of a run of games: how many were played, how each of them
/// ended, and, summed over the games that were won, the moves the dog made
/// and the moves it had to expect.
#[derive(Debug, Clone, Copy, PartialEq, Eq)]
pub struct BatchReport {
    pub episodes: u64,
    pub won: u64,
    pub collided: u64,
    pub expired: u64,
    pub failed: u64,
    pub won_moves: Utility,
    pub won_expected: Utility,
}

impl BatchReport {
    /// Every game counted is counted under exactly one ending.
    pub open spec fn tallied(&self) -> bool {
        self.won + self.collided + self.expired + self.failed == self.episodes
    }

    /// The tally before the first game.
    pub open spec fn empty() -> BatchReport {
        BatchReport {
            episodes: 0,
            won: 0,
            collided: 0,
            expired: 0,
            failed: 0,
            won_moves: Utility::Finite(0),
            won_expected: Utility::Finite(0),
        }
    }

    /// The tally with one more game entered.
    pub open spec fn with_result(self, result: Result<EpisodeReport, Fault>) -> BatchReport {
        let played = (self.episodes + 1) as u64;
        match result {
            Ok(told) => match told.outcome {
                Outcome::Won => BatchReport {
                    episodes: played,
                    won: (self.won + 1) as u64,
                    won_moves: self.won_moves.plus(Utility::moves(told.steps)),
                    won_expected: self.won_expected.plus(told.expected),
                    ..self
                },
                Outcome::Collided => BatchReport {
                    episodes: played,
                    collided: (self.collided + 1) as u64,
                    ..self
                },
                Outcome::Expired => BatchReport {
                    episodes: played,
                    expired: (self.expired + 1) as u64,
                    ..self
                },
            },
            Err(_) => BatchReport { episodes: played, failed: (self.failed + 1) as u64, ..self },
        }
    }

    /// By how much the dog's moves exceeded its expectation, on average over
    /// the games that were won, in millionths of a move and rounded towards
    /// nothing. There is no such number where no game was won, where one of
    /// the two sums is infinite, or where the mean is too large to be held.
    pub open spec fn spec_mean_deviation(&self) -> Option<i64> {
        match (self.won_moves, self.won_expected) {
            (Utility::Finite(made), Utility::Finite(hoped)) => if self.won == 0 {
                None
            } else {
                excess(made, hoped, self.won)
            },
            _ => None,
        }
    }

    /// The games won in a million games played, rounded down; nothing
    /// where no game was played.
    pub open spec fn spec_win_rate(&self) -> Option<u64> {
        if self.episodes == 0 {
            None
        } else {
            Some((self.won * 1_000_000 / (self.episodes as int)) as u64)
        }
    }

    /// The games given up in a million games played, rounded down; nothing
    /// where no game was played.
    pub open spec fn spec_expiration_rate(&self) -> Option<u64> {
        if self.episodes == 0 {
            None
        } else {
            Some((self.expired * 1_000_000 / (self.episodes as int)) as u64)
        }
    }

    /// The tally before the first game.
    pub fn new() -> (tally: BatchReport)
        ensures
            tally == (BatchReport {
                episodes: 0,
                won: 0,
                collided: 0,
                expired: 0,
                failed: 0,
                won_moves: Utility::Finite(0),
                won_expected: Utility::Finite(0),
            }),
            tally.tallied(),
    {
        BatchReport {
            episodes: 0,
            won: 0,
            collided: 0,
            expired: 0,
            failed: 0,
            won_moves: Utility::Finite(0),
            won_expected: Utility::Finite(0),
        }
    }

    /// Enters the result of one game.
    pub fn record(&mut self, result: &Result<EpisodeReport, Fault>)
        requires
            old(self).tallied(),
            old(self).episodes < u64::MAX,
        ensures
            *final(self) == old(self).with_result(*result),
            final(self).tallied(),
    {
        self.episodes = self.episodes + 1;
        match result {
            Ok(told) => match told.outcome {
                Outcome::Won => {
                    self.won = self.won + 1;
                    self.won_moves = self.won_moves.plus(Utility::moves(told.steps));
                    self.won_expected = self.won_expected.plus(told.expected);
                },
                Outcome::Collided => {
                    self.collided = self.collided + 1;
                },
                Outcome::Expired => {
                    self.expired = self.expired + 1;
                },
            },
            Err(_) => {
                self.failed = self.failed + 1;
            },
        }
    }

    /// The mean over the games won of the moves made less the moves
    /// expected, in millionths of a move.
    #[verifier::when_used_as_spec(spec_mean_deviation)]
    pub fn mean_deviation(&self) -> (mean: Option<i64>)
        ensures
            mean == self.spec_mean_deviation(),
    {
        match (self.won_moves, self.won_expected) {
            (Utility::Finite(made), Utility::Finite(hoped)) => {
                if self.won == 0 {
                    None
                } else {
                    excess_of(made, hoped, self.won)
                }
            },
            _ => None,
        }
    }

    /// The games won in a million games played.
    #[verifier::when_used_as_spec(spec_win_rate)]
    pub fn win_rate(&self) -> (rate: Option<u64>)
        requires
            self.tallied(),
        ensures
            rate == self.spec_win_rate(),
    {
        share_of(self.won, self.episodes)
    }

    /// The games given up in a million games played.
    #[verifier::when_used_as_spec(spec_expiration_rate)]
    pub fn expiration_rate(&self) -> (rate: Option<u64>)
        requires
            self.tallied(),
        ensures
            rate == self.spec_expiration_rate(),
    {
        share_of(self.expired, self.episodes)
    }
}

/// `part` in millionths of `whole`, rounded down; nothing where `whole` is
/// nothing.
fn share_of(part: u64, whole: u64) -> (rate: Option<u64>)
    requires
        part <= whole,
    ensures
        rate == if whole == 0 {
            None
        } else {
            Some((part * 1_000_000 / (whole as int)) as u64)
        },
{
    if whole == 0 {
        None
    } else {
        let scaled: u128 = part as u128 * 1_000_000;
        let rate: u128 = scaled / (whole as u128);
        assert(rate <= 1_000_000) by (nonlinear_arith)
            requires
                rate == scaled / (whole as u128),
                scaled == part * 1_000_000,
                part <= whole,
                whole > 0,
        ;
        Some(rate as u64)
    }
}

/// The tally of the results of a run of games, entered one after the other.
pub open spec fn tally_of(results: Seq<Result<EpisodeReport, Fault>>) -> BatchReport
    decreases results.len(),
{
    if results.len() == 0 {
        BatchReport::empty()
    } else {
        tally_of(results.drop_last()).with_result(results.last())
    }
}

/// `tally` is the tally of `episodes` games, each played as `run_simulation`
/// plays one by the table `values` of a field of side `n`.
pub open spec fn tallies(values: Table, n: int, episodes: u64, tally: BatchReport) -> bool {
    exists|results: Seq<Result<EpisodeReport, Fault>>|
        results.len() == episodes && tally == #[trigger] tally_of(results) && forall|i: int|
            0 <= i < results.len() ==> simulated(values, n, #[trigger] results[i])
}

/// Plays `episodes` games, each as `run_simulation` plays one, and tallies
/// how they ended. A game that fails is counted as failed.
pub fn run_simulations(map: &UtilityMap, episodes: u64, rng: &mut StdRng) -> (tally: BatchReport)
    ensures
        tallies(map@, map.side(), episodes, tally),
        tally.tallied(),
        tally.episodes == episodes,
        !starts_known(map@, map.side()) ==> tally.failed == episodes,
{
    let mut tally = BatchReport::new();
    let ghost mut results = Seq::<Result<EpisodeReport, Fault>>::empty();
    while tally.episodes < episodes
        invariant
            tally.tallied(),
            tally.episodes <= episodes,
            !starts_known(map@, map.side()) ==> tally.failed == tally.episodes,
            results.len() == tally.episodes,
            tally == tally_of(results),
            forall|i: int|
                0 <= i < results.len() ==> simulated(map@, map.side(), #[trigger] results[i]),
        decreases episodes - tally.episodes,
    {
        let result = run_simulation(map, rng);
        tally.record(&result);
        proof {
            assert(results.push(result).drop_last() =~= results);
            results = results.push(result);
        }
    }
    tally
}

} // verus!
