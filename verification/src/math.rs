//! Distances on the field, found by searching breadth first: how many steps
//! the sheep is from the pen, and how many moves the dog is from the sheep.

use crate::field::{
    centre, distance, dog_moves, gap, in_bounds, laid_out, lemma_dog_moves_legal,
    lemma_sheep_moves_legal, sheep_moves, valid_size, Cell, Dog, Entity, Field, Sheep,
    DEFAULT_SIZE,
};
use crate::fifo::{queue_add, queue_new, queue_remove, queue_size, queued};
use std::collections::HashMap;
use vstd::prelude::*;

verus! {

broadcast use vstd::std_specs::hash::group_hash_axioms;

/// What a search looks for: the sheep looks for the pen, the dog for the
/// sheep where it stands.
#[derive(Debug, Clone, Copy, PartialEq, Eq, Structural)]
pub enum Search {
    Pen,
    SheepAt(Sheep),
}

/// The mark on the cells a search walks over: that of the animal that walks.
pub open spec fn walker(search: Search) -> Entity {
    match search {
        Search::Pen => Entity::Sheep,
        Search::SheepAt(_) => Entity::Dog,
    }
}

/// The steps from a cell to the centre of the pen, along rows and columns.
pub open spec fn to_centre(n: int, c: Cell) -> int {
    gap(c.x as int, centre(n)) + gap(c.y as int, centre(n))
}

/// The square of the straight distance from a cell to the sheep.
pub open spec fn squared(c: Cell, sheep: Sheep) -> int {
    (c.x - sheep.x) * (c.x - sheep.x) + (c.y - sheep.y) * (c.y - sheep.y)
}

/// The cells one step from `u`, in the order in which they are tried.
pub open spec fn steps(n: int, search: Search, u: Cell) -> Seq<Cell> {
    match search {
        Search::Pen => sheep_moves(n, u.as_sheep()),
        Search::SheepAt(sheep) => dog_moves(n, sheep, u.as_dog(), false),
    }
}

/// The cell is what the search looks for.
pub open spec fn hit(n: int, search: Search, c: Cell) -> bool {
    match search {
        Search::Pen => c.x == centre(n) && c.y == centre(n),
        Search::SheepAt(sheep) => c.x == sheep.x && c.y == sheep.y,
    }
}

/// The search goes on from `u` to `c`. The sheep's search goes on to a cell
/// closer to the centre, and anywhere from a cell less than five steps from
/// it. The dog's search goes on to a cell closer to the sheep, and to any
/// cell less than five steps from the centre.
pub open spec fn allowed(n: int, search: Search, u: Cell, c: Cell) -> bool {
    match search {
        Search::Pen => to_centre(n, c) < to_centre(n, u) || to_centre(n, u) < 5,
        Search::SheepAt(sheep) => squared(c, sheep) < squared(u, sheep) || to_centre(n, c) < 5,
    }
}

/// The search walks from `u` to `c`: `c` is one step from `u`, is not what
/// the search looks for, and the search goes on to it.
pub open spec fn edge(n: int, search: Search, u: Cell, c: Cell) -> bool {
    steps(n, search, u).contains(c) && !hit(n, search, c) && allowed(n, search, u, c)
}

/// The search can walk from `start` to `v` in `k` steps.
pub open spec fn reach(n: int, search: Search, start: Cell, v: Cell, k: nat) -> bool
    decreases k,
{
    if k == 0 {
        v == start
    } else {
        exists|p: Cell|
            reach(n, search, start, p, (k - 1) as nat) && #[trigger] edge(n, search, p, v)
    }
}

/// What the search looks for lies `d` steps from `start`: one step from a
/// cell to which the search can walk in `d - 1`.
pub open spec fn found(n: int, search: Search, start: Cell, d: nat) -> bool {
    d >= 1 && exists|u: Cell, i: int|
        reach(n, search, start, u, (d - 1) as nat) && 0 <= i < steps(n, search, u).len() && hit(
            n,
            search,
            #[trigger] steps(n, search, u)[i],
        )
}

/// `r` is the least number of steps in which the search finds what it looks
/// for, or nothing if it never does.
pub open spec fn is_shortest(n: int, search: Search, start: Cell, r: nat) -> bool {
    &&& r > 0 ==> found(n, search, start, r)
    &&& forall|d: nat| 0 < d < r ==> !found(n, search, start, d)
    &&& r == 0 ==> forall|d: nat| !found(n, search, start, d)
}

/// A search has one result: two numbers that are both the least number of
/// steps are the same number.
pub proof fn lemma_shortest_unique(n: int, search: Search, start: Cell, r: nat, s: nat)
    requires
        is_shortest(n, search, start, r),
        is_shortest(n, search, start, s),
    ensures
        r == s,
{
}

/// The cells one step from `u`.
fn steps_from(board: &Field, search: Search, u: Cell) -> (cells: Vec<Cell>)
    requires
        laid_out(board.grid@),
        in_bounds(board.side(), u.x as int, u.y as int),
    ensures
        cells@ == steps(board.side(), search, u),
{
    match search {
        Search::Pen => board.sheep_moves_from(Sheep::at(u.x, u.y)),
        Search::SheepAt(sheep) => board.dog_moves_from(sheep, Dog::at(u.x, u.y), false),
    }
}

/// The steps from a cell of the field to the centre.
fn centre_distance(board: &Field, c: Cell) -> (d: i32)
    requires
        laid_out(board.grid@),
        in_bounds(board.side(), c.x as int, c.y as int),
    ensures
        d == to_centre(board.side(), c),
{
    let m: i32 = ((board.size() - 1) / 2) as i32;
    distance(c.x, m) + distance(c.y, m)
}

/// The square of the straight distance from a cell to the sheep.
fn squared_distance(c: Cell, sheep: Sheep) -> (d: i128)
    ensures
        d == squared(c, sheep),
{
    let dx: i128 = c.x as i128 - sheep.x as i128;
    let dy: i128 = c.y as i128 - sheep.y as i128;
    assert(0 <= dx * dx <= 0x1_0000_0000_0000_0000 && 0 <= dy * dy <= 0x1_0000_0000_0000_0000)
        by (nonlinear_arith)
        requires
            -0x1_0000_0000 <= dx <= 0x1_0000_0000,
            -0x1_0000_0000 <= dy <= 0x1_0000_0000,
    ;
    dx * dx + dy * dy
}

/// Whether the cell is what the search looks for.
fn hits(board: &Field, search: Search, c: Cell) -> (yes: bool)
    requires
        laid_out(board.grid@),
    ensures
        yes == hit(board.side(), search, c),
{
    match search {
        Search::Pen => {
            let m: i32 = ((board.size() - 1) / 2) as i32;
            c.x == m && c.y == m
        },
        Search::SheepAt(sheep) => c.x == sheep.x && c.y == sheep.y,
    }
}

/// Whether the search goes on from `u` to `c`.
fn goes_on(board: &Field, search: Search, u: Cell, c: Cell) -> (yes: bool)
    requires
        laid_out(board.grid@),
        in_bounds(board.side(), u.x as int, u.y as int),
        in_bounds(board.side(), c.x as int, c.y as int),
    ensures
        yes == allowed(board.side(), search, u, c),
{
    match search {
        Search::Pen => {
            let from: i32 = centre_distance(board, u);
            centre_distance(board, c) < from || from < 5
        },
        Search::SheepAt(sheep) => squared_distance(c, sheep) < squared_distance(u, sheep)
            || centre_distance(board, c) < 5,
    }
}

/// The number under which a search files a cell.
spec fn code(c: Cell) -> u64 {
    (c.x * 0x1_0000_0000 + c.y) as u64
}

/// The cell that a search has filed under `k`, marked with `mark`.
spec fn node(k: u64, mark: Entity) -> Cell {
    Cell { x: (k / 0x1_0000_0000) as i32, y: (k % 0x1_0000_0000) as i32, entity: mark }
}

/// The number `k` is that of a cell of the field of side `n`.
spec fn is_node(n: int, k: u64) -> bool {
    0 <= k / 0x1_0000_0000 < n && 0 <= k % 0x1_0000_0000 < n
}

/// Cells of the field and their numbers stand for each other.
proof fn lemma_codes(n: int, mark: Entity)
    requires
        valid_size(n),
    ensures
        forall|k: u64|
            is_node(n, k) ==> code(#[trigger] node(k, mark)) == k && in_bounds(
                n,
                node(k, mark).x as int,
                node(k, mark).y as int,
            ),
        forall|c: Cell|
            in_bounds(n, c.x as int, c.y as int) ==> is_node(n, #[trigger] code(c)) && node(
                code(c),
                c.entity,
            ) == c,
{
}

/// The number under which a search files a cell.
fn cell_code(c: Cell) -> (k: u64)
    requires
        0 <= c.x && 0 <= c.y,
    ensures
        k == code(c),
{
    c.x as u64 * 0x1_0000_0000 + c.y as u64
}

/// The cell that a search has filed under `k`.
fn code_cell(k: u64, mark: Entity) -> (c: Cell)
    requires
        k / 0x1_0000_0000 <= i32::MAX,
        k % 0x1_0000_0000 <= i32::MAX,
    ensures
        c == node(k, mark),
{
    Cell::new((k / 0x1_0000_0000) as i32, (k % 0x1_0000_0000) as i32, mark)
}

/// The mark on the cells a search walks over.
fn mark_of(search: Search) -> (mark: Entity)
    ensures
        mark == walker(search),
{
    match search {
        Search::Pen => Entity::Sheep,
        Search::SheepAt(_) => Entity::Dog,
    }
}

/// A cell one step from a cell of the field lies on the field and bears
/// the walker's mark.
proof fn lemma_steps_on_field(n: int, search: Search, u: Cell, c: Cell)
    requires
        valid_size(n),
        in_bounds(n, u.x as int, u.y as int),
        steps(n, search, u).contains(c),
    ensures
        in_bounds(n, c.x as int, c.y as int),
        c.entity == walker(search),
{
    match search {
        Search::Pen => {
            lemma_sheep_moves_legal(n, u.as_sheep(), c);
        },
        Search::SheepAt(sheep) => {
            lemma_dog_moves_legal(n, sheep, u.as_dog(), false, c);
        },
    }
}

/// Every cell to which a search can walk lies on the field and bears the
/// walker's mark.
proof fn lemma_reach_on_field(n: int, search: Search, start: Cell, v: Cell, k: nat)
    requires
        valid_size(n),
        in_bounds(n, start.x as int, start.y as int),
        start.entity == walker(search),
        reach(n, search, start, v, k),
    ensures
        in_bounds(n, v.x as int, v.y as int),
        v.entity == walker(search),
    decreases k,
{
    if k > 0 {
        let p = choose|p: Cell|
            reach(n, search, start, p, (k - 1) as nat) && #[trigger] edge(n, search, p, v);
        lemma_reach_on_field(n, search, start, p, (k - 1) as nat);
        lemma_steps_on_field(n, search, p, v);
    }
}

/// Every cell that a search has filed lies on the field, the search can
/// walk to it in the number of steps filed with it, and that number is
/// less than the number of cells filed.
spec fn keys_sound(n: int, search: Search, start: Cell, scores: Map<u64, u64>) -> bool {
    forall|k: u64| #[trigger]
        scores.contains_key(k) ==> is_node(n, k) && reach(
            n,
            search,
            start,
            node(k, walker(search)),
            scores[k] as nat,
        ) && scores[k] < scores.len()
}

/// The cells that wait are all filed, none waits twice, and they wait in
/// the order of their numbers of steps, which are `f` or one more.
spec fn queue_ordered(scores: Map<u64, u64>, queue: Seq<u64>, f: nat) -> bool {
    &&& queue.no_duplicates()
    &&& forall|i: int|
        0 <= i < queue.len() ==> scores.contains_key(#[trigger] queue[i]) && f <= scores[queue[i]]
            <= f + 1
    &&& forall|i: int, j: int|
        0 <= i < j < queue.len() ==> scores[#[trigger] queue[i]] <= scores[#[trigger] queue[j]]
}

/// The first `i` of the cells one step from `v` have been looked at: none
/// is what the search looks for, and each to which the search goes on is
/// filed, with at most one step more than `v`.
spec fn looked_at(n: int, search: Search, scores: Map<u64, u64>, v: Cell, i: int) -> bool {
    forall|j: int|
        0 <= j < i && j < steps(n, search, v).len() ==> {
            let c = #[trigger] steps(n, search, v)[j];
            &&& !hit(n, search, c)
            &&& allowed(n, search, v, c) ==> scores.contains_key(code(c)) && scores[code(c)]
                <= scores[code(v)] + 1
        }
}

/// All cells one step from `v` have been looked at.
spec fn expanded(n: int, search: Search, scores: Map<u64, u64>, v: Cell) -> bool {
    looked_at(n, search, scores, v, steps(n, search, v).len() as int)
}

/// Every filed cell that does not wait, but for the one under `skip`, has
/// had all its neighbours looked at.
spec fn rest_expanded(
    n: int,
    search: Search,
    scores: Map<u64, u64>,
    queue: Seq<u64>,
    skip: Option<u64>,
) -> bool {
    forall|k: u64| #[trigger]
        scores.contains_key(k) && !queue.contains(k) && Some(k) != skip ==> expanded(
            n,
            search,
            scores,
            node(k, walker(search)),
        )
}

/// Every cell to which the search can walk in fewer than `f` steps is
/// filed, with no more steps than that walk takes.
spec fn near_known(n: int, search: Search, start: Cell, scores: Map<u64, u64>, f: nat) -> bool {
    forall|w: Cell, j: nat| #[trigger]
        reach(n, search, start, w, j) && j < f ==> scores.contains_key(code(w)) && scores[code(w)]
            <= j
}

/// The second table holds all that the first one holds.
spec fn grown(scores: Map<u64, u64>, more: Map<u64, u64>) -> bool {
    forall|k: u64| #[trigger]
        scores.contains_key(k) ==> more.contains_key(k) && more[k] == scores[k]
}

/// What has been looked at stays looked at when more cells are filed.
proof fn lemma_looked_at_grows(
    n: int,
    search: Search,
    scores: Map<u64, u64>,
    more: Map<u64, u64>,
    v: Cell,
    i: int,
)
    requires
        looked_at(n, search, scores, v, i),
        grown(scores, more),
        scores.contains_key(code(v)),
    ensures
        looked_at(n, search, more, v, i),
{
    assert forall|j: int| 0 <= j < i && j < steps(n, search, v).len() implies {
        let c = #[trigger] steps(n, search, v)[j];
        &&& !hit(n, search, c)
        &&& allowed(n, search, v, c) ==> more.contains_key(code(c)) && more[code(c)] <= more[code(
            v,
        )] + 1
    } by {
        let c = steps(n, search, v)[j];
        if allowed(n, search, v, c) {
            assert(scores.contains_key(code(c)));
        }
    }
}

/// Every filed cell has at most one step more than the cell that the search
/// looks round.
proof fn lemma_filed_close(
    n: int,
    search: Search,
    start: Cell,
    scores: Map<u64, u64>,
    queue: Seq<u64>,
    f: nat,
    here: u64,
    k: u64,
)
    requires
        queue_ordered(scores, queue, f),
        filed_low(scores, queue, f),
        scores.contains_key(k),
    ensures
        scores[k] <= f + 1,
{
    if queue.contains(k) {
        let a = choose|a: int| 0 <= a < queue.len() && queue[a] == k;
        assert(scores[queue[a]] <= f + 1);
    }
}

/// Every filed cell that does not wait has at most `f` steps.
spec fn filed_low(scores: Map<u64, u64>, queue: Seq<u64>, f: nat) -> bool {
    forall|k: u64| #[trigger] scores.contains_key(k) && !queue.contains(k) ==> scores[k] <= f
}

/// The books of a search that has filed its start and nothing else.
proof fn lemma_begin(n: int, search: Search, start: Cell)
    requires
        valid_size(n),
        in_bounds(n, start.x as int, start.y as int),
        start.entity == walker(search),
    ensures
        ({
            let scores = Map::<u64, u64>::empty().insert(code(start), 0);
            let queue = Seq::<u64>::empty().push(code(start));
            &&& keys_sound(n, search, start, scores)
            &&& queue_ordered(scores, queue, 0)
            &&& rest_expanded(n, search, scores, queue, None)
            &&& near_known(n, search, start, scores, 0)
            &&& filed_low(scores, queue, 0)
        }),
{
    let scores = Map::<u64, u64>::empty().insert(code(start), 0);
    let queue = Seq::<u64>::empty().push(code(start));
    lemma_codes(n, walker(search));
    assert(scores.dom() =~= Set::<u64>::empty().insert(code(start)));
    assert(scores.len() == 1);
    assert(queue[0] == code(start));
}

/// The books once the oldest waiting cell has been taken from the queue.
proof fn lemma_pop(n: int, search: Search, scores: Map<u64, u64>, queue: Seq<u64>, f: nat)
    requires
        queue.len() > 0,
        queue_ordered(scores, queue, f),
        scores[queue[0]] == f,
        rest_expanded(n, search, scores, queue, None),
        filed_low(scores, queue, f),
    ensures
        queue_ordered(scores, queue.drop_first(), f),
        !queue.drop_first().contains(queue[0]),
        rest_expanded(n, search, scores, queue.drop_first(), Some(queue[0])),
        filed_low(scores, queue.drop_first(), f),
{
    let rest = queue.drop_first();
    assert forall|k: u64| #[trigger] scores.contains_key(k) && !rest.contains(k) implies scores[k]
        <= f by {
        if queue.contains(k) {
            let i = choose|i: int| 0 <= i < queue.len() && queue[i] == k;
            if i > 0 {
                assert(rest[i - 1] == queue[i]);
            }
        }
    }
    assert forall|i: int| 0 <= i < rest.len() implies rest[i] == queue[i + 1] by {}
    assert forall|i: int| 0 <= i < rest.len() implies scores.contains_key(#[trigger] rest[i]) && f
        <= scores[rest[i]] <= f + 1 by {
        assert(rest[i] == queue[i + 1]);
    }
    assert forall|i: int, j: int| 0 <= i < j < rest.len() implies scores[#[trigger] rest[i]]
        <= scores[#[trigger] rest[j]] by {
        assert(rest[i] == queue[i + 1]);
        assert(rest[j] == queue[j + 1]);
    }
    assert(rest.no_duplicates()) by {
        assert forall|i: int, j: int| 0 <= i < rest.len() && 0 <= j < rest.len() && i
            != j implies rest[i] != rest[j] by {
            assert(rest[i] == queue[i + 1]);
            assert(rest[j] == queue[j + 1]);
        }
    }
    if rest.contains(queue[0]) {
        let i = choose|i: int| 0 <= i < rest.len() && rest[i] == queue[0];
        assert(rest[i] == queue[i + 1]);
    }
    assert forall|k: u64| #[trigger]
        scores.contains_key(k) && !rest.contains(k) && Some(k) != Some(queue[0]) implies expanded(
        n,
        search,
        scores,
        node(k, walker(search)),
    ) by {
        if queue.contains(k) {
            let i = choose|i: int| 0 <= i < queue.len() && queue[i] == k;
            assert(rest[i - 1] == queue[i]);
        }
    }
}

/// The books once a cell one step from `u`, not filed before, has been
/// filed and put in the queue.
proof fn lemma_enqueue(
    n: int,
    search: Search,
    start: Cell,
    scores: Map<u64, u64>,
    queue: Seq<u64>,
    f: nat,
    u: Cell,
    c: Cell,
    i: int,
)
    requires
        valid_size(n),
        in_bounds(n, start.x as int, start.y as int),
        start.entity == walker(search),
        scores.dom().finite(),
        keys_sound(n, search, start, scores),
        queue_ordered(scores, queue, f),
        rest_expanded(n, search, scores, queue, Some(code(u))),
        near_known(n, search, start, scores, f),
        in_bounds(n, u.x as int, u.y as int),
        u.entity == walker(search),
        scores.contains_key(code(u)),
        scores[code(u)] == f,
        !queue.contains(code(u)),
        looked_at(n, search, scores, u, i),
        filed_low(scores, queue, f),
        edge(n, search, u, c),
        !scores.contains_key(code(c)),
        f + 1 <= u64::MAX,
    ensures
        ({
            let more = scores.insert(code(c), (f + 1) as u64);
            let longer = queue.push(code(c));
            &&& more.dom().finite()
            &&& more.len() == scores.len() + 1
            &&& grown(scores, more)
            &&& keys_sound(n, search, start, more)
            &&& queue_ordered(more, longer, f)
            &&& rest_expanded(n, search, more, longer, Some(code(u)))
            &&& near_known(n, search, start, more, f)
            &&& looked_at(n, search, more, u, i)
            &&& !longer.contains(code(u))
            &&& filed_low(more, longer, f)
        }),
{
    let mark = walker(search);
    let more = scores.insert(code(c), (f + 1) as u64);
    let longer = queue.push(code(c));
    lemma_codes(n, mark);
    lemma_steps_on_field(n, search, u, c);
    assert(node(code(c), mark) == c);
    assert(node(code(u), mark) == u);
    assert(more.dom() =~= scores.dom().insert(code(c)));
    assert(grown(scores, more));
    assert(reach(n, search, start, c, f + 1));
    assert forall|k: u64| #[trigger] more.contains_key(k) implies is_node(n, k) && reach(
        n,
        search,
        start,
        node(k, mark),
        more[k] as nat,
    ) && more[k] < more.len() by {
        if k != code(c) {
            assert(scores.contains_key(k));
        }
    }
    assert forall|a: int| 0 <= a < longer.len() implies more.contains_key(#[trigger] longer[a])
        && f <= more[longer[a]] <= f + 1 by {
        if a < queue.len() {
            assert(longer[a] == queue[a]);
            assert(scores.contains_key(queue[a]));
        }
    }
    assert forall|a: int, b: int| 0 <= a < b < longer.len() implies more[#[trigger] longer[a]]
        <= more[#[trigger] longer[b]] by {
        assert(longer[a] == queue[a]);
        assert(scores.contains_key(queue[a]));
        if b < queue.len() {
            assert(longer[b] == queue[b]);
            assert(scores.contains_key(queue[b]));
        }
    }
    assert(longer.no_duplicates()) by {
        assert forall|a: int, b: int| 0 <= a < longer.len() && 0 <= b < longer.len() && a
            != b implies longer[a] != longer[b] by {
            if a < queue.len() {
                assert(longer[a] == queue[a]);
                assert(scores.contains_key(queue[a]));
            }
            if b < queue.len() {
                assert(longer[b] == queue[b]);
                assert(scores.contains_key(queue[b]));
            }
        }
    }
    assert forall|k: u64| #[trigger]
        more.contains_key(k) && !longer.contains(k) && Some(k) != Some(code(u)) implies expanded(
        n,
        search,
        more,
        node(k, mark),
    ) by {
        assert(longer[queue.len() as int] == code(c));
        assert(k != code(c));
        assert(scores.contains_key(k));
        if queue.contains(k) {
            let a = choose|a: int| 0 <= a < queue.len() && queue[a] == k;
            assert(longer[a] == k);
        }
        let v = node(k, mark);
        assert(code(v) == k);
        lemma_looked_at_grows(n, search, scores, more, v, steps(n, search, v).len() as int);
    }
    assert forall|w: Cell, j: nat| #[trigger]
        reach(n, search, start, w, j) && j < f implies more.contains_key(code(w)) && more[code(w)]
        <= j by {
        assert(scores.contains_key(code(w)));
    }
    lemma_looked_at_grows(n, search, scores, more, u, i);
    assert forall|k: u64| #[trigger] more.contains_key(k) && !longer.contains(k) implies more[k]
        <= f by {
        assert(longer[queue.len() as int] == code(c));
        assert(scores.contains_key(k));
        if queue.contains(k) {
            let a = choose|a: int| 0 <= a < queue.len() && queue[a] == k;
            assert(longer[a] == k);
        }
    }
    if longer.contains(code(u)) {
        let a = choose|a: int| 0 <= a < longer.len() && longer[a] == code(u);
        if a < queue.len() {
            assert(queue[a] == code(u));
        }
    }
}

/// Once the search has walked as far as it can from every cell with fewer
/// than `f` steps and from every filed cell with `f`, every cell to which
/// it can walk in `f` steps is filed.
proof fn lemma_level_up(
    n: int,
    search: Search,
    start: Cell,
    scores: Map<u64, u64>,
    queue: Seq<u64>,
    f: nat,
)
    requires
        valid_size(n),
        in_bounds(n, start.x as int, start.y as int),
        start.entity == walker(search),
        scores.contains_key(code(start)),
        scores[code(start)] == 0,
        keys_sound(n, search, start, scores),
        rest_expanded(n, search, scores, queue, None),
        near_known(n, search, start, scores, f),
        forall|i: int| 0 <= i < queue.len() ==> scores[#[trigger] queue[i]] >= f + 1,
    ensures
        near_known(n, search, start, scores, f + 1),
{
    let mark = walker(search);
    lemma_codes(n, mark);
    assert forall|w: Cell, j: nat| #[trigger]
        reach(n, search, start, w, j) && j < f + 1 implies scores.contains_key(code(w))
        && scores[code(w)] <= j by {
        if j == f && f > 0 {
            let p = choose|p: Cell|
                reach(n, search, start, p, (j - 1) as nat) && #[trigger] edge(n, search, p, w);
            lemma_reach_on_field(n, search, start, p, (j - 1) as nat);
            assert(scores.contains_key(code(p)) && scores[code(p)] <= j - 1);
            if queue.contains(code(p)) {
                let i = choose|i: int| 0 <= i < queue.len() && queue[i] == code(p);
                assert(scores[queue[i]] >= f + 1);
            }
            assert(node(code(p), mark) == p);
            assert(expanded(n, search, scores, p));
            let i = choose|i: int|
                0 <= i < steps(n, search, p).len() && steps(n, search, p)[i] == w;
            assert(steps(n, search, p)[i] == w);
        }
    }
}

/// While the search looks round a cell with `f` steps, what it looks for
/// does not lie `f` steps or fewer from the start.
proof fn lemma_none_nearer(
    n: int,
    search: Search,
    start: Cell,
    scores: Map<u64, u64>,
    queue: Seq<u64>,
    f: nat,
    here: u64,
    d: nat,
)
    requires
        valid_size(n),
        in_bounds(n, start.x as int, start.y as int),
        start.entity == walker(search),
        queue_ordered(scores, queue, f),
        rest_expanded(n, search, scores, queue, Some(here)),
        near_known(n, search, start, scores, f),
        scores.contains_key(here),
        scores[here] == f,
        0 < d <= f,
    ensures
        !found(n, search, start, d),
{
    let mark = walker(search);
    lemma_codes(n, mark);
    if found(n, search, start, d) {
        let (w, i) = choose|w: Cell, i: int|
            reach(n, search, start, w, (d - 1) as nat) && 0 <= i < steps(n, search, w).len()
                && hit(n, search, #[trigger] steps(n, search, w)[i]);
        lemma_reach_on_field(n, search, start, w, (d - 1) as nat);
        assert(scores.contains_key(code(w)) && scores[code(w)] <= d - 1);
        if queue.contains(code(w)) {
            let a = choose|a: int| 0 <= a < queue.len() && queue[a] == code(w);
            assert(f <= scores[queue[a]]);
        }
        assert(node(code(w), mark) == w);
        assert(expanded(n, search, scores, w));
        assert(!hit(n, search, steps(n, search, w)[i]));
    }
}

/// Once no cell waits, every cell to which the search can walk is filed.
proof fn lemma_all_filed(
    n: int,
    search: Search,
    start: Cell,
    scores: Map<u64, u64>,
    w: Cell,
    j: nat,
)
    requires
        valid_size(n),
        in_bounds(n, start.x as int, start.y as int),
        start.entity == walker(search),
        scores.contains_key(code(start)),
        rest_expanded(n, search, scores, Seq::<u64>::empty(), None),
        reach(n, search, start, w, j),
    ensures
        scores.contains_key(code(w)),
    decreases j,
{
    let mark = walker(search);
    lemma_codes(n, mark);
    if j > 0 {
        let p = choose|p: Cell|
            reach(n, search, start, p, (j - 1) as nat) && #[trigger] edge(n, search, p, w);
        lemma_all_filed(n, search, start, scores, p, (j - 1) as nat);
        lemma_reach_on_field(n, search, start, p, (j - 1) as nat);
        assert(node(code(p), mark) == p);
        assert(!Seq::<u64>::empty().contains(code(p)));
        assert(expanded(n, search, scores, p));
        let i = choose|i: int| 0 <= i < steps(n, search, p).len() && steps(n, search, p)[i] == w;
        assert(steps(n, search, p)[i] == w);
    }
}

/// Once no cell waits, the search has not found what it looks for and never
/// will.
proof fn lemma_none_found(n: int, search: Search, start: Cell, scores: Map<u64, u64>, d: nat)
    requires
        valid_size(n),
        in_bounds(n, start.x as int, start.y as int),
        start.entity == walker(search),
        scores.contains_key(code(start)),
        rest_expanded(n, search, scores, Seq::<u64>::empty(), None),
    ensures
        !found(n, search, start, d),
{
    let mark = walker(search);
    lemma_codes(n, mark);
    if found(n, search, start, d) {
        let (w, i) = choose|w: Cell, i: int|
            reach(n, search, start, w, (d - 1) as nat) && 0 <= i < steps(n, search, w).len()
                && hit(n, search, #[trigger] steps(n, search, w)[i]);
        lemma_all_filed(n, search, start, scores, w, (d - 1) as nat);
        lemma_reach_on_field(n, search, start, w, (d - 1) as nat);
        assert(node(code(w), mark) == w);
        assert(!Seq::<u64>::empty().contains(code(w)));
        assert(expanded(n, search, scores, w));
        assert(!hit(n, search, steps(n, search, w)[i]));
    }
}

/// The least number of steps in which a search from `start` finds what it
/// looks for, or nothing if it does not find it.
///
/// The search walks breadth first: the cells it has reached wait in a queue,
/// the one that has waited longest is looked round next, and every cell is
/// filed with its number of steps when it is first reached.
pub fn search_from(board: &Field, search: Search, start: Cell) -> (found_after: u64)
    requires
        laid_out(board.grid@),
        in_bounds(board.side(), start.x as int, start.y as int),
        start.entity == walker(search),
    ensures
        is_shortest(board.side(), search, start, found_after as nat),
{
    let ghost n = board.side();
    let mark = mark_of(search);
    let first: u64 = cell_code(start);
    let mut queue = queue_new();
    let mut scores: HashMap<u64, u64> = HashMap::new();
    queue_add(&mut queue, first);
    scores.insert(first, 0);
    let ghost mut level: nat = 0;
    proof {
        lemma_begin(n, search, start);
        assert(queued(queue)[0] == first);
    }
    while queue_size(&queue) > 0
        invariant
            n == board.side(),
            laid_out(board.grid@),
            in_bounds(n, start.x as int, start.y as int),
            start.entity == walker(search),
            mark == walker(search),
            first == code(start),
            scores@.contains_key(first),
            scores@[first] == 0,
            keys_sound(n, search, start, scores@),
            queue_ordered(scores@, queued(queue), level),
            queued(queue).len() > 0 ==> scores@[queued(queue)[0]] == level,
            rest_expanded(n, search, scores@, queued(queue), None),
            near_known(n, search, start, scores@, level),
            filed_low(scores@, queued(queue), level),
        decreases usize::MAX - scores@.len() + queued(queue).len(),
    {
        let ghost waiting = queued(queue);
        let ghost measure = usize::MAX - scores@.len() + queued(queue).len();
        proof {
            assert(vstd::std_specs::hash::spec_hash_map_len(&scores) == scores@.len());
        }
        let here: u64 = match queue_remove(&mut queue) {
            Some(oldest) => oldest,
            None => {
                return 0;
            },
        };
        let score: u64 = match scores.get(&here) {
            Some(filed) => *filed,
            None => {
                return 0;
            },
        };
        proof {
            lemma_codes(n, mark);
            lemma_pop(n, search, scores@, waiting, level);
            assert(scores@.contains_key(here));
            assert(is_node(n, here));
        }
        let u = code_cell(here, mark);
        let children = steps_from(board, search, u);
        let mut i: usize = 0;
        while i < children.len()
            invariant
                n == board.side(),
                laid_out(board.grid@),
                in_bounds(n, start.x as int, start.y as int),
                start.entity == walker(search),
                mark == walker(search),
                first == code(start),
                scores@.contains_key(first),
                scores@[first] == 0,
                u == node(here, mark),
                code(u) == here,
                in_bounds(n, u.x as int, u.y as int),
                children@ == steps(n, search, u),
                i <= children@.len(),
                score == level,
                scores@.contains_key(here),
                scores@[here] == score,
                !queued(queue).contains(here),
                keys_sound(n, search, start, scores@),
                queue_ordered(scores@, queued(queue), level),
                rest_expanded(n, search, scores@, queued(queue), Some(here)),
                near_known(n, search, start, scores@, level),
                filed_low(scores@, queued(queue), level),
                looked_at(n, search, scores@, u, i as int),
                usize::MAX - scores@.len() + queued(queue).len() == measure - 1,
                scores@.len() <= usize::MAX,
            decreases children@.len() - i,
        {
            let child = children[i];
            proof {
                assert(children@.contains(child));
                lemma_steps_on_field(n, search, u, child);
                lemma_codes(n, mark);
            }
            if hits(board, search, child) {
                proof {
                    assert(reach(n, search, start, u, score as nat));
                    assert(found(n, search, start, (score + 1) as nat));
                    assert forall|d: nat| 0 < d < score + 1 implies !found(n, search, start, d) by {
                        lemma_none_nearer(
                            n,
                            search,
                            start,
                            scores@,
                            queued(queue),
                            level,
                            here,
                            d,
                        );
                    }
                }
                return score + 1;
            }
            let mut filed_now = false;
            if goes_on(board, search, u, child) {
                let number: u64 = cell_code(child);
                if !scores.contains_key(&number) {
                    proof {
                        lemma_enqueue(
                            n,
                            search,
                            start,
                            scores@,
                            queued(queue),
                            level,
                            u,
                            child,
                            i as int,
                        );
                    }
                    queue_add(&mut queue, number);
                    scores.insert(number, score + 1);
                    proof {
                        assert(vstd::std_specs::hash::spec_hash_map_len(&scores) == scores@.len());
                    }
                    filed_now = true;
                }
            }
            proof {
                assert(looked_at(n, search, scores@, u, i + 1)) by {
                    assert forall|j: int| 0 <= j < i + 1 && j < steps(n, search, u).len() implies {
                        let c = #[trigger] steps(n, search, u)[j];
                        &&& !hit(n, search, c)
                        &&& allowed(n, search, u, c) ==> scores@.contains_key(code(c))
                            && scores@[code(c)] <= scores@[code(u)] + 1
                    } by {
                        if j == i {
                            if allowed(n, search, u, child) && !filed_now {
                                // The cell was filed before, with the steps of a
                                // cell that waited no later than `u`.
                                lemma_filed_close(
                                    n,
                                    search,
                                    start,
                                    scores@,
                                    queued(queue),
                                    level,
                                    here,
                                    code(child),
                                );
                            }
                        }
                    }
                }
            }
            i += 1;
        }
        proof {
            assert(expanded(n, search, scores@, u));
            assert forall|k: u64| #[trigger]
                scores@.contains_key(k) && !queued(queue).contains(k) implies expanded(
                n,
                search,
                scores@,
                node(k, mark),
            ) by {}
            let rest = queued(queue);
            if rest.len() > 0 && scores@[rest[0]] == level {
            } else {
                assert forall|a: int| 0 <= a < rest.len() implies scores@[#[trigger] rest[a]]
                    >= level + 1 by {
                    if a > 0 {
                        assert(scores@[rest[0]] <= scores@[rest[a]]);
                    }
                }
                lemma_level_up(n, search, start, scores@, rest, level);
                level = level + 1;
            }
        }
    }
    proof {
        assert(queued(queue) =~= Seq::<u64>::empty());
        assert forall|d: nat| !found(n, search, start, d) by {
            lemma_none_found(n, search, start, scores@, d);
        }
    }
    0
}

/// How far the dog is from the sheep.
#[derive(Debug, Clone, Copy, PartialEq, Eq, Structural)]
pub enum DogDistance {
    /// Both animals are far from the pen and nothing stands between them:
    /// the square of the straight distance.
    Straight(u64),
    /// The least number of moves in which the dog's search reaches the
    /// sheep; nothing if it does not reach it.
    Moves(u64),
}

/// The cell lies more than three steps from the centre of the pen.
pub open spec fn far_from_pen(n: int, c: Cell) -> bool {
    to_centre(n, c) > 3
}

/// `distance` is how far the dog is from the sheep on a field of side `n`:
/// where both are far from the pen, the square of the straight distance
/// between them; otherwise the least number of moves in which the dog's
/// search reaches the sheep.
pub open spec fn tells_distance(n: int, sheep: Sheep, dog: Dog, distance: DogDistance) -> bool {
    let from = Cell { x: dog.x, y: dog.y, entity: Entity::Dog };
    let to = Cell { x: sheep.x, y: sheep.y, entity: Entity::Sheep };
    if far_from_pen(n, to) && far_from_pen(n, from) {
        distance == DogDistance::Straight(squared(from, sheep) as u64)
    } else {
        distance matches DogDistance::Moves(moves) && is_shortest(
            n,
            Search::SheepAt(sheep),
            from,
            moves as nat,
        )
    }
}

/// The number of steps in which the sheep's search reaches the centre of
/// the pen on `board`, or nothing if it does not reach it.
pub fn steps_to_pen(board: &Field, sheep: Sheep) -> (steps: u64)
    requires
        laid_out(board.grid@),
        in_bounds(board.side(), sheep.x as int, sheep.y as int),
    ensures
        is_shortest(
            board.side(),
            Search::Pen,
            Cell { x: sheep.x, y: sheep.y, entity: Entity::Sheep },
            steps as nat,
        ),
{
    search_from(board, Search::Pen, sheep.as_cell())
}

/// How far the dog is from the sheep on `board`. Where both are more than
/// three steps from the centre of the pen, the square of the straight
/// distance; otherwise the number of moves in which the dog's search reaches
/// the sheep.
pub fn moves_to_sheep(board: &Field, sheep: Sheep, dog: Dog) -> (distance: DogDistance)
    requires
        laid_out(board.grid@),
        in_bounds(board.side(), sheep.x as int, sheep.y as int),
        in_bounds(board.side(), dog.x as int, dog.y as int),
    ensures
        tells_distance(board.side(), sheep, dog, distance),
{
    if centre_distance(board, sheep.as_cell()) > 3 && centre_distance(board, dog.as_cell()) > 3 {
        DogDistance::Straight(squared_distance(dog.as_cell(), sheep) as u64)
    } else {
        DogDistance::Moves(search_from(board, Search::SheepAt(sheep), dog.as_cell()))
    }
}

/// The number of steps in which the sheep's search reaches the centre of
/// the pen on the field of the default size, or nothing if it does not
/// reach it. The dog does not stand in the sheep's way.
pub fn bfs_sheep(state: (Sheep, Dog)) -> (steps: u64)
    requires
        in_bounds(DEFAULT_SIZE as int, state.0.x as int, state.0.y as int),
    ensures
        is_shortest(
            DEFAULT_SIZE as int,
            Search::Pen,
            Cell { x: state.0.x, y: state.0.y, entity: Entity::Sheep },
            steps as nat,
        ),
{
    let board = Field::new();
    steps_to_pen(&board, state.0)
}

/// How far the dog is from the sheep on the field of the default size.
pub fn bfs_dog(state: (Sheep, Dog)) -> (distance: DogDistance)
    requires
        in_bounds(DEFAULT_SIZE as int, state.0.x as int, state.0.y as int),
        in_bounds(DEFAULT_SIZE as int, state.1.x as int, state.1.y as int),
    ensures
        tells_distance(DEFAULT_SIZE as int, state.0, state.1, distance),
{
    let board = Field::new();
    moves_to_sheep(&board, state.0, state.1)
}

} // verus!

