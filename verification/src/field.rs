//! The field, the two animals on it, and the moves open to each of them.

use crate::random::choose_cell;
use rand::rngs::StdRng;
use vstd::arithmetic::div_mod::{
    lemma_fundamental_div_mod, lemma_fundamental_div_mod_converse_div,
    lemma_fundamental_div_mod_converse_mod,
};
use vstd::prelude::*;

verus! {

/// Side length of the field that `Field::new` lays out.
pub const DEFAULT_SIZE: usize = 31;

/// Largest side length whose coordinates, and those one step beyond the
/// border, still fit in an `i32`.
pub const MAX_SIZE: usize = 2147483645;

/// What stands on a cell.
#[derive(Debug, Clone, Copy, PartialEq, Eq, Hash, Structural)]
pub enum Entity {
    Empty,
    Fence,
    Sheep,
    Dog,
}

/// One square of the field: column `x`, row `y`, and what stands there.
#[derive(Debug, Clone, Copy, PartialEq, Eq, Hash, Structural)]
pub struct Cell {
    pub x: i32,
    pub y: i32,
    pub entity: Entity,
}

/// The animal that is herded.
#[derive(Debug, Clone, Copy, PartialEq, Eq, Hash, Structural)]
pub struct Sheep {
    pub x: i32,
    pub y: i32,
}

/// The animal that herds.
#[derive(Debug, Clone, Copy, PartialEq, Eq, Hash, Structural)]
pub struct Dog {
    pub x: i32,
    pub y: i32,
}

/// A side length is usable when it is odd, leaves room for the pen, and stays
/// within `MAX_SIZE`.
pub open spec fn valid_size(n: int) -> bool {
    3 <= n <= MAX_SIZE && n % 2 == 1
}

/// The column and the row of the pen's centre, where the sheep must end up.
pub open spec fn centre(n: int) -> int {
    (n - 1) / 2
}

/// The cell (`x`, `y`) lies on a field of side `n`.
pub open spec fn in_bounds(n: int, x: int, y: int) -> bool {
    0 <= x < n && 0 <= y < n
}

/// The pen: a wall of three cells left of the centre, one of three cells
/// right of it, and one cell below it. The cell above the centre is left open.
pub open spec fn is_fence(n: int, x: int, y: int) -> bool {
    let m = centre(n);
    ||| (x == m - 1 && m - 1 <= y <= m + 1)
    ||| (x == m + 1 && m - 1 <= y <= m + 1)
    ||| (x == m && y == m + 1)
}

/// What the bare field holds at (`x`, `y`).
pub open spec fn terrain(n: int, x: int, y: int) -> Entity {
    if is_fence(n, x, y) {
        Entity::Fence
    } else {
        Entity::Empty
    }
}

/// An animal may stand on (`x`, `y`): the cell is on the field and no fence.
pub open spec fn is_open(n: int, x: int, y: int) -> bool {
    in_bounds(n, x, y) && !is_fence(n, x, y)
}

/// The nine cells of the square around (`x`, `y`), row by row from the top
/// left, each marked with `entity`.
pub open spec fn ring(x: i32, y: i32, entity: Entity) -> Seq<Cell> {
    Seq::new(9, |k: int| Cell { x: (x - 1 + k % 3) as i32, y: (y - 1 + k / 3) as i32, entity })
}

/// The twenty-five cells at most two columns and two rows away from
/// (`x`, `y`), row by row from the top left, each as the bare field of side
/// `n` holds it.
pub open spec fn window(n: int, x: i32, y: i32) -> Seq<Cell> {
    Seq::new(
        25,
        |k: int|
            Cell {
                x: (x - 2 + k % 5) as i32,
                y: (y - 2 + k / 5) as i32,
                entity: terrain(n, x - 2 + k % 5, y - 2 + k / 5),
            },
    )
}

/// The test that keeps the cells that lie on the field.
pub open spec fn on_field(n: int) -> spec_fn(Cell) -> bool {
    |c: Cell| in_bounds(n, c.x as int, c.y as int)
}

/// What the sheep sees: the cells of the field at most two columns and two
/// rows away from it.
pub open spec fn sheep_view(n: int, sheep: Sheep) -> Seq<Cell> {
    window(n, sheep.x, sheep.y).filter(on_field(n))
}

/// The test a cell must pass for the dog to step on it: it is open, it is not
/// the dog's own cell and, when `planning`, not the sheep's either.
pub open spec fn dog_step(n: int, sheep: Sheep, dog: Dog, planning: bool) -> spec_fn(Cell) -> bool {
    |c: Cell|
        is_open(n, c.x as int, c.y as int) && !(c.x == dog.x && c.y == dog.y) && (planning ==> !(c.x
            == sheep.x && c.y == sheep.y))
}

/// The test a cell must pass for the sheep to step on it: it is open and
/// differs from the sheep's cell in exactly one coordinate.
pub open spec fn sheep_step(n: int, sheep: Sheep) -> spec_fn(Cell) -> bool {
    |c: Cell| is_open(n, c.x as int, c.y as int) && ((c.x == sheep.x) != (c.y == sheep.y))
}

/// The cells the dog may step on, in the order in which they are tried.
pub open spec fn dog_moves(n: int, sheep: Sheep, dog: Dog, planning: bool) -> Seq<Cell> {
    ring(dog.x, dog.y, Entity::Dog).filter(dog_step(n, sheep, dog, planning))
}

/// The cells the sheep may step on, in the order in which they are tried. The
/// dog's cell is among them when it is next to the sheep.
pub open spec fn sheep_moves(n: int, sheep: Sheep) -> Seq<Cell> {
    ring(sheep.x, sheep.y, Entity::Sheep).filter(sheep_step(n, sheep))
}

/// The distance between two coordinates.
pub open spec fn gap(a: int, b: int) -> int {
    if a <= b {
        b - a
    } else {
        a - b
    }
}

/// The dog stands within the sheep's sight: at most two columns and two rows
/// away.
pub open spec fn dog_visible(sheep: Sheep, dog: Dog) -> bool {
    gap(sheep.x as int, dog.x as int) <= 2 && gap(sheep.y as int, dog.y as int) <= 2
}

/// The test a move of the sheep must pass to count as fleeing: it takes the
/// sheep farther from the dog along the columns or along the rows.
pub open spec fn flees(sheep: Sheep, dog: Dog) -> spec_fn(Cell) -> bool {
    |c: Cell|
        gap(c.x as int, dog.x as int) > gap(sheep.x as int, dog.x as int) || gap(
            c.y as int,
            dog.y as int,
        ) > gap(sheep.y as int, dog.y as int)
}

/// The cells among which the sheep picks its next one, each as likely as the
/// others. With the dog in sight these are the fleeing moves, if there are
/// any; otherwise every move. A sheep that cannot move stays where it is.
pub open spec fn sheep_reactions(n: int, sheep: Sheep, dog: Dog) -> Seq<Cell> {
    let moves = sheep_moves(n, sheep);
    let fleeing = moves.filter(flees(sheep, dog));
    if moves.len() == 0 {
        seq![Cell { x: sheep.x, y: sheep.y, entity: Entity::Sheep }]
    } else if dog_visible(sheep, dog) && fleeing.len() > 0 {
        fleeing
    } else {
        moves
    }
}

/// `after` is what one step of a sheep at `sheep` can make of a field of side
/// `n` with the dog at `dog`: the dog has stayed, and the sheep stands on one
/// of the cells it may pick from.
pub open spec fn answered(n: int, sheep: Sheep, dog: Dog, after: Field) -> bool {
    exists|k: int|
        0 <= k < sheep_reactions(n, sheep, dog).len() && after.placed(
            n,
            (#[trigger] sheep_reactions(n, sheep, dog)[k]).as_sheep(),
            dog,
        )
}

/// The first `k + 1` items of a sequence, filtered, are the first `k` items,
/// filtered, followed by item `k` if it passes.
pub proof fn lemma_filter_next<A>(s: Seq<A>, pred: spec_fn(A) -> bool, k: int)
    requires
        0 <= k < s.len(),
    ensures
        s.take(k + 1).filter(pred) == if pred(s[k]) {
            s.take(k).filter(pred).push(s[k])
        } else {
            s.take(k).filter(pred)
        },
{
    assert(s.take(k + 1) =~= s.take(k).push(s[k]));
    s.take(k).lemma_filter_push(s[k], pred);
}

impl Cell {
    /// A sheep on this cell.
    pub open spec fn as_sheep(self) -> Sheep {
        Sheep { x: self.x, y: self.y }
    }

    /// A dog on this cell.
    pub open spec fn as_dog(self) -> Dog {
        Dog { x: self.x, y: self.y }
    }

    /// The cell in column `x` and row `y`, holding `entity`.
    pub fn new(x: i32, y: i32, entity: Entity) -> (cell: Cell)
        ensures
            cell == (Cell { x, y, entity }),
    {
        Cell { x, y, entity }
    }
}

impl Sheep {
    /// A sheep in the top left corner.
    pub fn new() -> (sheep: Sheep)
        ensures
            sheep == (Sheep { x: 0, y: 0 }),
    {
        Sheep { x: 0, y: 0 }
    }

    /// A sheep in column `x` and row `y`.
    pub fn at(x: i32, y: i32) -> (sheep: Sheep)
        ensures
            sheep == (Sheep { x, y }),
    {
        Sheep { x, y }
    }

    /// The cell the sheep stands on, marked as holding it.
    pub fn as_cell(&self) -> (cell: Cell)
        ensures
            cell == (Cell { x: self.x, y: self.y, entity: Entity::Sheep }),
    {
        Cell { x: self.x, y: self.y, entity: Entity::Sheep }
    }
}

impl Dog {
    /// A dog in the top left corner.
    pub fn new() -> (dog: Dog)
        ensures
            dog == (Dog { x: 0, y: 0 }),
    {
        Dog { x: 0, y: 0 }
    }

    /// A dog in column `x` and row `y`.
    pub fn at(x: i32, y: i32) -> (dog: Dog)
        ensures
            dog == (Dog { x, y }),
    {
        Dog { x, y }
    }

    /// The cell the dog stands on, marked as holding it.
    pub fn as_cell(&self) -> (cell: Cell)
        ensures
            cell == (Cell { x: self.x, y: self.y, entity: Entity::Dog }),
    {
        Cell { x: self.x, y: self.y, entity: Entity::Dog }
    }
}

/// Whether a side length can be laid out.
pub fn size_is_valid(size: usize) -> (ok: bool)
    ensures
        ok == valid_size(size as int),
{
    3 <= size && size <= MAX_SIZE && size % 2 == 1
}

/// Whether the bare field of side `size` has a fence at column `x`, row `y`.
pub fn fence_at(size: usize, x: usize, y: usize) -> (fence: bool)
    requires
        valid_size(size as int),
    ensures
        fence == is_fence(size as int, x as int, y as int),
{
    let m: usize = (size - 1) / 2;
    (x == m - 1 && m - 1 <= y && y <= m + 1) || (x == m + 1 && m - 1 <= y && y <= m + 1) || (x == m
        && y == m + 1)
}

/// The field with both animals on it.
///
/// `grid` is the bare field, row by row: it holds fences and empty cells only
/// and is the same for every placement of the animals on a field of one size.
#[derive(Clone, Debug, PartialEq, Eq, Hash)]
pub struct Field {
    pub grid: Vec<Vec<Cell>>,
    pub sheep: Sheep,
    pub dog: Dog,
}

/// The rows are those of the bare field whose side is their number.
pub open spec fn laid_out(grid: Seq<Vec<Cell>>) -> bool {
    let n = grid.len() as int;
    &&& valid_size(n)
    &&& forall|y: int| 0 <= y < n ==> (#[trigger] grid[y])@.len() == n
    &&& forall|y: int, x: int|
        0 <= y < n && 0 <= x < n ==> (#[trigger] grid[y]@[x]) == (Cell {
            x: x as i32,
            y: y as i32,
            entity: terrain(n, x, y),
        })
}

impl Field {
    /// The side length of the field.
    pub open spec fn side(&self) -> int {
        self.grid@.len() as int
    }

    /// The grid is a bare field and both animals stand inside its borders.
    pub open spec fn wf(&self) -> bool {
        &&& laid_out(self.grid@)
        &&& in_bounds(self.side(), self.sheep.x as int, self.sheep.y as int)
        &&& in_bounds(self.side(), self.dog.x as int, self.dog.y as int)
    }

    /// Neither animal stands on a fence.
    pub open spec fn valid(&self) -> bool {
        &&& is_open(self.side(), self.sheep.x as int, self.sheep.y as int)
        &&& is_open(self.side(), self.dog.x as int, self.dog.y as int)
    }

    /// The field has side `n` and holds the animals at `sheep` and `dog`.
    pub open spec fn placed(&self, n: int, sheep: Sheep, dog: Dog) -> bool {
        self.wf() && self.side() == n && self.sheep == sheep && self.dog == dog
    }

    /// The sheep has reached the centre of the pen.
    pub open spec fn at_goal(&self) -> bool {
        self.sheep.x == centre(self.side()) && self.sheep.y == centre(self.side())
    }

    /// The two animals stand on one cell.
    pub open spec fn collided(&self) -> bool {
        self.sheep.x == self.dog.x && self.sheep.y == self.dog.y
    }

    /// The field of side `size` with the sheep in the top left corner and the
    /// dog in the bottom right one.
    pub fn sized(size: usize) -> (field: Field)
        requires
            valid_size(size as int),
        ensures
            field.wf(),
            field.side() == size,
            field.sheep == (Sheep { x: 0, y: 0 }),
            field.dog == (Dog { x: (size - 1) as i32, y: (size - 1) as i32 }),
    {
        let mut grid: Vec<Vec<Cell>> = Vec::new();
        let mut y: usize = 0;
        while y < size
            invariant
                valid_size(size as int),
                y <= size,
                grid@.len() == y,
                forall|r: int| 0 <= r < y ==> (#[trigger] grid@[r])@.len() == size,
                forall|r: int, c: int|
                    0 <= r < y && 0 <= c < size ==> (#[trigger] grid@[r]@[c]) == (Cell {
                        x: c as i32,
                        y: r as i32,
                        entity: terrain(size as int, c, r),
                    }),
            decreases size - y,
        {
            let mut row: Vec<Cell> = Vec::new();
            let mut x: usize = 0;
            while x < size
                invariant
                    valid_size(size as int),
                    y < size,
                    x <= size,
                    row@.len() == x,
                    forall|c: int|
                        0 <= c < x ==> (#[trigger] row@[c]) == (Cell {
                            x: c as i32,
                            y: y as i32,
                            entity: terrain(size as int, c, y as int),
                        }),
                decreases size - x,
            {
                let entity = if fence_at(size, x, y) {
                    Entity::Fence
                } else {
                    Entity::Empty
                };
                row.push(Cell::new(x as i32, y as i32, entity));
                x += 1;
            }
            grid.push(row);
            y += 1;
        }
        let corner: i32 = (size - 1) as i32;
        Field { grid, sheep: Sheep::new(), dog: Dog::at(corner, corner) }
    }

    /// The field of side `size` with the animals where the caller puts them.
    pub fn sized_with(size: usize, sheep: Sheep, dog: Dog) -> (field: Field)
        requires
            valid_size(size as int),
            in_bounds(size as int, sheep.x as int, sheep.y as int),
            in_bounds(size as int, dog.x as int, dog.y as int),
        ensures
            field.wf(),
            field.side() == size,
            field.sheep == sheep,
            field.dog == dog,
    {
        let mut field = Field::sized(size);
        field.sheep = sheep;
        field.dog = dog;
        field
    }

    /// The field of the default size, sheep top left, dog bottom right.
    pub fn new() -> (field: Field)
        ensures
            field.wf(),
            field.side() == DEFAULT_SIZE,
            field.sheep == (Sheep { x: 0, y: 0 }),
            field.dog == (Dog { x: 30, y: 30 }),
    {
        Field::sized(DEFAULT_SIZE)
    }

    /// The field of the default size with the animals where the caller puts
    /// them.
    pub fn with(sheep: Sheep, dog: Dog) -> (field: Field)
        requires
            in_bounds(DEFAULT_SIZE as int, sheep.x as int, sheep.y as int),
            in_bounds(DEFAULT_SIZE as int, dog.x as int, dog.y as int),
        ensures
            field.wf(),
            field.side() == DEFAULT_SIZE,
            field.sheep == sheep,
            field.dog == dog,
    {
        Field::sized_with(DEFAULT_SIZE, sheep, dog)
    }

    /// The side length of the field.
    pub fn size(&self) -> (n: usize)
        ensures
            n == self.side(),
    {
        self.grid.len()
    }

    /// Whether the cell (`x`, `y`) is on the field.
    pub fn contains(&self, x: i32, y: i32) -> (inside: bool)
        ensures
            inside == in_bounds(self.side(), x as int, y as int),
    {
        let n: usize = self.grid.len();
        0 <= x && 0 <= y && (x as usize) < n && (y as usize) < n
    }

    /// Whether the grid is a bare field with both animals inside its borders:
    /// what every other method asks of the field it is called on.
    pub fn is_well_formed(&self) -> (ok: bool)
        ensures
            ok == self.wf(),
    {
        let n: usize = self.grid.len();
        if !size_is_valid(n) {
            return false;
        }
        let mut y: usize = 0;
        while y < n
            invariant
                n == self.grid@.len(),
                valid_size(n as int),
                y <= n,
                forall|r: int| 0 <= r < y ==> (#[trigger] self.grid@[r])@.len() == n,
                forall|r: int, c: int|
                    0 <= r < y && 0 <= c < n ==> (#[trigger] self.grid@[r]@[c]) == (Cell {
                        x: c as i32,
                        y: r as i32,
                        entity: terrain(n as int, c, r),
                    }),
            decreases n - y,
        {
            if self.grid[y].len() != n {
                return false;
            }
            let mut x: usize = 0;
            while x < n
                invariant
                    n == self.grid@.len(),
                    valid_size(n as int),
                    y < n,
                    x <= n,
                    self.grid@[y as int]@.len() == n,
                    forall|c: int|
                        0 <= c < x ==> (#[trigger] self.grid@[y as int]@[c]) == (Cell {
                            x: c as i32,
                            y: y as i32,
                            entity: terrain(n as int, c, y as int),
                        }),
                decreases n - x,
            {
                let entity = if fence_at(n, x, y) {
                    Entity::Fence
                } else {
                    Entity::Empty
                };
                let cell = self.grid[y][x];
                if cell.x != x as i32 || cell.y != y as i32 || cell.entity != entity {
                    return false;
                }
                x += 1;
            }
            y += 1;
        }
        self.contains(self.sheep.x, self.sheep.y) && self.contains(self.dog.x, self.dog.y)
    }

    /// Whether an animal may stand on (`x`, `y`).
    pub fn is_open_at(&self, x: i32, y: i32) -> (open: bool)
        requires
            laid_out(self.grid@),
        ensures
            open == is_open(self.side(), x as int, y as int),
    {
        if self.contains(x, y) {
            self.grid[y as usize][x as usize].entity != Entity::Fence
        } else {
            false
        }
    }

    /// Whether both animals stand clear of the fences.
    pub fn is_valid(&self) -> (ok: bool)
        requires
            self.wf(),
        ensures
            ok == self.valid(),
    {
        self.is_open_at(self.sheep.x, self.sheep.y) && self.is_open_at(self.dog.x, self.dog.y)
    }

    /// Whether the sheep has run into the dog, or the dog into the sheep.
    pub fn sheep_won(&self) -> (won: bool)
        ensures
            won == self.collided(),
    {
        self.dog.x == self.sheep.x && self.dog.y == self.sheep.y
    }

    /// Whether the sheep stands on the centre cell of the pen.
    pub fn dog_won(&self) -> (won: bool)
        requires
            self.wf(),
        ensures
            won == self.at_goal(),
    {
        let m: i32 = ((self.grid.len() - 1) / 2) as i32;
        self.sheep.x == m && self.sheep.y == m
    }
}

impl Field {
    /// The cells the dog may step on from `dog` while the sheep stands at
    /// `sheep`. When `planning`, the sheep's cell is left out.
    pub fn dog_moves_from(&self, sheep: Sheep, dog: Dog, planning: bool) -> (moves: Vec<Cell>)
        requires
            laid_out(self.grid@),
            in_bounds(self.side(), dog.x as int, dog.y as int),
        ensures
            moves@ == dog_moves(self.side(), sheep, dog, planning),
    {
        let ghost cells = ring(dog.x, dog.y, Entity::Dog);
        let ghost pred = dog_step(self.side(), sheep, dog, planning);
        let mut moves: Vec<Cell> = Vec::new();
        let mut k: usize = 0;
        assert(cells.take(0).filter(pred) =~= Seq::<Cell>::empty()) by {
            reveal(Seq::filter);
        }
        while k < 9
            invariant
                laid_out(self.grid@),
                in_bounds(self.side(), dog.x as int, dog.y as int),
                cells == ring(dog.x, dog.y, Entity::Dog),
                pred == dog_step(self.side(), sheep, dog, planning),
                k <= 9,
                moves@ == cells.take(k as int).filter(pred),
            decreases 9 - k,
        {
            let x: i32 = dog.x - 1 + (k % 3) as i32;
            let y: i32 = dog.y - 1 + (k / 3) as i32;
            let cell = Cell::new(x, y, Entity::Dog);
            proof {
                assert(cell == cells[k as int]);
                lemma_filter_next(cells, pred, k as int);
            }
            let own = x == dog.x && y == dog.y;
            let taken = planning && x == sheep.x && y == sheep.y;
            if !own && !taken && self.is_open_at(x, y) {
                moves.push(cell);
            }
            k += 1;
        }
        assert(cells.take(9) =~= cells);
        moves
    }

    /// The cells the sheep may step on from `sheep`: its open neighbours in
    /// the same row or column.
    pub fn sheep_moves_from(&self, sheep: Sheep) -> (moves: Vec<Cell>)
        requires
            laid_out(self.grid@),
            in_bounds(self.side(), sheep.x as int, sheep.y as int),
        ensures
            moves@ == sheep_moves(self.side(), sheep),
    {
        let ghost cells = ring(sheep.x, sheep.y, Entity::Sheep);
        let ghost pred = sheep_step(self.side(), sheep);
        let mut moves: Vec<Cell> = Vec::new();
        let mut k: usize = 0;
        assert(cells.take(0).filter(pred) =~= Seq::<Cell>::empty()) by {
            reveal(Seq::filter);
        }
        while k < 9
            invariant
                laid_out(self.grid@),
                in_bounds(self.side(), sheep.x as int, sheep.y as int),
                cells == ring(sheep.x, sheep.y, Entity::Sheep),
                pred == sheep_step(self.side(), sheep),
                k <= 9,
                moves@ == cells.take(k as int).filter(pred),
            decreases 9 - k,
        {
            let x: i32 = sheep.x - 1 + (k % 3) as i32;
            let y: i32 = sheep.y - 1 + (k / 3) as i32;
            let cell = Cell::new(x, y, Entity::Sheep);
            proof {
                assert(cell == cells[k as int]);
                lemma_filter_next(cells, pred, k as int);
            }
            let straight = (x == sheep.x) != (y == sheep.y);
            if straight && self.is_open_at(x, y) {
                moves.push(cell);
            }
            k += 1;
        }
        assert(cells.take(9) =~= cells);
        moves
    }
}

impl Field {
    /// The rows of the grid, copied.
    fn copy_grid(&self) -> (grid: Vec<Vec<Cell>>)
        requires
            laid_out(self.grid@),
        ensures
            laid_out(grid@),
            grid@.len() == self.grid@.len(),
    {
        let n: usize = self.grid.len();
        let mut grid: Vec<Vec<Cell>> = Vec::new();
        let mut y: usize = 0;
        while y < n
            invariant
                laid_out(self.grid@),
                n == self.grid@.len(),
                y <= n,
                grid@.len() == y,
                forall|r: int| 0 <= r < y ==> (#[trigger] grid@[r])@ == self.grid@[r]@,
            decreases n - y,
        {
            let mut row: Vec<Cell> = Vec::new();
            let mut x: usize = 0;
            while x < n
                invariant
                    laid_out(self.grid@),
                    n == self.grid@.len(),
                    y < n,
                    x <= n,
                    row@.len() == x,
                    forall|c: int| 0 <= c < x ==> (#[trigger] row@[c]) == self.grid@[y as int]@[c],
                decreases n - x,
            {
                row.push(self.grid[y][x]);
                x += 1;
            }
            assert(row@ =~= self.grid@[y as int]@);
            grid.push(row);
            y += 1;
        }
        grid
    }

    /// The field after the dog has gone to `cell`. Only the cell's
    /// coordinates count.
    pub fn move_dog_to(&self, cell: Cell) -> (field: Field)
        requires
            self.wf(),
            in_bounds(self.side(), cell.x as int, cell.y as int),
        ensures
            field.wf(),
            field.side() == self.side(),
            field.sheep == self.sheep,
            field.dog == (Dog { x: cell.x, y: cell.y }),
    {
        Field { grid: self.copy_grid(), sheep: self.sheep, dog: Dog::at(cell.x, cell.y) }
    }

    /// The field after the sheep has gone to `cell`. Only the cell's
    /// coordinates count.
    pub fn move_sheep_to(&self, cell: Cell) -> (field: Field)
        requires
            self.wf(),
            in_bounds(self.side(), cell.x as int, cell.y as int),
        ensures
            field.wf(),
            field.side() == self.side(),
            field.sheep == (Sheep { x: cell.x, y: cell.y }),
            field.dog == self.dog,
    {
        Field { grid: self.copy_grid(), sheep: Sheep::at(cell.x, cell.y), dog: self.dog }
    }

    /// The cells the dog may step on when it plans its move: the open cells
    /// around it that the sheep does not stand on.
    pub fn get_dog_moves(&self) -> (moves: Vec<Cell>)
        requires
            self.wf(),
        ensures
            moves@ == dog_moves(self.side(), self.sheep, self.dog, true),
            forall|i: int|
                0 <= i < moves@.len() ==> {
                    let c = #[trigger] moves@[i];
                    &&& is_open(self.side(), c.x as int, c.y as int)
                    &&& !(c.x == self.sheep.x && c.y == self.sheep.y)
                },
    {
        let moves = self.dog_moves_from(self.sheep, self.dog, true);
        proof {
            assert forall|i: int| 0 <= i < moves@.len() implies {
                let c = #[trigger] moves@[i];
                &&& is_open(self.side(), c.x as int, c.y as int)
                &&& !(c.x == self.sheep.x && c.y == self.sheep.y)
            } by {
                lemma_dog_moves_legal(self.side(), self.sheep, self.dog, true, moves@[i]);
            }
        }
        moves
    }

    /// The open cells around the dog, the sheep's cell among them when it is
    /// one of those.
    pub fn get_dog_moves_ignore_sheep(&self) -> (moves: Vec<Cell>)
        requires
            self.wf(),
        ensures
            moves@ == dog_moves(self.side(), self.sheep, self.dog, false),
            forall|i: int|
                0 <= i < moves@.len() ==> is_open(
                    self.side(),
                    (#[trigger] moves@[i]).x as int,
                    moves@[i].y as int,
                ),
    {
        let moves = self.dog_moves_from(self.sheep, self.dog, false);
        proof {
            assert forall|i: int| 0 <= i < moves@.len() implies is_open(
                self.side(),
                (#[trigger] moves@[i]).x as int,
                moves@[i].y as int,
            ) by {
                lemma_dog_moves_legal(self.side(), self.sheep, self.dog, false, moves@[i]);
            }
        }
        moves
    }

    /// The cells the sheep may step on: its open neighbours in the same row
    /// or column, the dog's cell among them when it is one of those.
    pub fn get_sheep_moves(&self) -> (moves: Vec<Cell>)
        requires
            self.wf(),
        ensures
            moves@ == sheep_moves(self.side(), self.sheep),
            forall|i: int|
                0 <= i < moves@.len() ==> is_open(
                    self.side(),
                    (#[trigger] moves@[i]).x as int,
                    moves@[i].y as int,
                ),
    {
        let moves = self.sheep_moves_from(self.sheep);
        proof {
            assert forall|i: int| 0 <= i < moves@.len() implies is_open(
                self.side(),
                (#[trigger] moves@[i]).x as int,
                moves@[i].y as int,
            ) by {
                lemma_sheep_moves_legal(self.side(), self.sheep, moves@[i]);
            }
        }
        moves
    }
}

/// Every move of the dog leads to an open cell next to the dog, marked as
/// holding it, and, when planning, never to the cell of the sheep.
pub proof fn lemma_dog_moves_legal(n: int, sheep: Sheep, dog: Dog, planning: bool, c: Cell)
    requires
        valid_size(n),
        in_bounds(n, dog.x as int, dog.y as int),
        dog_moves(n, sheep, dog, planning).contains(c),
    ensures
        is_open(n, c.x as int, c.y as int),
        c.entity == Entity::Dog,
        gap(c.x as int, dog.x as int) <= 1,
        gap(c.y as int, dog.y as int) <= 1,
        !(c.x == dog.x && c.y == dog.y),
        planning ==> !(c.x == sheep.x && c.y == sheep.y),
{
    let cells = ring(dog.x, dog.y, Entity::Dog);
    let pred = dog_step(n, sheep, dog, planning);
    cells.lemma_filter_contains_rev(pred, c);
    let i = choose|i: int| 0 <= i < cells.filter(pred).len() && cells.filter(pred)[i] == c;
    cells.lemma_filter_pred(pred, i);
    let k = choose|k: int| 0 <= k < cells.len() && cells[k] == c;
    assert(cells[k] == c);
}

/// Every open cell next to the dog is one of its moves, unless the dog is
/// planning and the sheep stands there.
pub proof fn lemma_dog_moves_complete(n: int, sheep: Sheep, dog: Dog, planning: bool, c: Cell)
    requires
        valid_size(n),
        in_bounds(n, dog.x as int, dog.y as int),
        is_open(n, c.x as int, c.y as int),
        c.entity == Entity::Dog,
        gap(c.x as int, dog.x as int) <= 1,
        gap(c.y as int, dog.y as int) <= 1,
        !(c.x == dog.x && c.y == dog.y),
        planning ==> !(c.x == sheep.x && c.y == sheep.y),
    ensures
        dog_moves(n, sheep, dog, planning).contains(c),
{
    let cells = ring(dog.x, dog.y, Entity::Dog);
    let pred = dog_step(n, sheep, dog, planning);
    let k = (c.y - dog.y + 1) * 3 + (c.x - dog.x + 1);
    assert(cells[k] == c);
    cells.lemma_filter_contains(pred, k);
}

/// Every move of the sheep leads to an open cell one step away in its row or
/// its column, marked as holding it.
pub proof fn lemma_sheep_moves_legal(n: int, sheep: Sheep, c: Cell)
    requires
        valid_size(n),
        in_bounds(n, sheep.x as int, sheep.y as int),
        sheep_moves(n, sheep).contains(c),
    ensures
        is_open(n, c.x as int, c.y as int),
        c.entity == Entity::Sheep,
        gap(c.x as int, sheep.x as int) + gap(c.y as int, sheep.y as int) == 1,
{
    let cells = ring(sheep.x, sheep.y, Entity::Sheep);
    let pred = sheep_step(n, sheep);
    cells.lemma_filter_contains_rev(pred, c);
    let i = choose|i: int| 0 <= i < cells.filter(pred).len() && cells.filter(pred)[i] == c;
    cells.lemma_filter_pred(pred, i);
    let k = choose|k: int| 0 <= k < cells.len() && cells[k] == c;
    assert(cells[k] == c);
}

/// Every open cell one step from the sheep in its row or column is one of
/// its moves.
pub proof fn lemma_sheep_moves_complete(n: int, sheep: Sheep, c: Cell)
    requires
        valid_size(n),
        in_bounds(n, sheep.x as int, sheep.y as int),
        is_open(n, c.x as int, c.y as int),
        c.entity == Entity::Sheep,
        gap(c.x as int, sheep.x as int) + gap(c.y as int, sheep.y as int) == 1,
    ensures
        sheep_moves(n, sheep).contains(c),
{
    let cells = ring(sheep.x, sheep.y, Entity::Sheep);
    let pred = sheep_step(n, sheep);
    let k = (c.y - sheep.y + 1) * 3 + (c.x - sheep.x + 1);
    assert(cells[k] == c);
    cells.lemma_filter_contains(pred, k);
}

/// Every cell the sheep may pick next lies on the field and is marked as
/// holding the sheep; it is the sheep's own cell or one of its moves.
pub proof fn lemma_reactions_legal(n: int, sheep: Sheep, dog: Dog, c: Cell)
    requires
        valid_size(n),
        in_bounds(n, sheep.x as int, sheep.y as int),
        sheep_reactions(n, sheep, dog).contains(c),
    ensures
        in_bounds(n, c.x as int, c.y as int),
        c.entity == Entity::Sheep,
        c.as_sheep() == sheep || sheep_moves(n, sheep).contains(c),
        sheep_moves(n, sheep).len() > 0 ==> sheep_moves(n, sheep).contains(c),
{
    let moves = sheep_moves(n, sheep);
    if moves.len() == 0 {
        assert(seq![Cell { x: sheep.x, y: sheep.y, entity: Entity::Sheep }][0] == c);
    } else {
        if sheep_reactions(n, sheep, dog) != moves {
            moves.lemma_filter_contains_rev(flees(sheep, dog), c);
        }
        lemma_sheep_moves_legal(n, sheep, c);
    }
}

/// The sheep always has a cell to pick.
pub proof fn lemma_reactions_nonempty(n: int, sheep: Sheep, dog: Dog)
    ensures
        sheep_reactions(n, sheep, dog).len() > 0,
{
}

impl Field {
    /// For each of `moves`, in order, the field after the dog has gone there.
    fn dog_states_for(&self, moves: &Vec<Cell>) -> (states: Vec<Field>)
        requires
            self.wf(),
            forall|i: int|
                0 <= i < moves@.len() ==> in_bounds(
                    self.side(),
                    (#[trigger] moves@[i]).x as int,
                    moves@[i].y as int,
                ),
        ensures
            states@.len() == moves@.len(),
            forall|i: int|
                0 <= i < states@.len() ==> (#[trigger] states@[i]).placed(
                    self.side(),
                    self.sheep,
                    moves@[i].as_dog(),
                ),
    {
        let mut states: Vec<Field> = Vec::new();
        let mut i: usize = 0;
        while i < moves.len()
            invariant
                self.wf(),
                forall|j: int|
                    0 <= j < moves@.len() ==> in_bounds(
                        self.side(),
                        (#[trigger] moves@[j]).x as int,
                        moves@[j].y as int,
                    ),
                i <= moves@.len(),
                states@.len() == i,
                forall|j: int|
                    0 <= j < i ==> (#[trigger] states@[j]).placed(
                        self.side(),
                        self.sheep,
                        moves@[j].as_dog(),
                    ),
            decreases moves@.len() - i,
        {
            states.push(self.move_dog_to(moves[i]));
            i += 1;
        }
        states
    }

    /// For each of `moves`, in order, the field after the sheep has gone
    /// there.
    fn sheep_states_for(&self, moves: &Vec<Cell>) -> (states: Vec<Field>)
        requires
            self.wf(),
            forall|i: int|
                0 <= i < moves@.len() ==> in_bounds(
                    self.side(),
                    (#[trigger] moves@[i]).x as int,
                    moves@[i].y as int,
                ),
        ensures
            states@.len() == moves@.len(),
            forall|i: int|
                0 <= i < states@.len() ==> (#[trigger] states@[i]).placed(
                    self.side(),
                    moves@[i].as_sheep(),
                    self.dog,
                ),
    {
        let mut states: Vec<Field> = Vec::new();
        let mut i: usize = 0;
        while i < moves.len()
            invariant
                self.wf(),
                forall|j: int|
                    0 <= j < moves@.len() ==> in_bounds(
                        self.side(),
                        (#[trigger] moves@[j]).x as int,
                        moves@[j].y as int,
                    ),
                i <= moves@.len(),
                states@.len() == i,
                forall|j: int|
                    0 <= j < i ==> (#[trigger] states@[j]).placed(
                        self.side(),
                        moves@[j].as_sheep(),
                        self.dog,
                    ),
            decreases moves@.len() - i,
        {
            states.push(self.move_sheep_to(moves[i]));
            i += 1;
        }
        states
    }

    /// The fields the dog can reach in one planned move, in the order of
    /// `get_dog_moves`.
    pub fn get_dog_states(&self) -> (states: Vec<Field>)
        requires
            self.wf(),
        ensures
            states@.len() == dog_moves(self.side(), self.sheep, self.dog, true).len(),
            forall|i: int|
                0 <= i < states@.len() ==> (#[trigger] states@[i]).placed(
                    self.side(),
                    self.sheep,
                    dog_moves(self.side(), self.sheep, self.dog, true)[i].as_dog(),
                ),
    {
        let moves = self.get_dog_moves();
        self.dog_states_for(&moves)
    }

    /// The fields the dog can reach in one move when it may also run into the
    /// sheep, in the order of `get_dog_moves_ignore_sheep`.
    pub fn get_dog_moves_bfs(&self) -> (states: Vec<Field>)
        requires
            self.wf(),
        ensures
            states@.len() == dog_moves(self.side(), self.sheep, self.dog, false).len(),
            forall|i: int|
                0 <= i < states@.len() ==> (#[trigger] states@[i]).placed(
                    self.side(),
                    self.sheep,
                    dog_moves(self.side(), self.sheep, self.dog, false)[i].as_dog(),
                ),
    {
        let moves = self.get_dog_moves_ignore_sheep();
        self.dog_states_for(&moves)
    }

    /// The fields the sheep can reach in one move, in the order of
    /// `get_sheep_moves`.
    pub fn get_sheep_moves_bfs(&self) -> (states: Vec<Field>)
        requires
            self.wf(),
        ensures
            states@.len() == sheep_moves(self.side(), self.sheep).len(),
            forall|i: int|
                0 <= i < states@.len() ==> (#[trigger] states@[i]).placed(
                    self.side(),
                    sheep_moves(self.side(), self.sheep)[i].as_sheep(),
                    self.dog,
                ),
    {
        let moves = self.get_sheep_moves();
        self.sheep_states_for(&moves)
    }

    /// The cells among which a sheep at `sheep` picks its next one while the
    /// dog stands at `dog`.
    pub fn sheep_reactions_from(&self, sheep: Sheep, dog: Dog) -> (cells: Vec<Cell>)
        requires
            laid_out(self.grid@),
            in_bounds(self.side(), sheep.x as int, sheep.y as int),
            in_bounds(self.side(), dog.x as int, dog.y as int),
        ensures
            cells@ == sheep_reactions(self.side(), sheep, dog),
            cells@.len() > 0,
    {
        let moves = self.sheep_moves_from(sheep);
        if moves.len() == 0 {
            let mut stay: Vec<Cell> = Vec::new();
            stay.push(sheep.as_cell());
            assert(stay@ =~= seq![Cell { x: sheep.x, y: sheep.y, entity: Entity::Sheep }]);
            return stay;
        }
        let near_x: i32 = distance(sheep.x, dog.x);
        let near_y: i32 = distance(sheep.y, dog.y);
        if near_x > 2 || near_y > 2 {
            return moves;
        }
        let ghost pred = flees(sheep, dog);
        let mut fleeing: Vec<Cell> = Vec::new();
        let mut i: usize = 0;
        assert(moves@.take(0).filter(pred) =~= Seq::<Cell>::empty()) by {
            reveal(Seq::filter);
        }
        while i < moves.len()
            invariant
                valid_size(self.side()),
                in_bounds(self.side(), sheep.x as int, sheep.y as int),
                in_bounds(self.side(), dog.x as int, dog.y as int),
                moves@ == sheep_moves(self.side(), sheep),
                pred == flees(sheep, dog),
                near_x == gap(sheep.x as int, dog.x as int),
                near_y == gap(sheep.y as int, dog.y as int),
                i <= moves@.len(),
                fleeing@ == moves@.take(i as int).filter(pred),
            decreases moves@.len() - i,
        {
            let cell = moves[i];
            proof {
                assert(moves@.contains(cell));
                lemma_sheep_moves_legal(self.side(), sheep, cell);
                lemma_filter_next(moves@, pred, i as int);
            }
            if distance(cell.x, dog.x) > near_x || distance(cell.y, dog.y) > near_y {
                fleeing.push(cell);
            }
            i += 1;
        }
        assert(moves@.take(moves@.len() as int) =~= moves@);
        if fleeing.len() > 0 {
            fleeing
        } else {
            moves
        }
    }

    /// The fields the sheep may turn the present one into by its next step,
    /// each as likely as the others.
    pub fn get_sheep_states(&self) -> (states: Vec<Field>)
        requires
            self.wf(),
        ensures
            states@.len() == sheep_reactions(self.side(), self.sheep, self.dog).len(),
            states@.len() > 0,
            forall|i: int|
                0 <= i < states@.len() ==> (#[trigger] states@[i]).placed(
                    self.side(),
                    sheep_reactions(self.side(), self.sheep, self.dog)[i].as_sheep(),
                    self.dog,
                ),
    {
        let cells = self.sheep_reactions_from(self.sheep, self.dog);
        proof {
            assert forall|i: int| 0 <= i < cells@.len() implies in_bounds(
                self.side(),
                (#[trigger] cells@[i]).x as int,
                cells@[i].y as int,
            ) by {
                lemma_reactions_legal(self.side(), self.sheep, self.dog, cells@[i]);
            }
        }
        self.sheep_states_for(&cells)
    }
}

/// The distance between two coordinates of a field.
pub(crate) fn distance(a: i32, b: i32) -> (d: i32)
    requires
        0 <= a <= MAX_SIZE + 1,
        0 <= b <= MAX_SIZE + 1,
    ensures
        d == gap(a as int, b as int),
{
    if a <= b {
        b - a
    } else {
        a - b
    }
}

/// The dog is among the cells the sheep sees exactly when it stands within
/// the sheep's sight.
pub proof fn lemma_dog_in_sheep_view(n: int, sheep: Sheep, dog: Dog)
    requires
        valid_size(n),
        in_bounds(n, sheep.x as int, sheep.y as int),
        in_bounds(n, dog.x as int, dog.y as int),
    ensures
        dog_visible(sheep, dog) <==> exists|i: int|
            0 <= i < sheep_view(n, sheep).len() && (#[trigger] sheep_view(n, sheep)[i]).as_dog()
                == dog,
{
    let cells = window(n, sheep.x, sheep.y);
    let pred = on_field(n);
    let view = sheep_view(n, sheep);
    if dog_visible(sheep, dog) {
        let k = (dog.y - sheep.y + 2) * 5 + (dog.x - sheep.x + 2);
        assert(cells[k].as_dog() == dog);
        cells.lemma_filter_contains(pred, k);
        let i = choose|i: int| 0 <= i < view.len() && view[i] == cells[k];
        assert(view[i].as_dog() == dog);
    }
    if exists|i: int| 0 <= i < view.len() && (#[trigger] view[i]).as_dog() == dog {
        let i = choose|i: int| 0 <= i < view.len() && (#[trigger] view[i]).as_dog() == dog;
        assert(view.contains(view[i]));
        cells.lemma_filter_contains_rev(pred, view[i]);
        let k = choose|k: int| 0 <= k < cells.len() && cells[k] == view[i];
        assert(cells[k].as_dog() == dog);
    }
}

impl Field {
    /// What the sheep sees: the cells of the bare field at most two columns
    /// and two rows away from it, row by row.
    pub fn get_sheep_view(&self) -> (view: Vec<Cell>)
        requires
            self.wf(),
        ensures
            view@ == sheep_view(self.side(), self.sheep),
    {
        let ghost cells = window(self.side(), self.sheep.x, self.sheep.y);
        let ghost pred = on_field(self.side());
        let mut view: Vec<Cell> = Vec::new();
        let mut k: usize = 0;
        assert(cells.take(0).filter(pred) =~= Seq::<Cell>::empty()) by {
            reveal(Seq::filter);
        }
        while k < 25
            invariant
                self.wf(),
                cells == window(self.side(), self.sheep.x, self.sheep.y),
                pred == on_field(self.side()),
                k <= 25,
                view@ == cells.take(k as int).filter(pred),
            decreases 25 - k,
        {
            let x: i32 = self.sheep.x - 2 + (k % 5) as i32;
            let y: i32 = self.sheep.y - 2 + (k / 5) as i32;
            proof {
                lemma_filter_next(cells, pred, k as int);
            }
            if self.contains(x, y) {
                let cell = self.grid[y as usize][x as usize];
                assert(cell == cells[k as int]);
                view.push(cell);
            }
            k += 1;
        }
        assert(cells.take(25) =~= cells);
        view
    }

    /// The dog's cell if the sheep sees the dog, nothing otherwise.
    pub fn dog_in_view(&self) -> (seen: Option<Cell>)
        requires
            self.wf(),
        ensures
            seen == if dog_visible(self.sheep, self.dog) {
                Some(Cell { x: self.dog.x, y: self.dog.y, entity: Entity::Dog })
            } else {
                None
            },
    {
        let view = self.get_sheep_view();
        let mut i: usize = 0;
        while i < view.len()
            invariant
                self.wf(),
                i <= view@.len(),
                view@ == sheep_view(self.side(), self.sheep),
                forall|j: int| 0 <= j < i ==> (#[trigger] view@[j]).as_dog() != self.dog,
            decreases view@.len() - i,
        {
            if view[i].x == self.dog.x && view[i].y == self.dog.y {
                proof {
                    assert(view@[i as int].as_dog() == self.dog);
                    lemma_dog_in_sheep_view(self.side(), self.sheep, self.dog);
                }
                return Some(self.dog.as_cell());
            }
            i += 1;
        }
        proof {
            lemma_dog_in_sheep_view(self.side(), self.sheep, self.dog);
        }
        None
    }
}

impl Field {
    /// Lets the sheep take the step that `pick` selects among the cells it
    /// may pick from: the one at position `pick`, counted round and round.
    pub fn move_sheep_with(&mut self, pick: usize)
        requires
            old(self).wf(),
        ensures
            final(self).placed(
                old(self).side(),
                sheep_reactions(old(self).side(), old(self).sheep, old(self).dog)[pick as int
                    % sheep_reactions(
                    old(self).side(),
                    old(self).sheep,
                    old(self).dog,
                ).len() as int].as_sheep(),
                old(self).dog,
            ),
    {
        let cells = self.sheep_reactions_from(self.sheep, self.dog);
        let cell = cells[pick % cells.len()];
        proof {
            assert(cells@.contains(cell));
            lemma_reactions_legal(self.side(), self.sheep, self.dog, cell);
        }
        self.sheep = Sheep::at(cell.x, cell.y);
    }

    /// Lets the sheep take its next step: one of the cells it may pick from,
    /// drawn from `rng`, each as likely as the others.
    pub fn move_sheep(&mut self, rng: &mut StdRng)
        requires
            old(self).wf(),
        ensures
            answered(old(self).side(), old(self).sheep, old(self).dog, *final(self)),
    {
        let cells = self.sheep_reactions_from(self.sheep, self.dog);
        match choose_cell(&cells, rng) {
            Some(cell) => {
                proof {
                    lemma_reactions_legal(self.side(), self.sheep, self.dog, cell);
                }
                self.sheep = Sheep::at(cell.x, cell.y);
            },
            None => {},
        }
    }
}

/// The cell of the bare field of side `n` that comes at place `k` when the
/// cells are counted row by row.
pub open spec fn cell_at(n: int, k: int) -> Cell {
    Cell { x: (k % n) as i32, y: (k / n) as i32, entity: terrain(n, k % n, k / n) }
}

/// All cells of the bare field of side `n`, row by row.
pub open spec fn all_cells(n: int) -> Seq<Cell> {
    Seq::new((n * n) as nat, |k: int| cell_at(n, k))
}

/// The place of the cell (`x`, `y`) when the cells are counted row by row.
pub open spec fn rank(n: int, x: int, y: int) -> int {
    y * n + x
}

/// A cell on the field has a place among all cells, and stands there.
pub proof fn lemma_rank(n: int, x: int, y: int)
    requires
        valid_size(n),
        in_bounds(n, x, y),
    ensures
        0 <= rank(n, x, y) < n * n,
        cell_at(n, rank(n, x, y)) == (Cell { x: x as i32, y: y as i32, entity: terrain(n, x, y) }),
{
    assert(0 <= y * n && y * n + n <= n * n) by (nonlinear_arith)
        requires
            0 <= y < n,
    ;
    lemma_fundamental_div_mod_converse_mod(y * n + x, n, y, x);
    lemma_fundamental_div_mod_converse_div(y * n + x, n, y, x);
}

/// The cell at a place lies on the field, and its place is that one.
pub proof fn lemma_cell_at(n: int, k: int)
    requires
        valid_size(n),
        0 <= k < n * n,
    ensures
        cell_at(n, k).x == k % n,
        cell_at(n, k).y == k / n,
        in_bounds(n, k % n, k / n),
        rank(n, k % n, k / n) == k,
{
    lemma_fundamental_div_mod(k, n);
    assert(0 <= k / n < n) by (nonlinear_arith)
        requires
            0 <= k < n * n,
            0 < n,
            k == n * (k / n) + k % n,
            0 <= k % n < n,
    ;
    assert((k / n) * n == n * (k / n)) by (nonlinear_arith);
}

impl Field {
    /// All cells of the bare field, row by row.
    pub fn cells(&self) -> (cells: Vec<Cell>)
        requires
            laid_out(self.grid@),
        ensures
            cells@ == all_cells(self.side()),
    {
        let n: usize = self.grid.len();
        let mut cells: Vec<Cell> = Vec::new();
        let mut y: usize = 0;
        while y < n
            invariant
                laid_out(self.grid@),
                n == self.grid@.len(),
                y <= n,
                cells@.len() == y * n,
                forall|k: int|
                    0 <= k < cells@.len() ==> (#[trigger] cells@[k]) == cell_at(n as int, k),
            decreases n - y,
        {
            let mut x: usize = 0;
            while x < n
                invariant
                    laid_out(self.grid@),
                    n == self.grid@.len(),
                    y < n,
                    x <= n,
                    cells@.len() == y * n + x,
                    forall|k: int|
                        0 <= k < cells@.len() ==> (#[trigger] cells@[k]) == cell_at(n as int, k),
                decreases n - x,
            {
                proof {
                    lemma_rank(n as int, x as int, y as int);
                }
                cells.push(self.grid[y][x]);
                x += 1;
            }
            assert(y * n + n == (y + 1) * n) by (nonlinear_arith);
            y += 1;
        }
        assert(cells@ =~= all_cells(n as int));
        cells
    }
}

/// The centre of the pen is an open cell.
pub proof fn lemma_centre_open(n: int)
    requires
        valid_size(n),
    ensures
        is_open(n, centre(n), centre(n)),
{
}

/// The test that keeps the cells without a fence.
pub open spec fn clear() -> spec_fn(Cell) -> bool {
    |c: Cell| c.entity != Entity::Fence
}

/// The open cells of the bare field of side `n`, row by row.
pub open spec fn open_cells(n: int) -> Seq<Cell> {
    all_cells(n).filter(clear())
}

/// The open cells are the cells of the field on which an animal may stand,
/// and the centre of the pen is one of them.
pub proof fn lemma_open_cells(n: int, c: Cell)
    requires
        valid_size(n),
    ensures
        open_cells(n).contains(c) <==> is_open(n, c.x as int, c.y as int) && c.entity
            == Entity::Empty,
        open_cells(n).len() > 0,
{
    let cells = all_cells(n);
    let m = centre(n);
    lemma_rank(n, m, m);
    cells.lemma_filter_contains(clear(), rank(n, m, m));
    if open_cells(n).contains(c) {
        cells.lemma_filter_contains_rev(clear(), c);
        let i = choose|i: int| 0 <= i < open_cells(n).len() && open_cells(n)[i] == c;
        cells.lemma_filter_pred(clear(), i);
        let k = choose|k: int| 0 <= k < cells.len() && cells[k] == c;
        lemma_cell_at(n, k);
    }
    if is_open(n, c.x as int, c.y as int) && c.entity == Entity::Empty {
        lemma_rank(n, c.x as int, c.y as int);
        cells.lemma_filter_contains(clear(), rank(n, c.x as int, c.y as int));
    }
}

impl Field {
    /// The open cells of the field, row by row.
    pub fn open_cells(&self) -> (cells: Vec<Cell>)
        requires
            laid_out(self.grid@),
        ensures
            cells@ == open_cells(self.side()),
            cells@.len() > 0,
    {
        let all = self.cells();
        let mut cells: Vec<Cell> = Vec::new();
        let mut k: usize = 0;
        assert(all@.take(0).filter(clear()) =~= Seq::<Cell>::empty()) by {
            reveal(Seq::filter);
        }
        while k < all.len()
            invariant
                k <= all@.len(),
                cells@ == all@.take(k as int).filter(clear()),
            decreases all@.len() - k,
        {
            proof {
                lemma_filter_next(all@, clear(), k as int);
            }
            if all[k].entity != Entity::Fence {
                cells.push(all[k]);
            }
            k += 1;
        }
        proof {
            assert(all@.take(all@.len() as int) =~= all@);
            lemma_open_cells(self.side(), all@[0]);
        }
        cells
    }
}

/// A sheep that does not see the dog picks among all of its moves.
pub proof fn lemma_unseen_dog_lets_sheep_wander(n: int, sheep: Sheep, dog: Dog)
    requires
        !dog_visible(sheep, dog),
        sheep_moves(n, sheep).len() > 0,
    ensures
        sheep_reactions(n, sheep, dog) == sheep_moves(n, sheep),
{
}

/// A sheep that has moves but none that takes it farther from the dog picks
/// among all of its moves, whether it sees the dog or not.
pub proof fn lemma_cornered_sheep_falls_back(n: int, sheep: Sheep, dog: Dog)
    requires
        sheep_moves(n, sheep).len() > 0,
        sheep_moves(n, sheep).filter(flees(sheep, dog)).len() == 0,
    ensures
        sheep_reactions(n, sheep, dog) == sheep_moves(n, sheep),
{
}

/// A sheep on an open cell always has a move: one of its four neighbours is
/// open.
pub proof fn lemma_sheep_can_move(n: int, sheep: Sheep)
    requires
        valid_size(n),
        is_open(n, sheep.x as int, sheep.y as int),
    ensures
        sheep_moves(n, sheep).len() > 0,
        forall|dog: Dog|
            sheep_reactions(n, sheep, dog) == if dog_visible(sheep, dog) && sheep_moves(
                n,
                sheep,
            ).filter(flees(sheep, dog)).len() > 0 {
                sheep_moves(n, sheep).filter(flees(sheep, dog))
            } else {
                sheep_moves(n, sheep)
            },
{
    let x = sheep.x as int;
    let y = sheep.y as int;
    let c = if is_open(n, x, y - 1) {
        Cell { x: sheep.x, y: (y - 1) as i32, entity: Entity::Sheep }
    } else if is_open(n, x - 1, y) {
        Cell { x: (x - 1) as i32, y: sheep.y, entity: Entity::Sheep }
    } else if is_open(n, x + 1, y) {
        Cell { x: (x + 1) as i32, y: sheep.y, entity: Entity::Sheep }
    } else {
        Cell { x: sheep.x, y: (y + 1) as i32, entity: Entity::Sheep }
    };
    assert(is_open(n, c.x as int, c.y as int));
    lemma_sheep_moves_complete(n, sheep, c);
}

} // verus!
