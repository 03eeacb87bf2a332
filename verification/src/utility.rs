//! Expected numbers of moves, kept in millionths of a move, and the table
//! that holds one for each placement of the two animals.

use crate::field::{
    all_cells, cell_at, in_bounds, lemma_rank, rank, valid_size, Dog, Field, Sheep,
};
use std::collections::HashMap;
use vstd::prelude::*;

verus! {

broadcast use vstd::std_specs::hash::group_hash_axioms;

/// The number of parts into which one move is divided.
pub const SCALE: u64 = 1_000_000;

/// An expected number of moves still to make: a count of millionths of a
/// move, or the mark of a placement from which the dog must never start.
#[derive(Debug, Clone, Copy, PartialEq, Eq, Hash, Structural)]
pub enum Utility {
    Finite(u64),
    Infinite,
}

impl Utility {
    /// The sum of two values. Anything added to the infinite value is
    /// infinite, and so is a sum too large to be held.
    pub open spec fn spec_plus(self, other: Utility) -> Utility {
        match (self, other) {
            (Utility::Finite(a), Utility::Finite(b)) => if a + b <= u64::MAX {
                Utility::Finite((a + b) as u64)
            } else {
                Utility::Infinite
            },
            _ => Utility::Infinite,
        }
    }

    /// The value divided by `count`, rounded down: the mean of `count`
    /// values whose sum it is.
    pub open spec fn spec_shared_among(self, count: usize) -> Utility {
        match self {
            Utility::Finite(a) => Utility::Finite((a as int / count as int) as u64),
            Utility::Infinite => Utility::Infinite,
        }
    }

    /// Ninety-nine hundredths of the value, rounded down.
    pub open spec fn spec_discounted(self) -> Utility {
        match self {
            Utility::Finite(a) => Utility::Finite((a * 99 / 100) as u64),
            Utility::Infinite => Utility::Infinite,
        }
    }

    /// The value is strictly smaller than `other`. Every finite value is
    /// smaller than the infinite one.
    pub open spec fn spec_is_below(self, other: Utility) -> bool {
        match (self, other) {
            (Utility::Finite(a), Utility::Finite(b)) => a < b,
            (Utility::Finite(_), Utility::Infinite) => true,
            _ => false,
        }
    }

    /// How far two values lie apart. Two infinite values lie nothing apart,
    /// an infinite and a finite one infinitely far.
    pub open spec fn spec_apart(self, other: Utility) -> Utility {
        match (self, other) {
            (Utility::Finite(a), Utility::Finite(b)) => if a <= b {
                Utility::Finite((b - a) as u64)
            } else {
                Utility::Finite((a - b) as u64)
            },
            (Utility::Infinite, Utility::Infinite) => Utility::Finite(0),
            _ => Utility::Infinite,
        }
    }

    /// The value taken `factor` times over; infinite when too large to be
    /// held.
    pub open spec fn spec_times(self, factor: u64) -> Utility {
        match self {
            Utility::Finite(a) => if a * factor <= u64::MAX {
                Utility::Finite((a * factor) as u64)
            } else {
                Utility::Infinite
            },
            Utility::Infinite => Utility::Infinite,
        }
    }

    /// The value of `count` whole moves.
    pub open spec fn spec_moves(count: u64) -> Utility {
        if count * SCALE <= u64::MAX {
            Utility::Finite((count * SCALE) as u64)
        } else {
            Utility::Infinite
        }
    }

    /// The sum of two values; infinite where one of them is, or where the sum
    /// is too large to be held.
    #[verifier::when_used_as_spec(spec_plus)]
    pub fn plus(self, other: Utility) -> (sum: Utility)
        ensures
            sum == self.spec_plus(other),
    {
        match (self, other) {
            (Utility::Finite(a), Utility::Finite(b)) => match a.checked_add(b) {
                Some(total) => Utility::Finite(total),
                None => Utility::Infinite,
            },
            _ => Utility::Infinite,
        }
    }

    /// The value divided by `count`, rounded down.
    #[verifier::when_used_as_spec(spec_shared_among)]
    pub fn shared_among(self, count: usize) -> (mean: Utility)
        requires
            count > 0,
        ensures
            mean == self.spec_shared_among(count),
    {
        match self {
            Utility::Finite(a) => Utility::Finite(a / (count as u64)),
            Utility::Infinite => Utility::Infinite,
        }
    }

    /// Ninety-nine hundredths of the value, rounded down.
    #[verifier::when_used_as_spec(spec_discounted)]
    pub fn discounted(self) -> (less: Utility)
        ensures
            less == self.spec_discounted(),
    {
        match self {
            Utility::Finite(a) => Utility::Finite(a / 100 * 99 + a % 100 * 99 / 100),
            Utility::Infinite => Utility::Infinite,
        }
    }

    /// Whether the value is strictly smaller than `other`.
    #[verifier::when_used_as_spec(spec_is_below)]
    pub fn is_below(self, other: Utility) -> (below: bool)
        ensures
            below == self.spec_is_below(other),
    {
        match (self, other) {
            (Utility::Finite(a), Utility::Finite(b)) => a < b,
            (Utility::Finite(_), Utility::Infinite) => true,
            _ => false,
        }
    }

    /// How far the two values lie apart.
    #[verifier::when_used_as_spec(spec_apart)]
    pub fn apart(self, other: Utility) -> (gap: Utility)
        ensures
            gap == self.spec_apart(other),
    {
        match (self, other) {
            (Utility::Finite(a), Utility::Finite(b)) => if a <= b {
                Utility::Finite(b - a)
            } else {
                Utility::Finite(a - b)
            },
            (Utility::Infinite, Utility::Infinite) => Utility::Finite(0),
            _ => Utility::Infinite,
        }
    }

    /// The value taken `factor` times over.
    #[verifier::when_used_as_spec(spec_times)]
    pub fn times(self, factor: u64) -> (product: Utility)
        ensures
            product == self.spec_times(factor),
    {
        match self {
            Utility::Finite(a) => match a.checked_mul(factor) {
                Some(parts) => Utility::Finite(parts),
                None => Utility::Infinite,
            },
            Utility::Infinite => Utility::Infinite,
        }
    }

    /// The value of `count` whole moves.
    #[verifier::when_used_as_spec(spec_moves)]
    pub fn moves(count: u64) -> (value: Utility)
        ensures
            value == Utility::spec_moves(count),
    {
        match count.checked_mul(SCALE) {
            Some(parts) => Utility::Finite(parts),
            None => Utility::Infinite,
        }
    }
}

/// A table as contracts speak of it: a map from placements, the sheep named
/// first, to values.
pub type Table = Map<(Sheep, Dog), Utility>;

/// One entry of a table: a placement and its value.
pub type Entry = ((Sheep, Dog), Utility);

/// The number of values a coordinate can take, and more.
spec fn base() -> int {
    0x1_0000_0000
}

/// The number under which the table files a placement: the four
/// coordinates as the digits of a number.
pub closed spec fn key_of(sheep: Sheep, dog: Dog) -> int {
    ((sheep.x * base() + sheep.y) * base() + dog.x) * base() + dog.y
}

/// No two placements with coordinates from zero upwards share a number.
proof fn lemma_key_of_injective(sheep: Sheep, dog: Dog, sheep2: Sheep, dog2: Dog)
    requires
        0 <= sheep.x && 0 <= sheep.y && 0 <= dog.x && 0 <= dog.y,
        0 <= sheep2.x && 0 <= sheep2.y && 0 <= dog2.x && 0 <= dog2.y,
        key_of(sheep, dog) == key_of(sheep2, dog2),
    ensures
        sheep == sheep2,
        dog == dog2,
{
}

/// The number under which the table files a placement.
fn state_key(sheep: Sheep, dog: Dog) -> (key: u128)
    requires
        0 <= sheep.x && 0 <= sheep.y && 0 <= dog.x && 0 <= dog.y,
    ensures
        key == key_of(sheep, dog),
{
    let base: u128 = 0x1_0000_0000;
    ((sheep.x as u128 * base + sheep.y as u128) * base + dog.x as u128) * base + dog.y as u128
}

/// For placements of the two animals on a field of one size, the expected
/// number of moves from each. A placement may be missing: its value is then
/// unknown, not zero.
#[derive(Debug, Clone, PartialEq, Eq)]
pub struct UtilityMap {
    size: Side,
    entries: HashMap<u128, Utility>,
}

/// A side length that a field can have.
#[derive(Debug, Clone, Copy, PartialEq, Eq)]
struct Side {
    length: usize,
}

impl Side {
    #[verifier::type_invariant]
    spec fn sized_well(self) -> bool {
        valid_size(self.length as int)
    }
}

impl View for UtilityMap {
    type V = Table;

    /// The table as a map from placements to values. Only placements on the
    /// field are ever in it.
    closed spec fn view(&self) -> Table {
        Map::new(
            |s: (Sheep, Dog)|
                in_bounds(self.size.length as int, s.0.x as int, s.0.y as int) && in_bounds(
                    self.size.length as int,
                    s.1.x as int,
                    s.1.y as int,
                ) && self.entries@.contains_key(key_of(s.0, s.1) as u128),
            |s: (Sheep, Dog)| self.entries@[key_of(s.0, s.1) as u128],
        )
    }
}

impl UtilityMap {
    /// The side length of the field the table is for.
    pub closed spec fn side(&self) -> int {
        self.size.length as int
    }

    /// The side length is one a field can have, and every placement in the
    /// table lies on that field.
    pub open spec fn wf(&self) -> bool {
        &&& valid_size(self.side())
        &&& forall|s: (Sheep, Dog)| #[trigger]
            self@.contains_key(s) ==> in_bounds(self.side(), s.0.x as int, s.0.y as int)
                && in_bounds(self.side(), s.1.x as int, s.1.y as int)
    }

    /// The empty table for a field of side `size`.
    pub fn new(size: usize) -> (map: UtilityMap)
        requires
            valid_size(size as int),
        ensures
            map.wf(),
            map.side() == size,
            map@ == Table::empty(),
    {
        let map = UtilityMap { size: Side { length: size }, entries: HashMap::new() };
        assert(map@ =~= Table::empty());
        map
    }

    /// The side length of the field the table is for.
    pub fn size(&self) -> (size: usize)
        ensures
            size == self.side(),
            self.wf(),
    {
        proof {
            use_type_invariant(&self.size);
        }
        self.size.length
    }

    /// Whether the placement lies on the table's field.
    fn holds(&self, sheep: Sheep, dog: Dog) -> (inside: bool)
        ensures
            inside == (in_bounds(self.side(), sheep.x as int, sheep.y as int) && in_bounds(
                self.side(),
                dog.x as int,
                dog.y as int,
            )),
    {
        let n: usize = self.size.length;
        0 <= sheep.x && 0 <= sheep.y && (sheep.x as usize) < n && (sheep.y as usize) < n && 0
            <= dog.x && 0 <= dog.y && (dog.x as usize) < n && (dog.y as usize) < n
    }

    /// The value of the placement, if the table has one.
    pub fn get(&self, sheep: Sheep, dog: Dog) -> (value: Option<Utility>)
        ensures
            value == if self@.contains_key((sheep, dog)) {
                Some(self@[(sheep, dog)])
            } else {
                None
            },
    {
        if !self.holds(sheep, dog) {
            return None;
        }
        let key: u128 = state_key(sheep, dog);
        match self.entries.get(&key) {
            Some(value) => Some(*value),
            None => None,
        }
    }

    /// Sets the value of the placement, if it lies on the table's field, and
    /// says whether it does. A placement off the field leaves the table as
    /// it was.
    pub fn insert(&mut self, sheep: Sheep, dog: Dog, value: Utility) -> (done: bool)
        ensures
            done == (in_bounds(old(self).side(), sheep.x as int, sheep.y as int) && in_bounds(
                old(self).side(),
                dog.x as int,
                dog.y as int,
            )),
            final(self).side() == old(self).side(),
            final(self).wf(),
            final(self)@ == if done {
                old(self)@.insert((sheep, dog), value)
            } else {
                old(self)@
            },
    {
        proof {
            use_type_invariant(&self.size);
        }
        if !self.holds(sheep, dog) {
            return false;
        }
        let key: u128 = state_key(sheep, dog);
        self.entries.insert(key, value);
        proof {
            assert forall|s: (Sheep, Dog)|
                in_bounds(self.size.length as int, s.0.x as int, s.0.y as int) && in_bounds(
                    self.size.length as int,
                    s.1.x as int,
                    s.1.y as int,
                ) && s != (sheep, dog) implies key_of(s.0, s.1) as u128 != key by {
                if key_of(s.0, s.1) == key_of(sheep, dog) {
                    lemma_key_of_injective(s.0, s.1, sheep, dog);
                }
            }
            assert(self@ =~= old(self)@.insert((sheep, dog), value));
        }
        true
    }
}

/// The placement made of the cells at places `a` and `b`, the sheep on the
/// first.
pub open spec fn pair_at(n: int, a: int, b: int) -> (Sheep, Dog) {
    (cell_at(n, a).as_sheep(), cell_at(n, b).as_dog())
}

/// The entries of the table for the sheep at place `a` and the dog at the
/// places below `b`, in the order of the dog's places.
pub open spec fn row_entries(values: Table, n: int, a: int, b: int) -> Seq<
    Entry,
>
    decreases b,
{
    if b <= 0 {
        Seq::empty()
    } else {
        let before = row_entries(values, n, a, b - 1);
        let s = pair_at(n, a, b - 1);
        if values.contains_key(s) {
            before.push((s, values[s]))
        } else {
            before
        }
    }
}

/// The entries of the table for the sheep at the places below `a`, in the
/// order of the sheep's places and then of the dog's.
pub open spec fn entries_below(values: Table, n: int, a: int) -> Seq<
    Entry,
>
    decreases a,
{
    if a <= 0 {
        Seq::empty()
    } else {
        entries_below(values, n, a - 1) + row_entries(values, n, a - 1, n * n)
    }
}

/// All entries of a table for a field of side `n`, in the order of the
/// sheep's places and then of the dog's, cells counted row by row.
pub open spec fn listing(values: Table, n: int) -> Seq<
    Entry,
> {
    entries_below(values, n, n * n)
}

/// The entries for one place of the sheep are those that the table holds
/// for it.
proof fn lemma_row_entries(
    values: Table,
    n: int,
    a: int,
    b: int,
    e: Entry,
)
    requires
        0 <= b,
    ensures
        row_entries(values, n, a, b).contains(e) <==> exists|j: int|
            0 <= j < b && e.0 == #[trigger] pair_at(n, a, j) && values.contains_key(e.0)
                && values[e.0] == e.1,
    decreases b,
{
    if b > 0 {
        lemma_row_entries(values, n, a, b - 1, e);
        let before = row_entries(values, n, a, b - 1);
        let s = pair_at(n, a, b - 1);
        if values.contains_key(s) {
            let now = before.push((s, values[s]));
            if now.contains(e) {
                let i = choose|i: int| 0 <= i < now.len() && now[i] == e;
                if i < before.len() {
                    assert(before[i] == e);
                } else {
                    assert(e.0 == pair_at(n, a, b - 1));
                }
            }
            if exists|j: int|
                0 <= j < b && e.0 == #[trigger] pair_at(n, a, j) && values.contains_key(e.0)
                    && values[e.0] == e.1 {
                let j = choose|j: int|
                    0 <= j < b && e.0 == #[trigger] pair_at(n, a, j) && values.contains_key(e.0)
                        && values[e.0] == e.1;
                if j < b - 1 {
                    let i = choose|i: int| 0 <= i < before.len() && before[i] == e;
                    assert(now[i] == e);
                } else {
                    assert(now[before.len() as int] == e);
                }
            }
        } else {
            if exists|j: int|
                0 <= j < b && e.0 == #[trigger] pair_at(n, a, j) && values.contains_key(e.0)
                    && values[e.0] == e.1 {
                let j = choose|j: int|
                    0 <= j < b && e.0 == #[trigger] pair_at(n, a, j) && values.contains_key(e.0)
                        && values[e.0] == e.1;
                assert(j < b - 1);
            }
        }
    }
}

/// The entries for the places below `a` of the sheep are those that the
/// table holds for them.
proof fn lemma_entries_below(
    values: Table,
    n: int,
    a: int,
    e: Entry,
)
    requires
        0 <= a,
        0 <= n * n,
    ensures
        entries_below(values, n, a).contains(e) <==> exists|i: int, j: int|
            0 <= i < a && 0 <= j < n * n && e.0 == #[trigger] pair_at(n, i, j)
                && values.contains_key(e.0) && values[e.0] == e.1,
    decreases a,
{
    if a > 0 {
        lemma_entries_below(values, n, a - 1, e);
        lemma_row_entries(values, n, a - 1, n * n, e);
        let before = entries_below(values, n, a - 1);
        let row = row_entries(values, n, a - 1, n * n);
        let now = before + row;
        if now.contains(e) {
            let k = choose|k: int| 0 <= k < now.len() && now[k] == e;
            if k < before.len() {
                assert(before[k] == e);
                let (i, j) = choose|i: int, j: int|
                    0 <= i < a - 1 && 0 <= j < n * n && e.0 == #[trigger] pair_at(n, i, j)
                        && values.contains_key(e.0) && values[e.0] == e.1;
                assert(0 <= i < a && e.0 == pair_at(n, i, j));
            } else {
                assert(row[k - before.len()] == e);
                let j = choose|j: int|
                    0 <= j < n * n && e.0 == #[trigger] pair_at(n, a - 1, j)
                        && values.contains_key(e.0) && values[e.0] == e.1;
                assert(e.0 == pair_at(n, a - 1, j));
            }
        }
        if exists|i: int, j: int|
            0 <= i < a && 0 <= j < n * n && e.0 == #[trigger] pair_at(n, i, j)
                && values.contains_key(e.0) && values[e.0] == e.1 {
            let (i, j) = choose|i: int, j: int|
                0 <= i < a && 0 <= j < n * n && e.0 == #[trigger] pair_at(n, i, j)
                    && values.contains_key(e.0) && values[e.0] == e.1;
            if i < a - 1 {
                assert(before.contains(e));
                let k = choose|k: int| 0 <= k < before.len() && before[k] == e;
                assert(now[k] == e);
            } else {
                assert(e.0 == pair_at(n, a - 1, j));
                assert(row.contains(e));
                let k = choose|k: int| 0 <= k < row.len() && row[k] == e;
                assert(now[before.len() + k] == e);
            }
        }
    }
}

/// The listing of a table holds each of its entries, and nothing else.
pub proof fn lemma_listing(values: Table, n: int, e: Entry)
    requires
        valid_size(n),
        forall|s: (Sheep, Dog)| #[trigger]
            values.contains_key(s) ==> in_bounds(n, s.0.x as int, s.0.y as int) && in_bounds(
                n,
                s.1.x as int,
                s.1.y as int,
            ),
    ensures
        listing(values, n).contains(e) <==> values.contains_key(e.0) && values[e.0] == e.1,
{
    assert(n * n > 0) by (nonlinear_arith)
        requires
            n >= 3,
    ;
    lemma_entries_below(values, n, n * n, e);
    if values.contains_key(e.0) && values[e.0] == e.1 {
        let i = rank(n, e.0.0.x as int, e.0.0.y as int);
        let j = rank(n, e.0.1.x as int, e.0.1.y as int);
        lemma_rank(n, e.0.0.x as int, e.0.0.y as int);
        lemma_rank(n, e.0.1.x as int, e.0.1.y as int);
        assert(e.0 == pair_at(n, i, j));
    }
}

impl UtilityMap {
    /// All entries of the table, in the order of the sheep's places and then
    /// of the dog's, cells counted row by row.
    pub fn entries(&self) -> (list: Vec<Entry>)
        ensures
            list@ == listing(self@, self.side()),
    {
        let size: usize = self.size();
        let board = Field::sized(size);
        let cells = board.cells();
        let ghost n = size as int;
        assert(n * n > 0) by (nonlinear_arith)
            requires
                n >= 3,
        ;
        let mut list: Vec<Entry> = Vec::new();
        let mut a: usize = 0;
        while a < cells.len()
            invariant
                valid_size(n),
                n == self.side(),
                cells@ == all_cells(n),
                cells@.len() == n * n,
                a <= cells@.len(),
                list@ == entries_below(self@, n, a as int),
            decreases cells@.len() - a,
        {
            let ghost before = list@;
            let mut b: usize = 0;
            while b < cells.len()
                invariant
                    valid_size(n),
                    n == self.side(),
                    cells@ == all_cells(n),
                    cells@.len() == n * n,
                    a < cells@.len(),
                    b <= cells@.len(),
                    list@ == before + row_entries(self@, n, a as int, b as int),
                decreases cells@.len() - b,
            {
                let sheep = Sheep::at(cells[a].x, cells[a].y);
                let dog = Dog::at(cells[b].x, cells[b].y);
                proof {
                    assert(cells@[a as int] == cell_at(n, a as int));
                    assert(cells@[b as int] == cell_at(n, b as int));
                    assert((sheep, dog) == pair_at(n, a as int, b as int));
                }
                match self.get(sheep, dog) {
                    Some(value) => {
                        list.push(((sheep, dog), value));
                        assert(list@ =~= before + row_entries(self@, n, a as int, b + 1));
                    },
                    None => {},
                }
                b += 1;
            }
            a += 1;
        }
        list
    }
}

} // verus!
