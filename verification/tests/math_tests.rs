use sheepdog::field::{Cell, Dog, Entity, Field, Sheep};
use sheepdog::math::{
    bfs_dog, bfs_sheep, moves_to_sheep, search_from, steps_to_pen, DogDistance, Search,
};

#[test]
fn sheep_at_the_mouth_of_the_pen_is_one_step_away() {
    assert_eq!(bfs_sheep((Sheep::at(15, 14), Dog::at(0, 0))), 1);
    assert_eq!(bfs_sheep((Sheep::at(15, 13), Dog::at(0, 0))), 2);
    assert_eq!(steps_to_pen(&Field::sized(7), Sheep::at(3, 2)), 1);
}

#[test]
fn sheep_walks_straight_where_nothing_is_in_the_way() {
    assert_eq!(bfs_sheep((Sheep::at(15, 0), Dog::at(0, 0))), 15);
    assert_eq!(bfs_sheep((Sheep::at(0, 0), Dog::at(30, 30))), 30);
    assert_eq!(bfs_sheep((Sheep::at(30, 0), Dog::at(30, 30))), 30);
    assert_eq!(bfs_sheep((Sheep::at(10, 10), Dog::at(30, 30))), 10);
}

#[test]
fn sheep_walks_round_the_pen() {
    // From below the pen the way leads round a wall and in from above.
    assert_eq!(bfs_sheep((Sheep::at(15, 30), Dog::at(0, 0))), 23);
    assert_eq!(bfs_sheep((Sheep::at(15, 17), Dog::at(0, 0))), 10);
    assert_eq!(steps_to_pen(&Field::sized(7), Sheep::at(3, 5)), 10);
    assert_eq!(steps_to_pen(&Field::sized(7), Sheep::at(1, 3)), 6);
}

#[test]
fn dog_in_the_way_does_not_stop_the_sheep() {
    assert_eq!(bfs_sheep((Sheep::at(15, 10), Dog::at(15, 12))), 5);
    assert_eq!(bfs_sheep((Sheep::at(15, 13), Dog::at(15, 14))), 2);
}

#[test]
fn sheep_in_the_pen_counts_the_way_out_and_back() {
    assert_eq!(bfs_sheep((Sheep::at(15, 15), Dog::at(0, 0))), 2);
    assert_eq!(steps_to_pen(&Field::sized(7), Sheep::at(3, 3)), 2);
    // On the smallest field the one cell outside the pen is a dead end.
    assert_eq!(steps_to_pen(&Field::sized(3), Sheep::at(1, 1)), 2);
    assert_eq!(steps_to_pen(&Field::sized(3), Sheep::at(1, 0)), 1);
}

#[test]
fn sheep_on_a_fence_still_looks_for_a_way() {
    // From the corner of the left wall the cell above the centre is one step
    // away.
    assert_eq!(steps_to_pen(&Field::sized(7), Sheep::at(2, 2)), 2);
    assert_eq!(steps_to_pen(&Field::sized(7), Sheep::at(3, 4)), 1);
}

#[test]
fn sheep_steps_on_the_small_field() {
    let board = Field::sized(7);
    // The way into the pen leads through (3, 1) and (3, 2); the walls stand
    // in rows two to four of columns two and four.
    let expected = [
        ((3, 2), 1),
        ((3, 1), 2),
        ((3, 0), 3),
        ((1, 1), 4),
        ((0, 0), 6),
        ((6, 0), 6),
        ((0, 2), 6),
        ((1, 3), 6),
        ((5, 3), 6),
        ((2, 5), 9),
        ((4, 5), 9),
        ((3, 5), 10),
        ((0, 6), 10),
        ((6, 6), 10),
        ((3, 6), 11),
    ];
    for ((x, y), steps) in expected {
        assert_eq!(
            steps_to_pen(&board, Sheep::at(x, y)),
            steps,
            "from ({}, {})",
            x,
            y
        );
    }
}

#[test]
fn far_from_the_pen_the_dog_measures_straight() {
    assert_eq!(
        bfs_dog((Sheep::at(30, 30), Dog::at(0, 0))),
        DogDistance::Straight(1800)
    );
    assert_eq!(
        bfs_dog((Sheep::at(0, 0), Dog::at(3, 4))),
        DogDistance::Straight(25)
    );
    assert_eq!(
        bfs_dog((Sheep::at(15, 11), Dog::at(15, 19))),
        DogDistance::Straight(64)
    );
    assert_eq!(
        bfs_dog((Sheep::at(5, 5), Dog::at(5, 5))),
        DogDistance::Straight(0)
    );
}

#[test]
fn near_the_pen_the_dog_counts_its_moves() {
    assert_eq!(
        bfs_dog((Sheep::at(15, 13), Dog::at(15, 12))),
        DogDistance::Moves(1)
    );
    assert_eq!(
        bfs_dog((Sheep::at(15, 14), Dog::at(15, 10))),
        DogDistance::Moves(4)
    );
    assert_eq!(
        bfs_dog((Sheep::at(15, 12), Dog::at(11, 8))),
        DogDistance::Moves(4)
    );
    assert_eq!(
        bfs_dog((Sheep::at(15, 12), Dog::at(15, 11))),
        DogDistance::Moves(1)
    );
    assert_eq!(
        bfs_dog((Sheep::at(15, 12), Dog::at(0, 12))),
        DogDistance::Moves(15)
    );
}

#[test]
fn dog_on_the_sheep_counts_the_way_off_and_back() {
    assert_eq!(
        bfs_dog((Sheep::at(15, 13), Dog::at(15, 13))),
        DogDistance::Moves(2)
    );
}

#[test]
fn dog_goes_round_the_pen_to_the_sheep_inside() {
    let board = Field::sized(7);
    assert_eq!(
        moves_to_sheep(&board, Sheep::at(3, 3), Dog::at(3, 2)),
        DogDistance::Moves(1)
    );
    assert_eq!(
        moves_to_sheep(&board, Sheep::at(3, 3), Dog::at(3, 0)),
        DogDistance::Moves(3)
    );
    // From below the pen: round the wall, in line with the opening, and
    // in.
    assert_eq!(
        moves_to_sheep(&board, Sheep::at(3, 3), Dog::at(3, 5)),
        DogDistance::Moves(7)
    );
    assert_eq!(
        moves_to_sheep(&board, Sheep::at(3, 2), Dog::at(3, 3)),
        DogDistance::Moves(1)
    );
    assert_eq!(
        moves_to_sheep(&board, Sheep::at(0, 0), Dog::at(6, 6)),
        DogDistance::Straight(72)
    );
    assert_eq!(
        moves_to_sheep(&board, Sheep::at(0, 0), Dog::at(5, 5)),
        DogDistance::Straight(50)
    );
    assert_eq!(
        moves_to_sheep(&board, Sheep::at(0, 0), Dog::at(3, 1)),
        DogDistance::Moves(3)
    );
}

#[test]
fn dog_never_reaches_a_sheep_on_a_fence() {
    let board = Field::sized(7);
    assert_eq!(
        moves_to_sheep(&board, Sheep::at(2, 2), Dog::at(0, 0)),
        DogDistance::Moves(0)
    );
    assert_eq!(
        moves_to_sheep(&board, Sheep::at(3, 4), Dog::at(3, 5)),
        DogDistance::Moves(0)
    );
    assert_eq!(
        search_from(
            &board,
            Search::SheepAt(Sheep::at(4, 3)),
            Cell::new(5, 3, Entity::Dog)
        ),
        0
    );
}

#[test]
fn general_search_is_what_the_two_distances_use() {
    let board = Field::sized(7);
    assert_eq!(
        search_from(&board, Search::Pen, Cell::new(0, 0, Entity::Sheep)),
        6
    );
    assert_eq!(
        search_from(
            &board,
            Search::SheepAt(Sheep::at(0, 0)),
            Cell::new(6, 0, Entity::Dog)
        ),
        6
    );
    assert_eq!(
        search_from(
            &board,
            Search::SheepAt(Sheep::at(3, 3)),
            Cell::new(2, 5, Entity::Dog)
        ),
        6
    );
}
