//! A pursuit game on a square field: a dog herds a sheep into a pen at the
//! centre, and must never run into it.
//!
//! * `field` lays out the field and says where each animal may go, and how
//!   the sheep answers the dog.
//! * `utility` holds expected numbers of moves, in millionths of a move, and
//!   the table of them.
//! * `solve_markov` fills the table by value iteration.
//! * `simulations` plays games by the table and tallies them.
//! * `math` measures distances by breadth-first search.
//! * `data` splits a table into the parts used to fit a model of it.
//! * `random` and `fifo` hold what the library takes on trust from the
//!   crates `rand` and `queues`.

pub mod data;
pub mod field;
pub mod fifo;
pub mod math;
pub mod random;
pub mod simulations;
pub mod solve_markov;
pub mod utility;
