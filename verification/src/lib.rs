//! Planning logic for a grid excavation game: a 200 x 200 field of rock
//! cells of unknown hardness, water sources and houses.  The library holds
//! the board model, the route search used to connect every house to a water
//! source, the hill-climbing route optimizer, the interaction decisions and
//! the parser of the judge's input.
pub mod def;
mod heap;
pub mod grid;
pub mod util;
pub mod solver;
pub mod interactor;
pub mod param;
pub mod io;
pub mod solver2;
pub mod legacy;

