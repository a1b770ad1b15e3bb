//! Solver for wall-placement puzzles on a fixed 8×8 grid.
//!
//! Walls are placed so that every column and every row holds an exact number
//! of them, no wall stands on a monster or a treasure, the open cells form
//! one connected region, and the dead ends of that region are exactly the
//! cells that hold a monster.
//!
//! * [`puzzle`] holds a puzzle and reads one from text;
//! * [`perms`] lists, for each wall count, the columns that hold so many
//!   walls;
//! * [`search`] grows boards column by column and cuts them by the row
//!   counts, [`rows`] does the row check on a packed board;
//! * [`contiguity`] decides whether the open cells form a single region;
//! * [`dead_ends`] holds the two rules on monsters and dead ends;
//! * [`solver`] runs the search and the filters one after the other and
//!   states what holds of the solutions;
//! * [`render`] turns boards into lines of text;
//! * [`grid`], [`fixed`], [`bits`], [`listing`] and [`text`] hold what the
//!   others share.

pub mod bits;
pub mod contiguity;
pub mod dead_ends;
pub mod fixed;
pub mod grid;
pub mod listing;
pub mod perms;
pub mod puzzle;
pub mod render;
pub mod rows;
pub mod search;
pub mod solver;
pub mod text;
