//! A verified solver core for the 7x6 connect-four game: a bitboard
//! position encoding with win and threat detection, a small best-first
//! move sorter, a family of direct-mapped transposition tables, a
//! read-only opening book, and the negamax alpha-beta search driver.

pub mod bits;
pub mod position;
pub mod solver;
pub mod transposition_table;

pub use position::OpeningBook;
pub use position::Position;
pub use solver::Solver;
pub use transposition_table::TranspositionTable;
