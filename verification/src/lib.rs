//! Core of a calendar-tiling puzzle: eight fixed polyomino pieces tile an
//! irregular 45-cell board so that exactly two cells stay uncovered, and those
//! two cells spell a calendar date (one month cell, one day cell).
//!
//! The crate covers the board geometry and placement rules, the
//! piece-orientation model, the compact nine-byte codec with its
//! placement-recovery encode direction, the exhaustive placement enumeration,
//! and the date-keyed classification of finished boards.

pub mod board;
pub mod cli;
pub mod solutions;
