//! Solvers for a set of grid and sequence puzzles, with the shared point,
//! direction and grid types they are built on.
pub mod arith;
pub mod bfs;
pub mod dir;
pub mod fx;
pub mod grid;
pub mod point;
pub mod queue;
pub mod scan;
pub mod text;

pub mod day1;
pub mod day2;
pub mod day3;
pub mod day4;
pub mod day5;
pub mod day6;
pub mod day7;
pub mod day8;
pub mod day9;
pub mod day10;
pub mod day11;
pub mod day12;
pub mod day13;
pub mod day14;
pub mod day15;
pub mod day16;
pub mod day17;
pub mod day18;
pub mod day19;
pub mod day20;
pub mod day21;
