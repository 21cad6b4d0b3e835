//! Puzzle solvers written for targets without a heap: every container has a
//! fixed size, and every function states what it computes.

pub mod day01;
pub mod day02;
pub mod day04;
pub mod day06;
pub mod day11;
pub mod min_heap;
pub mod text;
