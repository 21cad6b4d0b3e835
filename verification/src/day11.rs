//! Monkey in the Middle: a text description of a troop of monkeys is parsed
//! into a fixed array of records, and rounds of inspect-and-throw are run
//! over a private copy of that array.

pub mod business;
pub mod decimal;
pub mod grammar;
pub mod laws;
pub mod model;
pub mod parser;
pub mod render;
pub mod rounds;
pub mod simulator;

pub use grammar::ParseError;
pub use model::{Monkey, MonkeyOp, MAX_ITEMS, NUM_MONKEYS};
pub use parser::{parse, parse_monkey};
pub use rounds::{Relief, SimError};
pub use simulator::{part1, part2, run, simulate, simulated};
