//! Dice expression evaluation: lexing, parsing and rolling of standard dice
//! notation (`2d6 + 3`, `^d20`, `vd20`), with the exact statistics of each roll.

pub mod types;
pub mod lexer;
pub mod parser;
pub mod dice;
pub mod evaluator;
