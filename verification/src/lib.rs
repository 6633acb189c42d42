//! Evaluation of tabletop dice expressions: rolling with reroll and explode
//! policies, keep/drop/replace selection, and success counting with totals.

pub mod builders;
pub mod enums;
pub mod evaluation;
pub mod ordering;
pub mod result_keeping_rules;
pub mod roll_command;
pub mod roll_result;
pub mod success_counting_rules;
pub mod text;
pub mod utils;
