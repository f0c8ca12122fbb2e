//! A small integer calculator engine: a session state machine that consumes
//! discrete input events and an evaluator that reduces the accumulated token
//! stream by operator precedence.

mod calculator;
mod decimal;
mod eval;
mod laws;

pub use calculator::Calculator;
pub use calculator::Events;
pub use calculator::digit_step;
pub use calculator::negate_val;
pub use decimal::dec_str;
pub use eval::Tokens;
pub use eval::lemma_reordered_permutes;
pub use eval::nums_of;
pub use eval::reordered;
pub use eval::shunting_yard;
pub use laws::lemma_digit_entry;
pub use laws::lemma_negate_involution;
pub use laws::lemma_reset_display;
pub use laws::lemma_fresh_digit_after_evaluate;
