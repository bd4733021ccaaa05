//! Incremental integer square roots for gradually changing inputs.
//!
//! A generator remembers the root of the last input together with the
//! bracket of that root: the range of inputs that share it. The next input
//! costs one comparison where it lies in the bracket, and otherwise one
//! addition per root between the old one and the new one. No division and
//! no floating point is used, which suits streams of sensor readings or of
//! slowly growing counters.
//!
//! Two rounding rules are offered, each in its own module: [`floor`] gives
//! the truncating root, [`closest`] the integer whose square is nearest to
//! the input. Each comes in three forms: for inputs that move either way,
//! for inputs that only rise and for inputs that only fall. The last two
//! keep half of the bracket and do not look for a root in the other
//! direction: an input on the wrong side gets the root they hold.
//!
//! Precision can be traded for work by scaling the inputs: the root of
//! `1024 * n` is 32 times the square root of `n`.
//!
//! The input type and the root type of the floor generators are chosen
//! separately. With unsigned types no bracket leaves the input type as long
//! as the root type has at least half its width.

pub mod bracket;
pub mod closest;
pub mod floor;
pub mod number;
