//! Why a command is refused.

use vstd::prelude::*;

verus! {

/// The reasons for which a book refuses a create command.
#[derive(Clone, Copy, Debug, PartialEq, Eq, Structural)]
pub enum OrderError {
    /// The limit price or the amount is no decimal number, or not above zero.
    InvalidDecimal,
    /// The order id is that of an order still resting in the book.
    InvalidOrder,
}

} // verus!
