use vstd::prelude::*;

verus! {

#[derive(Clone, Copy, Debug, PartialEq, Eq, Structural)]
pub enum OrderType {
    /// Rests on the book until filled, modified or cancelled.
    GoodTillCancel,
    /// Fills what it can at once; any remainder is dropped before admission returns.
    FillAndKill,
    /// Takes the best prices available; never rests.
    Market,
}

} // verus!
