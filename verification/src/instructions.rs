use vstd::prelude::*;

verus! {

/// One instruction of the engine. Register operands are small indices into
/// the register file; `Load` carries a 64-bit immediate.
///
/// There is no branch instruction: a program always executes linearly.
#[derive(Debug, Clone, Copy)]
pub enum Instruction {
    /// `registers[reg] = imm`.
    Load(u8, u64),
    /// `registers[r3] = registers[r1] + registers[r2]` (wrapping).
    Add(u8, u8, u8),
    /// `registers[r3] = registers[r1] - registers[r2]` (wrapping).
    Sub(u8, u8, u8),
    /// `registers[r3] = registers[r1] * registers[r2]` (wrapping).
    Mul(u8, u8, u8),
    /// `registers[r3] = registers[r1] / registers[r2]`; fails on a zero divisor.
    Div(u8, u8, u8),
    /// Reads price, amount and id from the three registers, places the order,
    /// and folds the price into best bid or best ask.
    PlaceOrderOptimized(u8, u8, u8),
    /// Removes every order with a strictly positive amount from the shard
    /// named by the register.
    MatchOrdersInShard(u8),
    /// Removes every price level present in both named shards where both
    /// sides hold a strictly positive amount.
    CrossShardMatch(u8, u8),
    /// Rescans the whole book, folding each shard's extremes into the
    /// best-bid/best-ask summaries.
    UpdateBestBidAsk,
    /// `registers[r3] = ` sum of amounts in shard `registers[r4]` whose price
    /// lies in `[registers[r1], registers[r2]]` inclusive.
    VectorizedPriceCheck(u8, u8, u8, u8),
}

} // verus!
