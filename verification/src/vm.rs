use vstd::prelude::*;

use crate::instructions::Instruction;
use crate::orderbook::CacheAlignedOrder;
use crate::orderbook::ShardedOrderbook;
use crate::orderbook::lemma_range_sum_concat;
use crate::orderbook::lemma_range_sum_nonneg;
use crate::orderbook::range_sum;
use crate::orderbook::shard_index_spec;
use crate::orderbook::shard_lookup;
use crate::orderbook::shard_sorted;
use crate::orderbook::shard_place;
use vstd::wrapping::u64_specs;

verus! {

/// Number of registers in the register file.
pub const NUM_REGISTERS: usize = 11;

/// Size of the engine's scratch memory, in bytes.
pub const MEMORY_SIZE: usize = 1024;

/// A fatal fault. Every fault aborts the rest of the program; the caller
/// observes whatever mutations preceded the faulting instruction.
#[derive(Debug, Clone, Copy, PartialEq, Eq, Structural)]
pub enum VmError {
    /// Division by zero.
    ArithmeticError,
    /// A register index or a shard index outside the configured bounds.
    OperandOutOfRange,
    /// A cross-shard operation named an out-of-range shard, or named the
    /// same shard twice.
    IndexError,
}

/// The mathematical state of the engine: the register file, the book as one
/// price-sorted order sequence per shard, and the two summary scalars.
#[verifier::ext_equal]
pub struct VmState {
    pub regs: Seq<u64>,
    pub book: Seq<Seq<CacheAlignedOrder>>,
    pub best_bid: u64,
    pub best_ask: u64,
}

/// Whether a register operand is within the register file.
pub open spec fn reg_ok(r: u8) -> bool {
    (r as int) < NUM_REGISTERS as int
}

/// A 64-bit result reduced to its unsigned wraparound representative.
pub open spec fn wrap_u64(x: int) -> u64 {
    (x % 0x1_0000_0000_0000_0000) as u64
}

/// Best bid after a placement: a placed amount that is strictly positive
/// folds the price into the bid by a monotonic maximum.
pub open spec fn bid_after_place(bid: u64, price: u64, amount: u64) -> u64 {
    if amount > 0 && price > bid {
        price
    } else {
        bid
    }
}

/// Best ask after a placement: a placed amount of zero folds the price into
/// the ask by a monotonic minimum.
pub open spec fn ask_after_place(ask: u64, price: u64, amount: u64) -> u64 {
    if amount == 0 && price < ask {
        price
    } else {
        ask
    }
}

/// Best bid after a full rescan: each nonempty shard's highest price is
/// folded in by a monotonic maximum.
pub open spec fn scan_bid(book: Seq<Seq<CacheAlignedOrder>>, cur: u64) -> u64
    decreases book.len(),
{
    if book.len() == 0 {
        cur
    } else {
        let prev = scan_bid(book.drop_last(), cur);
        let s = book.last();
        if s.len() > 0 && s.last().price > prev {
            s.last().price
        } else {
            prev
        }
    }
}

/// Best ask after a full rescan: each nonempty shard's lowest price is
/// folded in by a monotonic minimum.
pub open spec fn scan_ask(book: Seq<Seq<CacheAlignedOrder>>, cur: u64) -> u64
    decreases book.len(),
{
    if book.len() == 0 {
        cur
    } else {
        let prev = scan_ask(book.drop_last(), cur);
        let s = book.last();
        if s.len() > 0 && s[0].price < prev {
            s[0].price
        } else {
            prev
        }
    }
}

/// Whether an order with a strictly positive amount is resident at `price`.
pub open spec fn has_positive_at(s: Seq<CacheAlignedOrder>, price: u64) -> bool {
    match shard_lookup(s, price) {
        Some(o) => o.amount > 0,
        None => false,
    }
}

/// A shard after an intra-shard match: every order with a strictly positive
/// amount leaves; the rest stay, in order.
pub open spec fn match_keep(s: Seq<CacheAlignedOrder>) -> Seq<CacheAlignedOrder>
    decreases s.len(),
{
    if s.len() == 0 {
        s
    } else {
        let rest = match_keep(s.drop_last());
        if s.last().amount > 0 {
            rest
        } else {
            rest.push(s.last())
        }
    }
}

/// A shard after cross-shard matching against `other`: an order leaves when
/// its amount is strictly positive and `other` holds a strictly positive
/// amount at the same price.
pub open spec fn cross_keep(
    s: Seq<CacheAlignedOrder>,
    other: Seq<CacheAlignedOrder>,
) -> Seq<CacheAlignedOrder>
    decreases s.len(),
{
    if s.len() == 0 {
        s
    } else {
        let rest = cross_keep(s.drop_last(), other);
        if s.last().amount > 0 && has_positive_at(other, s.last().price) {
            rest
        } else {
            rest.push(s.last())
        }
    }
}

/// An intra-shard match keeps exactly the zero-amount orders of `s`, as a
/// subsequence: sortedness is preserved.
pub proof fn lemma_match_keep_props(s: Seq<CacheAlignedOrder>)
    ensures
        forall|k: int|
            0 <= k < match_keep(s).len() ==> s.contains(#[trigger] match_keep(s)[k])
                && match_keep(s)[k].amount == 0,
        shard_sorted(s) ==> shard_sorted(match_keep(s)),
    decreases s.len(),
{
    if s.len() > 0 {
        lemma_match_keep_props(s.drop_last());
        let rest = match_keep(s.drop_last());
        assert forall|k: int| 0 <= k < match_keep(s).len() implies s.contains(
            #[trigger] match_keep(s)[k],
        ) && match_keep(s)[k].amount == 0 by {
            if k < rest.len() {
                assert(s.drop_last().contains(rest[k]));
                let m = choose|m: int|
                    0 <= m < s.drop_last().len() && s.drop_last()[m] == rest[k];
                assert(s[m] == rest[k]);
            } else {
                assert(match_keep(s)[k] == s.last());
                assert(s[s.len() - 1] == s.last());
            }
        }
        if shard_sorted(s) {
            assert(shard_sorted(s.drop_last()));
            assert forall|a: int, b: int|
                0 <= a < b < match_keep(s).len() implies match_keep(s)[a].price < match_keep(
                s,
            )[b].price by {
                if b == rest.len() && match_keep(s).len() > rest.len() {
                    assert(s.drop_last().contains(rest[a]));
                    let m = choose|m: int|
                        0 <= m < s.drop_last().len() && s.drop_last()[m] == rest[a];
                    assert(s[m].price < s.last().price);
                }
            }
        }
    }
}

/// A cross-shard match keeps a subsequence of `s`: every survivor is an
/// order of `s`, and sortedness is preserved.
pub proof fn lemma_cross_keep_props(s: Seq<CacheAlignedOrder>, other: Seq<CacheAlignedOrder>)
    ensures
        forall|k: int|
            0 <= k < cross_keep(s, other).len() ==> s.contains(#[trigger] cross_keep(s, other)[k]),
        shard_sorted(s) ==> shard_sorted(cross_keep(s, other)),
    decreases s.len(),
{
    if s.len() > 0 {
        lemma_cross_keep_props(s.drop_last(), other);
        let rest = cross_keep(s.drop_last(), other);
        assert forall|k: int| 0 <= k < cross_keep(s, other).len() implies s.contains(
            #[trigger] cross_keep(s, other)[k],
        ) by {
            if k < rest.len() {
                assert(s.drop_last().contains(rest[k]));
                let m = choose|m: int|
                    0 <= m < s.drop_last().len() && s.drop_last()[m] == rest[k];
                assert(s[m] == rest[k]);
            } else {
                assert(cross_keep(s, other)[k] == s.last());
                assert(s[s.len() - 1] == s.last());
            }
        }
        if shard_sorted(s) {
            assert(shard_sorted(s.drop_last()));
            assert forall|a: int, b: int|
                0 <= a < b < cross_keep(s, other).len() implies cross_keep(s, other)[a].price
                < cross_keep(s, other)[b].price by {
                if b == rest.len() && cross_keep(s, other).len() > rest.len() {
                    assert(s.drop_last().contains(rest[a]));
                    let m = choose|m: int|
                        0 <= m < s.drop_last().len() && s.drop_last()[m] == rest[a];
                    assert(s[m].price < s.last().price);
                }
            }
        }
    }
}

/// The effect of one instruction on the engine state, or the fault it
/// raises. Every instruction is checked before it mutates, so a faulting
/// instruction leaves the state unchanged.
pub open spec fn step(st: VmState, instr: Instruction) -> Result<VmState, VmError> {
    match instr {
        Instruction::Load(reg, value) => if reg_ok(reg) {
            Ok(VmState { regs: st.regs.update(reg as int, value), ..st })
        } else {
            Err(VmError::OperandOutOfRange)
        },
        Instruction::Add(r1, r2, r3) => if reg_ok(r1) && reg_ok(r2) && reg_ok(r3) {
            Ok(
                VmState {
                    regs: st.regs.update(
                        r3 as int,
                        u64_specs::wrapping_add(st.regs[r1 as int], st.regs[r2 as int]),
                    ),
                    ..st
                },
            )
        } else {
            Err(VmError::OperandOutOfRange)
        },
        Instruction::Sub(r1, r2, r3) => if reg_ok(r1) && reg_ok(r2) && reg_ok(r3) {
            Ok(
                VmState {
                    regs: st.regs.update(
                        r3 as int,
                        u64_specs::wrapping_sub(st.regs[r1 as int], st.regs[r2 as int]),
                    ),
                    ..st
                },
            )
        } else {
            Err(VmError::OperandOutOfRange)
        },
        Instruction::Mul(r1, r2, r3) => if reg_ok(r1) && reg_ok(r2) && reg_ok(r3) {
            Ok(
                VmState {
                    regs: st.regs.update(
                        r3 as int,
                        u64_specs::wrapping_mul(st.regs[r1 as int], st.regs[r2 as int]),
                    ),
                    ..st
                },
            )
        } else {
            Err(VmError::OperandOutOfRange)
        },
        Instruction::Div(r1, r2, r3) => if !(reg_ok(r1) && reg_ok(r2) && reg_ok(r3)) {
            Err(VmError::OperandOutOfRange)
        } else if st.regs[r2 as int] == 0 {
            Err(VmError::ArithmeticError)
        } else {
            Ok(
                VmState {
                    regs: st.regs.update(r3 as int, st.regs[r1 as int] / st.regs[r2 as int]),
                    ..st
                },
            )
        },
        Instruction::PlaceOrderOptimized(pr, ar, ir) => if reg_ok(pr) && reg_ok(ar) && reg_ok(
            ir,
        ) {
            let price = st.regs[pr as int];
            let amount = st.regs[ar as int];
            let id = st.regs[ir as int];
            let idx = shard_index_spec(price, st.book.len() as int);
            Ok(
                VmState {
                    book: st.book.update(
                        idx,
                        shard_place(st.book[idx], CacheAlignedOrder { price, amount, id }),
                    ),
                    best_bid: bid_after_place(st.best_bid, price, amount),
                    best_ask: ask_after_place(st.best_ask, price, amount),
                    ..st
                },
            )
        } else {
            Err(VmError::OperandOutOfRange)
        },
        Instruction::MatchOrdersInShard(sr) => if reg_ok(sr) {
            let sid = st.regs[sr as int];
            if (sid as int) < st.book.len() {
                Ok(
                    VmState {
                        book: st.book.update(sid as int, match_keep(st.book[sid as int])),
                        ..st
                    },
                )
            } else {
                Err(VmError::OperandOutOfRange)
            }
        } else {
            Err(VmError::OperandOutOfRange)
        },
        Instruction::CrossShardMatch(r1, r2) => if reg_ok(r1) && reg_ok(r2) {
            let a = st.regs[r1 as int];
            let b = st.regs[r2 as int];
            if (a as int) < st.book.len() && (b as int) < st.book.len() && a != b {
                Ok(
                    VmState {
                        book: st.book.update(
                            a as int,
                            cross_keep(st.book[a as int], st.book[b as int]),
                        ).update(b as int, cross_keep(st.book[b as int], st.book[a as int])),
                        ..st
                    },
                )
            } else {
                Err(VmError::IndexError)
            }
        } else {
            Err(VmError::OperandOutOfRange)
        },
        Instruction::UpdateBestBidAsk => Ok(
            VmState {
                best_bid: scan_bid(st.book, st.best_bid),
                best_ask: scan_ask(st.book, st.best_ask),
                ..st
            },
        ),
        Instruction::VectorizedPriceCheck(sr, er, rr, shr) => if reg_ok(sr) && reg_ok(er)
            && reg_ok(rr) && reg_ok(shr) {
            let sh = st.regs[shr as int];
            if (sh as int) < st.book.len() {
                let total = range_sum(st.book[sh as int], st.regs[sr as int], st.regs[er as int]);
                Ok(VmState { regs: st.regs.update(rr as int, wrap_u64(total)), ..st })
            } else {
                Err(VmError::OperandOutOfRange)
            }
        } else {
            Err(VmError::OperandOutOfRange)
        },
    }
}

/// A shard whose orders all carry a zero amount is left exactly as it is
/// by an intra-shard match.
pub proof fn lemma_match_keep_of_zeros(s: Seq<CacheAlignedOrder>)
    requires
        forall|k: int| 0 <= k < s.len() ==> (#[trigger] s[k]).amount == 0,
    ensures
        match_keep(s) == s,
    decreases s.len(),
{
    if s.len() > 0 {
        assert(forall|k: int|
            0 <= k < s.drop_last().len() ==> (#[trigger] s.drop_last()[k]).amount == 0);
        lemma_match_keep_of_zeros(s.drop_last());
        assert(s[s.len() - 1].amount == 0);
        assert(s.drop_last().push(s.last()) =~= s);
    }
}

/// Match idempotence: sweeping a shard a second time removes nothing,
/// because the first sweep left only zero-amount orders behind.
pub proof fn lemma_match_keep_idempotent(s: Seq<CacheAlignedOrder>)
    ensures
        match_keep(match_keep(s)) == match_keep(s),
{
    lemma_match_keep_props(s);
    lemma_match_keep_of_zeros(match_keep(s));
}

/// Match idempotence at the instruction level: when `MatchOrdersInShard`
/// completes, running it again at once yields exactly the same state.
pub proof fn lemma_match_instruction_idempotent(st: VmState, shard_reg: u8)
    ensures
        match step(st, Instruction::MatchOrdersInShard(shard_reg)) {
            Ok(st1) => step(st1, Instruction::MatchOrdersInShard(shard_reg)) == Ok::<
                VmState,
                VmError,
            >(st1),
            Err(_) => true,
        },
{
    if reg_ok(shard_reg) {
        let sid = st.regs[shard_reg as int] as int;
        if sid < st.book.len() {
            let st1 = VmState { book: st.book.update(sid, match_keep(st.book[sid])), ..st };
            assert(step(st, Instruction::MatchOrdersInShard(shard_reg)) == Ok::<
                VmState,
                VmError,
            >(st1));
            lemma_match_keep_idempotent(st.book[sid]);
            assert(st1.book.update(sid, match_keep(st1.book[sid])) =~= st1.book);
            assert((VmState { book: st1.book.update(sid, match_keep(st1.book[sid])), ..st1 })
                =~= st1);
        }
    }
}

/// Cross-shard symmetry: naming the two shards in either order is the same
/// instruction — the same fault on the same inputs, and the same resulting
/// order book, because both survivors are computed from the shards as they
/// stood before either is touched.
pub proof fn lemma_cross_instruction_symmetric(st: VmState, r1: u8, r2: u8)
    ensures
        step(st, Instruction::CrossShardMatch(r1, r2)) == step(
            st,
            Instruction::CrossShardMatch(r2, r1),
        ),
{
    if reg_ok(r1) && reg_ok(r2) {
        let a = st.regs[r1 as int];
        let b = st.regs[r2 as int];
        if (a as int) < st.book.len() && (b as int) < st.book.len() && a != b {
            let ka = cross_keep(st.book[a as int], st.book[b as int]);
            let kb = cross_keep(st.book[b as int], st.book[a as int]);
            assert(st.book.update(a as int, ka).update(b as int, kb) =~= st.book.update(
                b as int,
                kb,
            ).update(a as int, ka));
            assert((VmState { book: st.book.update(a as int, ka).update(b as int, kb), ..st })
                =~= (VmState {
                book: st.book.update(b as int, kb).update(a as int, ka),
                ..st
            }));
        }
    }
}

/// A full rescan can only raise the best bid.
pub proof fn lemma_scan_bid_ge(book: Seq<Seq<CacheAlignedOrder>>, cur: u64)
    ensures
        scan_bid(book, cur) >= cur,
    decreases book.len(),
{
    if book.len() > 0 {
        lemma_scan_bid_ge(book.drop_last(), cur);
    }
}

/// A full rescan can only lower the best ask.
pub proof fn lemma_scan_ask_le(book: Seq<Seq<CacheAlignedOrder>>, cur: u64)
    ensures
        scan_ask(book, cur) <= cur,
    decreases book.len(),
{
    if book.len() > 0 {
        lemma_scan_ask_le(book.drop_last(), cur);
    }
}

/// No instruction that completes lowers the best bid or raises the best
/// ask: the two summaries move monotonically under every single step.
pub proof fn lemma_step_monotonic(st: VmState, instr: Instruction)
    ensures
        match step(st, instr) {
            Ok(st2) => st2.best_bid >= st.best_bid && st2.best_ask <= st.best_ask,
            Err(_) => true,
        },
{
    match instr {
        Instruction::UpdateBestBidAsk => {
            lemma_scan_bid_ge(st.book, st.best_bid);
            lemma_scan_ask_le(st.book, st.best_ask);
        },
        _ => {},
    }
}

/// Where a run ends: the state it reaches, the program counter it stops at,
/// and the fault that stopped it, if any.
#[verifier::ext_equal]
pub struct RunOutcome {
    pub state: VmState,
    pub pc: int,
    pub error: Option<VmError>,
}

/// Runs the program from `pc` to its end or to the first fault. The counter
/// of a faulting run rests on the faulting instruction.
pub open spec fn run_spec(st: VmState, program: Seq<Instruction>, pc: int) -> RunOutcome
    decreases program.len() - pc,
{
    if pc < 0 || pc >= program.len() {
        RunOutcome { state: st, pc, error: None }
    } else {
        match step(st, program[pc]) {
            Ok(st2) => run_spec(st2, program, pc + 1),
            Err(e) => RunOutcome { state: st, pc, error: Some(e) },
        }
    }
}

/// Over any program, from any starting point, the best bid never falls and
/// the best ask never rises: the monotonicity of each step carries over
/// every sequence of placements, rescans and matches.
pub proof fn lemma_run_monotonic(st: VmState, program: Seq<Instruction>, pc: int)
    ensures
        run_spec(st, program, pc).state.best_bid >= st.best_bid,
        run_spec(st, program, pc).state.best_ask <= st.best_ask,
    decreases program.len() - pc,
{
    if 0 <= pc < program.len() {
        match step(st, program[pc]) {
            Ok(st2) => {
                lemma_step_monotonic(st, program[pc]);
                lemma_run_monotonic(st2, program, pc + 1);
            },
            Err(_) => {},
        }
    }
}

/// The order resident at `price`, scanning as `shard_lookup` does.
fn shard_find(shard: &Vec<CacheAlignedOrder>, price: u64) -> (r: Option<CacheAlignedOrder>)
    ensures
        r == shard_lookup(shard@, price),
{
    let ghost s = shard@;
    proof {
        assert(s.take(s.len() as int) =~= s);
    }
    let mut i: usize = shard.len();
    while i > 0
        invariant
            i <= s.len(),
            shard@ == s,
            shard_lookup(s, price) == shard_lookup(s.take(i as int), price),
        decreases i,
    {
        i = i - 1;
        proof {
            assert(s.take(i as int + 1).drop_last() =~= s.take(i as int));
            assert(s.take(i as int + 1).last() == s[i as int]);
        }
        if shard[i].price == price {
            return Some(shard[i]);
        }
    }
    proof {
        assert(s.take(0) =~= Seq::<CacheAlignedOrder>::empty());
    }
    None
}

/// The survivors of shard `a` after cross-shard matching against shard `b`.
fn cross_filter(a: &Vec<CacheAlignedOrder>, b: &Vec<CacheAlignedOrder>) -> (r: Vec<
    CacheAlignedOrder,
>)
    ensures
        r@ == cross_keep(a@, b@),
{
    let mut kept: Vec<CacheAlignedOrder> = Vec::new();
    let mut i: usize = 0;
    while i < a.len()
        invariant
            i <= a@.len(),
            kept@ == cross_keep(a@.take(i as int), b@),
        decreases a@.len() - i,
    {
        let o = a[i];
        let hit = shard_find(b, o.price);
        let matched = o.amount > 0 && match hit {
            Some(p) => p.amount > 0,
            None => false,
        };
        proof {
            assert(a@.take(i as int + 1).drop_last() =~= a@.take(i as int));
            assert(a@.take(i as int + 1).last() == a@[i as int]);
        }
        if !matched {
            kept.push(o);
        }
        i += 1;
    }
    proof {
        assert(a@.take(a@.len() as int) =~= a@);
    }
    kept
}

/// The execution engine: a register file, scratch memory, an immutable
/// program with its counter, the sharded book, and the two summaries.
pub struct BulkBookVM {
    pub registers: Vec<u64>,
    pub memory: Vec<u8>,
    pub program: Vec<Instruction>,
    pub pc: usize,
    pub orderbook: ShardedOrderbook,
    pub best_bid: u64,
    pub best_ask: u64,
}

impl BulkBookVM {
    /// Structural invariant: a full register file over a well-formed book.
    pub open spec fn wf(self) -> bool {
        &&& self.registers@.len() == NUM_REGISTERS as int
        &&& self.orderbook.wf()
    }

    /// The mathematical state the instruction semantics act on.
    pub open spec fn state(self) -> VmState {
        VmState {
            regs: self.registers@,
            book: self.orderbook.book(),
            best_bid: self.best_bid,
            best_ask: self.best_ask,
        }
    }

    /// Creates an engine over `shard_count` empty shards, with zeroed
    /// registers and memory, the counter at the start of `program`, and the
    /// summaries at their sentinels: zero bid, maximal ask.
    pub fn new(program: Vec<Instruction>, shard_count: usize) -> (r: Self)
        requires
            shard_count > 0,
        ensures
            r.wf(),
            r.program@ == program@,
            r.pc == 0,
            r.orderbook.shard_count == shard_count,
            r.state().regs == Seq::new(NUM_REGISTERS as nat, |i: int| 0u64),
            r.state().book == Seq::new(shard_count as nat, |i: int| Seq::<
                CacheAlignedOrder,
            >::empty()),
            r.best_bid == 0,
            r.best_ask == u64::MAX,
            r.memory@ == Seq::new(MEMORY_SIZE as nat, |i: int| 0u8),
    {
        let mut registers: Vec<u64> = Vec::new();
        let mut i: usize = 0;
        while i < NUM_REGISTERS
            invariant
                i <= NUM_REGISTERS,
                registers@.len() == i,
                forall|j: int| 0 <= j < i ==> registers@[j] == 0u64,
            decreases NUM_REGISTERS - i,
        {
            registers.push(0);
            i += 1;
        }
        let mut memory: Vec<u8> = Vec::new();
        let mut k: usize = 0;
        while k < MEMORY_SIZE
            invariant
                k <= MEMORY_SIZE,
                memory@.len() == k,
                forall|j: int| 0 <= j < k ==> memory@[j] == 0u8,
            decreases MEMORY_SIZE - k,
        {
            memory.push(0);
            k += 1;
        }
        let r = BulkBookVM {
            registers,
            memory,
            program,
            pc: 0,
            orderbook: ShardedOrderbook::new(shard_count),
            best_bid: 0,
            best_ask: u64::MAX,
        };
        proof {
            assert(r.state().regs =~= Seq::new(NUM_REGISTERS as nat, |i: int| 0u64));
            assert(r.memory@ =~= Seq::new(MEMORY_SIZE as nat, |i: int| 0u8));
        }
        r
    }

    /// Runs the program from the current counter to its end, or to the
    /// first fault. The counter of a faulted run rests on the faulting
    /// instruction, and the state keeps every mutation that preceded it.
    pub fn run(&mut self) -> (r: Result<(), VmError>)
        requires
            old(self).wf(),
        ensures
            final(self).wf(),
            final(self).program == old(self).program,
            final(self).memory == old(self).memory,
            final(self).orderbook.shard_count == old(self).orderbook.shard_count,
            ({
                let outcome = run_spec(old(self).state(), old(self).program@, old(self).pc as int);
                &&& final(self).state() == outcome.state
                &&& final(self).pc as int == outcome.pc
                &&& match outcome.error {
                    None => r is Ok,
                    Some(e) => r == Err::<(), VmError>(e),
                }
            }),
            final(self).best_bid >= old(self).best_bid,
            final(self).best_ask <= old(self).best_ask,
    {
        while self.pc < self.program.len()
            invariant
                self.wf(),
                self.program == old(self).program,
                self.memory == old(self).memory,
                self.orderbook.shard_count == old(self).orderbook.shard_count,
                self.best_bid >= old(self).best_bid,
                self.best_ask <= old(self).best_ask,
                run_spec(self.state(), self.program@, self.pc as int) == run_spec(
                    old(self).state(),
                    old(self).program@,
                    old(self).pc as int,
                ),
            decreases self.program@.len() - self.pc,
        {
            let instruction = self.program[self.pc];
            let ghost pre = self.state();
            let ghost pre_pc = self.pc as int;
            match self.execute(instruction) {
                Ok(()) => {},
                Err(e) => {
                    proof {
                        assert(run_spec(pre, self.program@, pre_pc) == RunOutcome {
                            state: pre,
                            pc: pre_pc,
                            error: Some(e),
                        });
                    }
                    return Err(e);
                },
            }
            self.pc = self.pc + 1;
            proof {
                assert(run_spec(pre, self.program@, pre_pc) == run_spec(
                    self.state(),
                    self.program@,
                    self.pc as int,
                ));
            }
        }
        Ok(())
    }

    /// Fetches nothing: executes the one given instruction against the
    /// current state. A faulting instruction reports its fault and leaves
    /// the state exactly as it was; a completing one transforms the state
    /// as the instruction semantics say, and never moves the best bid down
    /// nor the best ask up. The counter is the caller's business.
    pub fn execute(&mut self, instruction: Instruction) -> (r: Result<(), VmError>)
        requires
            old(self).wf(),
        ensures
            final(self).wf(),
            final(self).program == old(self).program,
            final(self).memory == old(self).memory,
            final(self).pc == old(self).pc,
            final(self).orderbook.shard_count == old(self).orderbook.shard_count,
            match step(old(self).state(), instruction) {
                Ok(st) => r is Ok && final(self).state() == st,
                Err(e) => r == Err::<(), VmError>(e) && final(self).state() == old(self).state(),
            },
            final(self).best_bid >= old(self).best_bid,
            final(self).best_ask <= old(self).best_ask,
    {
        proof {
            lemma_step_monotonic(old(self).state(), instruction);
        }
        match instruction {
            Instruction::Load(reg, value) => {
                if (reg as usize) < NUM_REGISTERS {
                    self.registers[reg as usize] = value;
                    proof {
                        assert(final(self).state() =~= (VmState {
                            regs: old(self).state().regs.update(reg as int, value),
                            ..old(self).state()
                        }));
                    }
                    Ok(())
                } else {
                    Err(VmError::OperandOutOfRange)
                }
            },
            Instruction::Add(r1, r2, r3) => {
                if (r1 as usize) < NUM_REGISTERS && (r2 as usize) < NUM_REGISTERS && (r3 as usize)
                    < NUM_REGISTERS {
                    let a = self.registers[r1 as usize];
                    let b = self.registers[r2 as usize];
                    self.registers[r3 as usize] = a.wrapping_add(b);
                    proof {
                        assert(final(self).state() =~= (VmState {
                            regs: old(self).state().regs.update(
                                r3 as int,
                                u64_specs::wrapping_add(a, b),
                            ),
                            ..old(self).state()
                        }));
                    }
                    Ok(())
                } else {
                    Err(VmError::OperandOutOfRange)
                }
            },
            Instruction::Sub(r1, r2, r3) => {
                if (r1 as usize) < NUM_REGISTERS && (r2 as usize) < NUM_REGISTERS && (r3 as usize)
                    < NUM_REGISTERS {
                    let a = self.registers[r1 as usize];
                    let b = self.registers[r2 as usize];
                    self.registers[r3 as usize] = a.wrapping_sub(b);
                    proof {
                        assert(final(self).state() =~= (VmState {
                            regs: old(self).state().regs.update(
                                r3 as int,
                                u64_specs::wrapping_sub(a, b),
                            ),
                            ..old(self).state()
                        }));
                    }
                    Ok(())
                } else {
                    Err(VmError::OperandOutOfRange)
                }
            },
            Instruction::Mul(r1, r2, r3) => {
                if (r1 as usize) < NUM_REGISTERS && (r2 as usize) < NUM_REGISTERS && (r3 as usize)
                    < NUM_REGISTERS {
                    let a = self.registers[r1 as usize];
                    let b = self.registers[r2 as usize];
                    self.registers[r3 as usize] = a.wrapping_mul(b);
                    proof {
                        assert(final(self).state() =~= (VmState {
                            regs: old(self).state().regs.update(
                                r3 as int,
                                u64_specs::wrapping_mul(a, b),
                            ),
                            ..old(self).state()
                        }));
                    }
                    Ok(())
                } else {
                    Err(VmError::OperandOutOfRange)
                }
            },
            Instruction::Div(r1, r2, r3) => {
                if (r1 as usize) < NUM_REGISTERS && (r2 as usize) < NUM_REGISTERS && (r3 as usize)
                    < NUM_REGISTERS {
                    let b = self.registers[r2 as usize];
                    if b == 0 {
                        Err(VmError::ArithmeticError)
                    } else {
                        let a = self.registers[r1 as usize];
                        self.registers[r3 as usize] = a / b;
                        proof {
                            assert(final(self).state() =~= (VmState {
                                regs: old(self).state().regs.update(r3 as int, (a / b) as u64),
                                ..old(self).state()
                            }));
                        }
                        Ok(())
                    }
                } else {
                    Err(VmError::OperandOutOfRange)
                }
            },
            Instruction::PlaceOrderOptimized(price_reg, amount_reg, id_reg) => {
                if (price_reg as usize) < NUM_REGISTERS && (amount_reg as usize) < NUM_REGISTERS
                    && (id_reg as usize) < NUM_REGISTERS {
                    let price = self.registers[price_reg as usize];
                    let amount = self.registers[amount_reg as usize];
                    let id = self.registers[id_reg as usize];
                    self.orderbook.place_order(price, amount, id);
                    self.update_best_bid_ask(price, amount);
                    proof {
                        let st0 = old(self).state();
                        let idx = shard_index_spec(price, st0.book.len() as int);
                        assert(final(self).state() =~= (VmState {
                            book: st0.book.update(
                                idx,
                                shard_place(
                                    st0.book[idx],
                                    CacheAlignedOrder { price, amount, id },
                                ),
                            ),
                            best_bid: bid_after_place(st0.best_bid, price, amount),
                            best_ask: ask_after_place(st0.best_ask, price, amount),
                            ..st0
                        }));
                    }
                    Ok(())
                } else {
                    Err(VmError::OperandOutOfRange)
                }
            },
            Instruction::MatchOrdersInShard(shard_reg) => {
                if (shard_reg as usize) < NUM_REGISTERS {
                    let sid = self.registers[shard_reg as usize];
                    if sid < self.orderbook.shard_count as u64 {
                        self.match_orders_in_shard(sid as usize);
                        proof {
                            let st0 = old(self).state();
                            assert(final(self).state() =~= (VmState {
                                book: st0.book.update(
                                    sid as int,
                                    match_keep(st0.book[sid as int]),
                                ),
                                ..st0
                            }));
                        }
                        Ok(())
                    } else {
                        Err(VmError::OperandOutOfRange)
                    }
                } else {
                    Err(VmError::OperandOutOfRange)
                }
            },
            Instruction::CrossShardMatch(shard1_reg, shard2_reg) => {
                if (shard1_reg as usize) < NUM_REGISTERS && (shard2_reg as usize)
                    < NUM_REGISTERS {
                    let a = self.registers[shard1_reg as usize];
                    let b = self.registers[shard2_reg as usize];
                    if a < self.orderbook.shard_count as u64 && b < self.orderbook.shard_count
                        as u64 && a != b {
                        self.cross_shard_match(a as usize, b as usize);
                        proof {
                            let st0 = old(self).state();
                            assert(final(self).state() =~= (VmState {
                                book: st0.book.update(
                                    a as int,
                                    cross_keep(st0.book[a as int], st0.book[b as int]),
                                ).update(
                                    b as int,
                                    cross_keep(st0.book[b as int], st0.book[a as int]),
                                ),
                                ..st0
                            }));
                        }
                        Ok(())
                    } else {
                        Err(VmError::IndexError)
                    }
                } else {
                    Err(VmError::OperandOutOfRange)
                }
            },
            Instruction::UpdateBestBidAsk => {
                self.update_best_bid_ask_full();
                proof {
                    let st0 = old(self).state();
                    assert(final(self).state() =~= (VmState {
                        best_bid: scan_bid(st0.book, st0.best_bid),
                        best_ask: scan_ask(st0.book, st0.best_ask),
                        ..st0
                    }));
                }
                Ok(())
            },
            Instruction::VectorizedPriceCheck(start_reg, end_reg, result_reg, shard_reg) => {
                if (start_reg as usize) < NUM_REGISTERS && (end_reg as usize) < NUM_REGISTERS
                    && (result_reg as usize) < NUM_REGISTERS && (shard_reg as usize)
                    < NUM_REGISTERS {
                    let start = self.registers[start_reg as usize];
                    let end = self.registers[end_reg as usize];
                    let sh = self.registers[shard_reg as usize];
                    if sh < self.orderbook.shard_count as u64 {
                        let result = self.vectorized_price_check(start, end, sh as usize);
                        self.registers[result_reg as usize] = result;
                        proof {
                            let st0 = old(self).state();
                            assert(final(self).state() =~= (VmState {
                                regs: st0.regs.update(
                                    result_reg as int,
                                    wrap_u64(range_sum(st0.book[sh as int], start, end)),
                                ),
                                ..st0
                            }));
                        }
                        Ok(())
                    } else {
                        Err(VmError::OperandOutOfRange)
                    }
                } else {
                    Err(VmError::OperandOutOfRange)
                }
            },
        }
    }

    /// Folds a placed order's price into the summaries: a strictly positive
    /// amount raises the bid by a monotonic maximum, a zero amount lowers
    /// the ask by a monotonic minimum. Orders carry no side field, so the
    /// amount stands in for the side here; the full rescan deliberately uses
    /// a different rule, per-shard extremes regardless of amount.
    fn update_best_bid_ask(&mut self, price: u64, amount: u64)
        ensures
            final(self).state() == (VmState {
                best_bid: bid_after_place(old(self).best_bid, price, amount),
                best_ask: ask_after_place(old(self).best_ask, price, amount),
                ..old(self).state()
            }),
            final(self).orderbook == old(self).orderbook,
            final(self).registers == old(self).registers,
            final(self).program == old(self).program,
            final(self).memory == old(self).memory,
            final(self).pc == old(self).pc,
    {
        if amount > 0 {
            if price > self.best_bid {
                self.best_bid = price;
            }
        } else {
            if price < self.best_ask {
                self.best_ask = price;
            }
        }
        proof {
            assert(final(self).state() =~= (VmState {
                best_bid: bid_after_place(old(self).best_bid, price, amount),
                best_ask: ask_after_place(old(self).best_ask, price, amount),
                ..old(self).state()
            }));
        }
    }

    /// Rescans every shard, folding each nonempty shard's highest price into
    /// the bid and its lowest into the ask. An empty shard contributes
    /// nothing; an empty book leaves both summaries as they were.
    fn update_best_bid_ask_full(&mut self)
        requires
            old(self).wf(),
        ensures
            final(self).wf(),
            final(self).state() == (VmState {
                best_bid: scan_bid(old(self).state().book, old(self).best_bid),
                best_ask: scan_ask(old(self).state().book, old(self).best_ask),
                ..old(self).state()
            }),
            final(self).orderbook == old(self).orderbook,
            final(self).registers == old(self).registers,
            final(self).program == old(self).program,
            final(self).memory == old(self).memory,
            final(self).pc == old(self).pc,
    {
        let ghost book = self.orderbook.book();
        let ghost bid0 = self.best_bid;
        let ghost ask0 = self.best_ask;
        let n = self.orderbook.shards.len();
        let mut i: usize = 0;
        while i < n
            invariant
                i <= n,
                n == self.orderbook.shards@.len(),
                self.orderbook == old(self).orderbook,
                self.registers == old(self).registers,
                self.program == old(self).program,
                self.memory == old(self).memory,
                self.pc == old(self).pc,
                book == self.orderbook.book(),
                bid0 == old(self).best_bid,
                ask0 == old(self).best_ask,
                self.best_bid == scan_bid(book.take(i as int), bid0),
                self.best_ask == scan_ask(book.take(i as int), ask0),
            decreases n - i,
        {
            proof {
                assert(book.take(i as int + 1).drop_last() =~= book.take(i as int));
                assert(book.take(i as int + 1).last() == book[i as int]);
                assert(book[i as int] == self.orderbook.shards@[i as int]@);
            }
            let len = self.orderbook.shards[i].len();
            if len > 0 {
                let hi = self.orderbook.shards[i][len - 1].price;
                if hi > self.best_bid {
                    self.best_bid = hi;
                }
                let lo = self.orderbook.shards[i][0].price;
                if lo < self.best_ask {
                    self.best_ask = lo;
                }
            }
            i += 1;
        }
        proof {
            assert(book.take(n as int) =~= book);
            assert(final(self).state() =~= (VmState {
                best_bid: scan_bid(old(self).state().book, old(self).best_bid),
                best_ask: scan_ask(old(self).state().book, old(self).best_ask),
                ..old(self).state()
            }));
        }
    }

    /// Sweeps one shard, removing every order whose amount is strictly
    /// positive. A shard holds at most one order per price, so there is no
    /// counter-order to pair with: the sweep is an unconditional
    /// clear-if-positive, and a second sweep finds nothing left to remove.
    fn match_orders_in_shard(&mut self, shard_id: usize)
        requires
            old(self).wf(),
            shard_id < old(self).orderbook.shards@.len(),
        ensures
            final(self).wf(),
            final(self).orderbook.shard_count == old(self).orderbook.shard_count,
            final(self).state() == (VmState {
                book: old(self).state().book.update(
                    shard_id as int,
                    match_keep(old(self).state().book[shard_id as int]),
                ),
                ..old(self).state()
            }),
            final(self).registers == old(self).registers,
            final(self).program == old(self).program,
            final(self).memory == old(self).memory,
            final(self).pc == old(self).pc,
            final(self).best_bid == old(self).best_bid,
            final(self).best_ask == old(self).best_ask,
    {
        let ghost s = self.orderbook.shards@[shard_id as int]@;
        let mut kept: Vec<CacheAlignedOrder> = Vec::new();
        let mut i: usize = 0;
        while i < self.orderbook.shards[shard_id].len()
            invariant
                shard_id < self.orderbook.shards@.len(),
                self.orderbook.shards@[shard_id as int]@ == s,
                i <= s.len(),
                kept@ == match_keep(s.take(i as int)),
            decreases s.len() - i,
        {
            let o = self.orderbook.shards[shard_id][i];
            proof {
                assert(s.take(i as int + 1).drop_last() =~= s.take(i as int));
                assert(s.take(i as int + 1).last() == s[i as int]);
            }
            if o.amount == 0 {
                kept.push(o);
            }
            i += 1;
        }
        proof {
            assert(s.take(s.len() as int) =~= s);
            lemma_match_keep_props(s);
        }
        self.orderbook.shards[shard_id] = kept;
        proof {
            let sc = final(self).orderbook.shard_count as int;
            assert forall|q: int, k: int|
                0 <= q < final(self).orderbook.shards@.len()
                    && 0 <= k < final(self).orderbook.shards@[q]@.len() implies shard_index_spec(
                #[trigger] final(self).orderbook.shards@[q]@[k].price,
                sc,
            ) == q by {
                if q == shard_id {
                    let e = match_keep(s)[k];
                    assert(s.contains(e));
                    let m = choose|m: int| 0 <= m < s.len() && s[m] == e;
                    assert(shard_index_spec(s[m].price, sc) == q);
                }
            }
            assert(final(self).state() =~= (VmState {
                book: old(self).state().book.update(
                    shard_id as int,
                    match_keep(old(self).state().book[shard_id as int]),
                ),
                ..old(self).state()
            }));
        }
    }

    /// Matches two distinct shards against each other: every price level
    /// resident in both, with a strictly positive amount on both sides,
    /// leaves both shards. Both survivors are computed from the shards as
    /// they stood before either is touched.
    fn cross_shard_match(&mut self, shard1: usize, shard2: usize)
        requires
            old(self).wf(),
            shard1 < old(self).orderbook.shards@.len(),
            shard2 < old(self).orderbook.shards@.len(),
            shard1 != shard2,
        ensures
            final(self).wf(),
            final(self).orderbook.shard_count == old(self).orderbook.shard_count,
            final(self).state() == (VmState {
                book: old(self).state().book.update(
                    shard1 as int,
                    cross_keep(
                        old(self).state().book[shard1 as int],
                        old(self).state().book[shard2 as int],
                    ),
                ).update(
                    shard2 as int,
                    cross_keep(
                        old(self).state().book[shard2 as int],
                        old(self).state().book[shard1 as int],
                    ),
                ),
                ..old(self).state()
            }),
            final(self).registers == old(self).registers,
            final(self).program == old(self).program,
            final(self).memory == old(self).memory,
            final(self).pc == old(self).pc,
            final(self).best_bid == old(self).best_bid,
            final(self).best_ask == old(self).best_ask,
    {
        let ghost s1 = self.orderbook.shards@[shard1 as int]@;
        let ghost s2 = self.orderbook.shards@[shard2 as int]@;
        let kept1 = cross_filter(&self.orderbook.shards[shard1], &self.orderbook.shards[shard2]);
        let kept2 = cross_filter(&self.orderbook.shards[shard2], &self.orderbook.shards[shard1]);
        proof {
            lemma_cross_keep_props(s1, s2);
            lemma_cross_keep_props(s2, s1);
        }
        self.orderbook.shards[shard1] = kept1;
        self.orderbook.shards[shard2] = kept2;
        proof {
            let sc = final(self).orderbook.shard_count as int;
            assert forall|q: int, k: int|
                0 <= q < final(self).orderbook.shards@.len()
                    && 0 <= k < final(self).orderbook.shards@[q]@.len() implies shard_index_spec(
                #[trigger] final(self).orderbook.shards@[q]@[k].price,
                sc,
            ) == q by {
                if q == shard1 {
                    let e = cross_keep(s1, s2)[k];
                    assert(s1.contains(e));
                    let m = choose|m: int| 0 <= m < s1.len() && s1[m] == e;
                    assert(shard_index_spec(s1[m].price, sc) == q);
                } else if q == shard2 {
                    let e = cross_keep(s2, s1)[k];
                    assert(s2.contains(e));
                    let m = choose|m: int| 0 <= m < s2.len() && s2[m] == e;
                    assert(shard_index_spec(s2[m].price, sc) == q);
                }
            }
            assert(final(self).state() =~= (VmState {
                book: old(self).state().book.update(
                    shard1 as int,
                    cross_keep(
                        old(self).state().book[shard1 as int],
                        old(self).state().book[shard2 as int],
                    ),
                ).update(
                    shard2 as int,
                    cross_keep(
                        old(self).state().book[shard2 as int],
                        old(self).state().book[shard1 as int],
                    ),
                ),
                ..old(self).state()
            }));
        }
    }

    /// The inclusive range-sum query over one shard: the sum, with 64-bit
    /// wraparound, of the amounts of the resident orders whose price lies in
    /// `[start, end]`. An empty range or an empty shard sums to zero; when
    /// the exact sum fits in 64 bits the result is that sum.
    fn vectorized_price_check(&self, start: u64, end: u64, shard: usize) -> (r: u64)
        requires
            self.wf(),
            shard < self.orderbook.shards@.len(),
        ensures
            r == wrap_u64(range_sum(self.orderbook.book()[shard as int], start, end)),
            range_sum(self.orderbook.book()[shard as int], start, end) <= u64::MAX ==> r
                == range_sum(self.orderbook.book()[shard as int], start, end),
    {
        let shard_vec = &self.orderbook.shards[shard];
        let ghost s = shard_vec@;
        proof {
            assert(self.orderbook.book()[shard as int] == s);
            lemma_range_sum_nonneg(s, start, end);
        }
        let mut acc: u64 = 0;
        let mut i: usize = 0;
        while i < shard_vec.len()
            invariant
                shard_vec@ == s,
                i <= s.len(),
                acc == wrap_u64(range_sum(s.take(i as int), start, end)),
                range_sum(s.take(i as int), start, end) <= range_sum(s, start, end),
            decreases s.len() - i,
        {
            let o = shard_vec[i];
            proof {
                assert(s.take(i as int + 1).drop_last() =~= s.take(i as int));
                assert(s.take(i as int + 1).last() == s[i as int]);
                assert(s.take(i as int + 1) + s.skip(i as int + 1) =~= s);
                lemma_range_sum_concat(s.take(i as int + 1), s.skip(i as int + 1), start, end);
                lemma_range_sum_nonneg(s.skip(i as int + 1), start, end);
                lemma_range_sum_nonneg(s.take(i as int), start, end);
            }
            if start <= o.price && o.price <= end {
                acc = acc.wrapping_add(o.amount);
            }
            i += 1;
        }
        proof {
            assert(s.take(s.len() as int) =~= s);
        }
        acc
    }
}

} // verus!

