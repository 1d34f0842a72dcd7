use bulk_book_ebpf::instructions::Instruction;
use bulk_book_ebpf::orderbook::CacheAlignedOrder;
use bulk_book_ebpf::orderbook::ShardedOrderbook;
use bulk_book_ebpf::vm::BulkBookVM;
use bulk_book_ebpf::vm::VmError;

#[test]
fn test_bulk_book_vm() {
    println!("Starting BulkBookVM test");
    let program = vec![
        Instruction::Load(0, 100), // Price
        Instruction::Load(1, 10),  // Amount
        Instruction::Load(2, 1),   // ID
        Instruction::PlaceOrderOptimized(0, 1, 2),
    ];
    let mut vm = BulkBookVM::new(program, 8); // 8 shards
    assert!(vm.run().is_ok());
    println!("BulkBookVM test completed");
}

#[test]
fn sharding_is_deterministic() {
    let book = ShardedOrderbook::new(8);
    for price in [0u64, 1, 7, 8, 100, 101, 1023, u64::MAX] {
        assert_eq!(book.price_to_shard(price), (price % 8) as usize);
        assert_eq!(book.price_to_shard(price), book.price_to_shard(price));
    }
    let small = ShardedOrderbook::new(3);
    assert_eq!(small.price_to_shard(10), 1);
}

#[test]
fn overwrite_keeps_second_order() {
    let mut book = ShardedOrderbook::new(8);
    book.place_order(100, 10, 1);
    book.place_order(100, 25, 2);
    let shard = &book.shards[book.price_to_shard(100)];
    assert_eq!(shard.len(), 1);
    assert_eq!(shard[0].price, 100);
    assert_eq!(shard[0].amount, 25);
    assert_eq!(shard[0].id, 2);
}

#[test]
fn best_bid_ask_monotonic_over_sequence() {
    let program = vec![
        Instruction::Load(0, 50),
        Instruction::Load(1, 5),
        Instruction::Load(2, 1),
        Instruction::PlaceOrderOptimized(0, 1, 2),
        Instruction::UpdateBestBidAsk,
        Instruction::Load(0, 40),
        Instruction::Load(1, 0),
        Instruction::PlaceOrderOptimized(0, 1, 2),
        Instruction::UpdateBestBidAsk,
        Instruction::Load(0, 60),
        Instruction::Load(1, 7),
        Instruction::PlaceOrderOptimized(0, 1, 2),
        Instruction::UpdateBestBidAsk,
    ];
    let mut vm = BulkBookVM::new(program.clone(), 4);
    let mut last_bid = vm.best_bid;
    let mut last_ask = vm.best_ask;
    for instruction in program {
        assert!(vm.execute(instruction).is_ok());
        assert!(vm.best_bid >= last_bid);
        assert!(vm.best_ask <= last_ask);
        last_bid = vm.best_bid;
        last_ask = vm.best_ask;
    }
    assert_eq!(vm.best_bid, 60);
    assert_eq!(vm.best_ask, 40);
}

#[test]
fn range_sum_per_shard() {
    // The scenario with 8 shards: price 100 resides in shard 4, price 101
    // in shard 5. A range query over shard 5 sums only shard 5's amounts;
    // after shard 4 is matched away, the same query over shard 4 sums zero.
    let program = vec![
        Instruction::Load(0, 90),  // start price
        Instruction::Load(1, 110), // end price
        Instruction::Load(2, 0),   // first result register
        Instruction::Load(3, 5),   // shard 5
        Instruction::VectorizedPriceCheck(0, 1, 2, 3),
        Instruction::Load(4, 4),   // shard 4
        Instruction::MatchOrdersInShard(4),
        Instruction::Load(6, 0),   // second result register
        Instruction::VectorizedPriceCheck(0, 1, 6, 4),
    ];
    let mut vm = BulkBookVM::new(program, 8);
    vm.orderbook.place_order(100, 10, 1);
    vm.orderbook.place_order(101, 5, 2);
    assert!(vm.run().is_ok());
    assert_eq!(vm.registers[2], 5);
    assert_eq!(vm.registers[6], 0);
    assert_eq!(vm.orderbook.shards[4].len(), 0);
}

#[test]
fn range_sum_empty_range_is_zero() {
    let program = vec![
        Instruction::Load(0, 110), // start price above the end price
        Instruction::Load(1, 90),  // end price
        Instruction::Load(2, 7),   // result register, deliberately nonzero
        Instruction::Load(3, 4),   // shard 4 holds the order
        Instruction::VectorizedPriceCheck(0, 1, 2, 3),
    ];
    let mut vm = BulkBookVM::new(program, 8);
    vm.orderbook.place_order(100, 10, 1);
    assert!(vm.run().is_ok());
    assert_eq!(vm.registers[2], 0);
}

#[test]
fn match_is_idempotent() {
    let mut vm = BulkBookVM::new(Vec::new(), 8);
    vm.orderbook.place_order(8, 10, 1); // positive: swept away
    vm.orderbook.place_order(16, 0, 2); // zero: stays resident
    vm.orderbook.place_order(24, 3, 3); // positive: swept away
    let sweep = Instruction::MatchOrdersInShard(0);
    assert_eq!(vm.registers[0], 0); // register 0 names shard 0
    assert_eq!(vm.orderbook.shards[0].len(), 3);
    assert!(vm.execute(sweep).is_ok());
    let after_once = vm.orderbook.shards.clone();
    assert!(vm.execute(sweep).is_ok());
    assert_eq!(vm.orderbook.shards, after_once);
    assert_eq!(vm.orderbook.shards[0].len(), 1);
    assert_eq!(vm.orderbook.shards[0][0].id, 2);
}

#[test]
fn cross_shard_match_is_symmetric() {
    // Seed both shards by hand with a coincident price level, which routed
    // placement alone would never produce, so that the match removes
    // something on both orders of the operands.
    let seed = |vm: &mut BulkBookVM| {
        vm.orderbook.shards[1].push(CacheAlignedOrder { price: 5, amount: 3, id: 1 });
        vm.orderbook.shards[1].push(CacheAlignedOrder { price: 9, amount: 4, id: 2 });
        vm.orderbook.shards[2].push(CacheAlignedOrder { price: 5, amount: 6, id: 3 });
        vm.orderbook.shards[2].push(CacheAlignedOrder { price: 7, amount: 0, id: 4 });
        vm.registers[0] = 1;
        vm.registers[1] = 2;
    };
    let mut forward = BulkBookVM::new(Vec::new(), 8);
    let mut backward = BulkBookVM::new(Vec::new(), 8);
    seed(&mut forward);
    seed(&mut backward);
    assert!(forward.execute(Instruction::CrossShardMatch(0, 1)).is_ok());
    assert!(backward.execute(Instruction::CrossShardMatch(1, 0)).is_ok());
    assert_eq!(forward.orderbook.shards, backward.orderbook.shards);
    // The coincident positive level at price 5 left both shards.
    assert_eq!(forward.orderbook.shards[1].len(), 1);
    assert_eq!(forward.orderbook.shards[1][0].price, 9);
    assert_eq!(forward.orderbook.shards[2].len(), 1);
    assert_eq!(forward.orderbook.shards[2][0].price, 7);
}

#[test]
fn division_by_zero_faults() {
    let program = vec![
        Instruction::Load(0, 10),
        Instruction::Load(1, 0),
        Instruction::Div(0, 1, 2),
        Instruction::Load(3, 99), // never reached
    ];
    let mut vm = BulkBookVM::new(program, 8);
    assert_eq!(vm.run(), Err(VmError::ArithmeticError));
    assert_eq!(vm.pc, 2); // the counter rests on the faulting instruction
    assert_eq!(vm.registers[3], 0);
}

#[test]
fn division_computes_quotient() {
    let program = vec![
        Instruction::Load(9, 7),
        Instruction::Load(10, 2),
        Instruction::Div(9, 10, 0),
    ];
    let mut vm = BulkBookVM::new(program, 8);
    assert!(vm.run().is_ok());
    assert_eq!(vm.registers[0], 3);
}

#[test]
fn register_operand_out_of_range_faults() {
    let mut vm = BulkBookVM::new(vec![Instruction::Load(11, 5)], 8);
    assert_eq!(vm.run(), Err(VmError::OperandOutOfRange));

    let mut vm = BulkBookVM::new(vec![Instruction::Add(0, 1, 12)], 8);
    assert_eq!(vm.run(), Err(VmError::OperandOutOfRange));
}

#[test]
fn shard_operand_out_of_range_faults() {
    let program = vec![
        Instruction::Load(0, 9), // only shards 0..8 exist
        Instruction::MatchOrdersInShard(0),
    ];
    let mut vm = BulkBookVM::new(program, 8);
    assert_eq!(vm.run(), Err(VmError::OperandOutOfRange));

    let program = vec![
        Instruction::Load(3, 8),
        Instruction::VectorizedPriceCheck(0, 1, 2, 3),
    ];
    let mut vm = BulkBookVM::new(program, 8);
    assert_eq!(vm.run(), Err(VmError::OperandOutOfRange));
}

#[test]
fn cross_shard_aliasing_faults() {
    let program = vec![
        Instruction::Load(0, 1),
        Instruction::Load(1, 1),
        Instruction::CrossShardMatch(0, 1),
    ];
    let mut vm = BulkBookVM::new(program, 8);
    assert_eq!(vm.run(), Err(VmError::IndexError));

    let program = vec![
        Instruction::Load(0, 0),
        Instruction::Load(1, 8),
        Instruction::CrossShardMatch(0, 1),
    ];
    let mut vm = BulkBookVM::new(program, 8);
    assert_eq!(vm.run(), Err(VmError::IndexError));
}

#[test]
fn arithmetic_wraps_around() {
    let program = vec![
        Instruction::Load(0, u64::MAX),
        Instruction::Load(1, 1),
        Instruction::Add(0, 1, 2),
        Instruction::Load(3, 0),
        Instruction::Sub(3, 1, 4),
        Instruction::Load(5, 9223372036854775808), // 2^63
        Instruction::Load(6, 2),
        Instruction::Mul(5, 6, 7),
    ];
    let mut vm = BulkBookVM::new(program, 8);
    assert!(vm.run().is_ok());
    assert_eq!(vm.registers[2], 0);
    assert_eq!(vm.registers[4], u64::MAX);
    assert_eq!(vm.registers[7], 0);
}

#[test]
fn fault_keeps_prior_mutations() {
    let program = vec![
        Instruction::Load(0, 100),
        Instruction::Load(1, 10),
        Instruction::Load(2, 1),
        Instruction::PlaceOrderOptimized(0, 1, 2),
        Instruction::Load(3, 0),
        Instruction::Div(0, 3, 4), // divisor register holds zero
    ];
    let mut vm = BulkBookVM::new(program, 8);
    assert_eq!(vm.run(), Err(VmError::ArithmeticError));
    assert_eq!(vm.pc, 5);
    assert_eq!(vm.orderbook.shards[4].len(), 1); // the placement stands
    assert_eq!(vm.best_bid, 100);
}

#[test]
fn empty_book_keeps_sentinels() {
    let mut vm = BulkBookVM::new(vec![Instruction::UpdateBestBidAsk], 8);
    assert!(vm.run().is_ok());
    assert_eq!(vm.best_bid, 0);
    assert_eq!(vm.best_ask, u64::MAX);
}

#[test]
fn zero_amount_placement_lowers_ask() {
    let program = vec![
        Instruction::Load(0, 77),
        Instruction::Load(1, 0), // a zero amount folds into the ask side
        Instruction::Load(2, 9),
        Instruction::PlaceOrderOptimized(0, 1, 2),
    ];
    let mut vm = BulkBookVM::new(program, 8);
    assert!(vm.run().is_ok());
    assert_eq!(vm.best_ask, 77);
    assert_eq!(vm.best_bid, 0);
    assert_eq!(vm.orderbook.shards[77 % 8].len(), 1); // resident all the same
}

#[test]
fn orders_compare_by_price_then_id() {
    let a = CacheAlignedOrder { price: 5, amount: 100, id: 9 };
    let b = CacheAlignedOrder { price: 6, amount: 1, id: 1 };
    let c = CacheAlignedOrder { price: 5, amount: 2, id: 10 };
    assert!(a < b);
    assert!(a < c);
    assert_eq!(
        a.partial_cmp(&CacheAlignedOrder { price: 5, amount: 3, id: 9 }),
        Some(std::cmp::Ordering::Equal)
    );
}
