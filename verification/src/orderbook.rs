use vstd::prelude::*;

verus! {

/// One resident order. Within a shard at most one order is resident per
/// price: placing a second order at an occupied price overwrites the first.
#[derive(Debug, Clone, Copy, PartialEq, Eq, Structural)]
pub struct CacheAlignedOrder {
    pub price: u64,
    pub amount: u64,
    pub id: u64,
}

impl PartialOrd for CacheAlignedOrder {
    /// Orders compare by price first and break ties by id; the amount does
    /// not take part in the ordering.
    fn partial_cmp(&self, other: &Self) -> (r: Option<core::cmp::Ordering>) {
        if self.price < other.price {
            Some(core::cmp::Ordering::Less)
        } else if self.price > other.price {
            Some(core::cmp::Ordering::Greater)
        } else if self.id < other.id {
            Some(core::cmp::Ordering::Less)
        } else if self.id > other.id {
            Some(core::cmp::Ordering::Greater)
        } else {
            Some(core::cmp::Ordering::Equal)
        }
    }
}

impl vstd::std_specs::cmp::PartialOrdSpecImpl for CacheAlignedOrder {
    open spec fn obeys_partial_cmp_spec() -> bool {
        true
    }

    open spec fn partial_cmp_spec(&self, other: &Self) -> Option<core::cmp::Ordering> {
        if self.price < other.price {
            Some(core::cmp::Ordering::Less)
        } else if self.price > other.price {
            Some(core::cmp::Ordering::Greater)
        } else if self.id < other.id {
            Some(core::cmp::Ordering::Less)
        } else if self.id > other.id {
            Some(core::cmp::Ordering::Greater)
        } else {
            Some(core::cmp::Ordering::Equal)
        }
    }
}

/// A shard is kept sorted strictly ascending by price, so each price is
/// resident at most once: an ordered mapping from price to order.
pub open spec fn shard_sorted(s: Seq<CacheAlignedOrder>) -> bool {
    forall|i: int, j: int| 0 <= i < j < s.len() ==> s[i].price < s[j].price
}

/// The order resident at `price`, if any. With `shard_sorted` the result is
/// the unique element carrying that price.
pub open spec fn shard_lookup(s: Seq<CacheAlignedOrder>, price: u64) -> Option<CacheAlignedOrder>
    decreases s.len(),
{
    if s.len() == 0 {
        None
    } else if s.last().price == price {
        Some(s.last())
    } else {
        shard_lookup(s.drop_last(), price)
    }
}

/// The shard after placing `o`: the order at `o.price` is overwritten if one
/// is resident, otherwise `o` enters at its sorted position.
pub open spec fn shard_place(s: Seq<CacheAlignedOrder>, o: CacheAlignedOrder) -> Seq<
    CacheAlignedOrder,
>
    decreases s.len(),
{
    if s.len() == 0 {
        seq![o]
    } else if s.last().price < o.price {
        s.push(o)
    } else if s.last().price == o.price {
        s.update(s.len() - 1, o)
    } else {
        shard_place(s.drop_last(), o).push(s.last())
    }
}

/// The sum of the amounts of the orders whose price lies in `[lo, hi]`.
pub open spec fn range_sum(s: Seq<CacheAlignedOrder>, lo: u64, hi: u64) -> int
    decreases s.len(),
{
    if s.len() == 0 {
        0
    } else if lo <= s.last().price <= hi {
        range_sum(s.drop_last(), lo, hi) + s.last().amount
    } else {
        range_sum(s.drop_last(), lo, hi)
    }
}

/// In a sorted shard each price is resident at most once: two indices that
/// carry the same price are the same index.
pub proof fn lemma_sorted_unique_price(s: Seq<CacheAlignedOrder>)
    requires
        shard_sorted(s),
    ensures
        forall|i: int, j: int|
            0 <= i < s.len() && 0 <= j < s.len() && s[i].price == s[j].price ==> i == j,
{
}

/// What is resident after a placement: the placed order at its own price,
/// and at every other price exactly what was resident before.
pub proof fn lemma_shard_place_lookup(s: Seq<CacheAlignedOrder>, o: CacheAlignedOrder)
    requires
        shard_sorted(s),
    ensures
        forall|p: u64| #[trigger] shard_lookup(shard_place(s, o), p) == if p == o.price {
            Some(o)
        } else {
            shard_lookup(s, p)
        },
    decreases s.len(),
{
    if s.len() == 0 {
        assert forall|p: u64| #[trigger] shard_lookup(shard_place(s, o), p) == (if p == o.price {
            Some(o)
        } else {
            shard_lookup(s, p)
        }) by {
            assert(shard_place(s, o) == seq![o]);
            assert(seq![o].drop_last() =~= s);
        }
    } else {
        let last = s.last();
        if last.price < o.price {
            assert forall|p: u64| #[trigger] shard_lookup(shard_place(s, o), p) == (if p
                == o.price {
                Some(o)
            } else {
                shard_lookup(s, p)
            }) by {
                assert(s.push(o).drop_last() =~= s);
                assert(s.push(o).last() == o);
                if p != o.price && p == last.price {
                    assert(shard_lookup(s, p) == Some(last));
                }
            }
        } else if last.price == o.price {
            let t = s.update(s.len() - 1, o);
            assert(t.drop_last() =~= s.drop_last());
            assert(t.last() == o);
        } else {
            lemma_shard_place_lookup(s.drop_last(), o);
            let t = shard_place(s.drop_last(), o).push(last);
            assert(shard_place(s, o) == t);
            assert(t.drop_last() =~= shard_place(s.drop_last(), o));
            assert(t.last() == last);
            assert forall|p: u64| #[trigger] shard_lookup(shard_place(s, o), p) == (if p
                == o.price {
                Some(o)
            } else {
                shard_lookup(s, p)
            }) by {
                if p == last.price {
                    assert(shard_lookup(s, p) == Some(last));
                } else {
                    assert(shard_lookup(t, p) == shard_lookup(shard_place(s.drop_last(), o), p));
                    assert(shard_lookup(s, p) == shard_lookup(s.drop_last(), p));
                }
            }
        }
    }
}

/// Overwrite semantics: placing at a price that a placement just filled
/// leaves the shard exactly as if only the second order had been placed.
/// Together with the uniqueness of prices in a sorted shard, exactly one
/// order is then resident at that price, and it carries the second
/// placement's amount and id.
pub proof fn lemma_shard_place_overwrite(
    s: Seq<CacheAlignedOrder>,
    o1: CacheAlignedOrder,
    o2: CacheAlignedOrder,
)
    requires
        shard_sorted(s),
        o1.price == o2.price,
    ensures
        shard_place(shard_place(s, o1), o2) == shard_place(s, o2),
        shard_lookup(shard_place(shard_place(s, o1), o2), o2.price) == Some(o2),
    decreases s.len(),
{
    if s.len() == 0 {
        assert(shard_place(s, o1) == seq![o1]);
        assert(seq![o1].drop_last() =~= s);
        assert(shard_place(seq![o1], o2) =~= seq![o2]);
        assert(seq![o2].drop_last() =~= s);
    } else {
        let last = s.last();
        if last.price < o1.price {
            let t = s.push(o1);
            assert(shard_place(s, o1) == t);
            assert(t.last() == o1);
            assert(shard_place(t, o2) == t.update(t.len() - 1, o2));
            assert(t.update(t.len() - 1, o2) =~= s.push(o2));
            assert(s.push(o2).drop_last() =~= s);
        } else if last.price == o1.price {
            let t = s.update(s.len() - 1, o1);
            assert(t.last() == o1);
            assert(shard_place(t, o2) == t.update(t.len() - 1, o2));
            assert(t.update(t.len() - 1, o2) =~= s.update(s.len() - 1, o2));
            assert(s.update(s.len() - 1, o2).drop_last() =~= s.drop_last());
        } else {
            lemma_shard_place_overwrite(s.drop_last(), o1, o2);
            let t = shard_place(s.drop_last(), o1).push(last);
            assert(shard_place(s, o1) == t);
            assert(t.last() == last);
            assert(t.drop_last() =~= shard_place(s.drop_last(), o1));
            assert(shard_place(t, o2) == shard_place(shard_place(s.drop_last(), o1), o2).push(
                last,
            ));
        }
    }
    lemma_shard_place_lookup(s, o2);
}

/// A range that covers no resident order sums to zero.
pub proof fn lemma_range_sum_empty(s: Seq<CacheAlignedOrder>, lo: u64, hi: u64)
    requires
        forall|k: int| 0 <= k < s.len() ==> !(lo <= #[trigger] s[k].price <= hi),
    ensures
        range_sum(s, lo, hi) == 0,
    decreases s.len(),
{
    if s.len() > 0 {
        assert(!(lo <= s[s.len() - 1].price <= hi));
        lemma_range_sum_empty(s.drop_last(), lo, hi);
    }
}

/// The sum over a range is never negative.
pub proof fn lemma_range_sum_nonneg(s: Seq<CacheAlignedOrder>, lo: u64, hi: u64)
    ensures
        range_sum(s, lo, hi) >= 0,
    decreases s.len(),
{
    if s.len() > 0 {
        lemma_range_sum_nonneg(s.drop_last(), lo, hi);
    }
}

/// The sum over a range splits over concatenation.
pub proof fn lemma_range_sum_concat(a: Seq<CacheAlignedOrder>, b: Seq<CacheAlignedOrder>, lo: u64, hi: u64)
    ensures
        range_sum(a + b, lo, hi) == range_sum(a, lo, hi) + range_sum(b, lo, hi),
    decreases b.len(),
{
    if b.len() == 0 {
        assert(a + b =~= a);
    } else {
        assert((a + b).drop_last() =~= a + b.drop_last());
        assert((a + b).last() == b.last());
        lemma_range_sum_concat(a, b.drop_last(), lo, hi);
    }
}

/// The shard that `price` routes to, for `count` shards.
pub open spec fn shard_index_spec(price: u64, count: int) -> int {
    price as int % count
}

/// Relates `shard_place` to the concrete insertion position `j`: the first
/// index whose price is not below `o.price`. Placing overwrites in place
/// when that price is resident and inserts at `j` otherwise.
pub proof fn lemma_shard_place_at(s: Seq<CacheAlignedOrder>, o: CacheAlignedOrder, j: int)
    requires
        shard_sorted(s),
        0 <= j <= s.len(),
        forall|k: int| 0 <= k < j ==> s[k].price < o.price,
        j < s.len() ==> s[j].price >= o.price,
    ensures
        j < s.len() && s[j].price == o.price ==> shard_place(s, o) == s.update(j, o),
        !(j < s.len() && s[j].price == o.price) ==> shard_place(s, o) == s.insert(j, o),
    decreases s.len(),
{
    if s.len() == 0 {
        assert(shard_place(s, o) =~= s.insert(0, o));
    } else {
        let last = s.last();
        let n = s.len() as int;
        if last.price < o.price {
            assert(j == n);
            assert(shard_place(s, o) =~= s.insert(n, o));
        } else if last.price == o.price {
            assert(j == n - 1);
            assert(shard_place(s, o) == s.update(j, o));
        } else {
            assert(j < n);
            lemma_shard_place_at(s.drop_last(), o, j);
            if j < n - 1 && s[j].price == o.price {
                assert(shard_place(s.drop_last(), o) == s.drop_last().update(j, o));
                assert(shard_place(s, o) =~= s.update(j, o));
            } else {
                assert(shard_place(s.drop_last(), o) == s.drop_last().insert(j, o));
                assert(shard_place(s, o) =~= s.insert(j, o));
            }
        }
    }
}

/// Partitions resident orders across `shard_count` price-keyed shards:
/// an order with price `p` lives in shard `p % shard_count`.
pub struct ShardedOrderbook {
    pub shards: Vec<Vec<CacheAlignedOrder>>,
    pub shard_count: usize,
}

impl ShardedOrderbook {
    /// The mathematical content of the book: one price-sorted sequence of
    /// resident orders per shard.
    pub open spec fn book(self) -> Seq<Seq<CacheAlignedOrder>> {
        self.shards@.map_values(|v: Vec<CacheAlignedOrder>| v@)
    }

    /// Structural invariant: a positive, fixed shard count; every shard
    /// sorted strictly ascending by price; every order resident in the shard
    /// its price routes to.
    pub open spec fn wf(self) -> bool {
        &&& self.shard_count > 0
        &&& self.shards@.len() == self.shard_count
        &&& forall|i: int|
            0 <= i < self.shards@.len() ==> shard_sorted(#[trigger] self.shards@[i]@)
        &&& forall|i: int, k: int|
            0 <= i < self.shards@.len() && 0 <= k < self.shards@[i]@.len()
                ==> shard_index_spec(#[trigger] self.shards@[i]@[k].price, self.shard_count as int)
                == i
    }

    /// Creates a book of `shard_count` empty shards.
    pub fn new(shard_count: usize) -> (r: Self)
        requires
            shard_count > 0,
        ensures
            r.wf(),
            r.shard_count == shard_count,
            r.book() == Seq::new(shard_count as nat, |i: int| Seq::<CacheAlignedOrder>::empty()),
    {
        let mut shards: Vec<Vec<CacheAlignedOrder>> = Vec::new();
        let mut i: usize = 0;
        while i < shard_count
            invariant
                i <= shard_count,
                shards@.len() == i,
                forall|j: int| 0 <= j < i ==> #[trigger] shards@[j]@ == Seq::<
                    CacheAlignedOrder,
                >::empty(),
            decreases shard_count - i,
        {
            shards.push(Vec::new());
            i += 1;
        }
        let r = ShardedOrderbook { shards, shard_count };
        proof {
            assert(r.book() =~= Seq::new(
                shard_count as nat,
                |i: int| Seq::<CacheAlignedOrder>::empty(),
            ));
        }
        r
    }

    /// The shard `price` routes to: `price % shard_count`.
    pub fn price_to_shard(&self, price: u64) -> (r: usize)
        requires
            self.shard_count > 0,
        ensures
            r == shard_index_spec(price, self.shard_count as int),
            r < self.shard_count,
    {
        (price % (self.shard_count as u64)) as usize
    }

    /// Places an order, overwriting any order already resident at the same
    /// price in the same shard (last write wins). The order routes to shard
    /// `price % shard_count`; no other shard changes.
    pub fn place_order(&mut self, price: u64, amount: u64, id: u64)
        requires
            old(self).wf(),
        ensures
            final(self).wf(),
            final(self).shard_count == old(self).shard_count,
            final(self).book() == old(self).book().update(
                shard_index_spec(price, old(self).shard_count as int),
                shard_place(
                    old(self).book()[shard_index_spec(price, old(self).shard_count as int)],
                    CacheAlignedOrder { price, amount, id },
                ),
            ),
    {
        let idx = self.price_to_shard(price);
        let order = CacheAlignedOrder { price, amount, id };
        let ghost s = self.shards@[idx as int]@;
        let mut j: usize = 0;
        while j < self.shards[idx].len() && self.shards[idx][j].price < price
            invariant
                idx < self.shards@.len(),
                self.shards@[idx as int]@ == s,
                j <= s.len(),
                forall|k: int| 0 <= k < j ==> s[k].price < price,
            decreases s.len() - j,
        {
            j += 1;
        }
        proof {
            lemma_shard_place_at(s, order, j as int);
        }
        let shard = &mut self.shards[idx];
        if j < shard.len() && shard[j].price == price {
            shard.remove(j);
            shard.insert(j, order);
            proof {
                assert(final(shard)@ =~= s.update(j as int, order));
            }
        } else {
            shard.insert(j, order);
        }
        proof {
            let sc = self.shard_count as int;
            let t = self.shards@[idx as int]@;
            assert(t == shard_place(s, order));
            assert forall|a: int, b: int| 0 <= a < b < t.len() implies t[a].price < t[b].price by {
                if !(j < s.len() && s[j as int].price == order.price) {
                    assert(t == s.insert(j as int, order));
                    if a < j && b == j {
                        assert(t[a] == s[a]);
                    } else if a == j && b > j {
                        assert(t[b] == s[b - 1]);
                        assert(s[j as int].price > order.price || j == s.len());
                    } else if a < j && b > j {
                        assert(t[a] == s[a] && t[b] == s[b - 1]);
                    } else if b < j {
                        assert(t[a] == s[a] && t[b] == s[b]);
                    } else {
                        assert(t[a] == s[a - 1] && t[b] == s[b - 1]);
                    }
                }
            }
            assert forall|k: int| 0 <= k < t.len() implies shard_index_spec(t[k].price, sc)
                == idx as int by {
                if !(j < s.len() && s[j as int].price == order.price) {
                    assert(t == s.insert(j as int, order));
                    if k < j {
                        assert(t[k] == s[k]);
                    } else if k > j {
                        assert(t[k] == s[k - 1]);
                    }
                }
            }
            assert(final(self).book() =~= old(self).book().update(
                shard_index_spec(price, old(self).shard_count as int),
                shard_place(
                    old(self).book()[shard_index_spec(price, old(self).shard_count as int)],
                    order,
                ),
            ));
        }
    }
}

} // verus!
