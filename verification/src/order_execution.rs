//! Order lifecycle and virtual-order scheduling for the TWAMM pool.
//!
//! An `OrderPool` owns a set of active long-term orders, keeps a running
//! total sell rate per direction that always equals the sum over the active
//! orders, and advances all orders at once in a periodic "virtual order"
//! catch-up that runs the closed-form engine over the elapsed block span
//! and distributes the proceeds in proportion to each order's rate.
//!
//! Every mutating call is atomic: all arithmetic is computed and validated
//! before any state is written, so a failure leaves no partial mutation.

use crate::errors::TwammError;
use crate::twamm_math::{mul_div, spec_closed_form, TWAMMath};
use vstd::arithmetic::div_mod::lemma_fundamental_div_mod;
use vstd::prelude::*;

verus! {

/// How an order executes: spread over many blocks, or at once.
#[derive(Clone, Copy, PartialEq, Eq, Structural, Debug)]
pub enum OrderType {
    LongTerm,
    Instant,
}

/// Which token the order sells into the pool.
#[derive(Clone, Copy, PartialEq, Eq, Structural, Debug)]
pub enum OrderDirection {
    SellToken0,
    SellToken1,
}

/// An opaque 160-bit account identity, used only for ownership checks.
#[derive(Clone, Copy, PartialEq, Eq, Structural, Debug)]
pub struct Address {
    pub hi: u32,
    pub lo: u128,
}

impl Address {
    /// The all-zero identity.
    pub fn zero() -> (r: Self)
        ensures
            r == (Address { hi: 0, lo: 0 }),
    {
        Address { hi: 0, lo: 0 }
    }
}

/// One long-term order: `sell_rate` tokens per block from `start_block`
/// until `end_block`, with the undrained remainder and the proceeds
/// accumulated so far.
#[derive(Clone, Copy, PartialEq, Eq, Structural, Debug)]
pub struct Order {
    pub id: u128,
    pub owner: Address,
    pub order_type: OrderType,
    pub direction: OrderDirection,
    pub sell_rate: u128,
    pub remaining_amount: u128,
    pub start_block: u128,
    pub end_block: u128,
    pub last_virtual_order_block: u128,
    pub accumulated_out: u128,
}

impl Default for Order {
    fn default() -> (r: Self)
        ensures
            r == (Order {
                id: 0,
                owner: Address { hi: 0, lo: 0 },
                order_type: OrderType::Instant,
                direction: OrderDirection::SellToken0,
                sell_rate: 0,
                remaining_amount: 0,
                start_block: 0,
                end_block: 0,
                last_virtual_order_block: 0,
                accumulated_out: 0,
            }),
    {
        Order {
            id: 0,
            owner: Address { hi: 0, lo: 0 },
            order_type: OrderType::Instant,
            direction: OrderDirection::SellToken0,
            sell_rate: 0,
            remaining_amount: 0,
            start_block: 0,
            end_block: 0,
            last_virtual_order_block: 0,
            accumulated_out: 0,
        }
    }
}

/// Scheduling state of the virtual-order executor.
#[derive(Clone, Copy, PartialEq, Eq, Structural, Debug)]
pub struct VirtualOrderState {
    pub last_virtual_order_block: u128,
    pub sell_rate_0_to_1: u128,
    pub sell_rate_1_to_0: u128,
    pub order_block_interval: u128,
}

impl Default for VirtualOrderState {
    fn default() -> (r: Self)
        ensures
            r == (VirtualOrderState {
                last_virtual_order_block: 0,
                sell_rate_0_to_1: 0,
                sell_rate_1_to_0: 0,
                order_block_interval: 100,
            }),
    {
        VirtualOrderState {
            last_virtual_order_block: 0,
            sell_rate_0_to_1: 0,
            sell_rate_1_to_0: 0,
            order_block_interval: 100,
        }
    }
}

/// What one virtual-order catch-up did: the window length, the gross
/// amounts sold and received per direction, and the updated reserves.
#[derive(Clone, Copy, PartialEq, Eq, Structural, Debug)]
pub struct VirtualExecutionResult {
    pub blocks_executed: u128,
    pub amount_0_sold: u128,
    pub amount_1_sold: u128,
    pub amount_0_received: u128,
    pub amount_1_received: u128,
    pub new_reserve_0: u128,
    pub new_reserve_1: u128,
    pub gas_used_estimate: u128,
}

/// Read-only snapshot of the pool, derived from its orders.
#[derive(Clone, Copy, PartialEq, Eq, Structural, Debug)]
pub struct ExecutionStatistics {
    pub active_orders: u32,
    pub completed_orders: u32,
    pub total_volume_0: u128,
    pub total_volume_1: u128,
    pub current_sell_rate_0: u128,
    pub current_sell_rate_1: u128,
    pub last_virtual_execution_block: u128,
}

/// The pool of active long-term orders.
#[derive(Clone, Debug, PartialEq)]
pub struct OrderPool {
    pub orders: Vec<Order>,
    pub next_order_id: u128,
    pub virtual_order_state: VirtualOrderState,
    pub total_sell_rate_0: u128,
    pub total_sell_rate_1: u128,
}

impl Default for OrderPool {
    fn default() -> (r: Self)
        ensures
            r.orders@ == Seq::<Order>::empty(),
            r.next_order_id == 1,
            r.virtual_order_state == (VirtualOrderState {
                last_virtual_order_block: 0,
                sell_rate_0_to_1: 0,
                sell_rate_1_to_0: 0,
                order_block_interval: 100,
            }),
            r.total_sell_rate_0 == 0,
            r.total_sell_rate_1 == 0,
            r.wf(),
    {
        let r = OrderPool {
            orders: Vec::new(),
            next_order_id: 1,
            virtual_order_state: VirtualOrderState::default(),
            total_sell_rate_0: 0,
            total_sell_rate_1: 0,
        };
        proof {
            assert(r.orders@ =~= Seq::<Order>::empty());
        }
        r
    }
}

/// The sell rate this order contributes to direction `d`.
pub open spec fn spec_rate_of(o: Order, d: OrderDirection) -> int {
    if o.direction == d {
        o.sell_rate as int
    } else {
        0
    }
}

/// Σ of the sell rates of the orders with direction `d`.
pub open spec fn spec_sum_rates(orders: Seq<Order>, d: OrderDirection) -> int
    decreases orders.len(),
{
    if orders.len() == 0 {
        0
    } else {
        spec_rate_of(orders[0], d) + spec_sum_rates(orders.drop_first(), d)
    }
}

/// The subsequence of orders whose owner is `owner`, in storage order.
pub open spec fn spec_orders_of_owner(s: Seq<Order>, owner: Address) -> Seq<Order>
    decreases s.len(),
{
    if s.len() == 0 {
        Seq::empty()
    } else {
        let rest = spec_orders_of_owner(s.drop_last(), owner);
        if s.last().owner == owner {
            rest.push(s.last())
        } else {
            rest
        }
    }
}

/// The order that `create_long_term_order` inserts: rate `amount/duration`
/// (truncated), the full amount still remaining, and a window of
/// `duration_blocks` starting at the current block.
pub open spec fn spec_new_order(
    id: u128,
    owner: Address,
    direction: OrderDirection,
    sell_amount: u128,
    duration_blocks: u128,
    current_block: u128,
) -> Order {
    Order {
        id,
        owner,
        order_type: OrderType::LongTerm,
        direction,
        sell_rate: ((sell_amount as int) / (duration_blocks as int)) as u128,
        remaining_amount: sell_amount,
        start_block: current_block,
        end_block: (current_block + duration_blocks) as u128,
        last_virtual_order_block: current_block,
        accumulated_out: 0,
    }
}

/// Some order in `s` carries the identifier `id`.
pub open spec fn spec_contains_id(s: Seq<Order>, id: u128) -> bool {
    exists|j: int| 0 <= j < s.len() && s[j].id == id
}

/// The position of the first order with identifier `id`, or -1.
pub open spec fn spec_find_index(s: Seq<Order>, id: u128) -> int
    decreases s.len(),
{
    if s.len() == 0 {
        -1
    } else if s[0].id == id {
        0
    } else {
        let r = spec_find_index(s.drop_first(), id);
        if r == -1 {
            -1
        } else {
            r + 1
        }
    }
}

pub proof fn lemma_sum_rates_nonneg(s: Seq<Order>, d: OrderDirection)
    ensures
        spec_sum_rates(s, d) >= 0,
    decreases s.len(),
{
    if s.len() > 0 {
        lemma_sum_rates_nonneg(s.drop_first(), d);
    }
}

/// Appending an order adds exactly its contribution to the direction sum.
pub proof fn lemma_sum_rates_push(s: Seq<Order>, o: Order, d: OrderDirection)
    ensures
        spec_sum_rates(s.push(o), d) == spec_sum_rates(s, d) + spec_rate_of(o, d),
    decreases s.len(),
{
    if s.len() == 0 {
        assert(s.push(o)[0] == o);
        assert(s.push(o).drop_first() =~= Seq::<Order>::empty());
        assert(spec_sum_rates(s.push(o), d) == spec_rate_of(o, d) + spec_sum_rates(
            s.push(o).drop_first(),
            d,
        ));
        assert(spec_sum_rates(Seq::<Order>::empty(), d) == 0);
        assert(spec_sum_rates(s, d) == 0);
    } else {
        assert(s.push(o)[0] == s[0]);
        assert(s.push(o).drop_first() =~= s.drop_first().push(o));
        lemma_sum_rates_push(s.drop_first(), o, d);
        assert(spec_sum_rates(s.push(o), d) == spec_rate_of(s[0], d) + spec_sum_rates(
            s.push(o).drop_first(),
            d,
        ));
    }
}

/// Removing an order subtracts exactly its contribution from the sum.
pub proof fn lemma_sum_rates_remove(s: Seq<Order>, i: int, d: OrderDirection)
    requires
        0 <= i < s.len(),
    ensures
        spec_sum_rates(s.remove(i), d) == spec_sum_rates(s, d) - spec_rate_of(s[i], d),
    decreases s.len(),
{
    if i == 0 {
        assert(s.remove(0) =~= s.drop_first());
    } else {
        assert(s.remove(i).drop_first() =~= s.drop_first().remove(i - 1));
        lemma_sum_rates_remove(s.drop_first(), i - 1, d);
    }
}

/// Each order's rate is at most the direction sum it contributes to.
pub proof fn lemma_rate_le_sum(s: Seq<Order>, i: int, d: OrderDirection)
    requires
        0 <= i < s.len(),
        s[i].direction == d,
    ensures
        s[i].sell_rate <= spec_sum_rates(s, d),
{
    lemma_sum_rates_remove(s, i, d);
    lemma_sum_rates_nonneg(s.remove(i), d);
}

/// Splitting a sum over a concatenation.
pub proof fn lemma_sum_rates_concat(a: Seq<Order>, b: Seq<Order>, d: OrderDirection)
    ensures
        spec_sum_rates(a + b, d) == spec_sum_rates(a, d) + spec_sum_rates(b, d),
    decreases a.len(),
{
    if a.len() == 0 {
        assert(a + b =~= b);
    } else {
        assert((a + b).drop_first() =~= a.drop_first() + b);
        assert((a + b)[0] == a[0]);
        lemma_sum_rates_concat(a.drop_first(), b, d);
    }
}

/// What `spec_find_index` finds: a real position holding `id`, with no
/// earlier one, or -1 exactly when no order carries `id`.
pub proof fn lemma_find_index_props(s: Seq<Order>, id: u128)
    ensures
        spec_find_index(s, id) == -1 <==> !spec_contains_id(s, id),
        spec_find_index(s, id) != -1 ==> 0 <= spec_find_index(s, id) < s.len()
            && s[spec_find_index(s, id)].id == id,
        forall|j: int| 0 <= j < spec_find_index(s, id) ==> s[j].id != id,
    decreases s.len(),
{
    if s.len() == 0 {
    } else if s[0].id == id {
    } else {
        lemma_find_index_props(s.drop_first(), id);
        let r = spec_find_index(s.drop_first(), id);
        if r == -1 {
            assert forall|j: int| 0 <= j < s.len() implies s[j].id != id by {
                if j > 0 {
                    assert(s.drop_first()[j - 1] == s[j]);
                }
            }
        } else {
            assert(s.drop_first()[r] == s[r + 1]);
            assert forall|j: int| 0 <= j < r + 1 implies s[j].id != id by {
                if j > 0 {
                    assert(s.drop_first()[j - 1] == s[j]);
                }
            }
        }
        if spec_contains_id(s, id) && spec_find_index(s, id) == -1 {
            let j = choose|j: int| 0 <= j < s.len() && s[j].id == id;
            assert(s.drop_first()[j - 1] == s[j]);
        }
    }
}

impl OrderPool {
    /// Well-formedness: the running totals equal the per-direction sums
    /// over the active orders, identifiers are unique and below the next
    /// one to be handed out, and every stored order is long-term, still
    /// has something left to sell, and spans a nonempty block window.
    pub open spec fn wf(self) -> bool {
        &&& self.total_sell_rate_0 == spec_sum_rates(self.orders@, OrderDirection::SellToken0)
        &&& self.total_sell_rate_1 == spec_sum_rates(self.orders@, OrderDirection::SellToken1)
        &&& forall|i: int, j: int|
            0 <= i < j < self.orders@.len() ==> #[trigger] self.orders@[i].id != #[trigger] self.orders@[j].id
        &&& forall|i: int|
            0 <= i < self.orders@.len() ==> #[trigger] self.orders@[i].id < self.next_order_id
        &&& forall|i: int|
            0 <= i < self.orders@.len() ==> #[trigger] self.orders@[i].order_type == OrderType::LongTerm
        &&& forall|i: int|
            0 <= i < self.orders@.len() ==> #[trigger] self.orders@[i].remaining_amount > 0
        &&& forall|i: int|
            0 <= i < self.orders@.len() ==> #[trigger] self.orders@[i].end_block > self.orders@[i].start_block
        &&& 1 <= self.next_order_id
    }

    /// Creates a new long-term order selling `sell_amount` spread evenly
    /// over `duration_blocks` blocks, starting now, and returns its
    /// identifier. The direction's running total rate grows by exactly the
    /// order's rate. On any failure nothing is mutated.
    pub fn create_long_term_order(
        &mut self,
        owner: Address,
        direction: OrderDirection,
        sell_amount: u128,
        duration_blocks: u128,
        current_block: u128,
    ) -> (r: Result<u128, TwammError>)
        requires
            old(self).wf(),
        ensures
            final(self).wf(),
            r is Err ==> *final(self) == *old(self),
            r is Err ==> r == Err::<u128, TwammError>(TwammError::InvalidInput) || r == Err::<
                u128,
                TwammError,
            >(TwammError::MathOverflow),
            r == Err::<u128, TwammError>(TwammError::InvalidInput) <==> (sell_amount == 0
                || duration_blocks == 0),
            r == Err::<u128, TwammError>(TwammError::MathOverflow) <==> (sell_amount != 0
                && duration_blocks != 0 && (current_block + duration_blocks > u128::MAX || (
            direction == OrderDirection::SellToken0 && old(self).total_sell_rate_0 + sell_amount
                / duration_blocks > u128::MAX) || (direction == OrderDirection::SellToken1 && old(self).total_sell_rate_1 + sell_amount / duration_blocks > u128::MAX) || old(self).next_order_id + 1 > u128::MAX)),
            r matches Ok(id) ==> id == old(self).next_order_id && final(self).orders@ == old(self).orders@.push(
                spec_new_order(
                    old(self).next_order_id,
                    owner,
                    direction,
                    sell_amount,
                    duration_blocks,
                    current_block,
                ),
            ) && final(self).next_order_id == old(self).next_order_id + 1 && final(self).virtual_order_state == old(self).virtual_order_state && (direction
                == OrderDirection::SellToken0 ==> final(self).total_sell_rate_0 == old(self).total_sell_rate_0 + sell_amount / duration_blocks && final(self).total_sell_rate_1
                == old(self).total_sell_rate_1) && (direction == OrderDirection::SellToken1
                ==> final(self).total_sell_rate_1 == old(self).total_sell_rate_1 + sell_amount
                / duration_blocks && final(self).total_sell_rate_0 == old(self).total_sell_rate_0),
    {
        if sell_amount == 0 || duration_blocks == 0 {
            return Err(TwammError::InvalidInput);
        }
        let sell_rate = sell_amount / duration_blocks;
        let end_block = match current_block.checked_add(duration_blocks) {
            Some(v) => v,
            None => {
                return Err(TwammError::MathOverflow);
            },
        };
        let new_total = match direction {
            OrderDirection::SellToken0 => match self.total_sell_rate_0.checked_add(sell_rate) {
                Some(v) => v,
                None => {
                    return Err(TwammError::MathOverflow);
                },
            },
            OrderDirection::SellToken1 => match self.total_sell_rate_1.checked_add(sell_rate) {
                Some(v) => v,
                None => {
                    return Err(TwammError::MathOverflow);
                },
            },
        };
        let new_next = match self.next_order_id.checked_add(1) {
            Some(v) => v,
            None => {
                return Err(TwammError::MathOverflow);
            },
        };
        let order_id = self.next_order_id;
        let order = Order {
            id: order_id,
            owner,
            order_type: OrderType::LongTerm,
            direction,
            sell_rate,
            remaining_amount: sell_amount,
            start_block: current_block,
            end_block,
            last_virtual_order_block: current_block,
            accumulated_out: 0,
        };
        proof {
            lemma_sum_rates_push(self.orders@, order, OrderDirection::SellToken0);
            lemma_sum_rates_push(self.orders@, order, OrderDirection::SellToken1);
        }
        let ghost before = self.orders@;
        self.orders.push(order);
        match direction {
            OrderDirection::SellToken0 => {
                self.total_sell_rate_0 = new_total;
            },
            OrderDirection::SellToken1 => {
                self.total_sell_rate_1 = new_total;
            },
        }
        self.next_order_id = new_next;
        proof {
            assert forall|i: int, j: int| 0 <= i < j < self.orders@.len() implies #[trigger] self
                .orders@[i].id != #[trigger] self.orders@[j].id by {
                if j < before.len() {
                    assert(self.orders@[i] == before[i] && self.orders@[j] == before[j]);
                } else {
                    assert(self.orders@[j] == order);
                    assert(self.orders@[i] == before[i]);
                    assert(before[i].id < order_id);
                }
            }
            assert forall|i: int| 0 <= i < self.orders@.len() implies #[trigger] self.orders@[i].id
                < self.next_order_id by {
                if i < before.len() {
                    assert(self.orders@[i] == before[i]);
                } else {
                    assert(self.orders@[i] == order);
                }
            }
            assert forall|i: int| 0 <= i < self.orders@.len() implies #[trigger] self.orders@[i]
                .order_type == OrderType::LongTerm && #[trigger] self.orders@[i].remaining_amount
                > 0 && #[trigger] self.orders@[i].end_block > self.orders@[i].start_block by {
                if i < before.len() {
                    assert(self.orders@[i] == before[i]);
                } else {
                    assert(self.orders@[i] == order);
                }
            }
        }
        Ok(order_id)
    }

    /// Cancels the order with the given identifier, provided `caller`
    /// owns it, and returns its final state; the direction's running total
    /// rate shrinks by exactly the order's rate. On any failure nothing is
    /// mutated.
    pub fn cancel_order(&mut self, order_id: u128, caller: Address) -> (r: Result<
        Order,
        TwammError,
    >)
        requires
            old(self).wf(),
        ensures
            final(self).wf(),
            r is Err ==> *final(self) == *old(self),
            r is Err ==> r == Err::<Order, TwammError>(TwammError::OrderNotFound) || r == Err::<
                Order,
                TwammError,
            >(TwammError::NotOrderOwner),
            r == Err::<Order, TwammError>(TwammError::OrderNotFound) <==> spec_find_index(
                old(self).orders@,
                order_id,
            ) == -1,
            ({
                let idx = spec_find_index(old(self).orders@, order_id);
                idx != -1 ==> {
                    let o = old(self).orders@[idx];
                    if o.owner != caller {
                        r == Err::<Order, TwammError>(TwammError::NotOrderOwner)
                    } else {
                        r == Ok::<Order, TwammError>(o) && final(self).orders@ == old(self).orders@.remove(idx) && final(self).next_order_id == old(self).next_order_id && final(self).virtual_order_state == old(self).virtual_order_state && (o.direction == OrderDirection::SellToken0
                            ==> final(self).total_sell_rate_0 == old(self).total_sell_rate_0
                            - o.sell_rate && final(self).total_sell_rate_1 == old(self).total_sell_rate_1) && (o.direction == OrderDirection::SellToken1
                            ==> final(self).total_sell_rate_1 == old(self).total_sell_rate_1
                            - o.sell_rate && final(self).total_sell_rate_0 == old(self).total_sell_rate_0)
                    }
                }
            }),
    {
        proof {
            lemma_find_index_props(self.orders@, order_id);
        }
        let ghost before = self.orders@;
        let mut i: usize = 0;
        let mut found: bool = false;
        while i < self.orders.len() && !found
            invariant
                i <= self.orders@.len(),
                self.orders@ == before,
                found ==> i < self.orders@.len() && self.orders@[i as int].id == order_id,
                !found ==> forall|j: int| 0 <= j < i ==> #[trigger] self.orders@[j].id != order_id,
            decreases self.orders@.len() - i + (if found { 0int } else { 1int }),
        {
            if self.orders[i].id == order_id {
                found = true;
            } else {
                i = i + 1;
            }
        }
        if !found {
            proof {
                lemma_find_index_props(self.orders@, order_id);
            }
            return Err(TwammError::OrderNotFound);
        }
        proof {
            lemma_find_index_props(self.orders@, order_id);
            assert(spec_find_index(before, order_id) == i as int) by {
                let idx = spec_find_index(before, order_id);
                if idx < i as int {
                    assert(before[idx].id != order_id);
                }
                if idx > i as int {
                    assert(before[i as int].id != order_id);
                }
            }
        }
        let order = self.orders[i];
        if !(order.owner.hi == caller.hi && order.owner.lo == caller.lo) {
            return Err(TwammError::NotOrderOwner);
        }
        proof {
            lemma_rate_le_sum(self.orders@, i as int, order.direction);
            lemma_sum_rates_remove(self.orders@, i as int, OrderDirection::SellToken0);
            lemma_sum_rates_remove(self.orders@, i as int, OrderDirection::SellToken1);
        }
        self.orders.remove(i);
        match order.direction {
            OrderDirection::SellToken0 => {
                self.total_sell_rate_0 = self.total_sell_rate_0 - order.sell_rate;
            },
            OrderDirection::SellToken1 => {
                self.total_sell_rate_1 = self.total_sell_rate_1 - order.sell_rate;
            },
        }
        proof {
            assert forall|a: int, b: int| 0 <= a < b < self.orders@.len() implies #[trigger] self
                .orders@[a].id != #[trigger] self.orders@[b].id by {
                assert(self.orders@[a] == if a < i as int {
                    before[a]
                } else {
                    before[a + 1]
                });
                assert(self.orders@[b] == if b < i as int {
                    before[b]
                } else {
                    before[b + 1]
                });
            }
            assert forall|a: int| 0 <= a < self.orders@.len() implies #[trigger] self.orders@[a].id
                < self.next_order_id && #[trigger] self.orders@[a].order_type
                == OrderType::LongTerm && #[trigger] self.orders@[a].remaining_amount > 0
                && #[trigger] self.orders@[a].end_block > self.orders@[a].start_block by {
                assert(self.orders@[a] == if a < i as int {
                    before[a]
                } else {
                    before[a + 1]
                });
            }
        }
        Ok(order)
    }

    /// The order with the given identifier, if it is active.
    pub fn get_order(&self, order_id: u128) -> (r: Option<Order>)
        ensures
            spec_find_index(self.orders@, order_id) == -1 ==> r is None,
            spec_find_index(self.orders@, order_id) != -1 ==> r == Some(
                self.orders@[spec_find_index(self.orders@, order_id)],
            ),
    {
        proof {
            lemma_find_index_props(self.orders@, order_id);
        }
        let mut i: usize = 0;
        while i < self.orders.len()
            invariant
                i <= self.orders@.len(),
                forall|j: int| 0 <= j < i ==> #[trigger] self.orders@[j].id != order_id,
            decreases self.orders@.len() - i,
        {
            if self.orders[i].id == order_id {
                proof {
                    lemma_find_index_props(self.orders@, order_id);
                }
                return Some(self.orders[i]);
            }
            i = i + 1;
        }
        None
    }

    /// All active orders owned by `owner`, in storage sequence.
    pub fn get_orders_by_owner(&self, owner: Address) -> (r: Vec<Order>)
        ensures
            r@ == spec_orders_of_owner(self.orders@, owner),
    {
        let mut r: Vec<Order> = Vec::new();
        let mut i: usize = 0;
        proof {
            assert(self.orders@.subrange(0, 0) =~= Seq::<Order>::empty());
        }
        while i < self.orders.len()
            invariant
                i <= self.orders@.len(),
                r@ == spec_orders_of_owner(self.orders@.subrange(0, i as int), owner),
            decreases self.orders@.len() - i,
        {
            proof {
                let pre = self.orders@.subrange(0, i as int + 1);
                assert(pre.drop_last() =~= self.orders@.subrange(0, i as int));
                assert(pre.last() == self.orders@[i as int]);
            }
            if self.orders[i].owner.hi == owner.hi && self.orders[i].owner.lo == owner.lo {
                proof {
                    assert(self.orders@[i as int].owner == owner);
                }
                r.push(self.orders[i]);
            } else {
                proof {
                    assert(self.orders@[i as int].owner != owner);
                }
            }
            i = i + 1;
        }
        proof {
            assert(self.orders@.subrange(0, self.orders@.len() as int) =~= self.orders@);
        }
        r
    }

    /// How many orders are active.
    pub fn get_active_orders_count(&self) -> (r: usize)
        ensures
            r == self.orders@.len(),
    {
        self.orders.len()
    }

    /// The running total sell rates `(token 0, token 1)`.
    pub fn get_current_sell_rates(&self) -> (r: (u128, u128))
        ensures
            r.0 == self.total_sell_rate_0,
            r.1 == self.total_sell_rate_1,
    {
        (self.total_sell_rate_0, self.total_sell_rate_1)
    }

    /// Whether a catch-up is due: some order is active and at least the
    /// configured interval has elapsed since the last one.
    pub fn needs_virtual_order_execution(&self, current_block: u128) -> (r: bool)
        ensures
            r == (self.orders@.len() > 0 && (if current_block
                >= self.virtual_order_state.last_virtual_order_block {
                current_block - self.virtual_order_state.last_virtual_order_block
            } else {
                0
            }) >= self.virtual_order_state.order_block_interval),
    {
        if self.orders.len() == 0 {
            return false;
        }
        let blocks_since_last = if current_block >= self.virtual_order_state.last_virtual_order_block {
            current_block - self.virtual_order_state.last_virtual_order_block
        } else {
            0
        };
        blocks_since_last >= self.virtual_order_state.order_block_interval
    }

    /// Sets the minimum block interval between forced catch-ups; zero is
    /// rejected as `InvalidInput` with nothing changed.
    pub fn set_order_block_interval(&mut self, interval: u128) -> (r: Result<(), TwammError>)
        ensures
            interval == 0 ==> r == Err::<(), TwammError>(TwammError::InvalidInput) && *final(self)
                == *old(self),
            interval != 0 ==> r == Ok::<(), TwammError>(()) && *final(self) == (OrderPool {
                virtual_order_state: VirtualOrderState {
                    order_block_interval: interval,
                    ..old(self).virtual_order_state
                },
                ..*old(self)
            }),
    {
        if interval == 0 {
            return Err(TwammError::InvalidInput);
        }
        self.virtual_order_state.order_block_interval = interval;
        Ok(())
    }

    /// The aggregate sell rates of the orders active in `[start, end)`,
    /// per direction. Never overflows: each aggregate is bounded by the
    /// pool's running total for its direction.
    fn get_active_sell_rates(&self, start_block: u128, end_block: u128) -> (r: (u128, u128))
        requires
            self.wf(),
        ensures
            r.0 == spec_active_rates(
                self.orders@,
                start_block,
                end_block,
                OrderDirection::SellToken0,
            ),
            r.1 == spec_active_rates(
                self.orders@,
                start_block,
                end_block,
                OrderDirection::SellToken1,
            ),
    {
        let ghost all = self.orders@;
        let mut total_rate_0: u128 = 0;
        let mut total_rate_1: u128 = 0;
        let mut i: usize = 0;
        proof {
            assert(all.subrange(0, all.len() as int) =~= all);
        }
        while i < self.orders.len()
            invariant
                self.wf(),
                self.orders@ == all,
                i <= all.len(),
                total_rate_0 + spec_active_rates(
                    all.subrange(i as int, all.len() as int),
                    start_block,
                    end_block,
                    OrderDirection::SellToken0,
                ) == spec_active_rates(all, start_block, end_block, OrderDirection::SellToken0),
                total_rate_1 + spec_active_rates(
                    all.subrange(i as int, all.len() as int),
                    start_block,
                    end_block,
                    OrderDirection::SellToken1,
                ) == spec_active_rates(all, start_block, end_block, OrderDirection::SellToken1),
                0 <= total_rate_0,
                0 <= total_rate_1,
            decreases all.len() - i,
        {
            proof {
                let suf = all.subrange(i as int, all.len() as int);
                assert(suf[0] == all[i as int]);
                assert(suf.drop_first() =~= all.subrange(i as int + 1, all.len() as int));
                lemma_active_rates_bounds(all, start_block, end_block, OrderDirection::SellToken0);
                lemma_active_rates_bounds(all, start_block, end_block, OrderDirection::SellToken1);
                lemma_active_rates_bounds(
                    all.subrange(i as int + 1, all.len() as int),
                    start_block,
                    end_block,
                    OrderDirection::SellToken0,
                );
                lemma_active_rates_bounds(
                    all.subrange(i as int + 1, all.len() as int),
                    start_block,
                    end_block,
                    OrderDirection::SellToken1,
                );
            }
            let o = self.orders[i];
            if o.order_type == OrderType::LongTerm {
                if !(o.end_block <= start_block || o.start_block >= end_block) {
                    let effective_start = if o.start_block > start_block {
                        o.start_block
                    } else {
                        start_block
                    };
                    let effective_end = if o.end_block < end_block {
                        o.end_block
                    } else {
                        end_block
                    };
                    if effective_end > effective_start {
                        match o.direction {
                            OrderDirection::SellToken0 => {
                                total_rate_0 = total_rate_0 + o.sell_rate;
                            },
                            OrderDirection::SellToken1 => {
                                total_rate_1 = total_rate_1 + o.sell_rate;
                            },
                        }
                    }
                }
            }
            i = i + 1;
        }
        proof {
            assert(all.subrange(all.len() as int, all.len() as int) =~= Seq::<Order>::empty());
        }
        (total_rate_0, total_rate_1)
    }

    /// Advances every order to `current_block` in one batch: runs the
    /// closed-form engine once over the elapsed window with the aggregate
    /// window-active rates, drains each live order by its own rate,
    /// distributes the received amounts in proportion to the orders'
    /// rates, and removes expired or fully drained orders.
    ///
    /// A stale or duplicate call (`current_block` not beyond the last
    /// catch-up) is a no-op with an all-zero result, so repeating a
    /// catch-up at the same block leaves the pool unchanged. On any
    /// failure nothing is mutated.
    pub fn execute_virtual_orders(
        &mut self,
        current_block: u128,
        current_reserve_0: u128,
        current_reserve_1: u128,
    ) -> (r: Result<VirtualExecutionResult, TwammError>)
        requires
            old(self).wf(),
        ensures
            final(self).wf(),
            r is Err ==> *final(self) == *old(self),
            current_block <= old(self).virtual_order_state.last_virtual_order_block ==> r == Ok::<
                VirtualExecutionResult,
                TwammError,
            >(spec_zero_result(current_reserve_0, current_reserve_1)) && *final(self) == *old(self),
            current_block > old(self).virtual_order_state.last_virtual_order_block ==> ({
                let step = spec_execute_window(
                    old(self).orders@,
                    old(self).virtual_order_state.last_virtual_order_block,
                    current_block,
                    current_reserve_0,
                    current_reserve_1,
                );
                match step {
                    Err(e) => r == Err::<VirtualExecutionResult, TwammError>(e),
                    Ok(p) => r == Ok::<VirtualExecutionResult, TwammError>(p.1) && final(self).orders@ == p.0 && final(self).virtual_order_state == (VirtualOrderState {
                        last_virtual_order_block: current_block,
                        ..old(self).virtual_order_state
                    }) && final(self).next_order_id == old(self).next_order_id,
                }
            }),
    {
        let last_block = self.virtual_order_state.last_virtual_order_block;
        if current_block <= last_block {
            return Ok(
                VirtualExecutionResult {
                    blocks_executed: 0,
                    amount_0_sold: 0,
                    amount_1_sold: 0,
                    amount_0_received: 0,
                    amount_1_received: 0,
                    new_reserve_0: current_reserve_0,
                    new_reserve_1: current_reserve_1,
                    gas_used_estimate: 0,
                },
            );
        }
        let blocks_elapsed = current_block - last_block;
        let (active_sell_rate_0, active_sell_rate_1) = self.get_active_sell_rates(
            last_block,
            current_block,
        );
        let engine = match TWAMMath::execute_virtual_orders_closed_form(
            active_sell_rate_0,
            active_sell_rate_1,
            blocks_elapsed,
            current_reserve_0,
            current_reserve_1,
        ) {
            Ok(p) => p,
            Err(e) => {
                return Err(e);
            },
        };
        let (new_reserve_0, new_reserve_1, amount_0_received, amount_1_received) = engine;
        let amount_0_sold = match active_sell_rate_0.checked_mul(blocks_elapsed) {
            Some(v) => v,
            None => {
                return Err(TwammError::MathOverflow);
            },
        };
        let amount_1_sold = match active_sell_rate_1.checked_mul(blocks_elapsed) {
            Some(v) => v,
            None => {
                return Err(TwammError::MathOverflow);
            },
        };
        let gas_estimate = match blocks_elapsed.checked_mul(21000) {
            Some(v) => v,
            None => {
                return Err(TwammError::MathOverflow);
            },
        };
        let ghost all = self.orders@;
        let ghost t0 = self.total_sell_rate_0;
        let ghost t1 = self.total_sell_rate_1;
        let mut new_orders: Vec<Order> = Vec::new();
        let mut new_total_0: u128 = 0;
        let mut new_total_1: u128 = 0;
        let mut idx: usize = 0;
        proof {
            assert(all.subrange(0, all.len() as int) =~= all);
            assert(all.subrange(0, 0) =~= Seq::<Order>::empty());
        }
        while idx < self.orders.len()
            invariant
                self.wf(),
                *self == *old(self),
                self.orders@ == all,
                self.total_sell_rate_0 == t0,
                self.total_sell_rate_1 == t1,
                last_block == old(self).virtual_order_state.last_virtual_order_block,
                current_block > last_block,
                blocks_elapsed == current_block - last_block,
                active_sell_rate_0 == spec_active_rates(
                    all,
                    last_block,
                    current_block,
                    OrderDirection::SellToken0,
                ),
                active_sell_rate_1 == spec_active_rates(
                    all,
                    last_block,
                    current_block,
                    OrderDirection::SellToken1,
                ),
                spec_closed_form(
                    active_sell_rate_0,
                    active_sell_rate_1,
                    blocks_elapsed,
                    current_reserve_0,
                    current_reserve_1,
                ) == Ok::<(u128, u128, u128, u128), TwammError>(
                    (new_reserve_0, new_reserve_1, amount_0_received, amount_1_received),
                ),
                amount_0_sold == active_sell_rate_0 * blocks_elapsed,
                amount_1_sold == active_sell_rate_1 * blocks_elapsed,
                gas_estimate == blocks_elapsed * 21000,
                idx <= all.len(),
                spec_process_orders(
                    all,
                    last_block,
                    blocks_elapsed,
                    amount_0_received,
                    amount_1_received,
                    active_sell_rate_0,
                    active_sell_rate_1,
                    current_block,
                ) == (match spec_process_orders(
                    all.subrange(idx as int, all.len() as int),
                    last_block,
                    blocks_elapsed,
                    amount_0_received,
                    amount_1_received,
                    active_sell_rate_0,
                    active_sell_rate_1,
                    current_block,
                ) {
                    None => None::<Seq<Order>>,
                    Some(t) => Some(new_orders@ + t),
                }),
                new_total_0 == spec_sum_rates(new_orders@, OrderDirection::SellToken0),
                new_total_1 == spec_sum_rates(new_orders@, OrderDirection::SellToken1),
                spec_sum_rates(new_orders@, OrderDirection::SellToken0) <= spec_sum_rates(
                    all.subrange(0, idx as int),
                    OrderDirection::SellToken0,
                ),
                spec_sum_rates(new_orders@, OrderDirection::SellToken1) <= spec_sum_rates(
                    all.subrange(0, idx as int),
                    OrderDirection::SellToken1,
                ),
            decreases all.len() - idx,
        {
            proof {
                let suf = all.subrange(idx as int, all.len() as int);
                assert(suf[0] == all[idx as int]);
                assert(suf.drop_first() =~= all.subrange(idx as int + 1, all.len() as int));
                assert(all.subrange(0, idx as int + 1) =~= all.subrange(0, idx as int).push(
                    all[idx as int],
                ));
                lemma_sum_rates_push(
                    all.subrange(0, idx as int),
                    all[idx as int],
                    OrderDirection::SellToken0,
                );
                lemma_sum_rates_push(
                    all.subrange(0, idx as int),
                    all[idx as int],
                    OrderDirection::SellToken1,
                );
                lemma_sum_rates_concat(
                    all.subrange(0, idx as int),
                    all.subrange(idx as int, all.len() as int),
                    OrderDirection::SellToken0,
                );
                lemma_sum_rates_concat(
                    all.subrange(0, idx as int),
                    all.subrange(idx as int, all.len() as int),
                    OrderDirection::SellToken1,
                );
                lemma_sum_rates_nonneg(
                    all.subrange(idx as int + 1, all.len() as int),
                    OrderDirection::SellToken0,
                );
                lemma_sum_rates_nonneg(
                    all.subrange(idx as int + 1, all.len() as int),
                    OrderDirection::SellToken1,
                );
                assert(all.subrange(0, idx as int) + all.subrange(idx as int, all.len() as int)
                    =~= all);
                assert(spec_sum_rates(suf, OrderDirection::SellToken0) == spec_rate_of(
                    all[idx as int],
                    OrderDirection::SellToken0,
                ) + spec_sum_rates(
                    all.subrange(idx as int + 1, all.len() as int),
                    OrderDirection::SellToken0,
                ));
                assert(spec_sum_rates(suf, OrderDirection::SellToken1) == spec_rate_of(
                    all[idx as int],
                    OrderDirection::SellToken1,
                ) + spec_sum_rates(
                    all.subrange(idx as int + 1, all.len() as int),
                    OrderDirection::SellToken1,
                ));
            }
            let o = self.orders[idx];
            let keep_untouched: bool;
            if o.order_type != OrderType::LongTerm {
                keep_untouched = true;
            } else if current_block >= o.end_block {
                // expired: removed without settlement
                idx = idx + 1;
                continue;
            } else {
                // live: settled only when active in the window
                let effective_start = if o.start_block > last_block {
                    o.start_block
                } else {
                    last_block
                };
                let effective_end = if o.end_block < current_block {
                    o.end_block
                } else {
                    current_block
                };
                keep_untouched = (o.end_block <= last_block || o.start_block >= current_block)
                    || !(effective_end > effective_start);
            }
            if keep_untouched {
                proof {
                    lemma_sum_rates_push(new_orders@, o, OrderDirection::SellToken0);
                    lemma_sum_rates_push(new_orders@, o, OrderDirection::SellToken1);
                }
                let ghost nb = new_orders@;
                new_orders.push(o);
                match o.direction {
                    OrderDirection::SellToken0 => {
                        new_total_0 = new_total_0 + o.sell_rate;
                    },
                    OrderDirection::SellToken1 => {
                        new_total_1 = new_total_1 + o.sell_rate;
                    },
                }
                proof {
                    match spec_process_orders(
                        all.subrange(idx as int + 1, all.len() as int),
                        last_block,
                        blocks_elapsed,
                        amount_0_received,
                        amount_1_received,
                        active_sell_rate_0,
                        active_sell_rate_1,
                        current_block,
                    ) {
                        None => {},
                        Some(tt) => {
                            assert(nb + (seq![o] + tt) =~= new_orders@ + tt);
                        },
                    }
                }
            } else {
                let amount_sold = match o.sell_rate.checked_mul(blocks_elapsed) {
                    Some(v) => v,
                    None => {
                        return Err(TwammError::MathOverflow);
                    },
                };
                let sold = if amount_sold > o.remaining_amount {
                    o.remaining_amount
                } else {
                    amount_sold
                };
                let received = match o.direction {
                    OrderDirection::SellToken0 => if active_sell_rate_0 > 0 {
                        match mul_div(
                            amount_1_received,
                            o.sell_rate,
                            active_sell_rate_0,
                        ) {
                            Ok(v) => v,
                            Err(_) => {
                                return Err(TwammError::MathOverflow);
                            },
                        }
                    } else {
                        0
                    },
                    OrderDirection::SellToken1 => if active_sell_rate_1 > 0 {
                        match mul_div(
                            amount_0_received,
                            o.sell_rate,
                            active_sell_rate_1,
                        ) {
                            Ok(v) => v,
                            Err(_) => {
                                return Err(TwammError::MathOverflow);
                            },
                        }
                    } else {
                        0
                    },
                };
                let new_accumulated = match o.accumulated_out.checked_add(received) {
                    Some(v) => v,
                    None => {
                        return Err(TwammError::MathOverflow);
                    },
                };
                let settled = Order {
                    remaining_amount: o.remaining_amount - sold,
                    accumulated_out: new_accumulated,
                    last_virtual_order_block: current_block,
                    ..o
                };
                proof {
                    assert(spec_window_active(o, last_block, current_block));
                    assert(spec_order_can_settle(
                        o,
                        blocks_elapsed,
                        amount_0_received,
                        amount_1_received,
                        active_sell_rate_0,
                        active_sell_rate_1,
                    ));
                    assert(settled == spec_settle_order(
                        o,
                        blocks_elapsed,
                        amount_0_received,
                        amount_1_received,
                        active_sell_rate_0,
                        active_sell_rate_1,
                        current_block,
                    ));
                }
                if settled.remaining_amount == 0 {
                    // fully drained: removed
                } else {
                    proof {
                        lemma_sum_rates_push(new_orders@, settled, OrderDirection::SellToken0);
                        lemma_sum_rates_push(new_orders@, settled, OrderDirection::SellToken1);
                    }
                    let ghost nb = new_orders@;
                    new_orders.push(settled);
                    match o.direction {
                        OrderDirection::SellToken0 => {
                            new_total_0 = new_total_0 + o.sell_rate;
                        },
                        OrderDirection::SellToken1 => {
                            new_total_1 = new_total_1 + o.sell_rate;
                        },
                    }
                    proof {
                        match spec_process_orders(
                            all.subrange(idx as int + 1, all.len() as int),
                            last_block,
                            blocks_elapsed,
                            amount_0_received,
                            amount_1_received,
                            active_sell_rate_0,
                            active_sell_rate_1,
                            current_block,
                        ) {
                            None => {},
                            Some(tt) => {
                                assert(nb + (seq![settled] + tt) =~= new_orders@ + tt);
                            },
                        }
                    }
                }
            }
            idx = idx + 1;
        }
        proof {
            assert(all.subrange(all.len() as int, all.len() as int) =~= Seq::<Order>::empty());
            assert(new_orders@ + Seq::<Order>::empty() =~= new_orders@);
            lemma_process_orders_props(
                all,
                last_block,
                blocks_elapsed,
                amount_0_received,
                amount_1_received,
                active_sell_rate_0,
                active_sell_rate_1,
                current_block,
                new_orders@,
                self.next_order_id,
            );
        }
        self.orders = new_orders;
        self.total_sell_rate_0 = new_total_0;
        self.total_sell_rate_1 = new_total_1;
        self.virtual_order_state.last_virtual_order_block = current_block;
        Ok(
            VirtualExecutionResult {
                blocks_executed: blocks_elapsed,
                amount_0_sold,
                amount_1_sold,
                amount_0_received,
                amount_1_received,
                new_reserve_0,
                new_reserve_1,
                gas_used_estimate: gas_estimate,
            },
        )
    }

    /// A saturating gas estimate for running a catch-up now.
    pub fn estimate_virtual_execution_gas(&self, current_block: u128) -> (r: u128)
        ensures
            r == spec_execution_gas(*self, current_block),
    {
        let blocks_since_last = if current_block
            >= self.virtual_order_state.last_virtual_order_block {
            current_block - self.virtual_order_state.last_virtual_order_block
        } else {
            0
        };
        let base_gas: u128 = 50000;
        let blocks_gas = match blocks_since_last.checked_mul(1000) {
            Some(v) => v,
            None => 0,
        };
        let orders_len: u128 = self.orders.len() as u128;
        let orders_gas = match orders_len.checked_mul(5000) {
            Some(v) => v,
            None => 0,
        };
        let with_blocks = match base_gas.checked_add(blocks_gas) {
            Some(v) => v,
            None => u128::MAX,
        };
        match with_blocks.checked_add(orders_gas) {
            Some(v) => v,
            None => u128::MAX,
        }
    }

    /// A read-only statistics snapshot at `current_block`: order counts by
    /// expiry, saturating executed volumes per direction, the running
    /// rates and the last catch-up block.
    pub fn get_execution_statistics(&self, current_block: u128) -> (r: ExecutionStatistics)
        requires
            self.orders@.len() <= u32::MAX,
        ensures
            r.active_orders == spec_statistics_fold(self.orders@, current_block).0,
            r.completed_orders == spec_statistics_fold(self.orders@, current_block).1,
            r.total_volume_0 == spec_statistics_fold(self.orders@, current_block).2,
            r.total_volume_1 == spec_statistics_fold(self.orders@, current_block).3,
            r.current_sell_rate_0 == self.total_sell_rate_0,
            r.current_sell_rate_1 == self.total_sell_rate_1,
            r.last_virtual_execution_block
                == self.virtual_order_state.last_virtual_order_block,
    {
        let ghost all = self.orders@;
        let mut active_orders: u32 = 0;
        let mut completed_orders: u32 = 0;
        let mut total_volume_0: u128 = 0;
        let mut total_volume_1: u128 = 0;
        let mut i: usize = 0;
        proof {
            assert(all.subrange(0, 0) =~= Seq::<Order>::empty());
        }
        while i < self.orders.len()
            invariant
                self.orders@ == all,
                all.len() <= u32::MAX,
                i <= all.len(),
                active_orders == spec_statistics_fold(all.subrange(0, i as int), current_block).0,
                completed_orders == spec_statistics_fold(
                    all.subrange(0, i as int),
                    current_block,
                ).1,
                total_volume_0 == spec_statistics_fold(all.subrange(0, i as int), current_block).2,
                total_volume_1 == spec_statistics_fold(all.subrange(0, i as int), current_block).3,
                active_orders + completed_orders == i,
            decreases all.len() - i,
        {
            proof {
                let pre = all.subrange(0, i as int + 1);
                assert(pre.drop_last() =~= all.subrange(0, i as int));
                assert(pre.last() == all[i as int]);
                lemma_statistics_fold_counts(all.subrange(0, i as int), current_block);
            }
            let o = self.orders[i];
            if current_block >= o.end_block {
                completed_orders = completed_orders + 1;
            } else {
                active_orders = active_orders + 1;
            }
            let elapsed = if current_block >= o.start_block {
                current_block - o.start_block
            } else {
                0
            };
            let produced = match o.sell_rate.checked_mul(elapsed) {
                Some(v) => v,
                None => 0,
            };
            let executed = if produced > o.remaining_amount {
                o.remaining_amount
            } else {
                produced
            };
            match o.direction {
                OrderDirection::SellToken0 => {
                    total_volume_0 = match total_volume_0.checked_add(executed) {
                        Some(v) => v,
                        None => total_volume_0,
                    };
                },
                OrderDirection::SellToken1 => {
                    total_volume_1 = match total_volume_1.checked_add(executed) {
                        Some(v) => v,
                        None => total_volume_1,
                    };
                },
            }
            i = i + 1;
        }
        proof {
            assert(all.subrange(0, all.len() as int) =~= all);
        }
        ExecutionStatistics {
            active_orders,
            completed_orders,
            total_volume_0,
            total_volume_1,
            current_sell_rate_0: self.total_sell_rate_0,
            current_sell_rate_1: self.total_sell_rate_1,
            last_virtual_execution_block: self.virtual_order_state.last_virtual_order_block,
        }
    }
}

/// Whether the order overlaps the catch-up window `[start, end)` as a
/// long-term order with a nonempty effective interval.
pub open spec fn spec_window_active(o: Order, start_block: u128, end_block: u128) -> bool {
    &&& o.order_type == OrderType::LongTerm
    &&& !(o.end_block <= start_block || o.start_block >= end_block)
    &&& (if o.end_block < end_block {
        o.end_block
    } else {
        end_block
    }) > (if o.start_block > start_block {
        o.start_block
    } else {
        start_block
    })
}

/// Σ of the sell rates, in direction `d`, of the orders active in the
/// window `[start, end)`.
pub open spec fn spec_active_rates(
    s: Seq<Order>,
    start_block: u128,
    end_block: u128,
    d: OrderDirection,
) -> int
    decreases s.len(),
{
    if s.len() == 0 {
        0
    } else {
        (if spec_window_active(s[0], start_block, end_block) {
            spec_rate_of(s[0], d)
        } else {
            0
        }) + spec_active_rates(s.drop_first(), start_block, end_block, d)
    }
}

pub proof fn lemma_active_rates_bounds(
    s: Seq<Order>,
    start_block: u128,
    end_block: u128,
    d: OrderDirection,
)
    ensures
        0 <= spec_active_rates(s, start_block, end_block, d),
        spec_active_rates(s, start_block, end_block, d) <= spec_sum_rates(s, d),
    decreases s.len(),
{
    if s.len() > 0 {
        lemma_active_rates_bounds(s.drop_first(), start_block, end_block, d);
    }
}

/// The proceeds this order is owed for the window: the received amount of
/// the opposite token, times the order's share `rate / aggregate rate` of
/// the window-active aggregate for its direction (zero when that
/// aggregate is zero).
pub open spec fn spec_order_payout(o: Order, recv0: u128, recv1: u128, a0: u128, a1: u128) -> int {
    if o.direction == OrderDirection::SellToken0 {
        if a0 > 0 {
            (recv1 * o.sell_rate) / (a0 as int)
        } else {
            0
        }
    } else {
        if a1 > 0 {
            (recv0 * o.sell_rate) / (a1 as int)
        } else {
            0
        }
    }
}

/// Whether every checked arithmetic step of settling this order fits in
/// 128 bits (the payout itself goes through a 256-bit-wide product).
pub open spec fn spec_order_can_settle(
    o: Order,
    blocks: u128,
    recv0: u128,
    recv1: u128,
    a0: u128,
    a1: u128,
) -> bool {
    &&& o.sell_rate * blocks <= u128::MAX
    &&& spec_order_payout(o, recv0, recv1, a0, a1) <= u128::MAX
    &&& o.accumulated_out + spec_order_payout(o, recv0, recv1, a0, a1) <= u128::MAX
}

/// One order after the catch-up: the remainder shrinks by what the window
/// sold (never below zero), the proportional payout is credited, and the
/// catch-up block advances.
pub open spec fn spec_settle_order(
    o: Order,
    blocks: u128,
    recv0: u128,
    recv1: u128,
    a0: u128,
    a1: u128,
    cur: u128,
) -> Order {
    let sold = if o.sell_rate * blocks > o.remaining_amount {
        o.remaining_amount as int
    } else {
        o.sell_rate * blocks
    };
    Order {
        remaining_amount: (o.remaining_amount - sold) as u128,
        accumulated_out: (o.accumulated_out + spec_order_payout(o, recv0, recv1, a0, a1)) as u128,
        last_virtual_order_block: cur,
        ..o
    }
}

/// All orders after the catch-up over the window `[ws, cur)`, in storage
/// order: expired orders leave unpaid, orders not active in the window
/// stay untouched, the window-active rest settle against the window
/// aggregates `a0`/`a1`, and those fully drained leave; `None` when some
/// checked step would overflow (the caller then mutates nothing).
pub open spec fn spec_process_orders(
    s: Seq<Order>,
    ws: u128,
    blocks: u128,
    recv0: u128,
    recv1: u128,
    a0: u128,
    a1: u128,
    cur: u128,
) -> Option<Seq<Order>>
    decreases s.len(),
{
    if s.len() == 0 {
        Some(Seq::empty())
    } else {
        let o = s[0];
        let rest = spec_process_orders(s.drop_first(), ws, blocks, recv0, recv1, a0, a1, cur);
        if o.order_type != OrderType::LongTerm {
            match rest {
                None => None,
                Some(t) => Some(seq![o] + t),
            }
        } else if cur >= o.end_block {
            rest
        } else if !spec_window_active(o, ws, cur) {
            match rest {
                None => None,
                Some(t) => Some(seq![o] + t),
            }
        } else if !spec_order_can_settle(o, blocks, recv0, recv1, a0, a1) {
            None
        } else {
            let o2 = spec_settle_order(o, blocks, recv0, recv1, a0, a1, cur);
            if o2.remaining_amount == 0 {
                rest
            } else {
                match rest {
                    None => None,
                    Some(t) => Some(seq![o2] + t),
                }
            }
        }
    }
}

/// Settling preserves well-formedness: the surviving orders keep their
/// identifiers (all drawn from the input), stay unique, long-term, live
/// and undrained, and their direction sums never grow.
pub proof fn lemma_process_orders_props(
    s: Seq<Order>,
    ws: u128,
    blocks: u128,
    recv0: u128,
    recv1: u128,
    a0: u128,
    a1: u128,
    cur: u128,
    out: Seq<Order>,
    bound: u128,
)
    requires
        spec_process_orders(s, ws, blocks, recv0, recv1, a0, a1, cur) == Some(out),
        forall|i: int, j: int| 0 <= i < j < s.len() ==> #[trigger] s[i].id != #[trigger] s[j].id,
        forall|i: int| 0 <= i < s.len() ==> #[trigger] s[i].id < bound,
        forall|i: int| 0 <= i < s.len() ==> #[trigger] s[i].order_type == OrderType::LongTerm,
        forall|i: int| 0 <= i < s.len() ==> #[trigger] s[i].remaining_amount > 0,
        forall|i: int| 0 <= i < s.len() ==> #[trigger] s[i].end_block > s[i].start_block,
    ensures
        forall|i: int, j: int|
            0 <= i < j < out.len() ==> #[trigger] out[i].id != #[trigger] out[j].id,
        forall|i: int| 0 <= i < out.len() ==> #[trigger] out[i].id < bound,
        forall|i: int| 0 <= i < out.len() ==> #[trigger] out[i].order_type == OrderType::LongTerm,
        forall|i: int| 0 <= i < out.len() ==> #[trigger] out[i].remaining_amount > 0,
        forall|i: int| 0 <= i < out.len() ==> #[trigger] out[i].end_block > out[i].start_block,
        spec_sum_rates(out, OrderDirection::SellToken0) <= spec_sum_rates(
            s,
            OrderDirection::SellToken0,
        ),
        spec_sum_rates(out, OrderDirection::SellToken1) <= spec_sum_rates(
            s,
            OrderDirection::SellToken1,
        ),
        forall|i: int| 0 <= i < out.len() ==> spec_contains_id(s, #[trigger] out[i].id),
    decreases s.len(),
{
    lemma_sum_rates_nonneg(out, OrderDirection::SellToken0);
    lemma_sum_rates_nonneg(out, OrderDirection::SellToken1);
    if s.len() == 0 {
        assert(out =~= Seq::<Order>::empty());
    } else {
        let o = s[0];
        let d = s.drop_first();
        assert forall|i: int, j: int| 0 <= i < j < d.len() implies #[trigger] d[i].id
            != #[trigger] d[j].id by {
            assert(d[i] == s[i + 1] && d[j] == s[j + 1]);
        }
        assert forall|i: int| 0 <= i < d.len() implies #[trigger] d[i].id < bound
            && #[trigger] d[i].order_type == OrderType::LongTerm && #[trigger] d[i]
            .remaining_amount > 0 && #[trigger] d[i].end_block > d[i].start_block by {
            assert(d[i] == s[i + 1]);
        }
        let rest = spec_process_orders(d, ws, blocks, recv0, recv1, a0, a1, cur);
        if cur >= o.end_block {
            lemma_process_orders_props(d, ws, blocks, recv0, recv1, a0, a1, cur, out, bound);
            lemma_sum_rates_nonneg(d, OrderDirection::SellToken0);
            assert forall|i: int| 0 <= i < out.len() implies spec_contains_id(
                s,
                #[trigger] out[i].id,
            ) by {
                let k = choose|k: int| 0 <= k < d.len() && d[k].id == out[i].id;
                assert(s[k + 1] == d[k]);
            }
        } else {
            let o2 = spec_settle_order(o, blocks, recv0, recv1, a0, a1, cur);
            let kept: Order = if !spec_window_active(o, ws, cur) {
                o
            } else {
                o2
            };
            let dropped = spec_window_active(o, ws, cur) && o2.remaining_amount == 0;
            if dropped {
                lemma_process_orders_props(d, ws, blocks, recv0, recv1, a0, a1, cur, out, bound);
                assert forall|i: int| 0 <= i < out.len() implies spec_contains_id(
                    s,
                    #[trigger] out[i].id,
                ) by {
                    let k = choose|k: int| 0 <= k < d.len() && d[k].id == out[i].id;
                    assert(s[k + 1] == d[k]);
                }
            } else {
                let t = rest->Some_0;
                lemma_process_orders_props(d, ws, blocks, recv0, recv1, a0, a1, cur, t, bound);
                assert(out == seq![kept] + t);
                assert(out[0] == kept);
                assert forall|i: int| 1 <= i < out.len() implies out[i] == t[i - 1] by {
                    assert(out[i] == (seq![kept] + t)[i]);
                }
                assert(kept.id == o.id && kept.order_type == o.order_type && kept.direction
                    == o.direction && kept.sell_rate == o.sell_rate && kept.end_block
                    == o.end_block && kept.start_block == o.start_block);
                assert(kept.remaining_amount > 0);
                assert forall|i: int, j: int| 0 <= i < j < out.len() implies #[trigger] out[i].id
                    != #[trigger] out[j].id by {
                    if i == 0 {
                        let k = choose|k: int| 0 <= k < d.len() && d[k].id == t[j - 1].id;
                        assert(s[k + 1] == d[k]);
                        assert(s[0].id != s[k + 1].id);
                    }
                }
                assert forall|i: int| 0 <= i < out.len() implies spec_contains_id(
                    s,
                    #[trigger] out[i].id,
                ) by {
                    if i == 0 {
                        assert(s[0].id == out[0].id);
                    } else {
                        let k = choose|k: int| 0 <= k < d.len() && d[k].id == t[i - 1].id;
                        assert(s[k + 1] == d[k]);
                    }
                }
                assert(out.drop_first() =~= t);
                assert(spec_sum_rates(out, OrderDirection::SellToken0) == spec_rate_of(
                    kept,
                    OrderDirection::SellToken0,
                ) + spec_sum_rates(t, OrderDirection::SellToken0));
                assert(spec_sum_rates(out, OrderDirection::SellToken1) == spec_rate_of(
                    kept,
                    OrderDirection::SellToken1,
                ) + spec_sum_rates(t, OrderDirection::SellToken1));
            }
        }
    }
}

/// Σ of the window payouts of all orders in `s` (see `spec_order_payout`;
/// each settled order's `accumulated_out` grows by exactly its payout).
pub open spec fn spec_payout_total(
    s: Seq<Order>,
    recv0: u128,
    recv1: u128,
    a0: u128,
    a1: u128,
) -> int
    decreases s.len(),
{
    if s.len() == 0 {
        0
    } else {
        spec_order_payout(s[0], recv0, recv1, a0, a1) + spec_payout_total(
            s.drop_first(),
            recv0,
            recv1,
            a0,
            a1,
        )
    }
}

proof fn lemma_payout_total_bounds(
    s: Seq<Order>,
    recv0: u128,
    recv1: u128,
    a0: u128,
    a1: u128,
    d: OrderDirection,
    amount: u128,
    total: u128,
)
    requires
        forall|i: int| 0 <= i < s.len() ==> #[trigger] s[i].direction == d,
        amount == (if d == OrderDirection::SellToken0 {
            recv1
        } else {
            recv0
        }),
        total == (if d == OrderDirection::SellToken0 {
            a0
        } else {
            a1
        }),
        total >= 1,
    ensures
        total * spec_payout_total(s, recv0, recv1, a0, a1) <= amount * spec_sum_rates(s, d),
        total * spec_payout_total(s, recv0, recv1, a0, a1) >= amount * spec_sum_rates(s, d)
            - s.len() * (total - 1),
    decreases s.len(),
{
    if s.len() > 0 {
        let o = s[0];
        assert(s.drop_first().len() == s.len() - 1);
        assert forall|i: int| 0 <= i < s.drop_first().len() implies #[trigger] s.drop_first()[i]
            .direction == d by {
            assert(s.drop_first()[i] == s[i + 1]);
        }
        lemma_payout_total_bounds(s.drop_first(), recv0, recv1, a0, a1, d, amount, total);
        assert(o.direction == d);
        let x = amount * o.sell_rate;
        let q = spec_order_payout(o, recv0, recv1, a0, a1);
        lemma_fundamental_div_mod(x, total as int);
        assert(q == x / (total as int));
        assert(total * q <= x && total * q >= x - (total - 1)) by (nonlinear_arith)
            requires
                x == (total as int) * (x / (total as int)) + x % (total as int),
                0 <= x % (total as int),
                x % (total as int) < total,
                q == x / (total as int),
        ;
        assert(spec_rate_of(o, d) == o.sell_rate);
        assert(total * (q + spec_payout_total(s.drop_first(), recv0, recv1, a0, a1)) == total * q
            + total * spec_payout_total(s.drop_first(), recv0, recv1, a0, a1))
            by (nonlinear_arith);
        assert(amount * (o.sell_rate + spec_sum_rates(s.drop_first(), d)) == amount * o.sell_rate
            + amount * spec_sum_rates(s.drop_first(), d)) by (nonlinear_arith);
        assert(spec_payout_total(s, recv0, recv1, a0, a1) == q + spec_payout_total(
            s.drop_first(),
            recv0,
            recv1,
            a0,
            a1,
        ));
        assert(spec_sum_rates(s, d) == o.sell_rate + spec_sum_rates(s.drop_first(), d));
        assert(s.len() * (total - 1) == (s.len() - 1) * (total - 1) + (total - 1))
            by (nonlinear_arith)
            requires
                s.len() >= 1,
        ;
    }
}

/// Settlement conservation: when every order in `s` sells the same token
/// `d` and `total` (the pool's aggregate rate for `d`, as `a0`/`a1`) is
/// exactly the sum of their rates, the window payouts — by which the
/// settled orders' `accumulated_out` fields grow — add up to the received
/// opposite-token amount, short at most one unit per contributing order.
pub proof fn lemma_settlement_conservation(
    s: Seq<Order>,
    recv0: u128,
    recv1: u128,
    a0: u128,
    a1: u128,
    d: OrderDirection,
)
    requires
        forall|i: int| 0 <= i < s.len() ==> #[trigger] s[i].direction == d,
        d == OrderDirection::SellToken0 ==> a0 == spec_sum_rates(s, d) && a0 > 0,
        d == OrderDirection::SellToken1 ==> a1 == spec_sum_rates(s, d) && a1 > 0,
    ensures
        spec_payout_total(s, recv0, recv1, a0, a1) <= (if d == OrderDirection::SellToken0 {
            recv1
        } else {
            recv0
        }),
        spec_payout_total(s, recv0, recv1, a0, a1) >= (if d == OrderDirection::SellToken0 {
            recv1
        } else {
            recv0
        }) - s.len(),
{
    let amount: u128 = if d == OrderDirection::SellToken0 {
        recv1
    } else {
        recv0
    };
    let total: u128 = if d == OrderDirection::SellToken0 {
        a0
    } else {
        a1
    };
    lemma_payout_total_bounds(s, recv0, recv1, a0, a1, d, amount, total);
    let p = spec_payout_total(s, recv0, recv1, a0, a1);
    assert(p <= amount) by (nonlinear_arith)
        requires
            total * p <= amount * (total as int),
            total >= 1,
    ;
    assert(p >= amount - s.len()) by (nonlinear_arith)
        requires
            total * p >= amount * (total as int) - s.len() * (total - 1),
            total >= 1,
            s.len() >= 0,
    ;
}

/// Σ of the proceeds accumulated so far over the orders in `s`.
pub open spec fn spec_accumulated_total(s: Seq<Order>) -> int
    decreases s.len(),
{
    if s.len() == 0 {
        0
    } else {
        s[0].accumulated_out + spec_accumulated_total(s.drop_first())
    }
}

/// A catch-up in which every order is window-active and stays live
/// credits each order exactly its window payout: the accumulated proceeds
/// grow by the payout total.
pub proof fn lemma_catch_up_credits_payouts(
    s: Seq<Order>,
    ws: u128,
    blocks: u128,
    recv0: u128,
    recv1: u128,
    a0: u128,
    a1: u128,
    cur: u128,
    out: Seq<Order>,
)
    requires
        spec_process_orders(s, ws, blocks, recv0, recv1, a0, a1, cur) == Some(out),
        forall|i: int|
            0 <= i < s.len() ==> #[trigger] s[i].order_type == OrderType::LongTerm && cur < s[i].end_block
                && spec_window_active(s[i], ws, cur) && spec_settle_order(
                s[i],
                blocks,
                recv0,
                recv1,
                a0,
                a1,
                cur,
            ).remaining_amount != 0,
    ensures
        out.len() == s.len(),
        spec_accumulated_total(out) == spec_accumulated_total(s) + spec_payout_total(
            s,
            recv0,
            recv1,
            a0,
            a1,
        ),
    decreases s.len(),
{
    if s.len() == 0 {
        assert(out =~= Seq::<Order>::empty());
    } else {
        let o = s[0];
        let d = s.drop_first();
        assert(o.order_type == OrderType::LongTerm && cur < o.end_block && spec_window_active(
            o,
            ws,
            cur,
        ));
        assert(spec_order_can_settle(o, blocks, recv0, recv1, a0, a1));
        let o2 = spec_settle_order(o, blocks, recv0, recv1, a0, a1, cur);
        assert(o2.remaining_amount != 0);
        let rest = spec_process_orders(d, ws, blocks, recv0, recv1, a0, a1, cur);
        let t = rest->Some_0;
        assert forall|i: int|
            0 <= i < d.len() implies #[trigger] d[i].order_type == OrderType::LongTerm && cur
            < d[i].end_block && spec_window_active(d[i], ws, cur) && spec_settle_order(
            d[i],
            blocks,
            recv0,
            recv1,
            a0,
            a1,
            cur,
        ).remaining_amount != 0 by {
            assert(d[i] == s[i + 1]);
        }
        lemma_catch_up_credits_payouts(d, ws, blocks, recv0, recv1, a0, a1, cur, t);
        assert(out == seq![o2] + t);
        assert(out[0] == o2);
        assert(out.drop_first() =~= t);
        assert(o2.accumulated_out == o.accumulated_out + spec_order_payout(
            o,
            recv0,
            recv1,
            a0,
            a1,
        ));
        assert(spec_accumulated_total(out) == o2.accumulated_out + spec_accumulated_total(t));
        assert(spec_accumulated_total(s) == o.accumulated_out + spec_accumulated_total(d));
        assert(spec_payout_total(s, recv0, recv1, a0, a1) == spec_order_payout(
            o,
            recv0,
            recv1,
            a0,
            a1,
        ) + spec_payout_total(d, recv0, recv1, a0, a1));
    }
}

/// Settlement conservation over one whole catch-up: when every order in
/// the pool sells token `d`, is active in the window and stays live and
/// undrained through it, and the window aggregate for `d` (`a0`/`a1`, the
/// divisor of every payout) is exactly the sum of their rates, then the
/// orders' accumulated proceeds grow, in total, by the received
/// opposite-token amount, short at most one unit per order.
pub proof fn lemma_catch_up_settlement_conservation(
    s: Seq<Order>,
    ws: u128,
    blocks: u128,
    recv0: u128,
    recv1: u128,
    a0: u128,
    a1: u128,
    cur: u128,
    out: Seq<Order>,
    d: OrderDirection,
)
    requires
        spec_process_orders(s, ws, blocks, recv0, recv1, a0, a1, cur) == Some(out),
        forall|i: int|
            0 <= i < s.len() ==> #[trigger] s[i].order_type == OrderType::LongTerm && cur < s[i].end_block
                && spec_window_active(s[i], ws, cur) && spec_settle_order(
                s[i],
                blocks,
                recv0,
                recv1,
                a0,
                a1,
                cur,
            ).remaining_amount != 0,
        forall|i: int| 0 <= i < s.len() ==> #[trigger] s[i].direction == d,
        d == OrderDirection::SellToken0 ==> a0 == spec_sum_rates(s, d) && a0 > 0,
        d == OrderDirection::SellToken1 ==> a1 == spec_sum_rates(s, d) && a1 > 0,
    ensures
        spec_accumulated_total(out) - spec_accumulated_total(s) <= (
        if d == OrderDirection::SellToken0 {
            recv1
        } else {
            recv0
        }),
        spec_accumulated_total(out) - spec_accumulated_total(s) >= (
        if d == OrderDirection::SellToken0 {
            recv1
        } else {
            recv0
        }) - s.len(),
{
    lemma_catch_up_credits_payouts(s, ws, blocks, recv0, recv1, a0, a1, cur, out);
    lemma_settlement_conservation(s, recv0, recv1, a0, a1, d);
}

/// The all-zero result of a stale or duplicate catch-up call.
pub open spec fn spec_zero_result(reserve_0: u128, reserve_1: u128) -> VirtualExecutionResult {
    VirtualExecutionResult {
        blocks_executed: 0,
        amount_0_sold: 0,
        amount_1_sold: 0,
        amount_0_received: 0,
        amount_1_received: 0,
        new_reserve_0: reserve_0,
        new_reserve_1: reserve_1,
        gas_used_estimate: 0,
    }
}

/// One whole catch-up over the window `(last, cur]`: the closed-form
/// engine runs once on the window-active aggregate rates, then every order
/// settles. The result is the surviving orders plus the execution record,
/// or the first failure.
pub open spec fn spec_execute_window(
    s: Seq<Order>,
    last: u128,
    cur: u128,
    reserve_0: u128,
    reserve_1: u128,
) -> Result<(Seq<Order>, VirtualExecutionResult), TwammError> {
    let blocks = (cur - last) as u128;
    let a0 = spec_active_rates(s, last, cur, OrderDirection::SellToken0) as u128;
    let a1 = spec_active_rates(s, last, cur, OrderDirection::SellToken1) as u128;
    match spec_closed_form(a0, a1, blocks, reserve_0, reserve_1) {
        Err(e) => Err(e),
        Ok(p) => if a0 * blocks > u128::MAX {
            Err(TwammError::MathOverflow)
        } else if a1 * blocks > u128::MAX {
            Err(TwammError::MathOverflow)
        } else if blocks * 21000 > u128::MAX {
            Err(TwammError::MathOverflow)
        } else {
            match spec_process_orders(s, last, blocks, p.2, p.3, a0, a1, cur) {
                None => Err(TwammError::MathOverflow),
                Some(out) => Ok(
                    (
                        out,
                        VirtualExecutionResult {
                            blocks_executed: blocks,
                            amount_0_sold: (a0 * blocks) as u128,
                            amount_1_sold: (a1 * blocks) as u128,
                            amount_0_received: p.2,
                            amount_1_received: p.3,
                            new_reserve_0: p.0,
                            new_reserve_1: p.1,
                            gas_used_estimate: (blocks * 21000) as u128,
                        },
                    ),
                ),
            }
        },
    }
}

/// The saturating gas estimate for one catch-up: a base cost, a per-block
/// surcharge and a per-order surcharge.
pub open spec fn spec_execution_gas(pool: OrderPool, current_block: u128) -> u128 {
    let blocks_since_last = if current_block >= pool.virtual_order_state.last_virtual_order_block {
        (current_block - pool.virtual_order_state.last_virtual_order_block) as u128
    } else {
        0
    };
    let blocks_gas: u128 = if blocks_since_last * 1000 > u128::MAX {
        0
    } else {
        (blocks_since_last * 1000) as u128
    };
    let orders_gas: u128 = if pool.orders@.len() * 5000 > u128::MAX {
        0
    } else {
        (pool.orders@.len() * 5000) as u128
    };
    let with_blocks: u128 = if 50000 + blocks_gas > u128::MAX {
        u128::MAX
    } else {
        (50000 + blocks_gas) as u128
    };
    if with_blocks + orders_gas > u128::MAX {
        u128::MAX
    } else {
        (with_blocks + orders_gas) as u128
    }
}

/// The statistics fold over the orders, in storage order: counts of
/// not-yet-expired and expired orders, and the saturating per-direction
/// executed volumes.
pub open spec fn spec_statistics_fold(s: Seq<Order>, cur: u128) -> (int, int, int, int)
    decreases s.len(),
{
    if s.len() == 0 {
        (0, 0, 0, 0)
    } else {
        let prev = spec_statistics_fold(s.drop_last(), cur);
        let o = s.last();
        let active = if cur >= o.end_block {
            prev.0
        } else {
            prev.0 + 1
        };
        let completed = if cur >= o.end_block {
            prev.1 + 1
        } else {
            prev.1
        };
        let elapsed = if cur >= o.start_block {
            (cur - o.start_block) as int
        } else {
            0
        };
        let produced = if o.sell_rate * elapsed > u128::MAX {
            0
        } else {
            o.sell_rate * elapsed
        };
        let executed = if produced > o.remaining_amount {
            o.remaining_amount as int
        } else {
            produced
        };
        let vol0 = if o.direction == OrderDirection::SellToken0 {
            if prev.2 + executed > u128::MAX {
                prev.2
            } else {
                prev.2 + executed
            }
        } else {
            prev.2
        };
        let vol1 = if o.direction == OrderDirection::SellToken1 {
            if prev.3 + executed > u128::MAX {
                prev.3
            } else {
                prev.3 + executed
            }
        } else {
            prev.3
        };
        (active, completed, vol0, vol1)
    }
}

pub proof fn lemma_statistics_fold_counts(s: Seq<Order>, cur: u128)
    ensures
        spec_statistics_fold(s, cur).0 >= 0,
        spec_statistics_fold(s, cur).1 >= 0,
        spec_statistics_fold(s, cur).0 + spec_statistics_fold(s, cur).1 == s.len(),
        spec_statistics_fold(s, cur).2 >= 0,
        spec_statistics_fold(s, cur).3 >= 0,
    decreases s.len(),
{
    if s.len() > 0 {
        lemma_statistics_fold_counts(s.drop_last(), cur);
    }
}

/// Whether the order parameters pass the advisory validation: nonzero
/// amount, a duration in [10, 1000000] blocks, and an amount of at most a
/// tenth of the current reserve whenever that reserve is known.
pub open spec fn spec_order_params_ok(
    sell_amount: u128,
    duration_blocks: u128,
    current_reserve: u128,
) -> bool {
    &&& sell_amount != 0
    &&& duration_blocks != 0
    &&& duration_blocks >= 10
    &&& duration_blocks <= 1000000
    &&& !(sell_amount > current_reserve / 10 && current_reserve > 0)
}

/// The advisory catch-up interval: about 6000 blocks per day divided by
/// the target executions per day (100 when the target is zero), clamped
/// to [10, 1000] blocks.
pub open spec fn spec_optimal_interval(execution_frequency_target: u128) -> u128 {
    let base: int = if execution_frequency_target == 0 {
        100
    } else {
        6000int / (execution_frequency_target as int)
    };
    let floored: int = if base < 10 {
        10
    } else {
        base
    };
    if floored > 1000 {
        1000
    } else {
        floored as u128
    }
}

/// The advisory time-weighted price impact, in basis points: the shortfall
/// of the dripped output below the no-slippage estimate, relative to that
/// estimate.
pub open spec fn spec_twap_impact(
    sell_amount: u128,
    duration_blocks: u128,
    reserve_in: u128,
    reserve_out: u128,
) -> Result<u128, TwammError> {
    if duration_blocks == 0 {
        Err(TwammError::InvalidInput)
    } else {
        match crate::twamm_math::spec_unidirectional_twamm(
            sell_amount,
            duration_blocks,
            reserve_in,
            reserve_out,
        ) {
            Err(e) => Err(e),
            Ok(out) => if reserve_in == 0 {
                Err(TwammError::DivisionByZero)
            } else if (sell_amount * reserve_out) / (reserve_in as int) > u128::MAX {
                Err(TwammError::MathOverflow)
            } else {
                let expected = (sell_amount * reserve_out) / (reserve_in as int);
                if expected <= out {
                    Ok(0u128)
                } else {
                    Ok((((expected - out) * 10000) / expected) as u128)
                }
            },
        }
    }
}

/// Stateless advisory helpers around the order pool.
pub struct OrderManager;

impl OrderManager {
    /// Recommends a catch-up interval from a target executions-per-day
    /// figure, clamped to [10, 1000] blocks.
    pub fn calculate_optimal_interval(
        avg_gas_price: u128,
        execution_frequency_target: u128,
    ) -> (r: u128)
        ensures
            r == spec_optimal_interval(execution_frequency_target),
            10 <= r <= 1000,
    {
        let _ = avg_gas_price;
        let blocks_per_day: u128 = 6000;
        let base = if execution_frequency_target == 0 {
            100
        } else {
            blocks_per_day / execution_frequency_target
        };
        let floored = if base < 10 {
            10
        } else {
            base
        };
        if floored > 1000 {
            1000
        } else {
            floored
        }
    }

    /// Validates order parameters against the duration window and the
    /// reserve-relative size cap; every rejection is `InvalidInput`.
    pub fn validate_order_params(
        sell_amount: u128,
        duration_blocks: u128,
        current_reserve: u128,
    ) -> (r: Result<(), TwammError>)
        ensures
            r == Ok::<(), TwammError>(()) <==> spec_order_params_ok(
                sell_amount,
                duration_blocks,
                current_reserve,
            ),
            r is Err ==> r == Err::<(), TwammError>(TwammError::InvalidInput),
    {
        if sell_amount == 0 {
            return Err(TwammError::InvalidInput);
        }
        if duration_blocks == 0 {
            return Err(TwammError::InvalidInput);
        }
        if duration_blocks < 10 {
            return Err(TwammError::InvalidInput);
        }
        if duration_blocks > 1000000 {
            return Err(TwammError::InvalidInput);
        }
        let max_reasonable_amount = current_reserve / 10;
        if sell_amount > max_reasonable_amount && current_reserve > 0 {
            return Err(TwammError::InvalidInput);
        }
        Ok(())
    }

    /// The time-weighted average price impact, in basis points, of
    /// dripping `sell_amount` over `duration_blocks` blocks.
    pub fn calculate_twap_impact(
        sell_amount: u128,
        duration_blocks: u128,
        reserve_in: u128,
        reserve_out: u128,
    ) -> (r: Result<u128, TwammError>)
        ensures
            r == spec_twap_impact(sell_amount, duration_blocks, reserve_in, reserve_out),
    {
        if duration_blocks == 0 {
            return Err(TwammError::InvalidInput);
        }
        let out = match TWAMMath::calculate_unidirectional_twamm(
            sell_amount,
            duration_blocks,
            reserve_in,
            reserve_out,
        ) {
            Ok(v) => v,
            Err(e) => {
                return Err(e);
            },
        };
        if reserve_in == 0 {
            return Err(TwammError::DivisionByZero);
        }
        let expected_out = match mul_div(sell_amount, reserve_out, reserve_in) {
            Ok(v) => v,
            Err(e) => {
                return Err(e);
            },
        };
        if expected_out <= out {
            return Ok(0);
        }
        let diff = expected_out - out;
        proof {
            vstd::arithmetic::div_mod::lemma_div_is_ordered(
                (diff as int) * 10000,
                (expected_out as int) * 10000,
                expected_out as int,
            );
            vstd::arithmetic::div_mod::lemma_div_multiples_vanish(10000, expected_out as int);
            assert((diff as int) * 10000 <= (expected_out as int) * 10000) by (nonlinear_arith)
                requires
                    diff <= expected_out,
            ;
        }
        match mul_div(diff, 10000, expected_out) {
            Ok(v) => Ok(v),
            Err(e) => Err(e),
        }
    }
}

} // verus!
