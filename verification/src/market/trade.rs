//! Pairing sell orders with buy orders of the same type.
//!
//! Buying from a sell order and selling into a buy order of the same type
//! earns, per unit, the buy price less the sales tax, less the sell price. A
//! pair is a candidate when that, times the quantity both orders can serve,
//! is above zero. Margins are in hundredths of the price unit (prices being
//! hundredths themselves), so the tax of eight percent is exact.
//!
//! Candidates do not reserve volume: an order may appear in several of them,
//! each with its full remaining volume.

use crate::market::order::Order;
use crate::route::ResourceItem;
use std::collections::HashMap;
use vstd::prelude::*;

verus! {

broadcast use vstd::std_specs::hash::group_hash_axioms;

/// The sales tax, in percent of the buy price.
pub const TAX_PERCENT: u64 = 8;

/// A sell order paired with a buy order of the same type.
#[derive(Debug)]
pub struct Trade<'a> {
    pub from: &'a Order,
    pub to: &'a Order,
    pub quantity: u64,
    pub unit_margin: u128,
}

/// A trade by value: the two orders, the quantity and the margin per unit.
pub struct Candidate {
    pub from: Order,
    pub to: Order,
    pub quantity: u64,
    pub unit_margin: u128,
}

impl<'a> View for Trade<'a> {
    type V = Candidate;

    open spec fn view(&self) -> Candidate {
        Candidate {
            from: *self.from,
            to: *self.to,
            quantity: self.quantity,
            unit_margin: self.unit_margin,
        }
    }
}

/// The quantity that both orders can serve.
pub open spec fn quantity_of(sell: Order, buy: Order) -> u64 {
    if sell.volume_remain <= buy.volume_remain {
        sell.volume_remain
    } else {
        buy.volume_remain
    }
}

/// A hundred times what one unit earns: the buy price after tax, less the
/// sell price.
pub open spec fn margin_of(sell: Order, buy: Order) -> int {
    buy.price * (100 - TAX_PERCENT) - sell.price * 100
}

/// The pair is of one type and earns something.
pub open spec fn is_profitable(sell: Order, buy: Order) -> bool {
    sell.type_id == buy.type_id && quantity_of(sell, buy) * margin_of(sell, buy) > 0
}

/// The candidate that a profitable pair gives.
pub open spec fn candidate(sell: Order, buy: Order) -> Candidate {
    Candidate {
        from: sell,
        to: buy,
        quantity: quantity_of(sell, buy),
        unit_margin: margin_of(sell, buy) as u128,
    }
}

/// A hundred times what the whole trade earns.
pub open spec fn gross_profit(trade: Candidate) -> int {
    trade.quantity * trade.unit_margin
}

/// The candidates of one sell order with the first `n` buy orders, in the
/// order of the buy orders.
pub open spec fn candidates_of(sell: Order, buys: Seq<Order>, n: int) -> Seq<Candidate>
    decreases n,
{
    if n <= 0 {
        Seq::empty()
    } else if is_profitable(sell, buys[n - 1]) {
        candidates_of(sell, buys, n - 1).push(candidate(sell, buys[n - 1]))
    } else {
        candidates_of(sell, buys, n - 1)
    }
}

/// The candidates of the first `m` sell orders with all buy orders: sell order
/// after sell order, each with the buy orders in their order.
pub open spec fn candidates_upto(sells: Seq<Order>, buys: Seq<Order>, m: int) -> Seq<Candidate>
    decreases m,
{
    if m <= 0 {
        Seq::empty()
    } else {
        candidates_upto(sells, buys, m - 1) + candidates_of(sells[m - 1], buys, buys.len() as int)
    }
}

/// Every candidate that the two lists give.
pub open spec fn all_candidates(sells: Seq<Order>, buys: Seq<Order>) -> Seq<Candidate> {
    candidates_upto(sells, buys, sells.len() as int)
}

/// The trades by value.
pub open spec fn views(trades: Seq<Trade>) -> Seq<Candidate> {
    Seq::new(trades.len(), |i: int| trades[i]@)
}

/// None of the buy orders from `from` up to `to` is of the given type.
spec fn none_of_type(buys: Seq<Order>, type_id: u64, from: int, to: int) -> bool {
    forall|j: int| from <= j < to ==> (#[trigger] buys[j]).type_id != type_id
}

/// For the buy orders from `n` on: `first` names, for each type among them,
/// the place of the first of that type, and `next` leads from each to the
/// next of its type, or to the end.
spec fn chained(buys: Seq<Order>, n: int, first: Map<u64, usize>, next: Seq<usize>) -> bool {
    &&& next.len() == buys.len()
    &&& forall|type_id: u64| #[trigger]
        first.contains_key(type_id) ==> n <= first[type_id] < buys.len()
            && buys[first[type_id] as int].type_id == type_id && none_of_type(
            buys,
            type_id,
            n,
            first[type_id] as int,
        )
    &&& forall|j: int| n <= j < buys.len() ==> first.contains_key((#[trigger] buys[j]).type_id)
    &&& forall|j: int|
        n <= j < buys.len() ==> j < (#[trigger] next[j]) <= buys.len() && (next[j] < buys.len()
            ==> buys[next[j] as int].type_id == buys[j].type_id) && none_of_type(
            buys,
            buys[j].type_id,
            j + 1,
            next[j] as int,
        )
}

/// Buy orders of another type give a sell order no candidates.
proof fn lemma_skip(sell: Order, buys: Seq<Order>, from: int, to: int)
    requires
        0 <= from <= to <= buys.len(),
        none_of_type(buys, sell.type_id, from, to),
    ensures
        candidates_of(sell, buys, to) == candidates_of(sell, buys, from),
    decreases to - from,
{
    if from < to {
        assert(buys[to - 1].type_id != sell.type_id);
        lemma_skip(sell, buys, from, to - 1);
    }
}

/// Files the buy orders by type: the place of the first of each type, and
/// from each buy order the place of the next of its type.
fn chain_by_type(buy_orders: &[Order]) -> (filed: (HashMap<u64, usize>, Vec<usize>))
    ensures
        chained(buy_orders@, 0, filed.0@, filed.1@),
{
    let len = buy_orders.len();
    let mut first: HashMap<u64, usize> = HashMap::new();
    let mut next: Vec<usize> = Vec::new();
    let mut k: usize = 0;
    while k < len
        invariant
            k <= len,
            next@.len() == k,
        decreases len - k,
    {
        next.push(len);
        k += 1;
    }
    let mut n: usize = len;
    while n > 0
        invariant
            n <= len,
            len == buy_orders@.len(),
            chained(buy_orders@, n as int, first@, next@),
        decreases n,
    {
        let ghost before_first = first@;
        let ghost before_next = next@;
        let j: usize = n - 1;
        let type_id: u64 = buy_orders[j].type_id;
        let follower: usize = match first.get(&type_id) {
            Some(place) => *place,
            None => len,
        };
        next.set(j, follower);
        first.insert(type_id, j);
        proof {
            let buys = buy_orders@;
            assert forall|t: u64| #[trigger] first@.contains_key(t) implies j <= first@[t] < buys.len()
                && buys[first@[t] as int].type_id == t && none_of_type(
                buys,
                t,
                j as int,
                first@[t] as int,
            ) by {
                if t != type_id {
                    assert(before_first.contains_key(t));
                }
            }
            assert forall|i: int| j <= i < buys.len() implies first@.contains_key(
                (#[trigger] buys[i]).type_id,
            ) by {
                if i > j {
                    assert(before_first.contains_key(buys[i].type_id));
                }
            }
            assert forall|i: int| j <= i < buys.len() implies i < (#[trigger] next@[i]) <= buys.len()
                && (next@[i] < buys.len() ==> buys[next@[i] as int].type_id == buys[i].type_id)
                && none_of_type(buys, buys[i].type_id, i + 1, next@[i] as int) by {
                if i > j {
                    assert(next@[i] == before_next[i]);
                } else if !before_first.contains_key(type_id) {
                    assert forall|m: int| j + 1 <= m < buys.len() implies (#[trigger] buys[m]).type_id
                        != type_id by {
                        assert(before_first.contains_key(buys[m].type_id));
                    }
                }
            }
        }
        n = j;
    }
    (first, next)
}

impl<'a> Trade<'a> {
    /// A trade of the given quantity and margin between two orders.
    pub fn new(from: &'a Order, to: &'a Order, quantity: u64, unit_margin: u128) -> (trade: Self)
        ensures
            trade@ == (Candidate { from: *from, to: *to, quantity, unit_margin }),
    {
        Trade { from, to, quantity, unit_margin }
    }

    /// The trade that the pair offers, if it is of one type and earns
    /// something.
    pub fn between(sell: &'a Order, buy: &'a Order) -> (found: Option<Self>)
        ensures
            found is Some <==> is_profitable(*sell, *buy),
            found is Some ==> found->Some_0@ == candidate(*sell, *buy),
    {
        let quantity: u64 = if sell.volume_remain <= buy.volume_remain {
            sell.volume_remain
        } else {
            buy.volume_remain
        };
        let share: u128 = (100 - TAX_PERCENT) as u128;
        assert(buy.price * share <= u128::MAX) by (nonlinear_arith)
            requires
                buy.price <= u64::MAX,
                share == 92,
        ;
        let kept: u128 = (buy.price as u128) * share;
        let paid: u128 = (sell.price as u128) * 100;
        assert(quantity * margin_of(*sell, *buy) > 0 <==> (quantity > 0 && kept > paid))
            by (nonlinear_arith)
            requires
                quantity >= 0,
                margin_of(*sell, *buy) == kept - paid,
        ;
        if sell.type_id != buy.type_id || quantity == 0 || kept <= paid {
            None
        } else {
            Some(Trade::new(sell, buy, quantity, kept - paid))
        }
    }

    /// A hundred times what the whole trade earns, where a `u128` holds it.
    pub fn gross_profit(&self) -> (gross: Option<u128>)
        ensures
            gross is Some <==> gross_profit(self@) <= u128::MAX,
            gross is Some ==> gross->Some_0 == gross_profit(self@),
    {
        (self.quantity as u128).checked_mul(self.unit_margin)
    }

    /// Every profitable pair of a sell order and a buy order of the same
    /// type: sell order after sell order, each with the buy orders of its
    /// type in their order. Only pairs of one type are looked at.
    pub fn create_trades(sell_orders: &'a [Order], buy_orders: &'a [Order]) -> (trades: Vec<
        Trade<'a>,
    >)
        ensures
            views(trades@) == all_candidates(sell_orders@, buy_orders@),
    {
        let (first, next) = chain_by_type(buy_orders);
        let len = buy_orders.len();
        let mut trades: Vec<Trade<'a>> = Vec::new();
        let mut m: usize = 0;
        assert(views(trades@) =~= candidates_upto(sell_orders@, buy_orders@, 0));
        while m < sell_orders.len()
            invariant
                m <= sell_orders@.len(),
                len == buy_orders@.len(),
                chained(buy_orders@, 0, first@, next@),
                views(trades@) == candidates_upto(sell_orders@, buy_orders@, m as int),
            decreases sell_orders@.len() - m,
        {
            let sell = &sell_orders[m];
            let ghost done = views(trades@);
            let mut n: usize = match first.get(&sell.type_id) {
                Some(place) => *place,
                None => len,
            };
            proof {
                if !first@.contains_key(sell.type_id) {
                    assert forall|j: int| 0 <= j < len implies (#[trigger] buy_orders@[j]).type_id
                        != sell.type_id by {
                        assert(first@.contains_key(buy_orders@[j].type_id));
                    }
                }
                lemma_skip(*sell, buy_orders@, 0, n as int);
                assert(views(trades@) =~= done + candidates_of(*sell, buy_orders@, n as int));
            }
            while n < len
                invariant
                    n <= len,
                    len == buy_orders@.len(),
                    chained(buy_orders@, 0, first@, next@),
                    views(trades@) == done + candidates_of(*sell, buy_orders@, n as int),
                    n < len ==> buy_orders@[n as int].type_id == sell.type_id,
                decreases len - n,
            {
                let ghost seen = views(trades@);
                match Trade::between(sell, &buy_orders[n]) {
                    Some(trade) => {
                        trades.push(trade);
                        assert(views(trades@) =~= seen.push(trade@));
                        assert(seen.push(trade@) =~= done + candidates_of(
                            *sell,
                            buy_orders@,
                            n + 1,
                        ));
                    },
                    None => {},
                }
                let follower = next[n];
                proof {
                    lemma_skip(*sell, buy_orders@, n + 1, follower as int);
                }
                n = follower;
            }
            m += 1;
        }
        trades
    }
}

/// What a trade is to the planner: a unit earns the margin, rounded down to
/// whole hundredths, costs the sell price and takes `cargo_per_unit` of the
/// hold, and there are as many units as the trade has.
pub open spec fn item_of(trade: Candidate, cargo_per_unit: u64) -> Option<ResourceItem> {
    if trade.unit_margin / 100 <= u64::MAX {
        Some(
            ResourceItem {
                profit: (trade.unit_margin / 100) as u64,
                cost: trade.from.price,
                cargo: cargo_per_unit,
                quantity: trade.quantity,
            },
        )
    } else {
        None
    }
}

/// The planner's item for a trade, where the margin is within its range.
pub fn resource_item(trade: &Trade, cargo_per_unit: u64) -> (item: Option<ResourceItem>)
    ensures
        item == item_of(trade@, cargo_per_unit),
{
    let profit: u128 = trade.unit_margin / 100;
    if profit <= u64::MAX as u128 {
        Some(
            ResourceItem {
                profit: profit as u64,
                cost: trade.from.price,
                cargo: cargo_per_unit,
                quantity: trade.quantity,
            },
        )
    } else {
        None
    }
}

/// Parts a listing into its sell orders and its buy orders, each in the order
/// of the listing.
pub fn split_orders(orders: &[Order]) -> (parts: (Vec<Order>, Vec<Order>))
    ensures
        parts.0@ == orders@.filter(|order: Order| !order.is_buy_order),
        parts.1@ == orders@.filter(|order: Order| order.is_buy_order),
{
    let mut sells: Vec<Order> = Vec::new();
    let mut buys: Vec<Order> = Vec::new();
    let ghost is_sell = |order: Order| !order.is_buy_order;
    let ghost is_buy = |order: Order| order.is_buy_order;
    let mut k: usize = 0;
    assert(orders@.take(0) =~= Seq::<Order>::empty());
    while k < orders.len()
        invariant
            k <= orders@.len(),
            is_sell == (|order: Order| !order.is_buy_order),
            is_buy == (|order: Order| order.is_buy_order),
            sells@ == orders@.take(k as int).filter(is_sell),
            buys@ == orders@.take(k as int).filter(is_buy),
        decreases orders@.len() - k,
    {
        proof {
            assert(orders@.take(k + 1) =~= orders@.take(k as int).push(orders@[k as int]));
            assert(orders@.take(k + 1).drop_last() =~= orders@.take(k as int));
            reveal(Seq::filter);
        }
        if orders[k].is_buy_order {
            buys.push(orders[k].clone());
        } else {
            sells.push(orders[k].clone());
        }
        k += 1;
    }
    assert(orders@.take(k as int) =~= orders@);
    (sells, buys)
}

/// One sell order and one buy order of the same type give no candidate where
/// the buy price after tax is not above the sell price, and where it is and
/// both orders have volume left, exactly one: of the smaller of the two
/// volumes, earning that quantity times the margin.
pub proof fn lemma_single_pair(sell: Order, buy: Order)
    requires
        sell.type_id == buy.type_id,
    ensures
        buy.price * 92 <= sell.price * 100 ==> all_candidates(seq![sell], seq![buy]).len() == 0,
        buy.price * 92 > sell.price * 100 && sell.volume_remain > 0 && buy.volume_remain > 0 ==> {
            let found = all_candidates(seq![sell], seq![buy]);
            &&& found.len() == 1
            &&& found[0].from == sell
            &&& found[0].to == buy
            &&& found[0].quantity == quantity_of(sell, buy)
            &&& found[0].quantity == sell.volume_remain || found[0].quantity == buy.volume_remain
            &&& found[0].quantity <= sell.volume_remain
            &&& found[0].quantity <= buy.volume_remain
            &&& gross_profit(found[0]) == found[0].quantity * (buy.price * 92 - sell.price * 100)
            &&& gross_profit(found[0]) > 0
        },
{
    let sells = seq![sell];
    let buys = seq![buy];
    let quantity = quantity_of(sell, buy);
    let margin = margin_of(sell, buy);
    reveal_with_fuel(candidates_of, 3);
    reveal_with_fuel(candidates_upto, 3);
    assert(candidates_upto(sells, buys, 0) =~= Seq::<Candidate>::empty());
    assert(all_candidates(sells, buys) =~= candidates_of(sell, buys, 1));
    assert(quantity * margin > 0 <==> (quantity > 0 && margin > 0)) by (nonlinear_arith)
        requires
            quantity >= 0,
    ;
    if margin > 0 {
        assert(margin as u128 == margin);
    }
}

} // verus!
