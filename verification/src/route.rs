//! Choosing what to load: a plan of highest profit under a budget and a hold
//! limit, found by a table of reachable (spent, loaded) states.
//!
//! All amounts are whole steps of the planning grid (hundredths of a unit).
//! An item that is taken is always taken at the largest quantity that still
//! fits; intermediate quantities are not explored.

use std::collections::HashMap;
use vstd::prelude::*;

verus! {

broadcast use vstd::std_specs::hash::group_hash_axioms;

/// One kind of good on offer: what a unit earns, what it costs, the hold space
/// it takes, and how many units can be had.
#[derive(Clone, Copy, Debug, PartialEq, Eq)]
pub struct ResourceItem {
    pub profit: u64,
    pub cost: u64,
    pub cargo: u64,
    pub quantity: u64,
}

/// A cell of the planning grid: money spent and hold space used so far.
#[derive(Clone, Copy, Debug, PartialEq, Eq, Hash)]
pub struct DiscreteState {
    pub cost: u64,
    pub cargo: u64,
}

/// The outcome of planning: the profit and, in item order, which item is
/// taken in what quantity.
#[derive(Clone, Debug, PartialEq, Eq)]
pub struct SelectionPlan {
    pub profit: u64,
    pub picks: Vec<(usize, u64)>,
}

/// Why planning was refused.
#[derive(Clone, Copy, Debug, PartialEq, Eq)]
pub enum OptimizerError {
    /// The items, each in the largest quantity that the limits allow, would
    /// earn more than a `u64` can hold.
    ProfitOutOfRange,
}

/// The best way found so far to reach one cell of the grid. The entries are
/// kept in the order in which their cells were first reached, and a hash map
/// from cell to place finds the entry of a cell.
struct Recorded {
    state: DiscreteState,
    profit: u64,
    picks: Vec<(usize, u64)>,
}

/// How many units of a resource fit into what is left of it, at most `cap`.
/// A unit that takes nothing of the resource is not limited by it.
pub open spec fn units_within(left: int, per_unit: int, cap: int) -> int {
    if per_unit <= 0 {
        cap
    } else if left / per_unit < cap {
        left / per_unit
    } else {
        cap
    }
}

/// The largest quantity of `item` that the remaining budget and hold allow.
pub open spec fn max_quantity(item: ResourceItem, cost_left: int, cargo_left: int) -> int {
    units_within(
        cargo_left,
        item.cargo as int,
        units_within(cost_left, item.cost as int, item.quantity as int),
    )
}

/// Money spent by a list of picks.
pub open spec fn picks_cost(items: Seq<ResourceItem>, picks: Seq<(usize, u64)>) -> int
    decreases picks.len(),
{
    if picks.len() == 0 {
        0
    } else {
        picks_cost(items, picks.drop_last()) + items[picks.last().0 as int].cost * picks.last().1
    }
}

/// Hold space used by a list of picks.
pub open spec fn picks_cargo(items: Seq<ResourceItem>, picks: Seq<(usize, u64)>) -> int
    decreases picks.len(),
{
    if picks.len() == 0 {
        0
    } else {
        picks_cargo(items, picks.drop_last()) + items[picks.last().0 as int].cargo
            * picks.last().1
    }
}

/// Profit earned by a list of picks.
pub open spec fn picks_profit(items: Seq<ResourceItem>, picks: Seq<(usize, u64)>) -> int
    decreases picks.len(),
{
    if picks.len() == 0 {
        0
    } else {
        picks_profit(items, picks.drop_last()) + items[picks.last().0 as int].profit
            * picks.last().1
    }
}

/// `picks` is a plan over the items before `bound`: item indices rise, and each
/// picked item is taken in the largest quantity, above zero, that fits after
/// the picks before it.
pub open spec fn greedy_upto(
    items: Seq<ResourceItem>,
    max_cost: int,
    max_cargo: int,
    picks: Seq<(usize, u64)>,
    bound: int,
) -> bool
    decreases picks.len(),
{
    if picks.len() == 0 {
        true
    } else {
        let before = picks.drop_last();
        let index = picks.last().0 as int;
        let quantity = picks.last().1 as int;
        &&& index < bound
        &&& index < items.len()
        &&& quantity > 0
        &&& quantity == max_quantity(
            items[index],
            max_cost - picks_cost(items, before),
            max_cargo - picks_cargo(items, before),
        )
        &&& greedy_upto(items, max_cost, max_cargo, before, index)
    }
}

/// `picks` is a plan that the optimizer considers for these items and limits.
pub open spec fn is_plan(
    items: Seq<ResourceItem>,
    max_cost: int,
    max_cargo: int,
    picks: Seq<(usize, u64)>,
) -> bool {
    greedy_upto(items, max_cost, max_cargo, picks, items.len() as int)
}

/// What the first `n` items earn at most: each taken in the largest quantity
/// that the limits allow when nothing else is taken.
pub open spec fn profit_bound(
    items: Seq<ResourceItem>,
    max_cost: int,
    max_cargo: int,
    n: int,
) -> int
    decreases n,
{
    if n <= 0 {
        0
    } else {
        profit_bound(items, max_cost, max_cargo, n - 1) + items[n - 1].profit * max_quantity(
            items[n - 1],
            max_cost,
            max_cargo,
        )
    }
}

/// `profit` is the most that any considered plan earns.
pub open spec fn is_best_profit(
    items: Seq<ResourceItem>,
    max_cost: int,
    max_cargo: int,
    profit: int,
) -> bool {
    &&& exists|picks: Seq<(usize, u64)>|
        #[trigger] is_plan(items, max_cost, max_cargo, picks) && picks_profit(items, picks)
            == profit
    &&& forall|picks: Seq<(usize, u64)>|
        #[trigger] is_plan(items, max_cost, max_cargo, picks) ==> picks_profit(items, picks)
            <= profit
}

proof fn lemma_units_within(left: int, per_unit: int, cap: int)
    requires
        0 <= left,
        0 <= per_unit,
        0 <= cap,
    ensures
        0 <= units_within(left, per_unit, cap) <= cap,
        units_within(left, per_unit, cap) * per_unit <= left,
{
    if per_unit > 0 {
        assert(0 <= left / per_unit && (left / per_unit) * per_unit <= left) by (nonlinear_arith)
            requires
                0 <= left,
                0 < per_unit,
        ;
        let u = units_within(left, per_unit, cap);
        assert(u * per_unit <= (left / per_unit) * per_unit) by (nonlinear_arith)
            requires
                0 <= u <= left / per_unit,
                0 < per_unit,
        ;
    }
}

/// The largest quantity of `item` that fits into what is left of the budget
/// and of the hold.
pub fn feasible_quantity(item: &ResourceItem, cost_left: u64, cargo_left: u64) -> (quantity: u64)
    ensures
        quantity == max_quantity(*item, cost_left as int, cargo_left as int),
        quantity <= item.quantity,
        quantity * item.cost <= cost_left,
        quantity * item.cargo <= cargo_left,
{
    let mut quantity: u64 = item.quantity;
    if item.cost > 0 {
        let by_cost: u64 = cost_left / item.cost;
        if by_cost < quantity {
            quantity = by_cost;
        }
    }
    let after_cost: u64 = quantity;
    if item.cargo > 0 {
        let by_cargo: u64 = cargo_left / item.cargo;
        if by_cargo < quantity {
            quantity = by_cargo;
        }
    }
    proof {
        lemma_units_within(cost_left as int, item.cost as int, item.quantity as int);
        lemma_units_within(cargo_left as int, item.cargo as int, after_cost as int);
        assert(quantity * item.cost <= after_cost * item.cost) by (nonlinear_arith)
            requires
                0 <= quantity <= after_cost,
                0 <= item.cost,
        ;
    }
    quantity
}


/// An entry of the planning table: a cell of the grid, the best profit found
/// for it, and the picks that earn it.
pub struct Reached {
    pub cost: int,
    pub cargo: int,
    pub profit: int,
    pub picks: Seq<(usize, u64)>,
}

/// Some entry of the table sits at the given cell.
pub open spec fn holds_state(table: Seq<Reached>, cost: int, cargo: int) -> bool {
    exists|k: int| 0 <= k < table.len() && (#[trigger] table[k]).cost == cost && table[k].cargo == cargo
}

/// Where the table's entry for the given cell is.
pub open spec fn place_of(table: Seq<Reached>, cost: int, cargo: int) -> int {
    choose|k: int| 0 <= k < table.len() && (#[trigger] table[k]).cost == cost && table[k].cargo == cargo
}

/// The table after a candidate was recorded: it replaces the entry at its
/// cell if it earns strictly more, is dropped if it does not, and is put at
/// the end if its cell is new.
pub open spec fn recorded(table: Seq<Reached>, cand: Reached) -> Seq<Reached> {
    if holds_state(table, cand.cost, cand.cargo) {
        let k = place_of(table, cand.cost, cand.cargo);
        if table[k].profit < cand.profit {
            table.update(k, cand)
        } else {
            table
        }
    } else {
        table.push(cand)
    }
}

/// The entry reached from `from` by taking `quantity` units of item `index`.
pub open spec fn successor(from: Reached, item: ResourceItem, index: int, quantity: int) -> Reached {
    Reached {
        cost: from.cost + quantity * item.cost,
        cargo: from.cargo + quantity * item.cargo,
        profit: from.profit + quantity * item.profit,
        picks: from.picks.push((index as usize, quantity as u64)),
    }
}

/// The table after item `n` was tried from the first `j` entries of `table`,
/// one after the other: every entry of `table` stays, and from each of them
/// the item is added in the largest quantity that fits, if any does.
pub open spec fn advanced(
    items: Seq<ResourceItem>,
    max_cost: int,
    max_cargo: int,
    table: Seq<Reached>,
    n: int,
    j: int,
) -> Seq<Reached>
    decreases j,
{
    if j <= 0 {
        table
    } else {
        let so_far = advanced(items, max_cost, max_cargo, table, n, j - 1);
        let from = table[j - 1];
        let quantity = max_quantity(items[n], max_cost - from.cost, max_cargo - from.cargo);
        if quantity > 0 {
            recorded(so_far, successor(from, items[n], n, quantity))
        } else {
            so_far
        }
    }
}

/// The table after the first `n` items were gone through, starting from the
/// single entry that spends, loads and earns nothing.
pub open spec fn table_after(items: Seq<ResourceItem>, max_cost: int, max_cargo: int, n: int) -> Seq<
    Reached,
>
    decreases n,
{
    if n <= 0 {
        seq![Reached { cost: 0, cargo: 0, profit: 0, picks: Seq::empty() }]
    } else {
        let table = table_after(items, max_cost, max_cargo, n - 1);
        advanced(items, max_cost, max_cargo, table, n - 1, table.len() as int)
    }
}

/// Where, among the first `k` entries, the first entry of highest profit is.
pub open spec fn best_of(table: Seq<Reached>, k: int) -> int
    decreases k,
{
    if k <= 1 {
        0
    } else {
        let best = best_of(table, k - 1);
        if table[best].profit < table[k - 1].profit {
            k - 1
        } else {
            best
        }
    }
}

/// The plan that the optimizer settles on: the first entry of highest profit
/// in the table after all items.
pub open spec fn planned(items: Seq<ResourceItem>, max_cost: int, max_cargo: int) -> Reached {
    let table = table_after(items, max_cost, max_cargo, items.len() as int);
    table[best_of(table, table.len() as int)]
}

/// A stored entry as the model shows it.
spec fn reached_of(entry: Recorded) -> Reached {
    Reached {
        cost: entry.state.cost as int,
        cargo: entry.state.cargo as int,
        profit: entry.profit as int,
        picks: entry.picks@,
    }
}

/// A stored table as the model shows it.
spec fn reached_all(table: Seq<Recorded>) -> Seq<Reached> {
    Seq::new(table.len(), |k: int| reached_of(table[k]))
}

/// `entry` stands for a plan over the first `n` items, and its state and
/// profit are those of its picks.
spec fn entry_ok(
    items: Seq<ResourceItem>,
    max_cost: int,
    max_cargo: int,
    entry: Recorded,
    n: int,
) -> bool {
    &&& greedy_upto(items, max_cost, max_cargo, entry.picks@, n)
    &&& entry.state.cost == picks_cost(items, entry.picks@)
    &&& entry.state.cargo == picks_cargo(items, entry.picks@)
    &&& entry.profit == picks_profit(items, entry.picks@)
    &&& entry.state.cost <= max_cost
    &&& entry.state.cargo <= max_cargo
    &&& entry.profit <= profit_bound(items, max_cost, max_cargo, n)
}

/// `entry` sits at the given cell and earns at least `profit`.
spec fn reaches(entry: Recorded, cost: int, cargo: int, profit: int) -> bool {
    entry.state.cost == cost && entry.state.cargo == cargo && entry.profit >= profit
}

/// Some entry of the table sits at the given cell and earns at least `profit`.
spec fn covers(table: Seq<Recorded>, cost: int, cargo: int, profit: int) -> bool {
    exists|k: int| 0 <= k < table.len() && #[trigger] reaches(table[k], cost, cargo, profit)
}

/// No two entries of the table sit at the same cell.
spec fn distinct_states(table: Seq<Recorded>) -> bool {
    forall|a: int, b: int|
        0 <= a < b < table.len() ==> (#[trigger] table[a]).state != (#[trigger] table[b]).state
}

/// The table holds, for every plan over the first `n` items, an entry at the
/// plan's cell that earns no less, and nothing but such plans.
spec fn table_ok(
    items: Seq<ResourceItem>,
    max_cost: int,
    max_cargo: int,
    table: Seq<Recorded>,
    n: int,
) -> bool {
    &&& forall|k: int|
        0 <= k < table.len() ==> entry_ok(items, max_cost, max_cargo, #[trigger] table[k], n)
    &&& distinct_states(table)
    &&& forall|picks: Seq<(usize, u64)>| #[trigger]
        greedy_upto(items, max_cost, max_cargo, picks, n) ==> covers(
            table,
            picks_cost(items, picks),
            picks_cargo(items, picks),
            picks_profit(items, picks),
        )
}

/// How the table changes when one candidate is recorded: an entry at the
/// candidate's cell is replaced if the candidate earns strictly more, every
/// other entry stays, and a candidate at a new cell is added at the end.
spec fn recorded_into(before: Seq<Recorded>, after: Seq<Recorded>, cand: Recorded) -> bool {
    &&& forall|k: int|
        0 <= k < before.len() ==> (#[trigger] after[k]) == before[k] || (after[k] == cand
            && before[k].state == cand.state && before[k].profit < cand.profit)
    &&& after.len() == before.len() || (after.len() == before.len() + 1 && after.last() == cand
        && forall|k: int| 0 <= k < before.len() ==> (#[trigger] before[k]).state != cand.state)
    &&& after.len() >= before.len()
    &&& covers(after, cand.state.cost as int, cand.state.cargo as int, cand.profit as int)
}

proof fn lemma_recorded_keeps_cover(
    before: Seq<Recorded>,
    after: Seq<Recorded>,
    cand: Recorded,
    cost: int,
    cargo: int,
    profit: int,
)
    requires
        recorded_into(before, after, cand),
        covers(before, cost, cargo, profit),
    ensures
        covers(after, cost, cargo, profit),
{
    let k = choose|k: int| 0 <= k < before.len() && #[trigger] reaches(before[k], cost, cargo, profit);
    assert(after[k] == before[k] || (after[k] == cand && before[k].state == cand.state
        && before[k].profit < cand.profit));
    assert(reaches(after[k], cost, cargo, profit));
}

proof fn lemma_recorded_keeps_distinct(before: Seq<Recorded>, after: Seq<Recorded>, cand: Recorded)
    requires
        recorded_into(before, after, cand),
        distinct_states(before),
    ensures
        distinct_states(after),
{
    assert forall|a: int, b: int| 0 <= a < b < after.len() implies (#[trigger] after[a]).state != (
    #[trigger] after[b]).state by {
        if b < before.len() {
            assert(before[a].state != before[b].state);
            assert(after[a].state == before[a].state);
            assert(after[b].state == before[b].state);
        } else {
            assert(after[b] == cand);
            assert(before[a].state != cand.state);
            assert(after[a].state == before[a].state);
        }
    }
}

proof fn lemma_max_quantity_grows(
    item: ResourceItem,
    cost_left: int,
    cargo_left: int,
    max_cost: int,
    max_cargo: int,
)
    requires
        0 <= cost_left <= max_cost,
        0 <= cargo_left <= max_cargo,
    ensures
        0 <= max_quantity(item, cost_left, cargo_left) <= max_quantity(item, max_cost, max_cargo),
{
    if item.cost > 0 {
        vstd::arithmetic::div_mod::lemma_div_is_ordered(cost_left, max_cost, item.cost as int);
    }
    if item.cargo > 0 {
        vstd::arithmetic::div_mod::lemma_div_is_ordered(cargo_left, max_cargo, item.cargo as int);
    }
    lemma_units_within(cost_left, item.cost as int, item.quantity as int);
    lemma_units_within(
        cargo_left,
        item.cargo as int,
        units_within(cost_left, item.cost as int, item.quantity as int),
    );
}

proof fn lemma_profit_bound_grows(
    items: Seq<ResourceItem>,
    max_cost: int,
    max_cargo: int,
    n: int,
    m: int,
)
    requires
        0 <= n <= m,
        0 <= max_cost,
        0 <= max_cargo,
    ensures
        0 <= profit_bound(items, max_cost, max_cargo, n) <= profit_bound(
            items,
            max_cost,
            max_cargo,
            m,
        ),
    decreases m,
{
    if n < m {
        lemma_profit_bound_grows(items, max_cost, max_cargo, n, m - 1);
        lemma_max_quantity_grows(items[m - 1], max_cost, max_cargo, max_cost, max_cargo);
        let taken = max_quantity(items[m - 1], max_cost, max_cargo);
        assert(0 <= items[m - 1].profit * taken) by (nonlinear_arith)
            requires
                0 <= taken,
                0 <= items[m - 1].profit,
        ;
    } else if 0 < n {
        lemma_profit_bound_grows(items, max_cost, max_cargo, n - 1, n - 1);
        lemma_max_quantity_grows(items[n - 1], max_cost, max_cargo, max_cost, max_cargo);
        let taken = max_quantity(items[n - 1], max_cost, max_cargo);
        assert(0 <= items[n - 1].profit * taken) by (nonlinear_arith)
            requires
                0 <= taken,
                0 <= items[n - 1].profit,
        ;
    }
}

fn copy_picks(picks: &Vec<(usize, u64)>) -> (copy: Vec<(usize, u64)>)
    ensures
        copy@ == picks@,
{
    let mut copy: Vec<(usize, u64)> = Vec::new();
    let mut i: usize = 0;
    while i < picks.len()
        invariant
            i <= picks.len(),
            copy@ == picks@.take(i as int),
        decreases picks.len() - i,
    {
        copy.push(picks[i]);
        assert(picks@.take(i + 1) =~= picks@.take(i as int).push(picks@[i as int]));
        i += 1;
    }
    assert(picks@.take(picks.len() as int) =~= picks@);
    copy
}

/// The same entries, field for field.
spec fn same_entries(a: Seq<Recorded>, b: Seq<Recorded>) -> bool {
    &&& a.len() == b.len()
    &&& forall|k: int|
        0 <= k < a.len() ==> (#[trigger] a[k]).state == b[k].state && a[k].profit == b[k].profit
            && a[k].picks@ == b[k].picks@
}

fn copy_table(table: &Vec<Recorded>) -> (copy: Vec<Recorded>)
    ensures
        same_entries(copy@, table@),
        reached_all(copy@) == reached_all(table@),
{
    let mut copy: Vec<Recorded> = Vec::new();
    let mut i: usize = 0;
    while i < table.len()
        invariant
            i <= table.len(),
            copy@.len() == i,
            forall|k: int|
                0 <= k < i ==> (#[trigger] copy@[k]).state == table@[k].state && copy@[k].profit
                    == table@[k].profit && copy@[k].picks@ == table@[k].picks@,
        decreases table.len() - i,
    {
        let entry = &table[i];
        copy.push(
            Recorded { state: entry.state, profit: entry.profit, picks: copy_picks(&entry.picks) },
        );
        i += 1;
    }
    assert(reached_all(copy@) =~= reached_all(table@));
    copy
}

/// The number under which a cell is filed: no two cells share one.
spec fn cell_key(state: DiscreteState) -> u128 {
    (state.cost * 0x1_0000_0000_0000_0000 + state.cargo) as u128
}

/// The number under which entry `k` of the table is filed.
spec fn key_at(table: Seq<Recorded>, k: int) -> u128 {
    cell_key(table[k].state)
}

/// The index files every entry of the table under its cell's number, and
/// nothing else.
spec fn index_ok(table: Seq<Recorded>, index: Map<u128, usize>) -> bool {
    &&& forall|k: int|
        0 <= k < table.len() ==> index.contains_key(#[trigger] key_at(table, k)) && index[key_at(
            table,
            k,
        )] == k
    &&& forall|key: u128| #[trigger]
        index.contains_key(key) ==> index[key] < table.len() && key_at(table, index[key] as int)
            == key
}

proof fn lemma_cell_key(a: DiscreteState, b: DiscreteState)
    ensures
        cell_key(a) == cell_key(b) <==> a == b,
{
}

fn key_of(state: &DiscreteState) -> (key: u128)
    ensures
        key == cell_key(*state),
{
    (state.cost as u128) * 0x1_0000_0000_0000_0000u128 + (state.cargo as u128)
}

/// Records a candidate: it replaces the entry at its cell if it earns strictly
/// more, is dropped if it does not, and is added if its cell is new.
fn record(table: &mut Vec<Recorded>, index: &mut HashMap<u128, usize>, cand: Recorded)
    requires
        distinct_states(old(table)@),
        index_ok(old(table)@, old(index)@),
    ensures
        recorded_into(old(table)@, final(table)@, cand),
        reached_all(final(table)@) == recorded(reached_all(old(table)@), reached_of(cand)),
        index_ok(final(table)@, final(index)@),
{
    let ghost before = reached_all(table@);
    let ghost entry = reached_of(cand);
    let key = key_of(&cand.state);
    let found: Option<usize> = match index.get(&key) {
        Some(place) => Some(*place),
        None => None,
    };
    match found {
        Some(k) => {
            proof {
                assert(cell_key(table@[k as int].state) == key);
                lemma_cell_key(table@[k as int].state, cand.state);
                assert(before[k as int].cost == entry.cost && before[k as int].cargo == entry.cargo);
                let place = place_of(before, entry.cost, entry.cargo);
                if place < k {
                    assert(table@[place].state != table@[k as int].state);
                } else if k < place {
                    assert(table@[k as int].state != table@[place].state);
                }
            }
            if table[k].profit < cand.profit {
                table.set(k, cand);
                assert(reached_all(table@) =~= before.update(k as int, entry));
                assert forall|i: int| 0 <= i < table@.len() implies #[trigger] key_at(table@, i)
                    == key_at(old(table)@, i) by {}
            }
            assert(reaches(
                table@[k as int],
                cand.state.cost as int,
                cand.state.cargo as int,
                cand.profit as int,
            ));
        },
        None => {
            proof {
                assert forall|i: int| 0 <= i < table@.len() implies (#[trigger] table@[i]).state
                    != cand.state by {
                    assert(index@.contains_key(key_at(table@, i)));
                }
                if holds_state(before, entry.cost, entry.cargo) {
                    let place = place_of(before, entry.cost, entry.cargo);
                    assert(table@[place].state != cand.state);
                }
            }
            index.insert(key, table.len());
            table.push(cand);
            proof {
                assert(reached_all(table@) =~= before.push(entry));
                assert(reaches(
                    table@[table@.len() - 1],
                    cand.state.cost as int,
                    cand.state.cargo as int,
                    cand.profit as int,
                ));
                assert forall|i: int| 0 <= i < table@.len() implies index@.contains_key(
                    #[trigger] key_at(table@, i),
                ) && index@[key_at(table@, i)] == i by {
                    if i < old(table)@.len() {
                        assert(key_at(table@, i) == key_at(old(table)@, i));
                        lemma_cell_key(table@[i].state, cand.state);
                    }
                }
            }
        },
    }
}

/// The money spent once `quantity` units of `item` are added to an entry.
spec fn step_cost(entry: Recorded, item: ResourceItem, quantity: int) -> int {
    entry.state.cost + quantity * item.cost
}

/// The hold space used once `quantity` units of `item` are added to an entry.
spec fn step_cargo(entry: Recorded, item: ResourceItem, quantity: int) -> int {
    entry.state.cargo + quantity * item.cargo
}

/// The profit once `quantity` units of `item` are added to an entry.
spec fn step_profit(entry: Recorded, item: ResourceItem, quantity: int) -> int {
    entry.profit + quantity * item.profit
}

/// The entry `from`, where the item fits at all, has its successor covered.
spec fn successor_covered(
    next: Seq<Recorded>,
    from: Recorded,
    item: ResourceItem,
    max_cost: int,
    max_cargo: int,
) -> bool {
    let quantity = max_quantity(item, max_cost - from.state.cost, max_cargo - from.state.cargo);
    quantity > 0 ==> covers(
        next,
        step_cost(from, item, quantity),
        step_cargo(from, item, quantity),
        step_profit(from, item, quantity),
    )
}

/// The entry `from` is still covered, at its own cell.
spec fn kept_covered(next: Seq<Recorded>, from: Recorded) -> bool {
    covers(next, from.state.cost as int, from.state.cargo as int, from.profit as int)
}

proof fn lemma_next_table(
    items: Seq<ResourceItem>,
    max_cost: int,
    max_cargo: int,
    table: Seq<Recorded>,
    next: Seq<Recorded>,
    n: int,
)
    requires
        0 <= n < items.len(),
        table_ok(items, max_cost, max_cargo, table, n),
        distinct_states(next),
        forall|k: int|
            0 <= k < next.len() ==> entry_ok(items, max_cost, max_cargo, #[trigger] next[k], n + 1),
        forall|j: int| 0 <= j < table.len() ==> kept_covered(next, #[trigger] table[j]),
        forall|j: int|
            0 <= j < table.len() ==> successor_covered(
                next,
                #[trigger] table[j],
                items[n],
                max_cost,
                max_cargo,
            ),
    ensures
        table_ok(items, max_cost, max_cargo, next, n + 1),
{
    assert forall|picks: Seq<(usize, u64)>| #[trigger]
        greedy_upto(items, max_cost, max_cargo, picks, n + 1) implies covers(
        next,
        picks_cost(items, picks),
        picks_cargo(items, picks),
        picks_profit(items, picks),
    ) by {
        if picks.len() > 0 && picks.last().0 == n {
            let before = picks.drop_last();
            let quantity = picks.last().1 as int;
            assert(greedy_upto(items, max_cost, max_cargo, before, n));
            let j = choose|j: int|
                0 <= j < table.len() && #[trigger] reaches(
                    table[j],
                    picks_cost(items, before),
                    picks_cargo(items, before),
                    picks_profit(items, before),
                );
            assert(successor_covered(next, table[j], items[n], max_cost, max_cargo));
            let k = choose|k: int|
                0 <= k < next.len() && #[trigger] reaches(
                    next[k],
                    step_cost(table[j], items[n], quantity),
                    step_cargo(table[j], items[n], quantity),
                    step_profit(table[j], items[n], quantity),
                );
            assert(reaches(
                next[k],
                picks_cost(items, picks),
                picks_cargo(items, picks),
                picks_profit(items, picks),
            )) by {
                assert(quantity * items[n].cost == items[n].cost * picks.last().1)
                    by (nonlinear_arith)
                    requires
                        quantity == picks.last().1,
                ;
                assert(quantity * items[n].cargo == items[n].cargo * picks.last().1)
                    by (nonlinear_arith)
                    requires
                        quantity == picks.last().1,
                ;
                assert(quantity * items[n].profit == items[n].profit * picks.last().1)
                    by (nonlinear_arith)
                    requires
                        quantity == picks.last().1,
                ;
            }
        } else {
            assert(greedy_upto(items, max_cost, max_cargo, picks, n));
            let j = choose|j: int|
                0 <= j < table.len() && #[trigger] reaches(
                    table[j],
                    picks_cost(items, picks),
                    picks_cargo(items, picks),
                    picks_profit(items, picks),
                );
            assert(kept_covered(next, table[j]));
            let k = choose|k: int|
                0 <= k < next.len() && #[trigger] reaches(
                    next[k],
                    table[j].state.cost as int,
                    table[j].state.cargo as int,
                    table[j].profit as int,
                );
            assert(reaches(
                next[k],
                picks_cost(items, picks),
                picks_cargo(items, picks),
                picks_profit(items, picks),
            ));
        }
    }
}

/// Recording the successor of entry `j` keeps what held of the table so far
/// and covers that successor.
proof fn lemma_step_recorded(
    items: Seq<ResourceItem>,
    max_cost: int,
    max_cargo: int,
    table: Seq<Recorded>,
    before: Seq<Recorded>,
    after: Seq<Recorded>,
    cand: Recorded,
    item: ResourceItem,
    j: int,
    n: int,
)
    requires
        recorded_into(before, after, cand),
        distinct_states(before),
        0 <= j < table.len(),
        forall|k: int|
            0 <= k < before.len() ==> entry_ok(items, max_cost, max_cargo, #[trigger] before[k], n + 1),
        entry_ok(items, max_cost, max_cargo, cand, n + 1),
        forall|k: int| 0 <= k < table.len() ==> kept_covered(before, #[trigger] table[k]),
        forall|k: int|
            0 <= k < j ==> successor_covered(before, #[trigger] table[k], item, max_cost, max_cargo),
        ({
            let quantity = max_quantity(
                item,
                max_cost - table[j].state.cost,
                max_cargo - table[j].state.cargo,
            );
            &&& cand.state.cost == step_cost(table[j], item, quantity)
            &&& cand.state.cargo == step_cargo(table[j], item, quantity)
            &&& cand.profit == step_profit(table[j], item, quantity)
        }),
    ensures
        distinct_states(after),
        forall|k: int|
            0 <= k < after.len() ==> entry_ok(items, max_cost, max_cargo, #[trigger] after[k], n + 1),
        forall|k: int| 0 <= k < table.len() ==> kept_covered(after, #[trigger] table[k]),
        forall|k: int|
            0 <= k < j + 1 ==> successor_covered(
                after,
                #[trigger] table[k],
                item,
                max_cost,
                max_cargo,
            ),
{
    lemma_recorded_keeps_distinct(before, after, cand);
    assert forall|k: int| 0 <= k < after.len() implies entry_ok(
        items,
        max_cost,
        max_cargo,
        #[trigger] after[k],
        n + 1,
    ) by {
        if k < before.len() {
            assert(after[k] == before[k] || after[k] == cand);
            assert(entry_ok(items, max_cost, max_cargo, before[k], n + 1));
        } else {
            assert(after[k] == cand);
        }
    }
    assert forall|k: int| 0 <= k < table.len() implies kept_covered(after, #[trigger] table[k]) by {
        assert(kept_covered(before, table[k]));
        lemma_recorded_keeps_cover(
            before,
            after,
            cand,
            table[k].state.cost as int,
            table[k].state.cargo as int,
            table[k].profit as int,
        );
    }
    assert forall|k: int| 0 <= k < j + 1 implies successor_covered(
        after,
        #[trigger] table[k],
        item,
        max_cost,
        max_cargo,
    ) by {
        let quantity = max_quantity(
            item,
            max_cost - table[k].state.cost,
            max_cargo - table[k].state.cargo,
        );
        if k < j {
            assert(successor_covered(before, table[k], item, max_cost, max_cargo));
            if quantity > 0 {
                lemma_recorded_keeps_cover(
                    before,
                    after,
                    cand,
                    step_cost(table[k], item, quantity),
                    step_cargo(table[k], item, quantity),
                    step_profit(table[k], item, quantity),
                );
            }
        }
    }
}

/// Moves the table on by one item: every recorded state is kept, and from each
/// of them the item is added in the largest quantity that fits, if any does.
#[verifier::rlimit(60)]
fn advance(
    items: &[ResourceItem],
    max_cost: u64,
    max_cargo: u64,
    table: &Vec<Recorded>,
    index: &mut HashMap<u128, usize>,
    n: usize,
) -> (next: Vec<Recorded>)
    requires
        n < items@.len(),
        profit_bound(items@, max_cost as int, max_cargo as int, items@.len() as int) <= u64::MAX,
        table_ok(items@, max_cost as int, max_cargo as int, table@, n as int),
        index_ok(table@, old(index)@),
    ensures
        table_ok(items@, max_cost as int, max_cargo as int, next@, n + 1),
        index_ok(next@, final(index)@),
        reached_all(next@) == advanced(
            items@,
            max_cost as int,
            max_cargo as int,
            reached_all(table@),
            n as int,
            table@.len() as int,
        ),
{
    let item = items[n];
    let mut next = copy_table(table);
    proof {
        assert forall|k: int| 0 <= k < next@.len() implies #[trigger] key_at(next@, k) == key_at(
            table@,
            k,
        ) by {}
        lemma_profit_bound_grows(items@, max_cost as int, max_cargo as int, n as int, n + 1);
        lemma_profit_bound_grows(items@, max_cost as int, max_cargo as int, n + 1, items@.len() as int);
        assert forall|k: int| 0 <= k < table@.len() implies kept_covered(
            next@,
            #[trigger] table@[k],
        ) by {
            assert(reaches(
                next@[k],
                table@[k].state.cost as int,
                table@[k].state.cargo as int,
                table@[k].profit as int,
            ));
        }
        assert forall|a: int, b: int| 0 <= a < b < next@.len() implies (#[trigger] next@[a]).state
            != (#[trigger] next@[b]).state by {
            assert(table@[a].state != table@[b].state);
        }
        assert forall|k: int| 0 <= k < next@.len() implies entry_ok(
            items@,
            max_cost as int,
            max_cargo as int,
            #[trigger] next@[k],
            n + 1,
        ) by {
            assert(entry_ok(items@, max_cost as int, max_cargo as int, table@[k], n as int));
        }
    }
    let mut j: usize = 0;
    while j < table.len()
        invariant
            j <= table.len(),
            n < items@.len(),
            item == items@[n as int],
            profit_bound(items@, max_cost as int, max_cargo as int, n + 1) <= u64::MAX,
            0 <= profit_bound(items@, max_cost as int, max_cargo as int, n as int),
            profit_bound(items@, max_cost as int, max_cargo as int, n + 1) == profit_bound(
                items@,
                max_cost as int,
                max_cargo as int,
                n as int,
            ) + item.profit * max_quantity(item, max_cost as int, max_cargo as int),
            table_ok(items@, max_cost as int, max_cargo as int, table@, n as int),
            reached_all(next@) == advanced(
                items@,
                max_cost as int,
                max_cargo as int,
                reached_all(table@),
                n as int,
                j as int,
            ),
            distinct_states(next@),
            index_ok(next@, index@),
            forall|k: int|
                0 <= k < next@.len() ==> entry_ok(
                    items@,
                    max_cost as int,
                    max_cargo as int,
                    #[trigger] next@[k],
                    n + 1,
                ),
            forall|k: int| 0 <= k < table@.len() ==> kept_covered(next@, #[trigger] table@[k]),
            forall|k: int|
                0 <= k < j ==> successor_covered(
                    next@,
                    #[trigger] table@[k],
                    item,
                    max_cost as int,
                    max_cargo as int,
                ),
        decreases table.len() - j,
    {
        let from = &table[j];
        assert(entry_ok(items@, max_cost as int, max_cargo as int, table@[j as int], n as int));
        assert(reached_all(table@)[j as int] == reached_of(table@[j as int]));
        let quantity = feasible_quantity(&item, max_cost - from.state.cost, max_cargo - from.state.cargo);
        if quantity > 0 {
            let ghost most = max_quantity(item, max_cost as int, max_cargo as int);
            proof {
                lemma_max_quantity_grows(
                    item,
                    max_cost - from.state.cost,
                    max_cargo - from.state.cargo,
                    max_cost as int,
                    max_cargo as int,
                );
            }
            assert(quantity * item.profit <= item.profit * most) by (nonlinear_arith)
                requires
                    0 <= quantity <= most,
                    0 <= item.profit,
            ;
            let cost: u64 = from.state.cost + quantity * item.cost;
            let cargo: u64 = from.state.cargo + quantity * item.cargo;
            let profit: u64 = from.profit + quantity * item.profit;
            let mut picks = copy_picks(&from.picks);
            picks.push((n, quantity));
            let cand = Recorded { state: DiscreteState { cost, cargo }, profit, picks };
            proof {
                assert(reached_of(cand) == successor(
                    reached_of(table@[j as int]),
                    item,
                    n as int,
                    quantity as int,
                ));
                assert(cand.picks@.drop_last() =~= from.picks@);
                assert(cand.picks@.last() == (n, quantity));
                assert(quantity * item.cost == item.cost * quantity) by (nonlinear_arith);
                assert(quantity * item.cargo == item.cargo * quantity) by (nonlinear_arith);
                assert(quantity * item.profit == item.profit * quantity) by (nonlinear_arith);
                assert(entry_ok(items@, max_cost as int, max_cargo as int, cand, n + 1));
            }
            let ghost before = next@;
            record(&mut next, index, cand);
            proof {
                lemma_step_recorded(
                    items@,
                    max_cost as int,
                    max_cargo as int,
                    table@,
                    before,
                    next@,
                    cand,
                    item,
                    j as int,
                    n as int,
                );
            }
        }
        j += 1;
    }
    proof {
        lemma_next_table(items@, max_cost as int, max_cargo as int, table@, next@, n as int);
    }
    next
}


/// Finds a plan of highest profit among the plans that take each chosen item
/// in the largest quantity that still fits.
///
/// The items are gone through in order. The returned picks form such a plan,
/// the returned profit is what they earn, and no such plan earns more. Among
/// plans of equal profit the one recorded first is returned: the result is
/// that of [`planned`].
pub fn knapsack(items: &[ResourceItem], max_cost: u64, max_cargo: u64) -> (plan: SelectionPlan)
    requires
        profit_bound(items@, max_cost as int, max_cargo as int, items@.len() as int) <= u64::MAX,
    ensures
        is_plan(items@, max_cost as int, max_cargo as int, plan.picks@),
        plan.profit == picks_profit(items@, plan.picks@),
        picks_cost(items@, plan.picks@) <= max_cost,
        picks_cargo(items@, plan.picks@) <= max_cargo,
        is_best_profit(items@, max_cost as int, max_cargo as int, plan.profit as int),
        items@.len() == 0 ==> plan.profit == 0 && plan.picks@.len() == 0,
        plan.picks@ == planned(items@, max_cost as int, max_cargo as int).picks,
        plan.profit == planned(items@, max_cost as int, max_cargo as int).profit,
{
    let mut table: Vec<Recorded> = Vec::new();
    table.push(Recorded { state: DiscreteState { cost: 0, cargo: 0 }, profit: 0, picks: Vec::new() });
    let mut index: HashMap<u128, usize> = HashMap::new();
    index.insert(0, 0);
    assert(key_at(table@, 0) == 0);
    proof {
        assert forall|picks: Seq<(usize, u64)>| #[trigger]
            greedy_upto(items@, max_cost as int, max_cargo as int, picks, 0) implies covers(
            table@,
            picks_cost(items@, picks),
            picks_cargo(items@, picks),
            picks_profit(items@, picks),
        ) by {
            assert(picks.len() == 0);
            assert(reaches(table@[0], 0, 0, 0));
        }
    }
    assert(reached_all(table@) =~= table_after(items@, max_cost as int, max_cargo as int, 0));
    let mut n: usize = 0;
    while n < items.len()
        invariant
            n <= items@.len(),
            table@.len() > 0,
            reached_all(table@) == table_after(items@, max_cost as int, max_cargo as int, n as int),
            index_ok(table@, index@),
            profit_bound(items@, max_cost as int, max_cargo as int, items@.len() as int) <= u64::MAX,
            table_ok(items@, max_cost as int, max_cargo as int, table@, n as int),
            items@.len() == 0 ==> table@.len() == 1 && table@[0].picks@.len() == 0,
        decreases items@.len() - n,
    {
        table = advance(items, max_cost, max_cargo, &table, &mut index, n);
        proof {
            assert(greedy_upto(items@, max_cost as int, max_cargo as int, Seq::empty(), n + 1));
            assert(covers(table@, 0, 0, 0));
        }
        n += 1;
    }
    let mut best: usize = 0;
    let mut k: usize = 1;
    while k < table.len()
        invariant
            best < table@.len(),
            1 <= k <= table@.len(),
            best == best_of(reached_all(table@), k as int),
            forall|i: int| 0 <= i < k && i < table@.len() ==> (#[trigger] table@[i]).profit <= table@[best as int].profit,
        decreases table.len() - k,
    {
        assert(reached_all(table@)[best as int] == reached_of(table@[best as int]));
        assert(reached_all(table@)[k as int] == reached_of(table@[k as int]));
        if table[best].profit < table[k].profit {
            best = k;
        }
        k += 1;
    }
    let plan = SelectionPlan { profit: table[best].profit, picks: copy_picks(&table[best].picks) };
    proof {
        assert(reached_all(table@)[best as int] == reached_of(table@[best as int]));
        let top = table@[best as int];
        assert(entry_ok(items@, max_cost as int, max_cargo as int, top, items@.len() as int));
        assert forall|picks: Seq<(usize, u64)>| #[trigger]
            is_plan(items@, max_cost as int, max_cargo as int, picks) implies picks_profit(
            items@,
            picks,
        ) <= plan.profit by {
            let i = choose|i: int|
                0 <= i < table@.len() && #[trigger] reaches(
                    table@[i],
                    picks_cost(items@, picks),
                    picks_cargo(items@, picks),
                    picks_profit(items@, picks),
                );
            assert(table@[i].profit <= top.profit);
        }
        assert(is_plan(items@, max_cost as int, max_cargo as int, plan.picks@));
    }
    plan
}

/// Whether the most that the items can earn under the limits is within
/// `u64`: each item counted in the largest quantity that the limits allow
/// when nothing else is taken.
pub fn profit_in_range(items: &[ResourceItem], max_cost: u64, max_cargo: u64) -> (fits: bool)
    ensures
        fits == (profit_bound(items@, max_cost as int, max_cargo as int, items@.len() as int)
            <= u64::MAX),
{
    let mut total: u64 = 0;
    let mut n: usize = 0;
    while n < items.len()
        invariant
            n <= items@.len(),
            total == profit_bound(items@, max_cost as int, max_cargo as int, n as int),
        decreases items@.len() - n,
    {
        proof {
            lemma_profit_bound_grows(
                items@,
                max_cost as int,
                max_cargo as int,
                n + 1,
                items@.len() as int,
            );
            lemma_profit_bound_grows(items@, max_cost as int, max_cargo as int, n as int, n as int);
        }
        let most = feasible_quantity(&items[n], max_cost, max_cargo);
        match items[n].profit.checked_mul(most) {
            None => {
                return false;
            },
            Some(full) => match total.checked_add(full) {
                None => {
                    return false;
                },
                Some(sum) => {
                    total = sum;
                },
            },
        }
        n += 1;
    }
    true
}

/// Plans a load for the given items and limits.
///
/// Fails only when the most that the items can earn under the limits is
/// beyond `u64`; otherwise returns what [`knapsack`] returns.
pub fn compute_plan(items: &[ResourceItem], max_cost: u64, max_cargo: u64) -> (outcome: Result<
    SelectionPlan,
    OptimizerError,
>)
    ensures
        outcome is Err <==> profit_bound(items@, max_cost as int, max_cargo as int, items@.len() as int) > u64::MAX,
        outcome is Err ==> outcome == Err::<SelectionPlan, OptimizerError>(
            OptimizerError::ProfitOutOfRange,
        ),
        outcome is Ok ==> {
            let plan = outcome->Ok_0;
            &&& is_plan(items@, max_cost as int, max_cargo as int, plan.picks@)
            &&& plan.profit == picks_profit(items@, plan.picks@)
            &&& picks_cost(items@, plan.picks@) <= max_cost
            &&& picks_cargo(items@, plan.picks@) <= max_cargo
            &&& is_best_profit(items@, max_cost as int, max_cargo as int, plan.profit as int)
            &&& plan.picks@ == planned(items@, max_cost as int, max_cargo as int).picks
            &&& plan.profit == planned(items@, max_cost as int, max_cargo as int).profit
        },
{
    if profit_in_range(items, max_cost, max_cargo) {
        Ok(knapsack(items, max_cost, max_cargo))
    } else {
        Err(OptimizerError::ProfitOutOfRange)
    }
}


proof fn lemma_max_quantity_order(
    first: ResourceItem,
    second: ResourceItem,
    cost_left: int,
    cargo_left: int,
)
    requires
        0 <= cost_left,
        0 <= cargo_left,
        second.cost >= first.cost,
        second.cargo >= first.cargo,
        second.quantity == first.quantity,
    ensures
        0 <= max_quantity(second, cost_left, cargo_left) <= max_quantity(
            first,
            cost_left,
            cargo_left,
        ),
{
    if first.cost > 0 {
        vstd::arithmetic::div_mod::lemma_div_is_ordered_by_denominator(
            cost_left,
            first.cost as int,
            second.cost as int,
        );
    }
    if first.cargo > 0 {
        vstd::arithmetic::div_mod::lemma_div_is_ordered_by_denominator(
            cargo_left,
            first.cargo as int,
            second.cargo as int,
        );
    }
    lemma_units_within(cost_left, second.cost as int, second.quantity as int);
    lemma_units_within(cost_left, first.cost as int, first.quantity as int);
    lemma_units_within(
        cargo_left,
        second.cargo as int,
        units_within(cost_left, second.cost as int, second.quantity as int),
    );
}

/// With no items the only plan is the empty one, and it earns nothing.
pub proof fn lemma_no_items_no_profit(max_cost: int, max_cargo: int, profit: int)
    requires
        is_best_profit(Seq::<ResourceItem>::empty(), max_cost, max_cargo, profit),
    ensures
        profit == 0,
{
    let items = Seq::<ResourceItem>::empty();
    let picks = choose|picks: Seq<(usize, u64)>| #[trigger]
        is_plan(items, max_cost, max_cargo, picks) && picks_profit(items, picks) == profit;
    assert(picks.len() == 0);
}

/// With a single item the best profit is what the item earns in the largest
/// quantity that the limits allow.
pub proof fn lemma_single_item_profit(item: ResourceItem, max_cost: int, max_cargo: int, profit: int)
    requires
        0 <= max_cost,
        0 <= max_cargo,
        is_best_profit(seq![item], max_cost, max_cargo, profit),
    ensures
        profit == item.profit * max_quantity(item, max_cost, max_cargo),
{
    reveal_with_fuel(greedy_upto, 3);
    let one = seq![item];
    let taken = max_quantity(item, max_cost, max_cargo);
    let none = Seq::<(usize, u64)>::empty();
    lemma_units_within(max_cost, item.cost as int, item.quantity as int);
    lemma_units_within(
        max_cargo,
        item.cargo as int,
        units_within(max_cost, item.cost as int, item.quantity as int),
    );
    assert(picks_cost(one, none) == 0 && picks_cargo(one, none) == 0);
    let best = choose|picks: Seq<(usize, u64)>| #[trigger]
        is_plan(one, max_cost, max_cargo, picks) && picks_profit(one, picks) == profit;
    if best.len() > 0 {
        let before = best.drop_last();
        assert(best.last().0 == 0);
        assert(before.len() == 0);
        assert(picks_profit(one, before) == 0);
        assert(best.last().1 == taken);
    } else {
        assert(picks_profit(one, best) == 0);
        if taken > 0 {
            let only = seq![(0usize, taken as u64)];
            assert(only.drop_last() =~= none);
            assert(is_plan(one, max_cost, max_cargo, only));
            assert(picks_profit(one, none) == 0);
            assert(only.last() == (0usize, taken as u64));
            assert(picks_profit(one, only) == item.profit * taken);
            assert(0 < item.profit * taken || item.profit == 0) by (nonlinear_arith)
                requires
                    taken > 0,
                    item.profit >= 0,
            ;
        }
        assert(item.profit * taken == 0) by (nonlinear_arith)
            requires
                taken == 0 || item.profit == 0,
        ;
    }
}

/// A second item that costs and weighs no less than the first, earns no more
/// per unit and is on offer in the same quantity does not raise the best
/// profit, provided it earns nothing or no unit of it fits once the first item
/// has been taken.
pub proof fn lemma_dominated_item_adds_nothing(
    first: ResourceItem,
    second: ResourceItem,
    max_cost: int,
    max_cargo: int,
    alone: int,
    both: int,
)
    requires
        0 <= max_cost,
        0 <= max_cargo,
        second.cost >= first.cost,
        second.cargo >= first.cargo,
        second.profit <= first.profit,
        second.quantity == first.quantity,
        ({
            let taken = max_quantity(first, max_cost, max_cargo);
            second.profit == 0 || max_quantity(
                second,
                max_cost - first.cost * taken,
                max_cargo - first.cargo * taken,
            ) == 0
        }),
        is_best_profit(seq![first], max_cost, max_cargo, alone),
        is_best_profit(seq![first, second], max_cost, max_cargo, both),
    ensures
        both == alone,
{
    reveal_with_fuel(greedy_upto, 3);
    let one = seq![first];
    let two = seq![first, second];
    let taken = max_quantity(first, max_cost, max_cargo);
    let none = Seq::<(usize, u64)>::empty();
    lemma_max_quantity_order(first, second, max_cost, max_cargo);
    lemma_units_within(max_cost, first.cost as int, first.quantity as int);
    assert(is_plan(one, max_cost, max_cargo, none));
    assert(is_plan(two, max_cost, max_cargo, none));
    assert(picks_profit(one, none) == 0);
    assert(picks_profit(two, none) == 0);
    // What the first item alone earns is the most of the empty plan and of
    // the first item taken in full.
    let full = first.profit * taken;
    assert(0 <= full) by (nonlinear_arith)
        requires
            0 <= taken,
            full == first.profit * taken,
    ;
    if taken > 0 {
        let only = seq![(0usize, taken as u64)];
        assert(only.drop_last() =~= none);
        assert(picks_cost(one, none) == 0 && picks_cargo(one, none) == 0);
        assert(picks_cost(two, none) == 0 && picks_cargo(two, none) == 0);
        assert(greedy_upto(one, max_cost, max_cargo, none, 0));
        assert(greedy_upto(two, max_cost, max_cargo, none, 0));
        assert(is_plan(one, max_cost, max_cargo, only));
        assert(is_plan(two, max_cost, max_cargo, only));
        assert(picks_profit(one, only) == full);
        assert(picks_profit(two, only) == full);
    }
    lemma_single_item_profit(first, max_cost, max_cargo, alone);
    let best_two = choose|picks: Seq<(usize, u64)>| #[trigger]
        is_plan(two, max_cost, max_cargo, picks) && picks_profit(two, picks) == both;
    assert(both <= alone) by {
        if best_two.len() > 0 {
            let before = best_two.drop_last();
            let quantity = best_two.last().1 as int;
            if best_two.last().0 == 0 {
                assert(before.len() == 0);
                assert(picks_cost(two, before) == 0 && picks_cargo(two, before) == 0);
                assert(picks_profit(two, before) == 0);
                assert(quantity == taken);
            } else {
                assert(best_two.last().0 == 1);
                if before.len() == 0 {
                    assert(picks_cost(two, before) == 0 && picks_cargo(two, before) == 0);
                    assert(picks_profit(two, before) == 0);
                    assert(quantity == max_quantity(second, max_cost, max_cargo));
                    assert(second.profit * quantity <= first.profit * taken) by (nonlinear_arith)
                        requires
                            0 <= quantity <= taken,
                            0 <= second.profit <= first.profit,
                    ;
                } else {
                    let lead = before.drop_last();
                    assert(before.last().0 == 0);
                    assert(lead.len() == 0);
                    assert(picks_cost(two, lead) == 0 && picks_cargo(two, lead) == 0);
                    assert(picks_profit(two, lead) == 0);
                    assert(before.last().1 == taken);
                    assert(picks_cost(two, before) == first.cost * taken);
                    assert(picks_cargo(two, before) == first.cargo * taken);
                    assert(picks_profit(two, before) == full);
                    assert(second.profit == 0);
                    assert(second.profit * quantity == 0) by (nonlinear_arith)
                        requires
                            second.profit == 0,
                    ;
                }
            }
        }
    }
}

} // verus!
