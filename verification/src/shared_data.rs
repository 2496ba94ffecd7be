//! The order store: a table-keyed collection of orders together with the
//! global order-id counter. Ids are assigned from the counter and never
//! reused; a table keeps its orders in arrival order and is dropped from
//! the mapping as soon as its last order is removed.

use vstd::prelude::*;
use std::collections::HashMap;
use rand::Rng;

use crate::text::{dec_seq, u64_to_string};

verus! {

broadcast use vstd::std_specs::hash::group_hash_axioms;

/// One pending order.
pub struct Order {
    order_id: u64,
    item: String,
    mins_to_cook: u8,
}

/// The mathematical value of an [`Order`].
pub struct OrderModel {
    pub order_id: u64,
    pub item: Seq<char>,
    pub mins_to_cook: u8,
}

impl View for Order {
    type V = OrderModel;

    closed spec fn view(&self) -> OrderModel {
        OrderModel {
            order_id: self.order_id,
            item: self.item@,
            mins_to_cook: self.mins_to_cook,
        }
    }
}

impl Order {
    pub fn get_order_id(&self) -> (r: u64)
        ensures
            r == self@.order_id,
    {
        self.order_id
    }

    /// The ordered item's name.
    pub fn get_item(&self) -> (r: String)
        ensures
            r@ == self@.item,
    {
        self.item.clone()
    }

    /// The estimated minutes until the order is ready.
    pub fn get_mins_to_cook(&self) -> (r: u8)
        ensures
            r == self@.mins_to_cook,
    {
        self.mins_to_cook
    }
}

/// The mathematical value of a [`SharedData`] store.
pub struct StoreModel {
    pub order_counter: u64,
    pub tables: Map<u64, Seq<OrderModel>>,
}

/// The sequence of order values held by a sequence of orders.
pub open spec fn orders_model(v: Seq<Order>) -> Seq<OrderModel> {
    v.map(|i: int, o: Order| o@)
}

/// The sequence of character sequences held by a sequence of strings.
pub open spec fn strs_model(v: Seq<String>) -> Seq<Seq<char>> {
    v.map(|i: int, s: String| s@)
}

/// The table mapping held by a `HashMap` of order vectors.
pub open spec fn tables_model(m: Map<u64, Vec<Order>>) -> Map<u64, Seq<OrderModel>> {
    Map::new(|t: u64| m.contains_key(t), |t: u64| orders_model(m[t]@))
}

/// The order store.
pub struct SharedData {
    order_counter: u64,
    tables: HashMap<u64, Vec<Order>>,
}

impl View for SharedData {
    type V = StoreModel;

    closed spec fn view(&self) -> StoreModel {
        StoreModel {
            order_counter: self.order_counter,
            tables: tables_model(self.tables@),
        }
    }
}

/// The orders of table `t`, the empty sequence if the table is absent.
pub open spec fn table_orders(s: StoreModel, t: u64) -> Seq<OrderModel> {
    if s.tables.contains_key(t) {
        s.tables[t]
    } else {
        Seq::empty()
    }
}

/// Whether some order in `orders` carries id `oid`.
pub open spec fn seq_has_order(orders: Seq<OrderModel>, oid: u64) -> bool {
    exists|i: int| 0 <= i < orders.len() && (#[trigger] orders[i]).order_id == oid
}

/// Whether table `t` holds an order with id `oid`.
pub open spec fn has_order(s: StoreModel, t: u64, oid: u64) -> bool {
    seq_has_order(table_orders(s, t), oid)
}

/// The first position in `orders` holding id `oid` (meaningful only when
/// such an order exists).
pub open spec fn first_index(orders: Seq<OrderModel>, oid: u64) -> int
    decreases orders.len(),
{
    if orders.len() == 0 {
        0
    } else if orders[0].order_id == oid {
        0
    } else {
        1 + first_index(orders.drop_first(), oid)
    }
}

/// The order with id `oid` in table `t` (meaningful only when present).
pub open spec fn found_order(s: StoreModel, t: u64, oid: u64) -> OrderModel {
    table_orders(s, t)[first_index(table_orders(s, t), oid)]
}

/// The store's internal invariant: every table present in the mapping is
/// nonempty, every stored id is below the counter, and no id occurs twice.
pub open spec fn store_inv(s: StoreModel) -> bool {
    &&& forall|t: u64| #[trigger] s.tables.contains_key(t) ==> s.tables[t].len() > 0
    &&& forall|t: u64, i: int|
        s.tables.contains_key(t) && 0 <= i < s.tables[t].len() ==> (
        #[trigger] s.tables[t][i]).order_id < s.order_counter
    &&& forall|t1: u64, i1: int, t2: u64, i2: int|
        s.tables.contains_key(t1) && s.tables.contains_key(t2) && 0 <= i1 < s.tables[t1].len()
            && 0 <= i2 < s.tables[t2].len() && (t1 != t2 || i1 != i2) ==> (
        #[trigger] s.tables[t1][i1]).order_id != (#[trigger] s.tables[t2][i2]).order_id
}

/// One order exactly as `add_items` creates it: the `k`-th fresh id counted
/// from `base`, the requested item, and a cook time in `[5, 16)`.
pub open spec fn fresh_order(o: OrderModel, base: u64, k: int, item: Seq<char>) -> bool {
    &&& o.order_id == base + k
    &&& o.item == item
    &&& 5 <= o.mins_to_cook < 16
}

/// How the store after `add_items(t, items)` relates to the store before:
/// the counter advances by one per item, other tables are untouched, and
/// table `t` keeps its old orders followed by one fresh order per item.
pub open spec fn spec_adds(pre: StoreModel, post: StoreModel, t: u64, items: Seq<Seq<char>>) -> bool {
    &&& post.order_counter == pre.order_counter + items.len()
    &&& post.tables.dom() =~= if items.len() == 0 {
        pre.tables.dom()
    } else {
        pre.tables.dom().insert(t)
    }
    &&& forall|t2: u64|
        t2 != t && pre.tables.contains_key(t2) ==> post.tables[t2] == #[trigger] pre.tables[t2]
    &&& table_orders(post, t).len() == table_orders(pre, t).len() + items.len()
    &&& forall|i: int|
        0 <= i < table_orders(pre, t).len() ==> #[trigger] table_orders(post, t)[i]
            == table_orders(pre, t)[i]
    &&& forall|k: int|
        0 <= k < items.len() ==> fresh_order(
            #[trigger] table_orders(post, t)[table_orders(pre, t).len() + k],
            pre.order_counter,
            k,
            items[k],
        )
}

/// The store after removing order `oid` from table `t` (meaningful only
/// when the order is present): the order disappears from the table's
/// sequence, and an emptied table leaves the mapping.
pub open spec fn spec_remove(s: StoreModel, t: u64, oid: u64) -> StoreModel {
    let orders = table_orders(s, t);
    let rest = orders.remove(first_index(orders, oid));
    StoreModel {
        order_counter: s.order_counter,
        tables: if rest.len() == 0 {
            s.tables.remove(t)
        } else {
            s.tables.insert(t, rest)
        },
    }
}

/// The message `remove_item` and the router give for a missing order.
pub open spec fn not_found_msg(oid: u64, t: u64) -> Seq<char> {
    "order "@ + dec_seq(oid as nat) + " doesn't exist at table "@ + dec_seq(t as nat)
}

/// Builds [`not_found_msg`] as a `String`.
pub fn make_not_found_msg(oid: u64, t: u64) -> (r: String)
    ensures
        r@ == not_found_msg(oid, t),
{
    let mut s = "order ".to_owned();
    let oid_str = u64_to_string(oid);
    s.append(oid_str.as_str());
    s.append(" doesn't exist at table ");
    let t_str = u64_to_string(t);
    s.append(t_str.as_str());
    proof {
        assert(s@ =~= not_found_msg(oid, t));
    }
    s
}

/// Relies on `rand::Rng::gen_range` over `rand::thread_rng`: yields a value
/// uniformly drawn from the given nonempty range, here `5 .. 16`. Nothing
/// beyond membership in the range is assumed of any outcome.
#[verifier::external_body]
fn random_cook_time() -> (r: u8)
    ensures
        5 <= r < 16,
{
    rand::thread_rng().gen_range(5..16)
}

impl SharedData {
    /// The store's invariant; it holds from construction on.
    pub open spec fn inv(&self) -> bool {
        store_inv(self@)
    }

    /// A fresh store: counter at zero, no tables.
    pub fn new() -> (r: SharedData)
        ensures
            r@.order_counter == 0,
            r@.tables == Map::<u64, Seq<OrderModel>>::empty(),
            r.inv(),
    {
        let r = SharedData { order_counter: 0, tables: HashMap::new() };
        proof {
            assert(r@.tables =~= Map::<u64, Seq<OrderModel>>::empty());
        }
        r
    }

    /// The current value of the order-id counter: the id the next created
    /// order will receive.
    pub fn get_order_counter(&self) -> (r: u64)
        ensures
            r == self@.order_counter,
    {
        self.order_counter
    }

    /// A borrow of the underlying table mapping.
    pub fn get_tables(&self) -> (r: &HashMap<u64, Vec<Order>>)
        ensures
            tables_model(r@) == self@.tables,
    {
        &self.tables
    }

    /// A snapshot of table `t`'s orders, empty if the table is absent.
    pub fn get_table(&self, table: u64) -> (r: Vec<Order>)
        ensures
            orders_model(r@) == table_orders(self@, table),
    {
        let mut out: Vec<Order> = Vec::new();
        match self.tables.get(&table) {
            None => {
                proof {
                    assert(orders_model(out@) =~= table_orders(self@, table));
                }
            },
            Some(v) => {
                let mut i: usize = 0;
                while i < v.len()
                    invariant
                        0 <= i <= v@.len(),
                        self.tables@.contains_key(table),
                        v@ == self.tables@[table]@,
                        out@.len() == i,
                        forall|j: int| 0 <= j < i ==> #[trigger] out@[j]@ == v@[j]@,
                    decreases v@.len() - i,
                {
                    let o: &Order = &v[i];
                    out.push(Order {
                        order_id: o.order_id,
                        item: o.item.clone(),
                        mins_to_cook: o.mins_to_cook,
                    });
                    i += 1;
                }
                proof {
                    assert(orders_model(out@) =~= table_orders(self@, table));
                }
            },
        }
        out
    }

    /// The order with id `order_id` at table `table`, if present.
    pub fn get_order(&self, table: u64, order_id: u64) -> (r: Option<Order>)
        ensures
            r is Some <==> has_order(self@, table, order_id),
            r is Some ==> r.unwrap()@ == found_order(self@, table, order_id),
    {
        match self.tables.get(&table) {
            None => {
                proof {
                    assert(!has_order(self@, table, order_id));
                }
                None
            },
            Some(v) => {
                let ghost orders = table_orders(self@, table);
                let mut i: usize = 0;
                while i < v.len()
                    invariant
                        0 <= i <= v@.len(),
                        self.tables@.contains_key(table),
                        v@ == self.tables@[table]@,
                        orders == table_orders(self@, table),
                        orders == orders_model(v@),
                        forall|j: int| 0 <= j < i ==> (#[trigger] orders[j]).order_id != order_id,
                    decreases v@.len() - i,
                {
                    let o: &Order = &v[i];
                    if o.order_id == order_id {
                        proof {
                            lemma_first_index(orders, order_id, i as int);
                        }
                        return Some(Order {
                            order_id: o.order_id,
                            item: o.item.clone(),
                            mins_to_cook: o.mins_to_cook,
                        });
                    }
                    i += 1;
                }
                proof {
                    assert(!seq_has_order(orders, order_id));
                }
                None
            },
        }
    }

    /// Creates one order per requested item and appends them, in input
    /// order, to table `table`: each new order takes the current counter
    /// value as its id, and the counter advances once per item.
    pub fn add_items(&mut self, table: u64, items: Vec<String>)
        requires
            old(self).inv(),
            old(self)@.order_counter + items@.len() <= u64::MAX,
        ensures
            final(self).inv(),
            spec_adds(old(self)@, final(self)@, table, strs_model(items@)),
    {
        let ghost pre = old(self)@;
        let ghost pre_map = old(self).tables@;
        let ghost itemseq = strs_model(items@);
        let mut orders: Vec<Order> = match self.tables.remove(&table) {
            Some(v) => v,
            None => Vec::new(),
        };
        let ghost m0 = self.tables@;
        let ghost pre_orders = table_orders(pre, table);
        proof {
            assert(m0 == pre_map.remove(table));
            assert(orders_model(orders@) =~= pre_orders);
        }
        let mut k: usize = 0;
        while k < items.len()
            invariant
                0 <= k <= items@.len(),
                self.tables@ == m0,
                self.order_counter as int == pre.order_counter + k,
                pre.order_counter + items@.len() <= u64::MAX,
                orders@.len() == pre_orders.len() + k,
                forall|j: int| 0 <= j < pre_orders.len() ==> (#[trigger] orders@[j])@ == pre_orders[j],
                forall|j: int|
                    0 <= j < k ==> fresh_order(
                        (#[trigger] orders@[pre_orders.len() + j])@,
                        pre.order_counter,
                        j,
                        itemseq[j],
                    ),
                itemseq == strs_model(items@),
                pre_orders == table_orders(pre, table),
            decreases items@.len() - k,
        {
            let name = items[k].clone();
            let mins = random_cook_time();
            let o = Order { order_id: self.order_counter, item: name, mins_to_cook: mins };
            orders.push(o);
            self.order_counter = self.order_counter + 1;
            k += 1;
        }
        let ghost new_orders = orders@;
        let nonempty = orders.len() > 0;
        let ghost ov = orders;
        if nonempty {
            self.tables.insert(table, orders);
        }
        proof {
            let post = self@;
            assert(itemseq.len() == items@.len());
            if nonempty {
                assert(self.tables@ == m0.insert(table, ov));
                lemma_tables_model_remove(pre_map, table);
                lemma_tables_model_insert(m0, table, ov);
                assert(post.tables =~= pre.tables.remove(table).insert(table, orders_model(
                    new_orders,
                )));
                assert(orders_model(new_orders).len() == pre_orders.len() + itemseq.len());
                assert forall|j: int| 0 <= j < pre_orders.len() implies #[trigger] orders_model(
                    new_orders,
                )[j] == pre_orders[j] by {
                    assert(new_orders[j]@ == pre_orders[j]);
                }
                assert(table_orders(post, table) == orders_model(new_orders));
                assert forall|j: int| 0 <= j < itemseq.len() implies fresh_order(
                    #[trigger] table_orders(post, table)[table_orders(pre, table).len() + j],
                    pre.order_counter,
                    j,
                    itemseq[j],
                ) by {
                    assert(new_orders[pre_orders.len() + j]@ == orders_model(new_orders)[
                        pre_orders.len() + j]);
                }
                assert(post.tables.dom() =~= if itemseq.len() == 0 {
                    pre.tables.dom()
                } else {
                    pre.tables.dom().insert(table)
                });
            } else {
                // no order was appended and the table was absent before
                assert(pre_orders.len() + itemseq.len() == 0);
                assert(!pre.tables.contains_key(table));
                lemma_tables_model_remove(pre_map, table);
                assert(post.tables =~= pre.tables.remove(table));
                assert(post.tables =~= pre.tables);
                assert(post.tables.dom() =~= pre.tables.dom());
            }
            assert(spec_adds(pre, post, table, itemseq));
            lemma_adds_preserves_inv(pre, post, table, itemseq);
        }
    }

    /// Removes the order with id `order_id` from table `table`. When no
    /// such order exists, reports the not-found message and leaves the
    /// store unchanged; when the removal empties the table, the table's
    /// entry is dropped.
    #[verifier::loop_isolation(false)]
    pub fn remove_item(&mut self, table: u64, order_id: u64) -> (r: Option<String>)
        requires
            old(self).inv(),
        ensures
            final(self).inv(),
            match r {
                Some(m) => !has_order(old(self)@, table, order_id) && final(self)@ == old(self)@
                    && m@ == not_found_msg(order_id, table),
                None => has_order(old(self)@, table, order_id) && final(self)@ == spec_remove(
                    old(self)@,
                    table,
                    order_id,
                ),
            },
    {
        let ghost pre = old(self)@;
        let ghost pre_map = old(self).tables@;
        let vec_opt = self.tables.remove(&table);
        let mut orders: Vec<Order> = match vec_opt {
            Some(v) => v,
            None => {
                proof {
                    lemma_tables_model_remove(pre_map, table);
                    assert(!pre.tables.contains_key(table));
                    assert(tables_model(self.tables@) =~= pre.tables);
                    assert(self@ == pre);
                    assert(!has_order(pre, table, order_id));
                }
                return Some(make_not_found_msg(order_id, table));
            },
        };
        let ghost pre_orders = table_orders(pre, table);
        proof {
            assert(pre.tables.contains_key(table));
            assert(orders_model(orders@) =~= pre_orders);
        }
        let ghost m0 = self.tables@;
        let mut i: usize = 0;
        let len = orders.len();
        while i < len
            invariant
                0 <= i <= len,
                len == orders@.len(),
                self.tables@ == m0,
                self.order_counter == pre.order_counter,
                orders_model(orders@) == pre_orders,
                forall|j: int| 0 <= j < i ==> (#[trigger] pre_orders[j]).order_id != order_id,
            decreases len - i,
        {
            let oid_here = orders[i].order_id;
            proof {
                assert(orders@[i as int]@ == pre_orders[i as int]);
            }
            if oid_here == order_id {
                proof {
                    assert((pre_orders[i as int]).order_id == order_id);
                    assert(seq_has_order(pre_orders, order_id));
                    lemma_first_index(pre_orders, order_id, i as int);
                }
                let ghost before_vec = orders@;
                orders.remove(i);
                let ghost rest = pre_orders.remove(i as int);
                proof {
                    lemma_orders_model_remove(before_vec, i as int);
                    assert(orders_model(orders@) == rest);
                }
                if orders.len() == 0 {
                    proof {
                        lemma_tables_model_remove(pre_map, table);
                        assert(rest.len() == 0);
                        assert(tables_model(self.tables@) =~= pre.tables.remove(table));
                        assert(self@.tables == spec_remove(pre, table, order_id).tables);
                        assert(self@ == spec_remove(pre, table, order_id));
                        lemma_remove_preserves_inv(pre, table, order_id);
                    }
                    return None;
                }
                let ghost ov = orders;
                self.tables.insert(table, orders);
                proof {
                    assert(rest.len() > 0);
                    lemma_tables_model_remove(pre_map, table);
                    lemma_tables_model_insert(m0, table, ov);
                    assert(orders_model(ov@) == rest);
                    assert(tables_model(self.tables@) =~= pre.tables.insert(table, rest));
                    assert(self@ == spec_remove(pre, table, order_id));
                    lemma_remove_preserves_inv(pre, table, order_id);
                }
                return None;
            }
            i += 1;
        }
        let ghost ov = orders;
        self.tables.insert(table, orders);
        proof {
            lemma_tables_model_remove(pre_map, table);
            lemma_tables_model_insert(m0, table, ov);
            assert(orders_model(ov@) == pre_orders);
            assert(tables_model(self.tables@) =~= pre.tables.insert(table, pre_orders));
            assert(tables_model(self.tables@) =~= pre.tables);
            assert(self@ == pre);
            assert(!seq_has_order(pre_orders, order_id));
        }
        Some(make_not_found_msg(order_id, table))
    }
}

/// `tables_model` commutes with inserting a table's order vector.
proof fn lemma_tables_model_insert(m: Map<u64, Vec<Order>>, t: u64, v: Vec<Order>)
    ensures
        tables_model(m.insert(t, v)) =~= tables_model(m).insert(t, orders_model(v@)),
{
}

/// `tables_model` commutes with removing a table.
proof fn lemma_tables_model_remove(m: Map<u64, Vec<Order>>, t: u64)
    ensures
        tables_model(m.remove(t)) =~= tables_model(m).remove(t),
{
}

/// `orders_model` commutes with removing one order.
proof fn lemma_orders_model_remove(v: Seq<Order>, i: int)
    requires
        0 <= i < v.len(),
    ensures
        orders_model(v.remove(i)) =~= orders_model(v).remove(i),
{
    assert forall|j: int| 0 <= j < v.len() - 1 implies orders_model(v.remove(i))[j]
        == orders_model(v).remove(i)[j] by {
        if j < i {
            assert(v.remove(i)[j] == v[j]);
        } else {
            assert(v.remove(i)[j] == v[j + 1]);
        }
    }
}

/// When an order with id `oid` exists, `first_index` points at one.
pub proof fn lemma_first_index_found(orders: Seq<OrderModel>, oid: u64)
    requires
        seq_has_order(orders, oid),
    ensures
        0 <= first_index(orders, oid) < orders.len(),
        orders[first_index(orders, oid)].order_id == oid,
    decreases orders.len(),
{
    if orders[0].order_id != oid {
        let i = choose|i: int| 0 <= i < orders.len() && (#[trigger] orders[i]).order_id == oid;
        assert(orders.drop_first()[i - 1] == orders[i]);
        assert(seq_has_order(orders.drop_first(), oid));
        lemma_first_index_found(orders.drop_first(), oid);
        assert(orders[first_index(orders, oid)] == orders.drop_first()[first_index(
            orders.drop_first(),
            oid,
        )]);
    }
}

/// Adding items as `spec_adds` describes keeps the store invariant.
pub proof fn lemma_adds_preserves_inv(
    pre: StoreModel,
    post: StoreModel,
    t: u64,
    items: Seq<Seq<char>>,
)
    requires
        store_inv(pre),
        spec_adds(pre, post, t, items),
        pre.order_counter + items.len() <= u64::MAX,
    ensures
        store_inv(post),
{
    let pre_len = table_orders(pre, t).len() as int;
    assert(table_orders(pre, t).len() > 0 ==> pre.tables.contains_key(t));
    assert forall|t2: u64| #[trigger] post.tables.contains_key(t2) implies post.tables[t2].len()
        > 0 by {
        if t2 != t {
            assert(pre.tables.contains_key(t2));
            assert(post.tables[t2] == pre.tables[t2]);
        } else {
            assert(post.tables[t] == table_orders(post, t));
            if items.len() == 0 {
                assert(pre.tables.contains_key(t));
                assert(table_orders(pre, t) == pre.tables[t]);
            }
        }
    }
    assert forall|t2: u64, i: int|
        post.tables.contains_key(t2) && 0 <= i < post.tables[t2].len() implies (
    #[trigger] post.tables[t2][i]).order_id < post.order_counter by {
        lemma_adds_element(pre, post, t, items, t2, i);
    }
    assert forall|t1: u64, i1: int, t2: u64, i2: int|
        post.tables.contains_key(t1) && post.tables.contains_key(t2) && 0 <= i1 < post.tables[t1].len() && 0 <= i2 < post.tables[t2].len() && (t1 != t2 || i1 != i2) implies (
    #[trigger] post.tables[t1][i1]).order_id != (#[trigger] post.tables[t2][i2]).order_id by {
        lemma_adds_element(pre, post, t, items, t1, i1);
        lemma_adds_element(pre, post, t, items, t2, i2);
        if t1 == t && t2 == t && i1 >= pre_len && i2 >= pre_len {
            assert(post.tables[t1][i1].order_id == pre.order_counter + (i1 - pre_len));
        }
    }
}

/// Characterizes one order of the store after an add: it is either an old
/// order at its old position, or a fresh one.
proof fn lemma_adds_element(
    pre: StoreModel,
    post: StoreModel,
    t: u64,
    items: Seq<Seq<char>>,
    t2: u64,
    i: int,
)
    requires
        store_inv(pre),
        spec_adds(pre, post, t, items),
        post.tables.contains_key(t2),
        0 <= i < post.tables[t2].len(),
    ensures
        t2 != t || i < table_orders(pre, t).len() ==> {
            &&& pre.tables.contains_key(t2)
            &&& i < pre.tables[t2].len()
            &&& post.tables[t2][i] == pre.tables[t2][i]
            &&& post.tables[t2][i].order_id < pre.order_counter
        },
        t2 == t && i >= table_orders(pre, t).len() ==> {
            &&& post.tables[t2][i].order_id == pre.order_counter + (i - table_orders(pre, t).len())
            &&& i - table_orders(pre, t).len() < items.len()
        },
{
    let pre_len = table_orders(pre, t).len() as int;
    if t2 != t {
        assert(pre.tables.contains_key(t2));
        assert(post.tables[t2] == pre.tables[t2]);
    } else {
        assert(post.tables[t] == table_orders(post, t));
        assert(table_orders(post, t).len() == pre_len + items.len());
        if i < pre_len {
            assert(table_orders(post, t)[i] == table_orders(pre, t)[i]);
            assert(pre.tables.contains_key(t));
            assert(table_orders(pre, t) == pre.tables[t]);
        } else {
            let k = i - pre_len;
            assert(fresh_order(
                table_orders(post, t)[table_orders(pre, t).len() + k],
                pre.order_counter,
                k,
                items[k],
            ));
        }
    }
}

/// Removing an order as `spec_remove` describes keeps the store invariant.
pub proof fn lemma_remove_preserves_inv(pre: StoreModel, t: u64, oid: u64)
    requires
        store_inv(pre),
        has_order(pre, t, oid),
    ensures
        store_inv(spec_remove(pre, t, oid)),
{
    let orders = table_orders(pre, t);
    lemma_first_index_found(orders, oid);
    let fi = first_index(orders, oid);
    let rest = orders.remove(fi);
    let post = spec_remove(pre, t, oid);
    assert(pre.tables.contains_key(t));
    assert(orders == pre.tables[t]);
    assert forall|j: int| 0 <= j < rest.len() implies rest[j] == orders[
        if j < fi {
            j
        } else {
            j + 1
        }
    ] by {}
    assert forall|t2: u64| #[trigger] post.tables.contains_key(t2) implies post.tables[t2].len()
        > 0 by {
        if t2 != t {
            assert(post.tables[t2] == pre.tables[t2]);
        }
    }
    assert forall|t2: u64, i: int|
        post.tables.contains_key(t2) && 0 <= i < post.tables[t2].len() implies (
    #[trigger] post.tables[t2][i]).order_id < post.order_counter by {
        if t2 == t {
            assert(post.tables[t][i] == orders[
                if i < fi {
                    i
                } else {
                    i + 1
                }
            ]);
        }
    }
    assert forall|t1: u64, i1: int, t2: u64, i2: int|
        post.tables.contains_key(t1) && post.tables.contains_key(t2) && 0 <= i1 < post.tables[t1].len() && 0 <= i2 < post.tables[t2].len() && (t1 != t2 || i1 != i2) implies (
    #[trigger] post.tables[t1][i1]).order_id != (#[trigger] post.tables[t2][i2]).order_id by {
        let s1 = if t1 == t && i1 >= fi {
            i1 + 1
        } else {
            i1
        };
        let s2 = if t2 == t && i2 >= fi {
            i2 + 1
        } else {
            i2
        };
        if t1 == t {
            assert(post.tables[t1][i1] == pre.tables[t1][s1]);
        } else {
            assert(post.tables[t1][i1] == pre.tables[t1][s1]);
        }
        if t2 == t {
            assert(post.tables[t2][i2] == pre.tables[t2][s2]);
        } else {
            assert(post.tables[t2][i2] == pre.tables[t2][s2]);
        }
        assert(t1 != t2 || s1 != s2);
    }
}

/// `first_index` names the position of the first matching order.
pub proof fn lemma_first_index(orders: Seq<OrderModel>, oid: u64, i: int)
    requires
        0 <= i < orders.len(),
        orders[i].order_id == oid,
        forall|j: int| 0 <= j < i ==> (#[trigger] orders[j]).order_id != oid,
    ensures
        first_index(orders, oid) == i,
    decreases orders.len(),
{
    if i > 0 {
        assert(orders.drop_first()[i - 1] == orders[i]);
        assert(forall|j: int|
            0 <= j < i - 1 ==> (#[trigger] orders.drop_first()[j]).order_id != oid);
        lemma_first_index(orders.drop_first(), oid, i - 1);
    }
}

} // verus!
