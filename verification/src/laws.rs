//! Laws of the store and router, proved from the same predicates their
//! contracts use: freshness of ids after an add, non-reuse of ids, the
//! empty listing after a table's last order is removed, and the outcome
//! of any serialization of single-item adds.

use vstd::prelude::*;

use crate::router::{lookup_param, resp, spec_get_items};
use crate::shared_data::{
    spec_adds, spec_remove, store_inv, table_orders, StoreModel,
};
use crate::text::{dec_seq, lemma_parse_dec_roundtrip, spec_parse_u64};

verus! {

/// Adding `n` items to a previously empty table produces exactly `n`
/// orders whose ids are the contiguous increasing range that starts at
/// the counter value before the add.
pub proof fn lemma_add_to_empty_table_ids(
    pre: StoreModel,
    post: StoreModel,
    t: u64,
    items: Seq<Seq<char>>,
)
    requires
        spec_adds(pre, post, t, items),
        !pre.tables.contains_key(t),
    ensures
        table_orders(post, t).len() == items.len(),
        forall|k: int|
            0 <= k < items.len() ==> (#[trigger] table_orders(post, t)[k]).order_id
                == pre.order_counter + k,
{
    assert(table_orders(pre, t).len() == 0);
    assert forall|k: int| 0 <= k < items.len() implies (#[trigger] table_orders(post, t)[
        k]).order_id == pre.order_counter + k by {
        assert(crate::shared_data::fresh_order(
            table_orders(post, t)[table_orders(pre, t).len() + k],
            pre.order_counter,
            k,
            items[k],
        ));
    }
}

/// Ids are never reused. Every id ever issued before a state with
/// invariant lies below its counter, every order still stored does too,
/// and an add assigns only ids at or above the counter: so an id
/// assigned by an add differs from every id issued earlier, also from
/// ids whose orders have since been removed.
pub proof fn lemma_ids_never_reused(
    pre: StoreModel,
    post: StoreModel,
    t: u64,
    items: Seq<Seq<char>>,
    k: int,
)
    requires
        store_inv(pre),
        spec_adds(pre, post, t, items),
        0 <= k < items.len(),
    ensures
        table_orders(post, t)[table_orders(pre, t).len() + k].order_id >= pre.order_counter,
        forall|t2: u64, i: int|
            pre.tables.contains_key(t2) && 0 <= i < pre.tables[t2].len() ==> (
            #[trigger] pre.tables[t2][i]).order_id != table_orders(post, t)[table_orders(
                pre,
                t,
            ).len() + k].order_id,
{
    assert(crate::shared_data::fresh_order(
        table_orders(post, t)[table_orders(pre, t).len() + k],
        pre.order_counter,
        k,
        items[k],
    ));
}

/// Removing a table's last order drops the table from the mapping, and a
/// subsequent `GET /items` for that table answers 200 with the empty
/// JSON array.
pub proof fn lemma_remove_last_then_get_empty(
    s: StoreModel,
    t: u64,
    oid: u64,
    ps: Seq<(Seq<char>, Seq<char>)>,
)
    requires
        store_inv(s),
        s.tables.contains_key(t),
        s.tables[t].len() == 1,
        s.tables[t][0].order_id == oid,
        lookup_param(ps, "table"@) == Some(dec_seq(t as nat)),
        lookup_param(ps, "order_id"@) is None,
    ensures
        !spec_remove(s, t, oid).tables.contains_key(t),
        spec_get_items(spec_remove(s, t, oid), ps) == resp(200, "[]"@),
{
    let orders = table_orders(s, t);
    assert(crate::shared_data::first_index(orders, oid) == 0);
    assert(orders.remove(0).len() == 0);
    let post = spec_remove(s, t, oid);
    assert(!post.tables.contains_key(t));
    lemma_parse_dec_roundtrip(t);
    assert(spec_parse_u64(dec_seq(t as nat)) == Some(t));
    assert(table_orders(post, t) =~= Seq::<crate::shared_data::OrderModel>::empty());
    reveal_strlit("[");
    reveal_strlit("]");
    reveal_strlit("[]");
    assert(crate::json::json_orders(table_orders(post, t)) =~= "[]"@);
}

/// One link of a chain of single-item adds: after `i` of them the
/// counter stands exactly `i` above where it started.
proof fn lemma_adds_chain_counter(
    states: Seq<StoreModel>,
    tables: Seq<u64>,
    names: Seq<Seq<char>>,
    i: int,
)
    requires
        states.len() == tables.len() + 1,
        names.len() == tables.len(),
        forall|j: int|
            0 <= j < tables.len() ==> spec_adds(
                #[trigger] states[j],
                states[j + 1],
                tables[j],
                seq![names[j]],
            ),
        0 <= i < states.len(),
    ensures
        states[i].order_counter == states[0].order_counter + i,
    decreases i,
{
    if i > 0 {
        lemma_adds_chain_counter(states, tables, names, i - 1);
        assert(spec_adds(states[i - 1], states[i], tables[i - 1], seq![names[i - 1]]));
        assert(seq![names[i - 1]].len() == 1);
    }
}

/// Any serialization of `n` single-item adds — whatever tables they hit
/// and in whatever order they are interleaved — assigns exactly the ids
/// `c0, c0 + 1, ..., c0 + n - 1` with no gaps and no duplicates, for
/// `c0` the counter before the first add, and leaves the counter at
/// `c0 + n`: the add at position `i` of the serialization appends an
/// order with id `c0 + i`.
pub proof fn lemma_serialized_adds(states: Seq<StoreModel>, tables: Seq<u64>, names: Seq<Seq<char>>)
    requires
        states.len() == tables.len() + 1,
        names.len() == tables.len(),
        forall|j: int|
            0 <= j < tables.len() ==> spec_adds(
                #[trigger] states[j],
                states[j + 1],
                tables[j],
                seq![names[j]],
            ),
    ensures
        states.last().order_counter == states[0].order_counter + tables.len(),
        forall|i: int|
            0 <= i < tables.len() ==> (#[trigger] table_orders(states[i + 1], tables[i]).last()).order_id
                == states[0].order_counter + i,
{
    lemma_adds_chain_counter(states, tables, names, states.len() - 1);
    assert forall|i: int| 0 <= i < tables.len() implies (#[trigger] table_orders(
        states[i + 1],
        tables[i],
    ).last()).order_id == states[0].order_counter + i by {
        lemma_adds_chain_counter(states, tables, names, i);
        assert(spec_adds(states[i], states[i + 1], tables[i], seq![names[i]]));
        let pre_len = table_orders(states[i], tables[i]).len();
        assert(seq![names[i]].len() == 1);
        assert(table_orders(states[i + 1], tables[i]).len() == pre_len + 1);
        assert(crate::shared_data::fresh_order(
            table_orders(states[i + 1], tables[i])[pre_len as int + 0],
            states[i].order_counter,
            0,
            seq![names[i]][0],
        ));
    }
}

} // verus!
