//! The result of the join over its two inputs, and how what the join emits
//! leads from the result before a change of an input to the result after
//! it.
//!
//! An input is a relation whose records are told apart by their primary
//! keys. The result holds, for every record of the left input and every
//! record of the right input with the same join key, the joined record,
//! under the two primary keys.

use vstd::prelude::*;
use crate::codec::{
    be_bytes,
    encodable,
    encode_field,
    encode_values,
    lemma_be_bytes_len,
    lemma_be_value_of_bytes,
    lemma_decode_encode_values,
    lemma_pow256_values,
    pow256,
};
use crate::errors::PortHandle;
use crate::product::join::{
    after_join,
    index_key,
    join_outcome,
    joined_record,
    joined_values,
    joined_with,
    projection,
    store_key,
    JoinAction,
    JoinFailure,
    JoinSourceValue,
    JoinTableValue,
    JoinedValue,
};
use crate::storage::{insert_sorted, remove_value, table_get_all, Database, TableValue, Values};
use crate::types::{FieldValue, RecordValue};

verus! {

/// The records of an input, by their primary keys.
pub type Keyed = Map<Seq<u8>, Seq<FieldValue>>;

/// The key that the given columns of a record make.
pub open spec fn key_of(values: Seq<FieldValue>, columns: Seq<usize>) -> Seq<u8> {
    projection(values, columns, columns.len())->Ok_0
}

/// Whether a record of an input has the primary key, has a join key, and
/// can be stored.
pub open spec fn well_keyed(t: JoinTableValue, pk: Seq<u8>, values: Seq<FieldValue>) -> bool {
    &&& projection(values, t.primary_key, t.primary_key.len()) == Ok::<Seq<u8>, JoinFailure>(pk)
    &&& projection(values, t.join_key, t.join_key.len()) is Ok
    &&& forall|i: int|
        0 <= i < values.len() ==> encodable(#[trigger] values[i]) && encode_field(values[i]).len()
            < pow256(8)
}

/// Whether the index of an input holds, for a join key, the primary keys of
/// the records of the relation with that join key, each once.
pub open spec fn index_holds(t: JoinTableValue, list: Values, rel: Keyed, jk: Seq<u8>) -> bool {
    &&& list.no_duplicates()
    &&& forall|pk: Seq<u8>|
        #![trigger list.contains(pk)]
        #![trigger rel[pk]]
        list.contains(pk) <==> (rel.contains_key(pk) && key_of(rel[pk], t.join_key) == jk)
}

/// Whether the index and the store of an input hold the relation.
pub open spec fn input_stored(t: JoinTableValue, table: TableValue, rel: Keyed) -> bool {
    &&& forall|pk: Seq<u8>|
        #[trigger] table_get_all(table, store_key(t.port, pk)) == if rel.contains_key(pk) {
            seq![encode_values(rel[pk])]
        } else {
            Seq::empty()
        }
    &&& forall|jk: Seq<u8>|
        index_holds(t, #[trigger] table_get_all(table, index_key(t.port, jk)), rel, jk)
    &&& forall|pk: Seq<u8>| rel.contains_key(pk) ==> well_keyed(t, pk, #[trigger] rel[pk])
}

/// The keys of the index and of the store tell the port and the key
/// apart, and no key of an index is a key of a store.
pub proof fn lemma_join_keys_apart(p: PortHandle, a: Seq<u8>, q: PortHandle, b: Seq<u8>)
    ensures
        index_key(p, a) != store_key(q, b),
        index_key(p, a) == index_key(q, b) ==> p == q && a == b,
        store_key(p, a) == store_key(q, b) ==> p == q && a == b,
{
    lemma_pow256_values();
    lemma_be_bytes_len(p as nat, 2);
    lemma_be_bytes_len(q as nat, 2);
    lemma_be_value_of_bytes(p as nat, 2);
    lemma_be_value_of_bytes(q as nat, 2);
    let ia = index_key(p, a);
    let ib = index_key(q, b);
    let sa = store_key(p, a);
    let sb = store_key(q, b);
    assert(ia[2] == 0u8 && sb[2] == 1u8);
    if ia == ib {
        assert(ia.subrange(0, 2) =~= be_bytes(p as nat, 2));
        assert(ib.subrange(0, 2) =~= be_bytes(q as nat, 2));
        assert(ia.subrange(3, ia.len() as int) =~= a);
        assert(ib.subrange(3, ib.len() as int) =~= b);
    }
    if sa == sb {
        assert(sa.subrange(0, 2) =~= be_bytes(p as nat, 2));
        assert(sb.subrange(0, 2) =~= be_bytes(q as nat, 2));
        assert(sa.subrange(3, sa.len() as int) =~= a);
        assert(sb.subrange(3, sb.len() as int) =~= b);
    }
}

/// A value that is put among values that do not hold it is there
/// afterwards, with all that were there, and each once if each was there
/// once.
pub proof fn lemma_insert_sorted(list: Values, v: Seq<u8>)
    requires
        !list.contains(v),
    ensures
        forall|x: Seq<u8>| #[trigger] insert_sorted(list, v).contains(x) <==> list.contains(x) || x == v,
        list.no_duplicates() ==> insert_sorted(list, v).no_duplicates(),
        insert_sorted(list, v).len() == list.len() + 1,
    decreases list.len(),
{
    let res = insert_sorted(list, v);
    if list.len() == 0 {
        assert(res =~= seq![v]);
        assert forall|x: Seq<u8>| #[trigger] res.contains(x) <==> list.contains(x) || x == v by {
            if x == v {
                assert(res[0] == x);
            }
        }
    } else {
        let order = crate::expression::comparison::lexicographic_order(list[0], v);
        crate::storage::lemma_order_zero_is_equal(list[0], v);
        assert(list[0] != v) by {
            assert(list.contains(list[0]));
        }
        if order > 0 {
            assert(res =~= seq![v] + list);
            assert forall|x: Seq<u8>| #[trigger] res.contains(x) <==> list.contains(x) || x == v by {
                if x == v {
                    assert(res[0] == x);
                }
                if list.contains(x) {
                    let i = choose|i: int| 0 <= i < list.len() && list[i] == x;
                    assert(res[i + 1] == x);
                }
                if res.contains(x) {
                    let i = choose|i: int| 0 <= i < res.len() && res[i] == x;
                    if i > 0 {
                        assert(list[i - 1] == x);
                    }
                }
            }
            if list.no_duplicates() {
                assert forall|i: int, k: int| 0 <= i < res.len() && 0 <= k < res.len() && i != k
                    implies res[i] != res[k] by {
                    if i > 0 && k > 0 {
                        assert(list[i - 1] != list[k - 1]);
                    } else if i == 0 {
                        assert(list.contains(list[k - 1]));
                    } else {
                        assert(list.contains(list[i - 1]));
                    }
                }
            }
        } else {
            let tail = list.drop_first();
            assert(!tail.contains(v)) by {
                if tail.contains(v) {
                    let i = choose|i: int| 0 <= i < tail.len() && tail[i] == v;
                    assert(list[i + 1] == v);
                }
            }
            lemma_insert_sorted(tail, v);
            let inner = insert_sorted(tail, v);
            assert(res =~= seq![list[0]] + inner);
            assert forall|x: Seq<u8>| #[trigger] res.contains(x) <==> list.contains(x) || x == v by {
                if res.contains(x) {
                    let i = choose|i: int| 0 <= i < res.len() && res[i] == x;
                    if i > 0 {
                        assert(inner[i - 1] == x);
                        assert(inner.contains(x));
                        if tail.contains(x) {
                            let k = choose|k: int| 0 <= k < tail.len() && tail[k] == x;
                            assert(list[k + 1] == x);
                        }
                    } else {
                        assert(list[0] == x);
                    }
                }
                if list.contains(x) {
                    let i = choose|i: int| 0 <= i < list.len() && list[i] == x;
                    if i == 0 {
                        assert(res[0] == x);
                    } else {
                        assert(tail[i - 1] == x);
                        assert(inner.contains(x));
                        let k = choose|k: int| 0 <= k < inner.len() && inner[k] == x;
                        assert(res[k + 1] == x);
                    }
                }
                if x == v {
                    assert(inner.contains(x));
                    let k = choose|k: int| 0 <= k < inner.len() && inner[k] == x;
                    assert(res[k + 1] == x);
                }
            }
            if list.no_duplicates() {
                assert(tail.no_duplicates()) by {
                    assert forall|i: int, k: int|
                        0 <= i < tail.len() && 0 <= k < tail.len() && i != k implies tail[i]
                        != tail[k] by {
                        assert(list[i + 1] != list[k + 1]);
                    }
                }
                assert forall|i: int, k: int| 0 <= i < res.len() && 0 <= k < res.len() && i != k
                    implies res[i] != res[k] by {
                    if i > 0 && k > 0 {
                        assert(inner[i - 1] != inner[k - 1]);
                    } else {
                        let other = if i == 0 {
                            k
                        } else {
                            i
                        };
                        assert(inner.contains(inner[other - 1]));
                        if inner[other - 1] == list[0] {
                            assert(tail.contains(list[0]));
                            let w = choose|w: int| 0 <= w < tail.len() && tail[w] == list[0];
                            assert(list[w + 1] == list[0]);
                        }
                    }
                }
            }
        }
    }
}

/// A value that is taken from values that hold each value once is not
/// there afterwards, and all others are.
pub proof fn lemma_remove_value(list: Values, v: Seq<u8>)
    requires
        list.no_duplicates(),
    ensures
        forall|x: Seq<u8>| #[trigger] remove_value(list, v).contains(x) <==> list.contains(x) && x != v,
        remove_value(list, v).no_duplicates(),
    decreases list.len(),
{
    let res = remove_value(list, v);
    if list.len() == 0 {
    } else {
        let tail = list.drop_first();
        assert(tail.no_duplicates()) by {
            assert forall|i: int, k: int|
                0 <= i < tail.len() && 0 <= k < tail.len() && i != k implies tail[i] != tail[k] by {
                assert(list[i + 1] != list[k + 1]);
            }
        }
        assert forall|x: Seq<u8>| tail.contains(x) <==> list.contains(x) && x != list[0] by {
            if tail.contains(x) {
                let i = choose|i: int| 0 <= i < tail.len() && tail[i] == x;
                assert(list[i + 1] == x);
            }
            if list.contains(x) && x != list[0] {
                let i = choose|i: int| 0 <= i < list.len() && list[i] == x;
                assert(tail[i - 1] == x);
            }
        }
        if list[0] == v {
            assert(res == tail);
        } else {
            lemma_remove_value(tail, v);
            let inner = remove_value(tail, v);
            assert(res =~= seq![list[0]] + inner);
            assert forall|x: Seq<u8>| #[trigger] res.contains(x) <==> list.contains(x) && x != v by {
                if res.contains(x) {
                    let i = choose|i: int| 0 <= i < res.len() && res[i] == x;
                    if i > 0 {
                        assert(inner[i - 1] == x);
                        assert(inner.contains(x));
                    } else {
                        assert(list[0] == x);
                        assert(list.contains(x));
                    }
                }
                if list.contains(x) && x != v {
                    if x == list[0] {
                        assert(res[0] == x);
                    } else {
                        assert(tail.contains(x));
                        assert(inner.contains(x));
                        let k = choose|k: int| 0 <= k < inner.len() && inner[k] == x;
                        assert(res[k + 1] == x);
                    }
                }
            }
            assert forall|i: int, k: int| 0 <= i < res.len() && 0 <= k < res.len() && i != k
                implies res[i] != res[k] by {
                if i > 0 && k > 0 {
                    assert(inner[i - 1] != inner[k - 1]);
                } else {
                    let other = if i == 0 {
                        k
                    } else {
                        i
                    };
                    assert(inner.contains(inner[other - 1]));
                }
            }
        }
    }
}

/// The rows that a record gives with the records of the other input that
/// the index names: every joined record, with the action and the join key.
pub open spec fn joined_rows(
    j: JoinSourceValue,
    from_left: bool,
    action: JoinAction,
    values: Seq<FieldValue>,
    join_key: Seq<u8>,
    peers: Values,
    peer: Keyed,
) -> Seq<JoinedValue> {
    Seq::new(
        peers.len(),
        |i: int|
            (
                action,
                joined_record(
                    if from_left {
                        joined_values(values, peer[peers[i]], j.right.join_key)
                    } else {
                        joined_values(peer[peers[i]], values, j.right.join_key)
                    },
                ),
                join_key,
            ),
    )
}

/// The input of the join on the side that a change comes from.
pub open spec fn own_input(j: JoinSourceValue, from_left: bool) -> JoinTableValue {
    if from_left {
        j.left
    } else {
        j.right
    }
}

/// The input of the join on the other side.
pub open spec fn peer_input(j: JoinSourceValue, from_left: bool) -> JoinTableValue {
    if from_left {
        j.right
    } else {
        j.left
    }
}

/// Where the store of the other input holds its relation, a record is
/// joined with the records that the index names, as they are in the
/// relation.
pub proof fn lemma_joined_with_stored(
    j: JoinSourceValue,
    from_left: bool,
    action: JoinAction,
    values: Seq<FieldValue>,
    join_key: Seq<u8>,
    peers: Values,
    table: TableValue,
    peer: Keyed,
    n: nat,
)
    requires
        n <= peers.len(),
        input_stored(peer_input(j, from_left), table, peer),
        forall|i: int| 0 <= i < peers.len() ==> peer.contains_key(#[trigger] peers[i]),
    ensures
        joined_with(j, from_left, action, values, join_key, peers, table, n) == Ok::<
            Seq<JoinedValue>,
            JoinFailure,
        >(joined_rows(j, from_left, action, values, join_key, peers, peer).take(n as int)),
    decreases n,
{
    let rows = joined_rows(j, from_left, action, values, join_key, peers, peer);
    if n == 0 {
        assert(rows.take(0) =~= Seq::<JoinedValue>::empty());
    } else {
        let k = (n - 1) as nat;
        lemma_joined_with_stored(j, from_left, action, values, join_key, peers, table, peer, k);
        let t = peer_input(j, from_left);
        let pk = peers[k as int];
        assert(peer.contains_key(pk));
        assert(table_get_all(table, store_key(t.port, pk)) == seq![encode_values(peer[pk])]);
        assert(well_keyed(t, pk, peer[pk]));
        lemma_decode_encode_values(peer[pk]);
        assert(rows.take(n as int) =~= rows.take(k as int).push(rows[k as int]));
    }
}

/// What is under a key after a value was put under a key of a database
/// that sorts duplicates.
proof fn lemma_put_get_all(t: TableValue, key: Seq<u8>, value: Seq<u8>, other: Seq<u8>)
    requires
        t.dup_sort,
    ensures
        table_get_all(crate::storage::table_put(t, key, value), other) == if other == key {
            insert_sorted(table_get_all(t, key), value)
        } else {
            table_get_all(t, other)
        },
        crate::storage::table_put(t, key, value).dup_sort,
{
}

/// What is under a key after a deletion in a database that sorts
/// duplicates.
proof fn lemma_del_get_all(t: TableValue, key: Seq<u8>, value: Option<Seq<u8>>, other: Seq<u8>)
    requires
        t.dup_sort,
    ensures
        table_get_all(crate::storage::table_del(t, key, value), other) == if other == key {
            match value {
                Some(v) => remove_value(table_get_all(t, key), v),
                None => Seq::empty(),
            }
        } else {
            table_get_all(t, other)
        },
        crate::storage::table_del(t, key, value).dup_sort,
{
    let rest = crate::storage::values_after_delete(t, key, value);
    if rest.len() == 0 {
        assert(rest =~= Seq::<Seq<u8>>::empty());
    }
}

/// The relation of an input after a record has come or gone.
pub open spec fn keyed_after_join(
    rel: Keyed,
    action: JoinAction,
    pk: Seq<u8>,
    values: Seq<FieldValue>,
) -> Keyed {
    match action {
        JoinAction::Insert => rel.insert(pk, values),
        JoinAction::Delete => rel.remove(pk),
    }
}

/// The database of the join after the index and the store of an input have
/// taken a record in or let it go.
pub open spec fn table_after_join(
    table: TableValue,
    action: JoinAction,
    port: PortHandle,
    jk: Seq<u8>,
    pk: Seq<u8>,
    values: Seq<FieldValue>,
) -> TableValue {
    match action {
        JoinAction::Insert => crate::storage::table_put(
            crate::storage::table_put(table, index_key(port, jk), pk),
            store_key(port, pk),
            encode_values(values),
        ),
        JoinAction::Delete => crate::storage::table_del(
            crate::storage::table_del(table, index_key(port, jk), Some(pk)),
            store_key(port, pk),
            None,
        ),
    }
}

/// What is under the keys of the database after a record has come or
/// gone: the index of the record's join key and the store of its primary
/// key have changed, on the record's own side, and nothing else has.
proof fn lemma_table_after_join(
    table: TableValue,
    action: JoinAction,
    port: PortHandle,
    jk: Seq<u8>,
    pk: Seq<u8>,
    values: Seq<FieldValue>,
    q: PortHandle,
    key: Seq<u8>,
)
    requires
        table.dup_sort,
    ensures
        table_after_join(table, action, port, jk, pk, values).dup_sort,
        table_get_all(table_after_join(table, action, port, jk, pk, values), index_key(q, key))
            == if q == port && key == jk {
            match action {
                JoinAction::Insert => insert_sorted(table_get_all(table, index_key(port, jk)), pk),
                JoinAction::Delete => remove_value(table_get_all(table, index_key(port, jk)), pk),
            }
        } else {
            table_get_all(table, index_key(q, key))
        },
        table_get_all(table_after_join(table, action, port, jk, pk, values), store_key(q, key))
            == if q == port && key == pk {
            match action {
                JoinAction::Insert => insert_sorted(
                    table_get_all(table, store_key(port, pk)),
                    encode_values(values),
                ),
                JoinAction::Delete => Seq::empty(),
            }
        } else {
            table_get_all(table, store_key(q, key))
        },
{
    lemma_join_keys_apart(port, jk, port, pk);
    lemma_join_keys_apart(q, key, port, pk);
    lemma_join_keys_apart(port, jk, q, key);
    lemma_join_keys_apart(port, pk, q, key);
    lemma_join_keys_apart(q, key, port, jk);
    match action {
        JoinAction::Insert => {
            let first = crate::storage::table_put(table, index_key(port, jk), pk);
            lemma_put_get_all(table, index_key(port, jk), pk, index_key(q, key));
            lemma_put_get_all(table, index_key(port, jk), pk, store_key(q, key));
            lemma_put_get_all(table, index_key(port, jk), pk, store_key(port, pk));
            lemma_put_get_all(first, store_key(port, pk), encode_values(values), index_key(q, key));
            lemma_put_get_all(first, store_key(port, pk), encode_values(values), store_key(q, key));
        },
        JoinAction::Delete => {
            let first = crate::storage::table_del(table, index_key(port, jk), Some(pk));
            lemma_del_get_all(table, index_key(port, jk), Some(pk), index_key(q, key));
            lemma_del_get_all(table, index_key(port, jk), Some(pk), store_key(q, key));
            lemma_del_get_all(first, store_key(port, pk), None, index_key(q, key));
            lemma_del_get_all(first, store_key(port, pk), None, store_key(q, key));
        },
    }
}

/// The index and the store of the side of a record hold the relation of
/// that side after the record has come or gone.
proof fn lemma_own_input_stored(
    t: JoinTableValue,
    table: TableValue,
    rel: Keyed,
    action: JoinAction,
    values: Seq<FieldValue>,
)
    requires
        table.dup_sort,
        input_stored(t, table, rel),
        well_keyed(t, key_of(values, t.primary_key), values),
        action == JoinAction::Insert ==> !rel.contains_key(key_of(values, t.primary_key)),
        action == JoinAction::Delete ==> rel.contains_key(key_of(values, t.primary_key))
            && rel[key_of(values, t.primary_key)] == values,
    ensures
        input_stored(
            t,
            table_after_join(
                table,
                action,
                t.port,
                key_of(values, t.join_key),
                key_of(values, t.primary_key),
                values,
            ),
            keyed_after_join(rel, action, key_of(values, t.primary_key), values),
        ),
{
    let pk = key_of(values, t.primary_key);
    let jk = key_of(values, t.join_key);
    let after = table_after_join(table, action, t.port, jk, pk, values);
    let moved = keyed_after_join(rel, action, pk, values);
    let list = table_get_all(table, index_key(t.port, jk));
    assert(index_holds(t, list, rel, jk));
    assert(table_get_all(table, store_key(t.port, pk)) == if rel.contains_key(pk) {
        seq![encode_values(rel[pk])]
    } else {
        Seq::empty()
    });
    match action {
        JoinAction::Insert => {
            assert(!list.contains(pk));
            lemma_insert_sorted(list, pk);
            assert(insert_sorted(Seq::empty(), encode_values(values)) =~= seq![
                encode_values(values),
            ]);
        },
        JoinAction::Delete => {
            lemma_remove_value(list, pk);
        },
    }
    assert forall|x: Seq<u8>| #[trigger]
        table_get_all(after, store_key(t.port, x)) == if moved.contains_key(x) {
            seq![encode_values(moved[x])]
        } else {
            Seq::empty()
        } by {
        lemma_table_after_join(table, action, t.port, jk, pk, values, t.port, x);
        assert(table_get_all(table, store_key(t.port, x)) == if rel.contains_key(x) {
            seq![encode_values(rel[x])]
        } else {
            Seq::empty()
        });
    }
    assert forall|y: Seq<u8>|
        index_holds(t, #[trigger] table_get_all(after, index_key(t.port, y)), moved, y) by {
        lemma_table_after_join(table, action, t.port, jk, pk, values, t.port, y);
        let before = table_get_all(table, index_key(t.port, y));
        let now = table_get_all(after, index_key(t.port, y));
        assert(index_holds(t, before, rel, y));
        assert forall|x: Seq<u8>|
            #![trigger now.contains(x)]
            #![trigger moved[x]]
            now.contains(x) <==> (moved.contains_key(x) && key_of(moved[x], t.join_key) == y) by {
            assert(before.contains(x) <==> (rel.contains_key(x) && key_of(rel[x], t.join_key)
                == y));
            if y == jk {
                match action {
                    JoinAction::Insert => {
                        assert(now.contains(x) <==> before.contains(x) || x == pk);
                    },
                    JoinAction::Delete => {
                        assert(now.contains(x) <==> before.contains(x) && x != pk);
                    },
                }
            }
        }
    }
    assert forall|x: Seq<u8>| moved.contains_key(x) implies well_keyed(t, x, #[trigger] moved[x]) by {
        if x != pk {
            assert(rel.contains_key(x));
            assert(well_keyed(t, x, rel[x]));
        }
    }
}

/// The index and the store of the other side hold the relation of that
/// side as before.
proof fn lemma_peer_input_stored(
    own: JoinTableValue,
    peer: JoinTableValue,
    table: TableValue,
    rel: Keyed,
    action: JoinAction,
    jk: Seq<u8>,
    pk: Seq<u8>,
    values: Seq<FieldValue>,
)
    requires
        table.dup_sort,
        own.port != peer.port,
        input_stored(peer, table, rel),
    ensures
        input_stored(peer, table_after_join(table, action, own.port, jk, pk, values), rel),
{
    let after = table_after_join(table, action, own.port, jk, pk, values);
    assert forall|x: Seq<u8>| #[trigger]
        table_get_all(after, store_key(peer.port, x)) == if rel.contains_key(x) {
            seq![encode_values(rel[x])]
        } else {
            Seq::empty()
        } by {
        lemma_table_after_join(table, action, own.port, jk, pk, values, peer.port, x);
        assert(table_get_all(table, store_key(peer.port, x)) == if rel.contains_key(x) {
            seq![encode_values(rel[x])]
        } else {
            Seq::empty()
        });
    }
    assert forall|y: Seq<u8>|
        index_holds(peer, #[trigger] table_get_all(after, index_key(peer.port, y)), rel, y) by {
        lemma_table_after_join(table, action, own.port, jk, pk, values, peer.port, y);
        assert(index_holds(peer, table_get_all(table, index_key(peer.port, y)), rel, y));
    }
}

/// What the join gives for a record that comes or goes, where the index
/// and the store of both inputs hold the relations of the inputs: the
/// record joined with every record of the other input that has its join
/// key; and the indexes and stores hold the relations after the change.
///
/// A record that comes must have a primary key that no record of its
/// input has, and a record that goes must be in its input.
pub proof fn lemma_join_outcome(
    j: JoinSourceValue,
    action: JoinAction,
    from_left: bool,
    record: RecordValue,
    db: Database,
    tables: Seq<TableValue>,
    own: Keyed,
    peer: Keyed,
)
    requires
        db.id < tables.len(),
        tables[db.id as int].dup_sort,
        j.left.port != j.right.port,
        input_stored(own_input(j, from_left), tables[db.id as int], own),
        input_stored(peer_input(j, from_left), tables[db.id as int], peer),
        well_keyed(
            own_input(j, from_left),
            key_of(record.values, own_input(j, from_left).primary_key),
            record.values,
        ),
        action == JoinAction::Insert ==> !own.contains_key(
            key_of(record.values, own_input(j, from_left).primary_key),
        ),
        action == JoinAction::Delete ==> own.contains_key(
            key_of(record.values, own_input(j, from_left).primary_key),
        ) && own[key_of(record.values, own_input(j, from_left).primary_key)] == record.values,
    ensures
        ({
            let t = own_input(j, from_left);
            let other = peer_input(j, from_left);
            let pk = key_of(record.values, t.primary_key);
            let jk = key_of(record.values, t.join_key);
            let peers = table_get_all(tables[db.id as int], index_key(other.port, jk));
            let outcome = join_outcome(j, action, t.port, record, db, tables);
            &&& outcome is Ok
            &&& outcome->Ok_0.0 == joined_rows(j, from_left, action, record.values, jk, peers, peer)
            &&& index_holds(other, peers, peer, jk)
            &&& outcome->Ok_0.1.len() == tables.len()
            &&& outcome->Ok_0.1[db.id as int].dup_sort
            &&& input_stored(
                t,
                outcome->Ok_0.1[db.id as int],
                keyed_after_join(own, action, pk, record.values),
            )
            &&& input_stored(other, outcome->Ok_0.1[db.id as int], peer)
        }),
{
    let t = own_input(j, from_left);
    let other = peer_input(j, from_left);
    let table = tables[db.id as int];
    let pk = key_of(record.values, t.primary_key);
    let jk = key_of(record.values, t.join_key);
    let peers = table_get_all(table, index_key(other.port, jk));
    assert(index_holds(other, peers, peer, jk));
    assert forall|i: int| 0 <= i < peers.len() implies peer.contains_key(#[trigger] peers[i]) by {
        assert(peers.contains(peers[i]));
    }
    lemma_joined_with_stored(j, from_left, action, record.values, jk, peers, table, peer, peers.len());
    assert(joined_rows(j, from_left, action, record.values, jk, peers, peer).take(
        peers.len() as int,
    ) =~= joined_rows(j, from_left, action, record.values, jk, peers, peer));
    lemma_own_input_stored(t, table, own, action, record.values);
    lemma_peer_input_stored(t, other, table, peer, action, jk, pk, record.values);
    let after = after_join(tables, db, action, t.port, jk, pk, record.values);
    assert(after[db.id as int] == table_after_join(table, action, t.port, jk, pk, record.values));
    lemma_table_after_join(table, action, t.port, jk, pk, record.values, t.port, jk);
}

/// The primary keys of a record of the left input and of a record of the
/// right input.
pub type PairKey = (Seq<u8>, Seq<u8>);

/// The result of the join over its inputs: for every record of the left
/// input and every record of the right input with the same join key, the
/// joined record, under their primary keys.
pub open spec fn join_result(j: JoinSourceValue, left: Keyed, right: Keyed) -> Map<
    PairKey,
    RecordValue,
> {
    Map::new(
        |k: PairKey|
            left.contains_key(k.0) && right.contains_key(k.1) && key_of(left[k.0], j.left.join_key)
                == key_of(right[k.1], j.right.join_key),
        |k: PairKey| joined_record(joined_values(left[k.0], right[k.1], j.right.join_key)),
    )
}

/// The key of the row that a record gives with a record of the other
/// input.
pub open spec fn pair_key(from_left: bool, pk: Seq<u8>, other: Seq<u8>) -> PairKey {
    if from_left {
        (pk, other)
    } else {
        (other, pk)
    }
}

/// The keys of the rows that a record gives with the records of the other
/// input that the index names.
pub open spec fn pair_keys(from_left: bool, pk: Seq<u8>, peers: Values) -> Seq<PairKey> {
    Seq::new(peers.len(), |i: int| pair_key(from_left, pk, peers[i]))
}

/// The left input, of the input of a change and the other.
pub open spec fn left_of(from_left: bool, own: Keyed, peer: Keyed) -> Keyed {
    if from_left {
        own
    } else {
        peer
    }
}

/// The right input, of the input of a change and the other.
pub open spec fn right_of(from_left: bool, own: Keyed, peer: Keyed) -> Keyed {
    if from_left {
        peer
    } else {
        own
    }
}

/// The changes of the output that joined records stand for.
pub open spec fn join_changes(rows: Seq<JoinedValue>) -> Seq<crate::types::OperationValue> {
    crate::product::processor::joined_operations(rows)
}

/// Whether a key is that of a row of the record with one of the first `n`
/// records of the other input.
pub open spec fn touched(from_left: bool, pk: Seq<u8>, peers: Values, n: nat, k: PairKey) -> bool {
    exists|i: int| 0 <= i < n && #[trigger] pair_key(from_left, pk, peers[i]) == k
}

/// The result after the first `n` changes that a record gives: the rows of
/// the record with the first `n` records of the other input have come, or
/// gone, and every other row is as it was.
pub open spec fn changed_so_far(
    j: JoinSourceValue,
    action: JoinAction,
    from_left: bool,
    values: Seq<FieldValue>,
    own: Keyed,
    peer: Keyed,
    peers: Values,
    n: nat,
) -> Map<PairKey, RecordValue> {
    let t = own_input(j, from_left);
    let pk = key_of(values, t.primary_key);
    let before = join_result(j, left_of(from_left, own, peer), right_of(from_left, own, peer));
    let moved = keyed_after_join(own, action, pk, values);
    let after = join_result(j, left_of(from_left, moved, peer), right_of(from_left, moved, peer));
    match action {
        JoinAction::Insert => Map::new(
            |k: PairKey| before.dom().contains(k) || touched(from_left, pk, peers, n, k),
            |k: PairKey| after[k],
        ),
        JoinAction::Delete => Map::new(
            |k: PairKey| before.dom().contains(k) && !touched(from_left, pk, peers, n, k),
            |k: PairKey| before[k],
        ),
    }
}

/// The first `n` changes that a record gives fit the result, one after the
/// other, and lead to the result in which the rows of the record with the
/// first `n` records of the other input have come, or gone.
proof fn lemma_join_changes_so_far(
    j: JoinSourceValue,
    action: JoinAction,
    from_left: bool,
    values: Seq<FieldValue>,
    own: Keyed,
    peer: Keyed,
    peers: Values,
    n: nat,
)
    requires
        n <= peers.len(),
        index_holds(
            peer_input(j, from_left),
            peers,
            peer,
            key_of(values, own_input(j, from_left).join_key),
        ),
        action == JoinAction::Insert ==> !own.contains_key(
            key_of(values, own_input(j, from_left).primary_key),
        ),
        action == JoinAction::Delete ==> own.contains_key(
            key_of(values, own_input(j, from_left).primary_key),
        ) && own[key_of(values, own_input(j, from_left).primary_key)] == values,
    ensures
        ({
            let t = own_input(j, from_left);
            let pk = key_of(values, t.primary_key);
            let jk = key_of(values, t.join_key);
            let before = join_result(j, left_of(from_left, own, peer), right_of(from_left, own, peer));
            let keys = pair_keys(from_left, pk, peers);
            let changes = join_changes(joined_rows(j, from_left, action, values, jk, peers, peer));
            &&& crate::relation::fit_keyed(before, keys.take(n as int), changes.take(n as int))
            &&& crate::relation::keyed_after_all(
                before,
                keys.take(n as int),
                changes.take(n as int),
            ) == changed_so_far(j, action, from_left, values, own, peer, peers, n)
        }),
    decreases n,
{
    let t = own_input(j, from_left);
    let pk = key_of(values, t.primary_key);
    let jk = key_of(values, t.join_key);
    let before = join_result(j, left_of(from_left, own, peer), right_of(from_left, own, peer));
    let moved = keyed_after_join(own, action, pk, values);
    let after = join_result(j, left_of(from_left, moved, peer), right_of(from_left, moved, peer));
    let keys = pair_keys(from_left, pk, peers);
    let rows = joined_rows(j, from_left, action, values, jk, peers, peer);
    let changes = join_changes(rows);
    if n == 0 {
        assert(keys.take(0) =~= Seq::<PairKey>::empty());
        assert(changes.take(0) =~= Seq::<crate::types::OperationValue>::empty());
        assert(changed_so_far(j, action, from_left, values, own, peer, peers, 0) =~= before) by {
            assert forall|k: PairKey| !touched(from_left, pk, peers, 0, k) by {}
            if action == JoinAction::Insert {
                assert forall|k: PairKey| before.dom().contains(k) implies after[k] == before[k] by {}
            }
        }
    } else {
        let m = (n - 1) as nat;
        lemma_join_changes_so_far(j, action, from_left, values, own, peer, peers, m);
        assert(keys.take(n as int).drop_last() =~= keys.take(m as int));
        assert(changes.take(n as int).drop_last() =~= changes.take(m as int));
        assert(keys.take(n as int).last() == keys[m as int]);
        assert(changes.take(n as int).last() == changes[m as int]);
        let earlier = changed_so_far(j, action, from_left, values, own, peer, peers, m);
        let now = changed_so_far(j, action, from_left, values, own, peer, peers, n);
        let key = keys[m as int];
        assert(key == pair_key(from_left, pk, peers[m as int]));
        assert(peers.contains(peers[m as int]));
        assert(peer.contains_key(peers[m as int]));
        assert(!touched(from_left, pk, peers, m, key)) by {
            if touched(from_left, pk, peers, m, key) {
                let w = choose|i: int| 0 <= i < m && #[trigger] pair_key(from_left, pk, peers[i])
                    == key;
                assert(peers[w] == peers[m as int]);
            }
        }
        assert(touched(from_left, pk, peers, n, key)) by {
            assert(pair_key(from_left, pk, peers[m as int]) == key);
        }
        assert forall|k: PairKey| k != key implies touched(from_left, pk, peers, n, k) == touched(
            from_left,
            pk,
            peers,
            m,
            k,
        ) by {
            if touched(from_left, pk, peers, n, k) {
                let w = choose|i: int| 0 <= i < n && #[trigger] pair_key(from_left, pk, peers[i])
                    == k;
                assert(w < m);
                assert(pair_key(from_left, pk, peers[w]) == k);
            }
            if touched(from_left, pk, peers, m, k) {
                let w = choose|i: int| 0 <= i < m && #[trigger] pair_key(from_left, pk, peers[i])
                    == k;
                assert(pair_key(from_left, pk, peers[w]) == k);
            }
        }
        match action {
            JoinAction::Insert => {
                assert(!before.dom().contains(key));
                assert(after.dom().contains(key));
                assert(changes[m as int] == crate::types::OperationValue::Insert {
                    new: after[key],
                });
                assert(crate::relation::keyed_after(earlier, key, changes[m as int]) =~= now);
            },
            JoinAction::Delete => {
                assert(before.dom().contains(key));
                assert(changes[m as int] == crate::types::OperationValue::Delete {
                    old: before[key],
                });
                assert(crate::relation::keyed_after(earlier, key, changes[m as int]) =~= now);
            },
        }
    }
}

/// Delta correctness of the join: the changes that the join emits for a
/// record that comes or goes fit the result of the join over the inputs
/// before the change, and applied to it, each under the primary keys of the
/// two records that it joins, they give the result of the join over the
/// inputs after the change.
///
/// `peers` are the primary keys that the index of the other input holds
/// for the join key of the record. A record that comes must have a primary
/// key that no record of its input has, and a record that goes must be in
/// its input.
pub proof fn lemma_join_keeps_result(
    j: JoinSourceValue,
    action: JoinAction,
    from_left: bool,
    values: Seq<FieldValue>,
    own: Keyed,
    peer: Keyed,
    peers: Values,
)
    requires
        index_holds(
            peer_input(j, from_left),
            peers,
            peer,
            key_of(values, own_input(j, from_left).join_key),
        ),
        action == JoinAction::Insert ==> !own.contains_key(
            key_of(values, own_input(j, from_left).primary_key),
        ),
        action == JoinAction::Delete ==> own.contains_key(
            key_of(values, own_input(j, from_left).primary_key),
        ) && own[key_of(values, own_input(j, from_left).primary_key)] == values,
    ensures
        ({
            let t = own_input(j, from_left);
            let pk = key_of(values, t.primary_key);
            let jk = key_of(values, t.join_key);
            let moved = keyed_after_join(own, action, pk, values);
            let before = join_result(j, left_of(from_left, own, peer), right_of(from_left, own, peer));
            let keys = pair_keys(from_left, pk, peers);
            let changes = join_changes(joined_rows(j, from_left, action, values, jk, peers, peer));
            &&& crate::relation::fit_keyed(before, keys, changes)
            &&& crate::relation::keyed_after_all(before, keys, changes) == join_result(
                j,
                left_of(from_left, moved, peer),
                right_of(from_left, moved, peer),
            )
        }),
{
    let t = own_input(j, from_left);
    let pk = key_of(values, t.primary_key);
    let jk = key_of(values, t.join_key);
    let moved = keyed_after_join(own, action, pk, values);
    let before = join_result(j, left_of(from_left, own, peer), right_of(from_left, own, peer));
    let after = join_result(j, left_of(from_left, moved, peer), right_of(from_left, moved, peer));
    let keys = pair_keys(from_left, pk, peers);
    let changes = join_changes(joined_rows(j, from_left, action, values, jk, peers, peer));
    let n = peers.len();
    lemma_join_changes_so_far(j, action, from_left, values, own, peer, peers, n);
    assert(keys.take(n as int) =~= keys);
    assert(changes.take(n as int) =~= changes);
    let last = changed_so_far(j, action, from_left, values, own, peer, peers, n);
    assert forall|k: PairKey|
        #![trigger last.dom().contains(k)]
        #![trigger after.dom().contains(k)]
        last.dom().contains(k) == after.dom().contains(k) && (last.dom().contains(k) ==> last[k]
            == after[k]) by {
        let other = if from_left {
            k.1
        } else {
            k.0
        };
        let mine = if from_left {
            k.0
        } else {
            k.1
        };
        if touched(from_left, pk, peers, n, k) {
            let w = choose|i: int| 0 <= i < n && #[trigger] pair_key(from_left, pk, peers[i]) == k;
            assert(peers.contains(peers[w]));
            assert(mine == pk && other == peers[w]);
        }
        if mine == pk && peers.contains(other) {
            let w = choose|i: int| 0 <= i < peers.len() && peers[i] == other;
            assert(pair_key(from_left, pk, peers[w]) == k);
            assert(touched(from_left, pk, peers, n, k));
        }
        assert(peers.contains(other) <==> (peer.contains_key(other) && key_of(
            peer[other],
            peer_input(j, from_left).join_key,
        ) == jk));
    }
    assert(last =~= after);
}

/// Whether the database of the join holds the two inputs.
pub open spec fn join_stored(
    j: JoinSourceValue,
    tables: Seq<TableValue>,
    db: Database,
    left: Keyed,
    right: Keyed,
) -> bool {
    &&& db.id < tables.len()
    &&& tables[db.id as int].dup_sort
    &&& j.left.port != j.right.port
    &&& input_stored(j.left, tables[db.id as int], left)
    &&& input_stored(j.right, tables[db.id as int], right)
}

/// Whether a record can come to, or go from, an input: it has the keys
/// that the input asks for and can be stored, and it comes with a primary
/// key that is new to the input, or goes as a record of the input.
pub open spec fn change_fits_input(
    t: JoinTableValue,
    action: JoinAction,
    values: Seq<FieldValue>,
    rel: Keyed,
) -> bool {
    let pk = key_of(values, t.primary_key);
    &&& well_keyed(t, pk, values)
    &&& action == JoinAction::Insert ==> !rel.contains_key(pk)
    &&& action == JoinAction::Delete ==> rel.contains_key(pk) && rel[pk] == values
}

/// Delta correctness of the product for a record that comes or goes on
/// the port of an input: the join succeeds; the changes that stand for what
/// it gives fit the result of the join over the inputs before, and lead to
/// the result over the inputs after; and the database holds the inputs
/// after the change.
pub proof fn lemma_product_is_delta_correct(
    j: JoinSourceValue,
    action: JoinAction,
    from_left: bool,
    record: RecordValue,
    db: Database,
    tables: Seq<TableValue>,
    left: Keyed,
    right: Keyed,
)
    requires
        join_stored(j, tables, db, left, right),
        change_fits_input(
            own_input(j, from_left),
            action,
            record.values,
            if from_left {
                left
            } else {
                right
            },
        ),
    ensures
        ({
            let t = own_input(j, from_left);
            let pk = key_of(record.values, t.primary_key);
            let jk = key_of(record.values, t.join_key);
            let peers = table_get_all(
                tables[db.id as int],
                index_key(peer_input(j, from_left).port, jk),
            );
            let outcome = join_outcome(j, action, t.port, record, db, tables);
            let left_after = if from_left {
                keyed_after_join(left, action, pk, record.values)
            } else {
                left
            };
            let right_after = if from_left {
                right
            } else {
                keyed_after_join(right, action, pk, record.values)
            };
            &&& outcome is Ok
            &&& outcome->Ok_0.0.len() == peers.len()
            &&& crate::relation::fit_keyed(
                join_result(j, left, right),
                pair_keys(from_left, pk, peers),
                join_changes(outcome->Ok_0.0),
            )
            &&& crate::relation::keyed_after_all(
                join_result(j, left, right),
                pair_keys(from_left, pk, peers),
                join_changes(outcome->Ok_0.0),
            ) == join_result(j, left_after, right_after)
            &&& join_stored(j, outcome->Ok_0.1, db, left_after, right_after)
        }),
{
    let own = if from_left {
        left
    } else {
        right
    };
    let peer = if from_left {
        right
    } else {
        left
    };
    let t = own_input(j, from_left);
    let jk = key_of(record.values, t.join_key);
    let peers = table_get_all(tables[db.id as int], index_key(peer_input(j, from_left).port, jk));
    lemma_join_outcome(j, action, from_left, record, db, tables, own, peer);
    lemma_join_keeps_result(j, action, from_left, record.values, own, peer, peers);
}

/// The keys of the rows that a change of an input is about: those of the
/// record that goes with the records that the other input holds for its
/// join key, then those of the record that comes. `between` is the
/// database after the record that goes has gone.
pub open spec fn change_keys(
    j: JoinSourceValue,
    from_left: bool,
    op: crate::types::OperationValue,
    table: TableValue,
    between: TableValue,
) -> Seq<PairKey> {
    let t = own_input(j, from_left);
    let other = peer_input(j, from_left);
    match op {
        crate::types::OperationValue::Insert { new } => pair_keys(
            from_left,
            key_of(new.values, t.primary_key),
            table_get_all(table, index_key(other.port, key_of(new.values, t.join_key))),
        ),
        crate::types::OperationValue::Delete { old } => pair_keys(
            from_left,
            key_of(old.values, t.primary_key),
            table_get_all(table, index_key(other.port, key_of(old.values, t.join_key))),
        ),
        crate::types::OperationValue::Update { old, new } => pair_keys(
            from_left,
            key_of(old.values, t.primary_key),
            table_get_all(table, index_key(other.port, key_of(old.values, t.join_key))),
        ) + pair_keys(
            from_left,
            key_of(new.values, t.primary_key),
            table_get_all(between, index_key(other.port, key_of(new.values, t.join_key))),
        ),
    }
}

/// The input of a change after the change.
pub open spec fn keyed_after_change(
    t: JoinTableValue,
    rel: Keyed,
    op: crate::types::OperationValue,
) -> Keyed {
    match op {
        crate::types::OperationValue::Insert { new } => rel.insert(
            key_of(new.values, t.primary_key),
            new.values,
        ),
        crate::types::OperationValue::Delete { old } => rel.remove(
            key_of(old.values, t.primary_key),
        ),
        crate::types::OperationValue::Update { old, new } => rel.remove(
            key_of(old.values, t.primary_key),
        ).insert(key_of(new.values, t.primary_key), new.values),
    }
}

/// Whether a change can be taken into an input: a record that comes is new
/// to the input, a record that goes is in it, and an update is a record
/// that goes followed by a record that comes.
pub open spec fn operation_fits_input(
    t: JoinTableValue,
    rel: Keyed,
    op: crate::types::OperationValue,
) -> bool {
    match op {
        crate::types::OperationValue::Insert { new } => change_fits_input(
            t,
            JoinAction::Insert,
            new.values,
            rel,
        ),
        crate::types::OperationValue::Delete { old } => change_fits_input(
            t,
            JoinAction::Delete,
            old.values,
            rel,
        ),
        crate::types::OperationValue::Update { old, new } => change_fits_input(
            t,
            JoinAction::Delete,
            old.values,
            rel,
        ) && change_fits_input(
            t,
            JoinAction::Insert,
            new.values,
            rel.remove(key_of(old.values, t.primary_key)),
        ),
    }
}

/// Delta correctness of the product: for a change that comes on the port
/// of an input, the operator succeeds; what it emits fits the result of
/// the join over the inputs before the change, and applied to it, each
/// change under the primary keys of the two records that it joins, gives
/// the result of the join over the inputs after the change; and the
/// database holds the inputs after the change, so that the same holds of
/// the next change.
pub proof fn lemma_product_keeps_result(
    j: JoinSourceValue,
    from_left: bool,
    op: crate::types::OperationValue,
    db: Database,
    tables: Seq<TableValue>,
    left: Keyed,
    right: Keyed,
)
    requires
        join_stored(j, tables, db, left, right),
        operation_fits_input(
            own_input(j, from_left),
            if from_left {
                left
            } else {
                right
            },
            op,
        ),
    ensures
        ({
            let t = own_input(j, from_left);
            let outcome = crate::product::processor::product_outcome(
                j,
                Some(db),
                t.port,
                op,
                tables,
            );
            let between = match op {
                crate::types::OperationValue::Update { old, new } => join_outcome(
                    j,
                    JoinAction::Delete,
                    t.port,
                    old,
                    db,
                    tables,
                )->Ok_0.1[db.id as int],
                _ => tables[db.id as int],
            };
            let keys = change_keys(j, from_left, op, tables[db.id as int], between);
            let left_after = if from_left {
                keyed_after_change(t, left, op)
            } else {
                left
            };
            let right_after = if from_left {
                right
            } else {
                keyed_after_change(t, right, op)
            };
            &&& outcome is Ok
            &&& crate::relation::fit_keyed(join_result(j, left, right), keys, outcome->Ok_0.0)
            &&& crate::relation::keyed_after_all(join_result(j, left, right), keys, outcome->Ok_0.0)
                == join_result(j, left_after, right_after)
            &&& join_stored(j, outcome->Ok_0.1, db, left_after, right_after)
        }),
{
    let t = own_input(j, from_left);
    match op {
        crate::types::OperationValue::Insert { new } => {
            lemma_product_is_delta_correct(
                j,
                JoinAction::Insert,
                from_left,
                new,
                db,
                tables,
                left,
                right,
            );
        },
        crate::types::OperationValue::Delete { old } => {
            lemma_product_is_delta_correct(
                j,
                JoinAction::Delete,
                from_left,
                old,
                db,
                tables,
                left,
                right,
            );
        },
        crate::types::OperationValue::Update { old, new } => {
            lemma_product_is_delta_correct(
                j,
                JoinAction::Delete,
                from_left,
                old,
                db,
                tables,
                left,
                right,
            );
            let gone = join_outcome(j, JoinAction::Delete, t.port, old, db, tables)->Ok_0;
            let pk_old = key_of(old.values, t.primary_key);
            let left_between = if from_left {
                left.remove(pk_old)
            } else {
                left
            };
            let right_between = if from_left {
                right
            } else {
                right.remove(pk_old)
            };
            lemma_product_is_delta_correct(
                j,
                JoinAction::Insert,
                from_left,
                new,
                db,
                gone.1,
                left_between,
                right_between,
            );
            let come = join_outcome(j, JoinAction::Insert, t.port, new, db, gone.1)->Ok_0;
            let old_keys = pair_keys(
                from_left,
                pk_old,
                table_get_all(
                    tables[db.id as int],
                    index_key(peer_input(j, from_left).port, key_of(old.values, t.join_key)),
                ),
            );
            let new_keys = pair_keys(
                from_left,
                key_of(new.values, t.primary_key),
                table_get_all(
                    gone.1[db.id as int],
                    index_key(peer_input(j, from_left).port, key_of(new.values, t.join_key)),
                ),
            );
            crate::relation::lemma_keyed_concatenation(
                join_result(j, left, right),
                old_keys,
                join_changes(gone.0),
                new_keys,
                join_changes(come.0),
            );
        },
    }
}

/// A change of the stream of a product: whether it comes on the port of
/// the left input, and the change.
pub type PortChange = (bool, crate::types::OperationValue);

/// The keys of the rows that the changes which the operator emits for a
/// change are about, one for each.
pub open spec fn keys_of_change(
    j: JoinSourceValue,
    db: Database,
    tables: Seq<TableValue>,
    change: PortChange,
) -> Seq<PairKey> {
    let t = own_input(j, change.0);
    let between = match change.1 {
        crate::types::OperationValue::Update { old, new } => join_outcome(
            j,
            JoinAction::Delete,
            t.port,
            old,
            db,
            tables,
        )->Ok_0.1[db.id as int],
        _ => tables[db.id as int],
    };
    change_keys(j, change.0, change.1, tables[db.id as int], between)
}

/// The two inputs after a change on one of them.
pub open spec fn inputs_after_change(
    j: JoinSourceValue,
    inputs: (Keyed, Keyed),
    change: PortChange,
) -> (Keyed, Keyed) {
    if change.0 {
        (keyed_after_change(j.left, inputs.0, change.1), inputs.1)
    } else {
        (inputs.0, keyed_after_change(j.right, inputs.1, change.1))
    }
}

/// The two inputs after the changes of a stream, in order.
pub open spec fn inputs_after(
    j: JoinSourceValue,
    inputs: (Keyed, Keyed),
    stream: Seq<PortChange>,
) -> (Keyed, Keyed)
    decreases stream.len(),
{
    if stream.len() == 0 {
        inputs
    } else {
        inputs_after_change(j, inputs_after(j, inputs, stream.drop_last()), stream.last())
    }
}

/// Whether every change of a stream can be taken into its input when it
/// comes.
pub open spec fn stream_fits_inputs(
    j: JoinSourceValue,
    inputs: (Keyed, Keyed),
    stream: Seq<PortChange>,
) -> bool
    decreases stream.len(),
{
    if stream.len() == 0 {
        true
    } else {
        let before = inputs_after(j, inputs, stream.drop_last());
        &&& stream_fits_inputs(j, inputs, stream.drop_last())
        &&& operation_fits_input(
            own_input(j, stream.last().0),
            if stream.last().0 {
                before.0
            } else {
                before.1
            },
            stream.last().1,
        )
    }
}

/// The databases after the operator has taken in the changes of a stream.
pub open spec fn join_tables_after(
    j: JoinSourceValue,
    db: Database,
    tables: Seq<TableValue>,
    stream: Seq<PortChange>,
) -> Seq<TableValue>
    decreases stream.len(),
{
    if stream.len() == 0 {
        tables
    } else {
        crate::product::processor::product_outcome(
            j,
            Some(db),
            own_input(j, stream.last().0).port,
            stream.last().1,
            join_tables_after(j, db, tables, stream.drop_last()),
        )->Ok_0.1
    }
}

/// The rows after the changes that the operator emits for the changes of
/// a stream, applied in order.
pub open spec fn join_rows_after(
    j: JoinSourceValue,
    db: Database,
    tables: Seq<TableValue>,
    rows: Map<PairKey, RecordValue>,
    stream: Seq<PortChange>,
) -> Map<PairKey, RecordValue>
    decreases stream.len(),
{
    if stream.len() == 0 {
        rows
    } else {
        let before = join_tables_after(j, db, tables, stream.drop_last());
        crate::relation::keyed_after_all(
            join_rows_after(j, db, tables, rows, stream.drop_last()),
            keys_of_change(j, db, before, stream.last()),
            crate::product::processor::product_outcome(
                j,
                Some(db),
                own_input(j, stream.last().0).port,
                stream.last().1,
                before,
            )->Ok_0.0,
        )
    }
}

/// Delta correctness of the product over a stream: where the database
/// holds the two inputs, the operator takes in every change of a stream
/// of changes that fit their inputs, on either port in any order; the
/// changes that it emits, applied in order to the result of the join over
/// the inputs before, give the result of the join over the inputs after;
/// and the database holds the inputs after.
pub proof fn lemma_product_of_stream(
    j: JoinSourceValue,
    db: Database,
    tables: Seq<TableValue>,
    left: Keyed,
    right: Keyed,
    stream: Seq<PortChange>,
)
    requires
        join_stored(j, tables, db, left, right),
        stream_fits_inputs(j, (left, right), stream),
    ensures
        join_rows_after(j, db, tables, join_result(j, left, right), stream) == join_result(
            j,
            inputs_after(j, (left, right), stream).0,
            inputs_after(j, (left, right), stream).1,
        ),
        join_stored(
            j,
            join_tables_after(j, db, tables, stream),
            db,
            inputs_after(j, (left, right), stream).0,
            inputs_after(j, (left, right), stream).1,
        ),
        forall|i: int|
            0 <= i < stream.len() ==> crate::product::processor::product_outcome(
                j,
                Some(db),
                own_input(j, stream[i].0).port,
                stream[i].1,
                #[trigger] join_tables_after(j, db, tables, stream.take(i)),
            ) is Ok,
    decreases stream.len(),
{
    if stream.len() > 0 {
        let first = stream.drop_last();
        lemma_product_of_stream(j, db, tables, left, right, first);
        let before = inputs_after(j, (left, right), first);
        lemma_product_keeps_result(
            j,
            stream.last().0,
            stream.last().1,
            db,
            join_tables_after(j, db, tables, first),
            before.0,
            before.1,
        );
        assert forall|i: int| 0 <= i < stream.len() implies crate::product::processor::product_outcome(
            j,
            Some(db),
            own_input(j, stream[i].0).port,
            stream[i].1,
            #[trigger] join_tables_after(j, db, tables, stream.take(i)),
        ) is Ok by {
            if i < first.len() {
                assert(first.take(i) =~= stream.take(i));
                assert(first[i] == stream[i]);
            } else {
                assert(stream.take(i) =~= first);
            }
        }
    }
}

/// The database of an operator that has opened it in an environment that
/// had none holds two inputs without records.
pub proof fn lemma_opened_join_stored(j: JoinSourceValue)
    requires
        j.left.port != j.right.port,
    ensures
        join_stored(
            j,
            crate::storage::state_open(Seq::<TableValue>::empty(), "product"@, true),
            crate::storage::handle_of(Seq::<TableValue>::empty(), "product"@),
            Map::<Seq<u8>, Seq<FieldValue>>::empty(),
            Map::<Seq<u8>, Seq<FieldValue>>::empty(),
        ),
{
    reveal_with_fuel(crate::storage::index_of_name, 2);
    let tables = crate::storage::state_open(Seq::<TableValue>::empty(), "product"@, true);
    assert(tables =~= seq![TableValue { name: "product"@, dup_sort: true, data: Map::empty() }]);
}

/// Delta correctness of the product from the start: an operator with two
/// inputs on different ports, which has opened its database in an
/// environment that had none, takes in every change of a stream of
/// changes that fit their inputs; and the changes that it emits, applied
/// in order to no rows, give the join of the inputs that the stream
/// builds.
pub proof fn lemma_product_from_start(j: JoinSourceValue, stream: Seq<PortChange>)
    requires
        j.left.port != j.right.port,
        stream_fits_inputs(j, (Map::empty(), Map::empty()), stream),
    ensures
        ({
            let none = Map::<Seq<u8>, Seq<FieldValue>>::empty();
            let tables = crate::storage::state_open(Seq::<TableValue>::empty(), "product"@, true);
            let db = crate::storage::handle_of(Seq::<TableValue>::empty(), "product"@);
            join_rows_after(j, db, tables, Map::<PairKey, RecordValue>::empty(), stream)
                == join_result(
                j,
                inputs_after(j, (none, none), stream).0,
                inputs_after(j, (none, none), stream).1,
            )
        }),
{
    let none = Map::<Seq<u8>, Seq<FieldValue>>::empty();
    let tables = crate::storage::state_open(Seq::<TableValue>::empty(), "product"@, true);
    let db = crate::storage::handle_of(Seq::<TableValue>::empty(), "product"@);
    lemma_opened_join_stored(j);
    assert(join_result(j, none, none) =~= Map::<PairKey, RecordValue>::empty());
    lemma_product_of_stream(j, db, tables, none, none, stream);
}

} // verus!
