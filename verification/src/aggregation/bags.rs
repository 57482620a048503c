//! The values that `MIN` and `MAX` count: a value that is counted has its
//! count under its key, behind the prefix of the measure, and the first and
//! the last key behind the prefix are those of the least and of the
//! greatest value that is counted.

use vstd::prelude::*;
use crate::aggregation::aggregator::{
    bag_key,
    bag_moved,
    contributions,
    count_moved,
    counted_outcome,
    extreme_value,
    sort_key,
    sorted_value,
    Aggregator,
    AggregatorOperation,
};
use crate::codec::{
    be_bytes,
    lemma_be_bytes_len,
    lemma_be_value_of_bytes,
    lemma_pow256_values,
    pow256,
};
use crate::expression::comparison::{lexicographic_order, order_of};

use crate::storage::{has_prefix, is_extreme, table_get, Database, TableValue};
use crate::types::FieldValue;

verus! {

/// Byte strings of one length with one more byte each come in the order of
/// the strings, and in that of the last bytes where the strings are the
/// same.
proof fn lemma_order_push(s: Seq<u8>, t: Seq<u8>, c: u8, d: u8)
    requires
        s.len() == t.len(),
    ensures
        lexicographic_order(s.push(c), t.push(d)) == if lexicographic_order(s, t) != 0 {
            lexicographic_order(s, t)
        } else {
            order_of(c as int, d as int)
        },
    decreases s.len(),
{
    let sc = s.push(c);
    let td = t.push(d);
    if s.len() == 0 {
        assert(sc.drop_first() =~= Seq::<u8>::empty());
        assert(td.drop_first() =~= Seq::<u8>::empty());
        assert(sc[0] == c && td[0] == d);
        assert(lexicographic_order(sc.drop_first(), td.drop_first()) == 0);
        assert(lexicographic_order(s, t) == 0);
    } else {
        lemma_order_push(s.drop_first(), t.drop_first(), c, d);
        assert(sc.drop_first() =~= s.drop_first().push(c));
        assert(td.drop_first() =~= t.drop_first().push(d));
        assert(sc[0] == s[0] && td[0] == t[0]);
    }
}

/// Numbers written in as many bytes come in byte order as they come in
/// their own order.
pub proof fn lemma_be_bytes_order(x: nat, y: nat, n: nat)
    requires
        x < pow256(n),
        y < pow256(n),
    ensures
        lexicographic_order(be_bytes(x, n), be_bytes(y, n)) == order_of(x as int, y as int),
    decreases n,
{
    if n > 0 {
        lemma_be_bytes_order(x / 256, y / 256, (n - 1) as nat);
        lemma_be_bytes_len(x / 256, (n - 1) as nat);
        lemma_be_bytes_len(y / 256, (n - 1) as nat);
        lemma_order_push(
            be_bytes(x / 256, (n - 1) as nat),
            be_bytes(y / 256, (n - 1) as nat),
            (x % 256) as u8,
            (y % 256) as u8,
        );
    }
}

/// Byte strings behind the same bytes come in their own order.
proof fn lemma_order_behind(p: Seq<u8>, s: Seq<u8>, t: Seq<u8>)
    ensures
        lexicographic_order(p + s, p + t) == lexicographic_order(s, t),
    decreases p.len(),
{
    if p.len() == 0 {
        assert(p + s =~= s);
        assert(p + t =~= t);
    } else {
        lemma_order_behind(p.drop_first(), s, t);
        assert((p + s).drop_first() =~= p.drop_first() + s);
        assert((p + t).drop_first() =~= p.drop_first() + t);
    }
}

/// The keys of values behind a prefix come in byte order as the values
/// come in their order, and a key gives its value back.
pub proof fn lemma_bag_key_order(prefix: u32, a: i64, b: i64)
    ensures
        lexicographic_order(bag_key(prefix, a), bag_key(prefix, b)) == order_of(a as int, b as int),
        bag_key(prefix, a).len() == 12,
        has_prefix(bag_key(prefix, a), be_bytes(prefix as nat, 4)),
        sorted_value(bag_key(prefix, a).subrange(4, 12)) == a,
        bag_key(prefix, a) == bag_key(prefix, b) ==> a == b,
{
    lemma_pow256_values();
    let sa = (a + 0x8000_0000_0000_0000) as nat;
    let sb = (b + 0x8000_0000_0000_0000) as nat;
    lemma_be_bytes_order(sa, sb, 8);
    lemma_order_behind(be_bytes(prefix as nat, 4), sort_key(a), sort_key(b));
    lemma_be_bytes_len(prefix as nat, 4);
    lemma_be_bytes_len(sa, 8);
    lemma_be_bytes_len(sb, 8);
    lemma_be_value_of_bytes(sa, 8);
    assert(bag_key(prefix, a).subrange(0, 4) =~= be_bytes(prefix as nat, 4));
    assert(bag_key(prefix, a).subrange(4, 12) =~= sort_key(a));
    if bag_key(prefix, a) == bag_key(prefix, b) {
        crate::storage::lemma_order_zero_is_equal(bag_key(prefix, a), bag_key(prefix, b));
    }
}

/// Whether a database holds, behind a prefix, the count of every value
/// that is counted, and nothing else.
pub open spec fn bag_at(t: TableValue, prefix: u32, counts: spec_fn(i64) -> nat) -> bool {
    &&& forall|i: i64|
        #[trigger] table_get(t, bag_key(prefix, i)) == if counts(i) > 0 {
            Some(be_bytes(counts(i), 8))
        } else {
            None
        }
    &&& forall|i: i64| #[trigger] counts(i) < 0x1_0000_0000_0000_0000
    &&& forall|key: Seq<u8>|
        #![trigger t.data.contains_key(key)]
        t.data.contains_key(key) && has_prefix(key, be_bytes(prefix as nat, 4)) ==> exists|i: i64|
            key == #[trigger] bag_key(prefix, i) && counts(i) > 0
}

/// Whether the database of the aggregators holds, behind a prefix, the
/// count of every value that is counted, and nothing else.
pub open spec fn bag_stored(
    tables: Seq<TableValue>,
    db: Database,
    prefix: u32,
    counts: spec_fn(i64) -> nat,
) -> bool {
    &&& db.id < tables.len()
    &&& !tables[db.id as int].dup_sort
    &&& tables[db.id as int].data.dom().finite()
    &&& bag_at(tables[db.id as int], prefix, counts)
}

/// The keys behind two prefixes are apart.
pub proof fn lemma_prefixes_apart(prefix: u32, i: i64, other: u32)
    requires
        prefix != other,
    ensures
        !has_prefix(bag_key(prefix, i), be_bytes(other as nat, 4)),
        forall|w: i64| bag_key(prefix, i) != #[trigger] bag_key(other, w),
{
    lemma_pow256_values();
    lemma_be_bytes_len(prefix as nat, 4);
    lemma_be_bytes_len(other as nat, 4);
    lemma_be_value_of_bytes(prefix as nat, 4);
    lemma_be_value_of_bytes(other as nat, 4);
    let key = bag_key(prefix, i);
    assert(key.subrange(0, 4) =~= be_bytes(prefix as nat, 4));
    assert forall|w: i64| bag_key(prefix, i) != #[trigger] bag_key(other, w) by {
        assert(bag_key(other, w).subrange(0, 4) =~= be_bytes(other as nat, 4));
    }
}

/// A value that comes or goes behind a prefix leaves the counts behind
/// every other prefix as they are.
pub proof fn lemma_bag_moved_elsewhere(
    tables: Seq<TableValue>,
    db: Database,
    prefix: u32,
    value: Option<i64>,
    decr: bool,
    other: u32,
    counts: spec_fn(i64) -> nat,
)
    requires
        bag_stored(tables, db, other, counts),
        prefix != other,
        bag_moved(tables, db, prefix, value, decr) is Ok,
    ensures
        bag_stored(bag_moved(tables, db, prefix, value, decr)->Ok_0, db, other, counts),
{
    match value {
        None => {},
        Some(v) => {
            let key = bag_key(prefix, v);
            let after = bag_moved(tables, db, prefix, value, decr)->Ok_0;
            lemma_prefixes_apart(prefix, v, other);
            assert forall|i: i64|
                #[trigger] table_get(after[db.id as int], bag_key(other, i)) == if counts(i) > 0 {
                    Some(be_bytes(counts(i), 8))
                } else {
                    None
                } by {
                assert(table_get(tables[db.id as int], bag_key(other, i)) == if counts(i) > 0 {
                    Some(be_bytes(counts(i), 8))
                } else {
                    None
                });
            }
            assert forall|k: Seq<u8>|
                #![trigger after[db.id as int].data.contains_key(k)]
                after[db.id as int].data.contains_key(k) && has_prefix(
                    k,
                    be_bytes(other as nat, 4),
                ) implies exists|i: i64| k == #[trigger] bag_key(other, i) && counts(i) > 0 by {
                assert(tables[db.id as int].data.contains_key(k));
            }
        },
    }
}

/// The counts after a value has come, or with `decr` gone.
pub open spec fn counts_moved(counts: spec_fn(i64) -> nat, value: Option<i64>, decr: bool) -> spec_fn(
    i64,
) -> nat {
    |i: i64|
        if value == Some(i) {
            if decr {
                (counts(i) - 1) as nat
            } else {
                counts(i) + 1
            }
        } else {
            counts(i)
        }
}

/// Whether `v` is the least, or with `least` unset the greatest, of the
/// values that are counted.
pub open spec fn is_extreme_value(counts: spec_fn(i64) -> nat, least: bool, v: i64) -> bool {
    &&& counts(v) > 0
    &&& forall|w: i64|
        #[trigger] counts(w) > 0 ==> if least {
            v <= w
        } else {
            v >= w
        }
}

/// The counts that are stored move with a value that comes or goes. A
/// value that goes must be counted, and a count must not outgrow 64 bits.
pub proof fn lemma_bag_moved(
    tables: Seq<TableValue>,
    db: Database,
    prefix: u32,
    counts: spec_fn(i64) -> nat,
    value: Option<i64>,
    decr: bool,
)
    requires
        bag_stored(tables, db, prefix, counts),
        value matches Some(i) ==> if decr {
            counts(i) > 0
        } else {
            counts(i) + 1 < 0x1_0000_0000_0000_0000
        },
    ensures
        bag_moved(tables, db, prefix, value, decr) is Ok,
        bag_stored(
            bag_moved(tables, db, prefix, value, decr)->Ok_0,
            db,
            prefix,
            counts_moved(counts, value, decr),
        ),
{
    lemma_pow256_values();
    match value {
        None => {
            let moved = counts_moved(counts, value, decr);
            assert forall|i: i64| #[trigger] moved(i) == counts(i) by {}
            assert forall|i: i64| #[trigger] moved(i) < 0x1_0000_0000_0000_0000 by {
                assert(counts(i) < 0x1_0000_0000_0000_0000);
            }
            assert forall|i: i64|
                #[trigger] table_get(tables[db.id as int], bag_key(prefix, i)) == if moved(i) > 0 {
                    Some(be_bytes(moved(i), 8))
                } else {
                    None
                } by {
                assert(moved(i) == counts(i));
            }
            assert forall|k: Seq<u8>|
                #![trigger tables[db.id as int].data.contains_key(k)]
                tables[db.id as int].data.contains_key(k) && has_prefix(
                    k,
                    be_bytes(prefix as nat, 4),
                ) implies exists|i: i64| k == #[trigger] bag_key(prefix, i) && moved(i) > 0 by {
                let i = choose|i: i64| k == #[trigger] bag_key(prefix, i) && counts(i) > 0;
                assert(k == bag_key(prefix, i) && moved(i) > 0);
            }
        },
        Some(v) => {
            let key = bag_key(prefix, v);
            let after = bag_moved(tables, db, prefix, value, decr)->Ok_0;
            let moved = counts_moved(counts, value, decr);
            let c = counts(v);
            assert(table_get(tables[db.id as int], key) == if c > 0 {
                Some(be_bytes(c, 8))
            } else {
                None
            });
            lemma_be_bytes_len(c, 8);
            lemma_be_value_of_bytes(c, 8);
            lemma_bag_key_order(prefix, v, v);
            assert(count_moved(tables, db, key, 1, decr) is Ok);
            assert forall|i: i64|
                #[trigger] table_get(after[db.id as int], bag_key(prefix, i)) == if moved(i) > 0 {
                    Some(be_bytes(moved(i), 8))
                } else {
                    None
                } by {
                lemma_bag_key_order(prefix, i, v);
                assert(table_get(tables[db.id as int], bag_key(prefix, i)) == if counts(i) > 0 {
                    Some(be_bytes(counts(i), 8))
                } else {
                    None
                });
            }
            assert forall|i: i64| #[trigger] moved(i) < 0x1_0000_0000_0000_0000 by {
                assert(counts(i) < 0x1_0000_0000_0000_0000);
            }
            assert forall|k: Seq<u8>|
                #![trigger after[db.id as int].data.contains_key(k)]
                after[db.id as int].data.contains_key(k) && has_prefix(
                    k,
                    be_bytes(prefix as nat, 4),
                ) implies exists|i: i64| k == #[trigger] bag_key(prefix, i) && moved(i) > 0 by {
                if k != key {
                    assert(tables[db.id as int].data.contains_key(k));
                    let i = choose|i: i64| k == #[trigger] bag_key(prefix, i) && counts(i) > 0;
                    assert(k == bag_key(prefix, i) && moved(i) > 0);
                } else {
                    assert(k == bag_key(prefix, v) && moved(v) > 0);
                }
            }
        },
    }
}

/// The value that is read behind a prefix is the least, or the greatest,
/// of the values that are counted, and a null where none is counted.
pub proof fn lemma_extreme_value(
    tables: Seq<TableValue>,
    db: Database,
    prefix: u32,
    counts: spec_fn(i64) -> nat,
    least: bool,
)
    requires
        bag_stored(tables, db, prefix, counts),
    ensures
        extreme_value(tables, db, prefix, least) is Ok,
        match extreme_value(tables, db, prefix, least)->Ok_0 {
            FieldValue::Int(v) => is_extreme_value(counts, least, v),
            FieldValue::Null => forall|w: i64| #[trigger] counts(w) == 0,
            _ => false,
        },
{
    let t = tables[db.id as int];
    let p = be_bytes(prefix as nat, 4);
    lemma_pow256_values();
    if exists|key: Seq<u8>| is_extreme(t, p, least, key) {
        let key = choose|key: Seq<u8>| is_extreme(t, p, least, key);
        assert(t.data.contains_key(key));
        let v = choose|i: i64| key == #[trigger] bag_key(prefix, i) && counts(i) > 0;
        lemma_bag_key_order(prefix, v, v);
        assert forall|w: i64| #[trigger] counts(w) > 0 implies if least {
            v <= w
        } else {
            v >= w
        } by {
            lemma_bag_key_order(prefix, v, w);
            lemma_bag_key_order(prefix, w, w);
            assert(table_get(t, bag_key(prefix, w)) == Some(be_bytes(counts(w), 8)));
            assert(t.data.contains_key(bag_key(prefix, w)));
        }
    } else {
        assert forall|w: i64| #[trigger] counts(w) == 0 by {
            if counts(w) > 0 {
                lemma_bag_key_order(prefix, w, w);
                assert(table_get(t, bag_key(prefix, w)) == Some(be_bytes(counts(w), 8)));
                lemma_some_key_is_extreme(t, p, least, bag_key(prefix, w));
            }
        }
    }
}

/// Where a key starts with the prefix, a first and a last key do.
proof fn lemma_some_key_is_extreme(t: TableValue, prefix: Seq<u8>, least: bool, key: Seq<u8>)
    requires
        t.data.contains_key(key),
        has_prefix(key, prefix),
        t.data.dom().finite(),
    ensures
        exists|k: Seq<u8>| is_extreme(t, prefix, least, k),
{
    let keys = t.data.dom();
    lemma_extreme_among(t, prefix, least, keys, key);
    let k = choose|k: Seq<u8>|
        keys.contains(k) && t.data.contains_key(k) && has_prefix(k, prefix) && forall|
            other: Seq<u8>,
        |
            #![trigger keys.contains(other)]
            keys.contains(other) && t.data.contains_key(other) && has_prefix(other, prefix)
                ==> if least {
                lexicographic_order(k, other) <= 0
            } else {
                lexicographic_order(k, other) >= 0
            };
    assert forall|other: Seq<u8>|
        #![trigger t.data.contains_key(other)]
        t.data.contains_key(other) && has_prefix(other, prefix) implies if least {
        lexicographic_order(k, other) <= 0
    } else {
        lexicographic_order(k, other) >= 0
    } by {
        assert(keys.contains(other));
    }
    assert(is_extreme(t, prefix, least, k));
}

/// Among finitely many keys of which one starts with the prefix, one is
/// the first and one the last of those that are keys of the database and
/// start with the prefix.
proof fn lemma_extreme_among(
    t: TableValue,
    prefix: Seq<u8>,
    least: bool,
    keys: Set<Seq<u8>>,
    key: Seq<u8>,
)
    requires
        keys.finite(),
        keys.contains(key),
        t.data.contains_key(key),
        has_prefix(key, prefix),
    ensures
        exists|k: Seq<u8>|
            keys.contains(k) && t.data.contains_key(k) && has_prefix(k, prefix) && forall|
                other: Seq<u8>,
            |
                #![trigger keys.contains(other)]
                keys.contains(other) && t.data.contains_key(other) && has_prefix(other, prefix)
                    ==> if least {
                    lexicographic_order(k, other) <= 0
                } else {
                    lexicographic_order(k, other) >= 0
                },
    decreases keys.len(),
{
    let rest = keys.remove(key);
    crate::storage::lemma_order_zero_is_equal(key, key);
    if exists|k: Seq<u8>|
        #![trigger rest.contains(k)]
        rest.contains(k) && t.data.contains_key(k) && has_prefix(k, prefix) {
        let next = choose|k: Seq<u8>|
            #![trigger rest.contains(k)]
            rest.contains(k) && t.data.contains_key(k) && has_prefix(k, prefix);
        lemma_extreme_among(t, prefix, least, rest, next);
        let best = choose|k: Seq<u8>|
            rest.contains(k) && t.data.contains_key(k) && has_prefix(k, prefix) && forall|
                other: Seq<u8>,
            |
                #![trigger rest.contains(other)]
                rest.contains(other) && t.data.contains_key(other) && has_prefix(other, prefix)
                    ==> if least {
                    lexicographic_order(k, other) <= 0
                } else {
                    lexicographic_order(k, other) >= 0
                };
        crate::expression::comparison::lemma_order_antisymmetric(key, best);
        let key_wins = if least {
            lexicographic_order(key, best) <= 0
        } else {
            lexicographic_order(key, best) >= 0
        };
        let winner = if key_wins {
            key
        } else {
            best
        };
        assert forall|other: Seq<u8>|
            #![trigger keys.contains(other)]
            keys.contains(other) && t.data.contains_key(other) && has_prefix(
                other,
                prefix,
            ) implies if least {
            lexicographic_order(winner, other) <= 0
        } else {
            lexicographic_order(winner, other) >= 0
        } by {
            if other != key {
                assert(rest.contains(other));
                if key_wins {
                    if least {
                        crate::expression::comparison::lemma_order_transitive(key, best, other);
                    } else {
                        crate::expression::comparison::lemma_order_antisymmetric(best, other);
                        crate::expression::comparison::lemma_order_antisymmetric(other, key);
                        crate::expression::comparison::lemma_order_transitive(other, best, key);
                    }
                }
            } else {
                crate::expression::comparison::lemma_order_antisymmetric(best, key);
            }
        }
        assert(keys.contains(winner));
    } else {
        assert forall|other: Seq<u8>|
            #![trigger keys.contains(other)]
            keys.contains(other) && t.data.contains_key(other) && has_prefix(
                other,
                prefix,
            ) implies if least {
            lexicographic_order(key, other) <= 0
        } else {
            lexicographic_order(key, other) >= 0
        } by {
            if other != key {
                assert(rest.contains(other));
            }
        }
    }
}

/// `MIN` and `MAX` are the least and the greatest of the values of the
/// group: where the database of the aggregators holds, behind the prefix of
/// the measure, the counts of the values of the rows of the group, a change
/// of a row leads to the counts of the values after the change, and the
/// value of the measure is the least, or the greatest, value that is
/// counted then, or a null where no value is left.
///
/// The values come as their places, or as nulls, which are not counted;
/// the value of a row that goes must be counted; and no count may outgrow
/// 64 bits.
pub proof fn lemma_extreme_of_counted(
    aggregator: Aggregator,
    op: AggregatorOperation,
    state: Option<Seq<u8>>,
    deleted: FieldValue,
    inserted: FieldValue,
    prefix: u32,
    db: Database,
    tables: Seq<TableValue>,
    counts: spec_fn(i64) -> nat,
)
    requires
        aggregator == Aggregator::Min || aggregator == Aggregator::Max,
        bag_stored(tables, db, prefix, counts),
        contributions(aggregator, op, deleted, inserted) is Ok,
        contributions(aggregator, op, deleted, inserted)->Ok_0.0 matches Some(d) ==> counts(d) > 0,
        contributions(aggregator, op, deleted, inserted)->Ok_0.1 matches Some(i) ==> counts_moved(
            counts,
            contributions(aggregator, op, deleted, inserted)->Ok_0.0,
            true,
        )(i) + 1 < 0x1_0000_0000_0000_0000,
    ensures
        ({
            let (d, i) = contributions(aggregator, op, deleted, inserted)->Ok_0;
            let after = counts_moved(counts_moved(counts, d, true), i, false);
            let outcome = counted_outcome(aggregator, op, deleted, inserted, prefix, db, tables);
            &&& outcome is Ok
            &&& bag_stored(outcome->Ok_0.1, db, prefix, after)
            &&& match outcome->Ok_0.0 {
                FieldValue::Int(v) => is_extreme_value(after, aggregator == Aggregator::Min, v),
                FieldValue::Null => forall|w: i64| #[trigger] after(w) == 0,
                _ => false,
            }
        }),
{
    let (d, i) = contributions(aggregator, op, deleted, inserted)->Ok_0;
    lemma_bag_moved(tables, db, prefix, counts, d, true);
    let without = bag_moved(tables, db, prefix, d, true)->Ok_0;
    let fewer = counts_moved(counts, d, true);
    lemma_bag_moved(without, db, prefix, fewer, i, false);
    let moved = bag_moved(without, db, prefix, i, false)->Ok_0;
    lemma_extreme_value(
        moved,
        db,
        prefix,
        counts_moved(fewer, i, false),
        aggregator == Aggregator::Min,
    );
}

} // verus!
