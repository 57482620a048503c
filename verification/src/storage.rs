//! The key-value storage that operators keep their state in: named
//! databases of byte strings, a transaction to read and write them, and the
//! environment that holds what was committed.
//!
//! A database maps a key to a list of values. An ordinary database holds
//! one value under a key; one that sorts duplicates holds several, in
//! byte order and each once.

use vstd::prelude::*;
use crate::codec::copy_range;
use crate::errors::StorageError;
use crate::expression::comparison::{lexicographic_order, order_of_bytes};

verus! {

/// The values under a key, as byte strings.
pub type Values = Seq<Seq<u8>>;

/// One key and the values under it.
#[derive(Debug)]
pub struct Entry {
    pub key: Vec<u8>,
    pub values: Vec<Vec<u8>>,
}

/// The byte strings of a list, as values.
pub open spec fn values_of(list: Seq<Vec<u8>>) -> Values {
    Seq::new(list.len(), |i: int| list[i]@)
}

impl Entry {
    /// The values of the entry.
    pub open spec fn values_view(&self) -> Values {
        values_of(self.values@)
    }
}

/// A named database.
#[derive(Debug)]
pub struct Table {
    pub name: String,
    pub dup_sort: bool,
    pub entries: Vec<Entry>,
}

/// The mathematical value of a [`Table`].
pub struct TableValue {
    pub name: Seq<char>,
    pub dup_sort: bool,
    pub data: Map<Seq<u8>, Values>,
}

/// The values under `key` in a list of entries, the last entry of a key
/// being the one that counts.
pub open spec fn lookup(entries: Seq<Entry>, key: Seq<u8>) -> Option<Values>
    decreases entries.len(),
{
    if entries.len() == 0 {
        None
    } else if entries.last().key@ == key {
        Some(entries.last().values_view())
    } else {
        lookup(entries.drop_last(), key)
    }
}

/// The map that a list of entries stands for.
pub open spec fn entries_map(entries: Seq<Entry>) -> Map<Seq<u8>, Values> {
    Map::new(|k: Seq<u8>| lookup(entries, k) is Some, |k: Seq<u8>| lookup(entries, k)->Some_0)
}

impl View for Table {
    type V = TableValue;

    open spec fn view(&self) -> TableValue {
        TableValue { name: self.name@, dup_sort: self.dup_sort, data: entries_map(self.entries@) }
    }
}

/// `values` with `value` at its place in byte order, unless it is there
/// already.
pub open spec fn insert_sorted(values: Values, value: Seq<u8>) -> Values
    decreases values.len(),
{
    if values.len() == 0 {
        seq![value]
    } else {
        let order = lexicographic_order(values[0], value);
        if order == 0 {
            values
        } else if order > 0 {
            seq![value] + values
        } else {
            seq![values[0]] + insert_sorted(values.drop_first(), value)
        }
    }
}

/// `values` without the first value that is equal to `value`.
pub open spec fn remove_value(values: Values, value: Seq<u8>) -> Values
    decreases values.len(),
{
    if values.len() == 0 {
        values
    } else if values[0] == value {
        values.drop_first()
    } else {
        seq![values[0]] + remove_value(values.drop_first(), value)
    }
}

/// The first value under `key`, if the key is there.
pub open spec fn table_get(t: TableValue, key: Seq<u8>) -> Option<Seq<u8>> {
    if t.data.contains_key(key) && t.data[key].len() > 0 {
        Some(t.data[key][0])
    } else {
        None
    }
}

/// All values under `key`: none if the key is not there.
pub open spec fn table_get_all(t: TableValue, key: Seq<u8>) -> Values {
    if t.data.contains_key(key) {
        t.data[key]
    } else {
        Seq::empty()
    }
}

/// The database after `value` is put under `key`. An ordinary database
/// holds `value` alone under the key then; one that sorts duplicates holds
/// it among the values that were there.
pub open spec fn table_put(t: TableValue, key: Seq<u8>, value: Seq<u8>) -> TableValue {
    TableValue {
        data: t.data.insert(
            key,
            if t.dup_sort {
                insert_sorted(table_get_all(t, key), value)
            } else {
                seq![value]
            },
        ),
        ..t
    }
}

/// The values left under `key` after a deletion. Without a value, or in an
/// ordinary database, none is left. With one, in a database that sorts
/// duplicates, only that value leaves.
pub open spec fn values_after_delete(t: TableValue, key: Seq<u8>, value: Option<Seq<u8>>) -> Values {
    match value {
        Some(v) if t.dup_sort => remove_value(table_get_all(t, key), v),
        _ => Seq::empty(),
    }
}

/// The database after a deletion under `key`. A key with no value left
/// leaves the database.
pub open spec fn table_del(t: TableValue, key: Seq<u8>, value: Option<Seq<u8>>) -> TableValue {
    let rest = values_after_delete(t, key, value);
    TableValue {
        data: if rest.len() == 0 {
            t.data.remove(key)
        } else {
            t.data.insert(key, rest)
        },
        ..t
    }
}

/// Whether a deletion under `key` finds what it is to delete.
pub open spec fn table_del_finds(t: TableValue, key: Seq<u8>, value: Option<Seq<u8>>) -> bool {
    t.data.contains_key(key) && match value {
        Some(v) if t.dup_sort => t.data[key].contains(v),
        _ => true,
    }
}

proof fn lemma_lookup_push(entries: Seq<Entry>, e: Entry, key: Seq<u8>)
    ensures
        lookup(entries.push(e), key) == if e.key@ == key {
            Some(e.values_view())
        } else {
            lookup(entries, key)
        },
{
    assert(entries.push(e).drop_last() =~= entries);
}

/// Replacing the entry that counts for its key changes what is under that
/// key and nothing else.
proof fn lemma_lookup_update(entries: Seq<Entry>, i: int, e: Entry, key: Seq<u8>)
    requires
        0 <= i < entries.len(),
        e.key@ == entries[i].key@,
        forall|j: int| i < j < entries.len() ==> entries[j].key@ != e.key@,
    ensures
        lookup(entries.update(i, e), key) == if e.key@ == key {
            Some(e.values_view())
        } else {
            lookup(entries, key)
        },
    decreases entries.len(),
{
    let updated = entries.update(i, e);
    if i == entries.len() - 1 {
        assert(updated.drop_last() =~= entries.drop_last());
    } else {
        assert(updated.drop_last() =~= entries.drop_last().update(i, e));
        lemma_lookup_update(entries.drop_last(), i, e, key);
    }
}

/// Removing an entry changes nothing under the other keys.
proof fn lemma_lookup_remove_other(entries: Seq<Entry>, i: int, key: Seq<u8>)
    requires
        0 <= i < entries.len(),
        entries[i].key@ != key,
    ensures
        lookup(entries.remove(i), key) == lookup(entries, key),
    decreases entries.len(),
{
    let removed = entries.remove(i);
    if i == entries.len() - 1 {
        assert(removed =~= entries.drop_last());
    } else {
        assert(removed.drop_last() =~= entries.drop_last().remove(i));
        assert(removed.last() == entries.last());
        if entries.last().key@ != key {
            lemma_lookup_remove_other(entries.drop_last(), i, key);
        }
    }
}

/// Where no entry has the key, nothing is under it.
proof fn lemma_lookup_none(entries: Seq<Entry>, key: Seq<u8>)
    requires
        forall|j: int| 0 <= j < entries.len() ==> entries[j].key@ != key,
    ensures
        lookup(entries, key) is None,
    decreases entries.len(),
{
    if entries.len() > 0 {
        lemma_lookup_none(entries.drop_last(), key);
    }
}

/// Where `i` is the last entry with the key, its values are under it.
proof fn lemma_lookup_last_match(entries: Seq<Entry>, i: int, key: Seq<u8>)
    requires
        0 <= i < entries.len(),
        entries[i].key@ == key,
        forall|j: int| i < j < entries.len() ==> entries[j].key@ != key,
    ensures
        lookup(entries, key) == Some(entries[i].values_view()),
    decreases entries.len(),
{
    if i < entries.len() - 1 {
        lemma_lookup_last_match(entries.drop_last(), i, key);
    }
}

/// A copy of a byte string.
pub fn copy_bytes(bytes: &[u8]) -> (res: Vec<u8>)
    ensures
        res@ == bytes@,
{
    let res = copy_range(bytes, 0, bytes.len());
    assert(bytes@.subrange(0, bytes@.len() as int) =~= bytes@);
    res
}

/// A copy of a list of byte strings.
pub fn copy_values(values: &Vec<Vec<u8>>) -> (res: Vec<Vec<u8>>)
    ensures
        res@.len() == values@.len(),
        forall|i: int| 0 <= i < values@.len() ==> res@[i]@ == values@[i]@,
{
    let mut out: Vec<Vec<u8>> = Vec::new();
    let mut i: usize = 0;
    while i < values.len()
        invariant
            i <= values.len(),
            out@.len() == i,
            forall|j: int| 0 <= j < i ==> out@[j]@ == values@[j]@,
        decreases values.len() - i,
    {
        out.push(copy_bytes(values[i].as_slice()));
        i += 1;
    }
    out
}

/// Puts `value` at its place in byte order, unless it is there already.
fn insert_value(values: &mut Vec<Vec<u8>>, value: Vec<u8>)
    ensures
        values_of(final(values)@) == insert_sorted(
            values_of(old(values)@),
            value@,
        ),
{
    let ghost before = values_of(values@);
    let ghost start = values@;
    let mut i: usize = 0;
    assert(before.skip(0) =~= before);
    assert(before.take(0) + insert_sorted(before, value@) =~= insert_sorted(before, value@));
    while i < values.len()
        invariant
            i <= values.len(),
            values@ == start,
            start == old(values)@,
            before == values_of(start),
            insert_sorted(before, value@) == before.take(i as int) + insert_sorted(
                before.skip(i as int),
                value@,
            ),
        decreases values.len() - i,
    {
        let ghost rest = before.skip(i as int);
        assert(rest[0] == values@[i as int]@);
        assert(rest.drop_first() =~= before.skip(i + 1));
        assert(before.take(i + 1) =~= before.take(i as int) + seq![rest[0]]);
        let order = order_of_bytes(values[i].as_slice(), value.as_slice());
        if order == 0 {
            assert(before.take(i as int) + rest =~= before);
            return ;
        } else if order > 0 {
            values.insert(i, value);
            assert(values_of(values@) =~= before.take(i as int) + (
            seq![value@] + rest));
            return ;
        }
        assert(before.take(i as int) + (seq![rest[0]] + insert_sorted(rest.drop_first(), value@))
            =~= before.take(i + 1) + insert_sorted(before.skip(i + 1), value@));
        i += 1;
    }
    assert(before.skip(i as int) =~= Seq::<Seq<u8>>::empty());
    assert(before.take(i as int) =~= before);
    values.push(value);
    assert(values_of(values@) =~= before + seq![value@]);
}

/// Takes out the first value equal to `value`. Says whether there was one.
fn take_value(values: &mut Vec<Vec<u8>>, value: &[u8]) -> (found: bool)
    ensures
        values_of(final(values)@) == remove_value(
            values_of(old(values)@),
            value@,
        ),
        found == values_of(old(values)@).contains(value@),
{
    let ghost before = values_of(values@);
    let ghost start = values@;
    let mut i: usize = 0;
    assert(before.skip(0) =~= before);
    assert(before.take(0) + remove_value(before, value@) =~= remove_value(before, value@));
    while i < values.len()
        invariant
            i <= values.len(),
            values@ == start,
            start == old(values)@,
            before == values_of(start),
            remove_value(before, value@) == before.take(i as int) + remove_value(
                before.skip(i as int),
                value@,
            ),
            forall|j: int| 0 <= j < i ==> before[j] != value@,
        decreases values.len() - i,
    {
        let ghost rest = before.skip(i as int);
        assert(rest[0] == values@[i as int]@);
        assert(rest.drop_first() =~= before.skip(i + 1));
        assert(before.take(i + 1) =~= before.take(i as int) + seq![rest[0]]);
        if order_of_bytes(values[i].as_slice(), value) == 0 {
            proof {
                lemma_order_zero_is_equal(values@[i as int]@, value@);
            }
            values.remove(i);
            assert(values_of(values@) =~= before.take(i as int)
                + rest.drop_first());
            assert(before[i as int] == value@);
            return true;
        }
        proof {
            lemma_order_zero_is_equal(values@[i as int]@, value@);
        }
        assert(before.take(i as int) + (seq![rest[0]] + remove_value(rest.drop_first(), value@))
            =~= before.take(i + 1) + remove_value(before.skip(i + 1), value@));
        i += 1;
    }
    assert(before.skip(i as int) =~= Seq::<Seq<u8>>::empty());
    assert(before.take(i as int) =~= before);
    assert(before.take(i as int) + remove_value(before.skip(i as int), value@) =~= before);
    false
}

/// Two byte strings compare as equal exactly where they are equal.
pub proof fn lemma_order_zero_is_equal(a: Seq<u8>, b: Seq<u8>)
    ensures
        lexicographic_order(a, b) == 0 <==> a == b,
    decreases a.len(),
{
    if a.len() > 0 && b.len() > 0 {
        lemma_order_zero_is_equal(a.drop_first(), b.drop_first());
        if a[0] == b[0] && a.drop_first() == b.drop_first() {
            assert(a =~= seq![a[0]] + a.drop_first());
            assert(b =~= seq![b[0]] + b.drop_first());
        }
    } else if a.len() == 0 && b.len() == 0 {
        assert(a =~= b);
    }
}

impl Table {
    /// An empty database.
    pub fn new(name: String, dup_sort: bool) -> (res: Self)
        ensures
            res@.name == name@,
            res@.dup_sort == dup_sort,
            res@.data == Map::<Seq<u8>, Values>::empty(),
    {
        let res = Table { name, dup_sort, entries: Vec::new() };
        assert(res@.data =~= Map::<Seq<u8>, Values>::empty());
        res
    }

    /// The place of the entry that counts for `key`.
    fn find(&self, key: &[u8]) -> (res: Option<usize>)
        ensures
            match res {
                Some(i) => i < self.entries@.len() && self.entries@[i as int].key@ == key@
                    && (forall|j: int| i < j < self.entries@.len() ==> self.entries@[j].key@
                    != key@) && lookup(self.entries@, key@) == Some(
                    self.entries@[i as int].values_view(),
                ),
                None => lookup(self.entries@, key@) is None && forall|j: int|
                    0 <= j < self.entries@.len() ==> self.entries@[j].key@ != key@,
            },
    {
        let mut i: usize = self.entries.len();
        while i > 0
            invariant
                i <= self.entries@.len(),
                forall|j: int| i <= j < self.entries@.len() ==> self.entries@[j].key@ != key@,
            decreases i,
        {
            i -= 1;
            if order_of_bytes(self.entries[i].key.as_slice(), key) == 0 {
                proof {
                    lemma_order_zero_is_equal(self.entries@[i as int].key@, key@);
                    lemma_lookup_last_match(self.entries@, i as int, key@);
                }
                return Some(i);
            }
            proof {
                lemma_order_zero_is_equal(self.entries@[i as int].key@, key@);
            }
        }
        proof {
            lemma_lookup_none(self.entries@, key@);
        }
        None
    }

    /// The first value under `key`.
    pub fn get(&self, key: &[u8]) -> (res: Option<Vec<u8>>)
        ensures
            match table_get(self@, key@) {
                Some(v) => res is Some && res->Some_0@ == v,
                None => res is None,
            },
    {
        match self.find(key) {
            Some(i) => {
                if self.entries[i].values.len() > 0 {
                    Some(copy_bytes(self.entries[i].values[0].as_slice()))
                } else {
                    None
                }
            },
            None => None,
        }
    }

    /// All values under `key`, in order.
    pub fn get_all(&self, key: &[u8]) -> (res: Vec<Vec<u8>>)
        ensures
            values_of(res@) == table_get_all(self@, key@),
    {
        match self.find(key) {
            Some(i) => {
                let res = copy_values(&self.entries[i].values);
                assert(values_of(res@) =~= table_get_all(self@, key@));
                res
            },
            None => {
                let res: Vec<Vec<u8>> = Vec::new();
                assert(values_of(res@) =~= table_get_all(self@, key@));
                res
            },
        }
    }

    /// Puts `value` under `key`.
    pub fn put(&mut self, key: &[u8], value: &[u8])
        ensures
            final(self)@ == table_put(old(self)@, key@, value@),
    {
        let ghost before = self.entries@;
        match self.find(key) {
            Some(i) => {
                if self.dup_sort {
                    insert_value(&mut self.entries[i].values, copy_bytes(value));
                } else {
                    let mut values: Vec<Vec<u8>> = Vec::new();
                    values.push(copy_bytes(value));
                    self.entries[i].values = values;
                    assert(self.entries@[i as int].values_view() =~= seq![value@]);
                }
                proof {
                    let e = self.entries@[i as int];
                    assert(self.entries@ =~= before.update(i as int, e));
                    assert forall|k: Seq<u8>| #[trigger]
                        lookup(self.entries@, k) == if k == key@ {
                            Some(e.values_view())
                        } else {
                            lookup(before, k)
                        } by {
                        lemma_lookup_update(before, i as int, e, k);
                    }
                }
            },
            None => {
                let mut values: Vec<Vec<u8>> = Vec::new();
                values.push(copy_bytes(value));
                let e = Entry { key: copy_bytes(key), values };
                assert(e.values_view() =~= seq![value@]);
                assert(insert_sorted(Seq::empty(), value@) =~= seq![value@]);
                self.entries.push(e);
                proof {
                    assert forall|k: Seq<u8>| #[trigger]
                        lookup(self.entries@, k) == if k == key@ {
                            Some(e.values_view())
                        } else {
                            lookup(before, k)
                        } by {
                        lemma_lookup_push(before, e, k);
                    }
                }
            },
        }
        assert(self@.data =~= table_put(old(self)@, key@, value@).data);
    }

    /// Takes out every entry of `key`.
    fn remove_key(&mut self, key: &[u8])
        ensures
            final(self)@.name == old(self)@.name,
            final(self)@.dup_sort == old(self)@.dup_sort,
            final(self)@.data == old(self)@.data.remove(key@),
    {
        let ghost before = self.entries@;
        loop
            invariant
                self.name == old(self).name,
                self.dup_sort == old(self).dup_sort,
                forall|k: Seq<u8>| k != key@ ==> #[trigger] lookup(self.entries@, k) == lookup(before, k),
            ensures
                lookup(self.entries@, key@) is None,
            decreases self.entries@.len(),
        {
            match self.find(key) {
                Some(i) => {
                    let ghost current = self.entries@;
                    self.entries.remove(i);
                    proof {
                        assert forall|k: Seq<u8>| k != key@ implies #[trigger] lookup(
                            self.entries@,
                            k,
                        ) == lookup(before, k) by {
                            lemma_lookup_remove_other(current, i as int, k);
                        }
                    }
                },
                None => {
                    break ;
                },
            }
        }
        assert(self@.data =~= old(self)@.data.remove(key@));
    }

    /// Deletes under `key`: all that is there, or, with a value and in a
    /// database that sorts duplicates, that value. Says whether there was
    /// anything to delete.
    pub fn del(&mut self, key: &[u8], value: Option<&[u8]>) -> (found: bool)
        ensures
            final(self)@ == table_del(
                old(self)@,
                key@,
                match value {
                    Some(v) => Some(v@),
                    None => None,
                },
            ),
            found == table_del_finds(
                old(self)@,
                key@,
                match value {
                    Some(v) => Some(v@),
                    None => None,
                },
            ),
    {
        let ghost before = self.entries@;
        let ghost spec_value: Option<Seq<u8>> = match value {
            Some(v) => Some(v@),
            None => None,
        };
        match self.find(key) {
            None => {
                assert(values_after_delete(self@, key@, spec_value).len() == 0) by {
                    if let Some(v) = spec_value {
                        assert(remove_value(Seq::empty(), v).len() == 0);
                    }
                }
                assert(self@.data =~= table_del(old(self)@, key@, spec_value).data);
                false
            },
            Some(i) => {
                match value {
                    Some(v) if self.dup_sort => {
                        let found = take_value(&mut self.entries[i].values, v);
                        let ghost e = self.entries@[i as int];
                        proof {
                            assert(self.entries@ =~= before.update(i as int, e));
                            assert forall|k: Seq<u8>| #[trigger]
                                lookup(self.entries@, k) == if k == key@ {
                                    Some(e.values_view())
                                } else {
                                    lookup(before, k)
                                } by {
                                lemma_lookup_update(before, i as int, e, k);
                            }
                        }
                        if self.entries[i].values.len() == 0 {
                            self.remove_key(key);
                            assert(self@.data =~= table_del(old(self)@, key@, spec_value).data);
                        } else {
                            assert(self@.data =~= table_del(old(self)@, key@, spec_value).data);
                        }
                        found
                    },
                    _ => {
                        self.remove_key(key);
                        true
                    },
                }
            },
        }
    }
}

impl Clone for Table {
    fn clone(&self) -> (res: Self)
        ensures
            res@ == self@,
    {
        let mut entries: Vec<Entry> = Vec::new();
        let mut i: usize = 0;
        while i < self.entries.len()
            invariant
                i <= self.entries.len(),
                entries@.len() == i,
                forall|j: int|
                    0 <= j < i ==> entries@[j].key@ == self.entries@[j].key@
                        && entries@[j].values_view() == self.entries@[j].values_view(),
            decreases self.entries.len() - i,
        {
            let values = copy_values(&self.entries[i].values);
            assert(values_of(values@) =~= self.entries@[i as int].values_view());
            entries.push(Entry { key: copy_bytes(self.entries[i].key.as_slice()), values });
            i += 1;
        }
        proof {
            assert forall|k: Seq<u8>| lookup(entries@, k) == lookup(self.entries@, k) by {
                lemma_lookup_same(entries@, self.entries@, k);
            }
        }
        let res = Table { name: self.name.clone(), dup_sort: self.dup_sort, entries };
        assert(res@.data =~= self@.data);
        res
    }
}

/// Lists of entries with the same keys and values hold the same under
/// every key.
proof fn lemma_lookup_same(a: Seq<Entry>, b: Seq<Entry>, key: Seq<u8>)
    requires
        a.len() == b.len(),
        forall|j: int|
            0 <= j < a.len() ==> a[j].key@ == b[j].key@ && a[j].values_view() == b[j].values_view(),
    ensures
        lookup(a, key) == lookup(b, key),
    decreases a.len(),
{
    if a.len() > 0 {
        lemma_lookup_same(a.drop_last(), b.drop_last(), key);
    }
}

/// Names a database of an environment.
#[derive(Clone, Copy, Debug, PartialEq, Eq, Structural)]
pub struct Database {
    pub id: usize,
}

/// The databases of a transaction or an environment, as values.
pub open spec fn tables_view(tables: Seq<Table>) -> Seq<TableValue> {
    Seq::new(tables.len(), |i: int| tables[i]@)
}

/// The place of the first database called `name`.
pub open spec fn index_of_name(tables: Seq<TableValue>, name: Seq<char>) -> Option<int>
    decreases tables.len(),
{
    if tables.len() == 0 {
        None
    } else {
        match index_of_name(tables.drop_last(), name) {
            Some(i) => Some(i),
            None => if tables.last().name == name {
                Some(tables.len() - 1)
            } else {
                None
            },
        }
    }
}

/// The first value under `key` in a database, or that the handle names
/// none.
pub open spec fn state_get(tables: Seq<TableValue>, db: Database, key: Seq<u8>) -> Result<
    Option<Seq<u8>>,
    StorageError,
> {
    if db.id < tables.len() {
        Ok(table_get(tables[db.id as int], key))
    } else {
        Err(StorageError::InvalidDatabase)
    }
}

/// The databases after `value` is put under `key` in one of them.
pub open spec fn state_put(tables: Seq<TableValue>, db: Database, key: Seq<u8>, value: Seq<u8>) -> Seq<
    TableValue,
> {
    if db.id < tables.len() {
        tables.update(db.id as int, table_put(tables[db.id as int], key, value))
    } else {
        tables
    }
}

/// The databases after a deletion under `key` in one of them.
pub open spec fn state_del(
    tables: Seq<TableValue>,
    db: Database,
    key: Seq<u8>,
    value: Option<Seq<u8>>,
) -> Seq<TableValue> {
    if db.id < tables.len() {
        tables.update(db.id as int, table_del(tables[db.id as int], key, value))
    } else {
        tables
    }
}

/// The databases after one called `name` is opened: as they were where one
/// of that name is there, and with an empty one at the end where none is.
pub open spec fn state_open(tables: Seq<TableValue>, name: Seq<char>, dup_sort: bool) -> Seq<
    TableValue,
> {
    if index_of_name(tables, name) is Some {
        tables
    } else {
        tables.push(TableValue { name, dup_sort, data: Map::empty() })
    }
}

/// The handle that opening a database called `name` gives.
pub open spec fn handle_of(tables: Seq<TableValue>, name: Seq<char>) -> Database {
    match index_of_name(tables, name) {
        Some(i) => Database { id: i as usize },
        None => Database { id: tables.len() as usize },
    }
}

/// Opens the database called `name` in a list of databases.
fn open_in(tables: &mut Vec<Table>, name: &str, dup_sort: bool) -> (db: Database)
    ensures
        tables_view(final(tables)@) == state_open(tables_view(old(tables)@), name@, dup_sort),
        db == handle_of(tables_view(old(tables)@), name@),
        db.id < final(tables)@.len(),
{
    let wanted = name.to_owned();
    let ghost before = tables_view(tables@);
    let mut i: usize = 0;
    assert(before.take(0) =~= Seq::<TableValue>::empty());
    while i < tables.len()
        invariant
            i <= tables.len(),
            tables@ == old(tables)@,
            before == tables_view(tables@),
            wanted@ == name@,
            index_of_name(before.take(i as int), name@) is None,
        decreases tables.len() - i,
    {
        assert(before.take(i + 1).drop_last() =~= before.take(i as int));
        if tables[i].name == wanted {
            proof {
                lemma_index_of_name_prefix(before, i + 1, name@);
            }
            return Database { id: i };
        }
        i += 1;
    }
    assert(before.take(i as int) =~= before);
    tables.push(Table::new(wanted, dup_sort));
    assert(tables_view(tables@) =~= state_open(before, name@, dup_sort));
    Database { id: i }
}

/// What is found among the first databases is found among all of them.
proof fn lemma_index_of_name_prefix(tables: Seq<TableValue>, n: int, name: Seq<char>)
    requires
        0 <= n <= tables.len(),
        index_of_name(tables.take(n), name) is Some,
    ensures
        index_of_name(tables, name) == index_of_name(tables.take(n), name),
    decreases tables.len() - n,
{
    if n < tables.len() {
        assert(tables.take(n + 1).drop_last() =~= tables.take(n));
        lemma_index_of_name_prefix(tables, n + 1, name);
    } else {
        assert(tables.take(n) =~= tables);
    }
}

/// A copy of a list of databases.
fn copy_tables(tables: &Vec<Table>) -> (res: Vec<Table>)
    ensures
        tables_view(res@) == tables_view(tables@),
{
    let mut out: Vec<Table> = Vec::new();
    let mut i: usize = 0;
    while i < tables.len()
        invariant
            i <= tables.len(),
            out@.len() == i,
            forall|j: int| 0 <= j < i ==> out@[j]@ == tables@[j]@,
        decreases tables.len() - i,
    {
        out.push(tables[i].clone());
        i += 1;
    }
    assert(tables_view(out@) =~= tables_view(tables@));
    out
}

/// The one writer's view of the databases during an epoch. What it writes
/// is read back at once by whoever holds it, and reaches the environment
/// when the transaction is committed.
#[derive(Debug)]
pub struct Transaction {
    pub tables: Vec<Table>,
}

impl View for Transaction {
    type V = Seq<TableValue>;

    open spec fn view(&self) -> Seq<TableValue> {
        tables_view(self.tables@)
    }
}

impl Clone for Transaction {
    fn clone(&self) -> (res: Self)
        ensures
            res@ == self@,
    {
        Transaction { tables: copy_tables(&self.tables) }
    }
}

impl Transaction {
    /// A transaction on no database.
    pub fn new() -> (res: Self)
        ensures
            res@ == Seq::<TableValue>::empty(),
    {
        let res = Transaction { tables: Vec::new() };
        assert(res@ =~= Seq::<TableValue>::empty());
        res
    }

    /// Opens the database called `name`, making it where there is none of
    /// that name. Opening it again gives the same handle and changes
    /// nothing.
    pub fn open_database(&mut self, name: &str, dup_sort: bool) -> (db: Database)
        ensures
            final(self)@ == state_open(old(self)@, name@, dup_sort),
            db == handle_of(old(self)@, name@),
            db.id < final(self)@.len(),
    {
        open_in(&mut self.tables, name, dup_sort)
    }

    /// The first value under `key`.
    pub fn get(&self, db: Database, key: &[u8]) -> (res: Result<Option<Vec<u8>>, StorageError>)
        ensures
            match state_get(self@, db, key@) {
                Ok(Some(v)) => res matches Ok(Some(r)) && r@ == v,
                Ok(None) => res matches Ok(None),
                Err(e) => res matches Err(r) && r == e,
            },
    {
        if db.id < self.tables.len() {
            Ok(self.tables[db.id].get(key))
        } else {
            Err(StorageError::InvalidDatabase)
        }
    }

    /// All values under `key`, in order.
    pub fn get_all(&self, db: Database, key: &[u8]) -> (res: Result<Vec<Vec<u8>>, StorageError>)
        ensures
            db.id < self@.len() ==> res is Ok && values_of(res->Ok_0@) == table_get_all(
                self@[db.id as int],
                key@,
            ),
            db.id >= self@.len() ==> res == Err::<Vec<Vec<u8>>, StorageError>(
                StorageError::InvalidDatabase,
            ),
    {
        if db.id < self.tables.len() {
            Ok(self.tables[db.id].get_all(key))
        } else {
            Err(StorageError::InvalidDatabase)
        }
    }

    /// Puts `value` under `key`.
    pub fn put(&mut self, db: Database, key: &[u8], value: &[u8]) -> (res: Result<(), StorageError>)
        ensures
            final(self)@ == state_put(old(self)@, db, key@, value@),
            db.id < old(self)@.len() ==> res is Ok,
            db.id >= old(self)@.len() ==> res == Err::<(), StorageError>(
                StorageError::InvalidDatabase,
            ),
    {
        if db.id < self.tables.len() {
            self.tables[db.id].put(key, value);
            assert(self@ =~= state_put(old(self)@, db, key@, value@));
            Ok(())
        } else {
            Err(StorageError::InvalidDatabase)
        }
    }

    /// Deletes under `key`: all that is there, or, with a value and in a
    /// database that sorts duplicates, that value. Says whether there was
    /// anything to delete.
    pub fn del(&mut self, db: Database, key: &[u8], value: Option<&[u8]>) -> (res: Result<
        bool,
        StorageError,
    >)
        ensures
            final(self)@ == state_del(
                old(self)@,
                db,
                key@,
                match value {
                    Some(v) => Some(v@),
                    None => None,
                },
            ),
            db.id < old(self)@.len() ==> res == Ok::<bool, StorageError>(
                table_del_finds(
                    old(self)@[db.id as int],
                    key@,
                    match value {
                        Some(v) => Some(v@),
                        None => None,
                    },
                ),
            ),
            db.id >= old(self)@.len() ==> res == Err::<bool, StorageError>(
                StorageError::InvalidDatabase,
            ),
    {
        if db.id < self.tables.len() {
            let found = self.tables[db.id].del(key, value);
            assert(self@ =~= state_del(
                old(self)@,
                db,
                key@,
                match value {
                    Some(v) => Some(v@),
                    None => None,
                },
            ));
            Ok(found)
        } else {
            Err(StorageError::InvalidDatabase)
        }
    }
}

/// The databases of a pipeline as of the last commit.
#[derive(Debug)]
pub struct Environment {
    pub tables: Vec<Table>,
}

impl View for Environment {
    type V = Seq<TableValue>;

    open spec fn view(&self) -> Seq<TableValue> {
        tables_view(self.tables@)
    }
}

impl Environment {
    /// An environment without databases.
    pub fn new() -> (res: Self)
        ensures
            res@ == Seq::<TableValue>::empty(),
    {
        let res = Environment { tables: Vec::new() };
        assert(res@ =~= Seq::<TableValue>::empty());
        res
    }

    /// Opens the database called `name`, making it where there is none of
    /// that name. Opening it again gives the same handle and changes
    /// nothing.
    pub fn open_database(&mut self, name: &str, dup_sort: bool) -> (db: Database)
        ensures
            final(self)@ == state_open(old(self)@, name@, dup_sort),
            db == handle_of(old(self)@, name@),
            db.id < final(self)@.len(),
    {
        open_in(&mut self.tables, name, dup_sort)
    }

    /// Begins an epoch: a transaction that sees what was committed.
    pub fn begin(&self) -> (txn: Transaction)
        ensures
            txn@ == self@,
    {
        Transaction { tables: copy_tables(&self.tables) }
    }

    /// Ends an epoch: all that the transaction wrote becomes the committed
    /// state at once.
    pub fn commit(&mut self, txn: Transaction)
        ensures
            final(self)@ == txn@,
    {
        self.tables = txn.tables;
    }
}

/// Whether a key starts with the prefix.
pub open spec fn has_prefix(key: Seq<u8>, prefix: Seq<u8>) -> bool {
    key.len() >= prefix.len() && key.subrange(0, prefix.len() as int) == prefix
}

/// Whether `key` is the first, or with `least` unset the last, in byte
/// order of the keys of a database that start with the prefix.
pub open spec fn is_extreme(t: TableValue, prefix: Seq<u8>, least: bool, key: Seq<u8>) -> bool {
    &&& t.data.contains_key(key)
    &&& has_prefix(key, prefix)
    &&& forall|other: Seq<u8>|
        #![trigger t.data.contains_key(other)]
        t.data.contains_key(other) && has_prefix(other, prefix) ==> if least {
            lexicographic_order(key, other) <= 0
        } else {
            lexicographic_order(key, other) >= 0
        }
}

/// The first, or the last, of the keys of a database that start with the
/// prefix: none where no key starts with it.
pub open spec fn extreme_key(t: TableValue, prefix: Seq<u8>, least: bool) -> Option<Seq<u8>> {
    if exists|key: Seq<u8>| is_extreme(t, prefix, least, key) {
        Some(choose|key: Seq<u8>| is_extreme(t, prefix, least, key))
    } else {
        None
    }
}

/// There is one first and one last key at most.
pub proof fn lemma_extreme_is_unique(
    t: TableValue,
    prefix: Seq<u8>,
    least: bool,
    a: Seq<u8>,
    b: Seq<u8>,
)
    requires
        is_extreme(t, prefix, least, a),
        is_extreme(t, prefix, least, b),
    ensures
        a == b,
{
    crate::expression::comparison::lemma_order_antisymmetric(a, b);
    lemma_order_zero_is_equal(a, b);
}

/// A key is in a database exactly where an entry has it.
proof fn lemma_lookup_some(entries: Seq<Entry>, key: Seq<u8>)
    ensures
        lookup(entries, key) is Some <==> exists|j: int|
            0 <= j < entries.len() && (#[trigger] entries[j]).key@ == key,
    decreases entries.len(),
{
    if entries.len() > 0 {
        lemma_lookup_some(entries.drop_last(), key);
        if lookup(entries, key) is Some {
            if entries.last().key@ == key {
                assert(entries[entries.len() - 1].key@ == key);
            } else {
                let j = choose|j: int|
                    0 <= j < entries.drop_last().len() && (#[trigger] entries.drop_last()[j]).key@
                        == key;
                assert(entries[j].key@ == key);
            }
        }
        if exists|j: int| 0 <= j < entries.len() && (#[trigger] entries[j]).key@ == key {
            let j = choose|j: int| 0 <= j < entries.len() && (#[trigger] entries[j]).key@ == key;
            if j < entries.len() - 1 {
                assert(entries.drop_last()[j].key@ == key);
            }
        }
    }
}

/// Whether a byte string starts with another.
pub fn starts_with(key: &[u8], prefix: &[u8]) -> (res: bool)
    ensures
        res == has_prefix(key@, prefix@),
{
    if key.len() < prefix.len() {
        return false;
    }
    let mut i: usize = 0;
    while i < prefix.len()
        invariant
            i <= prefix.len() <= key.len(),
            forall|j: int| 0 <= j < i ==> key@[j] == prefix@[j],
        decreases prefix.len() - i,
    {
        if key[i] != prefix[i] {
            assert(key@.subrange(0, prefix@.len() as int)[i as int] != prefix@[i as int]);
            return false;
        }
        i += 1;
    }
    assert(key@.subrange(0, prefix@.len() as int) =~= prefix@);
    true
}

impl Table {
    /// The first, or with `least` unset the last, in byte order of the keys
    /// that start with the prefix.
    pub fn extreme_key(&self, prefix: &[u8], least: bool) -> (res: Option<Vec<u8>>)
        ensures
            match extreme_key(self@, prefix@, least) {
                Some(key) => res is Some && res->Some_0@ == key,
                None => res is None,
            },
    {
        let mut best: Option<usize> = None;
        let mut i: usize = 0;
        while i < self.entries.len()
            invariant
                i <= self.entries.len(),
                match best {
                    Some(b) => b < i && has_prefix(self.entries@[b as int].key@, prefix@)
                        && forall|j: int|
                        0 <= j < i && has_prefix((#[trigger] self.entries@[j]).key@, prefix@)
                            ==> if least {
                            lexicographic_order(self.entries@[b as int].key@, self.entries@[j].key@)
                                <= 0
                        } else {
                            lexicographic_order(self.entries@[b as int].key@, self.entries@[j].key@)
                                >= 0
                        },
                    None => forall|j: int|
                        0 <= j < i ==> !has_prefix((#[trigger] self.entries@[j]).key@, prefix@),
                },
            decreases self.entries.len() - i,
        {
            if starts_with(self.entries[i].key.as_slice(), prefix) {
                match best {
                    None => {
                        proof {
                            lemma_order_zero_is_equal(
                                self.entries@[i as int].key@,
                                self.entries@[i as int].key@,
                            );
                        }
                        best = Some(i);
                    },
                    Some(b) => {
                        let order = order_of_bytes(
                            self.entries[i].key.as_slice(),
                            self.entries[b].key.as_slice(),
                        );
                        let better = if least {
                            order < 0
                        } else {
                            order > 0
                        };
                        proof {
                            let ki = self.entries@[i as int].key@;
                            let kb = self.entries@[b as int].key@;
                            crate::expression::comparison::lemma_order_antisymmetric(ki, kb);
                            lemma_order_zero_is_equal(ki, ki);
                            if better {
                                assert forall|j: int|
                                    0 <= j < i + 1 && has_prefix(
                                        (#[trigger] self.entries@[j]).key@,
                                        prefix@,
                                    ) implies if least {
                                    lexicographic_order(ki, self.entries@[j].key@) <= 0
                                } else {
                                    lexicographic_order(ki, self.entries@[j].key@) >= 0
                                } by {
                                    let kj = self.entries@[j].key@;
                                    if j < i {
                                        if least {
                                            crate::expression::comparison::lemma_order_transitive(
                                                ki,
                                                kb,
                                                kj,
                                            );
                                        } else {
                                            crate::expression::comparison::lemma_order_antisymmetric(
                                                kb,
                                                kj,
                                            );
                                            crate::expression::comparison::lemma_order_antisymmetric(
                                                kj,
                                                ki,
                                            );
                                            crate::expression::comparison::lemma_order_transitive(
                                                kj,
                                                kb,
                                                ki,
                                            );
                                        }
                                    }
                                }
                            }
                        }
                        if better {
                            best = Some(i);
                        }
                    },
                }
            }
            i += 1;
        }
        proof {
            assert forall|key: Seq<u8>|
                self@.data.contains_key(key) <==> exists|j: int|
                    0 <= j < self.entries@.len() && (#[trigger] self.entries@[j]).key@ == key by {
                lemma_lookup_some(self.entries@, key);
            }
        }
        match best {
            Some(b) => {
                let res = copy_bytes(self.entries[b].key.as_slice());
                proof {
                    let kb = self.entries@[b as int].key@;
                    assert(self@.data.contains_key(kb));
                    assert forall|other: Seq<u8>|
                        #![trigger self@.data.contains_key(other)]
                        self@.data.contains_key(other) && has_prefix(other, prefix@) implies if least {
                        lexicographic_order(kb, other) <= 0
                    } else {
                        lexicographic_order(kb, other) >= 0
                    } by {
                        let j = choose|j: int|
                            0 <= j < self.entries@.len() && (#[trigger] self.entries@[j]).key@
                                == other;
                        assert(has_prefix(self.entries@[j].key@, prefix@));
                    }
                    assert(is_extreme(self@, prefix@, least, kb));
                    lemma_extreme_is_unique(
                        self@,
                        prefix@,
                        least,
                        kb,
                        extreme_key(self@, prefix@, least)->Some_0,
                    );
                }
                Some(res)
            },
            None => {
                proof {
                    if exists|key: Seq<u8>| is_extreme(self@, prefix@, least, key) {
                        let key = choose|key: Seq<u8>| is_extreme(self@, prefix@, least, key);
                        assert(self@.data.contains_key(key));
                        let j = choose|j: int|
                            0 <= j < self.entries@.len() && (#[trigger] self.entries@[j]).key@
                                == key;
                        assert(!has_prefix(self.entries@[j].key@, prefix@));
                    }
                }
                None
            },
        }
    }
}

/// The first, or the last, of the keys of a database that start with the
/// prefix, or that the handle names no database.
pub open spec fn state_extreme(
    tables: Seq<TableValue>,
    db: Database,
    prefix: Seq<u8>,
    least: bool,
) -> Result<Option<Seq<u8>>, StorageError> {
    if db.id < tables.len() {
        Ok(extreme_key(tables[db.id as int], prefix, least))
    } else {
        Err(StorageError::InvalidDatabase)
    }
}

impl Transaction {
    /// The first, or with `least` unset the last, in byte order of the keys
    /// of a database that start with the prefix.
    pub fn extreme_key(&self, db: Database, prefix: &[u8], least: bool) -> (res: Result<
        Option<Vec<u8>>,
        StorageError,
    >)
        ensures
            match state_extreme(self@, db, prefix@, least) {
                Ok(Some(key)) => res matches Ok(Some(r)) && r@ == key,
                Ok(None) => res matches Ok(None),
                Err(e) => res matches Err(r) && r == e,
            },
    {
        if db.id < self.tables.len() {
            Ok(self.tables[db.id].extreme_key(prefix, least))
        } else {
            Err(StorageError::InvalidDatabase)
        }
    }
}

} // verus!
