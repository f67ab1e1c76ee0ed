use vstd::prelude::*;
use vstd::hash_map::StringHashMap;
use crate::calendar::Service;
use crate::graph::Stop;
use crate::records::{Route, Trip};

verus! {

/// A record that is filed under a textual identifier.
pub trait Keyed {
    /// The identifier of the record.
    spec fn key(&self) -> Seq<char>;

    /// The identifier of the record.
    fn key_text(&self) -> (text: &String)
        ensures
            text@ == self.key(),
    ;
}

impl Keyed for Stop {
    open spec fn key(&self) -> Seq<char> {
        self.stop_id@
    }

    fn key_text(&self) -> (text: &String) {
        &self.stop_id
    }
}

impl Keyed for Route {
    open spec fn key(&self) -> Seq<char> {
        self.route_id@
    }

    fn key_text(&self) -> (text: &String) {
        &self.route_id
    }
}

impl Keyed for Trip {
    open spec fn key(&self) -> Seq<char> {
        self.trip_id@
    }

    fn key_text(&self) -> (text: &String) {
        &self.trip_id
    }
}

impl Keyed for Service {
    open spec fn key(&self) -> Seq<char> {
        self.service_id@
    }

    fn key_text(&self) -> (text: &String) {
        &self.service_id
    }
}

/// The identifiers of a sequence of records.
pub open spec fn keys_of<T: Keyed>(rows: Seq<T>) -> Seq<Seq<char>> {
    Seq::new(rows.len(), |i: int| rows[i].key())
}

/// Whether `index` leads from every identifier of `keys` to its place, and
/// from nothing else.
pub open spec fn is_index_of(index: Map<Seq<char>, usize>, keys: Seq<Seq<char>>) -> bool {
    &&& forall|i: int|
        0 <= i < keys.len() ==> index.contains_key(#[trigger] keys[i]) && index[keys[i]] == i
    &&& forall|k: Seq<char>| #[trigger]
        index.contains_key(k) ==> index[k] < keys.len() && keys[index[k] as int] == k
}

/// Whether the record at place `i` is the last one of `records` under its
/// identifier.
pub open spec fn is_last_of_key<T: Keyed>(records: Seq<T>, i: int) -> bool {
    &&& 0 <= i < records.len()
    &&& forall|j: int| i < j < records.len() ==> (#[trigger] records[j]).key() != records[i].key()
}

/// Whether `row` is the last record of `records` under its identifier,
/// found at or after place `from`.
pub open spec fn is_last_record<T: Keyed>(records: Seq<T>, from: int, row: T) -> bool {
    exists|i: int| #[trigger] is_last_of_key(records, i) && from <= i && row == records[i]
}

/// Whether `rows` holds, for each identifier of `records`, the last record
/// under it, and nothing else.
pub open spec fn holds_last_records<T: Keyed>(rows: Seq<T>, records: Seq<T>) -> bool {
    &&& forall|r: int| 0 <= r < rows.len() ==> is_last_record(records, 0, #[trigger] rows[r])
    &&& forall|i: int| #[trigger] is_last_of_key(records, i) ==> rows.contains(records[i])
}

/// The place of the last record of `records` under the identifier `id`.
pub open spec fn last_place<T: Keyed>(records: Seq<T>, id: Seq<char>) -> int {
    choose|i: int| #[trigger] is_last_of_key(records, i) && records[i].key() == id
}

/// Whether rows with the identifiers `keys` stand in the order in which the
/// last records under these identifiers stand in `records`.
pub open spec fn in_record_order<T: Keyed>(keys: Seq<Seq<char>>, records: Seq<T>) -> bool {
    forall|a: int, b: int|
        0 <= a < b < keys.len() ==> last_place(records, #[trigger] keys[a]) < last_place(
            records,
            #[trigger] keys[b],
        )
}

/// The last record under an identifier stands at the last place of that
/// identifier.
pub proof fn lemma_last_place<T: Keyed>(records: Seq<T>, i: int)
    requires
        is_last_of_key(records, i),
    ensures
        last_place(records, records[i].key()) == i,
{
    let id = records[i].key();
    let j = last_place(records, id);
    assert(is_last_of_key(records, j) && records[j].key() == id);
    if i < j {
        assert(records[j].key() != records[i].key());
    } else if j < i {
        assert(records[i].key() != records[j].key());
    }
}

/// Whether some record of `records` is filed under `id`.
pub open spec fn has_key<T: Keyed>(records: Seq<T>, id: Seq<char>) -> bool {
    exists|i: int| 0 <= i < records.len() && (#[trigger] records[i]).key() == id
}

/// Records in table order, with an index from their identifiers to their
/// places.
pub struct Table<T> {
    pub rows: Vec<T>,
    pub index: StringHashMap<usize>,
}

impl<T: Keyed> Table<T> {
    /// Whether the index leads to the rows: every row is found under its
    /// identifier, so no two rows share one.
    pub open spec fn wf(&self) -> bool {
        is_index_of(self.index@, keys_of(self.rows@))
    }

    /// The place of the row filed under `id`, if there is one.
    pub open spec fn spec_position(&self, id: Seq<char>) -> Option<usize> {
        if self.index@.contains_key(id) {
            Some(self.index@[id])
        } else {
            None
        }
    }

    /// The place of the row filed under `id`, if there is one.
    pub fn position(&self, id: &str) -> (place: Option<usize>)
        requires
            self.wf(),
        ensures
            place == self.spec_position(id@),
            place matches Some(i) ==> i < self.rows@.len() && self.rows@[i as int].key() == id@,
    {
        match self.index.get(id) {
            Some(i) => {
                assert(keys_of(self.rows@)[*i as int] == self.rows@[*i as int].key());
                Some(*i)
            },
            None => None,
        }
    }

    /// The row filed under `id`, if there is one.
    pub fn get(&self, id: &str) -> (row: Option<&T>)
        requires
            self.wf(),
        ensures
            row is Some <==> self.index@.contains_key(id@),
            row matches Some(r) ==> *r == self.rows@[self.index@[id@] as int] && r.key() == id@,
    {
        match self.position(id) {
            Some(i) => Some(&self.rows[i]),
            None => None,
        }
    }

    /// The number of rows.
    pub fn len(&self) -> (count: usize)
        ensures
            count == self.rows@.len(),
    {
        self.rows.len()
    }
}

/// The elements of `items` in reverse order.
pub fn reversed<T>(items: Vec<T>) -> (turned: Vec<T>)
    ensures
        turned@ == items@.reverse(),
{
    let mut items = items;
    let ghost all = items@;
    let mut turned: Vec<T> = Vec::new();
    while items.len() > 0
        invariant
            items@.len() + turned@.len() == all.len(),
            items@ == all.subrange(0, items@.len() as int),
            forall|i: int| 0 <= i < turned@.len() ==> turned@[i] == all[all.len() - 1 - i],
        decreases items@.len(),
    {
        let item = items.pop().unwrap();
        turned.push(item);
    }
    assert(turned@ =~= all.reverse());
    turned
}

/// Files records under their identifiers.
///
/// Where several records share an identifier, the last one stays, as in a
/// map into which one record after the other is put. The rows keep the
/// order of the records.
pub fn build_table<T: Keyed>(records: Vec<T>) -> (table: Table<T>)
    ensures
        table.wf(),
        holds_last_records(table.rows@, records@),
        in_record_order(keys_of(table.rows@), records@),
        forall|id: Seq<char>| #[trigger] table.index@.contains_key(id) <==> has_key(records@, id),
        keys_of(records@).no_duplicates() ==> table.rows@ == records@,
{
    let ghost all = records@;
    let mut records = records;
    let mut seen: StringHashMap<bool> = StringHashMap::new();
    let mut kept: Vec<T> = Vec::new();
    while records.len() > 0
        invariant
            records@.len() <= all.len(),
            records@ == all.subrange(0, records@.len() as int),
            forall|k: Seq<char>| #[trigger]
                seen@.contains_key(k) <==> exists|i: int|
                    records@.len() <= i < all.len() && (#[trigger] all[i]).key() == k,
            forall|r: int|
                0 <= r < kept@.len() ==> is_last_record(
                    all,
                    records@.len() as int,
                    #[trigger] kept@[r],
                ),
            forall|i: int| #[trigger]
                is_last_of_key(all, i) && records@.len() <= i ==> kept@.contains(all[i]),
            forall|a: int, b: int|
                0 <= a < b < kept@.len() ==> (#[trigger] kept@[a]).key() != (#[trigger] kept@[b]).key(),
            forall|k: Seq<char>| #[trigger] seen@.contains_key(k) <==> has_key(kept@, k),
            forall|r: int|
                0 <= r < kept@.len() ==> last_place(all, (#[trigger] kept@[r]).key()) >= records@.len(),
            forall|a: int, b: int|
                0 <= a < b < kept@.len() ==> last_place(all, (#[trigger] kept@[a]).key())
                    > last_place(all, (#[trigger] kept@[b]).key()),
            keys_of(all).no_duplicates() ==> kept@.len() + records@.len() == all.len() && forall|
                r: int,
            | 0 <= r < kept@.len() ==> #[trigger] kept@[r] == all[all.len() - 1 - r],
        decreases records@.len(),
    {
        let ghost earlier_kept = kept@;
        let ghost at = records@.len() - 1;
        let record = records.pop().unwrap();
        assert(record == all[at]);
        let known = seen.contains_key(record.key_text().as_str());
        let ghost seen_earlier = seen@;
        if !known {
            proof {
                assert forall|j: int| at < j < all.len() implies (#[trigger] all[j]).key()
                    != all[at].key() by {
                    if all[j].key() == all[at].key() {
                        assert(at + 1 <= j < all.len() && all[j].key() == all[at].key());
                        assert(seen_earlier.contains_key(all[at].key()));
                    }
                }
            }
            seen.insert(record.key_text().clone(), true);
            kept.push(record);
            proof {
                assert(is_last_of_key(all, at));
                lemma_last_place(all, at);
                assert forall|r: int| 0 <= r < kept@.len() implies last_place(
                    all,
                    (#[trigger] kept@[r]).key(),
                ) >= at by {
                    if r < earlier_kept.len() {
                        assert(kept@[r] == earlier_kept[r]);
                    }
                }
                assert forall|a: int, b: int| 0 <= a < b < kept@.len() implies last_place(
                    all,
                    (#[trigger] kept@[a]).key(),
                ) > last_place(all, (#[trigger] kept@[b]).key()) by {
                    assert(kept@[a] == earlier_kept[a]);
                    if b < earlier_kept.len() {
                        assert(kept@[b] == earlier_kept[b]);
                    }
                }
                assert forall|r: int| 0 <= r < kept@.len() implies is_last_record(
                    all,
                    at,
                    #[trigger] kept@[r],
                ) by {
                    if r < earlier_kept.len() {
                        assert(is_last_record(all, at + 1, earlier_kept[r]));
                        let i = choose|i: int| #[trigger]
                            is_last_of_key(all, i) && at + 1 <= i && earlier_kept[r] == all[i];
                        assert(is_last_of_key(all, i) && at <= i && kept@[r] == all[i]);
                    } else {
                        assert(is_last_of_key(all, at) && at <= at && kept@[r] == all[at]);
                    }
                }
                assert forall|i: int| #[trigger] is_last_of_key(all, i) && at <= i implies kept@.contains(
                    all[i],
                ) by {
                    if i == at {
                        assert(kept@[earlier_kept.len() as int] == all[i]);
                    } else {
                        assert(earlier_kept.contains(all[i]));
                        let r = choose|r: int| 0 <= r < earlier_kept.len() && earlier_kept[r] == all[i];
                        assert(kept@[r] == all[i]);
                    }
                }
                assert forall|a: int, b: int| 0 <= a < b < kept@.len() implies (
                #[trigger] kept@[a]).key() != (#[trigger] kept@[b]).key() by {
                    if b == earlier_kept.len() {
                        assert(is_last_record(all, at + 1, earlier_kept[a]));
                        let i = choose|i: int| #[trigger]
                            is_last_of_key(all, i) && at + 1 <= i && earlier_kept[a] == all[i];
                        assert(all[i].key() != all[at].key());
                    }
                }
                assert forall|k: Seq<char>| #[trigger]
                    seen@.contains_key(k) <==> exists|i: int|
                        at <= i < all.len() && (#[trigger] all[i]).key() == k by {
                    if k == all[at].key() {
                        assert(at <= at < all.len() && all[at].key() == k);
                    }
                }
                assert forall|k: Seq<char>| #[trigger] seen@.contains_key(k) <==> has_key(kept@, k) by {
                    if k == all[at].key() {
                        assert(kept@[earlier_kept.len() as int].key() == k);
                    } else {
                        if has_key(earlier_kept, k) {
                            let r = choose|r: int|
                                0 <= r < earlier_kept.len() && (#[trigger] earlier_kept[r]).key() == k;
                            assert(kept@[r].key() == k);
                        }
                        if has_key(kept@, k) {
                            let r = choose|r: int| 0 <= r < kept@.len() && (#[trigger] kept@[r]).key() == k;
                            assert(earlier_kept[r].key() == k);
                        }
                    }
                }
            }
        } else {
            proof {
                let j = choose|j: int| at + 1 <= j < all.len() && (#[trigger] all[j]).key() == all[at].key();
                assert(!is_last_of_key(all, at));
                if keys_of(all).no_duplicates() {
                    assert(keys_of(all)[at] == keys_of(all)[j]);
                }
                assert forall|r: int| 0 <= r < kept@.len() implies is_last_record(
                    all,
                    at,
                    #[trigger] kept@[r],
                ) by {
                    assert(is_last_record(all, at + 1, earlier_kept[r]));
                    let i = choose|i: int| #[trigger]
                        is_last_of_key(all, i) && at + 1 <= i && earlier_kept[r] == all[i];
                    assert(is_last_of_key(all, i) && at <= i && kept@[r] == all[i]);
                }
                assert forall|k: Seq<char>| #[trigger]
                    seen@.contains_key(k) <==> exists|i: int|
                        at <= i < all.len() && (#[trigger] all[i]).key() == k by {
                    if k == all[at].key() {
                        assert(at + 1 <= j < all.len() && all[j].key() == k);
                    }
                }
            }
        }
    }
    let rows = reversed(kept);
    let mut index: StringHashMap<usize> = StringHashMap::new();
    let mut i: usize = 0;
    proof {
        assert forall|a: int, b: int| 0 <= a < b < rows@.len() implies last_place(
            all,
            #[trigger] keys_of(rows@)[a],
        ) < last_place(all, #[trigger] keys_of(rows@)[b]) by {
            assert(rows@[a] == kept@[kept@.len() - 1 - a]);
            assert(rows@[b] == kept@[kept@.len() - 1 - b]);
        }
        assert forall|a: int, b: int| 0 <= a < b < rows@.len() implies (#[trigger] rows@[a]).key() != (
        #[trigger] rows@[b]).key() by {
            assert(rows@[a] == kept@[kept@.len() - 1 - a]);
            assert(rows@[b] == kept@[kept@.len() - 1 - b]);
        }
    }
    while i < rows.len()
        invariant
            i <= rows@.len(),
            forall|a: int, b: int|
                0 <= a < b < rows@.len() ==> (#[trigger] rows@[a]).key() != (#[trigger] rows@[b]).key(),
            is_index_of(index@, keys_of(rows@).subrange(0, i as int)),
        decreases rows.len() - i,
    {
        let ghost earlier = index@;
        index.insert(rows[i].key_text().clone(), i);
        proof {
            let keys = keys_of(rows@);
            let key = rows@[i as int].key();
            assert(keys[i as int] == key);
            assert(!earlier.contains_key(key)) by {
                if earlier.contains_key(key) {
                    let p = earlier[key] as int;
                    assert(keys.subrange(0, i as int)[p] == key);
                    assert(rows@[p].key() == keys[p]);
                }
            }
            assert forall|a: int| 0 <= a < i + 1 implies index@.contains_key(
                #[trigger] keys.subrange(0, i + 1)[a],
            ) && index@[keys.subrange(0, i + 1)[a]] == a by {
                if a < i {
                    assert(keys.subrange(0, i as int)[a] == keys.subrange(0, i + 1)[a]);
                }
            }
            assert forall|k: Seq<char>| #[trigger] index@.contains_key(k) implies index@[k] < i + 1
                && keys.subrange(0, i + 1)[index@[k] as int] == k by {
                if k != key {
                    assert(earlier.contains_key(k));
                    assert(keys.subrange(0, i as int)[earlier[k] as int] == k);
                }
            }
        }
        i += 1;
    }
    proof {
        assert(keys_of(rows@).subrange(0, rows@.len() as int) == keys_of(rows@));
        assert forall|id: Seq<char>| #[trigger] index@.contains_key(id) <==> has_key(all, id) by {
            let keys = keys_of(rows@);
            if index@.contains_key(id) {
                let r = index@[id] as int;
                assert(keys[r] == rows@[r].key());
                assert(rows@[r] == kept@[kept@.len() - 1 - r]);
                assert(has_key(kept@, id));
                assert(seen@.contains_key(id));
                let i = choose|i: int| 0 <= i < all.len() && (#[trigger] all[i]).key() == id;
            }
            if has_key(all, id) {
                let i = choose|i: int| 0 <= i < all.len() && (#[trigger] all[i]).key() == id;
                assert(seen@.contains_key(id));
                assert(has_key(kept@, id));
                let q = choose|q: int| 0 <= q < kept@.len() && (#[trigger] kept@[q]).key() == id;
                let r = kept@.len() - 1 - q;
                assert(rows@[r] == kept@[q]);
                assert(keys[r] == id);
            }
        }
        assert forall|r: int| 0 <= r < rows@.len() implies is_last_record(
            all,
            0,
            #[trigger] rows@[r],
        ) by {
            let q = kept@.len() - 1 - r;
            assert(rows@[r] == kept@[q]);
            assert(is_last_record(all, 0, kept@[q]));
        }
        assert forall|i: int| #[trigger] is_last_of_key(all, i) implies rows@.contains(all[i]) by {
            assert(kept@.contains(all[i]));
            let q = choose|q: int| 0 <= q < kept@.len() && kept@[q] == all[i];
            assert(rows@[kept@.len() - 1 - q] == kept@[q]);
        }
        if keys_of(all).no_duplicates() {
            assert(rows@ =~= all) by {
                assert forall|r: int| 0 <= r < rows@.len() implies rows@[r] == all[r] by {
                    assert(rows@[r] == kept@[kept@.len() - 1 - r]);
                }
            }
        }
    }
    Table { rows, index }
}

} // verus!
