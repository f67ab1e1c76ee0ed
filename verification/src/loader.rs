use vstd::prelude::*;
use vstd::seq_lib::*;
use crate::builder::build_graph;
use crate::calendar::{Service, ServiceException};
use crate::network::Network;
use crate::schedule::BuildConfig;
use crate::error::GtfsError;
use crate::graph::Stop;
use crate::records::{
    MAX_TIME, Route, StopTime, Trip, is_schedule, lemma_arrivals_ascend, sequence_ascending,
    times_in_order,
};
use crate::table::{
    Keyed, Table, build_table, has_key, holds_last_records, in_record_order, is_last_of_key,
    is_last_record, keys_of, reversed,
};

verus! {

/// Files the stops under their identifiers.
pub fn load_stops(records: Vec<Stop>) -> (stops: Table<Stop>)
    ensures
        stops.wf(),
        holds_last_records(stops.rows@, records@),
        in_record_order(keys_of(stops.rows@), records@),
        forall|id: Seq<char>| #[trigger] stops.index@.contains_key(id) <==> has_key(records@, id),
        keys_of(records@).no_duplicates() ==> stops.rows@ == records@,
{
    build_table(records)
}

/// Files the routes under their identifiers.
pub fn load_routes(records: Vec<Route>) -> (routes: Table<Route>)
    ensures
        routes.wf(),
        holds_last_records(routes.rows@, records@),
        in_record_order(keys_of(routes.rows@), records@),
        forall|id: Seq<char>| #[trigger] routes.index@.contains_key(id) <==> has_key(records@, id),
        keys_of(records@).no_duplicates() ==> routes.rows@ == records@,
{
    build_table(records)
}

/// Files the trips under their identifiers.
pub fn load_trips(records: Vec<Trip>) -> (trips: Table<Trip>)
    ensures
        trips.wf(),
        holds_last_records(trips.rows@, records@),
        in_record_order(keys_of(trips.rows@), records@),
        forall|id: Seq<char>| #[trigger] trips.index@.contains_key(id) <==> has_key(records@, id),
        keys_of(records@).no_duplicates() ==> trips.rows@ == records@,
{
    build_table(records)
}

/// Files the services under their identifiers.
pub fn load_services(records: Vec<Service>) -> (services: Table<Service>)
    ensures
        services.wf(),
        holds_last_records(services.rows@, records@),
        in_record_order(keys_of(services.rows@), records@),
        forall|id: Seq<char>| #[trigger] services.index@.contains_key(id) <==> has_key(records@, id),
        keys_of(records@).no_duplicates() ==> services.rows@ == records@,
{
    build_table(records)
}

/// The exceptions among `records` that belong to the service `id`, in
/// their order.
pub open spec fn exceptions_of(records: Seq<ServiceException>, id: Seq<char>) -> Seq<ServiceException>
    decreases records.len(),
{
    if records.len() == 0 {
        Seq::empty()
    } else if records.last().service_id@ == id {
        exceptions_of(records.drop_last(), id).push(records.last())
    } else {
        exceptions_of(records.drop_last(), id)
    }
}

/// Whether every exception names a service of the index.
pub open spec fn services_known(records: Seq<ServiceException>, index: Map<Seq<char>, usize>) -> bool {
    forall|i: int| 0 <= i < records.len() ==> index.contains_key((#[trigger] records[i]).service_id@)
}

/// Whether two services agree in everything but their exceptions.
pub open spec fn same_calendar(a: Service, b: Service) -> bool {
    &&& a.service_id == b.service_id
    &&& a.monday == b.monday
    &&& a.tuesday == b.tuesday
    &&& a.wednesday == b.wednesday
    &&& a.thursday == b.thursday
    &&& a.friday == b.friday
    &&& a.saturday == b.saturday
    &&& a.sunday == b.sunday
    &&& a.start_date == b.start_date
    &&& a.end_date == b.end_date
}

/// Whether `after` is `before` with each exception of `records` appended to
/// its service.
pub open spec fn exceptions_attached(
    before: Seq<Service>,
    after: Seq<Service>,
    records: Seq<ServiceException>,
) -> bool {
    &&& after.len() == before.len()
    &&& forall|s: int|
        0 <= s < before.len() ==> same_calendar(#[trigger] after[s], before[s])
            && after[s].exceptions@ == before[s].exceptions@ + exceptions_of(
            records,
            before[s].service_id@,
        )
}

/// Appends each exception to the service that it names.
///
/// If an exception names a service that is not in the table, the reference
/// dangles and the table is left as it was.
pub fn load_service_exceptions(records: Vec<ServiceException>, services: &mut Table<Service>) -> (result:
    Result<(), GtfsError>)
    requires
        old(services).wf(),
    ensures
        final(services).wf(),
        final(services).index@ == old(services).index@,
        result is Ok <==> services_known(records@, old(services).index@),
        result matches Err(e) ==> e == GtfsError::DanglingReference && final(services).rows@ == old(services).rows@,
        result is Ok ==> exceptions_attached(old(services).rows@, final(services).rows@, records@),
{
    let ghost all = records@;
    let ghost before = services.rows@;
    let ghost index = services.index@;
    let mut checked: usize = 0;
    while checked < records.len()
        invariant
            checked <= records@.len(),
            records@ == all,
            services.index@ == index,
            services.rows@ == before,
            services.wf(),
            forall|i: int| 0 <= i < checked ==> index.contains_key((#[trigger] all[i]).service_id@),
        decreases records.len() - checked,
    {
        if !services.index.contains_key(records[checked].service_id.as_str()) {
            return Err(GtfsError::DanglingReference);
        }
        checked += 1;
    }
    let mut waiting = reversed(records);
    let ghost mut taken: int = 0;
    assert(exceptions_attached(before, services.rows@, all.subrange(0, 0))) by {
        assert forall|s: int| 0 <= s < before.len() implies before[s].exceptions@
            == before[s].exceptions@ + exceptions_of(all.subrange(0, 0), before[s].service_id@) by {
            assert(exceptions_of(all.subrange(0, 0), before[s].service_id@) == Seq::<
                ServiceException,
            >::empty());
        }
    }
    while waiting.len() > 0
        invariant
            0 <= taken,
            taken + waiting@.len() == all.len(),
            waiting@ == all.reverse().subrange(0, waiting@.len() as int),
            services_known(all, index),
            services.index@ == index,
            services.wf(),
            keys_of(services.rows@) == keys_of(before),
            exceptions_attached(before, services.rows@, all.subrange(0, taken)),
        decreases waiting@.len(),
    {
        let record = waiting.pop().unwrap();
        assert(record == all[taken]);
        let ghost earlier = services.rows@;
        let found = services.index.get(record.service_id.as_str());
        let place = *found.unwrap();
        assert(keys_of(earlier)[place as int] == earlier[place as int].service_id@);
        services.rows[place].exceptions.push(record);
        proof {
            let now = services.rows@;
            let prefix = all.subrange(0, taken);
            let longer = all.subrange(0, taken + 1);
            assert(longer.drop_last() == prefix);
            assert(longer.last() == record);
            assert(keys_of(now) == keys_of(before)) by {
                assert forall|s: int| 0 <= s < now.len() implies now[s].key() == keys_of(before)[s] by {
                    assert(keys_of(earlier)[s] == earlier[s].key());
                }
            }
            assert forall|s: int| 0 <= s < before.len() implies same_calendar(
                #[trigger] now[s],
                before[s],
            ) && now[s].exceptions@ == before[s].exceptions@ + exceptions_of(
                longer,
                before[s].service_id@,
            ) by {
                assert(same_calendar(earlier[s], before[s]));
                assert(keys_of(earlier)[s] == earlier[s].service_id@);
                if s == place {
                    assert(now[s].exceptions@ == earlier[s].exceptions@.push(record));
                } else {
                    assert(now[s] == earlier[s]);
                    assert(keys_of(earlier)[place as int] == record.service_id@);
                }
            }
        }
        proof {
            taken = taken + 1;
        }
    }
    assert(all.subrange(0, taken) == all);
    Ok(())
}

/// The calls among `records` that belong to the trip `id`, in their order.
pub open spec fn calls_of(records: Seq<StopTime>, id: Seq<char>) -> Seq<StopTime>
    decreases records.len(),
{
    if records.len() == 0 {
        Seq::empty()
    } else if records.last().trip_id@ == id {
        calls_of(records.drop_last(), id).push(records.last())
    } else {
        calls_of(records.drop_last(), id)
    }
}

/// Whether every call names a trip of the index.
pub open spec fn trips_known(records: Seq<StopTime>, index: Map<Seq<char>, usize>) -> bool {
    forall|i: int| 0 <= i < records.len() ==> index.contains_key((#[trigger] records[i]).trip_id@)
}

/// Whether no two calls carry the same sequence number.
pub open spec fn distinct_sequence(calls: Seq<StopTime>) -> bool {
    forall|i: int, j: int|
        0 <= i < calls.len() && 0 <= j < calls.len() && i != j ==> (#[trigger] calls[i]).stop_sequence
            != (#[trigger] calls[j]).stop_sequence
}

/// Whether every trip can take its calls: among the calls that it has and
/// those that `records` brings, no sequence number occurs twice.
pub open spec fn conflict_free(trips: Seq<Trip>, records: Seq<StopTime>) -> bool {
    forall|t: int|
        0 <= t < trips.len() ==> distinct_sequence(
            (#[trigger] trips[t]).stop_times@ + calls_of(records, trips[t].trip_id@),
        )
}

/// Whether two trips agree in everything but their calls.
pub open spec fn same_trip(a: Trip, b: Trip) -> bool {
    &&& a.route_id == b.route_id
    &&& a.service_id == b.service_id
    &&& a.trip_id == b.trip_id
    &&& a.trip_headsign == b.trip_headsign
    &&& a.trip_short_name == b.trip_short_name
    &&& a.direction_id == b.direction_id
    &&& a.block_id == b.block_id
    &&& a.shape_id == b.shape_id
    &&& a.wheelchair_accessible == b.wheelchair_accessible
    &&& a.bikes_allowed == b.bikes_allowed
    &&& a.exceptional == b.exceptional
    &&& a.trip_operation_type == b.trip_operation_type
}

/// Whether `after` is `before` with the calls of the first `taken` records
/// sorted into their trips: every trip has its earlier calls and the
/// records that name it, in order of their sequence numbers.
pub open spec fn calls_attached(
    before: Seq<Trip>,
    after: Seq<Trip>,
    records: Seq<StopTime>,
) -> bool {
    &&& after.len() == before.len()
    &&& forall|t: int|
        0 <= t < before.len() ==> {
            &&& same_trip(#[trigger] after[t], before[t])
            &&& sequence_ascending(after[t].stop_times@)
            &&& after[t].stop_times@.to_multiset() == (before[t].stop_times@ + calls_of(
                records,
                before[t].trip_id@,
            )).to_multiset()
        }
}

/// The calls of a trip among the first records are the first of its calls
/// among all of them.
pub proof fn lemma_calls_of_prefix(records: Seq<StopTime>, n: int, id: Seq<char>)
    requires
        0 <= n <= records.len(),
    ensures
        calls_of(records.subrange(0, n), id).len() <= calls_of(records, id).len(),
        calls_of(records, id).subrange(0, calls_of(records.subrange(0, n), id).len() as int)
            == calls_of(records.subrange(0, n), id),
    decreases records.len() - n,
{
    if n == records.len() {
        assert(records.subrange(0, n) == records);
    } else {
        lemma_calls_of_prefix(records.drop_last(), n, id);
        assert(records.drop_last().subrange(0, n) == records.subrange(0, n));
    }
}

/// Calls that are the same up to their order carry distinct sequence
/// numbers if they do in one order.
pub proof fn lemma_distinct_sequence_permuted(a: Seq<StopTime>, b: Seq<StopTime>)
    requires
        a.to_multiset() == b.to_multiset(),
        distinct_sequence(a),
    ensures
        distinct_sequence(b),
    decreases b.len(),
{
    broadcast use group_to_multiset_ensures;

    if b.len() > 0 {
        let x = b.last();
        let shorter = b.drop_last();
        assert(b == shorter.push(x));
        to_multiset_build(shorter, x);
        to_multiset_contains(b, x);
        to_multiset_contains(a, x);
        assert(b.contains(x));
        let p = choose|p: int| 0 <= p < a.len() && a[p] == x;
        let rest = a.remove(p);
        to_multiset_remove(a, p);
        assert(rest.to_multiset() == shorter.to_multiset()) by {
            assert(shorter.to_multiset().insert(x).remove(x) =~= shorter.to_multiset());
        }
        assert(distinct_sequence(rest)) by {
            assert forall|i: int, j: int|
                0 <= i < rest.len() && 0 <= j < rest.len() && i != j implies (
            #[trigger] rest[i]).stop_sequence != (#[trigger] rest[j]).stop_sequence by {
                let ai = if i < p { i } else { i + 1 };
                let aj = if j < p { j } else { j + 1 };
                assert(rest[i] == a[ai] && rest[j] == a[aj]);
            }
        }
        lemma_distinct_sequence_permuted(rest, shorter);
        assert forall|i: int, j: int|
            0 <= i < b.len() && 0 <= j < b.len() && i != j implies (#[trigger] b[i]).stop_sequence != (
        #[trigger] b[j]).stop_sequence by {
            if i == b.len() - 1 || j == b.len() - 1 {
                let other = if i == b.len() - 1 { j } else { i };
                assert(shorter[other] == b[other]);
                to_multiset_contains(shorter, b[other]);
                to_multiset_contains(rest, b[other]);
                assert(shorter.contains(b[other]));
                let q = choose|q: int| 0 <= q < rest.len() && rest[q] == b[other];
                let aq = if q < p { q } else { q + 1 };
                assert(rest[q] == a[aq]);
                assert(a[aq].stop_sequence != a[p].stop_sequence);
            } else {
                assert(shorter[i] == b[i] && shorter[j] == b[j]);
            }
        }
    }
}

/// Calls in ascending order of their sequence numbers carry distinct ones.
pub proof fn lemma_ascending_is_distinct(calls: Seq<StopTime>)
    requires
        sequence_ascending(calls),
    ensures
        distinct_sequence(calls),
{
    assert forall|i: int, j: int|
        0 <= i < calls.len() && 0 <= j < calls.len() && i != j implies (#[trigger] calls[i]).stop_sequence
        != (#[trigger] calls[j]).stop_sequence by {
        if i < j {
            assert(calls[i].stop_sequence < calls[j].stop_sequence);
        } else {
            assert(calls[j].stop_sequence < calls[i].stop_sequence);
        }
    }
}

/// Sorts `call` into calls that are in order of their sequence numbers,
/// unless its number is taken.
fn insert_call(stop_times: &mut Vec<StopTime>, call: StopTime) -> (inserted: bool)
    requires
        sequence_ascending(old(stop_times)@),
    ensures
        inserted <==> forall|q: int|
            0 <= q < old(stop_times)@.len() ==> (#[trigger] old(stop_times)@[q]).stop_sequence
                != call.stop_sequence,
        inserted ==> sequence_ascending(final(stop_times)@) && final(stop_times)@.to_multiset() == old(stop_times)@.to_multiset().insert(call),
        !inserted ==> final(stop_times)@ == old(stop_times)@,
{
    let ghost before = stop_times@;
    let mut place: usize = stop_times.len();
    while place > 0 && stop_times[place - 1].stop_sequence > call.stop_sequence
        invariant
            place <= stop_times@.len(),
            stop_times@ == before,
            forall|q: int|
                place <= q < before.len() ==> (#[trigger] before[q]).stop_sequence > call.stop_sequence,
        decreases place,
    {
        place -= 1;
    }
    if place > 0 && stop_times[place - 1].stop_sequence == call.stop_sequence {
        return false;
    }
    proof {
        to_multiset_insert(before, place as int, call);
        assert forall|q: int| 0 <= q < before.len() implies (#[trigger] before[q]).stop_sequence
            != call.stop_sequence by {
            if q < place {
                if q < place - 1 {
                    assert(before[q].stop_sequence < before[place - 1].stop_sequence);
                }
            }
        }
    }
    stop_times.insert(place, call);
    proof {
        let after = stop_times@;
        assert forall|i: int, j: int| 0 <= i < j < after.len() implies (
        #[trigger] after[i]).stop_sequence < (#[trigger] after[j]).stop_sequence by {
            let bi = if i < place { i } else { i - 1 };
            let bj = if j < place { j } else { j - 1 };
            if i == place {
                assert(after[j] == before[bj]);
            } else if j == place {
                assert(after[i] == before[bi]);
                if place > 0 && i < place - 1 {
                    assert(before[i].stop_sequence < before[place - 1].stop_sequence);
                }
            } else {
                assert(after[i] == before[bi] && after[j] == before[bj]);
            }
        }
    }
    true
}

/// Whether the times of every trip's calls agree with their sequence
/// numbers, among the calls that the trip has and those that `records`
/// brings.
pub open spec fn times_fit(trips: Seq<Trip>, records: Seq<StopTime>) -> bool {
    forall|t: int|
        0 <= t < trips.len() ==> times_consistent(
            (#[trigger] trips[t]).stop_times@ + calls_of(records, trips[t].trip_id@),
        )
}

/// Sorts each call into the trip that it names, by its sequence number.
///
/// If a call names a trip that is not in the table, the reference dangles
/// and the table is left as it was. If two calls of a trip carry the same
/// sequence number, or the times of a trip's calls do not follow their
/// sequence numbers, the schedule is in conflict.
pub fn load_stop_times(records: Vec<StopTime>, trips: &mut Table<Trip>) -> (result: Result<
    (),
    GtfsError,
>)
    requires
        old(trips).wf(),
        forall|t: int|
            0 <= t < old(trips).rows@.len() ==> sequence_ascending(
                (#[trigger] old(trips).rows@[t]).stop_times@,
            ),
    ensures
        final(trips).wf(),
        final(trips).index@ == old(trips).index@,
        result is Ok <==> trips_known(records@, old(trips).index@) && conflict_free(
            old(trips).rows@,
            records@,
        ) && times_fit(old(trips).rows@, records@),
        result matches Err(e) ==> (e == GtfsError::DanglingReference <==> !trips_known(
            records@,
            old(trips).index@,
        )) && (e == GtfsError::DanglingReference || e == GtfsError::ScheduleConflict),
        result == Err::<(), GtfsError>(GtfsError::DanglingReference) ==> final(trips).rows@ == old(trips).rows@,
        result is Ok ==> calls_attached(old(trips).rows@, final(trips).rows@, records@),
        result is Ok ==> forall|t: int|
            0 <= t < final(trips).rows@.len() ==> is_schedule(
                (#[trigger] final(trips).rows@[t]).stop_times@,
            ),
{
    let ghost all = records@;
    let ghost before = trips.rows@;
    let ghost index = trips.index@;
    let mut checked: usize = 0;
    while checked < records.len()
        invariant
            checked <= records@.len(),
            records@ == all,
            trips.index@ == index,
            trips.rows@ == before,
            trips.wf(),
            forall|i: int| 0 <= i < checked ==> index.contains_key((#[trigger] all[i]).trip_id@),
        decreases records.len() - checked,
    {
        if !trips.index.contains_key(records[checked].trip_id.as_str()) {
            return Err(GtfsError::DanglingReference);
        }
        checked += 1;
    }
    let mut waiting = reversed(records);
    let ghost mut taken: int = 0;
    assert(calls_attached(before, trips.rows@, all.subrange(0, 0))) by {
        assert forall|t: int| 0 <= t < before.len() implies (#[trigger] before[t]).stop_times@
            == before[t].stop_times@ + calls_of(all.subrange(0, 0), before[t].trip_id@) by {
            assert(calls_of(all.subrange(0, 0), before[t].trip_id@) == Seq::<StopTime>::empty());
        }
    }
    while waiting.len() > 0
        invariant
            0 <= taken,
            taken + waiting@.len() == all.len(),
            waiting@ == all.reverse().subrange(0, waiting@.len() as int),
            trips_known(all, index),
            trips.index@ == index,
            index == old(trips).index@,
            before == old(trips).rows@,
            all == records@,
            trips.wf(),
            keys_of(trips.rows@) == keys_of(before),
            calls_attached(before, trips.rows@, all.subrange(0, taken)),
        decreases waiting@.len(),
    {
        let record = waiting.pop().unwrap();
        assert(record == all[taken]);
        let ghost earlier = trips.rows@;
        let found = trips.index.get(record.trip_id.as_str());
        let place = *found.unwrap();
        let ghost prefix = all.subrange(0, taken);
        let ghost longer = all.subrange(0, taken + 1);
        let ghost id = before[place as int].trip_id@;
        proof {
            assert(keys_of(earlier)[place as int] == earlier[place as int].trip_id@);
            assert(keys_of(before)[place as int] == id);
            assert(longer.drop_last() == prefix);
            assert(longer.last() == record);
            assert(calls_of(longer, id) == calls_of(prefix, id).push(record));
        }
        let inserted = insert_call(&mut trips.rows[place].stop_times, record);
        if !inserted {
            proof {
                let now = trips.rows@;
                assert(keys_of(now) == keys_of(before)) by {
                    assert forall|t: int| 0 <= t < now.len() implies now[t].key() == keys_of(before)[t] by {
                        assert(keys_of(earlier)[t] == earlier[t].key());
                    }
                }
                let held = earlier[place as int].stop_times@;
                let listed = before[place as int].stop_times@ + calls_of(prefix, id);
                let q = choose|q: int|
                    0 <= q < held.len() && (#[trigger] held[q]).stop_sequence == record.stop_sequence;
                to_multiset_contains(held, held[q]);
                to_multiset_contains(listed, held[q]);
                assert(held.contains(held[q]));
                let a = choose|a: int| 0 <= a < listed.len() && listed[a] == held[q];
                lemma_calls_of_prefix(all, taken + 1, id);
                let full = before[place as int].stop_times@ + calls_of(all, id);
                let b = listed.len() as int;
                assert(calls_of(all, id).subrange(0, calls_of(longer, id).len() as int)[b
                    - before[place as int].stop_times@.len()] == record);
                assert(full[b] == record);
                if a < before[place as int].stop_times@.len() {
                    assert(full[a] == listed[a]);
                } else {
                    let c = a - before[place as int].stop_times@.len();
                    assert(calls_of(all, id).subrange(0, calls_of(longer, id).len() as int)[c]
                        == calls_of(prefix, id)[c]);
                    assert(full[a] == listed[a]);
                }
                assert(!distinct_sequence(full));
                assert(full == (#[trigger] before[place as int]).stop_times@ + calls_of(
                    all,
                    before[place as int].trip_id@,
                ));
                assert(!conflict_free(before, all));
            }
            return Err(GtfsError::ScheduleConflict);
        }
        proof {
            let now = trips.rows@;
            assert(keys_of(now) == keys_of(before)) by {
                assert forall|t: int| 0 <= t < now.len() implies now[t].key() == keys_of(before)[t] by {
                    assert(keys_of(earlier)[t] == earlier[t].key());
                }
            }
            assert forall|t: int| 0 <= t < before.len() implies {
                &&& same_trip(#[trigger] now[t], before[t])
                &&& sequence_ascending(now[t].stop_times@)
                &&& now[t].stop_times@.to_multiset() == (before[t].stop_times@ + calls_of(
                    longer,
                    before[t].trip_id@,
                )).to_multiset()
            } by {
                assert(same_trip(earlier[t], before[t]));
                assert(keys_of(earlier)[t] == earlier[t].trip_id@);
                if t == place {
                    let listed = before[t].stop_times@ + calls_of(prefix, id);
                    assert(before[t].stop_times@ + calls_of(longer, id) == listed.push(record));
                    to_multiset_build(listed, record);
                } else {
                    assert(now[t] == earlier[t]);
                    assert(keys_of(earlier)[place as int] == record.trip_id@);
                }
            }
        }
        proof {
            taken = taken + 1;
        }
    }
    let ghost sorted = trips.rows@;
    proof {
        assert(all.subrange(0, taken) == all);
        assert forall|t: int| 0 <= t < before.len() implies distinct_sequence(
            (#[trigger] before[t]).stop_times@ + calls_of(all, before[t].trip_id@),
        ) by {
            lemma_ascending_is_distinct(sorted[t].stop_times@);
            lemma_distinct_sequence_permuted(
                sorted[t].stop_times@,
                before[t].stop_times@ + calls_of(all, before[t].trip_id@),
            );
        }
    }
    let mut t: usize = 0;
    while t < trips.rows.len()
        invariant
            t <= trips.rows@.len(),
            trips.rows@ == sorted,
            trips.wf(),
            trips.index@ == index,
            index == old(trips).index@,
            before == old(trips).rows@,
            all == records@,
            trips_known(all, index),
            conflict_free(before, all),
            calls_attached(before, sorted, all),
            forall|k: int| 0 <= k < t ==> times_in_order((#[trigger] sorted[k]).stop_times@),
        decreases trips.rows.len() - t,
    {
        if !times_are_in_order(&trips.rows[t].stop_times) {
            proof {
                assert(is_trip_with_calls(sorted[t as int], before[t as int], all));
                lemma_loaded_trip_times(sorted[t as int], before[t as int], all);
                assert(!times_consistent(
                    (#[trigger] before[t as int]).stop_times@ + calls_of(
                        all,
                        before[t as int].trip_id@,
                    ),
                ));
                assert(!times_fit(before, all));
            }
            return Err(GtfsError::ScheduleConflict);
        }
        t += 1;
    }
    proof {
        assert forall|k: int| 0 <= k < before.len() implies times_consistent(
            (#[trigger] before[k]).stop_times@ + calls_of(all, before[k].trip_id@),
        ) by {
            assert(times_in_order(sorted[k].stop_times@));
            assert(is_trip_with_calls(sorted[k], before[k], all));
            lemma_loaded_trip_times(sorted[k], before[k], all);
        }
    }
    Ok(())
}

/// Whether the times of a trip's calls agree with their sequence numbers:
/// each call arrives no later than it departs, within two days, and departs
/// no later than any call with a higher number arrives.
pub open spec fn times_consistent(calls: Seq<StopTime>) -> bool {
    &&& forall|i: int|
        0 <= i < calls.len() ==> (#[trigger] calls[i]).arrival_time <= calls[i].departure_time
            < MAX_TIME
    &&& forall|i: int, j: int|
        0 <= i < calls.len() && 0 <= j < calls.len() && (#[trigger] calls[i]).stop_sequence < (
        #[trigger] calls[j]).stop_sequence ==> calls[i].departure_time <= calls[j].arrival_time
}

/// For calls in order of their sequence numbers, the times are in order
/// from call to call exactly if they agree with the sequence numbers.
pub proof fn lemma_times_of_sorted(calls: Seq<StopTime>)
    requires
        sequence_ascending(calls),
    ensures
        times_in_order(calls) <==> times_consistent(calls),
{
    if times_in_order(calls) {
        assert forall|i: int, j: int|
            0 <= i < calls.len() && 0 <= j < calls.len() && (#[trigger] calls[i]).stop_sequence < (
            #[trigger] calls[j]).stop_sequence implies calls[i].departure_time
            <= calls[j].arrival_time by {
            if i < j {
                lemma_arrivals_ascend(calls, i, j);
            } else if j < i {
                assert(calls[j].stop_sequence < calls[i].stop_sequence);
            }
        }
    }
    if times_consistent(calls) {
        assert forall|i: int| 0 <= i && i + 1 < calls.len() implies (
        #[trigger] calls[i]).departure_time <= calls[i + 1].arrival_time by {
            assert(calls[i].stop_sequence < calls[i + 1].stop_sequence);
        }
    }
}

/// Whether the times agree with the sequence numbers does not depend on the
/// order of the calls.
pub proof fn lemma_times_consistent_permuted(a: Seq<StopTime>, b: Seq<StopTime>)
    requires
        a.to_multiset() == b.to_multiset(),
        times_consistent(a),
    ensures
        times_consistent(b),
{
    assert forall|i: int| 0 <= i < b.len() implies a.contains(#[trigger] b[i]) by {
        assert(b.contains(b[i]));
        to_multiset_contains(a, b[i]);
        to_multiset_contains(b, b[i]);
    }
    assert forall|i: int| 0 <= i < b.len() implies (#[trigger] b[i]).arrival_time
        <= b[i].departure_time < MAX_TIME by {
        assert(a.contains(b[i]));
        let p = choose|p: int| 0 <= p < a.len() && a[p] == b[i];
        assert(a[p].arrival_time <= a[p].departure_time);
    }
    assert forall|i: int, j: int|
        0 <= i < b.len() && 0 <= j < b.len() && (#[trigger] b[i]).stop_sequence < (
        #[trigger] b[j]).stop_sequence implies b[i].departure_time <= b[j].arrival_time by {
        assert(a.contains(b[i]));
        assert(a.contains(b[j]));
        let p = choose|p: int| 0 <= p < a.len() && a[p] == b[i];
        let q = choose|q: int| 0 <= q < a.len() && a[q] == b[j];
        assert(a[p].stop_sequence < a[q].stop_sequence);
    }
}

/// Whether a trip refers to a known route and a known service and calls at
/// known stops only.
pub open spec fn trip_refers(
    trip: Trip,
    stops: Set<Seq<char>>,
    routes: Set<Seq<char>>,
    services: Set<Seq<char>>,
) -> bool {
    &&& routes.contains(trip.route_id@)
    &&& services.contains(trip.service_id@)
    &&& forall|c: int|
        0 <= c < trip.stop_times@.len() ==> stops.contains((#[trigger] trip.stop_times@[c]).stop_id@)
}

/// The identifiers under which the records are filed.
pub open spec fn key_set<T: Keyed>(records: Seq<T>) -> Set<Seq<char>> {
    Set::new(|id: Seq<char>| has_key(records, id))
}

/// Whether the tables are indexed by their identifiers, every trip refers
/// to a known route and service and calls at known stops, and the calls of
/// every trip form a schedule.
pub open spec fn is_consistent(
    stops: Table<Stop>,
    routes: Table<Route>,
    trips: Table<Trip>,
    services: Table<Service>,
) -> bool {
    &&& stops.wf()
    &&& routes.wf()
    &&& trips.wf()
    &&& services.wf()
    &&& forall|t: int|
        0 <= t < trips.rows@.len() ==> trip_refers(
            #[trigger] trips.rows@[t],
            stops.index@.dom(),
            routes.index@.dom(),
            services.index@.dom(),
        ) && is_schedule(trips.rows@[t].stop_times@)
}

/// The tables of a feed.
pub struct Schedule {
    pub stops: Table<Stop>,
    pub routes: Table<Route>,
    pub trips: Table<Trip>,
    pub services: Table<Service>,
}

impl Schedule {
    /// Whether the tables are consistent with each other.
    pub open spec fn wf(&self) -> bool {
        is_consistent(self.stops, self.routes, self.trips, self.services)
    }
}

/// Whether every exception names a service of the table.
fn exceptions_known(exceptions: &Vec<ServiceException>, services: &Table<Service>) -> (known: bool)
    ensures
        known == services_known(exceptions@, services.index@),
{
    let mut i: usize = 0;
    while i < exceptions.len()
        invariant
            i <= exceptions@.len(),
            forall|k: int|
                0 <= k < i ==> services.index@.contains_key((#[trigger] exceptions@[k]).service_id@),
        decreases exceptions.len() - i,
    {
        if !services.index.contains_key(exceptions[i].service_id.as_str()) {
            return false;
        }
        i += 1;
    }
    true
}

/// Whether every call names a trip and a stop of the index.
pub open spec fn calls_known(
    stop_times: Seq<StopTime>,
    trips: Map<Seq<char>, usize>,
    stops: Map<Seq<char>, usize>,
) -> bool {
    forall|i: int|
        0 <= i < stop_times.len() ==> trips.contains_key((#[trigger] stop_times[i]).trip_id@)
            && stops.contains_key(stop_times[i].stop_id@)
}

/// Whether every call names a trip and a stop of the tables.
fn calls_are_known(stop_times: &Vec<StopTime>, trips: &Table<Trip>, stops: &Table<Stop>) -> (known:
    bool)
    ensures
        known == calls_known(stop_times@, trips.index@, stops.index@),
{
    let mut i: usize = 0;
    while i < stop_times.len()
        invariant
            i <= stop_times@.len(),
            forall|k: int|
                0 <= k < i ==> trips.index@.contains_key((#[trigger] stop_times@[k]).trip_id@)
                    && stops.index@.contains_key(stop_times@[k].stop_id@),
        decreases stop_times.len() - i,
    {
        if !trips.index.contains_key(stop_times[i].trip_id.as_str()) || !stops.index.contains_key(
            stop_times[i].stop_id.as_str(),
        ) {
            return false;
        }
        i += 1;
    }
    true
}

/// Whether a trip refers to a known route and service and calls at known
/// stops.
fn trip_is_known(
    trip: &Trip,
    stops: &Table<Stop>,
    routes: &Table<Route>,
    services: &Table<Service>,
) -> (known: bool)
    ensures
        known == trip_refers(*trip, stops.index@.dom(), routes.index@.dom(), services.index@.dom()),
{
    if !routes.index.contains_key(trip.route_id.as_str()) {
        return false;
    }
    if !services.index.contains_key(trip.service_id.as_str()) {
        return false;
    }
    let mut c: usize = 0;
    while c < trip.stop_times.len()
        invariant
            c <= trip.stop_times@.len(),
            forall|k: int|
                0 <= k < c ==> stops.index@.contains_key((#[trigger] trip.stop_times@[k]).stop_id@),
        decreases trip.stop_times.len() - c,
    {
        if !stops.index.contains_key(trip.stop_times[c].stop_id.as_str()) {
            return false;
        }
        c += 1;
    }
    true
}

/// Whether every trip refers to a known route and service and calls at
/// known stops.
fn trips_are_known(
    trips: &Table<Trip>,
    stops: &Table<Stop>,
    routes: &Table<Route>,
    services: &Table<Service>,
) -> (known: bool)
    ensures
        known == forall|t: int|
            0 <= t < trips.rows@.len() ==> trip_refers(
                #[trigger] trips.rows@[t],
                stops.index@.dom(),
                routes.index@.dom(),
                services.index@.dom(),
            ),
{
    let mut t: usize = 0;
    while t < trips.rows.len()
        invariant
            t <= trips.rows@.len(),
            forall|k: int|
                0 <= k < t ==> trip_refers(
                    #[trigger] trips.rows@[k],
                    stops.index@.dom(),
                    routes.index@.dom(),
                    services.index@.dom(),
                ),
        decreases trips.rows.len() - t,
    {
        if !trip_is_known(&trips.rows[t], stops, routes, services) {
            return false;
        }
        t += 1;
    }
    true
}

/// Whether the calls are in order of their sequence numbers.
fn sequence_ascends(stop_times: &Vec<StopTime>) -> (ascends: bool)
    ensures
        ascends == sequence_ascending(stop_times@),
{
    if stop_times.len() < 2 {
        return true;
    }
    let mut i: usize = 1;
    while i < stop_times.len()
        invariant
            1 <= i <= stop_times@.len(),
            forall|a: int, b: int|
                0 <= a < b < i ==> (#[trigger] stop_times@[a]).stop_sequence < (
                #[trigger] stop_times@[b]).stop_sequence,
        decreases stop_times.len() - i,
    {
        if stop_times[i - 1].stop_sequence >= stop_times[i].stop_sequence {
            return false;
        }
        proof {
            assert forall|a: int, b: int| 0 <= a < b < i + 1 implies (
            #[trigger] stop_times@[a]).stop_sequence < (#[trigger] stop_times@[b]).stop_sequence by {
                if b == i && a < i - 1 {
                    assert(stop_times@[a].stop_sequence < stop_times@[i - 1].stop_sequence);
                }
            }
        }
        i += 1;
    }
    true
}

/// Whether the times of the calls are in order.
fn times_are_in_order(stop_times: &Vec<StopTime>) -> (in_order: bool)
    ensures
        in_order == times_in_order(stop_times@),
{
    let mut i: usize = 0;
    while i < stop_times.len()
        invariant
            i <= stop_times@.len(),
            forall|k: int|
                0 <= k < i ==> (#[trigger] stop_times@[k]).arrival_time
                    <= stop_times@[k].departure_time < MAX_TIME,
            forall|k: int|
                0 <= k < i && k + 1 < stop_times@.len() ==> (#[trigger] stop_times@[k]).departure_time
                    <= stop_times@[k + 1].arrival_time,
        decreases stop_times.len() - i,
    {
        let call = &stop_times[i];
        if call.arrival_time > call.departure_time || call.departure_time >= MAX_TIME {
            return false;
        }
        if i + 1 < stop_times.len() && call.departure_time > stop_times[i + 1].arrival_time {
            return false;
        }
        i += 1;
    }
    true
}

/// Whether every reference of a feed resolves: every exception names a
/// service, every call a trip and a stop, and every trip that stays in the
/// table a route, a service and, for the calls it brings along, stops.
pub open spec fn references_resolve(
    stops: Seq<Stop>,
    routes: Seq<Route>,
    trips: Seq<Trip>,
    services: Seq<Service>,
    exceptions: Seq<ServiceException>,
    stop_times: Seq<StopTime>,
) -> bool {
    &&& forall|i: int|
        0 <= i < exceptions.len() ==> has_key(services, (#[trigger] exceptions[i]).service_id@)
    &&& forall|i: int|
        0 <= i < stop_times.len() ==> has_key(trips, (#[trigger] stop_times[i]).trip_id@) && has_key(
            stops,
            stop_times[i].stop_id@,
        )
    &&& forall|i: int| #[trigger]
        is_last_of_key(trips, i) ==> trip_refers(
            trips[i],
            key_set(stops),
            key_set(routes),
            key_set(services),
        )
}

/// Whether a trip can take the calls that `stop_times` brings for it: the
/// calls that it has are in order, no sequence number occurs twice among
/// these and the new ones, and the times of all of them agree with the
/// sequence numbers.
pub open spec fn trip_takes_calls(trip: Trip, stop_times: Seq<StopTime>) -> bool {
    &&& sequence_ascending(trip.stop_times@)
    &&& distinct_sequence(trip.stop_times@ + calls_of(stop_times, trip.trip_id@))
    &&& times_consistent(trip.stop_times@ + calls_of(stop_times, trip.trip_id@))
}

/// Whether every trip that stays in the table can take its calls.
pub open spec fn calls_fit(trips: Seq<Trip>, stop_times: Seq<StopTime>) -> bool {
    forall|i: int| #[trigger] is_last_of_key(trips, i) ==> trip_takes_calls(trips[i], stop_times)
}

/// Whether `row` is `record` with the calls that `stop_times` brings for it
/// sorted in.
pub open spec fn is_trip_with_calls(row: Trip, record: Trip, stop_times: Seq<StopTime>) -> bool {
    &&& same_trip(row, record)
    &&& sequence_ascending(row.stop_times@)
    &&& row.stop_times@.to_multiset() == (record.stop_times@ + calls_of(
        stop_times,
        record.trip_id@,
    )).to_multiset()
}

/// Whether `row` is the last trip of `records` under its identifier, with
/// its calls.
pub open spec fn is_loaded_trip(records: Seq<Trip>, stop_times: Seq<StopTime>, row: Trip) -> bool {
    exists|i: int| #[trigger]
        is_last_of_key(records, i) && is_trip_with_calls(row, records[i], stop_times)
}

/// Whether `rows` holds `record` with its calls.
pub open spec fn holds_trip(rows: Seq<Trip>, stop_times: Seq<StopTime>, record: Trip) -> bool {
    exists|r: int| 0 <= r < rows.len() && is_trip_with_calls(#[trigger] rows[r], record, stop_times)
}

/// Whether `rows` holds, for each identifier of `records`, the last trip
/// under it with the calls that `stop_times` brings for it, and nothing
/// else.
pub open spec fn trips_loaded(rows: Seq<Trip>, records: Seq<Trip>, stop_times: Seq<StopTime>) -> bool {
    &&& forall|r: int| 0 <= r < rows.len() ==> is_loaded_trip(records, stop_times, #[trigger] rows[r])
    &&& forall|i: int| #[trigger]
        is_last_of_key(records, i) ==> holds_trip(rows, stop_times, records[i])
}

/// Whether `row` is `record` with the exceptions that `exceptions` brings
/// for it appended.
pub open spec fn is_service_with_exceptions(
    row: Service,
    record: Service,
    exceptions: Seq<ServiceException>,
) -> bool {
    same_calendar(row, record) && row.exceptions@ == record.exceptions@ + exceptions_of(
        exceptions,
        record.service_id@,
    )
}

/// Whether `row` is the last service of `records` under its identifier,
/// with its exceptions.
pub open spec fn is_loaded_service(
    records: Seq<Service>,
    exceptions: Seq<ServiceException>,
    row: Service,
) -> bool {
    exists|i: int| #[trigger]
        is_last_of_key(records, i) && is_service_with_exceptions(row, records[i], exceptions)
}

/// Whether `rows` holds `record` with its exceptions.
pub open spec fn holds_service(
    rows: Seq<Service>,
    exceptions: Seq<ServiceException>,
    record: Service,
) -> bool {
    exists|r: int|
        0 <= r < rows.len() && is_service_with_exceptions(#[trigger] rows[r], record, exceptions)
}

/// Whether `rows` holds, for each identifier of `records`, the last service
/// under it with the exceptions that `exceptions` brings for it, and
/// nothing else.
pub open spec fn services_loaded(
    rows: Seq<Service>,
    records: Seq<Service>,
    exceptions: Seq<ServiceException>,
) -> bool {
    &&& forall|r: int|
        0 <= r < rows.len() ==> is_loaded_service(records, exceptions, #[trigger] rows[r])
    &&& forall|i: int| #[trigger]
        is_last_of_key(records, i) ==> holds_service(rows, exceptions, records[i])
}

/// What holds of every row of a table holds of the last record under every
/// identifier, and the other way round.
pub proof fn lemma_rows_stand_for_records<T: Keyed>(
    rows: Seq<T>,
    records: Seq<T>,
    holds: spec_fn(T) -> bool,
)
    requires
        holds_last_records(rows, records),
    ensures
        (forall|r: int| 0 <= r < rows.len() ==> holds(#[trigger] rows[r])) <==> (forall|i: int| #[trigger]
            is_last_of_key(records, i) ==> holds(records[i])),
{
    if forall|r: int| 0 <= r < rows.len() ==> holds(#[trigger] rows[r]) {
        assert forall|i: int| #[trigger] is_last_of_key(records, i) implies holds(records[i]) by {
            assert(rows.contains(records[i]));
            let r = choose|r: int| 0 <= r < rows.len() && rows[r] == records[i];
            assert(holds(rows[r]));
        }
    }
    if forall|i: int| #[trigger] is_last_of_key(records, i) ==> holds(records[i]) {
        assert forall|r: int| 0 <= r < rows.len() implies holds(#[trigger] rows[r]) by {
            assert(is_last_record(records, 0, rows[r]));
            let i = choose|i: int| #[trigger]
                is_last_of_key(records, i) && 0 <= i && rows[r] == records[i];
            assert(holds(records[i]));
        }
    }
}

/// A trip whose calls were sorted in has its times in order exactly if the
/// times of the calls that it had and of those that came agree with the
/// sequence numbers.
pub proof fn lemma_loaded_trip_times(row: Trip, record: Trip, stop_times: Seq<StopTime>)
    requires
        is_trip_with_calls(row, record, stop_times),
    ensures
        times_in_order(row.stop_times@) <==> times_consistent(
            record.stop_times@ + calls_of(stop_times, record.trip_id@),
        ),
        distinct_sequence(record.stop_times@ + calls_of(stop_times, record.trip_id@)),
{
    let listed = record.stop_times@ + calls_of(stop_times, record.trip_id@);
    lemma_times_of_sorted(row.stop_times@);
    if times_consistent(row.stop_times@) {
        lemma_times_consistent_permuted(row.stop_times@, listed);
    }
    if times_consistent(listed) {
        lemma_times_consistent_permuted(listed, row.stop_times@);
    }
    lemma_ascending_is_distinct(row.stop_times@);
    lemma_distinct_sequence_permuted(row.stop_times@, listed);
}

/// Every call of a trip among the records is one of the records.
pub proof fn lemma_calls_of_are_records(records: Seq<StopTime>, id: Seq<char>, c: int)
    requires
        0 <= c < calls_of(records, id).len(),
    ensures
        records.contains(calls_of(records, id)[c]),
        calls_of(records, id)[c].trip_id@ == id,
    decreases records.len(),
{
    if records.len() > 0 {
        let rest = calls_of(records.drop_last(), id);
        if c < rest.len() {
            lemma_calls_of_are_records(records.drop_last(), id, c);
            let at = choose|at: int|
                0 <= at < records.drop_last().len() && records.drop_last()[at] == rest[c];
            assert(records[at] == rest[c]);
        } else {
            assert(records[records.len() - 1] == calls_of(records, id)[c]);
        }
    }
}

/// A trip whose calls were sorted in refers to what is known if it did
/// before and the calls that came name known stops.
pub proof fn lemma_loaded_trip_refers(
    row: Trip,
    record: Trip,
    stop_times: Seq<StopTime>,
    stops: Set<Seq<char>>,
    routes: Set<Seq<char>>,
    services: Set<Seq<char>>,
)
    requires
        is_trip_with_calls(row, record, stop_times),
        trip_refers(record, stops, routes, services),
        forall|i: int| 0 <= i < stop_times.len() ==> stops.contains((#[trigger] stop_times[i]).stop_id@),
    ensures
        trip_refers(row, stops, routes, services),
{
    let added = calls_of(stop_times, record.trip_id@);
    let listed = record.stop_times@ + added;
    assert forall|c: int| 0 <= c < row.stop_times@.len() implies stops.contains(
        (#[trigger] row.stop_times@[c]).stop_id@,
    ) by {
        let call = row.stop_times@[c];
        assert(row.stop_times@.contains(call));
        to_multiset_contains(row.stop_times@, call);
        to_multiset_contains(listed, call);
        let p = choose|p: int| 0 <= p < listed.len() && listed[p] == call;
        if p < record.stop_times@.len() {
            assert(listed[p] == record.stop_times@[p]);
        } else {
            let q = p - record.stop_times@.len();
            assert(listed[p] == added[q]);
            lemma_calls_of_are_records(stop_times, record.trip_id@, q);
            let at = choose|at: int| 0 <= at < stop_times.len() && stop_times[at] == added[q];
            assert(stops.contains(stop_times[at].stop_id@));
        }
    }
}

/// Files the records of a feed and checks them against each other.
///
/// Stops, routes, trips and services are filed under their identifiers;
/// every exception is appended to its service and every call is sorted into
/// its trip. If a reference does not resolve, the reference dangles. If,
/// with all references in order, a trip cannot take its calls, because a
/// sequence number occurs twice or the times do not follow the sequence
/// numbers, the schedule is in conflict.
pub fn load_tables(
    stops: Vec<Stop>,
    routes: Vec<Route>,
    trips: Vec<Trip>,
    services: Vec<Service>,
    exceptions: Vec<ServiceException>,
    stop_times: Vec<StopTime>,
) -> (result: Result<Schedule, GtfsError>)
    ensures
        result is Ok <==> references_resolve(
            stops@,
            routes@,
            trips@,
            services@,
            exceptions@,
            stop_times@,
        ) && calls_fit(trips@, stop_times@),
        result matches Err(e) ==> (e == GtfsError::DanglingReference <==> !references_resolve(
            stops@,
            routes@,
            trips@,
            services@,
            exceptions@,
            stop_times@,
        )) && (e == GtfsError::DanglingReference || e == GtfsError::ScheduleConflict),
        result matches Ok(schedule) ==> {
            &&& schedule.wf()
            &&& holds_last_records(schedule.stops.rows@, stops@)
            &&& holds_last_records(schedule.routes.rows@, routes@)
            &&& trips_loaded(schedule.trips.rows@, trips@, stop_times@)
            &&& services_loaded(schedule.services.rows@, services@, exceptions@)
            &&& in_record_order(keys_of(schedule.stops.rows@), stops@)
            &&& in_record_order(keys_of(schedule.routes.rows@), routes@)
            &&& in_record_order(keys_of(schedule.trips.rows@), trips@)
            &&& in_record_order(keys_of(schedule.services.rows@), services@)
        },
{
    let ghost s0 = stops@;
    let ghost r0 = routes@;
    let ghost t0 = trips@;
    let ghost v0 = services@;
    let ghost e0 = exceptions@;
    let ghost c0 = stop_times@;
    let stop_table = load_stops(stops);
    let route_table = load_routes(routes);
    let mut trip_table = load_trips(trips);
    let mut service_table = load_services(services);
    let ghost filed_trips = trip_table.rows@;
    let ghost filed_services = service_table.rows@;
    let ghost stop_keys = stop_table.index@.dom();
    let ghost route_keys = route_table.index@.dom();
    let ghost service_keys = service_table.index@.dom();
    proof {
        assert(stop_keys =~= key_set(s0));
        assert(route_keys =~= key_set(r0));
        assert(service_keys =~= key_set(v0));
        lemma_rows_stand_for_records(
            filed_trips,
            t0,
            |t: Trip| trip_refers(t, stop_keys, route_keys, service_keys),
        );
        lemma_rows_stand_for_records(filed_trips, t0, |t: Trip| trip_takes_calls(t, c0));
    }
    if !exceptions_known(&exceptions, &service_table) {
        return Err(GtfsError::DanglingReference);
    }
    if !calls_are_known(&stop_times, &trip_table, &stop_table) {
        return Err(GtfsError::DanglingReference);
    }
    if !trips_are_known(&trip_table, &stop_table, &route_table, &service_table) {
        return Err(GtfsError::DanglingReference);
    }
    assert(references_resolve(s0, r0, t0, v0, e0, c0));
    let mut t: usize = 0;
    while t < trip_table.rows.len()
        invariant
            t <= trip_table.rows@.len(),
            trip_table.rows@ == filed_trips,
            s0 == stops@,
            r0 == routes@,
            t0 == trips@,
            v0 == services@,
            e0 == exceptions@,
            c0 == stop_times@,
            references_resolve(s0, r0, t0, v0, e0, c0),
            calls_fit(t0, c0) ==> forall|r: int|
                0 <= r < filed_trips.len() ==> trip_takes_calls(#[trigger] filed_trips[r], c0),
            forall|k: int| 0 <= k < t ==> sequence_ascending((#[trigger] filed_trips[k]).stop_times@),
        decreases trip_table.rows.len() - t,
    {
        if !sequence_ascends(&trip_table.rows[t].stop_times) {
            assert(!trip_takes_calls(filed_trips[t as int], c0));
            return Err(GtfsError::ScheduleConflict);
        }
        t += 1;
    }
    match load_stop_times(stop_times, &mut trip_table) {
        Err(e) => {
            proof {
                assert(trips_known(c0, trip_table.index@));
                if !conflict_free(filed_trips, c0) {
                    let bad = choose|bad: int|
                        0 <= bad < filed_trips.len() && !distinct_sequence(
                            (#[trigger] filed_trips[bad]).stop_times@ + calls_of(
                                c0,
                                filed_trips[bad].trip_id@,
                            ),
                        );
                    assert(!trip_takes_calls(filed_trips[bad], c0));
                } else {
                    let bad = choose|bad: int|
                        0 <= bad < filed_trips.len() && !times_consistent(
                            (#[trigger] filed_trips[bad]).stop_times@ + calls_of(
                                c0,
                                filed_trips[bad].trip_id@,
                            ),
                        );
                    assert(!trip_takes_calls(filed_trips[bad], c0));
                }
            }
            return Err(e);
        },
        Ok(_) => {},
    }
    let ghost sorted_trips = trip_table.rows@;
    proof {
        assert forall|k: int| 0 <= k < filed_trips.len() implies is_trip_with_calls(
            #[trigger] sorted_trips[k],
            filed_trips[k],
            c0,
        ) by {}
    }
    match load_service_exceptions(exceptions, &mut service_table) {
        Err(e) => {
            return Err(e);
        },
        Ok(_) => {},
    }
    let schedule = Schedule {
        stops: stop_table,
        routes: route_table,
        trips: trip_table,
        services: service_table,
    };
    proof {
        let loaded_services = schedule.services.rows@;
        assert(keys_of(sorted_trips) == keys_of(filed_trips)) by {
            assert forall|k: int| 0 <= k < sorted_trips.len() implies sorted_trips[k].key() == keys_of(
                filed_trips,
            )[k] by {
                assert(is_trip_with_calls(sorted_trips[k], filed_trips[k], c0));
            }
        }
        assert(keys_of(loaded_services) == keys_of(filed_services)) by {
            assert forall|k: int| 0 <= k < loaded_services.len() implies loaded_services[k].key()
                == keys_of(filed_services)[k] by {
                assert(same_calendar(loaded_services[k], filed_services[k]));
            }
        }
        assert forall|k: int| 0 <= k < filed_trips.len() implies trip_takes_calls(
            #[trigger] filed_trips[k],
            c0,
        ) by {
            lemma_loaded_trip_times(sorted_trips[k], filed_trips[k], c0);
        }
        assert(calls_fit(t0, c0));
        assert forall|k: int| 0 <= k < sorted_trips.len() implies trip_refers(
            #[trigger] sorted_trips[k],
            stop_keys,
            route_keys,
            service_keys,
        ) && is_schedule(sorted_trips[k].stop_times@) by {
            assert(trip_refers(filed_trips[k], stop_keys, route_keys, service_keys));
            lemma_loaded_trip_refers(
                sorted_trips[k],
                filed_trips[k],
                c0,
                stop_keys,
                route_keys,
                service_keys,
            );
        }
        assert(trips_loaded(sorted_trips, t0, c0)) by {
            assert forall|r: int| 0 <= r < sorted_trips.len() implies is_loaded_trip(
                t0,
                c0,
                #[trigger] sorted_trips[r],
            ) by {
                assert(is_last_record(t0, 0, filed_trips[r]));
                let i = choose|i: int| #[trigger]
                    is_last_of_key(t0, i) && 0 <= i && filed_trips[r] == t0[i];
                assert(is_trip_with_calls(sorted_trips[r], t0[i], c0));
            }
            assert forall|i: int| #[trigger] is_last_of_key(t0, i) implies holds_trip(
                sorted_trips,
                c0,
                t0[i],
            ) by {
                assert(filed_trips.contains(t0[i]));
                let r = choose|r: int| 0 <= r < filed_trips.len() && filed_trips[r] == t0[i];
                assert(is_trip_with_calls(sorted_trips[r], t0[i], c0));
            }
        }
        assert(services_loaded(loaded_services, v0, e0)) by {
            assert forall|r: int| 0 <= r < loaded_services.len() implies is_loaded_service(
                v0,
                e0,
                #[trigger] loaded_services[r],
            ) by {
                assert(is_last_record(v0, 0, filed_services[r]));
                let i = choose|i: int| #[trigger]
                    is_last_of_key(v0, i) && 0 <= i && filed_services[r] == v0[i];
                assert(is_service_with_exceptions(loaded_services[r], v0[i], e0));
            }
            assert forall|i: int| #[trigger] is_last_of_key(v0, i) implies holds_service(
                loaded_services,
                e0,
                v0[i],
            ) by {
                assert(filed_services.contains(v0[i]));
                let r = choose|r: int| 0 <= r < filed_services.len() && filed_services[r] == v0[i];
                assert(is_service_with_exceptions(loaded_services[r], v0[i], e0));
            }
        }
    }
    Ok(schedule)
}

/// Whether `rows` holds, for each identifier of `records`, the last stop
/// under it, whatever its departures, and nothing else.
pub open spec fn stops_loaded(rows: Seq<Stop>, records: Seq<Stop>) -> bool {
    &&& forall|r: int| 0 <= r < rows.len() ==> is_loaded_stop(records, #[trigger] rows[r])
    &&& forall|i: int| #[trigger] is_last_of_key(records, i) ==> holds_stop(rows, records[i])
}

/// Whether `row` holds the record of the last stop of `records` under its
/// identifier.
pub open spec fn is_loaded_stop(records: Seq<Stop>, row: Stop) -> bool {
    exists|i: int| #[trigger] is_last_of_key(records, i) && row.same_record(&records[i])
}

/// Whether `rows` holds the record of the stop `record`.
pub open spec fn holds_stop(rows: Seq<Stop>, record: Stop) -> bool {
    exists|r: int| 0 <= r < rows.len() && (#[trigger] rows[r]).same_record(&record)
}

/// Loads a feed and builds its time-expanded graph.
///
/// The records are filed and checked as [`load_tables`] does, and the graph
/// is built as [`build_graph`] does.
pub fn load_transport_network(
    stops: Vec<Stop>,
    routes: Vec<Route>,
    trips: Vec<Trip>,
    services: Vec<Service>,
    exceptions: Vec<ServiceException>,
    stop_times: Vec<StopTime>,
    config: BuildConfig,
) -> (result: Result<Network, GtfsError>)
    ensures
        result is Ok <==> references_resolve(
            stops@,
            routes@,
            trips@,
            services@,
            exceptions@,
            stop_times@,
        ) && calls_fit(trips@, stop_times@),
        result matches Err(e) ==> (e == GtfsError::DanglingReference <==> !references_resolve(
            stops@,
            routes@,
            trips@,
            services@,
            exceptions@,
            stop_times@,
        )) && (e == GtfsError::DanglingReference || e == GtfsError::ScheduleConflict),
        result matches Ok(network) ==> {
            &&& network.wf()
            &&& network.config() == config
            &&& stops_loaded(network.stops(), stops@)
            &&& holds_last_records(network.routes(), routes@)
            &&& trips_loaded(network.trips(), trips@, stop_times@)
            &&& services_loaded(network.services(), services@, exceptions@)
            &&& in_record_order(keys_of(network.stops()), stops@)
            &&& in_record_order(keys_of(network.routes()), routes@)
            &&& in_record_order(keys_of(network.trips()), trips@)
            &&& in_record_order(keys_of(network.services()), services@)
            &&& forall|id: Seq<char>| #[trigger] network.stop_place(id) is Some <==> has_key(stops@, id)
        },
{
    let ghost s0 = stops@;
    let schedule = match load_tables(stops, routes, trips, services, exceptions, stop_times) {
        Ok(schedule) => schedule,
        Err(e) => {
            return Err(e);
        },
    };
    let ghost filed = schedule.stops.rows@;
    let ghost index = schedule.stops.index@;
    proof {
        assert forall|id: Seq<char>| #[trigger] index.contains_key(id) <==> has_key(s0, id) by {
            let keys = keys_of(filed);
            if index.contains_key(id) {
                let r = index[id] as int;
                assert(keys[r] == filed[r].stop_id@);
                assert(is_last_record(s0, 0, filed[r]));
                let i = choose|i: int| #[trigger] is_last_of_key(s0, i) && 0 <= i && filed[r] == s0[i];
                assert(s0[i].key() == id);
            }
            if has_key(s0, id) {
                lemma_last_of_key_exists(s0, id);
                let i = choose|i: int| #[trigger] is_last_of_key(s0, i) && s0[i].key() == id;
                assert(filed.contains(s0[i]));
                let r = choose|r: int| 0 <= r < filed.len() && filed[r] == s0[i];
                assert(keys[r] == id);
            }
        }
    }
    let network = build_graph(schedule, config);
    proof {
        let built = network.stops();
        assert(keys_of(built) == keys_of(filed)) by {
            assert forall|r: int| 0 <= r < built.len() implies built[r].key() == keys_of(filed)[r] by {
                assert(built[r].same_record(&filed[r]));
            }
        }
        assert forall|r: int| 0 <= r < built.len() implies is_loaded_stop(s0, #[trigger] built[r]) by {
            assert(is_last_record(s0, 0, filed[r]));
            let i = choose|i: int| #[trigger] is_last_of_key(s0, i) && 0 <= i && filed[r] == s0[i];
            assert(built[r].same_record(&s0[i]));
        }
        assert forall|i: int| #[trigger] is_last_of_key(s0, i) implies holds_stop(built, s0[i]) by {
            assert(filed.contains(s0[i]));
            let r = choose|r: int| 0 <= r < filed.len() && filed[r] == s0[i];
            assert(built[r].same_record(&s0[i]));
        }
    }
    Ok(network)
}

/// Among the records under an identifier, one is the last.
pub proof fn lemma_last_of_key_exists<T: Keyed>(records: Seq<T>, id: Seq<char>)
    requires
        has_key(records, id),
    ensures
        exists|i: int| #[trigger] is_last_of_key(records, i) && records[i].key() == id,
    decreases records.len(),
{
    let last = records.len() - 1;
    if records[last].key() == id {
        assert(is_last_of_key(records, last));
    } else {
        let shorter = records.drop_last();
        let at = choose|at: int| 0 <= at < records.len() && (#[trigger] records[at]).key() == id;
        assert(shorter[at].key() == id);
        lemma_last_of_key_exists(shorter, id);
        let i = choose|i: int| #[trigger] is_last_of_key(shorter, i) && shorter[i].key() == id;
        assert forall|j: int| i < j < records.len() implies (#[trigger] records[j]).key()
            != records[i].key() by {
            if j < last {
                assert(shorter[j].key() != shorter[i].key());
            }
        }
        assert(is_last_of_key(records, i));
    }
}

} // verus!
