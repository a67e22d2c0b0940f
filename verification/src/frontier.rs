//! The state of a shortest-path search in progress, and why each of its steps is sound.

use vstd::prelude::*;
use vstd::multiset::*;
use crate::destination::{tos, DestinationView};
use crate::paths::{
    covers, follows, is_path_table, is_simple, is_walk, legs_non_negative, legs_of,
    lemma_leg_non_negative, lemma_relaxed_is_record, lemma_walk_drop_last, lemma_walk_push,
    reaches, record_of, relaxed, sound, station_before, walk_end, walk_len, AdjacencyView,
};
use crate::route::RouteView;
use crate::table::{distinct, lemma_position, lemma_position_is, position};

verus! {

/// The queue entry that stands for a record: its station at its length.
pub open spec fn entry_of(d: DestinationView) -> RouteView {
    RouteView { to: d.to, distance: d.cumulative_distance }
}

/// The table after `d` is filed: in the place of the record for the same
/// station, or at the end where there is none.
pub open spec fn with_record(t: Seq<DestinationView>, d: DestinationView) -> Seq<
    DestinationView,
> {
    match position(tos(t), d.to) {
        Some(i) => t.update(i, d),
        None => t.push(d),
    }
}

/// The flags after `d` is filed: a new record is not done.
pub open spec fn with_flag(t: Seq<DestinationView>, done: Seq<bool>, d: DestinationView) -> Seq<
    bool,
> {
    match position(tos(t), d.to) {
        Some(i) => done,
        None => done.push(false),
    }
}

/// Leg `m` of station `t[k].to` leads to a station that the table holds, at
/// no more than the length through `t[k]`, unless that length is out of range.
pub open spec fn leg_covered(
    adj: Seq<AdjacencyView>,
    t: Seq<DestinationView>,
    k: int,
    m: int,
) -> bool {
    let leg = legs_of(adj, t[k].to)[m];
    t[k].cumulative_distance + leg.distance < i32::MAX ==> covers(
        t,
        leg.to,
        t[k].cumulative_distance + leg.distance,
    )
}

/// The first `j` legs of station `t[k].to` are covered.
pub open spec fn settled_upto(
    adj: Seq<AdjacencyView>,
    t: Seq<DestinationView>,
    k: int,
    j: int,
) -> bool {
    forall|m: int|
        0 <= m < j && m < legs_of(adj, t[k].to).len() ==> #[trigger] leg_covered(adj, t, k, m)
}

/// All legs of station `t[k].to` are covered.
pub open spec fn settled(adj: Seq<AdjacencyView>, t: Seq<DestinationView>, k: int) -> bool {
    settled_upto(adj, t, k, legs_of(adj, t[k].to).len() as int)
}

/// Record `k` of the table is done and leads to `station`.
pub open spec fn is_done_at(
    t: Seq<DestinationView>,
    done: Seq<bool>,
    station: Seq<char>,
    k: int,
) -> bool {
    0 <= k < t.len() && k < done.len() && done[k] && t[k].to == station
}

/// The table holds a record for `station` that is done.
pub open spec fn covers_done(t: Seq<DestinationView>, done: Seq<bool>, station: Seq<char>) -> bool {
    exists|k: int| is_done_at(t, done, station, k)
}

/// `d` is the record of the walk `p`, and every station that `p` leaves is done.
#[verifier::opaque]
pub open spec fn traces(
    adj: Seq<AdjacencyView>,
    source: Seq<char>,
    t: Seq<DestinationView>,
    done: Seq<bool>,
    d: DestinationView,
    p: Seq<RouteView>,
) -> bool {
    &&& follows(adj, source, d, p)
    &&& forall|i: int|
        0 <= i < p.len() ==> covers_done(t, done, #[trigger] station_before(source, p, i))
}

/// `d` is the record of a walk of which every station but the last is done.
pub open spec fn traced(
    adj: Seq<AdjacencyView>,
    source: Seq<char>,
    t: Seq<DestinationView>,
    done: Seq<bool>,
    d: DestinationView,
) -> bool {
    exists|p: Seq<RouteView>| traces(adj, source, t, done, d, p)
}

/// What is traced stays traced while the records that are done stay, and stay done.
pub proof fn lemma_traced_stays(
    adj: Seq<AdjacencyView>,
    source: Seq<char>,
    t: Seq<DestinationView>,
    done: Seq<bool>,
    later: Seq<DestinationView>,
    flags: Seq<bool>,
    d: DestinationView,
)
    requires
        traced(adj, source, t, done, d),
        forall|m: int|
            0 <= m < t.len() && m < done.len() && #[trigger] done[m] ==> m < later.len() && m
                < flags.len() && flags[m] && later[m].to == t[m].to,
    ensures
        traced(adj, source, later, flags, d),
{
    reveal(traces);
    let p = choose|p: Seq<RouteView>| traces(adj, source, t, done, d, p);
    assert forall|i: int| 0 <= i < p.len() implies covers_done(
        later,
        flags,
        #[trigger] station_before(source, p, i),
    ) by {
        let x = station_before(source, p, i);
        let m = choose|m: int| is_done_at(t, done, x, m);
        assert(done[m]);
        assert(is_done_at(later, flags, x, m));
    }
    assert(traces(adj, source, later, flags, d, p));
}

/// What holds of the table whatever the search is doing.
pub open spec fn table_ok(
    adj: Seq<AdjacencyView>,
    source: Seq<char>,
    t: Seq<DestinationView>,
    done: Seq<bool>,
) -> bool {
    &&& legs_non_negative(adj)
    &&& t.len() > 0
    &&& t[0] == record_of(source, Seq::empty())
    &&& done.len() == t.len()
    &&& distinct(tos(t))
    &&& forall|k: int|
        0 <= k < t.len() ==> traced(adj, source, t, done, #[trigger] t[k]) && 0
            <= t[k].cumulative_distance < i32::MAX
}

/// How the queue stands to the table: every entry names a station of the
/// table at no less than its length; every record that is not done has its
/// entry; no entry is nearer than a record that is done.
pub open spec fn queued(
    t: Seq<DestinationView>,
    done: Seq<bool>,
    heap: Multiset<RouteView>,
) -> bool {
    &&& forall|e: RouteView| #[trigger] heap.contains(e) ==> covers(t, e.to, e.distance)
    &&& forall|k: int| 0 <= k < t.len() && !#[trigger] done[k] ==> heap.contains(entry_of(t[k]))
    &&& forall|k: int, e: RouteView|
        0 <= k < t.len() && #[trigger] done[k] && #[trigger] heap.contains(e)
            ==> t[k].cumulative_distance <= e.distance
}

/// The invariant between two pops.
pub open spec fn frontier_ok(
    adj: Seq<AdjacencyView>,
    source: Seq<char>,
    t: Seq<DestinationView>,
    done: Seq<bool>,
    heap: Multiset<RouteView>,
) -> bool {
    &&& table_ok(adj, source, t, done)
    &&& forall|k: int| 0 <= k < t.len() && #[trigger] done[k] ==> settled(adj, t, k)
    &&& queued(t, done, heap)
}

/// The invariant while the legs of station `t[k].to` are relaxed, `j` of them so far.
pub open spec fn expanding_ok(
    adj: Seq<AdjacencyView>,
    source: Seq<char>,
    t: Seq<DestinationView>,
    done: Seq<bool>,
    heap: Multiset<RouteView>,
    k: int,
    j: int,
) -> bool {
    &&& table_ok(adj, source, t, done)
    &&& 0 <= k < t.len()
    &&& done[k]
    &&& forall|i: int| 0 <= i < t.len() && i != k && #[trigger] done[i] ==> settled(adj, t, i)
    &&& settled_upto(adj, t, k, j)
    &&& queued(t, done, heap)
    &&& forall|i: int|
        0 <= i < t.len() && #[trigger] done[i] ==> t[i].cumulative_distance
            <= t[k].cumulative_distance
}

/// In a table without a station twice, a record stands where `position` finds its station.
pub proof fn lemma_position_of_record(t: Seq<DestinationView>, k: int)
    requires
        distinct(tos(t)),
        0 <= k < t.len(),
    ensures
        position(tos(t), t[k].to) == Some(k),
{
    assert(tos(t)[k] == t[k].to);
    assert forall|j: int| 0 <= j < k implies tos(t)[j] != t[k].to by {
        assert(tos(t)[j] != tos(t)[k]);
    }
    lemma_position_is(tos(t), t[k].to, k);
}

/// The search starts in a state that meets the invariant.
pub proof fn lemma_frontier_start(adj: Seq<AdjacencyView>, source: Seq<char>)
    requires
        legs_non_negative(adj),
    ensures
        frontier_ok(
            adj,
            source,
            seq![record_of(source, Seq::empty())],
            seq![false],
            Multiset::empty().insert(RouteView { to: source, distance: 0 }),
        ),
{
    broadcast use group_multiset_axioms;

    let first = record_of(source, Seq::empty());
    let t = seq![first];
    let heap = Multiset::empty().insert(RouteView { to: source, distance: 0 });
    assert(is_walk(adj, source, Seq::empty()));
    assert(is_simple(source, Seq::empty())) by {
        reveal(is_simple);
    }
    assert(follows(adj, source, first, Seq::empty()));
    assert(traces(adj, source, t, seq![false], first, Seq::empty())) by {
        reveal(traces);
    }
    assert(entry_of(first) == RouteView { to: source, distance: 0 });
    assert forall|e: RouteView| #[trigger] heap.contains(e) implies covers(t, e.to, e.distance) by {
        assert(e == RouteView { to: source, distance: 0 });
        assert(reaches(t, 0, e.to, e.distance));
    }
}

/// A record that is filed no farther than the one it replaces keeps what the table covers.
pub proof fn lemma_covers_with_record(
    t: Seq<DestinationView>,
    d: DestinationView,
    to: Seq<char>,
    bound: int,
)
    requires
        covers(t, to, bound),
        match position(tos(t), d.to) {
            Some(i) => d.cumulative_distance <= t[i].cumulative_distance,
            None => true,
        },
    ensures
        covers(with_record(t, d), to, bound),
{
    lemma_position(tos(t), d.to);
    let k = choose|k: int| reaches(t, k, to, bound);
    let after = with_record(t, d);
    match position(tos(t), d.to) {
        Some(i) => {
            if k == i {
                assert(reaches(after, k, to, bound));
            } else {
                assert(reaches(after, k, to, bound));
            }
        },
        None => {
            assert(reaches(after, k, to, bound));
        },
    }
}

/// Popping an entry whose station is done keeps the invariant.
pub proof fn lemma_pop_done(
    adj: Seq<AdjacencyView>,
    source: Seq<char>,
    t: Seq<DestinationView>,
    done: Seq<bool>,
    heap: Multiset<RouteView>,
    e: RouteView,
    k: int,
)
    requires
        frontier_ok(adj, source, t, done, heap),
        heap.contains(e),
        0 <= k < t.len(),
        t[k].to == e.to,
        done[k],
    ensures
        frontier_ok(adj, source, t, done, heap.remove(e)),
{
    broadcast use group_multiset_axioms;

    let rest = heap.remove(e);
    assert forall|x: RouteView| #[trigger] rest.contains(x) implies covers(t, x.to, x.distance) by {
        assert(heap.contains(x));
    }
    assert forall|i: int| 0 <= i < t.len() && !#[trigger] done[i] implies rest.contains(
        entry_of(t[i]),
    ) by {
        assert(heap.contains(entry_of(t[i])));
        assert(tos(t)[i] != tos(t)[k]);
    }
    assert forall|i: int, x: RouteView|
        0 <= i < t.len() && #[trigger] done[i] && #[trigger] rest.contains(x)
            implies t[i].cumulative_distance <= x.distance by {
        assert(heap.contains(x));
    }
}

/// Popping the nearest entry, for a station that is not done, finds the
/// station at its recorded length, and opens its expansion.
pub proof fn lemma_pop_open(
    adj: Seq<AdjacencyView>,
    source: Seq<char>,
    t: Seq<DestinationView>,
    done: Seq<bool>,
    heap: Multiset<RouteView>,
    e: RouteView,
    k: int,
)
    requires
        frontier_ok(adj, source, t, done, heap),
        heap.contains(e),
        forall|x: RouteView| #[trigger] heap.contains(x) ==> e.distance <= x.distance,
        0 <= k < t.len(),
        t[k].to == e.to,
        !done[k],
    ensures
        e.distance == t[k].cumulative_distance,
        expanding_ok(adj, source, t, done.update(k, true), heap.remove(e), k, 0),
{
    broadcast use group_multiset_axioms;

    let rest = heap.remove(e);
    let flags = done.update(k, true);
    assert forall|i: int| 0 <= i < t.len() implies traced(adj, source, t, flags, #[trigger] t[i]) by {
        lemma_traced_stays(adj, source, t, done, t, flags, t[i]);
    }
    assert(heap.contains(entry_of(t[k])));
    assert(covers(t, e.to, e.distance));
    let k2 = choose|k2: int| reaches(t, k2, e.to, e.distance);
    if k2 != k {
        assert(tos(t)[k2] != tos(t)[k]);
    }
    assert(e == entry_of(t[k]));
    assert forall|x: RouteView| #[trigger] rest.contains(x) implies covers(t, x.to, x.distance) by {
        assert(heap.contains(x));
    }
    assert forall|i: int| 0 <= i < t.len() && !#[trigger] flags[i] implies rest.contains(
        entry_of(t[i]),
    ) by {
        assert(!done[i]);
        assert(heap.contains(entry_of(t[i])));
        assert(tos(t)[i] != tos(t)[k]);
    }
    assert forall|i: int, x: RouteView|
        0 <= i < t.len() && #[trigger] flags[i] && #[trigger] rest.contains(x)
            implies t[i].cumulative_distance <= x.distance by {
        assert(heap.contains(x));
        if i != k {
            assert(done[i]);
        }
    }
    assert forall|i: int| 0 <= i < t.len() && #[trigger] flags[i] implies t[i].cumulative_distance
        <= t[k].cumulative_distance by {
        if i != k {
            assert(done[i]);
        }
    }
    assert forall|i: int| 0 <= i < t.len() && i != k && #[trigger] flags[i] implies settled(
        adj,
        t,
        i,
    ) by {
        assert(done[i]);
    }
}

/// A leg that is not relaxed is covered as the table stands.
pub proof fn lemma_relax_none(
    adj: Seq<AdjacencyView>,
    source: Seq<char>,
    t: Seq<DestinationView>,
    done: Seq<bool>,
    heap: Multiset<RouteView>,
    k: int,
    j: int,
)
    requires
        expanding_ok(adj, source, t, done, heap, k, j),
        0 <= j < legs_of(adj, t[k].to).len(),
        relaxed(legs_of(adj, t[k].to)[j], source, t[k].to, t[k].cumulative_distance, t) is None,
    ensures
        expanding_ok(adj, source, t, done, heap, k, j + 1),
{
    let leg = legs_of(adj, t[k].to)[j];
    lemma_position(tos(t), leg.to);
    assert(leg_covered(adj, t, k, j)) by {
        if t[k].cumulative_distance + leg.distance < i32::MAX {
            let i = position(tos(t), leg.to).unwrap();
            assert(reaches(t, i, leg.to, t[k].cumulative_distance + leg.distance));
        }
    }
    assert forall|m: int|
        0 <= m < j + 1 && m < legs_of(adj, t[k].to).len() implies #[trigger] leg_covered(
        adj,
        t,
        k,
        m,
    ) by {
        if m < j {
            assert(leg_covered(adj, t, k, m));
        }
    }
}

/// Filing the record of a nearer way keeps every covered leg covered.
proof fn lemma_settled_with_record(
    adj: Seq<AdjacencyView>,
    t: Seq<DestinationView>,
    d: DestinationView,
    i: int,
    j: int,
)
    requires
        0 <= i < t.len(),
        settled_upto(adj, t, i, j),
        with_record(t, d)[i] == t[i],
        match position(tos(t), d.to) {
            Some(m) => d.cumulative_distance <= t[m].cumulative_distance,
            None => true,
        },
    ensures
        settled_upto(adj, with_record(t, d), i, j),
{
    let after = with_record(t, d);
    assert forall|m: int|
        0 <= m < j && m < legs_of(adj, after[i].to).len() implies #[trigger] leg_covered(
        adj,
        after,
        i,
        m,
    ) by {
        assert(leg_covered(adj, t, i, m));
        let leg = legs_of(adj, t[i].to)[m];
        if t[i].cumulative_distance + leg.distance < i32::MAX {
            lemma_covers_with_record(t, d, leg.to, t[i].cumulative_distance + leg.distance);
        }
    }
}

/// Where the record `d` goes in the table: the place of its station, or the end.
pub open spec fn slot_of(t: Seq<DestinationView>, d: DestinationView) -> int {
    match position(tos(t), d.to) {
        Some(m) => m,
        None => t.len() as int,
    }
}

/// What filing `d` changes: one place of the table, which is not done, not
/// the one that is expanded, and held nothing nearer.
pub open spec fn filed(
    t: Seq<DestinationView>,
    done: Seq<bool>,
    d: DestinationView,
    k: int,
) -> bool {
    let slot = slot_of(t, d);
    let after = with_record(t, d);
    let flags = with_flag(t, done, d);
    &&& 0 <= slot <= t.len()
    &&& slot != k
    &&& after.len() == flags.len()
    &&& t.len() <= after.len()
    &&& slot < after.len()
    &&& after[slot] == d
    &&& !flags[slot]
    &&& forall|i: int|
        0 <= i < after.len() && i != slot ==> i < t.len() && #[trigger] after[i] == t[i] && flags[i]
            == done[i]
    &&& slot < t.len() ==> !done[slot] && t[slot].to == d.to && d.cumulative_distance
        < t[slot].cumulative_distance
    &&& slot == t.len() ==> forall|i: int| 0 <= i < t.len() ==> (#[trigger] t[i]).to != d.to
    &&& match position(tos(t), d.to) {
        Some(m) => d.cumulative_distance <= t[m].cumulative_distance,
        None => true,
    }
}

/// The record that a relaxation writes follows a walk that passes no
/// station twice and leaves only stations that are done, and is filed in a
/// place that is not done.
#[verifier::rlimit(40)]
proof fn lemma_relax_files(
    adj: Seq<AdjacencyView>,
    source: Seq<char>,
    t: Seq<DestinationView>,
    done: Seq<bool>,
    heap: Multiset<RouteView>,
    k: int,
    j: int,
    d: DestinationView,
)
    requires
        expanding_ok(adj, source, t, done, heap, k, j),
        0 <= j < legs_of(adj, t[k].to).len(),
        relaxed(legs_of(adj, t[k].to)[j], source, t[k].to, t[k].cumulative_distance, t) == Some(
            d,
        ),
    ensures
        filed(t, done, d, k),
        traced(adj, source, t, done, d),
        d.to == legs_of(adj, t[k].to)[j].to,
        d.cumulative_distance == t[k].cumulative_distance + legs_of(adj, t[k].to)[j].distance,
        t[k].cumulative_distance <= d.cumulative_distance < i32::MAX,
{
    reveal(traces);
    reveal(is_simple);
    let legs = legs_of(adj, t[k].to);
    let leg = legs[j];
    lemma_position(tos(t), leg.to);
    lemma_position_of_record(t, k);
    lemma_position_of_record(t, 0);
    assert(legs.contains(leg));
    lemma_leg_non_negative(adj, t[k].to, leg);

    let p = if k == 0 {
        Seq::<RouteView>::empty()
    } else {
        choose|p: Seq<RouteView>| traces(adj, source, t, done, t[k], p)
    };
    assert(traces(adj, source, t, done, t[k], p) && (p.len() == 0 <==> t[k].to == source)) by {
        if k == 0 {
            assert(is_walk(adj, source, p));
            assert(is_simple(source, p));
        } else {
            assert(traced(adj, source, t, done, t[k]));
            assert(tos(t)[k] != tos(t)[0]);
        }
    }
    lemma_relaxed_is_record(source, p, leg, t, k);
    lemma_walk_push(adj, source, p, leg);

    match position(tos(t), d.to) {
        Some(m) => {
            assert(tos(t)[m] == t[m].to);
            if done[m] {
                assert(t[m].cumulative_distance <= t[k].cumulative_distance);
            }
        },
        None => {
            assert forall|i: int| 0 <= i < t.len() implies (#[trigger] t[i]).to != d.to by {
                assert(tos(t)[i] != d.to);
            }
        },
    }
    assert(filed(t, done, d, k));

    let q = p.push(leg);
    assert forall|i: int| 0 <= i <= p.len() implies #[trigger] station_before(source, q, i)
        == station_before(source, p, i) && covers_done(t, done, station_before(source, q, i))
        && station_before(source, q, i) != d.to by {
        if i > 0 {
            assert(q[i - 1] == p[i - 1]);
        }
        let x = station_before(source, p, i);
        if i < p.len() {
            assert(covers_done(t, done, station_before(source, p, i)));
        } else {
            assert(x == t[k].to);
            assert(is_done_at(t, done, x, k));
        }
        let m = choose|m: int| is_done_at(t, done, x, m);
        if x == d.to {
            assert(tos(t)[m] == d.to);
            lemma_position_of_record(t, m);
        }
    }
    assert(station_before(source, q, q.len() as int) == d.to);
    assert forall|a: int, b: int| 0 <= a < b <= q.len() implies #[trigger] station_before(
        source,
        q,
        a,
    ) != #[trigger] station_before(source, q, b) by {
        if b <= p.len() {
            assert(station_before(source, q, a) == station_before(source, p, a));
            assert(station_before(source, q, b) == station_before(source, p, b));
        } else {
            assert(station_before(source, q, a) != d.to);
        }
    }
    assert(traces(adj, source, t, done, d, q));
}

/// Filing a record keeps the table in order.
proof fn lemma_filed_table_ok(
    adj: Seq<AdjacencyView>,
    source: Seq<char>,
    t: Seq<DestinationView>,
    done: Seq<bool>,
    d: DestinationView,
    k: int,
)
    requires
        table_ok(adj, source, t, done),
        filed(t, done, d, k),
        slot_of(t, d) != 0,
        traced(adj, source, t, done, d),
        0 <= d.cumulative_distance < i32::MAX,
    ensures
        table_ok(adj, source, with_record(t, d), with_flag(t, done, d)),
{
    let slot = slot_of(t, d);
    let after = with_record(t, d);
    assert(after[0] == t[0]);
    assert forall|a: int, b: int|
        0 <= a < after.len() && 0 <= b < after.len() && a != b implies tos(after)[a] != tos(
        after,
    )[b] by {
        if a != slot && b != slot {
            assert(after[a] == t[a] && after[b] == t[b]);
            assert(tos(t)[a] != tos(t)[b]);
        } else if a == slot {
            assert(after[b] == t[b]);
            if slot < t.len() {
                assert(tos(t)[b] != tos(t)[slot]);
            }
        } else {
            assert(after[a] == t[a]);
            if slot < t.len() {
                assert(tos(t)[a] != tos(t)[slot]);
            }
        }
    }
    let flags = with_flag(t, done, d);
    assert forall|m: int|
        0 <= m < t.len() && m < done.len() && #[trigger] done[m] implies m < after.len() && m
        < flags.len() && flags[m] && after[m].to == t[m].to by {
        assert(m != slot);
        assert(after[m] == t[m]);
    }
    assert forall|i: int| 0 <= i < after.len() implies traced(
        adj,
        source,
        after,
        flags,
        #[trigger] after[i],
    ) && 0 <= after[i].cumulative_distance < i32::MAX by {
        if i != slot {
            assert(after[i] == t[i]);
            assert(traced(adj, source, t, done, t[i]));
            lemma_traced_stays(adj, source, t, done, after, flags, t[i]);
        } else {
            lemma_traced_stays(adj, source, t, done, after, flags, d);
        }
    }
}

/// Filing a record keeps the queue in step with the table, once its entry is queued.
proof fn lemma_filed_queued(
    t: Seq<DestinationView>,
    done: Seq<bool>,
    heap: Multiset<RouteView>,
    d: DestinationView,
    k: int,
)
    requires
        done.len() == t.len(),
        0 <= k < t.len(),
        queued(t, done, heap),
        filed(t, done, d, k),
        forall|i: int|
            0 <= i < t.len() && #[trigger] done[i] ==> t[i].cumulative_distance
                <= d.cumulative_distance,
    ensures
        queued(with_record(t, d), with_flag(t, done, d), heap.insert(entry_of(d))),
{
    broadcast use group_multiset_axioms;

    let slot = slot_of(t, d);
    let after = with_record(t, d);
    let flags = with_flag(t, done, d);
    let more = heap.insert(entry_of(d));
    assert forall|e: RouteView| #[trigger] more.contains(e) implies covers(
        after,
        e.to,
        e.distance,
    ) by {
        if e == entry_of(d) {
            assert(reaches(after, slot, e.to, e.distance));
        } else {
            assert(heap.contains(e));
            lemma_covers_with_record(t, d, e.to, e.distance);
        }
    }
    assert forall|i: int| 0 <= i < after.len() && !#[trigger] flags[i] implies more.contains(
        entry_of(after[i]),
    ) by {
        if i != slot {
            assert(after[i] == t[i]);
            assert(!done[i]);
            assert(heap.contains(entry_of(t[i])));
        }
    }
    assert forall|i: int, e: RouteView|
        0 <= i < after.len() && #[trigger] flags[i] && #[trigger] more.contains(e)
            implies after[i].cumulative_distance <= e.distance by {
        assert(after[i] == t[i]);
        assert(done[i]);
        if e == entry_of(d) {
        } else {
            assert(heap.contains(e));
        }
    }
}

/// A leg that is relaxed leaves a table, flags and queue that meet the invariant.
pub proof fn lemma_relax_some(
    adj: Seq<AdjacencyView>,
    source: Seq<char>,
    t: Seq<DestinationView>,
    done: Seq<bool>,
    heap: Multiset<RouteView>,
    k: int,
    j: int,
    d: DestinationView,
)
    requires
        expanding_ok(adj, source, t, done, heap, k, j),
        0 <= j < legs_of(adj, t[k].to).len(),
        relaxed(legs_of(adj, t[k].to)[j], source, t[k].to, t[k].cumulative_distance, t) == Some(
            d,
        ),
    ensures
        expanding_ok(
            adj,
            source,
            with_record(t, d),
            with_flag(t, done, d),
            heap.insert(entry_of(d)),
            k,
            j + 1,
        ),
        with_record(t, d)[k] == t[k],
        filed(t, done, d, k),
{
    let leg = legs_of(adj, t[k].to)[j];
    let slot = slot_of(t, d);
    let after = with_record(t, d);
    let flags = with_flag(t, done, d);
    lemma_relax_files(adj, source, t, done, heap, k, j, d);
    assert(slot != 0) by {
        if slot == 0 {
            assert(t[0].cumulative_distance == 0);
        }
    }
    lemma_filed_table_ok(adj, source, t, done, d, k);
    assert forall|i: int|
        0 <= i < t.len() && #[trigger] done[i] implies t[i].cumulative_distance
        <= d.cumulative_distance by {}
    lemma_filed_queued(t, done, heap, d, k);
    assert(after[k] == t[k]);
    assert forall|i: int| 0 <= i < after.len() && i != k && #[trigger] flags[i] implies settled(
        adj,
        after,
        i,
    ) by {
        assert(after[i] == t[i]);
        assert(done[i]);
        lemma_settled_with_record(adj, t, d, i, legs_of(adj, t[i].to).len() as int);
    }
    assert(settled_upto(adj, after, k, j + 1)) by {
        lemma_settled_with_record(adj, t, d, k, j);
        assert(reaches(after, slot, leg.to, t[k].cumulative_distance + leg.distance));
        assert(leg_covered(adj, after, k, j));
        assert forall|m: int|
            0 <= m < j + 1 && m < legs_of(adj, after[k].to).len() implies #[trigger] leg_covered(
            adj,
            after,
            k,
            m,
        ) by {
            if m < j {
                assert(leg_covered(adj, after, k, m));
            }
        }
    }
    assert forall|i: int| 0 <= i < after.len() && #[trigger] flags[i]
        implies after[i].cumulative_distance <= after[k].cumulative_distance by {
        assert(after[i] == t[i]);
        assert(done[i]);
    }
}

/// When all legs of the station are relaxed, its expansion is over.
pub proof fn lemma_expansion_done(
    adj: Seq<AdjacencyView>,
    source: Seq<char>,
    t: Seq<DestinationView>,
    done: Seq<bool>,
    heap: Multiset<RouteView>,
    k: int,
    j: int,
)
    requires
        expanding_ok(adj, source, t, done, heap, k, j),
        j >= legs_of(adj, t[k].to).len(),
    ensures
        frontier_ok(adj, source, t, done, heap),
{
    assert(settled(adj, t, k)) by {
        assert forall|m: int|
            0 <= m < legs_of(adj, t[k].to).len() implies #[trigger] leg_covered(adj, t, k, m) by {}
    }
    assert forall|i: int| 0 <= i < t.len() && #[trigger] done[i] implies settled(adj, t, i) by {}
}

/// In a table whose every station is settled, every walk from the source
/// ends at a station of the table, at no less than its recorded length.
pub proof fn lemma_settled_table_covers(
    adj: Seq<AdjacencyView>,
    source: Seq<char>,
    t: Seq<DestinationView>,
    p: Seq<RouteView>,
)
    requires
        legs_non_negative(adj),
        t.len() > 0,
        t[0] == record_of(source, Seq::empty()),
        forall|k: int| 0 <= k < t.len() ==> settled(adj, t, k),
        is_walk(adj, source, p),
        walk_len(p) < i32::MAX,
    ensures
        covers(t, walk_end(source, p), walk_len(p)),
    decreases p.len(),
{
    if p.len() == 0 {
        assert(reaches(t, 0, walk_end(source, p), walk_len(p)));
    } else {
        let q = p.drop_last();
        let leg = p.last();
        lemma_walk_drop_last(adj, source, p);
        lemma_leg_non_negative(adj, walk_end(source, q), leg);
        lemma_settled_table_covers(adj, source, t, q);
        let k = choose|k: int| reaches(t, k, walk_end(source, q), walk_len(q));
        let legs = legs_of(adj, t[k].to);
        let m = choose|m: int| 0 <= m < legs.len() && legs[m] == leg;
        assert(settled(adj, t, k));
        assert(leg_covered(adj, t, k, m));
        let bound = t[k].cumulative_distance + leg.distance;
        assert(covers(t, leg.to, bound));
        let k2 = choose|k2: int| reaches(t, k2, leg.to, bound);
        assert(reaches(t, k2, walk_end(source, p), walk_len(p)));
    }
}

/// When the queue is empty, the table is the path table of the source.
pub proof fn lemma_frontier_end(
    adj: Seq<AdjacencyView>,
    source: Seq<char>,
    t: Seq<DestinationView>,
    done: Seq<bool>,
    heap: Multiset<RouteView>,
)
    requires
        frontier_ok(adj, source, t, done, heap),
        heap.len() == 0,
    ensures
        is_path_table(adj, source, t),
{
    broadcast use group_multiset_axioms;

    assert forall|k: int| 0 <= k < t.len() implies settled(adj, t, k) by {
        if !done[k] {
            assert(heap.contains(entry_of(t[k])));
            lemma_multiset_empty_len(heap);
        }
    }
    assert forall|p: Seq<RouteView>| #[trigger]
        is_walk(adj, source, p) && walk_len(p) < i32::MAX implies covers(
        t,
        walk_end(source, p),
        walk_len(p),
    ) by {
        lemma_settled_table_covers(adj, source, t, p);
    }
    assert forall|k: int| 0 <= k < t.len() implies sound(adj, source, #[trigger] t[k])
        && t[k].cumulative_distance < i32::MAX by {
        lemma_traced_sound(adj, source, t, done, t[k]);
    }
    assert forall|k: int| 0 <= k < t.len() && (#[trigger] t[k]).to == source implies t[k]
        == record_of(source, Seq::empty()) by {
        if k != 0 {
            assert(tos(t)[k] != tos(t)[0]);
        }
    }
}

/// What is traced is sound.
pub proof fn lemma_traced_sound(
    adj: Seq<AdjacencyView>,
    source: Seq<char>,
    t: Seq<DestinationView>,
    done: Seq<bool>,
    d: DestinationView,
)
    requires
        traced(adj, source, t, done, d),
    ensures
        sound(adj, source, d),
{
    reveal(traces);
    let p = choose|p: Seq<RouteView>| traces(adj, source, t, done, d, p);
    assert(follows(adj, source, d, p));
}

} // verus!
