//! Walks through the network, and the records that the path oracle keeps of them.

use vstd::prelude::*;
use crate::destination::{tos, DestinationView};
use crate::route::RouteView;
use crate::table::{distinct, lemma_position, position};

verus! {

/// The mathematical value of one station's entry in the adjacency: its name
/// and the legs that leave it.
pub ghost struct AdjacencyView {
    pub station: Seq<char>,
    pub routes: Seq<RouteView>,
}

/// The names of the stations of an adjacency, in its order.
pub open spec fn stations(adj: Seq<AdjacencyView>) -> Seq<Seq<char>> {
    Seq::new(adj.len(), |i: int| adj[i].station)
}

/// The legs that leave station `u`; none where the adjacency does not hold `u`.
pub open spec fn legs_of(adj: Seq<AdjacencyView>, u: Seq<char>) -> Seq<RouteView> {
    match position(stations(adj), u) {
        Some(i) => adj[i].routes,
        None => Seq::empty(),
    }
}

/// No leg has a negative distance.
pub open spec fn legs_non_negative(adj: Seq<AdjacencyView>) -> bool {
    forall|i: int, j: int|
        0 <= i < adj.len() && 0 <= j < adj[i].routes.len() ==> (#[trigger] adj[i].routes[j]).distance
            >= 0
}

/// The station at which leg `i` of the walk `p` from `source` starts.
pub open spec fn station_before(source: Seq<char>, p: Seq<RouteView>, i: int) -> Seq<char> {
    if i <= 0 {
        source
    } else {
        p[i - 1].to
    }
}

/// `p` is a walk from `source`: each leg leaves the station the one before it led to.
pub open spec fn is_walk(adj: Seq<AdjacencyView>, source: Seq<char>, p: Seq<RouteView>) -> bool {
    forall|i: int|
        0 <= i < p.len() ==> legs_of(adj, station_before(source, p, i)).contains(#[trigger] p[i])
}

/// The station at which the walk ends.
pub open spec fn walk_end(source: Seq<char>, p: Seq<RouteView>) -> Seq<char> {
    station_before(source, p, p.len() as int)
}

/// The length of the walk: the sum of its legs.
pub open spec fn walk_len(p: Seq<RouteView>) -> int
    decreases p.len(),
{
    if p.len() == 0 {
        0
    } else {
        walk_len(p.drop_last()) + p.last().distance
    }
}

/// The distances of legs or checkpoints added up.
pub open spec fn distance_sum(s: Seq<RouteView>) -> int {
    walk_len(s)
}

/// The checkpoints recorded for the walk `p`: each leg but the last, with
/// the station it arrives at and its length.
pub open spec fn marks(p: Seq<RouteView>) -> Seq<RouteView> {
    if p.len() == 0 {
        p
    } else {
        p.drop_last()
    }
}

/// The walk passes no station twice: the source and the stations at which
/// its legs arrive are all different.
#[verifier::opaque]
pub open spec fn is_simple(source: Seq<char>, p: Seq<RouteView>) -> bool {
    forall|i: int, j: int|
        0 <= i < j <= p.len() ==> #[trigger] station_before(source, p, i) != #[trigger] station_before(
            source,
            p,
            j,
        )
}

/// The record that the oracle keeps of the walk `p` from `source`.
pub open spec fn record_of(source: Seq<char>, p: Seq<RouteView>) -> DestinationView {
    DestinationView {
        from: source,
        to: walk_end(source, p),
        distance: if p.len() == 0 {
            0
        } else {
            p.last().distance
        },
        cumulative_distance: walk_len(p),
        checkpoints: marks(p),
    }
}

/// `d` is the record of the walk `p` from `source`, which passes no station twice.
pub open spec fn follows(
    adj: Seq<AdjacencyView>,
    source: Seq<char>,
    d: DestinationView,
    p: Seq<RouteView>,
) -> bool {
    is_walk(adj, source, p) && is_simple(source, p) && d == record_of(source, p)
}

/// `d` is the record of some walk from `source` that passes no station twice.
pub open spec fn sound(adj: Seq<AdjacencyView>, source: Seq<char>, d: DestinationView) -> bool {
    exists|p: Seq<RouteView>| follows(adj, source, d, p)
}

/// Record `k` of the table leads to `to` and has a length of at most `bound`.
pub open spec fn reaches(t: Seq<DestinationView>, k: int, to: Seq<char>, bound: int) -> bool {
    0 <= k < t.len() && t[k].to == to && t[k].cumulative_distance <= bound
}

/// The table holds a record that leads to `to` with a length of at most `bound`.
pub open spec fn covers(t: Seq<DestinationView>, to: Seq<char>, bound: int) -> bool {
    exists|k: int| reaches(t, k, to, bound)
}

/// What a path table from `source` is: no station twice; the record of
/// `source` itself is that of the walk without legs; every record is that
/// of a walk from `source` that passes no station twice, shorter than
/// `i32::MAX`; and no walk from `source` that is shorter than `i32::MAX`
/// ends at a station without a record, or is shorter than the record of the
/// station at which it ends.
pub open spec fn is_path_table(
    adj: Seq<AdjacencyView>,
    source: Seq<char>,
    t: Seq<DestinationView>,
) -> bool {
    &&& distinct(tos(t))
    &&& forall|k: int|
        0 <= k < t.len() && (#[trigger] t[k]).to == source ==> t[k] == record_of(
            source,
            Seq::empty(),
        )
    &&& forall|k: int|
        0 <= k < t.len() ==> sound(adj, source, #[trigger] t[k]) && t[k].cumulative_distance
            < i32::MAX
    &&& forall|p: Seq<RouteView>| #[trigger]
        is_walk(adj, source, p) && walk_len(p) < i32::MAX ==> covers(
            t,
            walk_end(source, p),
            walk_len(p),
        )
}

/// A walk without its last leg is a walk.
pub proof fn lemma_walk_drop_last(adj: Seq<AdjacencyView>, source: Seq<char>, p: Seq<RouteView>)
    requires
        is_walk(adj, source, p),
        p.len() > 0,
    ensures
        is_walk(adj, source, p.drop_last()),
        legs_of(adj, walk_end(source, p.drop_last())).contains(p.last()),
{
    let q = p.drop_last();
    assert forall|i: int| 0 <= i < q.len() implies legs_of(
        adj,
        station_before(source, q, i),
    ).contains(#[trigger] q[i]) by {
        assert(q[i] == p[i]);
        assert(station_before(source, q, i) == station_before(source, p, i));
    }
    assert(p.last() == p[p.len() - 1]);
    assert(station_before(source, p, p.len() - 1) == walk_end(source, q));
}

/// A walk with one more leg, which leaves the station where it ended, is a walk.
pub proof fn lemma_walk_push(
    adj: Seq<AdjacencyView>,
    source: Seq<char>,
    p: Seq<RouteView>,
    leg: RouteView,
)
    requires
        is_walk(adj, source, p),
        legs_of(adj, walk_end(source, p)).contains(leg),
    ensures
        is_walk(adj, source, p.push(leg)),
        walk_len(p.push(leg)) == walk_len(p) + leg.distance,
        walk_end(source, p.push(leg)) == leg.to,
{
    let q = p.push(leg);
    assert(q.drop_last() =~= p);
    assert forall|i: int| 0 <= i < q.len() implies legs_of(
        adj,
        station_before(source, q, i),
    ).contains(#[trigger] q[i]) by {
        if i < p.len() {
            assert(q[i] == p[i]);
            assert(station_before(source, q, i) == station_before(source, p, i));
        }
    }
}

/// Every leg of a walk is a leg of the adjacency.
pub proof fn lemma_leg_non_negative(adj: Seq<AdjacencyView>, u: Seq<char>, leg: RouteView)
    requires
        legs_non_negative(adj),
        legs_of(adj, u).contains(leg),
    ensures
        leg.distance >= 0,
{
    lemma_position(stations(adj), u);
    match position(stations(adj), u) {
        Some(i) => {
            let j = choose|j: int| 0 <= j < adj[i].routes.len() && adj[i].routes[j] == leg;
            assert(adj[i].routes[j].distance >= 0);
        },
        None => {},
    }
}

/// Where no leg is negative, no walk has a negative length.
pub proof fn lemma_walk_len_non_negative(
    adj: Seq<AdjacencyView>,
    source: Seq<char>,
    p: Seq<RouteView>,
)
    requires
        legs_non_negative(adj),
        is_walk(adj, source, p),
    ensures
        walk_len(p) >= 0,
    decreases p.len(),
{
    if p.len() > 0 {
        lemma_walk_drop_last(adj, source, p);
        lemma_walk_len_non_negative(adj, source, p.drop_last());
        lemma_leg_non_negative(adj, walk_end(source, p.drop_last()), p.last());
    }
}

/// Every leg of a walk has a non-negative distance where the adjacency has only such legs.
pub proof fn lemma_walk_legs_non_negative(
    adj: Seq<AdjacencyView>,
    source: Seq<char>,
    p: Seq<RouteView>,
)
    requires
        legs_non_negative(adj),
        is_walk(adj, source, p),
    ensures
        forall|i: int| 0 <= i < p.len() ==> (#[trigger] p[i]).distance >= 0,
{
    assert forall|i: int| 0 <= i < p.len() implies (#[trigger] p[i]).distance >= 0 by {
        lemma_leg_non_negative(adj, station_before(source, p, i), p[i]);
    }
}

/// The record that a relaxation writes: what is known of the station `leg.to`
/// when it is entered from `current`, which lies `current_distance` from
/// `start`, if that is nearer than what the table holds for it.
pub open spec fn relaxed(
    leg: RouteView,
    start: Seq<char>,
    current: Seq<char>,
    current_distance: int,
    t: Seq<DestinationView>,
) -> Option<DestinationView> {
    let known = match position(tos(t), leg.to) {
        Some(i) => t[i].cumulative_distance,
        None => i32::MAX as int,
    };
    if current_distance + leg.distance < known {
        Some(
            DestinationView {
                from: start,
                to: leg.to,
                distance: leg.distance,
                cumulative_distance: current_distance + leg.distance,
                checkpoints: next_checkpoints(start, current, current_distance, t),
            },
        )
    } else {
        None
    }
}

/// The checkpoints on record for `current`; none where the table does not hold it.
pub open spec fn checkpoints_of(t: Seq<DestinationView>, current: Seq<char>) -> Seq<RouteView> {
    match position(tos(t), current) {
        Some(i) => t[i].checkpoints,
        None => Seq::empty(),
    }
}

/// The checkpoints of a station that is entered from `current`: those of
/// `current`, then `current` itself, unless it is the start, with the
/// length of the leg that arrives at it: what of `current_distance` the
/// checkpoints before it do not account for.
pub open spec fn next_checkpoints(
    start: Seq<char>,
    current: Seq<char>,
    current_distance: int,
    t: Seq<DestinationView>,
) -> Seq<RouteView> {
    let previous = checkpoints_of(t, current);
    if previous.len() > 0 {
        previous.push(
            RouteView { to: current, distance: current_distance - distance_sum(previous) },
        )
    } else if current != start {
        seq![RouteView { to: current, distance: current_distance }]
    } else {
        Seq::empty()
    }
}

/// Relaxing a leg from the end of a recorded walk writes the record of the walk with that leg added.
pub proof fn lemma_relaxed_is_record(
    source: Seq<char>,
    p: Seq<RouteView>,
    leg: RouteView,
    t: Seq<DestinationView>,
    k: int,
)
    requires
        0 <= k < t.len(),
        position(tos(t), t[k].to) == Some(k),
        t[k] == record_of(source, p),
        p.len() == 0 <==> t[k].to == source,
        relaxed(leg, source, t[k].to, t[k].cumulative_distance, t) is Some,
    ensures
        relaxed(leg, source, t[k].to, t[k].cumulative_distance, t) == Some(
            record_of(source, p.push(leg)),
        ),
{
    let d = relaxed(leg, source, t[k].to, t[k].cumulative_distance, t).unwrap();
    let q = p.push(leg);
    let r = record_of(source, q);
    assert(q.drop_last() =~= p);
    assert(q.last() == leg);
    let n = p.len() as int;
    assert(checkpoints_of(t, t[k].to) == marks(p));
    if n >= 2 {
        let rest = p.drop_last();
        assert(p.last() == p[n - 1]);
        assert(walk_len(p) == walk_len(rest) + p.last().distance);
        assert(rest.push(p.last()) =~= p);
    } else if n == 1 {
        assert(p.drop_last() =~= Seq::<RouteView>::empty());
        assert(walk_len(p.drop_last()) == 0);
        assert(p.last() == p[0]);
        assert(seq![p[0]] =~= p);
    }
    assert(d.checkpoints =~= r.checkpoints);
}

/// The adjacency with one more leg at station `u`, which is added at the end
/// where the adjacency does not hold it yet.
pub open spec fn with_leg(adj: Seq<AdjacencyView>, u: Seq<char>, leg: RouteView) -> Seq<
    AdjacencyView,
> {
    match position(stations(adj), u) {
        Some(i) => adj.update(i, AdjacencyView { station: u, routes: adj[i].routes.push(leg) }),
        None => adj.push(AdjacencyView { station: u, routes: seq![leg] }),
    }
}

/// The checkpoints of a record of a walk add up to no more than the walk
/// is long, and with the last leg to its length.
pub proof fn lemma_sound_checkpoints(
    adj: Seq<AdjacencyView>,
    source: Seq<char>,
    d: DestinationView,
)
    requires
        legs_non_negative(adj),
        sound(adj, source, d),
    ensures
        0 <= distance_sum(d.checkpoints) <= d.cumulative_distance,
        d.cumulative_distance == distance_sum(d.checkpoints) + d.distance,
{
    let p = choose|p: Seq<RouteView>| follows(adj, source, d, p);
    if p.len() > 0 {
        lemma_walk_drop_last(adj, source, p);
        lemma_walk_len_non_negative(adj, source, p.drop_last());
        lemma_leg_non_negative(adj, walk_end(source, p.drop_last()), p.last());
    }
}

/// Of every record of a path table: the cumulative distance is the sum of
/// the distances of the checkpoints and of the last leg.
pub proof fn lemma_cumulative_is_sum(
    adj: Seq<AdjacencyView>,
    source: Seq<char>,
    t: Seq<DestinationView>,
    k: int,
)
    requires
        is_path_table(adj, source, t),
        0 <= k < t.len(),
    ensures
        t[k].cumulative_distance == distance_sum(t[k].checkpoints) + t[k].distance,
{
    assert(sound(adj, source, t[k]));
    let p = choose|p: Seq<RouteView>| follows(adj, source, t[k], p);
}

/// Of every record of a path table: its checkpoints and its station are
/// the stations of a walk from the source that passes no station twice,
/// each checkpoint with the length of the leg that arrives at it, and the
/// last leg is a leg of the adjacency.
pub proof fn lemma_record_is_way(
    adj: Seq<AdjacencyView>,
    source: Seq<char>,
    t: Seq<DestinationView>,
    k: int,
)
    requires
        is_path_table(adj, source, t),
        0 <= k < t.len(),
        t[k].to != source,
    ensures
        t[k].from == source,
        is_walk(
            adj,
            source,
            t[k].checkpoints.push(RouteView { to: t[k].to, distance: t[k].distance }),
        ),
        is_simple(
            source,
            t[k].checkpoints.push(RouteView { to: t[k].to, distance: t[k].distance }),
        ),
{
    assert(sound(adj, source, t[k]));
    let p = choose|p: Seq<RouteView>| follows(adj, source, t[k], p);
    assert(p.len() > 0);
    assert(t[k].checkpoints == p.drop_last());
    assert(p.drop_last().push(p.last()) =~= p);
    assert(p.last() == RouteView { to: t[k].to, distance: t[k].distance });
}

/// Of every record of a path table: the cumulative distance is the length
/// of a walk from the source to the station, and no walk from the source to
/// the station is shorter.
pub proof fn lemma_cumulative_is_shortest(
    adj: Seq<AdjacencyView>,
    source: Seq<char>,
    t: Seq<DestinationView>,
    k: int,
    p: Seq<RouteView>,
)
    requires
        is_path_table(adj, source, t),
        0 <= k < t.len(),
        is_walk(adj, source, p),
        walk_end(source, p) == t[k].to,
    ensures
        t[k].cumulative_distance <= walk_len(p),
        exists|q: Seq<RouteView>|
            is_walk(adj, source, q) && walk_end(source, q) == t[k].to && #[trigger] walk_len(q)
                == t[k].cumulative_distance,
{
    assert(sound(adj, source, t[k]));
    let q = choose|q: Seq<RouteView>| follows(adj, source, t[k], q);
    assert(is_walk(adj, source, q) && walk_end(source, q) == t[k].to && walk_len(q)
        == t[k].cumulative_distance);
    if walk_len(p) < i32::MAX {
        assert(covers(t, walk_end(source, p), walk_len(p)));
        let k2 = choose|k2: int| reaches(t, k2, walk_end(source, p), walk_len(p));
        if k2 != k {
            assert(tos(t)[k2] != tos(t)[k]);
        }
    }
}

/// The legs that are still to be relaxed: those of the stations not yet seen.
pub open spec fn pending(adj: Seq<AdjacencyView>, seen: Seq<bool>) -> int
    decreases adj.len(),
{
    if adj.len() == 0 || seen.len() != adj.len() {
        0
    } else {
        pending(adj.drop_last(), seen.drop_last()) + if seen.last() {
            0
        } else {
            adj.last().routes.len() as int
        }
    }
}

/// The number of legs in the adjacency, each counted from the station it leaves.
pub open spec fn route_count(adj: Seq<AdjacencyView>) -> int {
    pending(adj, Seq::new(adj.len(), |i: int| false))
}

pub proof fn lemma_pending_non_negative(adj: Seq<AdjacencyView>, seen: Seq<bool>)
    ensures
        pending(adj, seen) >= 0,
    decreases adj.len(),
{
    if adj.len() != 0 && seen.len() == adj.len() {
        lemma_pending_non_negative(adj.drop_last(), seen.drop_last());
    }
}

/// Seeing a station takes its legs off the count of those that are pending.
pub proof fn lemma_pending_mark(adj: Seq<AdjacencyView>, seen: Seq<bool>, i: int)
    requires
        seen.len() == adj.len(),
        0 <= i < adj.len(),
        !seen[i],
    ensures
        pending(adj, seen.update(i, true)) == pending(adj, seen) - adj[i].routes.len(),
    decreases adj.len(),
{
    let after = seen.update(i, true);
    if i == adj.len() - 1 {
        assert(after.drop_last() =~= seen.drop_last());
    } else {
        assert(after.drop_last() =~= seen.drop_last().update(i, true));
        lemma_pending_mark(adj.drop_last(), seen.drop_last(), i);
    }
}

/// One more leg at a station is one more leg in the count.
pub proof fn lemma_pending_grow(adj: Seq<AdjacencyView>, seen: Seq<bool>, i: int, leg: RouteView)
    requires
        seen.len() == adj.len(),
        0 <= i < adj.len(),
        !seen[i],
    ensures
        pending(
            adj.update(
                i,
                AdjacencyView { station: adj[i].station, routes: adj[i].routes.push(leg) },
            ),
            seen,
        ) == pending(adj, seen) + 1,
    decreases adj.len(),
{
    let grown = adj.update(
        i,
        AdjacencyView { station: adj[i].station, routes: adj[i].routes.push(leg) },
    );
    if i == adj.len() - 1 {
        assert(grown.drop_last() =~= adj.drop_last());
    } else {
        assert(grown.drop_last() =~= adj.drop_last().update(
            i,
            AdjacencyView { station: adj[i].station, routes: adj[i].routes.push(leg) },
        ));
        lemma_pending_grow(adj.drop_last(), seen.drop_last(), i, leg);
    }
}

/// A new station, not yet seen, adds its legs to the count.
pub proof fn lemma_pending_push(adj: Seq<AdjacencyView>, seen: Seq<bool>, a: AdjacencyView)
    requires
        seen.len() == adj.len(),
    ensures
        pending(adj.push(a), seen.push(false)) == pending(adj, seen) + a.routes.len(),
{
    assert(adj.push(a).drop_last() =~= adj);
    assert(seen.push(false).drop_last() =~= seen);
}

/// A leg more is one more in the count, and leaves no leg negative if it is not.
pub proof fn lemma_with_leg(adj: Seq<AdjacencyView>, u: Seq<char>, leg: RouteView)
    ensures
        route_count(with_leg(adj, u, leg)) == route_count(adj) + 1,
        legs_non_negative(adj) && leg.distance >= 0 ==> legs_non_negative(with_leg(adj, u, leg)),
{
    let none = Seq::new(adj.len(), |i: int| false);
    let after = with_leg(adj, u, leg);
    lemma_position(stations(adj), u);
    match position(stations(adj), u) {
        Some(i) => {
            lemma_pending_grow(adj, none, i, leg);
            assert(Seq::new(after.len(), |i: int| false) =~= none);
            if legs_non_negative(adj) && leg.distance >= 0 {
                assert forall|a: int, b: int|
                    0 <= a < after.len() && 0 <= b < after[a].routes.len() implies (
                #[trigger] after[a].routes[b]).distance >= 0 by {
                    if a == i && b < adj[i].routes.len() {
                        assert(after[a].routes[b] == adj[a].routes[b]);
                    } else if a != i {
                        assert(after[a].routes[b] == adj[a].routes[b]);
                    }
                }
            }
        },
        None => {
            let a = AdjacencyView { station: u, routes: seq![leg] };
            lemma_pending_push(adj, none, a);
            assert(Seq::new(after.len(), |i: int| false) =~= none.push(false));
            if legs_non_negative(adj) && leg.distance >= 0 {
                assert forall|x: int, b: int|
                    0 <= x < after.len() && 0 <= b < after[x].routes.len() implies (
                #[trigger] after[x].routes[b]).distance >= 0 by {
                    if x < adj.len() {
                        assert(after[x].routes[b] == adj[x].routes[b]);
                    }
                }
            }
        },
    }
}

} // verus!
