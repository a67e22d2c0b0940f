//! The station graph and its path oracle.

use vstd::prelude::*;
use vstd::multiset::*;
use vstd::string::*;
use crate::destination::{copy_destinations, tos, Destination, DestinationView};
use crate::error::PlanError;
use crate::frontier::{
    covers_done, is_done_at, lemma_traced_sound,
    expanding_ok, frontier_ok, lemma_expansion_done, lemma_frontier_end, lemma_frontier_start,
    lemma_pop_done, lemma_pop_open, lemma_position_of_record, lemma_relax_none,
    lemma_relax_some, slot_of, with_flag, with_record,
};
use crate::min_heap::{MinHeap, MAX_ENTRIES};
use crate::names::{same_name, views};
use crate::paths::{
    checkpoints_of, covers, distance_sum, is_path_table, legs_non_negative, legs_of,
    lemma_pending_mark, walk_len,
    lemma_pending_non_negative, lemma_sound_checkpoints, lemma_with_leg, pending, reaches,
    record_of, relaxed, route_count, stations, with_leg, AdjacencyView,
};
use crate::route::{Route, RouteView};
use crate::table::{find, keys, lemma_position, position, put, Keyed};

verus! {

/// A station and the legs that leave it.
pub struct Adjacency {
    pub station: String,
    pub routes: Vec<Route>,
}

impl View for Adjacency {
    type V = AdjacencyView;

    open spec fn view(&self) -> AdjacencyView {
        AdjacencyView { station: self.station@, routes: views(self.routes@) }
    }
}

impl Keyed for Adjacency {
    open spec fn key(&self) -> Seq<char> {
        self.station@
    }

    fn key_str(&self) -> (r: &str) {
        self.station.as_str()
    }
}

/// The path table of one source, as the oracle remembers it.
pub struct PathTable {
    pub source: String,
    pub destinations: Vec<Destination>,
}

/// The mathematical value of a [`PathTable`].
pub ghost struct PathTableView {
    pub source: Seq<char>,
    pub destinations: Seq<DestinationView>,
}

impl View for PathTable {
    type V = PathTableView;

    open spec fn view(&self) -> PathTableView {
        PathTableView { source: self.source@, destinations: views(self.destinations@) }
    }
}

impl Keyed for PathTable {
    open spec fn key(&self) -> Seq<char> {
        self.source@
    }

    fn key_str(&self) -> (r: &str) {
        self.source.as_str()
    }
}

/// The sources of the remembered path tables, in their order.
pub open spec fn sources(known: Seq<PathTableView>) -> Seq<Seq<char>> {
    Seq::new(known.len(), |i: int| known[i].source)
}

/// The path table that is remembered for `source`: the first under its name, unless it is empty.
pub open spec fn remembered(known: Seq<PathTableView>, source: Seq<char>) -> Option<
    Seq<DestinationView>,
> {
    match position(sources(known), source) {
        Some(i) => if known[i].destinations.len() > 0 {
            Some(known[i].destinations)
        } else {
            None
        },
        None => None,
    }
}

/// What is remembered after `table` is filed under its source.
pub open spec fn with_table(known: Seq<PathTableView>, table: PathTableView) -> Seq<
    PathTableView,
> {
    match position(sources(known), table.source) {
        Some(i) => known.update(i, table),
        None => known.push(table),
    }
}

/// The record for station `to` in a path table, if it holds one.
pub open spec fn record_for(t: Seq<DestinationView>, to: Seq<char>) -> Option<DestinationView> {
    match position(tos(t), to) {
        Some(i) => Some(t[i]),
        None => None,
    }
}

/// The stations with the legs between them, and the path tables that the oracle remembers.
pub struct Graph {
    pub adj_list: Vec<Adjacency>,
    pub cache: Vec<PathTable>,
}

impl Graph {
    /// The stations with their legs.
    pub open spec fn adjacency(&self) -> Seq<AdjacencyView> {
        views(self.adj_list@)
    }

    /// The path tables that the oracle remembers.
    pub open spec fn known(&self) -> Seq<PathTableView> {
        views(self.cache@)
    }

    /// No leg is negative, and the legs are few enough for the queue of a search.
    pub open spec fn wf(&self) -> bool {
        &&& legs_non_negative(self.adjacency())
        &&& route_count(self.adjacency()) < MAX_ENTRIES
    }

    /// Every remembered table is the path table of its source in the graph as it stands.
    pub open spec fn paths_known(&self) -> bool {
        forall|i: int|
            0 <= i < self.known().len() ==> is_path_table(
                self.adjacency(),
                (#[trigger] self.known()[i]).source,
                self.known()[i].destinations,
            )
    }

    /// A graph without stations, with nothing remembered.
    pub fn new() -> (g: Graph)
        ensures
            g.adjacency() == Seq::<AdjacencyView>::empty(),
            g.known() == Seq::<PathTableView>::empty(),
            g.adj_list@.len() == 0,
            g.cache@.len() == 0,
            g.wf(),
            g.paths_known(),
    {
        let g = Graph { adj_list: Vec::new(), cache: Vec::new() };
        assert(g.adjacency() =~= Seq::<AdjacencyView>::empty());
        assert(g.known() =~= Seq::<PathTableView>::empty());
        g
    }

    /// Adds the leg `leg` to the legs that leave `station`.
    fn add_leg(&mut self, station: String, leg: Route)
        ensures
            final(self).adjacency() == with_leg(old(self).adjacency(), station@, leg@),
            final(self).cache == old(self).cache,
    {
        let ghost before = self.adjacency();
        proof {
            assert(keys(self.adj_list@) =~= stations(before));
        }
        match find(&self.adj_list, station.as_str()) {
            Some(i) => {
                self.adj_list[i].routes.push(leg);
                proof {
                    assert(self.adjacency()[i as int].routes =~= before[i as int].routes.push(
                        leg@,
                    ));
                    assert(self.adjacency() =~= with_leg(before, station@, leg@));
                }
            },
            None => {
                let mut routes: Vec<Route> = Vec::new();
                routes.push(leg);
                let entry = Adjacency { station, routes };
                proof {
                    assert(entry@.routes =~= seq![leg@]);
                }
                self.adj_list.push(entry);
                proof {
                    assert(self.adjacency() =~= with_leg(before, station@, leg@));
                }
            },
        }
    }

    /// Joins `from` and `to` by a leg of length `distance` in each direction.
    pub fn add_edge(&mut self, from: String, to: String, distance: i32)
        ensures
            legs_non_negative(old(self).adjacency()) && distance >= 0 ==> legs_non_negative(
                final(self).adjacency(),
            ),
            final(self).adjacency() == with_leg(
                with_leg(
                    old(self).adjacency(),
                    from@,
                    RouteView { to: to@, distance: distance as int },
                ),
                to@,
                RouteView { to: from@, distance: distance as int },
            ),
            route_count(final(self).adjacency()) == route_count(old(self).adjacency()) + 2,
            final(self).cache == old(self).cache,
    {
        let forth = Route { to: to.clone(), distance };
        let back = Route { to: from.clone(), distance };
        proof {
            lemma_with_leg(self.adjacency(), from@, forth@);
            lemma_with_leg(with_leg(self.adjacency(), from@, forth@), to@, back@);
        }
        self.add_leg(from, forth);
        self.add_leg(to, back);
    }

    /// What is known of the station that `neighbour` leads to when it is
    /// entered from `current`, which lies `current_distance` from `start`:
    /// a record, if that way is nearer than the one in `destinations`. Its
    /// checkpoints are those of `current` and then `current` itself, with
    /// the length of the leg that arrives at it.
    pub fn calculate_neighbour(
        neighbour: Route,
        start: String,
        current: String,
        current_distance: i32,
        destinations: Vec<Destination>,
    ) -> (r: Option<Destination>)
        requires
            i32::MIN <= current_distance + neighbour.distance,
            checkpoints_of(views(destinations@), current@).len() > 0 ==> i32::MIN
                <= current_distance - distance_sum(
                checkpoints_of(views(destinations@), current@),
            ) <= i32::MAX,
        ensures
            match relaxed(
                neighbour@,
                start@,
                current@,
                current_distance as int,
                views(destinations@),
            ) {
                Some(d) => r is Some && r.unwrap()@ == d,
                None => r is None,
            },
    {
        let ghost t = views(destinations@);
        proof {
            assert(keys(destinations@) =~= tos(t));
        }
        let cumulative_distance: i32 = match find(&destinations, neighbour.to.as_str()) {
            Some(i) => destinations[i].cumulative_distance,
            None => i32::MAX,
        };
        let new_cumulative_distance: i64 = current_distance as i64 + neighbour.distance as i64;
        if new_cumulative_distance < cumulative_distance as i64 {
            let mut checkpoints: Vec<Route> = Vec::new();
            let previous = find(&destinations, current.as_str());
            let mut extended = false;
            match previous {
                Some(i) => {
                    let n = destinations[i].checkpoints.len();
                    if n > 0 {
                        checkpoints = destinations[i].checkpoints.clone();
                        let before = sum_of_distances(&destinations[i].checkpoints);
                        let arriving: i128 = current_distance as i128 - before;
                        checkpoints.push(Route { to: current.clone(), distance: arriving as i32 });
                        extended = true;
                    }
                },
                None => {},
            }
            if !extended {
                if !same_name(current.as_str(), start.as_str()) {
                    checkpoints.push(Route { to: current.clone(), distance: current_distance });
                }
            }
            let r = Destination {
                from: start,
                to: neighbour.to,
                checkpoints,
                distance: neighbour.distance,
                cumulative_distance: new_cumulative_distance as i32,
            };
            proof {
                let d = relaxed(
                    neighbour@,
                    start@,
                    current@,
                    current_distance as int,
                    t,
                ).unwrap();
                assert(r@.checkpoints =~= d.checkpoints);
            }
            return Some(r);
        }
        None
    }

    /// The path table of `start`, computed afresh: for every station that a
    /// walk shorter than `i32::MAX` reaches, the record of a shortest walk.
    pub fn paths_from(&self, start: &str) -> (table: Vec<Destination>)
        requires
            self.wf(),
        ensures
            is_path_table(self.adjacency(), start@, views(table@)),
            table@.len() > 0,
    {
        let ghost adj = self.adjacency();
        let mut table: Vec<Destination> = Vec::new();
        table.push(
            Destination {
                from: start.to_owned(),
                to: start.to_owned(),
                checkpoints: Vec::new(),
                distance: 0,
                cumulative_distance: 0,
            },
        );
        let mut done: Vec<bool> = Vec::new();
        done.push(false);
        let mut min_heap = MinHeap::new();
        min_heap.add(Route { to: start.to_owned(), distance: 0 });
        let ghost mut seen: Seq<bool> = Seq::new(adj.len(), |i: int| false);
        proof {
            broadcast use group_multiset_axioms;

            lemma_frontier_start(adj, start@);
            assert(views(table@)[0].checkpoints =~= record_of(start@, Seq::empty()).checkpoints);
            assert(views(table@)[0] == record_of(start@, Seq::empty()));
            assert(views(table@) =~= seq![record_of(start@, Seq::empty())]);
            assert(done@ =~= seq![false]);
            assert(min_heap.contents() =~= Multiset::empty().insert(
                RouteView { to: start@, distance: 0 },
            ));
            lemma_pending_non_negative(adj, seen);
        }
        while min_heap.heap.len() > 0
            invariant
                self.wf(),
                adj == self.adjacency(),
                min_heap.wf(),
                frontier_ok(adj, start@, views(table@), done@, min_heap.contents()),
                seen.len() == adj.len(),
                forall|i: int|
                    0 <= i < adj.len() && #[trigger] seen[i] ==> covers_done(
                        views(table@),
                        done@,
                        adj[i].station,
                    ),
                min_heap.heap@.len() + pending(adj, seen) <= route_count(adj) + 1,
                pending(adj, seen) >= 0,
            decreases min_heap.heap@.len() + pending(adj, seen),
        {
            let ghost t0 = views(table@);
            let ghost d0 = done@;
            let ghost h0 = min_heap.contents();
            let ghost m0 = min_heap.heap@.len() + pending(adj, seen);
            let min = min_heap.remove().unwrap();
            let ghost e = min@;
            proof {
                broadcast use group_multiset_axioms;

                lemma_entry_has_record(t0, h0, e);
                assert(keys(table@) =~= tos(t0));
                lemma_position(tos(t0), e.to);
            }
            let k: usize = find(&table, min.to.as_str()).unwrap();
            if !done[k] {
                done.set(k, true);
                proof {
                    lemma_pop_open(adj, start@, t0, d0, h0, e, k as int);
                    assert(done@ =~= d0.update(k as int, true));
                    lemma_position_of_record(t0, k as int);
                }
                let current_distance: i32 = min.distance;
                proof {
                    assert(keys(self.adj_list@) =~= stations(adj));
                    lemma_position(stations(adj), e.to);
                }
                match find(&self.adj_list, min.to.as_str()) {
                    Some(i) => {
                        proof {
                            if seen[i as int] {
                                let k2 = choose|k2: int|
                                    0 <= k2 < t0.len() && d0[k2] && t0[k2].to == adj[i as int].station;
                                assert(tos(t0)[k2] == tos(t0)[k as int]);
                            }
                            lemma_pending_mark(adj, seen, i as int);
                            assert forall|x: int|
                                0 <= x < adj.len() && #[trigger] seen.update(
                                    i as int,
                                    true,
                                )[x] implies covers_done(views(table@), done@, adj[x].station) by {
                                if x == i {
                                    assert(is_done_at(
                                        views(table@),
                                        done@,
                                        adj[x].station,
                                        k as int,
                                    ));
                                } else {
                                    assert(seen[x]);
                                    let k2 = choose|k2: int|
                                        is_done_at(t0, d0, adj[x].station, k2);
                                    assert(is_done_at(views(table@), done@, adj[x].station, k2));
                                }
                            }
                            seen = seen.update(i as int, true);
                            lemma_pending_non_negative(adj, seen);
                            assert(legs_of(adj, e.to) == adj[i as int].routes);
                        }
                        let mut j: usize = 0;
                        while j < self.adj_list[i].routes.len()
                            invariant
                                self.wf(),
                                adj == self.adjacency(),
                                min_heap.wf(),
                                i < self.adj_list@.len(),
                                j <= self.adj_list@[i as int].routes@.len(),
                                k < table@.len(),
                                views(table@)[k as int].to == min.to@,
                                views(table@)[k as int].cumulative_distance == current_distance,
                                legs_of(adj, min.to@) == adj[i as int].routes,
                                expanding_ok(
                                    adj,
                                    start@,
                                    views(table@),
                                    done@,
                                    min_heap.contents(),
                                    k as int,
                                    j as int,
                                ),
                                seen.len() == adj.len(),
                                forall|x: int|
                                    0 <= x < adj.len() && #[trigger] seen[x] ==> covers_done(
                                        views(table@),
                                        done@,
                                        adj[x].station,
                                    ),
                                min_heap.heap@.len() + pending(adj, seen) + (
                                self.adj_list@[i as int].routes@.len() - j) <= route_count(adj) + 1,
                                min_heap.heap@.len() + pending(adj, seen) + (
                                self.adj_list@[i as int].routes@.len() - j) < m0,
                                pending(adj, seen) >= 0,
                            decreases self.adj_list@[i as int].routes@.len() - j,
                        {
                            let ghost t1 = views(table@);
                            let ghost d1 = done@;
                            let ghost h1 = min_heap.contents();
                            let leg = self.adj_list[i].routes[j].clone();
                            proof {
                                assert(leg@ == legs_of(adj, t1[k as int].to)[j as int]);
                                lemma_position_of_record(t1, k as int);
                                lemma_traced_sound(adj, start@, t1, d1, t1[k as int]);
                                lemma_sound_checkpoints(adj, start@, t1[k as int]);
                                assert(adj[i as int].routes[j as int].distance >= 0);
                            }
                            let destination_option = Graph::calculate_neighbour(
                                leg,
                                start.to_owned(),
                                min.to.clone(),
                                current_distance,
                                copy_destinations(&table),
                            );
                            match destination_option {
                                Some(destination) => {
                                    proof {
                                        lemma_relax_some(
                                            adj,
                                            start@,
                                            t1,
                                            d1,
                                            h1,
                                            k as int,
                                            j as int,
                                            destination@,
                                        );
                                        assert(keys(table@) =~= tos(t1));
                                    }
                                    min_heap.add(
                                        Route {
                                            to: destination.to.clone(),
                                            distance: destination.cumulative_distance,
                                        },
                                    );
                                    let slot = put(&mut table, destination);
                                    if slot == done.len() {
                                        done.push(false);
                                    }
                                    proof {
                                        assert(views(table@) =~= with_record(t1, destination@));
                                        assert(done@ =~= with_flag(t1, d1, destination@));
                                        assert forall|x: int|
                                            0 <= x < adj.len() && #[trigger] seen[x] implies covers_done(
                                            views(table@),
                                            done@,
                                            adj[x].station,
                                        ) by {
                                            let k2 = choose|k2: int|
                                                is_done_at(t1, d1, adj[x].station, k2);
                                            assert(k2 != slot_of(t1, destination@));
                                            assert(views(table@)[k2] == t1[k2]);
                                            assert(is_done_at(
                                                views(table@),
                                                done@,
                                                adj[x].station,
                                                k2,
                                            ));
                                        }
                                    }
                                },
                                None => {
                                    proof {
                                        lemma_relax_none(
                                            adj,
                                            start@,
                                            t1,
                                            d1,
                                            h1,
                                            k as int,
                                            j as int,
                                        );
                                    }
                                },
                            }
                            j += 1;
                        }
                        proof {
                            lemma_expansion_done(
                                adj,
                                start@,
                                views(table@),
                                done@,
                                min_heap.contents(),
                                k as int,
                                j as int,
                            );
                        }
                    },
                    None => {
                        proof {
                            assert forall|x: int|
                                0 <= x < adj.len() && #[trigger] seen[x] implies covers_done(
                                views(table@),
                                done@,
                                adj[x].station,
                            ) by {
                                let k2 = choose|k2: int| is_done_at(t0, d0, adj[x].station, k2);
                                assert(is_done_at(views(table@), done@, adj[x].station, k2));
                            }
                            lemma_expansion_done(
                                adj,
                                start@,
                                views(table@),
                                done@,
                                min_heap.contents(),
                                k as int,
                                0,
                            );
                        }
                    },
                }
            } else {
                proof {
                    lemma_pop_done(adj, start@, t0, d0, h0, e, k as int);
                }
            }
        }
        proof {
            min_heap.entries().to_multiset_ensures();
            lemma_frontier_end(adj, start@, views(table@), done@, min_heap.contents());
        }
        table
    }

    /// The path table of `start`: the remembered one if there is one, else a
    /// fresh one, which is then remembered.
    pub fn dijkstra(&mut self, start: String) -> (table: Vec<Destination>)
        requires
            old(self).wf(),
        ensures
            final(self).wf(),
            final(self).adj_list == old(self).adj_list,
            remembered(final(self).known(), start@) == Some(views(table@)),
            match remembered(old(self).known(), start@) {
                Some(t) => views(table@) == t && final(self).known() == old(self).known(),
                None => is_path_table(old(self).adjacency(), start@, views(table@))
                    && final(self).known() == with_table(
                    old(self).known(),
                    PathTableView { source: start@, destinations: views(table@) },
                ),
            },
            old(self).paths_known() ==> final(self).paths_known() && is_path_table(
                old(self).adjacency(),
                start@,
                views(table@),
            ),
    {
        proof {
            assert(keys(self.cache@) =~= sources(self.known()));
            lemma_position(sources(self.known()), start@);
        }
        match find(&self.cache, start.as_str()) {
            Some(i) => {
                if self.cache[i].destinations.len() > 0 {
                    let table = self.cache[i].destinations.clone();
                    proof {
                        assert(views(table@) =~= views(self.cache@[i as int].destinations@));
                    }
                    return table;
                }
            },
            None => {},
        }
        let table = self.paths_from(start.as_str());
        let copy = table.clone();
        proof {
            assert(views(copy@) =~= views(table@));
        }
        let ghost before = self.known();
        let entry = PathTable { source: start, destinations: copy };
        let slot = put(&mut self.cache, entry);
        proof {
            assert(self.known() =~= with_table(before, entry@));
            assert(sources(self.known())[slot as int] == start@);
            assert forall|j: int| 0 <= j < slot implies sources(self.known())[j] != start@ by {
                assert(sources(self.known())[j] == sources(before)[j]);
            }
            crate::table::lemma_position_is(sources(self.known()), start@, slot as int);
            if old(self).paths_known() {
                assert forall|x: int| 0 <= x < self.known().len() implies is_path_table(
                    self.adjacency(),
                    (#[trigger] self.known()[x]).source,
                    self.known()[x].destinations,
                ) by {
                    if x != slot {
                        assert(self.known()[x] == before[x]);
                    }
                }
            }
        }
        table
    }

    /// The way from `from` to `to`, or `Unreachable` where the path table of
    /// `from` holds no record for `to`.
    pub fn get_destination(&mut self, from: String, to: String) -> (r: Result<
        Destination,
        PlanError,
    >)
        requires
            old(self).wf(),
        ensures
            final(self).wf(),
            final(self).adj_list == old(self).adj_list,
            remembered(final(self).known(), from@) is Some,
            match remembered(old(self).known(), from@) {
                Some(t) => final(self).known() == old(self).known(),
                None => is_path_table(
                    old(self).adjacency(),
                    from@,
                    remembered(final(self).known(), from@).unwrap(),
                ) && final(self).known() == with_table(
                    old(self).known(),
                    PathTableView {
                        source: from@,
                        destinations: remembered(final(self).known(), from@).unwrap(),
                    },
                ),
            },
            old(self).paths_known() ==> final(self).paths_known() && is_path_table(
                old(self).adjacency(),
                from@,
                remembered(final(self).known(), from@).unwrap(),
            ),
            match record_for(remembered(final(self).known(), from@).unwrap(), to@) {
                Some(d) => r is Ok && r.unwrap()@ == d,
                None => r == Err::<Destination, PlanError>(PlanError::Unreachable),
            },
    {
        let table = self.dijkstra(from);
        proof {
            assert(keys(table@) =~= tos(views(table@)));
        }
        match find(&table, to.as_str()) {
            Some(i) => Ok(table[i].clone()),
            None => Err(PlanError::Unreachable),
        }
    }
}

/// The distances of the routes added up.
fn sum_of_distances(routes: &Vec<Route>) -> (sum: i128)
    ensures
        sum == distance_sum(views(routes@)),
{
    let ghost all = views(routes@);
    let mut sum: i128 = 0;
    let mut i: usize = 0;
    proof {
        assert(all.take(0) =~= Seq::<RouteView>::empty());
    }
    while i < routes.len()
        invariant
            i <= routes@.len(),
            all == views(routes@),
            sum == walk_len(all.take(i as int)),
            -0x8000_0000 * i <= sum <= 0x8000_0000 * i,
        decreases routes@.len() - i,
    {
        proof {
            assert(all.take(i + 1).drop_last() =~= all.take(i as int));
            assert(all.take(i + 1).last() == routes@[i as int]@);
        }
        sum = sum + routes[i].distance as i128;
        i += 1;
    }
    proof {
        assert(all.take(all.len() as int) =~= all);
    }
    sum
}

/// An entry of the queue names a station of the table.
proof fn lemma_entry_has_record(
    t: Seq<DestinationView>,
    heap: Multiset<RouteView>,
    e: RouteView,
)
    requires
        heap.contains(e),
        forall|x: RouteView| #[trigger] heap.contains(x) ==> covers(t, x.to, x.distance),
    ensures
        exists|k: int| 0 <= k < t.len() && tos(t)[k] == e.to,
{
    let k = choose|k: int| reaches(t, k, e.to, e.distance);
    assert(tos(t)[k] == e.to);
}

} // verus!
