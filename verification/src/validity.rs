//! What makes a timeline a plan: every package handed over, every movement
//! timed, and the movements of each train joined end to end.

use vstd::prelude::*;
use crate::movement::{Movement, MovementView};
use crate::paths::{legs_of, AdjacencyView};
use crate::route::RouteView;
use crate::train::TrainView;
use crate::sorting::{insert_ranked, lemma_sorted_has, sorted, Ranked};
use crate::timeline::last_end;

verus! {

/// Movement `j` of the timeline hands the package called `name` over, as the `k`th of its packages.
pub open spec fn hands_over(plan: Seq<MovementView>, j: int, k: int, name: Seq<char>) -> bool {
    0 <= j < plan.len() && 0 <= k < plan[j].packages_delivered.len()
        && plan[j].packages_delivered[k] == name
}

/// Some movement of the timeline hands the package called `name` over.
pub open spec fn delivered_in(plan: Seq<MovementView>, name: Seq<char>) -> bool {
    exists|j: int, k: int| hands_over(plan, j, k, name)
}

/// Every one of the named packages is handed over by some movement of the timeline.
pub open spec fn delivers_all(plan: Seq<MovementView>, names: Seq<Seq<char>>) -> bool {
    forall|i: int| 0 <= i < names.len() ==> delivered_in(plan, #[trigger] names[i])
}

/// No movement ends before it starts, or later than an `i32` can say.
pub open spec fn timed(plan: Seq<MovementView>) -> bool {
    forall|j: int|
        0 <= j < plan.len() ==> (#[trigger] plan[j]).start_time <= plan[j].end_time <= i32::MAX
}

/// The movement runs along a leg of the adjacency: a leg that leaves the
/// station where the movement starts, arrives where it ends, and is as long
/// as the movement lasts.
pub open spec fn on_leg(adj: Seq<AdjacencyView>, m: MovementView) -> bool {
    legs_of(adj, m.from).contains(RouteView { to: m.to, distance: m.end_time - m.start_time })
}

/// Every movement runs along a leg of the adjacency.
pub open spec fn on_legs(adj: Seq<AdjacencyView>, plan: Seq<MovementView>) -> bool {
    forall|j: int| 0 <= j < plan.len() ==> on_leg(adj, #[trigger] plan[j])
}

/// The movements of `train`, in the order of the timeline.
pub open spec fn runs(plan: Seq<MovementView>, train: Seq<char>) -> Seq<MovementView>
    decreases plan.len(),
{
    if plan.len() == 0 {
        plan
    } else if plan.last().train == train {
        runs(plan.drop_last(), train).push(plan.last())
    } else {
        runs(plan.drop_last(), train)
    }
}

/// Each movement starts when and where the one before it ended.
pub open spec fn chained(s: Seq<MovementView>) -> bool {
    forall|j: int|
        1 <= j < s.len() ==> (#[trigger] s[j]).start_time == s[j - 1].end_time && s[j].from == s[j
            - 1].to
}

/// The movements of each train are joined end to end.
pub open spec fn contiguous(plan: Seq<MovementView>) -> bool {
    forall|train: Seq<char>| chained(#[trigger] runs(plan, train))
}

/// The first movement of each train starts at time 0, at the station where the train starts.
pub open spec fn starts_right(plan: Seq<MovementView>, trains: Seq<TrainView>) -> bool {
    forall|i: int|
        0 <= i < trains.len() && runs(plan, (#[trigger] trains[i]).name).len() > 0 ==> runs(
            plan,
            trains[i].name,
        )[0].start_time == 0 && runs(plan, trains[i].name)[0].from == trains[i].start
}

/// Every movement is that of one of the named trains.
pub open spec fn known_trains(plan: Seq<MovementView>, names: Seq<Seq<char>>) -> bool {
    forall|j: int| 0 <= j < plan.len() ==> names.contains((#[trigger] plan[j]).train)
}

/// The movements of a train are movements of the timeline, and all those of the train.
pub proof fn lemma_runs_has(plan: Seq<MovementView>, train: Seq<char>, y: MovementView)
    ensures
        runs(plan, train).contains(y) <==> plan.contains(y) && y.train == train,
    decreases plan.len(),
{
    let r = runs(plan, train);
    if plan.len() > 0 {
        let rest = plan.drop_last();
        lemma_runs_has(rest, train, y);
        if plan.contains(y) {
            let j = choose|j: int| 0 <= j < plan.len() && plan[j] == y;
            if j < plan.len() - 1 {
                assert(rest[j] == y);
            }
        }
        if rest.contains(y) {
            let j = choose|j: int| 0 <= j < rest.len() && rest[j] == y;
            assert(plan[j] == y);
        }
        assert(plan[plan.len() - 1] == plan.last());
        if plan.last().train == train {
            let inner = runs(rest, train);
            if r.contains(y) {
                let k = choose|k: int| 0 <= k < r.len() && r[k] == y;
                if k < inner.len() {
                    assert(inner[k] == y);
                }
            }
            if inner.contains(y) {
                let k = choose|k: int| 0 <= k < inner.len() && inner[k] == y;
                assert(r[k] == y);
            }
            if y == plan.last() {
                assert(r[inner.len() as int] == y);
            }
        }
    }
}

/// The movements of a train in two timelines, one behind the other.
pub proof fn lemma_runs_add(a: Seq<MovementView>, b: Seq<MovementView>, train: Seq<char>)
    ensures
        runs(a + b, train) == runs(a, train) + runs(b, train),
    decreases b.len(),
{
    if b.len() == 0 {
        assert(a + b =~= a);
        assert(runs(a, train) + runs(b, train) =~= runs(a, train));
    } else {
        assert((a + b).drop_last() =~= a + b.drop_last());
        assert((a + b).last() == b.last());
        lemma_runs_add(a, b.drop_last(), train);
        if b.last().train == train {
            assert(runs(a, train) + runs(b.drop_last(), train).push(b.last()) =~= (runs(a, train)
                + runs(b.drop_last(), train)).push(b.last()));
        }
    }
}

/// A timeline of movements of one train is the movements of that train, and holds none of another.
pub proof fn lemma_runs_own(legs: Seq<MovementView>, owner: Seq<char>, train: Seq<char>)
    requires
        forall|j: int| 0 <= j < legs.len() ==> (#[trigger] legs[j]).train == owner,
    ensures
        runs(legs, train) == if train == owner {
            legs
        } else {
            Seq::empty()
        },
    decreases legs.len(),
{
    if legs.len() > 0 {
        assert(legs.last() == legs[legs.len() - 1]);
        assert forall|j: int| 0 <= j < legs.drop_last().len() implies (
        #[trigger] legs.drop_last()[j]).train == owner by {
            assert(legs.drop_last()[j] == legs[j]);
        }
        lemma_runs_own(legs.drop_last(), owner, train);
        if train == owner {
            assert(legs.drop_last().push(legs.last()) =~= legs);
        }
    } else {
        assert(legs =~= Seq::empty());
    }
}

/// The last movement of a train is where its time stands.
pub proof fn lemma_last_end(plan: Seq<MovementView>, train: Seq<char>)
    ensures
        last_end(plan, train) == if runs(plan, train).len() > 0 {
            runs(plan, train).last().end_time
        } else {
            0
        },
    decreases plan.len(),
{
    if plan.len() > 0 && plan.last().train != train {
        lemma_last_end(plan.drop_last(), train);
    }
}

/// Along movements that are timed and joined end to end, time does not go back.
pub proof fn lemma_chain_order(s: Seq<MovementView>, a: int, b: int)
    requires
        chained(s),
        timed(s),
        0 <= a <= b < s.len(),
    ensures
        s[a].start_time <= s[b].start_time,
        s[a].end_time <= s[b].end_time,
    decreases b - a,
{
    if a < b {
        lemma_chain_order(s, a, b - 1);
        assert(s[b].start_time == s[b - 1].end_time);
        assert(s[b - 1].start_time <= s[b - 1].end_time);
        assert(s[b].start_time <= s[b].end_time);
    }
}

/// What is timed in the timeline is timed among the movements of a train.
pub proof fn lemma_runs_timed(plan: Seq<MovementView>, train: Seq<char>)
    requires
        timed(plan),
    ensures
        timed(runs(plan, train)),
{
    let r = runs(plan, train);
    assert forall|j: int| 0 <= j < r.len() implies (#[trigger] r[j]).start_time <= r[j].end_time
        <= i32::MAX by {
        assert(r.contains(r[j]));
        lemma_runs_has(plan, train, r[j]);
        let i = choose|i: int| 0 <= i < plan.len() && plan[i] == r[j];
        assert(plan[i].start_time <= plan[i].end_time);
    }
}

/// Putting a movement in that starts no earlier than those of its train
/// puts it behind them: the movements of each train keep their order.
pub proof fn lemma_runs_insert(s: Seq<MovementView>, x: MovementView, train: Seq<char>)
    requires
        forall|i: int|
            0 <= i < s.len() && (#[trigger] s[i]).train == x.train ==> s[i].start_time
                <= x.start_time,
    ensures
        runs(insert_ranked::<Movement>(s, x), train) == runs(s, train) + if x.train == train {
            seq![x]
        } else {
            Seq::empty()
        },
    decreases s.len(),
{
    let tail = if x.train == train {
        seq![x]
    } else {
        Seq::<MovementView>::empty()
    };
    if s.len() == 0 {
        assert(seq![x].drop_last() =~= Seq::<MovementView>::empty());
        assert(seq![x].last() == x);
        assert(runs(Seq::<MovementView>::empty(), train) =~= Seq::<MovementView>::empty());
        assert(s =~= Seq::<MovementView>::empty());
        assert(runs(seq![x], train) =~= runs(s, train) + tail);
    } else if Movement::before(x, s.last()) {
        assert(s.last() == s[s.len() - 1]);
        assert(s.last().train != x.train);
        let inner = insert_ranked::<Movement>(s.drop_last(), x);
        assert forall|i: int|
            0 <= i < s.drop_last().len() && (#[trigger] s.drop_last()[i]).train
                == x.train implies s.drop_last()[i].start_time <= x.start_time by {
            assert(s.drop_last()[i] == s[i]);
        }
        lemma_runs_insert(s.drop_last(), x, train);
        let r = inner.push(s.last());
        assert(r.drop_last() =~= inner);
        assert(r.last() == s.last());
        assert(runs(r, train) =~= runs(s, train) + tail);
    } else {
        let r = s.push(x);
        assert(r.drop_last() =~= s);
        assert(r.last() == x);
        assert(runs(r, train) =~= runs(s, train) + tail);
    }
}

/// Sorting a timeline that is timed and contiguous leaves the movements of each train as they were.
pub proof fn lemma_runs_sorted(plan: Seq<MovementView>, train: Seq<char>)
    requires
        timed(plan),
        contiguous(plan),
    ensures
        runs(sorted::<Movement>(plan), train) == runs(plan, train),
    decreases plan.len(),
{
    if plan.len() > 0 {
        let rest = plan.drop_last();
        let x = plan.last();
        lemma_timed_drop_last(plan);
        lemma_contiguous_drop_last(plan);
        lemma_runs_sorted(rest, train);
        let s = sorted::<Movement>(rest);
        assert forall|i: int|
            0 <= i < s.len() && (#[trigger] s[i]).train == x.train implies s[i].start_time
            <= x.start_time by {
            assert(s.contains(s[i]));
            lemma_sorted_has::<Movement>(rest, s[i]);
            lemma_runs_has(rest, x.train, s[i]);
            let own = runs(plan, x.train);
            let before = runs(rest, x.train);
            assert(own == before.push(x));
            let k = choose|k: int| 0 <= k < before.len() && before[k] == s[i];
            assert(own[k] == s[i]);
            assert(chained(own));
            lemma_runs_timed(plan, x.train);
            lemma_chain_order(own, k, own.len() - 1);
        }
        lemma_runs_insert(s, x, train);
        if x.train == train {
            assert(runs(rest, train) + seq![x] =~= runs(rest, train).push(x));
        } else {
            assert(runs(rest, train) + Seq::<MovementView>::empty() =~= runs(rest, train));
        }
    }
}

/// A timed timeline without its last movement is timed.
pub proof fn lemma_timed_drop_last(plan: Seq<MovementView>)
    requires
        timed(plan),
        plan.len() > 0,
    ensures
        timed(plan.drop_last()),
{
    assert forall|j: int| 0 <= j < plan.drop_last().len() implies (
    #[trigger] plan.drop_last()[j]).start_time <= plan.drop_last()[j].end_time <= i32::MAX by {
        assert(plan.drop_last()[j] == plan[j]);
    }
}

/// A contiguous timeline without its last movement is contiguous.
pub proof fn lemma_contiguous_drop_last(plan: Seq<MovementView>)
    requires
        contiguous(plan),
        plan.len() > 0,
    ensures
        contiguous(plan.drop_last()),
{
    let rest = plan.drop_last();
    assert forall|train: Seq<char>| chained(#[trigger] runs(rest, train)) by {
        let r = runs(rest, train);
        let whole = runs(plan, train);
        assert(chained(whole));
        assert forall|j: int| 1 <= j < r.len() implies (#[trigger] r[j]).start_time == r[j
            - 1].end_time && r[j].from == r[j - 1].to by {
            assert(whole[j] == r[j]);
            assert(whole[j - 1] == r[j - 1]);
        }
    }
}

/// Sorting keeps a timeline timed.
pub proof fn lemma_sorted_timed(plan: Seq<MovementView>)
    requires
        timed(plan),
    ensures
        timed(sorted::<Movement>(plan)),
{
    let s = sorted::<Movement>(plan);
    assert forall|j: int| 0 <= j < s.len() implies (#[trigger] s[j]).start_time <= s[j].end_time
        <= i32::MAX by {
        assert(s.contains(s[j]));
        lemma_sorted_has::<Movement>(plan, s[j]);
        let i = choose|i: int| 0 <= i < plan.len() && plan[i] == s[j];
        assert(plan[i].start_time <= plan[i].end_time);
    }
}

/// Sorting keeps the trains of a timeline.
pub proof fn lemma_sorted_known_trains(plan: Seq<MovementView>, names: Seq<Seq<char>>)
    requires
        known_trains(plan, names),
    ensures
        known_trains(sorted::<Movement>(plan), names),
{
    let s = sorted::<Movement>(plan);
    assert forall|j: int| 0 <= j < s.len() implies names.contains((#[trigger] s[j]).train) by {
        assert(s.contains(s[j]));
        lemma_sorted_has::<Movement>(plan, s[j]);
        let i = choose|i: int| 0 <= i < plan.len() && plan[i] == s[j];
        assert(names.contains(plan[i].train));
    }
}

/// Sorting keeps what a timeline hands over.
pub proof fn lemma_sorted_delivers(plan: Seq<MovementView>, names: Seq<Seq<char>>)
    requires
        delivers_all(plan, names),
    ensures
        delivers_all(sorted::<Movement>(plan), names),
{
    let s = sorted::<Movement>(plan);
    assert forall|i: int| 0 <= i < names.len() implies delivered_in(s, #[trigger] names[i]) by {
        assert(delivered_in(plan, names[i]));
        let (j, k) = choose|j: int, k: int| hands_over(plan, j, k, names[i]);
        assert(plan.contains(plan[j]));
        lemma_sorted_has::<Movement>(plan, plan[j]);
        let j2 = choose|j2: int| 0 <= j2 < s.len() && s[j2] == plan[j];
        assert(hands_over(s, j2, k, names[i]));
    }
}

/// Sorting keeps a timed timeline contiguous.
pub proof fn lemma_sorted_contiguous(plan: Seq<MovementView>)
    requires
        timed(plan),
        contiguous(plan),
    ensures
        contiguous(sorted::<Movement>(plan)),
{
    assert forall|train: Seq<char>| chained(#[trigger] runs(sorted::<Movement>(plan), train)) by {
        lemma_runs_sorted(plan, train);
        assert(chained(runs(plan, train)));
    }
}

/// Sorting keeps every movement on its leg.
pub proof fn lemma_sorted_on_legs(adj: Seq<AdjacencyView>, plan: Seq<MovementView>)
    requires
        on_legs(adj, plan),
    ensures
        on_legs(adj, sorted::<Movement>(plan)),
{
    let s = sorted::<Movement>(plan);
    assert forall|j: int| 0 <= j < s.len() implies on_leg(adj, #[trigger] s[j]) by {
        assert(s.contains(s[j]));
        lemma_sorted_has::<Movement>(plan, s[j]);
        let i = choose|i: int| 0 <= i < plan.len() && plan[i] == s[j];
        assert(on_leg(adj, plan[i]));
    }
}

/// Movement `j` of the timeline takes the package called `name` on, as the `k`th of its packages.
pub open spec fn takes_on(plan: Seq<MovementView>, j: int, k: int, name: Seq<char>) -> bool {
    0 <= j < plan.len() && 0 <= k < plan[j].packages_picked_up.len()
        && plan[j].packages_picked_up[k] == name
}

/// How many movements of `train` stand before movement `j` of the timeline.
pub open spec fn place(plan: Seq<MovementView>, train: Seq<char>, j: int) -> int {
    runs(plan.take(j), train).len() as int
}

/// A movement of the timeline stands among those of its train at its place.
pub proof fn lemma_place(plan: Seq<MovementView>, j: int)
    requires
        0 <= j < plan.len(),
    ensures
        0 <= place(plan, plan[j].train, j) < runs(plan, plan[j].train).len(),
        runs(plan, plan[j].train)[place(plan, plan[j].train, j)] == plan[j],
{
    let train = plan[j].train;
    let upto = plan.take(j).push(plan[j]);
    assert(upto.drop_last() =~= plan.take(j));
    assert(upto.last() == plan[j]);
    assert(runs(upto, train) == runs(plan.take(j), train).push(plan[j]));
    assert(plan =~= upto + plan.skip(j + 1));
    lemma_runs_add(upto, plan.skip(j + 1), train);
}

/// Of two movements of a train, the later of the timeline is the later of the train.
pub proof fn lemma_place_grows(plan: Seq<MovementView>, j: int, later: int)
    requires
        0 <= j < later < plan.len(),
        plan[j].train == plan[later].train,
    ensures
        place(plan, plan[j].train, j) < place(plan, plan[j].train, later),
{
    let train = plan[j].train;
    let upto = plan.take(j).push(plan[j]);
    assert(upto.drop_last() =~= plan.take(j));
    assert(upto.last() == plan[j]);
    assert(runs(upto, train) == runs(plan.take(j), train).push(plan[j]));
    assert(plan.take(later) =~= upto + plan.subrange(j + 1, later));
    lemma_runs_add(upto, plan.subrange(j + 1, later), train);
}

} // verus!
