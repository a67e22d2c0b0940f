//! A binary min-heap of routes, keyed by distance.

use vstd::prelude::*;
use vstd::multiset::*;
use crate::names::views;
use crate::route::{Route, RouteView};

verus! {

/// The largest number of entries a heap can hold: child indices are `i32`.
pub const MAX_ENTRIES: usize = 0x4000_0000;

/// The entry at `child` is no nearer than the entry at its parent.
pub open spec fn ordered_at(s: Seq<RouteView>, child: int) -> bool {
    s[(child - 1) / 2].distance <= s[child].distance
}

/// Every entry but the root is no nearer than its parent.
pub open spec fn is_heap(s: Seq<RouteView>) -> bool {
    forall|i: int| 1 <= i < s.len() ==> ordered_at(s, i)
}

/// Heap order holds everywhere but possibly between `hole` and its parent;
/// the children of `hole` are no nearer than the parent of `hole`.
pub open spec fn is_heap_but_above(s: Seq<RouteView>, hole: int) -> bool {
    &&& forall|i: int| 1 <= i < s.len() && i != hole ==> ordered_at(s, i)
    &&& forall|i: int|
        1 <= i < s.len() && (i - 1) / 2 == hole && hole >= 1 ==> s[(hole - 1) / 2].distance <= (
        #[trigger] s[i]).distance
}

/// Heap order holds everywhere but possibly between `hole` and its children;
/// the children of `hole` are no nearer than the parent of `hole`.
pub open spec fn is_heap_but_below(s: Seq<RouteView>, hole: int) -> bool {
    &&& forall|i: int| 1 <= i < s.len() && (i - 1) / 2 != hole ==> ordered_at(s, i)
    &&& forall|i: int|
        1 <= i < s.len() && (i - 1) / 2 == hole && hole >= 1 ==> s[(hole - 1) / 2].distance <= (
        #[trigger] s[i]).distance
}

/// `s` with the entries at `i` and `j` exchanged.
pub open spec fn swapped<T>(s: Seq<T>, i: int, j: int) -> Seq<T> {
    s.update(i, s[j]).update(j, s[i])
}

/// The layout after the entry at `index` has risen as far as it is nearer than its parent.
pub open spec fn sifted_up(s: Seq<RouteView>, index: int) -> Seq<RouteView>
    decreases index,
{
    if 1 <= index < s.len() && s[(index - 1) / 2].distance > s[index].distance {
        sifted_up(swapped(s, (index - 1) / 2, index), (index - 1) / 2)
    } else {
        s
    }
}

/// The nearer of the children of `index`: the right one where it is
/// strictly nearer than the left one, else the left one.
pub open spec fn nearer_child(s: Seq<RouteView>, index: int) -> int {
    if 2 * index + 2 < s.len() && s[2 * index + 2].distance < s[2 * index + 1].distance {
        2 * index + 2
    } else {
        2 * index + 1
    }
}

/// The layout after the entry at `index` has sunk until it is strictly
/// nearer than the nearer of its children, or has none.
pub open spec fn sifted_down(s: Seq<RouteView>, index: int) -> Seq<RouteView>
    decreases s.len() - index,
{
    if 0 <= index && 2 * index + 1 < s.len() && !(s[index].distance < s[nearer_child(
        s,
        index,
    )].distance) {
        sifted_down(swapped(s, index, nearer_child(s, index)), nearer_child(s, index))
    } else {
        s
    }
}

/// Exchanging two entries keeps the multiset of entries.
pub proof fn lemma_swapped_multiset<T>(s: Seq<T>, i: int, j: int)
    requires
        0 <= i < s.len(),
        0 <= j < s.len(),
    ensures
        swapped(s, i, j).to_multiset() == s.to_multiset(),
{
    broadcast use group_multiset_axioms;
    broadcast use vstd::seq_lib::to_multiset_remove;
    broadcast use vstd::seq_lib::to_multiset_insert;

    let t = s.update(i, s[j]);
    assert(t =~= s.remove(i).insert(i, s[j]));
    assert(s.remove(i).to_multiset() == s.to_multiset().remove(s[i]));
    assert(t.to_multiset() == s.to_multiset().remove(s[i]).insert(s[j]));
    let u = t.update(j, s[i]);
    assert(u =~= t.remove(j).insert(j, s[i]));
    assert(t.remove(j).to_multiset() == t.to_multiset().remove(t[j]));
    assert(u.to_multiset() == t.to_multiset().remove(t[j]).insert(s[i]));
    s.to_multiset_ensures();
    assert(s.contains(s[i]));
    assert(s.contains(s[j]));
    assert(u.to_multiset() =~= s.to_multiset());
}

/// In a heap no entry is nearer than the root.
pub proof fn lemma_root_is_nearest(s: Seq<RouteView>, i: int)
    requires
        is_heap(s),
        0 <= i < s.len(),
    ensures
        s[0].distance <= s[i].distance,
    decreases i,
{
    if i > 0 {
        assert(ordered_at(s, i));
        lemma_root_is_nearest(s, (i - 1) / 2);
    }
}

/// One use of the queue as its callers see it: what was put in, or what a removal gave.
pub ghost enum QueueStep {
    Put(RouteView),
    Took(Option<RouteView>),
}

/// What a removal does to the contents: it gives nothing and changes
/// nothing where the queue is empty; else it takes out an entry than which none is nearer.
pub open spec fn removal(
    before: Multiset<RouteView>,
    got: Option<RouteView>,
    after: Multiset<RouteView>,
) -> bool {
    match got {
        None => before.len() == 0 && after == before,
        Some(x) => {
            &&& before.contains(x)
            &&& after == before.remove(x)
            &&& forall|e: RouteView| #[trigger] before.contains(e) ==> x.distance <= e.distance
        },
    }
}

/// The step leads from the contents `before` to the contents `after`.
pub open spec fn step_leads(
    before: Multiset<RouteView>,
    step: QueueStep,
    after: Multiset<RouteView>,
) -> bool {
    match step {
        QueueStep::Put(r) => after == before.insert(r),
        QueueStep::Took(got) => removal(before, got, after),
    }
}

/// The steps lead through the contents `states`, one after the other.
pub open spec fn steps_lead(states: Seq<Multiset<RouteView>>, steps: Seq<QueueStep>) -> bool {
    &&& states.len() == steps.len() + 1
    &&& forall|i: int| 0 <= i < steps.len() ==> step_leads(states[i], #[trigger] steps[i], states[i + 1])
}

/// Nothing is put in that is nearer than an entry taken out before.
pub open spec fn puts_keep_up(steps: Seq<QueueStep>) -> bool {
    forall|i: int, j: int|
        0 <= i < j < steps.len() ==> match (#[trigger] steps[i], #[trigger] steps[j]) {
            (QueueStep::Took(Some(x)), QueueStep::Put(r)) => x.distance <= r.distance,
            _ => true,
        }
}

/// After the removal at step `i`, up to step `k`, the queue holds nothing nearer than what it gave.
proof fn lemma_nothing_nearer(
    states: Seq<Multiset<RouteView>>,
    steps: Seq<QueueStep>,
    i: int,
    k: int,
    x: RouteView,
)
    requires
        steps_lead(states, steps),
        puts_keep_up(steps),
        0 <= i < k <= steps.len(),
        steps[i] == QueueStep::Took(Some(x)),
    ensures
        forall|e: RouteView| #[trigger] states[k].contains(e) ==> x.distance <= e.distance,
    decreases k - i,
{
    broadcast use group_multiset_axioms;

    if k == i + 1 {
        assert(step_leads(states[i], steps[i], states[i + 1]));
        assert forall|e: RouteView| #[trigger] states[k].contains(e) implies x.distance
            <= e.distance by {
            assert(states[i].contains(e));
        }
    } else {
        lemma_nothing_nearer(states, steps, i, k - 1, x);
        assert(step_leads(states[k - 1], steps[k - 1], states[k]));
        assert forall|e: RouteView| #[trigger] states[k].contains(e) implies x.distance
            <= e.distance by {
            match steps[k - 1] {
                QueueStep::Put(r) => {
                    if e != r {
                        assert(states[k - 1].contains(e));
                    }
                },
                QueueStep::Took(Some(y)) => {
                    assert(states[k - 1].contains(e));
                },
                QueueStep::Took(None) => {},
            }
        }
    }
}

/// The priority queue law: through any sequence of puts and removals in
/// which nothing is put in that is nearer than an entry taken out before,
/// the entries come out in order of distance, the nearest first.
pub proof fn lemma_removals_in_order(
    states: Seq<Multiset<RouteView>>,
    steps: Seq<QueueStep>,
    i: int,
    j: int,
    x: RouteView,
    y: RouteView,
)
    requires
        steps_lead(states, steps),
        puts_keep_up(steps),
        0 <= i < j < steps.len(),
        steps[i] == QueueStep::Took(Some(x)),
        steps[j] == QueueStep::Took(Some(y)),
    ensures
        x.distance <= y.distance,
{
    lemma_nothing_nearer(states, steps, i, j, x);
    assert(step_leads(states[j], steps[j], states[j + 1]));
}

/// What a removal gave, as a value.
pub open spec fn got_view(r: Option<Route>) -> Option<RouteView> {
    match r {
        Some(route) => Some(route@),
        None => None,
    }
}

/// One step up keeps the order everywhere but above the place the entry rose to.
proof fn lemma_rise_keeps_order(before: Seq<RouteView>, index: int)
    requires
        1 <= index < before.len(),
        is_heap_but_above(before, index),
        before[(index - 1) / 2].distance > before[index].distance,
    ensures
        is_heap_but_above(swapped(before, (index - 1) / 2, index), (index - 1) / 2),
{
    let hole = (index - 1) / 2;
    let after = swapped(before, hole, index);
    assert forall|i: int| 1 <= i < after.len() && i != hole implies ordered_at(after, i) by {
        if i == index {
        } else if (i - 1) / 2 == index {
            assert(ordered_at(before, i));
        } else if (i - 1) / 2 == hole {
            assert(ordered_at(before, i));
        } else {
            assert(ordered_at(before, i));
        }
    }
    assert forall|i: int|
        1 <= i < after.len() && (i - 1) / 2 == hole && hole >= 1 implies after[(hole - 1)
            / 2].distance <= (#[trigger] after[i]).distance by {
        assert(ordered_at(before, hole));
        if i != index {
            assert(ordered_at(before, i));
        }
    }
}

/// An entry that is strictly nearer than the nearer of its children is in order with both.
proof fn lemma_sink_ends(s: Seq<RouteView>, index: int)
    requires
        0 <= index,
        2 * index + 1 < s.len(),
        is_heap_but_below(s, index),
        s[index].distance < s[nearer_child(s, index)].distance,
    ensures
        is_heap(s),
{
    assert forall|i: int| 1 <= i < s.len() implies ordered_at(s, i) by {
        if (i - 1) / 2 == index {
            assert(i == 2 * index + 1 || i == 2 * index + 2);
        }
    }
}

/// One step down keeps the order everywhere but below the place the entry sank to.
proof fn lemma_sink_keeps_order(before: Seq<RouteView>, index: int)
    requires
        0 <= index,
        2 * index + 1 < before.len(),
        is_heap_but_below(before, index),
        !(before[index].distance < before[nearer_child(before, index)].distance),
    ensures
        is_heap_but_below(
            swapped(before, index, nearer_child(before, index)),
            nearer_child(before, index),
        ),
{
    let hole = nearer_child(before, index);
    let after = swapped(before, index, hole);
    assert forall|i: int| 1 <= i < after.len() && (i - 1) / 2 != hole implies ordered_at(
        after,
        i,
    ) by {
        if (i - 1) / 2 == index {
            assert(i == 2 * index + 1 || i == 2 * index + 2);
        } else if i == index {
            assert(before[(index - 1) / 2].distance <= before[hole].distance);
        } else {
            assert(ordered_at(before, i));
        }
    }
    assert forall|i: int|
        1 <= i < after.len() && (i - 1) / 2 == hole && hole >= 1 implies after[(hole - 1)
            / 2].distance <= (#[trigger] after[i]).distance by {
        assert(ordered_at(before, i));
    }
}

/// A priority queue of routes: a binary heap in a vector, the nearest entry at the root.
pub struct MinHeap {
    pub heap: Vec<Route>,
}

impl MinHeap {
    /// The entries in the order in which the heap stores them.
    pub open spec fn entries(&self) -> Seq<RouteView> {
        views(self.heap@)
    }

    /// The entries as a multiset: what the queue holds, whatever the layout.
    pub open spec fn contents(&self) -> Multiset<RouteView> {
        self.entries().to_multiset()
    }

    /// The layout is a heap that `i32` indices can address.
    pub open spec fn wf(&self) -> bool {
        &&& self.heap@.len() <= MAX_ENTRIES
        &&& is_heap(self.entries())
    }

    /// An empty heap.
    pub fn new() -> (h: MinHeap)
        ensures
            h.heap@.len() == 0,
            h.contents() == Multiset::<RouteView>::empty(),
            h.wf(),
    {
        let h = MinHeap { heap: Vec::new() };
        proof {
            h.entries().to_multiset_ensures();
            lemma_multiset_empty_len(h.contents());
        }
        h
    }

    /// The index of the left child.
    pub fn get_left_child_index(parent_index: i32) -> (r: i32)
        requires
            i32::MIN <= 2 * parent_index,
            2 * parent_index + 1 <= i32::MAX,
        ensures
            r == 2 * parent_index + 1,
    {
        2 * parent_index + 1
    }

    /// The index of the right child.
    pub fn get_right_child_index(parent_index: i32) -> (r: i32)
        requires
            i32::MIN <= 2 * parent_index,
            2 * parent_index + 2 <= i32::MAX,
        ensures
            r == 2 * parent_index + 2,
    {
        2 * parent_index + 2
    }

    /// The index of the parent: half of `child_index - 1`, rounded down.
    pub fn get_parent_index(child_index: i32) -> (r: i32)
        ensures
            r == (child_index - 1) / 2,
    {
        if child_index >= 1 {
            (child_index - 1) / 2
        } else {
            let below: i64 = 2 - (child_index as i64);
            let half: i64 = below / 2;
            (0 - half) as i32
        }
    }

    /// Whether the heap holds a left child of `index`.
    pub fn has_left_child(&mut self, index: i32) -> (r: bool)
        requires
            i32::MIN <= 2 * index,
            2 * index + 1 <= i32::MAX,
            old(self).heap@.len() <= i32::MAX,
        ensures
            *final(self) == *old(self),
            r == (2 * index + 1 < old(self).heap@.len()),
    {
        MinHeap::get_left_child_index(index) < self.heap.len() as i32
    }

    /// Whether the heap holds a right child of `index`.
    pub fn has_right_child(&mut self, index: i32) -> (r: bool)
        requires
            i32::MIN <= 2 * index,
            2 * index + 2 <= i32::MAX,
            old(self).heap@.len() <= i32::MAX,
        ensures
            *final(self) == *old(self),
            r == (2 * index + 2 < old(self).heap@.len()),
    {
        MinHeap::get_right_child_index(index) < self.heap.len() as i32
    }

    /// Whether `index` has a parent: every index but that of the root has.
    pub fn has_parent(index: i32) -> (r: bool)
        ensures
            r == (index >= 1),
    {
        MinHeap::get_parent_index(index) >= 0
    }

    /// A copy of the left child of `index`.
    pub fn left_child(&mut self, index: i32) -> (r: Route)
        requires
            0 <= index,
            2 * index + 1 <= i32::MAX,
            2 * index + 1 < old(self).heap@.len(),
        ensures
            *final(self) == *old(self),
            r == old(self).heap@[2 * index + 1],
    {
        self.heap[MinHeap::get_left_child_index(index) as usize].clone()
    }

    /// A copy of the right child of `index`.
    pub fn right_child(&mut self, index: i32) -> (r: Route)
        requires
            0 <= index,
            2 * index + 2 <= i32::MAX,
            2 * index + 2 < old(self).heap@.len(),
        ensures
            *final(self) == *old(self),
            r == old(self).heap@[2 * index + 2],
    {
        self.heap[MinHeap::get_right_child_index(index) as usize].clone()
    }

    /// A copy of the parent of `index`.
    pub fn parent(&mut self, index: i32) -> (r: Route)
        requires
            1 <= index < old(self).heap@.len(),
        ensures
            *final(self) == *old(self),
            r == old(self).heap@[(index - 1) / 2],
    {
        self.heap[MinHeap::get_parent_index(index) as usize].clone()
    }

    /// Exchanges the entries at the two indices.
    pub fn swap(&mut self, index_one: i32, index_two: i32)
        requires
            0 <= index_one < old(self).heap@.len(),
            0 <= index_two < old(self).heap@.len(),
        ensures
            final(self).heap@ == swapped(old(self).heap@, index_one as int, index_two as int),
            final(self).entries() == swapped(
                old(self).entries(),
                index_one as int,
                index_two as int,
            ),
            final(self).contents() == old(self).contents(),
    {
        let temp = self.heap[index_one as usize].clone();
        let other = self.heap[index_two as usize].clone();
        self.heap.set(index_one as usize, other);
        self.heap.set(index_two as usize, temp);
        proof {
            assert(self.entries() =~= swapped(
                old(self).entries(),
                index_one as int,
                index_two as int,
            ));
            lemma_swapped_multiset(old(self).entries(), index_one as int, index_two as int);
        }
    }

    /// The nearest entry, if there is one; the heap stays as it is.
    pub fn peek(&mut self) -> (r: Option<Route>)
        ensures
            *final(self) == *old(self),
            old(self).heap@.len() == 0 ==> r is None,
            old(self).heap@.len() > 0 ==> r == Some(old(self).heap@[0]),
    {
        if self.heap.len() != 0 {
            return Some(self.heap[0].clone());
        }
        None
    }

    /// Takes the entry at the root out, if there is one: in a heap, an entry
    /// than which none is nearer. The last entry takes its place and sinks.
    pub fn remove(&mut self) -> (r: Option<Route>)
        requires
            old(self).heap@.len() <= MAX_ENTRIES,
        ensures
            old(self).wf() ==> final(self).wf() && removal(
                old(self).contents(),
                got_view(r),
                final(self).contents(),
            ),
            old(self).heap@.len() == 0 ==> r is None && *final(self) == *old(self),
            old(self).heap@.len() > 0 ==> {
                &&& r == Some(old(self).heap@[0])
                &&& final(self).entries() == sifted_down(
                    old(self).entries().update(0, old(self).entries().last()).drop_last(),
                    0,
                )
                &&& old(self).contents().contains(old(self).entries()[0])
                &&& final(self).contents() == old(self).contents().remove(old(self).entries()[0])
                &&& final(self).heap@.len() == old(self).heap@.len() - 1
            },
    {
        if self.heap.len() == 0 {
            proof {
                self.entries().to_multiset_ensures();
            }
            return None;
        }
        let route: Option<Route> = Some(self.heap[0].clone());
        let last = self.heap[self.heap.len() - 1].clone();
        self.heap.set(0, last);
        self.heap.pop();
        proof {
            broadcast use group_multiset_axioms;

            let before = old(self).entries();
            let n = before.len() as int;
            before.to_multiset_ensures();
            assert(before.contains(before[0]));
            let moved = swapped(before, 0, n - 1);
            lemma_swapped_multiset(before, 0, n - 1);
            assert(self.entries() =~= moved.remove(n - 1));
            assert(self.entries() =~= before.update(0, before.last()).drop_last());
            vstd::seq_lib::to_multiset_remove(moved, n - 1);
            if old(self).wf() {
                assert forall|e: RouteView| #[trigger]
                    old(self).contents().contains(e) implies before[0].distance <= e.distance by {
                    assert(before.contains(e));
                    let i = choose|i: int| 0 <= i < before.len() && before[i] == e;
                    lemma_root_is_nearest(before, i);
                }
                assert forall|i: int| 1 <= i < self.entries().len() && (i - 1) / 2 != 0
                    implies ordered_at(self.entries(), i) by {
                    assert(ordered_at(before, i));
                }
            }
        }
        self.heapify_down();
        return route;
    }

    /// Puts an entry in: at the end, from where it rises.
    pub fn add(&mut self, route: Route)
        requires
            old(self).heap@.len() < MAX_ENTRIES,
        ensures
            old(self).wf() ==> final(self).wf(),
            final(self).entries() == sifted_up(
                old(self).entries().push(route@),
                old(self).heap@.len() as int,
            ),
            final(self).contents() == old(self).contents().insert(route@),
            final(self).heap@.len() == old(self).heap@.len() + 1,
    {
        self.heap.push(route);
        proof {
            let before = old(self).entries();
            assert(self.entries() =~= before.push(route@));
            vstd::seq_lib::to_multiset_build(before, route@);
            if old(self).wf() {
                assert forall|i: int|
                    1 <= i < self.entries().len() && i != self.entries().len() - 1
                        implies ordered_at(self.entries(), i) by {
                    assert(ordered_at(before, i));
                }
            }
        }
        self.heapify_up();
    }

    /// Lets the last entry rise as far as it is nearer than its parent. That
    /// restores heap order when only the last entry may be nearer than its parent.
    pub fn heapify_up(&mut self)
        requires
            old(self).heap@.len() <= MAX_ENTRIES,
        ensures
            is_heap_but_above(old(self).entries(), old(self).heap@.len() - 1) ==> final(self).wf(),
            final(self).entries() == sifted_up(old(self).entries(), old(self).heap@.len() - 1),
            final(self).contents() == old(self).contents(),
            final(self).heap@.len() == old(self).heap@.len(),
    {
        let mut index: i32 = self.heap.len() as i32 - 1;
        loop
            invariant
                self.heap@.len() == old(self).heap@.len(),
                self.heap@.len() <= MAX_ENTRIES,
                index == -1 && self.heap@.len() == 0 || 0 <= index < self.heap@.len(),
                is_heap_but_above(old(self).entries(), old(self).heap@.len() - 1)
                    ==> is_heap_but_above(self.entries(), index as int),
                self.contents() == old(self).contents(),
                sifted_up(self.entries(), index as int) == sifted_up(
                    old(self).entries(),
                    old(self).heap@.len() - 1,
                ),
            ensures
                is_heap_but_above(old(self).entries(), old(self).heap@.len() - 1) ==> self.wf(),
                self.heap@.len() == old(self).heap@.len(),
                self.contents() == old(self).contents(),
                self.entries() == sifted_up(old(self).entries(), old(self).heap@.len() - 1),
            decreases index + 1,
        {
            if !MinHeap::has_parent(index) {
                break ;
            }
            let above = MinHeap::parent(self, index);
            if !(above.distance > self.heap[index as usize].distance) {
                assert(ordered_at(self.entries(), index as int));
                break ;
            }
            let parent_index = MinHeap::get_parent_index(index);
            let ghost before = self.entries();
            MinHeap::swap(self, parent_index, index);
            proof {
                if is_heap_but_above(before, index as int) {
                    lemma_rise_keeps_order(before, index as int);
                }
            }
            index = parent_index;
        }
    }

    /// Lets the root sink until it is strictly nearer than the nearer of its
    /// children. That restores heap order when only the root may be farther
    /// than its children.
    pub fn heapify_down(&mut self)
        requires
            old(self).heap@.len() <= MAX_ENTRIES,
        ensures
            is_heap_but_below(old(self).entries(), 0) ==> final(self).wf(),
            final(self).entries() == sifted_down(old(self).entries(), 0),
            final(self).contents() == old(self).contents(),
            final(self).heap@.len() == old(self).heap@.len(),
    {
        let mut index: i32 = 0;
        loop
            invariant
                self.heap@.len() == old(self).heap@.len(),
                self.heap@.len() <= MAX_ENTRIES,
                0 <= index,
                index < self.heap@.len() || index == 0,
                is_heap_but_below(old(self).entries(), 0) ==> is_heap_but_below(
                    self.entries(),
                    index as int,
                ),
                self.contents() == old(self).contents(),
                sifted_down(self.entries(), index as int) == sifted_down(old(self).entries(), 0),
            ensures
                is_heap_but_below(old(self).entries(), 0) ==> self.wf(),
                self.heap@.len() == old(self).heap@.len(),
                self.contents() == old(self).contents(),
                self.entries() == sifted_down(old(self).entries(), 0),
            decreases self.heap@.len() - index,
        {
            if !MinHeap::has_left_child(self, index) {
                break ;
            }
            let mut smaller_child_index: i32 = MinHeap::get_left_child_index(index);
            if MinHeap::has_right_child(self, index) {
                if MinHeap::right_child(self, index).distance < MinHeap::left_child(
                    self,
                    index,
                ).distance {
                    smaller_child_index = MinHeap::get_right_child_index(index);
                }
            }
            if self.heap[index as usize].distance < self.heap[smaller_child_index as usize].distance {
                proof {
                    if is_heap_but_below(self.entries(), index as int) {
                        lemma_sink_ends(self.entries(), index as int);
                    }
                }
                break ;
            }
            let ghost before = self.entries();
            MinHeap::swap(self, index, smaller_child_index);
            proof {
                if is_heap_but_below(before, index as int) {
                    lemma_sink_keeps_order(before, index as int);
                }
            }
            index = smaller_child_index;
        }
    }
}

/// An empty heap.
pub fn create_min_heap() -> (h: MinHeap)
    ensures
        h.heap@.len() == 0,
        h.contents() == Multiset::<RouteView>::empty(),
        h.wf(),
{
    MinHeap::new()
}

} // verus!
