//! The frontier: for each class that is not settled yet, its best candidate
//! so far. A binary heap ordered by cost, with a table that finds the heap
//! slot of a class, so that a candidate can be improved in place.

use vstd::prelude::*;
use crate::cost::Cost;
use crate::egraph::{ClassId, NodeId};

verus! {

/// A way to realise a class: a node of it, and what it costs in all.
#[derive(Clone, Copy, Debug, PartialEq, Eq)]
pub struct Candidate {
    pub cost: Cost,
    pub node: NodeId,
}

#[derive(Clone, Copy)]
struct Slot {
    class: ClassId,
    cost: Cost,
    node: NodeId,
}

/// At most one candidate per class, the cheapest of them at hand.
pub struct Frontier {
    heap: Vec<Slot>,
    place: Vec<Option<usize>>,
}

/// Heap slots and the table of places refer to each other.
#[verifier::opaque]
spec fn linked(heap: Seq<Slot>, place: Seq<Option<usize>>) -> bool {
    &&& forall|i: int|
        0 <= i < heap.len() ==> {
            &&& (#[trigger] heap[i]).class < place.len()
            &&& place[heap[i].class as int] == Some(i as usize)
        }
    &&& forall|c: int|
        0 <= c < place.len() ==> (#[trigger] place[c] matches Some(i) ==> {
            &&& i < heap.len()
            &&& heap[i as int].class == c
        })
}

/// The candidate of each class that has a place in the heap.
#[verifier::opaque]
spec fn contents(heap: Seq<Slot>, place: Seq<Option<usize>>) -> Map<ClassId, Candidate> {
    Map::new(
        |class: ClassId| class < place.len() && place[class as int] is Some,
        |class: ClassId|
            {
                let slot = heap[place[class as int].unwrap() as int];
                Candidate { cost: slot.cost, node: slot.node }
            },
    )
}

/// No slot but `skip` is cheaper than its parent.
spec fn ordered_except(heap: Seq<Slot>, skip: int) -> bool {
    forall|j: int|
        1 <= j < heap.len() && j != skip ==> heap[(j - 1) / 2].cost <= (#[trigger] heap[j]).cost
}

/// No slot is cheaper than its parent, unless that parent is `skip`.
spec fn ordered_below(heap: Seq<Slot>, skip: int) -> bool {
    forall|j: int|
        1 <= j < heap.len() && (j - 1) / 2 != skip ==> heap[(j - 1) / 2].cost <= (
        #[trigger] heap[j]).cost
}

/// The parent of slot `i` is no dearer than the children of `i`.
spec fn bridged(heap: Seq<Slot>, i: int) -> bool {
    i >= 1 ==> forall|j: int|
        1 <= j < heap.len() && (j - 1) / 2 == i ==> heap[(i - 1) / 2].cost <= (
        #[trigger] heap[j]).cost
}

/// The heap with the slots `i` and `j` exchanged.
spec fn exchanged(heap: Seq<Slot>, i: int, j: int) -> Seq<Slot> {
    heap.update(i, heap[j]).update(j, heap[i])
}

proof fn lemma_root_is_cheapest(heap: Seq<Slot>, i: int)
    requires
        ordered_except(heap, 0),
        0 <= i < heap.len(),
    ensures
        heap[0].cost <= heap[i].cost,
    decreases i,
{
    if i > 0 {
        lemma_root_is_cheapest(heap, (i - 1) / 2);
    }
}

proof fn lemma_exchange_up(heap: Seq<Slot>, i: int)
    requires
        1 <= i < heap.len(),
        ordered_except(heap, i),
        bridged(heap, i),
        heap[(i - 1) / 2].cost > heap[i].cost,
    ensures
        ordered_except(exchanged(heap, (i - 1) / 2, i), (i - 1) / 2),
        bridged(exchanged(heap, (i - 1) / 2, i), (i - 1) / 2),
{
    let parent = (i - 1) / 2;
    let after = exchanged(heap, parent, i);
    assert forall|j: int| 1 <= j < after.len() && j != parent implies after[(j - 1) / 2].cost <= (
    #[trigger] after[j]).cost by {
        if j == i {
        } else if (j - 1) / 2 == i {
            assert(heap[parent].cost <= heap[j].cost);
        } else if (j - 1) / 2 == parent {
            assert(heap[parent].cost <= heap[j].cost);
        } else {
            assert(heap[(j - 1) / 2].cost <= heap[j].cost);
        }
    }
    if parent >= 1 {
        assert forall|j: int| 1 <= j < after.len() && (j - 1) / 2 == parent implies after[(parent
            - 1) / 2].cost <= (#[trigger] after[j]).cost by {
            assert(heap[(parent - 1) / 2].cost <= heap[parent].cost);
            if j != i {
                assert(heap[parent].cost <= heap[j].cost);
            }
        }
    }
}

proof fn lemma_no_exchange_up(heap: Seq<Slot>, i: int)
    requires
        0 <= i < heap.len(),
        ordered_except(heap, i),
        i > 0 ==> heap[(i - 1) / 2].cost <= heap[i].cost,
    ensures
        ordered_except(heap, 0),
{
    assert forall|j: int| 1 <= j < heap.len() implies heap[(j - 1) / 2].cost <= (
    #[trigger] heap[j]).cost by {
        if j != i {
            assert(heap[(j - 1) / 2].cost <= heap[j].cost);
        }
    }
}

proof fn lemma_exchange_down(heap: Seq<Slot>, i: int, least: int)
    requires
        0 <= i,
        least == 2 * i + 1 || least == 2 * i + 2,
        least < heap.len(),
        2 * i + 1 < heap.len() ==> heap[least].cost <= heap[2 * i + 1].cost,
        2 * i + 2 < heap.len() ==> heap[least].cost <= heap[2 * i + 2].cost,
        heap[least].cost < heap[i].cost,
        ordered_below(heap, i),
        bridged(heap, i),
    ensures
        ordered_below(exchanged(heap, i, least), least),
        bridged(exchanged(heap, i, least), least),
{
    let after = exchanged(heap, i, least);
    assert forall|j: int| 1 <= j < after.len() && (j - 1) / 2 != least implies after[(j - 1)
        / 2].cost <= (#[trigger] after[j]).cost by {
        if (j - 1) / 2 == i {
            assert(j == 2 * i + 1 || j == 2 * i + 2);
        } else if j == i {
            assert(heap[(i - 1) / 2].cost <= heap[least].cost);
        } else {
            assert(heap[(j - 1) / 2].cost <= heap[j].cost);
        }
    }
    assert forall|j: int| 1 <= j < after.len() && (j - 1) / 2 == least implies after[(least - 1)
        / 2].cost <= (#[trigger] after[j]).cost by {
        assert(heap[least].cost <= heap[j].cost);
    }
}

proof fn lemma_no_exchange_down(heap: Seq<Slot>, i: int)
    requires
        0 <= i < heap.len(),
        ordered_below(heap, i),
        2 * i + 1 < heap.len() ==> heap[i].cost <= heap[2 * i + 1].cost,
        2 * i + 2 < heap.len() ==> heap[i].cost <= heap[2 * i + 2].cost,
    ensures
        ordered_except(heap, 0),
{
    assert forall|j: int| 1 <= j < heap.len() implies heap[(j - 1) / 2].cost <= (
    #[trigger] heap[j]).cost by {
        if (j - 1) / 2 == i {
            assert(j == 2 * i + 1 || j == 2 * i + 2);
        } else {
            assert(heap[(j - 1) / 2].cost <= heap[j].cost);
        }
    }
}

proof fn lemma_push_in_order(heap: Seq<Slot>, slot: Slot)
    requires
        ordered_except(heap, 0),
    ensures
        ordered_except(heap.push(slot), heap.len() as int),
        bridged(heap.push(slot), heap.len() as int),
{
    let after = heap.push(slot);
    assert forall|j: int| 1 <= j < after.len() && j != heap.len() implies after[(j - 1) / 2].cost <= (
    #[trigger] after[j]).cost by {
        assert(heap[(j - 1) / 2].cost <= heap[j].cost);
    }
}

proof fn lemma_lower_in_order(heap: Seq<Slot>, at: int, slot: Slot)
    requires
        ordered_except(heap, 0),
        0 <= at < heap.len(),
        slot.cost <= heap[at].cost,
    ensures
        ordered_except(heap.update(at, slot), at),
        bridged(heap.update(at, slot), at),
{
    let after = heap.update(at, slot);
    assert forall|j: int| 1 <= j < after.len() && j != at implies after[(j - 1) / 2].cost <= (
    #[trigger] after[j]).cost by {
        assert(heap[(j - 1) / 2].cost <= heap[j].cost);
    }
    if at >= 1 {
        assert forall|j: int| 1 <= j < after.len() && (j - 1) / 2 == at implies after[(at - 1)
            / 2].cost <= (#[trigger] after[j]).cost by {
            assert(heap[(at - 1) / 2].cost <= heap[at].cost);
            assert(heap[at].cost <= heap[j].cost);
        }
    }
}

proof fn lemma_last_to_root_in_order(heap: Seq<Slot>)
    requires
        ordered_except(heap, 0),
        heap.len() > 1,
    ensures
        ordered_below(heap.drop_last().update(0, heap.last()), 0),
        bridged(heap.drop_last().update(0, heap.last()), 0),
{
    let after = heap.drop_last().update(0, heap.last());
    assert forall|j: int| 1 <= j < after.len() && (j - 1) / 2 != 0 implies after[(j - 1) / 2].cost <= (
    #[trigger] after[j]).cost by {
        assert(heap[(j - 1) / 2].cost <= heap[j].cost);
    }
}

proof fn lemma_linked_slot(heap: Seq<Slot>, place: Seq<Option<usize>>, i: int)
    requires
        linked(heap, place),
        0 <= i < heap.len(),
    ensures
        heap.len() <= usize::MAX ==> i as usize == i,
        heap[i].class < place.len(),
        place[heap[i].class as int] == Some(i as usize),
{
    reveal(linked);
}

proof fn lemma_linked_place(heap: Seq<Slot>, place: Seq<Option<usize>>, class: ClassId)
    requires
        linked(heap, place),
    ensures
        contents(heap, place).contains_key(class) <==> class < place.len() && place[class as int] is Some,
        contents(heap, place).contains_key(class) ==> {
            let at = place[class as int].unwrap();
            &&& at < heap.len()
            &&& heap[at as int].class == class
            &&& contents(heap, place)[class] == (Candidate {
                cost: heap[at as int].cost,
                node: heap[at as int].node,
            })
        },
{
    reveal(linked);
    reveal(contents);
}

proof fn lemma_exchange_linked(heap: Seq<Slot>, place: Seq<Option<usize>>, i: int, j: int)
    requires
        linked(heap, place),
        0 <= i < heap.len(),
        0 <= j < heap.len(),
        heap.len() <= usize::MAX,
    ensures
        linked(
            exchanged(heap, i, j),
            place.update(heap[j].class as int, Some(i as usize)).update(
                heap[i].class as int,
                Some(j as usize),
            ),
        ),
        contents(
            exchanged(heap, i, j),
            place.update(heap[j].class as int, Some(i as usize)).update(
                heap[i].class as int,
                Some(j as usize),
            ),
        ) == contents(heap, place),
{
    reveal(linked);
    reveal(contents);
    let a = heap[i];
    let b = heap[j];
    let heap2 = exchanged(heap, i, j);
    let place2 = place.update(b.class as int, Some(i as usize)).update(
        a.class as int,
        Some(j as usize),
    );
    assert(place[a.class as int] == Some(i as usize));
    assert(place[b.class as int] == Some(j as usize));
    assert forall|k: int| 0 <= k < heap2.len() implies {
        &&& (#[trigger] heap2[k]).class < place2.len()
        &&& place2[heap2[k].class as int] == Some(k as usize)
    } by {
        assert(place[heap[k].class as int] == Some(k as usize));
    }
    assert forall|c: int| 0 <= c < place2.len() implies (#[trigger] place2[c] matches Some(k) ==> {
        &&& k < heap2.len()
        &&& heap2[k as int].class == c
    }) by {
        if c != a.class && c != b.class {
            assert(place2[c] == place[c]);
        }
    }
    assert(contents(heap2, place2) =~= contents(heap, place));
}

proof fn lemma_push_linked(heap: Seq<Slot>, place: Seq<Option<usize>>, slot: Slot)
    requires
        linked(heap, place),
        slot.class < place.len(),
        place[slot.class as int] is None,
        heap.len() <= usize::MAX,
    ensures
        linked(heap.push(slot), place.update(slot.class as int, Some(heap.len() as usize))),
        !contents(heap, place).contains_key(slot.class),
        contents(heap.push(slot), place.update(slot.class as int, Some(heap.len() as usize)))
            == contents(heap, place).insert(
            slot.class,
            (Candidate { cost: slot.cost, node: slot.node }),
        ),
{
    reveal(linked);
    reveal(contents);
    let heap2 = heap.push(slot);
    let place2 = place.update(slot.class as int, Some(heap.len() as usize));
    assert forall|k: int| 0 <= k < heap2.len() implies {
        &&& (#[trigger] heap2[k]).class < place2.len()
        &&& place2[heap2[k].class as int] == Some(k as usize)
    } by {
        if k < heap.len() {
            assert(place[heap[k].class as int] == Some(k as usize));
        }
    }
    assert forall|c: int| 0 <= c < place2.len() implies (#[trigger] place2[c] matches Some(k) ==> {
        &&& k < heap2.len()
        &&& heap2[k as int].class == c
    }) by {
        if c != slot.class {
            assert(place2[c] == place[c]);
        }
    }
    assert(contents(heap2, place2) =~= contents(heap, place).insert(
        slot.class,
        (Candidate { cost: slot.cost, node: slot.node }),
    ));
}

proof fn lemma_lower_linked(heap: Seq<Slot>, place: Seq<Option<usize>>, at: int, slot: Slot)
    requires
        linked(heap, place),
        0 <= at < heap.len(),
        heap.len() <= usize::MAX,
        slot.class == heap[at].class,
    ensures
        linked(heap.update(at, slot), place),
        contents(heap, place).contains_key(slot.class),
        contents(heap.update(at, slot), place) == contents(heap, place).insert(
            slot.class,
            (Candidate { cost: slot.cost, node: slot.node }),
        ),
{
    reveal(linked);
    reveal(contents);
    let heap2 = heap.update(at, slot);
    assert(place[heap[at].class as int] == Some(at as usize));
    assert forall|k: int| 0 <= k < heap2.len() implies {
        &&& (#[trigger] heap2[k]).class < place.len()
        &&& place[heap2[k].class as int] == Some(k as usize)
    } by {
        assert(place[heap[k].class as int] == Some(k as usize));
    }
    assert forall|c: int| 0 <= c < place.len() implies (#[trigger] place[c] matches Some(k) ==> {
        &&& k < heap2.len()
        &&& heap2[k as int].class == c
    }) by {
    }
    assert(contents(heap2, place) =~= contents(heap, place).insert(
        slot.class,
        (Candidate { cost: slot.cost, node: slot.node }),
    ));
}

/// The heap and the table once the root has left: the last slot takes its
/// room, where there is another slot at all.
spec fn without_root(heap: Seq<Slot>, place: Seq<Option<usize>>) -> (Seq<Slot>, Seq<Option<usize>>) {
    if heap.len() > 1 {
        (
            heap.drop_last().update(0, heap.last()),
            place.update(heap[0].class as int, None).update(heap.last().class as int, Some(0usize)),
        )
    } else {
        (heap.drop_last(), place.update(heap[0].class as int, None))
    }
}

proof fn lemma_take_root_linked(heap: Seq<Slot>, place: Seq<Option<usize>>)
    requires
        linked(heap, place),
        heap.len() > 0,
        heap.len() <= usize::MAX,
    ensures
        linked(without_root(heap, place).0, without_root(heap, place).1),
        contents(heap, place).contains_key(heap[0].class),
        contents(heap, place)[heap[0].class] == (Candidate {
            cost: heap[0].cost,
            node: heap[0].node,
        }),
        contents(without_root(heap, place).0, without_root(heap, place).1) == contents(
            heap,
            place,
        ).remove(heap[0].class),
{
    reveal(linked);
    reveal(contents);
    let top = heap[0];
    let last = heap.last();
    let (heap2, place2) = without_root(heap, place);
    assert(place[top.class as int] == Some(0usize));
    assert(place[last.class as int] == Some((heap.len() - 1) as usize));
    assert forall|k: int| 0 <= k < heap2.len() implies {
        &&& (#[trigger] heap2[k]).class < place2.len()
        &&& place2[heap2[k].class as int] == Some(k as usize)
    } by {
        assert(place[heap[k].class as int] == Some(k as usize));
    }
    assert forall|c: int| 0 <= c < place2.len() implies (#[trigger] place2[c] matches Some(k) ==> {
        &&& k < heap2.len()
        &&& heap2[k as int].class == c
    }) by {
        if c != top.class && c != last.class {
            assert(place2[c] == place[c]);
        }
    }
    assert(contents(heap2, place2) =~= contents(heap, place).remove(top.class));
}

impl View for Frontier {
    type V = Map<ClassId, Candidate>;

    /// The candidate held for each class that has one.
    closed spec fn view(&self) -> Map<ClassId, Candidate> {
        contents(self.heap@, self.place@)
    }
}

impl Frontier {
    /// The number of classes that the frontier was made for.
    pub closed spec fn classes(&self) -> nat {
        self.place@.len()
    }

    /// Slots and places agree, and each candidate is counted once.
    spec fn sound(&self) -> bool {
        &&& linked(self.heap@, self.place@)
        &&& self@.dom().finite()
        &&& self@.dom().len() == self.heap@.len()
    }

    /// The frontier is in order.
    pub closed spec fn wf(&self) -> bool {
        &&& self.sound()
        &&& ordered_except(self.heap@, 0)
    }

    /// A frontier holds finitely many classes, all of them among those that
    /// it was made for.
    pub proof fn lemma_bounded(&self)
        requires
            self.wf(),
        ensures
            self@.dom().finite(),
            forall|class: ClassId| self@.contains_key(class) ==> class < self.classes(),
    {
        assert forall|class: ClassId| self@.contains_key(class) implies class < self.classes() by {
            lemma_linked_place(self.heap@, self.place@, class);
        }
    }

    /// An empty frontier with room for the classes `0..classes`.
    pub fn new(classes: usize) -> (frontier: Self)
        ensures
            frontier.wf(),
            frontier.classes() == classes,
            frontier@ == Map::<ClassId, Candidate>::empty(),
    {
        let mut place: Vec<Option<usize>> = Vec::new();
        while place.len() < classes
            invariant
                place@.len() <= classes,
                forall|c: int| 0 <= c < place@.len() ==> place@[c] is None,
            decreases classes - place@.len(),
        {
            place.push(None);
        }
        let frontier = Frontier { heap: Vec::new(), place };
        proof {
            reveal(linked);
            reveal(contents);
            assert(frontier@ =~= Map::<ClassId, Candidate>::empty());
        }
        frontier
    }

    /// The number of classes that have a candidate.
    pub fn len(&self) -> (count: usize)
        requires
            self.wf(),
        ensures
            count == self@.dom().len(),
    {
        self.heap.len()
    }

    /// Whether no class has a candidate.
    pub fn is_empty(&self) -> (empty: bool)
        requires
            self.wf(),
        ensures
            empty == (self@.dom().len() == 0),
    {
        self.heap.len() == 0
    }

    /// The candidate held for `class`, if there is one.
    pub fn get(&self, class: ClassId) -> (held: Option<Candidate>)
        requires
            self.wf(),
        ensures
            held == (if self@.contains_key(class) {
                Some(self@[class])
            } else {
                None
            }),
    {
        proof {
            lemma_linked_place(self.heap@, self.place@, class);
        }
        if class >= self.place.len() {
            return None;
        }
        match self.place[class] {
            Some(i) => {
                let slot = self.heap[i];
                Some(Candidate { cost: slot.cost, node: slot.node })
            },
            None => None,
        }
    }

    fn swap_slots(&mut self, i: usize, j: usize)
        requires
            old(self).sound(),
            i < old(self).heap@.len(),
            j < old(self).heap@.len(),
        ensures
            final(self).sound(),
            final(self)@ == old(self)@,
            final(self).place@.len() == old(self).place@.len(),
            final(self).heap@ == exchanged(old(self).heap@, i as int, j as int),
    {
        let a = self.heap[i];
        let b = self.heap[j];
        proof {
            assert(self.heap@.len() == self.heap.len());
            lemma_linked_slot(self.heap@, self.place@, i as int);
            lemma_linked_slot(self.heap@, self.place@, j as int);
            lemma_exchange_linked(self.heap@, self.place@, i as int, j as int);
        }
        self.heap.set(i, b);
        self.heap.set(j, a);
        self.place.set(b.class, Some(i));
        self.place.set(a.class, Some(j));
    }

    fn sift_up(&mut self, start: usize)
        requires
            old(self).sound(),
            start < old(self).heap@.len(),
            ordered_except(old(self).heap@, start as int),
            bridged(old(self).heap@, start as int),
        ensures
            final(self).wf(),
            final(self)@ == old(self)@,
            final(self).place@.len() == old(self).place@.len(),
    {
        let mut i = start;
        while i > 0 && self.heap[(i - 1) / 2].cost > self.heap[i].cost
            invariant
                self.sound(),
                i < self.heap@.len(),
                ordered_except(self.heap@, i as int),
                bridged(self.heap@, i as int),
                self@ == old(self)@,
                self.place@.len() == old(self).place@.len(),
            decreases i,
        {
            let parent = (i - 1) / 2;
            proof {
                lemma_exchange_up(self.heap@, i as int);
            }
            self.swap_slots(parent, i);
            i = parent;
        }
        proof {
            lemma_no_exchange_up(self.heap@, i as int);
        }
    }

    fn sift_down(&mut self, start: usize)
        requires
            old(self).sound(),
            start < old(self).heap@.len(),
            ordered_below(old(self).heap@, start as int),
            bridged(old(self).heap@, start as int),
        ensures
            final(self).wf(),
            final(self)@ == old(self)@,
            final(self).place@.len() == old(self).place@.len(),
    {
        let len = self.heap.len();
        let mut i = start;
        let mut settled = false;
        while !settled && i < len / 2
            invariant
                self.sound(),
                len == self.heap@.len(),
                i < len,
                !settled ==> ordered_below(self.heap@, i as int) && bridged(self.heap@, i as int),
                settled ==> ordered_except(self.heap@, 0),
                self@ == old(self)@,
                self.place@.len() == old(self).place@.len(),
            decreases len - i, if settled { 0int } else { 1int },
        {
            let left = 2 * i + 1;
            let right = left + 1;
            let mut least = left;
            if right < len && self.heap[right].cost < self.heap[left].cost {
                least = right;
            }
            if self.heap[i].cost <= self.heap[least].cost {
                proof {
                    lemma_no_exchange_down(self.heap@, i as int);
                }
                settled = true;
            } else {
                proof {
                    lemma_exchange_down(self.heap@, i as int, least as int);
                }
                self.swap_slots(i, least);
                i = least;
            }
        }
        proof {
            if !settled {
                lemma_no_exchange_down(self.heap@, i as int);
            }
        }
    }

    fn push_slot(&mut self, class: ClassId, cost: Cost, node: NodeId)
        requires
            old(self).sound(),
            class < old(self).place@.len(),
            old(self).place@[class as int] is None,
        ensures
            final(self).sound(),
            final(self).place@.len() == old(self).place@.len(),
            final(self).heap@ == old(self).heap@.push(Slot { class, cost, node }),
            !old(self)@.contains_key(class),
            final(self)@ == old(self)@.insert(class, (Candidate { cost, node })),
    {
        let at = self.heap.len();
        proof {
            lemma_linked_place(self.heap@, self.place@, class);
            lemma_push_linked(self.heap@, self.place@, Slot { class, cost, node });
        }
        self.heap.push(Slot { class, cost, node });
        self.place.set(class, Some(at));
    }

    fn lower_slot(&mut self, at: usize, cost: Cost, node: NodeId)
        requires
            old(self).sound(),
            at < old(self).heap@.len(),
        ensures
            final(self).sound(),
            final(self).place@.len() == old(self).place@.len(),
            final(self).heap@ == old(self).heap@.update(
                at as int,
                (Slot { class: old(self).heap@[at as int].class, cost, node }),
            ),
            final(self)@ == old(self)@.insert(
                old(self).heap@[at as int].class,
                (Candidate { cost, node }),
            ),
    {
        let class = self.heap[at].class;
        proof {
            assert(self.heap@.len() == self.heap.len());
            lemma_lower_linked(self.heap@, self.place@, at as int, Slot { class, cost, node });
            assert(self@.insert(class, (Candidate { cost, node })).dom() =~= self@.dom());
        }
        self.heap.set(at, Slot { class, cost, node });
    }

    fn take_root(&mut self) -> (top: Slot)
        requires
            old(self).sound(),
            old(self).heap@.len() > 0,
        ensures
            final(self).sound(),
            final(self).place@.len() == old(self).place@.len(),
            top == old(self).heap@[0],
            old(self)@.contains_key(top.class),
            old(self)@[top.class] == (Candidate { cost: top.cost, node: top.node }),
            final(self)@ == old(self)@.remove(top.class),
            final(self).heap@ == without_root(old(self).heap@, old(self).place@).0,
    {
        let len = self.heap.len();
        let top = self.heap[0];
        proof {
            lemma_linked_slot(self.heap@, self.place@, 0);
            lemma_linked_slot(self.heap@, self.place@, len - 1);
            lemma_take_root_linked(self.heap@, self.place@);
        }
        let last = self.heap.pop().unwrap();
        self.place.set(top.class, None);
        if len > 1 {
            self.heap.set(0, last);
            self.place.set(last.class, Some(0));
        }
        top
    }

    /// Offers a candidate for `class`. It is taken where the class has none
    /// yet, or a dearer one, which it then replaces.
    pub fn offer(&mut self, class: ClassId, cost: Cost, node: NodeId) -> (taken: bool)
        requires
            old(self).wf(),
            class < old(self).classes(),
        ensures
            final(self).wf(),
            final(self).classes() == old(self).classes(),
            taken == (!old(self)@.contains_key(class) || cost < old(self)@[class].cost),
            final(self)@ == (if taken {
                old(self)@.insert(class, (Candidate { cost, node }))
            } else {
                old(self)@
            }),
    {
        proof {
            lemma_linked_place(self.heap@, self.place@, class);
        }
        match self.place[class] {
            None => {
                let at = self.heap.len();
                proof {
                    lemma_push_in_order(self.heap@, Slot { class, cost, node });
                }
                self.push_slot(class, cost, node);
                self.sift_up(at);
                true
            },
            Some(at) => {
                if cost < self.heap[at].cost {
                    proof {
                        lemma_lower_in_order(self.heap@, at as int, Slot { class, cost, node });
                    }
                    self.lower_slot(at, cost, node);
                    self.sift_up(at);
                    true
                } else {
                    false
                }
            },
        }
    }

    /// Takes out the class whose candidate is cheapest; among several such,
    /// one of them.
    pub fn pop_min(&mut self) -> (popped: Option<(ClassId, Candidate)>)
        requires
            old(self).wf(),
        ensures
            final(self).wf(),
            final(self).classes() == old(self).classes(),
            match popped {
                None => {
                    &&& old(self)@.dom().len() == 0
                    &&& final(self)@ == old(self)@
                },
                Some((class, best)) => {
                    &&& old(self)@.contains_key(class)
                    &&& old(self)@[class] == best
                    &&& forall|other: ClassId| #[trigger]
                        old(self)@.contains_key(other) ==> best.cost <= old(self)@[other].cost
                    &&& final(self)@ == old(self)@.remove(class)
                },
            },
    {
        let len = self.heap.len();
        if len == 0 {
            return None;
        }
        proof {
            assert forall|other: ClassId| #[trigger]
                self@.contains_key(other) implies self.heap@[0].cost <= self@[other].cost by {
                lemma_linked_place(self.heap@, self.place@, other);
                lemma_root_is_cheapest(self.heap@, self.place@[other as int].unwrap() as int);
            }
            if len > 1 {
                lemma_last_to_root_in_order(self.heap@);
            }
        }
        let top = self.take_root();
        if len > 1 {
            self.sift_down(0);
        }
        Some((top.class, Candidate { cost: top.cost, node: top.node }))
    }
}

} // verus!
