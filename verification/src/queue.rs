//! A first-in, first-out queue that also knows its largest item at any
//! time, in constant time per operation on average.

use crate::order::{below, is_below, is_same, total_order};
use std::collections::VecDeque;
use vstd::prelude::*;

verus! {

/// Whether nothing behind position `i` is greater than the item at `i`.
pub open spec fn dominates<T: PartialOrd>(items: Seq<T>, i: int) -> bool {
    forall|j: int| i < j < items.len() ==> !below(items[i], #[trigger] items[j])
}

/// Whether `m` is a largest item: it occurs, and no item is greater.
pub open spec fn is_max<T: PartialOrd>(items: Seq<T>, m: T) -> bool {
    items.contains(m) && forall|i: int| 0 <= i < items.len() ==> !below(m, #[trigger] items[i])
}

/// The positions, each moved down by one, from `from` on.
pub open spec fn shifted(marks: Seq<int>, from: int) -> Seq<int> {
    Seq::new((marks.len() - from) as nat, |k: int| marks[k + from] - 1)
}

/// Whether `marks` lists, in rising order, exactly the positions of
/// `items` that are not followed by a greater item, and `maxima` holds the
/// items at these positions.
pub open spec fn tracks<T: PartialOrd>(items: Seq<T>, maxima: Seq<T>, marks: Seq<int>) -> bool {
    &&& marks.len() == maxima.len()
    &&& forall|k: int|
        0 <= k < marks.len() ==> 0 <= #[trigger] marks[k] < items.len() && maxima[k]
            == items[marks[k]]
    &&& forall|a: int, b: int|
        0 <= a < b < marks.len() ==> #[trigger] marks[a] < #[trigger] marks[b]
    &&& forall|i: int|
        0 <= i < items.len() ==> (#[trigger] dominates(items, i) <==> marks.contains(i))
}

/// The item at the first marked position is not less than any item before
/// `j`, counted down from that position.
proof fn lemma_none_greater_before<T: PartialOrd>(
    items: Seq<T>,
    maxima: Seq<T>,
    marks: Seq<int>,
    j: int,
)
    requires
        total_order::<T>(),
        tracks(items, maxima, marks),
        marks.len() > 0,
        0 <= j < marks[0],
    ensures
        !below(items[marks[0]], items[j]),
    decreases marks[0] - j,
{
    let first = marks[0];
    if below(items[first], items[j]) {
        assert(!marks.contains(j)) by {
            if marks.contains(j) {
                let k = choose|k: int| 0 <= k < marks.len() && marks[k] == j;
                if k > 0 {
                    assert(marks[0] < marks[k]);
                }
            }
        }
        assert(!dominates(items, j));
        let later = choose|later: int| j < later < items.len() && below(items[j], items[later]);
        assert(below(items[first], items[later]));
        assert(marks.contains(first));
        assert(dominates(items, first));
        if later < first {
            lemma_none_greater_before(items, maxima, marks, later);
        }
    }
}

/// Of a queue that is not empty the first of the maxima is a largest item.
proof fn lemma_front_is_max<T: PartialOrd>(items: Seq<T>, maxima: Seq<T>, marks: Seq<int>)
    requires
        total_order::<T>(),
        tracks(items, maxima, marks),
        items.len() > 0,
    ensures
        marks.len() > 0,
        is_max(items, maxima[0]),
{
    assert(dominates(items, items.len() - 1));
    assert(marks.contains(items.len() - 1));
    let first = marks[0];
    assert(marks.contains(first));
    assert(dominates(items, first));
    assert forall|i: int| 0 <= i < items.len() implies !below(maxima[0], #[trigger] items[i]) by {
        if i < first {
            lemma_none_greater_before(items, maxima, marks, i);
        }
    }
}

/// A queue that gives out its items in the order they came in and can tell
/// its largest item at any time.
pub struct MaxQueue<T> where T: PartialOrd + Copy {
    queue: VecDeque<T>,
    max_queue: VecDeque<T>,
    marks: Ghost<Seq<int>>,
}

impl<T> View for MaxQueue<T> where T: PartialOrd + Copy {
    type V = Seq<T>;

    closed spec fn view(&self) -> Seq<T> {
        self.queue@
    }
}

impl<T> MaxQueue<T> where T: PartialOrd + Copy {
    /// The invariant of the queue.
    pub closed spec fn wf(&self) -> bool {
        tracks(self.queue@, self.max_queue@, self.marks@)
    }

    /// An empty queue.
    pub fn new() -> (queue: Self)
        ensures
            queue.wf(),
            queue@ == Seq::<T>::empty(),
    {
        let queue = MaxQueue {
            queue: VecDeque::new(),
            max_queue: VecDeque::new(),
            marks: Ghost(Seq::empty()),
        };
        queue
    }

    /// Puts an item at the back of the queue.
    pub fn enqueue(&mut self, value: T)
        requires
            old(self).wf(),
            total_order::<T>(),
        ensures
            final(self).wf(),
            final(self)@ == old(self)@.push(value),
    {
        let ghost items = self.queue@;
        let ghost maxima = self.max_queue@;
        let ghost marks = self.marks@;
        self.queue.push_back(value);
        while self.max_queue.len() > 0
            invariant
                total_order::<T>(),
                tracks(items, maxima, marks),
                self.queue@ == items.push(value),
                self.max_queue@.len() <= maxima.len(),
                self.max_queue@ == maxima.take(self.max_queue@.len() as int),
                forall|k: int|
                    self.max_queue@.len() <= k < marks.len() ==> below(
                        items[#[trigger] marks[k]],
                        value,
                    ),
            ensures
                self.max_queue@.len() > 0 ==> !below(
                    self.max_queue@[self.max_queue@.len() - 1],
                    value,
                ),
            decreases self.max_queue@.len(),
        {
            let last: T = self.max_queue[self.max_queue.len() - 1];
            if !is_below(last, value) {
                break;
            }
            let ghost n = self.max_queue@.len();
            assert(last == items[marks[n - 1]]);
            self.max_queue.pop_back();
            assert(self.max_queue@ =~= maxima.take(n - 1));
        }
        let ghost kept = self.max_queue@.len() as int;
        self.max_queue.push_back(value);
        proof {
            let longer = items.push(value);
            let fresh = marks.take(kept).push(items.len() as int);
            self.marks@ = fresh;
            // Every item that was kept is not less than the new one.
            assert forall|k: int| 0 <= k < kept implies !below(
                items[#[trigger] marks[k]],
                value,
            ) by {
                let last = marks[kept - 1];
                assert(maxima.take(kept)[kept - 1] == items[last]);
                assert(!below(items[last], value));
                if k < kept - 1 {
                    assert(marks[k] < marks[kept - 1]);
                    assert(marks.contains(marks[k]));
                    assert(dominates(items, marks[k]));
                    assert(!below(items[marks[k]], items[last]));
                }
            }
            assert forall|i: int| 0 <= i < longer.len() implies (#[trigger] dominates(longer, i)
                <==> fresh.contains(i)) by {
                if i == items.len() {
                    assert(fresh[kept] == i);
                } else {
                    if dominates(longer, i) {
                        assert(dominates(items, i)) by {
                            assert forall|j: int| i < j < items.len() implies !below(
                                items[i],
                                #[trigger] items[j],
                            ) by {
                                assert(longer[j] == items[j]);
                            }
                        }
                        assert(marks.contains(i));
                        let k = choose|k: int| 0 <= k < marks.len() && marks[k] == i;
                        assert(!below(longer[i], longer[items.len() as int]));
                        assert(k < kept);
                        assert(fresh[k] == i);
                    }
                    if fresh.contains(i) {
                        let k = choose|k: int| 0 <= k < fresh.len() && fresh[k] == i;
                        assert(k < kept);
                        assert(marks[k] == i);
                        assert(marks.contains(i));
                        assert(dominates(items, i));
                        assert forall|j: int| i < j < longer.len() implies !below(
                            longer[i],
                            #[trigger] longer[j],
                        ) by {
                            if j < items.len() {
                                assert(longer[j] == items[j]);
                            }
                        }
                    }
                }
            }
            assert(self.max_queue@ =~= maxima.take(kept).push(value));
        }
    }

    /// Takes the item at the front out of the queue; nothing where the
    /// queue is empty.
    pub fn dequeue(&mut self) -> (front: Option<T>)
        requires
            old(self).wf(),
            total_order::<T>(),
        ensures
            final(self).wf(),
            old(self)@.len() == 0 ==> front is None && final(self)@ == old(self)@,
            old(self)@.len() > 0 ==> front == Some(old(self)@[0]) && final(self)@ == old(
                self,
            )@.drop_first(),
    {
        let ghost items = self.queue@;
        let ghost maxima = self.max_queue@;
        let ghost marks = self.marks@;
        let front: T = match self.queue.pop_front() {
            Some(front) => front,
            None => {
                return None;
            },
        };
        proof {
            lemma_front_is_max(items, maxima, marks);
        }
        let max_front: T = self.max_queue[0];
        let ghost rest = items.drop_first();
        assert(self.queue@ =~= rest);
        let ghost from: int = 0;
        if is_same(front, max_front) {
            self.max_queue.pop_front();
            proof {
                from = 1;
                assert(dominates(items, 0));
                assert(marks.contains(0));
                let k = choose|k: int| 0 <= k < marks.len() && marks[k] == 0;
                if k > 0 {
                    assert(marks[0] < marks[k]);
                }
                assert(marks[0] == 0);
            }
        } else {
            proof {
                assert(marks[0] != 0);
            }
        }
        proof {
            let fresh = shifted(marks, from);
            self.marks@ = fresh;
            assert(self.max_queue@ =~= maxima.skip(from));
            assert forall|k: int| 0 <= k < fresh.len() implies 0 <= #[trigger] fresh[k] < rest.len()
                && self.max_queue@[k] == rest[fresh[k]] by {
                assert(0 <= marks[k + from] < items.len());
                if k + from > 0 {
                    assert(marks[0] < marks[k + from]);
                }
            }
            assert forall|a: int, b: int| 0 <= a < b < fresh.len() implies #[trigger] fresh[a]
                < #[trigger] fresh[b] by {
                assert(marks[a + from] < marks[b + from]);
            }
            assert forall|i: int| 0 <= i < rest.len() implies (#[trigger] dominates(rest, i)
                <==> fresh.contains(i)) by {
                if dominates(rest, i) {
                    assert(dominates(items, i + 1)) by {
                        assert forall|j: int| i + 1 < j < items.len() implies !below(
                            items[i + 1],
                            #[trigger] items[j],
                        ) by {
                            assert(rest[j - 1] == items[j]);
                        }
                    }
                    assert(marks.contains(i + 1));
                    let k = choose|k: int| 0 <= k < marks.len() && marks[k] == i + 1;
                    assert(k >= from);
                    assert(fresh[k - from] == i);
                }
                if fresh.contains(i) {
                    let k = choose|k: int| 0 <= k < fresh.len() && fresh[k] == i;
                    assert(marks[k + from] == i + 1);
                    assert(marks.contains(i + 1));
                    assert(dominates(items, i + 1));
                    assert forall|j: int| i < j < rest.len() implies !below(
                        rest[i],
                        #[trigger] rest[j],
                    ) by {
                        assert(items[j + 1] == rest[j]);
                    }
                }
            }
        }
        Some(front)
    }

    /// The item at the front, which stays in the queue.
    pub fn peek(&self) -> (front: Option<&T>)
        ensures
            front is None <==> self@.len() == 0,
            front is Some ==> *front->Some_0 == self@[0],
    {
        if self.queue.len() == 0 {
            None
        } else {
            Some(&self.queue[0])
        }
    }

    /// A largest item of the queue, which stays in the queue.
    pub fn getmax(&self) -> (largest: Option<&T>)
        requires
            self.wf(),
            total_order::<T>(),
        ensures
            largest is None <==> self@.len() == 0,
            largest is Some ==> is_max(self@, *largest->Some_0),
    {
        proof {
            if self.queue@.len() > 0 {
                lemma_front_is_max(self.queue@, self.max_queue@, self.marks@);
            } else if self.marks@.len() > 0 {
                assert(0 <= self.marks@[0] < self.queue@.len());
            }
        }
        if self.max_queue.len() == 0 {
            None
        } else {
            Some(&self.max_queue[0])
        }
    }

    /// Whether the queue holds nothing.
    pub fn is_empty(&self) -> (empty: bool)
        ensures
            empty == (self@.len() == 0),
    {
        self.queue.len() == 0
    }

    /// How many items the queue holds.
    pub fn len(&self) -> (n: usize)
        ensures
            n == self@.len(),
    {
        self.queue.len()
    }
}

/// In a total order a queue has one largest value only.
pub proof fn lemma_max_unique<T: PartialOrd>(items: Seq<T>, a: T, b: T)
    requires
        total_order::<T>(),
        is_max(items, a),
        is_max(items, b),
    ensures
        a == b,
{
    let i = choose|i: int| 0 <= i < items.len() && items[i] == a;
    let j = choose|j: int| 0 <= j < items.len() && items[j] == b;
    assert(!below(a, items[j]));
    assert(!below(b, items[i]));
}

} // verus!
