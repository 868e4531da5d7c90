//! A max-heap of items with priorities.

use crate::internal::PoolStore;
use crate::priority::PriorityItem;
use crate::sequence::{shrink_vec, swap};
use crate::show::{show, written};
use std::fmt;
use vstd::laws_cmp::obeys_cmp;
use vstd::multiset::Multiset;
use vstd::prelude::*;
use vstd::std_specs::cmp::{PartialOrdIs, PartialOrdSpec};

verus! {

broadcast use vstd::seq_lib::group_to_multiset_ensures;

/// Whether the comparisons of `P` obey the laws of a total order.
pub open spec fn lawful<P: Ord>() -> bool {
    obeys_cmp::<P>()
}

/// Whether the priority of `a` is no higher than that of `b`.
pub open spec fn no_higher<T, P: Ord>(a: PriorityItem<T, P>, b: PriorityItem<T, P>) -> bool {
    a.priority.is_le(&b.priority)
}

/// The order of priorities is that of their type: it is lawful where comparisons of the type are,
/// and `no_higher` is its less-or-equal on the priorities alone.
pub proof fn law_order_is_that_of_priorities<T, P: Ord>(
    a: PriorityItem<T, P>,
    b: PriorityItem<T, P>,
)
    ensures
        lawful::<P>() <==> obeys_cmp::<P>(),
        no_higher(a, b) <==> a.priority.is_le(&b.priority),
{
}

/// The place of the parent of the node at `i`.
spec fn parent(i: int) -> int {
    (i - 1) / 2
}

/// No node has a higher priority than its parent.
spec fn heap_ordered<T, P: Ord>(s: Seq<PriorityItem<T, P>>) -> bool {
    forall|i: int| 0 < i < s.len() ==> no_higher(#[trigger] s[i], s[parent(i)])
}

/// As [`heap_ordered`], but for the node at `pos`, which may have a higher priority than its
/// parent. The children of `pos` are in order with its parent too.
spec fn ordered_but_above<T, P: Ord>(s: Seq<PriorityItem<T, P>>, pos: int) -> bool {
    &&& forall|i: int|
        0 < i < s.len() && i != pos ==> no_higher(#[trigger] s[i], s[parent(i)])
    &&& forall|i: int|
        0 < i < s.len() && parent(i) == pos && pos > 0 ==> no_higher(
            #[trigger] s[i],
            s[parent(pos)],
        )
}

/// As [`ordered_but_above`], but the node at `pos` need not be in order with its children either.
spec fn ordered_but_at<T, P: Ord>(s: Seq<PriorityItem<T, P>>, pos: int) -> bool {
    &&& forall|i: int|
        0 < i < s.len() && i != pos && parent(i) != pos ==> no_higher(
            #[trigger] s[i],
            s[parent(i)],
        )
    &&& forall|i: int|
        0 < i < s.len() && parent(i) == pos && pos > 0 ==> no_higher(
            #[trigger] s[i],
            s[parent(pos)],
        )
}

/// Where the priorities obey the laws of a total order, `no_higher` is reflexive, total and
/// transitive, and is what `<=` computes.
proof fn lemma_no_higher<T, P: Ord>()
    requires
        lawful::<P>(),
    ensures
        PriorityItem::<T, P>::obeys_partial_cmp_spec(),
        forall|a: PriorityItem<T, P>| #[trigger] no_higher(a, a),
        forall|a: PriorityItem<T, P>, b: PriorityItem<T, P>|
            #[trigger] no_higher(a, b) || no_higher(b, a),
        forall|a: PriorityItem<T, P>, b: PriorityItem<T, P>, c: PriorityItem<T, P>|
            #[trigger] no_higher(a, b) && #[trigger] no_higher(b, c) ==> no_higher(a, c),
{
    reveal(vstd::laws_eq::obeys_eq_spec_properties);
    reveal(vstd::laws_cmp::obeys_partial_cmp_spec_properties);
    reveal(vstd::laws_cmp::obeys_cmp_partial_ord);
    reveal(vstd::laws_cmp::obeys_cmp_ord);
}

/// The multiset of one item.
pub(crate) proof fn lemma_one_item<A>(item: A)
    ensures
        seq![item].to_multiset() == Multiset::singleton(item),
{
    assert(seq![item] =~= Seq::<A>::empty().push(item));
    assert(seq![item].to_multiset() =~= Multiset::singleton(item));
}

/// Exchanging two elements keeps the multiset of them.
proof fn lemma_swap_keeps_multiset<A>(s: Seq<A>, a: int, b: int)
    requires
        0 <= a < s.len(),
        0 <= b < s.len(),
    ensures
        s.update(a, s[b]).update(b, s[a]).to_multiset() == s.to_multiset(),
{
    let m = s.to_multiset();
    assert(s.contains(s[a]) && s.contains(s[b]));
    let half = s.update(a, s[b]);
    assert(half.contains(half[b]));
    assert(half.update(b, s[a]).to_multiset() =~= m);
}

/// The root of a heap has the highest priority in it.
proof fn lemma_root_is_highest<T, P: Ord>(s: Seq<PriorityItem<T, P>>, i: int)
    requires
        lawful::<P>(),
        heap_ordered(s),
        0 <= i < s.len(),
    ensures
        no_higher(s[i], s[0]),
    decreases i,
{
    lemma_no_higher::<T, P>();
    if i > 0 {
        lemma_root_is_highest(s, parent(i));
        assert(no_higher(s[i], s[parent(i)]));
    }
}

/// Taking out the first element and putting the last in its place removes one copy of the first.
proof fn lemma_replace_first_by_last<A>(s: Seq<A>)
    requires
        s.len() > 0,
    ensures
        s.len() > 1 ==> s.drop_last().update(0, s.last()).to_multiset() == s.to_multiset().remove(
            s[0],
        ),
        s.len() == 1 ==> s.drop_last().to_multiset() == s.to_multiset().remove(s[0]),
        forall|x: A| s.contains(x) <==> #[trigger] s.to_multiset().contains(x),
{
    assert(s.drop_last().push(s.last()) =~= s);
    assert(s.to_multiset() =~= s.drop_last().to_multiset().insert(s.last()));
    if s.len() > 1 {
        assert(s.drop_last().update(0, s.last()).to_multiset() =~= s.to_multiset().remove(s[0]));
    } else {
        assert(s.drop_last().to_multiset() =~= s.to_multiset().remove(s[0]));
    }
}

/// Exchanging the node at `at` with its parent, whose priority is no higher, leaves only the
/// parent's place to be looked at.
proof fn lemma_one_step_up<T, P: Ord>(s: Seq<PriorityItem<T, P>>, at: int)
    requires
        lawful::<P>(),
        0 < at < s.len(),
        ordered_but_above(s, at),
        no_higher(s[parent(at)], s[at]),
    ensures
        ordered_but_above(s.update(at, s[parent(at)]).update(parent(at), s[at]), parent(at)),
{
    lemma_no_higher::<T, P>();
    let above = parent(at);
    let moved = s.update(at, s[above]).update(above, s[at]);
    assert forall|i: int| 0 < i < moved.len() && i != above implies no_higher(
        #[trigger] moved[i],
        moved[parent(i)],
    ) by {
        assert(no_higher(s[i], s[parent(i)]) || i == at);
    }
    assert forall|i: int| 0 < i < moved.len() && parent(i) == above && above > 0 implies no_higher(
        #[trigger] moved[i],
        moved[parent(above)],
    ) by {
        assert(no_higher(s[above], s[parent(above)]));
        assert(no_higher(s[i], s[parent(i)]) || i == at);
    }
}

/// Exchanging the node at `at` with its child of the higher priority leaves only the child's place
/// to be looked at.
proof fn lemma_one_step_down<T, P: Ord>(s: Seq<PriorityItem<T, P>>, at: int, child: int)
    requires
        lawful::<P>(),
        0 <= at < child < s.len(),
        parent(child) == at,
        ordered_but_at(s, at),
        forall|i: int|
            0 < i < s.len() && parent(i) == at ==> no_higher(#[trigger] s[i], s[child]),
    ensures
        ordered_but_at(s.update(at, s[child]).update(child, s[at]), child),
{
    let moved = s.update(at, s[child]).update(child, s[at]);
    assert forall|i: int|
        0 < i < moved.len() && i != child && parent(i) != child implies no_higher(
        #[trigger] moved[i],
        moved[parent(i)],
    ) by {
        if i == at {
            assert(no_higher(s[child], s[parent(at)]));
        } else if parent(i) == at {
            assert(no_higher(s[i], s[child]));
        } else {
            assert(no_higher(s[i], s[parent(i)]));
        }
    }
    assert forall|i: int| 0 < i < moved.len() && parent(i) == child implies no_higher(
        #[trigger] moved[i],
        moved[parent(child)],
    ) by {
        assert(no_higher(s[i], s[parent(i)]));
    }
}

/// A node without children is in order with them.
proof fn lemma_leaf_is_ordered_below<T, P: Ord>(s: Seq<PriorityItem<T, P>>, at: int)
    requires
        s.len() / 2 <= at < s.len(),
        ordered_but_at(s, at),
    ensures
        ordered_but_above(s, at),
{
    assert forall|i: int| 0 < i < s.len() implies parent(i) != at by {
        assert(i <= 2 * at);
    }
}

/// Moves the node at `pos` up until its parent has no lower priority.
fn sift_up<T, P: Ord>(items: &mut Vec<PriorityItem<T, P>>, pos: usize)
    requires
        pos < old(items)@.len(),
        lawful::<P>() ==> ordered_but_above(old(items)@, pos as int),
    ensures
        final(items)@.to_multiset() == old(items)@.to_multiset(),
        final(items)@.len() == old(items)@.len(),
        lawful::<P>() ==> heap_ordered(final(items)@),
{
    let mut at: usize = pos;
    while at > 0
        invariant
            at < items@.len(),
            items@.len() == old(items)@.len(),
            items@.to_multiset() == old(items)@.to_multiset(),
            lawful::<P>() ==> ordered_but_above(items@, at as int),
        decreases at,
    {
        let above = (at - 1) / 2;
        proof {
            if lawful::<P>() {
                lemma_no_higher::<T, P>();
            }
        }
        if items[at] <= items[above] {
            return;
        }
        proof {
            lemma_swap_keeps_multiset(items@, at as int, above as int);
            if lawful::<P>() {
                lemma_one_step_up(items@, at as int);
            }
        }
        swap(items, at, above);
        at = above;
    }
}

/// Moves the node at the root down to a leaf, each time below its child of higher priority, and
/// from there up again to where it belongs.
fn sift_down_to_bottom<T, P: Ord>(items: &mut Vec<PriorityItem<T, P>>)
    requires
        old(items)@.len() > 0,
        lawful::<P>() ==> ordered_but_at(old(items)@, 0),
    ensures
        final(items)@.to_multiset() == old(items)@.to_multiset(),
        final(items)@.len() == old(items)@.len(),
        lawful::<P>() ==> heap_ordered(final(items)@),
{
    let len = items.len();
    let mut at: usize = 0;
    while at < len / 2
        invariant
            at < len,
            len == items@.len(),
            len == old(items)@.len(),
            items@.to_multiset() == old(items)@.to_multiset(),
            lawful::<P>() ==> ordered_but_at(items@, at as int),
        decreases len - at,
    {
        proof {
            if lawful::<P>() {
                lemma_no_higher::<T, P>();
            }
        }
        let mut child: usize = 2 * at + 1;
        if child + 1 < len && items[child] <= items[child + 1] {
            child = child + 1;
        }
        proof {
            lemma_swap_keeps_multiset(items@, at as int, child as int);
            if lawful::<P>() {
                lemma_one_step_down(items@, at as int, child as int);
            }
        }
        swap(items, at, child);
        at = child;
    }
    proof {
        if lawful::<P>() {
            lemma_leaf_is_ordered_below(items@, at as int);
        }
    }
    sift_up(items, at);
}

/// A binary max-heap of items, ordered by their priorities.
pub struct PriorityHeap<T, P: Ord> {
    items: Vec<PriorityItem<T, P>>,
}

impl<T, P: Ord> View for PriorityHeap<T, P> {
    type V = Multiset<PriorityItem<T, P>>;

    /// What the heap holds.
    closed spec fn view(&self) -> Multiset<PriorityItem<T, P>> {
        self.items@.to_multiset()
    }
}

impl<T: fmt::Debug, P: Ord + fmt::Debug> fmt::Debug for PriorityHeap<T, P> {
    /// Shows the list of items, in the order in which they are kept.
    fn fmt(&self, f: &mut fmt::Formatter<'_>) -> (outcome: fmt::Result)
        ensures
            self.shows(*old(f), outcome),
    {
        show(&self.items, f)
    }
}

impl<T: fmt::Debug, P: Ord + fmt::Debug> PriorityHeap<T, P> {
    /// Whether `outcome` is what writing the list of items to `f` came to.
    pub closed spec fn shows<'f>(self, f: fmt::Formatter<'f>, outcome: fmt::Result) -> bool {
        written(self.items, f, outcome)
    }
}

impl<T, P: Ord> PriorityHeap<T, P> {
    /// Whether the items are in heap order, as far as their priorities obey the laws of a total
    /// order.
    pub closed spec fn in_order(self) -> bool {
        lawful::<P>() ==> heap_ordered(self.items@)
    }

    /// Whether the heap is as made with room for `capacity` items.
    pub closed spec fn made_with_capacity(self, capacity: usize) -> bool {
        call_ensures(Vec::<PriorityItem<T, P>>::with_capacity, (capacity,), self.items)
    }

    /// Whether `after` is what shrinking the list of this heap came to.
    pub closed spec fn shrinks_to(self, after: Self) -> bool {
        call_ensures(shrink_vec::<PriorityItem<T, P>>, (self.items,), after.items)
    }

    /// Makes an empty heap.
    pub fn new() -> (heap: Self)
        ensures
            heap.in_order(),
            heap@ == Multiset::<PriorityItem<T, P>>::empty(),
    {
        PriorityHeap { items: Vec::new() }
    }

    /// Makes an empty heap with room for `capacity` items.
    pub fn with_capacity(capacity: usize) -> (heap: Self)
        ensures
            heap.in_order(),
            heap@ == Multiset::<PriorityItem<T, P>>::empty(),
            heap.made_with_capacity(capacity),
    {
        PriorityHeap { items: Vec::with_capacity(capacity) }
    }

    /// The number of items.
    pub fn len(&self) -> (len: usize)
        ensures
            len == self@.len(),
    {
        self.items.len()
    }

    /// Adds `item`.
    pub fn push(&mut self, item: PriorityItem<T, P>)
        requires
            old(self).in_order(),
        ensures
            final(self).in_order(),
            final(self)@ == old(self)@.insert(item),
    {
        let len = self.items.len();
        self.items.push(item);
        sift_up(&mut self.items, len);
    }

    /// Takes out an item of the highest priority.
    pub fn pop(&mut self) -> (taken: Option<PriorityItem<T, P>>)
        requires
            old(self).in_order(),
        ensures
            final(self).in_order(),
            Self::takes(old(self)@, taken, final(self)@),
    {
        let ghost start = self.items@;
        let taken = match self.items.pop() {
            Some(last) => {
                let mut item = last;
                if self.items.len() > 0 {
                    std::mem::swap(&mut item, &mut self.items[0]);
                    sift_down_to_bottom(&mut self.items);
                }
                Some(item)
            },
            None => None,
        };
        proof {
            if start.len() > 0 {
                lemma_replace_first_by_last(start);
                assert(start.contains(start[0]));
                if lawful::<P>() {
                    assert forall|other: PriorityItem<T, P>| #[trigger]
                        start.to_multiset().contains(other) implies no_higher(other, start[0]) by {
                        let i = start.index_of(other);
                        lemma_root_is_highest(start, i);
                    }
                }
            }
        }
        taken
    }

    /// Gives back spare capacity.
    pub fn shrink_to_fit(&mut self)
        ensures
            final(self).in_order() == old(self).in_order(),
            final(self)@ == old(self)@,
            old(self).shrinks_to(*final(self)),
    {
        let mut items: Vec<PriorityItem<T, P>> = Vec::new();
        std::mem::swap(&mut items, &mut self.items);
        self.items = shrink_vec(items);
    }
}

impl<T, P: Ord> PoolStore for PriorityHeap<T, P> {
    type Item = PriorityItem<T, P>;

    open spec fn size(contents: Multiset<PriorityItem<T, P>>) -> nat {
        contents.len()
    }

    open spec fn holds(
        contents: Multiset<PriorityItem<T, P>>,
        item: PriorityItem<T, P>,
    ) -> bool {
        contents.contains(item)
    }

    open spec fn with_all(
        contents: Multiset<PriorityItem<T, P>>,
        items: Seq<PriorityItem<T, P>>,
    ) -> Multiset<PriorityItem<T, P>> {
        contents.add(items.to_multiset())
    }

    /// An item leaves that no other exceeds in priority. Which one of several leaves is open.
    open spec fn takes(
        before: Multiset<PriorityItem<T, P>>,
        taken: Option<PriorityItem<T, P>>,
        after: Multiset<PriorityItem<T, P>>,
    ) -> bool {
        match taken {
            Some(item) => {
                &&& before.contains(item)
                &&& after == before.remove(item)
                &&& lawful::<P>() ==> forall|other: PriorityItem<T, P>| #[trigger]
                    before.contains(other) ==> no_higher(other, item)
            },
            None => before.len() == 0 && after == before,
        }
    }

    proof fn law_with_none(contents: Multiset<PriorityItem<T, P>>) {
        assert(contents.add(Seq::<PriorityItem<T, P>>::empty().to_multiset()) =~= contents);
    }

    proof fn law_with_one_more(
        contents: Multiset<PriorityItem<T, P>>,
        items: Seq<PriorityItem<T, P>>,
        item: PriorityItem<T, P>,
    ) {
        lemma_one_item(item);
        assert(contents.add(items.push(item).to_multiset()) =~= contents.add(
            items.to_multiset(),
        ).add(seq![item].to_multiset()));
    }

    proof fn law_with_all(
        contents: Multiset<PriorityItem<T, P>>,
        items: Seq<PriorityItem<T, P>>,
    ) {
        assert forall|item: PriorityItem<T, P>| #[trigger]
            Self::with_all(contents, items).contains(item) <==> contents.contains(item)
                || items.contains(item) by {
            assert(items.to_multiset().contains(item) <==> items.contains(item));
        }
    }

    proof fn law_takes(
        before: Multiset<PriorityItem<T, P>>,
        taken: Option<PriorityItem<T, P>>,
        after: Multiset<PriorityItem<T, P>>,
    ) {
    }

    open spec fn wf(&self) -> bool {
        self.in_order()
    }

    fn push(&mut self, item: PriorityItem<T, P>) {
        self.push(item);
        proof {
            lemma_one_item(item);
            assert(self@ =~= old(self)@.add(seq![item].to_multiset()));
        }
    }

    fn pop(&mut self) -> (taken: Option<PriorityItem<T, P>>) {
        self.pop()
    }
}

/// What the heap does as a store, said of multisets: it holds what was added and was not taken out,
/// and what is taken out is held, exceeded in priority by nothing held, and gone once.
pub proof fn law_heap_as_store<T, P: Ord>(
    before: Multiset<PriorityItem<T, P>>,
    items: Seq<PriorityItem<T, P>>,
    item: PriorityItem<T, P>,
    taken: Option<PriorityItem<T, P>>,
    after: Multiset<PriorityItem<T, P>>,
)
    ensures
        PriorityHeap::<T, P>::size(before) == before.len(),
        PriorityHeap::<T, P>::holds(before, item) <==> before.count(item) > 0,
        PriorityHeap::<T, P>::with_all(before, items) == before.add(items.to_multiset()),
        PriorityHeap::<T, P>::takes(before, taken, after) <==> match taken {
            Some(out) => {
                &&& before.count(out) > 0
                &&& after == before.remove(out)
                &&& obeys_cmp::<P>() ==> forall|other: PriorityItem<T, P>| #[trigger]
                    before.contains(other) ==> other.priority.is_le(&out.priority)
            },
            None => before.len() == 0 && after == before,
        },
{
    if let Some(out) = taken {
        if PriorityHeap::<T, P>::takes(before, taken, after) && obeys_cmp::<P>() {
            assert forall|other: PriorityItem<T, P>| #[trigger]
                before.contains(other) implies other.priority.is_le(&out.priority) by {
                assert(no_higher(other, out));
            }
        }
        if (obeys_cmp::<P>() ==> forall|other: PriorityItem<T, P>| #[trigger]
            before.contains(other) ==> other.priority.is_le(&out.priority)) && lawful::<P>() {
            assert forall|other: PriorityItem<T, P>| #[trigger]
                before.contains(other) implies no_higher(other, out) by {}
        }
    }
}

/// What a heap is said to hold is what its list holds, and it is in order if no entry of the list
/// has a higher priority than its parent.
proof fn law_heap_is_its_list<T, P: Ord>(heap: PriorityHeap<T, P>, i: int)
    ensures
        heap@ == heap.items@.to_multiset(),
        heap.in_order() && obeys_cmp::<P>() && 0 < i < heap.items@.len()
            ==> heap.items@[i].priority.is_le(&heap.items@[(i - 1) / 2].priority),
{
    if heap.in_order() && obeys_cmp::<P>() && 0 < i < heap.items@.len() {
        assert(no_higher(heap.items@[i], heap.items@[parent(i)]));
    }
}

/// What a heap is said to show is its list.
proof fn law_heap_shows_its_list<'f, T: fmt::Debug, P: Ord + fmt::Debug>(
    heap: PriorityHeap<T, P>,
    f: fmt::Formatter<'f>,
    outcome: fmt::Result,
)
    requires
        heap.shows(f, outcome),
    ensures
        written(heap.items, f, outcome),
{
}

/// A heap that is said to have been made with a capacity had its list made with it, and one that is
/// said to have been shrunk had its list shrunk.
proof fn law_heap_hands_capacity_on<T, P: Ord>(
    heap: PriorityHeap<T, P>,
    capacity: usize,
    after: PriorityHeap<T, P>,
)
    ensures
        heap.made_with_capacity(capacity) ==> call_ensures(
            Vec::<PriorityItem<T, P>>::with_capacity,
            (capacity,),
            heap.items,
        ),
        heap.shrinks_to(after) ==> call_ensures(
            shrink_vec::<PriorityItem<T, P>>,
            (heap.items,),
            after.items,
        ),
{
}

} // verus!
