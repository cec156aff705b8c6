//! The array-backed min-heap and its restoring operations.
//!
//! The elements form an implicit binary tree over a flat sequence: position
//! `i`'s parent sits at `(i - 1) / 2`, its children at `2i + 1` and `2i + 2`.
//! [`is_heap`] is the heap invariant; `heapify_up` and `heapify_down` are the
//! two local repairs that restore it after an insertion or a removal.

use crate::order::{le_spec, lt_spec, sorted_le, total_order};
use vstd::prelude::*;
use vstd::seq_lib::group_to_multiset_ensures;
use vstd::multiset::group_multiset_axioms;
use vstd::std_specs::cmp::PartialOrdSpec;

verus! {

/// The index of the parent of node `i`, meaningful for `i >= 1`.
pub open spec fn parent_index(i: int) -> int {
    (i - 1) / 2
}

/// The heap invariant: every non-root position is no smaller than its parent.
pub open spec fn is_heap<T: PartialOrd>(s: Seq<T>) -> bool {
    forall|i: int| 1 <= i < s.len() ==> le_spec(s[parent_index(i)], #[trigger] s[i])
}

/// The heap invariant, except that the edges from `j` down to its children
/// need not hold; the second clause keeps `j`'s children no smaller than
/// `j`'s parent, so a swap with a child cannot break the edge above `j`.
pub open spec fn heap_except_down<T: PartialOrd>(s: Seq<T>, j: int) -> bool {
    &&& forall|i: int|
        1 <= i < s.len() && parent_index(i) != j ==> le_spec(s[parent_index(i)], #[trigger] s[i])
    &&& j >= 1 ==> forall|c: int|
        1 <= c < s.len() && parent_index(c) == j ==> le_spec(s[parent_index(j)], #[trigger] s[c])
}

/// The heap invariant, except that the edge from `j`'s parent down to `j`
/// need not hold; the second clause keeps `j`'s children no smaller than
/// `j`'s parent, so a swap with the parent cannot break the edges below `j`.
pub open spec fn heap_except_up<T: PartialOrd>(s: Seq<T>, j: int) -> bool {
    &&& forall|i: int|
        1 <= i < s.len() && i != j ==> le_spec(s[parent_index(i)], #[trigger] s[i])
    &&& j >= 1 ==> forall|c: int|
        1 <= c < s.len() && parent_index(c) == j ==> le_spec(s[parent_index(j)], #[trigger] s[c])
}

/// A growable min-heap over `T`, viewed as the sequence of its elements in
/// array order. The root, when present, is the minimum whenever `T`'s
/// comparison is a total order.
#[derive(Debug)]
pub struct MinHeap<T: PartialOrd + Copy> {
    elements: Vec<T>,
}

impl<T: PartialOrd + Copy> View for MinHeap<T> {
    type V = Seq<T>;

    closed spec fn view(&self) -> Seq<T> {
        self.elements@
    }
}

impl<T: PartialOrd + Copy> MinHeap<T> {
    /// Well-formedness: the heap invariant holds whenever `T`'s comparison
    /// is a total order (for other comparisons no arrangement is promised).
    pub open spec fn wf(&self) -> bool {
        total_order::<T>() ==> is_heap(self@)
    }

    /// An empty heap.
    pub fn new() -> (r: MinHeap<T>)
        ensures
            r@ == Seq::<T>::empty(),
            r.wf(),
    {
        MinHeap { elements: Vec::new() }
    }

    /// The number of elements held.
    pub fn len(&self) -> (r: usize)
        ensures
            r == self@.len(),
    {
        self.elements.len()
    }

    /// True exactly when the heap holds nothing.
    pub fn is_empty(&self) -> (r: bool)
        ensures
            r == (self@.len() == 0),
    {
        self.len() == 0
    }

    /// The elements in array order.
    pub fn to_vec(&self) -> (r: Vec<T>)
        ensures
            r@ == self@,
    {
        let mut r: Vec<T> = Vec::new();
        let mut i: usize = 0;
        while i < self.elements.len()
            invariant
                i <= self@.len(),
                r@ =~= self@.subrange(0, i as int),
            decreases self@.len() - i,
        {
            r.push(self.elements[i]);
            proof {
                assert(r@ =~= self@.subrange(0, i + 1));
            }
            i += 1;
        }
        proof {
            assert(self@.subrange(0, self@.len() as int) =~= self@);
        }
        r
    }

    /// The parent position of `node_idx`, or `None` at the root.
    fn get_parent_idx(&self, node_idx: usize) -> (r: Option<usize>)
        ensures
            match r {
                None => node_idx == 0,
                Some(p) => node_idx > 0 && p < node_idx && p as int == parent_index(
                    node_idx as int,
                ),
            },
    {
        if node_idx == 0 {
            return None;
        }
        let parent_idx: usize;
        if node_idx % 2 == 0 {
            parent_idx = node_idx / 2 - 1;
            proof {
                assert(node_idx / 2 - 1 == (node_idx - 1) as int / 2) by (nonlinear_arith)
                    requires
                        node_idx >= 2,
                        node_idx % 2 == 0,
                ;
            }
        } else {
            parent_idx = (node_idx - 1) / 2;
        }
        Some(parent_idx)
    }

    /// The left child position of `node_idx`, or `None` when it is past the
    /// end of the array.
    fn get_left_child_idx(&self, node_idx: usize) -> (r: Option<usize>)
        ensures
            match r {
                None => 2 * (node_idx as int) + 1 >= self@.len(),
                Some(c) => c as int == 2 * (node_idx as int) + 1 && (c as int) < self@.len(),
            },
    {
        let len = self.elements.len();
        if node_idx < len / 2 {
            Some(node_idx * 2 + 1)
        } else {
            None
        }
    }

    /// The right child position of `node_idx`, or `None` when it is past the
    /// end of the array.
    fn get_right_child_idx(&self, node_idx: usize) -> (r: Option<usize>)
        ensures
            match r {
                None => 2 * (node_idx as int) + 2 >= self@.len(),
                Some(c) => c as int == 2 * (node_idx as int) + 2 && (c as int) < self@.len(),
            },
    {
        let len = self.elements.len();
        if len >= 1 && node_idx < (len - 1) / 2 {
            Some(node_idx * 2 + 2)
        } else {
            None
        }
    }

    /// Whether the element at `idx1` compares strictly below the one at
    /// `idx2`.
    fn in_order(&self, idx1: usize, idx2: usize) -> (r: bool)
        requires
            idx1 < self@.len(),
            idx2 < self@.len(),
        ensures
            T::obeys_partial_cmp_spec() ==> (r <==> lt_spec(self@[idx1 as int], self@[idx2 as int])),
    {
        let a = self.elements[idx1];
        let b = self.elements[idx2];
        a.lt(&b)
    }

    /// Exchanges the elements at `idx1` and `idx2`.
    fn swap(&mut self, idx1: usize, idx2: usize)
        requires
            idx1 < old(self)@.len(),
            idx2 < old(self)@.len(),
        ensures
            final(self)@ == old(self)@.update(idx1 as int, old(self)@[idx2 as int]).update(
                idx2 as int,
                old(self)@[idx1 as int],
            ),
            final(self)@.len() == old(self)@.len(),
            final(self)@.to_multiset() == old(self)@.to_multiset(),
    {
        let a = self.elements[idx1];
        let b = self.elements[idx2];
        self.elements.set(idx1, b);
        self.elements.set(idx2, a);
        proof {
            lemma_swap_multiset(old(self)@, idx1 as int, idx2 as int);
        }
    }

    /// Restores the heap invariant by walking the element at `start` up the
    /// parent chain until it no longer sits strictly below its parent.
    fn heapify_up(&mut self, start: usize)
        requires
            start < old(self)@.len(),
            total_order::<T>() ==> heap_except_up(old(self)@, start as int),
        ensures
            final(self)@.len() == old(self)@.len(),
            final(self)@.to_multiset() == old(self)@.to_multiset(),
            total_order::<T>() ==> is_heap(final(self)@),
            forall|i: int|
                (start as int) < i < old(self)@.len() ==> final(self)@[i] == old(self)@[i],
    {
        let mut idx = start;
        loop
            invariant
                idx <= start < self@.len(),
                self@.len() == old(self)@.len(),
                self@.to_multiset() == old(self)@.to_multiset(),
                total_order::<T>() ==> heap_except_up(self@, idx as int),
                forall|i: int| (start as int) < i < self@.len() ==> self@[i] == old(self)@[i],
            ensures
                self@.len() == old(self)@.len(),
                self@.to_multiset() == old(self)@.to_multiset(),
                total_order::<T>() ==> is_heap(self@),
                forall|i: int| (start as int) < i < self@.len() ==> self@[i] == old(self)@[i],
            decreases idx,
        {
            if let Some(parent_idx) = self.get_parent_idx(idx) {
                if self.in_order(parent_idx, idx) {
                    proof {
                        if total_order::<T>() {
                            assert forall|i: int| 1 <= i < self@.len() implies le_spec(
                                self@[parent_index(i)],
                                #[trigger] self@[i],
                            ) by {
                                if i == idx as int {
                                    lemma_lt_le(self@[parent_index(i)], self@[i]);
                                }
                            }
                        }
                    }
                    break;
                }
                proof {
                    if total_order::<T>() {
                        lemma_up_swap(self@, idx as int);
                    }
                }
                self.swap(parent_idx, idx);
                idx = parent_idx;
            } else {
                proof {
                    if total_order::<T>() {
                        assert forall|i: int| 1 <= i < self@.len() implies le_spec(
                            self@[parent_index(i)],
                            #[trigger] self@[i],
                        ) by {}
                    }
                }
                break;
            }
        }
    }

    /// Restores the heap invariant by walking the element at `start` down,
    /// swapping it with its smaller child until it precedes both children.
    fn heapify_down(&mut self, start: usize)
        requires
            start <= old(self)@.len(),
        ensures
            final(self)@.len() == old(self)@.len(),
            final(self)@.to_multiset() == old(self)@.to_multiset(),
            total_order::<T>() && heap_except_down(old(self)@, start as int) ==> is_heap(
                final(self)@,
            ),
            2 * (start as int) + 1 >= old(self)@.len() ==> final(self)@ == old(self)@,
            forall|i: int| 0 <= i < (start as int) ==> final(self)@[i] == old(self)@[i],
    {
        let mut idx = start;
        loop
            invariant
                start <= idx <= self@.len(),
                self@.len() == old(self)@.len(),
                self@.to_multiset() == old(self)@.to_multiset(),
                total_order::<T>() && heap_except_down(old(self)@, start as int)
                    ==> heap_except_down(self@, idx as int),
                2 * (start as int) + 1 >= old(self)@.len() ==> self@ == old(self)@ && idx == start,
                forall|i: int| 0 <= i < (start as int) ==> self@[i] == old(self)@[i],
            ensures
                self@.len() == old(self)@.len(),
                self@.to_multiset() == old(self)@.to_multiset(),
                total_order::<T>() && heap_except_down(old(self)@, start as int) ==> is_heap(
                    self@,
                ),
                2 * (start as int) + 1 >= old(self)@.len() ==> self@ == old(self)@,
                forall|i: int| 0 <= i < (start as int) ==> self@[i] == old(self)@[i],
            decreases self@.len() - idx,
        {
            if let Some(left_idx) = self.get_left_child_idx(idx) {
                let mut best_child_idx = left_idx;
                if let Some(right_idx) = self.get_right_child_idx(idx) {
                    if self.in_order(right_idx, left_idx) {
                        best_child_idx = right_idx;
                    }
                }
                if self.in_order(idx, best_child_idx) {
                    proof {
                        if total_order::<T>() && heap_except_down(
                            old(self)@,
                            start as int,
                        ) {
                            let s = self@;
                            let j = idx as int;
                            let b = best_child_idx as int;
                            assert forall|c: int|
                                (c == 2 * j + 1 || c == 2 * j + 2) && 0 <= c < s.len() implies le_spec(
                                s[j],
                                #[trigger] s[c],
                            ) by {
                                lemma_lt_le(s[j], s[b]);
                                if c != b {
                                    if b == 2 * j + 2 {
                                        lemma_lt_le(s[b], s[c]);
                                    }
                                    assert(le_spec(s[b], s[c]));
                                    assert(le_spec(s[j], s[c]));
                                }
                            }
                            lemma_down_done(s, j);
                        }
                    }
                    break;
                }
                proof {
                    if total_order::<T>() && heap_except_down(old(self)@, start as int) {
                        let s = self@;
                        let j = idx as int;
                        let b = best_child_idx as int;
                        if b == 2 * j + 2 {
                            lemma_lt_le(s[b], s[2 * j + 1]);
                        }
                        lemma_down_swap(s, j, b);
                    }
                }
                self.swap(idx, best_child_idx);
                idx = best_child_idx;
            } else {
                proof {
                    if total_order::<T>() && heap_except_down(old(self)@, start as int) {
                        lemma_down_done(self@, idx as int);
                    }
                }
                break;
            }
        }
    }

    /// Removes the element at position `idx` by swapping the last element
    /// into its place, then sifting that element up or down as its
    /// comparison with the new parent demands, so the heap shape is always
    /// restored. Removing the last position simply drops it.
    pub fn remove(&mut self, idx: usize)
        requires
            old(self).wf(),
            idx < old(self)@.len(),
        ensures
            final(self).wf(),
            final(self)@.len() == old(self)@.len() - 1,
            final(self)@.to_multiset() == old(self)@.to_multiset().remove(old(self)@[idx as int]),
            idx == old(self)@.len() - 1 ==> final(self)@ == old(self)@.drop_last(),
    {
        let last = self.elements.len() - 1;
        self.swap(idx, last);
        self.elements.pop();
        proof {
            let s = old(self)@;
            let n = s.len() as int;
            assert(self@ =~= s.update(idx as int, s[n - 1]).drop_last());
            lemma_remove_multiset(s, idx as int);
            if idx as int == n - 1 {
                assert(self@ =~= s.drop_last());
            }
        }
        if idx < self.elements.len() {
            let mut sift_up = false;
            if let Some(parent_idx) = self.get_parent_idx(idx) {
                sift_up = self.in_order(idx, parent_idx);
            }
            if sift_up {
                proof {
                    if total_order::<T>() {
                        lemma_remove_prepares_up(old(self)@, idx as int);
                    }
                }
                self.heapify_up(idx);
            } else {
                proof {
                    if total_order::<T>() {
                        lemma_remove_prepares_down(old(self)@, idx as int);
                    }
                }
                self.heapify_down(idx);
            }
        } else {
            proof {
                if total_order::<T>() {
                    lemma_heap_drop_last(old(self)@);
                }
            }
        }
    }

    /// Returns the minimum — the root — and removes it.
    pub fn extract_min(&mut self) -> (r: T)
        requires
            old(self).wf(),
            old(self)@.len() > 0,
        ensures
            r == old(self)@[0],
            final(self).wf(),
            final(self)@.len() == old(self)@.len() - 1,
            final(self)@.to_multiset() == old(self)@.to_multiset().remove(r),
            total_order::<T>() ==> forall|i: int|
                0 <= i < final(self)@.len() ==> le_spec(r, #[trigger] final(self)@[i]),
    {
        let ret_val = self.elements[0];
        proof {
            if total_order::<T>() {
                lemma_root_is_min(self@);
            }
        }
        self.remove(0);
        proof {
            if total_order::<T>() {
                broadcast use group_to_multiset_ensures;
                broadcast use group_multiset_axioms;

                assert forall|i: int| 0 <= i < self@.len() implies le_spec(
                    ret_val,
                    #[trigger] self@[i],
                ) by {
                    let x = self@[i];
                    assert(self@.contains(x));
                    assert(self@.to_multiset().count(x) > 0);
                    assert(old(self)@.to_multiset().count(x) > 0);
                    assert(old(self)@.contains(x));
                    let j = choose|j: int| 0 <= j < old(self)@.len() && old(self)@[j] == x;
                    assert(le_spec(ret_val, old(self)@[j]));
                }
            }
        }
        ret_val
    }

    /// Appends `x` at the end of the array, then sifts it up.
    pub fn insert(&mut self, x: T)
        requires
            old(self).wf(),
        ensures
            final(self).wf(),
            final(self)@.len() == old(self)@.len() + 1,
            final(self)@.to_multiset() == old(self)@.to_multiset().insert(x),
    {
        self.elements.push(x);
        proof {
            if total_order::<T>() {
                let s = self@;
                let j = s.len() - 1;
                assert forall|i: int| 1 <= i < s.len() && i != j implies le_spec(
                    s[parent_index(i)],
                    #[trigger] s[i],
                ) by {
                    lemma_parent_bounds(i);
                    assert(s[i] == old(self)@[i]);
                    assert(s[parent_index(i)] == old(self)@[parent_index(i)]);
                }
                if j >= 1 {
                    assert forall|c: int| 1 <= c < s.len() && parent_index(c) == j implies le_spec(
                        s[parent_index(j)],
                        #[trigger] s[c],
                    ) by {
                        lemma_children_of(j, c);
                    }
                }
                assert(heap_except_up(s, j));
            }
        }
        self.heapify_up(self.elements.len() - 1);
        proof {
            broadcast use group_to_multiset_ensures;

            assert(old(self)@.push(x).to_multiset() == old(self)@.to_multiset().insert(x));
        }
    }

    /// A heap holding exactly the elements of `values` (duplicates kept),
    /// built by inserting them in input order.
    pub fn from_seq(values: &Vec<T>) -> (r: MinHeap<T>)
        ensures
            r.wf(),
            r@.len() == values@.len(),
            r@.to_multiset() == values@.to_multiset(),
    {
        let mut heap: MinHeap<T> = MinHeap::new();
        proof {
            assert(heap@ =~= values@.subrange(0, 0));
        }
        let mut i: usize = 0;
        while i < values.len()
            invariant
                i <= values@.len(),
                heap.wf(),
                heap@.len() == i,
                heap@.to_multiset() == values@.subrange(0, i as int).to_multiset(),
            decreases values@.len() - i,
        {
            heap.insert(values[i]);
            proof {
                broadcast use group_to_multiset_ensures;

                assert(values@.subrange(0, i + 1) =~= values@.subrange(0, i as int).push(
                    values@[i as int],
                ));
                assert(values@.subrange(0, i as int).push(values@[i as int]).to_multiset()
                    == values@.subrange(0, i as int).to_multiset().insert(values@[i as int]));
            }
            i += 1;
        }
        proof {
            assert(values@.subrange(0, values@.len() as int) =~= values@);
        }
        heap
    }

    /// Heap-sort: builds a heap from `values`, then extracts the minimum
    /// back into the input's storage until the heap is drained. The result
    /// holds the same multiset of elements, in non-decreasing order whenever
    /// `T`'s comparison is a total order.
    pub fn sort(values: Vec<T>) -> (r: Vec<T>)
        ensures
            r@.len() == values@.len(),
            r@.to_multiset() == values@.to_multiset(),
            total_order::<T>() ==> sorted_le(r@),
    {
        let ghost orig = values@;
        let mut heap = MinHeap::from_seq(&values);
        let mut out = values;
        let n = out.len();
        proof {
            assert(out@.subrange(0, 0) =~= Seq::<T>::empty());
            assert(Seq::<T>::empty().to_multiset().add(heap@.to_multiset())
                =~= heap@.to_multiset()) by {
                broadcast use group_to_multiset_ensures;
                broadcast use group_multiset_axioms;

            }
        }
        let mut i: usize = 0;
        while i < n
            invariant
                i <= n,
                n == out@.len(),
                heap.wf(),
                heap@.len() == n - i,
                out@.subrange(0, i as int).to_multiset().add(heap@.to_multiset())
                    == orig.to_multiset(),
                total_order::<T>() ==> sorted_le(out@.subrange(0, i as int)),
                total_order::<T>() ==> forall|p: int, q: int|
                    0 <= p < i && 0 <= q < heap@.len() ==> #[trigger] le_spec(out@[p], heap@[q]),
            decreases n - i,
        {
            let ghost heap0 = heap@;
            let ghost out0 = out@;
            let m = heap.extract_min();
            out.set(i, m);
            proof {
                broadcast use group_to_multiset_ensures;
                broadcast use group_multiset_axioms;

                let ghost heap1 = heap@;
                assert(out@.subrange(0, i as int) =~= out0.subrange(0, i as int));
                assert(out@.subrange(0, i + 1) =~= out0.subrange(0, i as int).push(m));
                assert(heap0.contains(heap0[0]));
                assert(heap0.to_multiset().count(m) > 0);
                assert(out@.subrange(0, i + 1).to_multiset().add(heap1.to_multiset())
                    =~= out0.subrange(0, i as int).to_multiset().add(heap0.to_multiset()));
                if total_order::<T>() {
                    let newpre = out@.subrange(0, i + 1);
                    assert forall|p: int, q: int| 0 <= p < q < newpre.len() implies le_spec(
                        #[trigger] newpre[p],
                        #[trigger] newpre[q],
                    ) by {
                        if q == i as int {
                            assert(le_spec(out0[p], heap0[0]));
                        } else {
                            assert(le_spec(out0.subrange(0, i as int)[p], out0.subrange(
                                0,
                                i as int,
                            )[q]));
                        }
                    }
                    assert forall|p: int, q: int|
                        0 <= p < i + 1 && 0 <= q < heap1.len() implies #[trigger] le_spec(
                        out@[p],
                        heap1[q],
                    ) by {
                        if p < i as int {
                            let x = heap1[q];
                            assert(heap1.contains(x));
                            assert(heap1.to_multiset().count(x) > 0);
                            assert(heap0.to_multiset().count(x) > 0);
                            assert(heap0.contains(x));
                            let qq = choose|qq: int| 0 <= qq < heap0.len() && heap0[qq] == x;
                            assert(le_spec(out0[p], heap0[qq]));
                        }
                    }
                }
            }
            i += 1;
        }
        proof {
            broadcast use group_to_multiset_ensures;
            broadcast use group_multiset_axioms;

            assert(out@.subrange(0, n as int) =~= out@);
            assert(heap@ =~= Seq::<T>::empty());
            assert(out@.to_multiset().add(heap@.to_multiset()) =~= out@.to_multiset());
        }
        out
    }

    /// The smallest element, which sits at the root.
    pub fn min(&self) -> (r: T)
        requires
            self.wf(),
            self@.len() > 0,
        ensures
            r == self@[0],
            total_order::<T>() ==> forall|i: int|
                0 <= i < self@.len() ==> le_spec(r, #[trigger] self@[i]),
    {
        proof {
            if total_order::<T>() {
                lemma_root_is_min(self@);
            }
        }
        self.elements[0]
    }
}

/// A node's parent sits strictly below it, at a valid position.
proof fn lemma_parent_bounds(c: int)
    requires
        1 <= c,
    ensures
        0 <= parent_index(c) < c,
{
    assert(0 <= (c - 1) / 2 && (c - 1) / 2 < c) by (nonlinear_arith)
        requires
            1 <= c,
    ;
}

/// The only positions whose parent is `j` are `2j + 1` and `2j + 2`.
proof fn lemma_children_of(j: int, c: int)
    requires
        1 <= c,
        parent_index(c) == j,
    ensures
        c == 2 * j + 1 || c == 2 * j + 2,
{
    assert((c - 1) / 2 == j ==> c == 2 * j + 1 || c == 2 * j + 2) by (nonlinear_arith)
        requires
            1 <= c,
    ;
}

/// In a total order a strict comparison implies the non-strict one.
proof fn lemma_lt_le<T: PartialOrd>(a: T, b: T)
    requires
        total_order::<T>(),
        lt_spec(a, b),
    ensures
        le_spec(a, b),
{
    assert(le_spec(a, b) || le_spec(b, a));
}

/// One sift-up step: when `j`'s element does not sit strictly above its
/// parent's, swapping the two leaves the tree a heap except at the parent's
/// position.
proof fn lemma_up_swap<T: PartialOrd>(s: Seq<T>, j: int)
    requires
        total_order::<T>(),
        1 <= j < s.len(),
        heap_except_up(s, j),
        !lt_spec(s[parent_index(j)], s[j]),
    ensures
        heap_except_up(
            s.update(parent_index(j), s[j]).update(j, s[parent_index(j)]),
            parent_index(j),
        ),
{
    let p = parent_index(j);
    lemma_parent_bounds(j);
    let t = s.update(p, s[j]).update(j, s[p]);
    assert(le_spec(s[j], s[p]));
    assert forall|i: int| 1 <= i < t.len() && i != p implies le_spec(
        t[parent_index(i)],
        #[trigger] t[i],
    ) by {
        lemma_parent_bounds(i);
        let q = parent_index(i);
        if i == j {
            assert(t[q] == s[j] && t[i] == s[p]);
        } else if q == j {
            lemma_children_of(j, i);
            assert(le_spec(s[p], s[i]));
            assert(t[q] == s[p] && t[i] == s[i]);
        } else if q == p {
            assert(le_spec(s[q], s[i]));
            assert(le_spec(s[j], s[i]));
            assert(t[q] == s[j] && t[i] == s[i]);
        } else {
            assert(le_spec(s[q], s[i]));
            assert(t[q] == s[q] && t[i] == s[i]);
        }
    }
    if p >= 1 {
        let g = parent_index(p);
        lemma_parent_bounds(p);
        assert forall|c: int| 1 <= c < t.len() && parent_index(c) == p implies le_spec(
            t[parent_index(p)],
            #[trigger] t[c],
        ) by {
            assert(le_spec(s[g], s[p]));
            assert(t[g] == s[g]);
            if c == j {
                assert(t[c] == s[p]);
            } else {
                assert(le_spec(s[p], s[c]));
                assert(le_spec(s[g], s[c]));
                assert(t[c] == s[c]);
            }
        }
    }
}

/// One sift-down step: when the smallest child `c` of `j` does not sit
/// strictly above `j`'s element, swapping the two leaves the tree a heap
/// except at the child's position.
proof fn lemma_down_swap<T: PartialOrd>(s: Seq<T>, j: int, c: int)
    requires
        total_order::<T>(),
        heap_except_down(s, j),
        0 <= j < s.len(),
        c == 2 * j + 1 || c == 2 * j + 2,
        c < s.len(),
        2 * j + 1 < s.len() && c != 2 * j + 1 ==> le_spec(s[c], s[2 * j + 1]),
        2 * j + 2 < s.len() && c != 2 * j + 2 ==> le_spec(s[c], s[2 * j + 2]),
        le_spec(s[c], s[j]),
    ensures
        heap_except_down(s.update(j, s[c]).update(c, s[j]), c),
{
    lemma_parent_of_children(j);
    let t = s.update(j, s[c]).update(c, s[j]);
    assert forall|i: int| 1 <= i < t.len() && parent_index(i) != c implies le_spec(
        t[parent_index(i)],
        #[trigger] t[i],
    ) by {
        lemma_parent_bounds(i);
        let q = parent_index(i);
        if i == c {
            assert(t[q] == s[c] && t[i] == s[j]);
        } else if i == j {
            assert(le_spec(s[q], s[c]));
            assert(t[q] == s[q] && t[i] == s[c]);
        } else if q == j {
            lemma_children_of(j, i);
            assert(le_spec(s[c], s[i]));
            assert(t[q] == s[c] && t[i] == s[i]);
        } else {
            assert(le_spec(s[q], s[i]));
            assert(t[q] == s[q] && t[i] == s[i]);
        }
    }
    assert forall|g: int| 1 <= g < t.len() && parent_index(g) == c implies le_spec(
        t[parent_index(c)],
        #[trigger] t[g],
    ) by {
        lemma_parent_bounds(g);
        assert(le_spec(s[c], s[g]));
        assert(t[parent_index(c)] == s[c] && t[g] == s[g]);
    }
}

/// When `j`'s element precedes both of its children, a tree that was a heap
/// except below `j` is a heap outright.
proof fn lemma_down_done<T: PartialOrd>(s: Seq<T>, j: int)
    requires
        total_order::<T>(),
        heap_except_down(s, j),
        0 <= j,
        forall|c: int|
            (c == 2 * j + 1 || c == 2 * j + 2) && 0 <= c < s.len() ==> le_spec(
                s[j],
                #[trigger] s[c],
            ),
    ensures
        is_heap(s),
{
    assert forall|i: int| 1 <= i < s.len() implies le_spec(s[parent_index(i)], #[trigger] s[i]) by {
        if parent_index(i) == j {
            lemma_children_of(j, i);
        }
    }
}

/// The positions `2j + 1` and `2j + 2` have `j` as their parent.
proof fn lemma_parent_of_children(j: int)
    requires
        0 <= j,
    ensures
        parent_index(2 * j + 1) == j,
        parent_index(2 * j + 2) == j,
{
    assert((2 * j + 1 - 1) / 2 == j && (2 * j + 2 - 1) / 2 == j) by (nonlinear_arith)
        requires
            0 <= j,
    ;
}

/// Dropping the last element of a heap leaves a heap: the remaining edges
/// are a subset of the original ones.
proof fn lemma_heap_drop_last<T: PartialOrd>(s: Seq<T>)
    requires
        total_order::<T>(),
        is_heap(s),
        s.len() >= 1,
    ensures
        is_heap(s.drop_last()),
{
    let t = s.drop_last();
    assert forall|i: int| 1 <= i < t.len() implies le_spec(t[parent_index(i)], #[trigger] t[i]) by {
        lemma_parent_bounds(i);
        assert(t[i] == s[i] && t[parent_index(i)] == s[parent_index(i)]);
        assert(le_spec(s[parent_index(i)], s[i]));
    }
}

/// Swapping position `idx` with the last and dropping the last leaves a tree
/// that is a heap except below `idx`, provided the element moved into `idx`
/// does not undercut its new parent.
proof fn lemma_remove_prepares_down<T: PartialOrd>(s: Seq<T>, idx: int)
    requires
        total_order::<T>(),
        is_heap(s),
        0 <= idx < s.len() - 1,
        idx >= 1 ==> le_spec(s[parent_index(idx)], s[s.len() - 1]),
    ensures
        heap_except_down(s.update(idx, s[s.len() - 1]).drop_last(), idx),
{
    let n = s.len() as int;
    let t = s.update(idx, s[n - 1]).drop_last();
    assert forall|i: int| 1 <= i < t.len() && parent_index(i) != idx implies le_spec(
        t[parent_index(i)],
        #[trigger] t[i],
    ) by {
        lemma_parent_bounds(i);
        let q = parent_index(i);
        if i == idx {
            assert(le_spec(s[q], s[n - 1]));
            assert(t[q] == s[q] && t[i] == s[n - 1]);
        } else {
            assert(le_spec(s[q], s[i]));
            assert(t[i] == s[i]);
        }
    }
    if idx >= 1 {
        let p = parent_index(idx);
        lemma_parent_bounds(idx);
        assert forall|c: int| 1 <= c < t.len() && parent_index(c) == idx implies le_spec(
            t[parent_index(idx)],
            #[trigger] t[c],
        ) by {
            assert(le_spec(s[p], s[idx]));
            assert(le_spec(s[idx], s[c]));
            assert(le_spec(s[p], s[c]));
            assert(t[p] == s[p] && t[c] == s[c]);
        }
    }
}

/// Swapping position `idx` with the last and dropping the last leaves a tree
/// that is a heap except above `idx`, when the element moved into `idx`
/// undercuts its new parent: it then also precedes `idx`'s children, which
/// dominate that parent, so only the upward edge needs repair.
proof fn lemma_remove_prepares_up<T: PartialOrd>(s: Seq<T>, idx: int)
    requires
        total_order::<T>(),
        is_heap(s),
        1 <= idx < s.len() - 1,
        lt_spec(s[s.len() - 1], s[parent_index(idx)]),
    ensures
        heap_except_up(s.update(idx, s[s.len() - 1]).drop_last(), idx),
{
    let n = s.len() as int;
    let m = s[n - 1];
    let p = parent_index(idx);
    lemma_parent_bounds(idx);
    lemma_lt_le(m, s[p]);
    let t = s.update(idx, m).drop_last();
    assert forall|i: int| 1 <= i < t.len() && i != idx implies le_spec(
        t[parent_index(i)],
        #[trigger] t[i],
    ) by {
        lemma_parent_bounds(i);
        let q = parent_index(i);
        if q == idx {
            assert(le_spec(s[p], s[idx]));
            assert(le_spec(s[idx], s[i]));
            assert(le_spec(m, s[i]));
            assert(t[q] == m && t[i] == s[i]);
        } else {
            assert(le_spec(s[q], s[i]));
            assert(t[q] == s[q] && t[i] == s[i]);
        }
    }
    assert forall|c: int| 1 <= c < t.len() && parent_index(c) == idx implies le_spec(
        t[parent_index(idx)],
        #[trigger] t[c],
    ) by {
        assert(le_spec(s[p], s[idx]));
        assert(le_spec(s[idx], s[c]));
        assert(le_spec(s[p], s[c]));
        assert(t[p] == s[p] && t[c] == s[c]);
    }
}

/// Overwriting position `idx` with the last element and dropping the last
/// removes exactly one occurrence of the element at `idx`.
proof fn lemma_remove_multiset<T>(s: Seq<T>, idx: int)
    requires
        0 <= idx < s.len(),
    ensures
        s.update(idx, s[s.len() - 1]).drop_last().to_multiset() == s.to_multiset().remove(s[idx]),
{
    broadcast use group_to_multiset_ensures;
    broadcast use group_multiset_axioms;

    let n = s.len() as int;
    let s1 = s.update(idx, s[n - 1]);
    if idx == n - 1 {
        assert(s1 =~= s);
        assert(s1.drop_last() =~= s.remove(n - 1));
    } else {
        assert(s1.drop_last() =~= s1.remove(n - 1));
        assert(s1[n - 1] == s[n - 1]);
        assert(s.contains(s[idx]));
        assert(s.contains(s[n - 1]));
        assert(s1.remove(n - 1).to_multiset() =~= s.to_multiset().remove(s[idx]));
    }
}

/// In a heap the root precedes the element at any position `i`, by walking
/// the parent chain down from `i`.
proof fn lemma_root_le<T: PartialOrd>(s: Seq<T>, i: int)
    requires
        total_order::<T>(),
        is_heap(s),
        0 <= i < s.len(),
    ensures
        le_spec(s[0], s[i]),
    decreases i,
{
    if i == 0 {
        assert(le_spec(s[0], s[0]) || le_spec(s[0], s[0]));
    } else {
        let p = parent_index(i);
        lemma_parent_bounds(i);
        lemma_root_le(s, p);
        assert(le_spec(s[p], s[i]));
        assert(le_spec(s[0], s[i]));
    }
}

/// Law: in a well-formed heap the root is a least element.
pub proof fn lemma_root_is_min<T: PartialOrd>(s: Seq<T>)
    requires
        total_order::<T>(),
        is_heap(s),
        s.len() > 0,
    ensures
        forall|i: int| 0 <= i < s.len() ==> le_spec(s[0], #[trigger] s[i]),
{
    assert forall|i: int| 0 <= i < s.len() implies le_spec(s[0], #[trigger] s[i]) by {
        lemma_root_le(s, i);
    }
}

/// Swapping two positions rearranges the sequence but keeps its multiset.
proof fn lemma_swap_multiset<T>(s: Seq<T>, i: int, j: int)
    requires
        0 <= i < s.len(),
        0 <= j < s.len(),
    ensures
        s.update(i, s[j]).update(j, s[i]).to_multiset() == s.to_multiset(),
{
    broadcast use group_to_multiset_ensures;
    broadcast use group_multiset_axioms;

    if i == j {
        assert(s.update(i, s[j]).update(j, s[i]) =~= s);
    } else {
        let s1 = s.update(i, s[j]);
        assert(s1[j] == s[j]);
        assert(s.contains(s[i]));
        assert(s1.contains(s1[j]));
        assert(s1.update(j, s[i]).to_multiset() =~= s.to_multiset());
    }
}

} // verus!
