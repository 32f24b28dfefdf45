//! An array-backed binary heap with a pluggable ordering rule.
//!
//! The heap stores its elements in a vector, root at position 0: the
//! parent of position `i` is `(i - 1) / 2`, its children sit at `2 * i + 1`
//! and `2 * i + 2`. Which element counts as "higher priority" is decided
//! by a comparator supplied at construction; `MinHeap` and `MaxHeap` are
//! the two ready-made comparators over a total order.

use vstd::prelude::*;
use vstd::multiset::Multiset;
use crate::order::{Comparison, TotalOrder};
use crate::vecops::{exchange, lemma_exchange_to_multiset, lemma_pull_first_to_multiset};

verus! {

/// A priority rule. `outranks(a, b)` holds when `a` must sit strictly
/// closer to the root than `b`; it is expected to be a strict weak
/// ordering, which the three proof methods oblige every implementation
/// to show.
pub trait Comparator<T>: Sized {
    /// `a` belongs strictly above `b`.
    spec fn outranks(self, a: T, b: T) -> bool;

    /// Executable comparison agreeing with `outranks`.
    fn higher(&self, a: &T, b: &T) -> (r: bool)
        ensures
            r == self.outranks(*a, *b),
    ;

    /// No two values outrank each other at once.
    proof fn lemma_asymmetric(self, a: T, b: T)
        ensures
            self.outranks(a, b) ==> !self.outranks(b, a),
    ;

    /// Whatever outranks `b` also outranks everything `b` is not
    /// outranked by.
    proof fn lemma_outranks_compose(self, a: T, b: T, c: T)
        ensures
            self.outranks(a, b) && !self.outranks(c, b) ==> self.outranks(a, c),
    ;

    /// "Does not outrank" composes.
    proof fn lemma_not_outranks_transitive(self, a: T, b: T, c: T)
        ensures
            !self.outranks(b, a) && !self.outranks(c, b) ==> !self.outranks(c, a),
    ;
}

/// Position of the parent of position `i`.
pub open spec fn parent_of(i: int) -> int {
    (i - 1) / 2
}

/// Position `i` does not violate the heap order towards its parent.
pub open spec fn edge_ok<T, P: Comparator<T>>(p: P, s: Seq<T>, i: int) -> bool
    recommends
        1 <= i < s.len(),
{
    !p.outranks(s[i], s[parent_of(i)])
}

/// The heap-order invariant: no element outranks its parent.
pub open spec fn heap_ordered<T, P: Comparator<T>>(p: P, s: Seq<T>) -> bool {
    forall|i: int| 1 <= i < s.len() ==> #[trigger] edge_ok(p, s, i)
}

/// Heap order holds everywhere except possibly on the edge from `j` up
/// to its parent, and the parent of `j` already sits above the children
/// of `j`. This is what holds while an element bubbles up from `j`.
pub open spec fn up_heap<T, P: Comparator<T>>(p: P, s: Seq<T>, j: int) -> bool {
    &&& forall|i: int| 1 <= i < s.len() && i != j ==> #[trigger] edge_ok(p, s, i)
    &&& (j > 0 && 2 * j + 1 < s.len() ==> !p.outranks(s[2 * j + 1], s[parent_of(j)]))
    &&& (j > 0 && 2 * j + 2 < s.len() ==> !p.outranks(s[2 * j + 2], s[parent_of(j)]))
}

/// Heap order holds everywhere except possibly on the edges from the
/// children of `j` up to `j`, and the parent of `j` already sits above
/// the children of `j`. This is what holds while an element bubbles
/// down from `j`.
pub open spec fn down_heap<T, P: Comparator<T>>(p: P, s: Seq<T>, j: int) -> bool {
    &&& forall|i: int| 1 <= i < s.len() && parent_of(i) != j ==> #[trigger] edge_ok(p, s, i)
    &&& (j > 0 && 2 * j + 1 < s.len() ==> !p.outranks(s[2 * j + 1], s[parent_of(j)]))
    &&& (j > 0 && 2 * j + 2 < s.len() ==> !p.outranks(s[2 * j + 2], s[parent_of(j)]))
}

/// No element of `s` outranks an earlier one: the order in which a heap
/// hands its elements out.
pub open spec fn ranked<T, P: Comparator<T>>(p: P, s: Seq<T>) -> bool {
    forall|a: int, b: int| 0 <= a < b < s.len() ==> !(#[trigger] p.outranks(s[b], s[a]))
}

/// In a heap-ordered sequence the root is outranked by nothing.
pub proof fn lemma_root_dominates<T, P: Comparator<T>>(p: P, s: Seq<T>, i: int)
    requires
        heap_ordered(p, s),
        0 <= i < s.len(),
    ensures
        !p.outranks(s[i], s[0]),
    decreases i,
{
    if i == 0 {
        p.lemma_asymmetric(s[0], s[0]);
    } else {
        assert(edge_ok(p, s, i));
        lemma_root_dominates(p, s, parent_of(i));
        p.lemma_not_outranks_transitive(s[0], s[parent_of(i)], s[i]);
    }
}

/// An array-backed binary heap. The view is the stored sequence, root
/// first; `wf` says the heap order holds under the comparator fixed at
/// construction.
pub struct Heap<T, P: Comparator<T>> {
    items: Vec<T>,
    comparator: P,
}

impl<T, P: Comparator<T>> View for Heap<T, P> {
    type V = Seq<T>;

    closed spec fn view(&self) -> Seq<T> {
        self.items@
    }
}

impl<T, P: Comparator<T>> Heap<T, P> {
    /// The comparator this heap was built with.
    pub closed spec fn ranking(self) -> P {
        self.comparator
    }

    /// The heap-order invariant, established by construction and kept
    /// by every operation.
    pub open spec fn wf(self) -> bool {
        heap_ordered(self.ranking(), self@)
    }

    /// Creates an empty heap ruled by `comparator`.
    pub fn new(comparator: P) -> (h: Self)
        ensures
            h@ == Seq::<T>::empty(),
            h.ranking() == comparator,
            h.wf(),
    {
        Heap { items: Vec::new(), comparator }
    }

    /// The number of stored elements.
    pub fn len(&self) -> (n: usize)
        ensures
            n == self@.len(),
    {
        self.items.len()
    }

    /// Whether no element is stored.
    pub fn is_empty(&self) -> (b: bool)
        ensures
            b == (self@.len() == 0),
    {
        self.items.len() == 0
    }

    /// Inserts `value`, restoring the heap order by bubbling it up.
    pub fn add(&mut self, value: T)
        requires
            old(self).wf(),
        ensures
            final(self).wf(),
            final(self).ranking() == old(self).ranking(),
            final(self)@.len() == old(self)@.len() + 1,
            final(self)@.to_multiset() == old(self)@.to_multiset().insert(value),
    {
        let ghost s = self.items@;
        self.items.push(value);
        let idx = self.items.len() - 1;
        proof {
            broadcast use vstd::seq_lib::group_to_multiset_ensures;

            let s1 = self.items@;
            let ji = idx as int;
            assert forall|i: int| 1 <= i < s1.len() && i != ji implies edge_ok(
                self.comparator,
                s1,
                i,
            ) by {
                assert(edge_ok(self.comparator, s, i));
            }
            assert(up_heap(self.comparator, s1, ji));
        }
        self.bubble_up(idx);
    }

    fn parent_idx(&self, idx: usize) -> (r: usize)
        requires
            idx > 0,
        ensures
            r as int == parent_of(idx as int),
            r < idx,
    {
        (idx - 1) / 2
    }

    fn children_present(&self, idx: usize) -> (b: bool)
        requires
            idx < self@.len(),
        ensures
            b == (2 * (idx as int) + 1 < self@.len()),
    {
        self.items.len() - idx > idx + 1
    }

    fn left_child_idx(&self, idx: usize) -> (r: usize)
        requires
            2 * (idx as int) + 1 < self@.len(),
        ensures
            r as int == 2 * (idx as int) + 1,
    {
        // the exec length, a usize, bounds the requested position
        let n = self.items.len();
        idx * 2 + 1
    }

    fn right_child_idx(&self, idx: usize) -> (r: usize)
        requires
            2 * (idx as int) + 2 <= usize::MAX,
        ensures
            r as int == 2 * (idx as int) + 2,
    {
        idx * 2 + 2
    }

    /// Of the (one or two) children of `idx`, the position holding the
    /// child that the other child does not outrank.
    fn smallest_child_idx(&self, idx: usize) -> (r: usize)
        requires
            2 * (idx as int) + 1 < self@.len(),
        ensures
            r as int == 2 * (idx as int) + 1 || r as int == 2 * (idx as int) + 2,
            (r as int) < self@.len(),
            2 * (idx as int) + 2 >= self@.len() ==> r as int == 2 * (idx as int) + 1,
            (r as int == 2 * (idx as int) + 1 && 2 * (idx as int) + 2 < self@.len())
                ==> !self.ranking().outranks(self@[2 * (idx as int) + 2], self@[r as int]),
            r as int == 2 * (idx as int) + 2 ==> !self.ranking().outranks(
                self@[2 * (idx as int) + 1],
                self@[r as int],
            ),
    {
        // the exec length, a usize, bounds both child positions
        let n = self.items.len();
        let left = self.left_child_idx(idx);
        let right = self.right_child_idx(idx);
        if right >= self.items.len() {
            left
        } else if self.comparator.higher(&self.items[left], &self.items[right]) {
            proof {
                self.comparator.lemma_asymmetric(self@[left as int], self@[right as int]);
            }
            left
        } else {
            right
        }
    }

    /// Moves the element at `idx` towards the root until it no longer
    /// outranks its parent.
    fn bubble_up(&mut self, idx: usize)
        requires
            idx < old(self)@.len(),
            up_heap(old(self).ranking(), old(self)@, idx as int),
        ensures
            final(self).ranking() == old(self).ranking(),
            final(self)@.len() == old(self)@.len(),
            final(self)@.to_multiset() == old(self)@.to_multiset(),
            heap_ordered(final(self).ranking(), final(self)@),
    {
        let mut j = idx;
        loop
            invariant
                j < self.items@.len(),
                self.items@.len() == old(self)@.len(),
                self.comparator == old(self).ranking(),
                self.items@.to_multiset() == old(self)@.to_multiset(),
                up_heap(self.comparator, self.items@, j as int),
            ensures
                self.items@.len() == old(self)@.len(),
                self.comparator == old(self).ranking(),
                self.items@.to_multiset() == old(self)@.to_multiset(),
                heap_ordered(self.comparator, self.items@),
            decreases j,
        {
            if j == 0 {
                proof {
                    assert forall|i: int| 1 <= i < self.items@.len() implies edge_ok(
                        self.comparator,
                        self.items@,
                        i,
                    ) by {
                        assert(i != 0);
                    }
                }
                break;
            }
            let p = self.parent_idx(j);
            let go = self.comparator.higher(&self.items[j], &self.items[p]);
            if !go {
                proof {
                    assert forall|i: int| 1 <= i < self.items@.len() implies edge_ok(
                        self.comparator,
                        self.items@,
                        i,
                    ) by {
                        if i == j as int {
                            assert(parent_of(i) == p as int);
                        }
                    }
                }
                break;
            }
            proof {
                let pr = self.comparator;
                let s = self.items@;
                let ji = j as int;
                let pi = p as int;
                let s1 = s.update(ji, s[pi]).update(pi, s[ji]);
                lemma_exchange_to_multiset(s, ji, pi);
                assert forall|i: int| 1 <= i < s1.len() && i != pi implies edge_ok(
                    pr,
                    s1,
                    i,
                ) by {
                    if i == ji {
                        pr.lemma_asymmetric(s[ji], s[pi]);
                    } else if parent_of(i) == pi {
                        assert(edge_ok(pr, s, i));
                        pr.lemma_outranks_compose(s[ji], s[pi], s[i]);
                        pr.lemma_asymmetric(s[ji], s[i]);
                    } else if parent_of(i) == ji {
                        assert(i == 2 * ji + 1 || i == 2 * ji + 2);
                    } else {
                        assert(edge_ok(pr, s, i));
                    }
                }
                if pi > 0 {
                    let g = parent_of(pi);
                    assert(edge_ok(pr, s, pi));
                    if 2 * pi + 1 < s.len() && 2 * pi + 1 != ji {
                        assert(edge_ok(pr, s, 2 * pi + 1));
                        pr.lemma_not_outranks_transitive(s[g], s[pi], s[2 * pi + 1]);
                    }
                    if 2 * pi + 2 < s.len() && 2 * pi + 2 != ji {
                        assert(edge_ok(pr, s, 2 * pi + 2));
                        pr.lemma_not_outranks_transitive(s[g], s[pi], s[2 * pi + 2]);
                    }
                }
                assert(up_heap(pr, s1, pi));
            }
            exchange(&mut self.items, j, p);
            j = p;
        }
    }

    /// Moves the element at `idx` towards the leaves until no child
    /// outranks it.
    fn bubble_down(&mut self, idx: usize)
        requires
            idx < old(self)@.len(),
            down_heap(old(self).ranking(), old(self)@, idx as int),
        ensures
            final(self).ranking() == old(self).ranking(),
            final(self)@.len() == old(self)@.len(),
            final(self)@.to_multiset() == old(self)@.to_multiset(),
            heap_ordered(final(self).ranking(), final(self)@),
    {
        let mut j = idx;
        loop
            invariant
                j < self.items@.len(),
                self.items@.len() == old(self)@.len(),
                self.comparator == old(self).ranking(),
                self.items@.to_multiset() == old(self)@.to_multiset(),
                down_heap(self.comparator, self.items@, j as int),
            ensures
                self.items@.len() == old(self)@.len(),
                self.comparator == old(self).ranking(),
                self.items@.to_multiset() == old(self)@.to_multiset(),
                heap_ordered(self.comparator, self.items@),
            decreases self.items@.len() - j,
        {
            if !self.children_present(j) {
                proof {
                    assert forall|i: int| 1 <= i < self.items@.len() implies edge_ok(
                        self.comparator,
                        self.items@,
                        i,
                    ) by {
                        if parent_of(i) == j as int {
                            assert(i == 2 * (j as int) + 1 || i == 2 * (j as int) + 2);
                        }
                    }
                }
                break;
            }
            let c = self.smallest_child_idx(j);
            let go = self.comparator.higher(&self.items[c], &self.items[j]);
            if !go {
                proof {
                    let pr = self.comparator;
                    let s = self.items@;
                    let ji = j as int;
                    let ci = c as int;
                    assert forall|i: int| 1 <= i < s.len() implies edge_ok(pr, s, i) by {
                        if parent_of(i) == ji {
                            assert(i == 2 * ji + 1 || i == 2 * ji + 2);
                            if i != ci {
                                pr.lemma_not_outranks_transitive(s[ji], s[ci], s[i]);
                            }
                        }
                    }
                }
                break;
            }
            proof {
                let pr = self.comparator;
                let s = self.items@;
                let ji = j as int;
                let ci = c as int;
                let s1 = s.update(ji, s[ci]).update(ci, s[ji]);
                lemma_exchange_to_multiset(s, ji, ci);
                assert forall|i: int| 1 <= i < s1.len() && parent_of(i) != ci implies edge_ok(
                    pr,
                    s1,
                    i,
                ) by {
                    if i == ci {
                        pr.lemma_asymmetric(s[ci], s[ji]);
                    } else if parent_of(i) == ji {
                        assert(i == 2 * ji + 1 || i == 2 * ji + 2);
                    } else if i == ji {
                        assert(ci == 2 * ji + 1 || ci == 2 * ji + 2);
                    } else {
                        assert(edge_ok(pr, s, i));
                    }
                }
                assert forall|d: int|
                    (2 * ci + 1 <= d <= 2 * ci + 2 && d < s1.len()) implies !pr.outranks(
                    s1[d],
                    s1[parent_of(ci)],
                ) by {
                    assert(edge_ok(pr, s, d));
                }
                assert(down_heap(pr, s1, ci));
            }
            exchange(&mut self.items, j, c);
            j = c;
        }
    }

    /// Removes and returns the highest-priority element, or nothing on
    /// an empty heap. The last element takes the root's place and is
    /// bubbled down. Nothing left behind outranks the returned element.
    pub fn extract_next(&mut self) -> (r: Option<T>)
        requires
            old(self).wf(),
        ensures
            final(self).wf(),
            final(self).ranking() == old(self).ranking(),
            (r is Some) <==> old(self)@.len() > 0,
            r is None ==> final(self)@ == old(self)@,
            r matches Some(m) ==> final(self)@.len() == old(self)@.len() - 1
                && m == old(self)@[0]
                && final(self)@.to_multiset() == old(self)@.to_multiset().remove(m)
                && (forall|x: T| #[trigger] final(self)@.to_multiset().contains(x)
                    ==> !final(self).ranking().outranks(x, m)),
    {
        if self.items.len() == 0 {
            return None;
        }
        let ghost s = self.items@;
        let ghost pr = self.comparator;
        proof {
            assert forall|i: int| 0 <= i < s.len() implies !pr.outranks(s[i], s[0]) by {
                lemma_root_dominates(pr, s, i);
            }
        }
        let m = self.items.swap_remove(0);
        proof {
            lemma_pull_first_to_multiset(s);
            assert forall|i: int|
                1 <= i < self.items@.len() && parent_of(i) != 0 implies edge_ok(
                pr,
                self.items@,
                i,
            ) by {
                assert(edge_ok(pr, s, i));
            }
            assert(down_heap(pr, self.items@, 0));
        }
        if self.items.len() > 0 {
            self.bubble_down(0);
        }
        proof {
            broadcast use vstd::seq_lib::group_to_multiset_ensures;

            assert forall|x: T| #[trigger] self.items@.to_multiset().contains(x) implies !pr
                .outranks(x, m) by {
                assert(s.to_multiset().remove(s[0]).count(x) > 0);
                assert(s.to_multiset().count(x) > 0);
                assert(s.contains(x));
                let i = choose|i: int| 0 <= i < s.len() && s[i] == x;
                assert(!pr.outranks(s[i], s[0]));
            }
        }
        Some(m)
    }

    /// Extracts every element. What comes out is ranked: no element
    /// outranks one handed out before it, so the heap's whole content
    /// leaves in priority order.
    pub fn drain(&mut self) -> (out: Vec<T>)
        requires
            old(self).wf(),
        ensures
            final(self).wf(),
            final(self).ranking() == old(self).ranking(),
            final(self)@.len() == 0,
            out@.to_multiset() == old(self)@.to_multiset(),
            ranked(old(self).ranking(), out@),
    {
        let mut out: Vec<T> = Vec::new();
        proof {
            broadcast use vstd::seq_lib::group_to_multiset_ensures;
            broadcast use vstd::multiset::group_multiset_axioms;

            assert(out@.to_multiset().add(self@.to_multiset()) =~= old(self)@.to_multiset());
        }
        loop
            invariant
                self.wf(),
                self.ranking() == old(self).ranking(),
                out@.to_multiset().add(self@.to_multiset()) == old(self)@.to_multiset(),
                ranked(old(self).ranking(), out@),
                forall|k: int, x: T|
                    #![trigger out@[k], self@.to_multiset().contains(x)]
                    0 <= k < out@.len() && self@.to_multiset().contains(x) ==> !old(self).ranking().outranks(x, out@[k]),
            ensures
                self.wf(),
                self.ranking() == old(self).ranking(),
                self@.len() == 0,
                out@.to_multiset() == old(self)@.to_multiset(),
                ranked(old(self).ranking(), out@),
            decreases self@.len(),
        {
            let ghost hs = self@.to_multiset();
            let ghost os = out@;
            let r = self.extract_next();
            match r {
                Some(v) => {
                    proof {
                        broadcast use vstd::seq_lib::group_to_multiset_ensures;
                        broadcast use vstd::multiset::group_multiset_axioms;

                        assert(hs.contains(v));
                    }
                    out.push(v);
                    proof {
                        broadcast use vstd::seq_lib::group_to_multiset_ensures;
                        broadcast use vstd::multiset::group_multiset_axioms;

                        assert(out@.to_multiset().add(self@.to_multiset()) =~= old(self)@.to_multiset());
                        assert forall|a: int, b: int|
                            0 <= a < b < out@.len() implies !(old(self).ranking().outranks(
                            out@[b],
                            out@[a],
                        )) by {
                            if b < os.len() {
                                assert(!(old(self).ranking().outranks(os[b], os[a])));
                            }
                        }
                        assert forall|k: int, x: T|
                            #![trigger out@[k], self@.to_multiset().contains(x)]
                            0 <= k < out@.len() && self@.to_multiset().contains(x) implies !old(self).ranking().outranks(x, out@[k]) by {
                            assert(#[trigger] self@.to_multiset().count(x) > 0);
                            assert(hs.contains(x));
                            if k < os.len() {
                                assert(!old(self).ranking().outranks(x, os[k]));
                            }
                        }
                    }
                }
                None => {
                    proof {
                        broadcast use vstd::seq_lib::group_to_multiset_ensures;
                        broadcast use vstd::multiset::group_multiset_axioms;

                        assert(self@.to_multiset() =~= Multiset::<T>::empty()) by {
                            assert(self@ =~= Seq::<T>::empty());
                            assert forall|x: T| self@.to_multiset().count(x) == 0 by {
                                assert(!self@.contains(x));
                            }
                        }
                        assert(out@.to_multiset() =~= old(self)@.to_multiset());
                    }
                    break;
                }
            }
        }
        out
    }
}

/// A comparator that puts the least value (under the element type's
/// total order) at the root, and the unit marker used to build such
/// heaps.
pub struct MinHeap;

impl<T: TotalOrder> Comparator<T> for MinHeap {
    open spec fn outranks(self, a: T, b: T) -> bool {
        a.le(b) && a != b
    }

    fn higher(&self, a: &T, b: &T) -> (r: bool) {
        let c = a.compare(b);
        proof {
            if (*a).le(*b) && (*b).le(*a) {
                T::lemma_antisymmetric(*a, *b);
            }
        }
        matches!(c, Comparison::Less)
    }

    proof fn lemma_asymmetric(self, a: T, b: T) {
        if a.le(b) && b.le(a) {
            T::lemma_antisymmetric(a, b);
        }
    }

    proof fn lemma_outranks_compose(self, a: T, b: T, c: T) {
        T::lemma_total(c, b);
        if a.le(b) && b.le(c) {
            T::lemma_transitive(a, b, c);
        }
    }

    proof fn lemma_not_outranks_transitive(self, a: T, b: T, c: T) {
        T::lemma_total(b, a);
        T::lemma_total(c, b);
        if c.le(a) && a.le(b) {
            T::lemma_transitive(c, a, b);
        }
    }
}

impl MinHeap {
    /// Creates an empty heap that hands its least element out first.
    pub fn new<T: TotalOrder>() -> (h: Heap<T, MinHeap>)
        ensures
            h@ == Seq::<T>::empty(),
            h.wf(),
    {
        Heap::new(MinHeap)
    }
}

/// A comparator that puts the greatest value (under the element type's
/// total order) at the root, and the unit marker used to build such
/// heaps.
pub struct MaxHeap;

impl<T: TotalOrder> Comparator<T> for MaxHeap {
    open spec fn outranks(self, a: T, b: T) -> bool {
        b.le(a) && a != b
    }

    fn higher(&self, a: &T, b: &T) -> (r: bool) {
        let c = a.compare(b);
        proof {
            if (*a).le(*b) && (*b).le(*a) {
                T::lemma_antisymmetric(*a, *b);
            }
        }
        matches!(c, Comparison::Greater)
    }

    proof fn lemma_asymmetric(self, a: T, b: T) {
        if a.le(b) && b.le(a) {
            T::lemma_antisymmetric(a, b);
        }
    }

    proof fn lemma_outranks_compose(self, a: T, b: T, c: T) {
        T::lemma_total(b, c);
        if c.le(b) && b.le(a) {
            T::lemma_transitive(c, b, a);
        }
    }

    proof fn lemma_not_outranks_transitive(self, a: T, b: T, c: T) {
        T::lemma_total(a, b);
        T::lemma_total(b, c);
        if a.le(c) && c.le(b) {
            T::lemma_transitive(a, c, b);
        }
    }
}

impl MaxHeap {
    /// Creates an empty heap that hands its greatest element out first.
    pub fn new<T: TotalOrder>() -> (h: Heap<T, MaxHeap>)
        ensures
            h@ == Seq::<T>::empty(),
            h.wf(),
    {
        Heap::new(MaxHeap)
    }
}

impl<T: TotalOrder> Heap<T, MinHeap> {
    /// Creates an empty min-heap: the least element is extracted first.
    pub fn new_min() -> (h: Self)
        ensures
            h@ == Seq::<T>::empty(),
            h.wf(),
    {
        Heap::new(MinHeap)
    }
}

impl<T: TotalOrder> Heap<T, MaxHeap> {
    /// Creates an empty max-heap: the greatest element is extracted
    /// first.
    pub fn new_max() -> (h: Self)
        ensures
            h@ == Seq::<T>::empty(),
            h.wf(),
    {
        Heap::new(MaxHeap)
    }
}

} // verus!
