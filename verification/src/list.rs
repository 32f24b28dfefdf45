//! A singly linked list of boxed nodes, grown at the tail.

use vstd::prelude::*;
use vstd::multiset::Multiset;
use crate::order::{Comparison, TotalOrder};
use crate::sorting::sorted;
use crate::vecops::lemma_empty_to_multiset;

verus! {

/// One cell of the list.
pub struct Node<T> {
    pub val: T,
    pub next: Option<Box<Node<T>>>,
}

/// The sequence of values hanging off an optional node.
pub open spec fn opt_seq<T>(n: Option<Box<Node<T>>>) -> Seq<T>
    decreases n,
{
    match n {
        None => Seq::empty(),
        Some(b) => (*b).seq_of(),
    }
}

impl<T> Node<T> {
    /// The sequence of values stored from this node on.
    pub open spec fn seq_of(self) -> Seq<T>
        decreases self,
    {
        seq![self.val] + opt_seq(self.next)
    }

    /// Creates a node holding `t` alone.
    pub fn new(t: T) -> (n: Node<T>)
        ensures
            n.seq_of() == seq![t],
    {
        let n = Node { val: t, next: None };
        proof {
            assert(n.seq_of() =~= seq![t]);
        }
        n
    }
}

/// A singly linked list. The view is the sequence of stored values,
/// head first; `length` always counts them.
pub struct LinkedList<T> {
    pub length: u32,
    pub start: Option<Box<Node<T>>>,
}

impl<T> View for LinkedList<T> {
    type V = Seq<T>;

    closed spec fn view(&self) -> Seq<T> {
        opt_seq(self.start)
    }
}

impl<T> LinkedList<T> {
    /// `length` agrees with the stored sequence.
    pub open spec fn wf(self) -> bool {
        self.length as nat == self@.len()
    }

    /// Creates an empty list.
    pub fn new() -> (l: Self)
        ensures
            l@ == Seq::<T>::empty(),
            l.wf(),
            l.length == 0,
    {
        Self { length: 0, start: None }
    }

    /// Appends `obj` at the tail.
    pub fn add(&mut self, obj: T)
        requires
            old(self).wf(),
            old(self)@.len() < u32::MAX,
        ensures
            final(self).wf(),
            final(self)@ == old(self)@.push(obj),
            final(self).length == old(self).length + 1,
    {
        let head = self.start.take();
        self.start = Some(Self::append_node(head, obj));
        self.length = self.length + 1;
    }

    fn append_node(n: Option<Box<Node<T>>>, v: T) -> (r: Box<Node<T>>)
        ensures
            r.seq_of() == opt_seq(n).push(v),
        decreases n,
    {
        let ghost gn = n;
        match n {
            None => {
                let node = Node { val: v, next: None };
                proof {
                    assert(node.seq_of() =~= opt_seq(gn).push(v));
                }
                Box::new(node)
            },
            Some(b) => {
                let node = *b;
                let tail = Self::append_node(node.next, v);
                let out = Node { val: node.val, next: Some(tail) };
                proof {
                    assert(out.seq_of() =~= opt_seq(gn).push(v));
                }
                Box::new(out)
            },
        }
    }

    /// The value at position `index`, or nothing when `index` is out of
    /// range.
    pub fn get(&mut self, index: i32) -> (r: Option<&T>)
        ensures
            *final(self) == *old(self),
            0 <= index < old(self)@.len() ==> (r matches Some(v) && *v == old(self)@[index as int]),
            !(0 <= index < old(self)@.len()) ==> r is None,
    {
        Self::get_ith_node(&self.start, index)
    }

    fn get_ith_node<'a>(node: &'a Option<Box<Node<T>>>, index: i32) -> (r: Option<&'a T>)
        ensures
            0 <= index < opt_seq(*node).len() ==> (r matches Some(v) && *v == opt_seq(
                *node,
            )[index as int]),
            !(0 <= index < opt_seq(*node).len()) ==> r is None,
        decreases *node,
    {
        match node {
            None => None,
            Some(next_ptr) => {
                if index == 0 {
                    Some(&next_ptr.val)
                } else if index < 0 {
                    None
                } else {
                    Self::get_ith_node(&next_ptr.next, index - 1)
                }
            },
        }
    }
}

impl<T: TotalOrder> LinkedList<T> {
    /// Merges two lists into one. The result holds exactly the elements
    /// of both; when both inputs are sorted, so is the result, with an
    /// element of `list_a` placed first on ties.
    pub fn merge(list_a: LinkedList<T>, list_b: LinkedList<T>) -> (r: Self)
        requires
            list_a.wf(),
            list_b.wf(),
            list_a@.len() + list_b@.len() <= u32::MAX,
        ensures
            r.wf(),
            r@.to_multiset() == list_a@.to_multiset().add(list_b@.to_multiset()),
            r@.len() == list_a@.len() + list_b@.len(),
            sorted(list_a@) && sorted(list_b@) ==> sorted(r@),
    {
        let length = list_a.length + list_b.length;
        let start = Self::merge_nodes(list_a.start, list_b.start);
        LinkedList { length, start }
    }

    fn merge_nodes(a: Option<Box<Node<T>>>, b: Option<Box<Node<T>>>) -> (r: Option<Box<Node<T>>>)
        ensures
            opt_seq(r).to_multiset() == opt_seq(a).to_multiset().add(opt_seq(b).to_multiset()),
            opt_seq(r).len() == opt_seq(a).len() + opt_seq(b).len(),
            sorted(opt_seq(a)) && sorted(opt_seq(b)) ==> sorted(opt_seq(r)),
        decreases opt_seq(a).len() + opt_seq(b).len(),
    {
        let ghost ga = opt_seq(a);
        let ghost gb = opt_seq(b);
        match (a, b) {
            (None, None) => {
                proof {
                    broadcast use vstd::seq_lib::group_to_multiset_ensures;
                    broadcast use vstd::multiset::group_multiset_axioms;

                    lemma_empty_to_multiset::<T>();
                    assert(ga.to_multiset().add(gb.to_multiset()) =~= Multiset::<T>::empty());
                }
                None
            },
            (Some(x), None) => {
                proof {
                    broadcast use vstd::seq_lib::group_to_multiset_ensures;
                    broadcast use vstd::multiset::group_multiset_axioms;

                    lemma_empty_to_multiset::<T>();
                    assert(ga.to_multiset().add(gb.to_multiset()) =~= ga.to_multiset());
                }
                Some(x)
            },
            (None, Some(y)) => {
                proof {
                    broadcast use vstd::seq_lib::group_to_multiset_ensures;
                    broadcast use vstd::multiset::group_multiset_axioms;

                    lemma_empty_to_multiset::<T>();
                    assert(ga.to_multiset().add(gb.to_multiset()) =~= gb.to_multiset());
                }
                Some(y)
            },
            (Some(x), Some(y)) => {
                let c = x.val.compare(&y.val);
                let take_a = matches!(c, Comparison::Less | Comparison::Equal);
                if take_a {
                    let node = *x;
                    let ghost gtail = opt_seq(node.next);
                    let rest = Self::merge_nodes(node.next, Some(y));
                    let out = Node { val: node.val, next: rest };
                    proof {
                        T::lemma_reflexive(out.val);
                        Self::lemma_merge_head(ga, gb, gtail, gb, out.val, opt_seq(rest));
                        assert(out.seq_of() =~= seq![out.val] + opt_seq(rest));
                    }
                    Some(Box::new(out))
                } else {
                    let node = *y;
                    let ghost gtail = opt_seq(node.next);
                    let rest = Self::merge_nodes(Some(x), node.next);
                    let out = Node { val: node.val, next: rest };
                    proof {
                        T::lemma_reflexive(out.val);
                        Self::lemma_merge_head(ga, gb, ga, gtail, out.val, opt_seq(rest));
                        assert(out.seq_of() =~= seq![out.val] + opt_seq(rest));
                    }
                    Some(Box::new(out))
                }
            },
        }
    }

    /// Gluing a head value onto the merge of the remaining parts keeps
    /// the multiset, the length, and sortedness: `whole_a`/`whole_b` are
    /// the two inputs, `part_a`/`part_b` what is left of them after the
    /// head `v` was taken off one of them, `rest` the merged remainder.
    proof fn lemma_merge_head(
        whole_a: Seq<T>,
        whole_b: Seq<T>,
        part_a: Seq<T>,
        part_b: Seq<T>,
        v: T,
        rest: Seq<T>,
    )
        requires
            rest.to_multiset() == part_a.to_multiset().add(part_b.to_multiset()),
            rest.len() == part_a.len() + part_b.len(),
            sorted(part_a) && sorted(part_b) ==> sorted(rest),
            whole_a == seq![v] + part_a && whole_b == part_b || whole_b == seq![v] + part_b
                && whole_a == part_a,
            whole_a.len() > 0 && whole_b.len() > 0,
            sorted(whole_a) && sorted(whole_b) ==> v.le(whole_a[0]) && v.le(whole_b[0]),
        ensures
            (seq![v] + rest).to_multiset() == whole_a.to_multiset().add(whole_b.to_multiset()),
            (seq![v] + rest).len() == whole_a.len() + whole_b.len(),
            sorted(whole_a) && sorted(whole_b) ==> sorted(seq![v] + rest),
    {
        broadcast use vstd::seq_lib::group_to_multiset_ensures;
        broadcast use vstd::multiset::group_multiset_axioms;

        let out = seq![v] + rest;
        assert(out =~= rest.insert(0, v));
        if whole_a == seq![v] + part_a && whole_b == part_b {
            assert(whole_a =~= part_a.insert(0, v));
        } else {
            assert(whole_b =~= part_b.insert(0, v));
        }
        assert(out.to_multiset() =~= whole_a.to_multiset().add(whole_b.to_multiset()));
        if sorted(whole_a) && sorted(whole_b) {
            assert(sorted(part_a)) by {
                assert forall|p: int, q: int| 0 <= p < q < part_a.len() implies #[trigger] part_a[
                    p
                ].le(part_a[q]) by {
                    if whole_a == seq![v] + part_a {
                        assert(whole_a[p + 1].le(whole_a[q + 1]));
                    }
                }
            }
            assert(sorted(part_b)) by {
                assert forall|p: int, q: int| 0 <= p < q < part_b.len() implies #[trigger] part_b[
                    p
                ].le(part_b[q]) by {
                    if whole_b == seq![v] + part_b {
                        assert(whole_b[p + 1].le(whole_b[q + 1]));
                    }
                }
            }
            assert forall|k: int| 0 <= k < rest.len() implies v.le(#[trigger] rest[k]) by {
                assert(rest.contains(rest[k]));
                assert(rest.to_multiset().count(rest[k]) > 0);
                if part_a.to_multiset().count(rest[k]) > 0 {
                    assert(part_a.contains(rest[k]));
                    let p = choose|p: int| 0 <= p < part_a.len() && part_a[p] == rest[k];
                    if whole_a == seq![v] + part_a {
                        assert(whole_a[0].le(whole_a[p + 1]));
                    } else if p > 0 {
                        T::lemma_transitive(v, whole_a[0], part_a[p]);
                    }
                } else {
                    assert(part_b.to_multiset().count(rest[k]) > 0);
                    assert(part_b.contains(rest[k]));
                    let p = choose|p: int| 0 <= p < part_b.len() && part_b[p] == rest[k];
                    if whole_b == seq![v] + part_b {
                        assert(whole_b[0].le(whole_b[p + 1]));
                    } else if p > 0 {
                        T::lemma_transitive(v, whole_b[0], part_b[p]);
                    }
                }
            }
            assert forall|p: int, q: int| 0 <= p < q < out.len() implies #[trigger] out[p].le(
                out[q],
            ) by {
                if p > 0 {
                    assert(rest[p - 1].le(rest[q - 1]));
                }
            }
        }
    }
}

impl<T> Default for LinkedList<T> {
    fn default() -> (l: Self)
        ensures
            l@ == Seq::<T>::empty(),
            l.wf(),
    {
        Self::new()
    }
}

} // verus!
