//! A binary search tree holding a set of values.

use vstd::prelude::*;
use crate::order::{Comparison, TotalOrder};

verus! {

/// One node of the tree: a value and two optional subtrees.
pub struct TreeNode<T: TotalOrder> {
    pub value: T,
    pub left: Option<Box<TreeNode<T>>>,
    pub right: Option<Box<TreeNode<T>>>,
}

/// The set of values stored in an optional subtree.
pub open spec fn opt_set<T: TotalOrder>(n: Option<Box<TreeNode<T>>>) -> Set<T>
    decreases n,
{
    match n {
        None => Set::empty(),
        Some(b) => (*b).as_set(),
    }
}

/// The search-tree order holds throughout an optional subtree.
pub open spec fn opt_wf<T: TotalOrder>(n: Option<Box<TreeNode<T>>>) -> bool
    decreases n,
{
    match n {
        None => true,
        Some(b) => (*b).wf_node(),
    }
}

impl<T: TotalOrder> TreeNode<T> {
    /// The set of values stored from this node down.
    pub open spec fn as_set(self) -> Set<T>
        decreases self,
    {
        opt_set(self.left).union(opt_set(self.right)).insert(self.value)
    }

    /// Everything left of a node sorts strictly before its value,
    /// everything right of it strictly after, recursively.
    pub open spec fn wf_node(self) -> bool
        decreases self,
    {
        &&& forall|x: T| #[trigger]
            opt_set(self.left).contains(x) ==> x.le(self.value) && x != self.value
        &&& forall|x: T| #[trigger]
            opt_set(self.right).contains(x) ==> self.value.le(x) && x != self.value
        &&& opt_wf(self.left)
        &&& opt_wf(self.right)
    }

    /// Creates a leaf holding `value`.
    pub fn new(value: T) -> (n: Self)
        ensures
            n.wf_node(),
            n.as_set() == Set::empty().insert(value),
    {
        let n = TreeNode { value, left: None, right: None };
        proof {
            assert(n.as_set() =~= Set::empty().insert(value));
        }
        n
    }

    /// Inserts `value` below this node, keeping the search order;
    /// inserting a value already present changes nothing.
    pub fn insert(&mut self, value: T)
        requires
            old(self).wf_node(),
        ensures
            final(self).wf_node(),
            final(self).as_set() == old(self).as_set().insert(value),
    {
        let c = value.compare(&self.value);
        match c {
            Comparison::Equal => {
                proof {
                    assert(self.as_set() =~= old(self).as_set().insert(value));
                }
            },
            Comparison::Less => {
                let l = self.left.take();
                let ghost gl = l;
                self.left = Some(Self::insert_opt(l, value));
                proof {
                    assert forall|x: T| #[trigger]
                        opt_set(self.left).contains(x) implies x.le(self.value) && x
                        != self.value by {
                        if x != value {
                            assert(opt_set(gl).contains(x));
                        }
                    }
                    assert(self.as_set() =~= old(self).as_set().insert(value));
                }
            },
            Comparison::Greater => {
                let r = self.right.take();
                let ghost gr = r;
                self.right = Some(Self::insert_opt(r, value));
                proof {
                    assert forall|x: T| #[trigger]
                        opt_set(self.right).contains(x) implies self.value.le(x) && x
                        != self.value by {
                        if x != value {
                            assert(opt_set(gr).contains(x));
                        }
                    }
                    assert(self.as_set() =~= old(self).as_set().insert(value));
                }
            },
        }
    }

    fn insert_opt(n: Option<Box<TreeNode<T>>>, value: T) -> (r: Box<TreeNode<T>>)
        requires
            opt_wf(n),
        ensures
            r.wf_node(),
            r.as_set() == opt_set(n).insert(value),
        decreases n,
    {
        let ghost gn = n;
        match n {
            None => {
                let node = TreeNode::new(value);
                proof {
                    assert(node.as_set() =~= opt_set(gn).insert(value));
                }
                Box::new(node)
            },
            Some(b) => {
                let node = *b;
                let c = value.compare(&node.value);
                match c {
                    Comparison::Equal => {
                        proof {
                            assert(node.as_set() =~= opt_set(gn).insert(value));
                        }
                        Box::new(node)
                    },
                    Comparison::Less => {
                        let TreeNode { value: held, left, right } = node;
                        let ghost gl = left;
                        let nl = Self::insert_opt(left, value);
                        let out = TreeNode { value: held, left: Some(nl), right };
                        proof {
                            assert forall|x: T| #[trigger]
                                opt_set(out.left).contains(x) implies x.le(out.value) && x
                                != out.value by {
                                if x != value {
                                    assert(opt_set(gl).contains(x));
                                }
                            }
                            assert(out.as_set() =~= opt_set(gn).insert(value));
                        }
                        Box::new(out)
                    },
                    Comparison::Greater => {
                        let TreeNode { value: held, left, right } = node;
                        let ghost gr = right;
                        let nr = Self::insert_opt(right, value);
                        let out = TreeNode { value: held, left, right: Some(nr) };
                        proof {
                            assert forall|x: T| #[trigger]
                                opt_set(out.right).contains(x) implies out.value.le(x) && x
                                != out.value by {
                                if x != value {
                                    assert(opt_set(gr).contains(x));
                                }
                            }
                            assert(out.as_set() =~= opt_set(gn).insert(value));
                        }
                        Box::new(out)
                    },
                }
            },
        }
    }
}

/// A binary search tree. Its contents are the set `as_set()`.
pub struct BinarySearchTree<T: TotalOrder> {
    pub root: Option<Box<TreeNode<T>>>,
}

impl<T: TotalOrder> BinarySearchTree<T> {
    /// The set of stored values.
    pub open spec fn as_set(self) -> Set<T> {
        opt_set(self.root)
    }

    /// The search-tree order holds throughout.
    pub open spec fn wf(self) -> bool {
        opt_wf(self.root)
    }

    /// Creates an empty tree.
    pub fn new() -> (t: Self)
        ensures
            t.wf(),
            t.as_set() == Set::<T>::empty(),
    {
        BinarySearchTree { root: None }
    }

    /// Inserts `value`; a value already present stays single.
    pub fn insert(&mut self, value: T)
        requires
            old(self).wf(),
        ensures
            final(self).wf(),
            final(self).as_set() == old(self).as_set().insert(value),
    {
        let r = self.root.take();
        self.root = Some(TreeNode::insert_opt(r, value));
    }

    /// Whether `value` is stored in the tree.
    pub fn search(&self, value: T) -> (r: bool)
        requires
            self.wf(),
        ensures
            r == self.as_set().contains(value),
    {
        Self::search_opt(&self.root, &value)
    }

    fn search_opt(n: &Option<Box<TreeNode<T>>>, value: &T) -> (r: bool)
        requires
            opt_wf(*n),
        ensures
            r == opt_set(*n).contains(*value),
        decreases *n,
    {
        match n {
            None => false,
            Some(b) => {
                let c = value.compare(&b.value);
                match c {
                    Comparison::Equal => true,
                    Comparison::Less => {
                        proof {
                            if opt_set(b.right).contains(*value) {
                                T::lemma_antisymmetric(*value, b.value);
                            }
                        }
                        Self::search_opt(&b.left, value)
                    },
                    Comparison::Greater => {
                        proof {
                            if opt_set(b.left).contains(*value) {
                                T::lemma_antisymmetric(*value, b.value);
                            }
                        }
                        Self::search_opt(&b.right, value)
                    },
                }
            },
        }
    }
}

} // verus!
