//! The parent-pointer tree: an append-only arena of payloads, each with the
//! index of its parent. A node whose parent is itself is a root.

use vstd::prelude::*;
use vstd::std_specs::cmp::PartialEqSpec;
use crate::seq_util::{
    appears_in, except, except_seq, lemma_except_seq, exhaust, ids_below, til, walk_outcome, WalkError,
};

verus! {

/// Nodes are the positions `0 .. len` of two parallel vectors: `x` holds the
/// payloads and `p` the parent of each node.
pub struct Tree<X> {
    x: Vec<X>,
    p: Vec<usize>,
}

/// The nodes, in increasing order, that no node names as its parent.
pub open spec fn leaf_ids(parents: Seq<usize>) -> Seq<usize> {
    except_seq(ids_below(parents.len()), parents)
}

impl<X> Tree<X> {
    /// The payload of each node, indexed by node id.
    pub closed spec fn values(&self) -> Seq<X> {
        self.x@
    }

    /// The parent id of each node, indexed by node id.
    pub closed spec fn parents(&self) -> Seq<usize> {
        self.p@
    }

    /// Every node has exactly one payload and one parent entry.
    pub open spec fn wf(&self) -> bool {
        self.values().len() == self.parents().len()
    }

    /// An empty tree.
    pub fn new() -> (t: Self)
        ensures
            t.values() == Seq::<X>::empty(),
            t.parents() == Seq::<usize>::empty(),
    {
        Tree { x: Vec::new(), p: Vec::new() }
    }

    /// The number of nodes.
    pub fn len(&self) -> (n: usize)
        requires
            self.wf(),
        ensures
            n == self.parents().len(),
            n == self.values().len(),
    {
        self.p.len()
    }

    /// Makes `parent` the parent of `child`; returns `child`.
    pub fn adopt(&mut self, parent: usize, child: usize) -> (r: usize)
        requires
            child < old(self).parents().len(),
        ensures
            r == child,
            final(self).parents() == old(self).parents().update(child as int, parent),
            final(self).values() == old(self).values(),
    {
        self.p.set(child, parent);
        child
    }

    /// Appends a node holding `item` whose parent is `parent`, and returns
    /// its id: the number of nodes before the call.
    pub fn insert(&mut self, parent: usize, item: X) -> (id: usize)
        requires
            old(self).wf(),
        ensures
            id == old(self).parents().len(),
            id == old(self).values().len(),
            final(self).values() == old(self).values().push(item),
            final(self).parents() == old(self).parents().push(parent),
    {
        self.x.push(item);
        self.p.push(parent);
        self.x.len() - 1
    }

    /// The parent of `child`.
    pub fn parent(&self, child: usize) -> (r: usize)
        requires
            child < self.parents().len(),
        ensures
            r == self.parents()[child as int],
    {
        self.p[child]
    }

    /// The parent of `child`, or an out-of-bounds error when there is no
    /// node `child`.
    pub fn try_parent(&self, child: usize) -> (r: Result<usize, WalkError>)
        ensures
            child < self.parents().len() ==> r == Ok::<usize, WalkError>(self.parents()[child as int]),
            child >= self.parents().len() ==> r == Err::<usize, WalkError>(WalkError::OutOfBounds(child)),
    {
        if child < self.p.len() {
            Ok(self.p[child])
        } else {
            Err(WalkError::OutOfBounds(child))
        }
    }

    /// The payload of node `id`.
    pub fn value(&self, id: usize) -> (r: &X)
        requires
            id < self.values().len(),
        ensures
            *r == self.values()[id as int],
    {
        &self.x[id]
    }

    /// The ancestors of `child`, nearest first, up to but not including the
    /// first node that is its own parent; or why they cannot be listed: an
    /// ancestor (or `child` itself) that is no node, or a cycle of parents.
    pub fn try_path(&self, child: usize) -> (r: Result<Vec<usize>, WalkError>)
        ensures
            match r {
                Ok(v) => walk_outcome(self.parents(), child as int) == Ok::<Seq<usize>, WalkError>(v@),
                Err(e) => walk_outcome(self.parents(), child as int) == Err::<Seq<usize>, WalkError>(e),
            },
    {
        exhaust(&self.p, child)
    }

    /// The ancestors of `child`, nearest first, up to but not including the
    /// first node that is its own parent.
    pub fn path(&self, child: usize) -> (r: Vec<usize>)
        requires
            walk_outcome(self.parents(), child as int) is Ok,
        ensures
            walk_outcome(self.parents(), child as int) == Ok::<Seq<usize>, WalkError>(r@),
    {
        match exhaust(&self.p, child) {
            Ok(v) => v,
            Err(_) => {
                proof {
                    assert(false);
                }
                Vec::new()
            },
        }
    }

    /// The nodes, in increasing order, that no node names as its parent.
    pub fn leaves(&self) -> (r: Vec<usize>)
        ensures
            r@ == leaf_ids(self.parents()),
            forall|i: usize| r@.contains(i) <==> i < self.parents().len() && !self.parents().contains(i),
    {
        let r = except(til(self.p.len()), self.p.clone());
        proof {
            lemma_leaf_ids_contains(self.parents());
        }
        r
    }
}

/// An id is a leaf exactly when it is a node and no node names it as its
/// parent.
pub proof fn lemma_leaf_ids_contains(parents: Seq<usize>)
    ensures
        forall|i: usize| #[trigger] leaf_ids(parents).contains(i) <==> i < parents.len() && !parents.contains(i),
{
    let ids = ids_below(parents.len());
    lemma_except_seq(ids, parents);
    assert forall|i: usize| #[trigger] leaf_ids(parents).contains(i) <==> i < parents.len() && !parents.contains(i) by {
        if i < parents.len() {
            assert(ids[i as int] == i);
        }
        if appears_in(i, parents) {
            let j = choose|j: int| 0 <= j < parents.len() && (#[trigger] parents[j]).eq_spec(&i);
            assert(parents[j] == i);
        }
        if parents.contains(i) {
            let j = choose|j: int| 0 <= j < parents.len() && parents[j] == i;
            assert(parents[j].eq_spec(&i));
        }
    }
}

} // verus!
