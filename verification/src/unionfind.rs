//! A disjoint-set forest over the integers `0..n`.

use vstd::prelude::*;
use vstd::set_lib::*;

verus! {

/// A partition of `0..n` into classes that can only be merged.
///
/// Every class has one member that stands for it, its root. Which member
/// that is depends on the order of the calls and is no part of any contract
/// of `union`: callers learn from it only which elements share a class.
pub struct DisjointSetForest {
    /// Parent pointers; a root points to itself.
    parent: Vec<usize>,
    /// For each root, the number of elements of its class.
    tree_size: Vec<usize>,
    /// The root of each element's class.
    rep: Ghost<Seq<int>>,
    /// A measure that falls strictly along every parent pointer.
    depth: Ghost<Seq<nat>>,
}

/// The elements whose root is `r`.
spec fn class_of(rep: Seq<int>, r: int) -> Set<int> {
    Set::new(|i: int| 0 <= i < rep.len() && rep[i] == r)
}

proof fn lemma_class_bounded(rep: Seq<int>, r: int)
    ensures
        class_of(rep, r).finite(),
        class_of(rep, r).len() <= rep.len(),
{
    let all = set_int_range(0, rep.len() as int);
    lemma_int_range(0, rep.len() as int);
    assert(class_of(rep, r).subset_of(all));
    lemma_len_subset(class_of(rep, r), all);
}

impl DisjointSetForest {
    /// The parent pointers form a forest over `0..n` whose trees are the classes.
    pub closed spec fn well_formed(&self) -> bool {
        let n = self.parent@.len();
        &&& self.tree_size@.len() == n
        &&& self.rep@.len() == n
        &&& self.depth@.len() == n
        &&& forall|i: int|
            0 <= i < n ==> {
                &&& 0 <= #[trigger] self.parent@[i] < n
                &&& 0 <= self.rep@[i] < n
                &&& self.rep@[self.parent@[i] as int] == self.rep@[i]
                &&& self.rep@[self.rep@[i]] == self.rep@[i]
                &&& (self.parent@[i] == i <==> self.rep@[i] == i)
                &&& (self.parent@[i] != i ==> self.depth@[self.parent@[i] as int] < self.depth@[i])
            }
        &&& forall|r: int|
            0 <= r < n && self.rep@[r] == r ==> #[trigger] self.tree_size@[r] == class_of(
                self.rep@,
                r,
            ).len()
    }

    /// The number of elements.
    pub closed spec fn spec_len(&self) -> nat {
        self.parent@.len()
    }

    /// The root of the class of `i`.
    pub closed spec fn root_of(&self, i: int) -> int {
        self.rep@[i]
    }

    /// Whether `a` and `b` are in one class.
    pub open spec fn same_set(&self, a: int, b: int) -> bool {
        self.root_of(a) == self.root_of(b)
    }

    /// A root is an element of the forest and its own root.
    pub proof fn lemma_root_of(&self, i: int)
        requires
            self.well_formed(),
            0 <= i < self.spec_len(),
        ensures
            0 <= self.root_of(i) < self.spec_len(),
            self.root_of(self.root_of(i)) == self.root_of(i),
    {
        assert(0 <= self.parent@[i] < self.spec_len());
    }

    /// A forest of `n` classes of one element each.
    pub fn new(n: usize) -> (forest: Self)
        ensures
            forest.well_formed(),
            forest.spec_len() == n,
            forall|i: int| 0 <= i < n ==> #[trigger] forest.root_of(i) == i,
    {
        let mut parent: Vec<usize> = Vec::with_capacity(n);
        let mut tree_size: Vec<usize> = Vec::with_capacity(n);
        let mut i: usize = 0;
        while i < n
            invariant
                i <= n,
                parent@.len() == i,
                tree_size@.len() == i,
                forall|k: int| 0 <= k < i ==> #[trigger] parent@[k] == k,
                forall|k: int| 0 <= k < i ==> #[trigger] tree_size@[k] == 1,
            decreases n - i,
        {
            parent.push(i);
            tree_size.push(1);
            i += 1;
        }
        let ghost rep = Seq::new(n as nat, |k: int| k);
        let ghost depth = Seq::new(n as nat, |k: int| 0nat);
        let forest = DisjointSetForest { parent, tree_size, rep: Ghost(rep), depth: Ghost(depth) };
        proof {
            assert forall|r: int| 0 <= r < n && rep[r] == r implies #[trigger] tree_size@[r]
                == class_of(rep, r).len() by {
                assert(class_of(rep, r) =~= set![r]);
            }
        }
        forest
    }

    /// The number of elements.
    pub fn len(&self) -> (n: usize)
        ensures
            n == self.spec_len(),
    {
        self.parent.len()
    }

    /// The root of the class of `a`. Shortens the path from `a` to its root on
    /// the way; the classes and their roots stay as they were.
    pub fn root(&mut self, a: usize) -> (r: usize)
        requires
            old(self).well_formed(),
            a < old(self).spec_len(),
        ensures
            final(self).well_formed(),
            final(self).spec_len() == old(self).spec_len(),
            forall|i: int| final(self).root_of(i) == old(self).root_of(i),
            r == old(self).root_of(a as int),
            r == old(self).root_of(r as int),
            r < old(self).spec_len(),
    {
        let mut j: usize = a;
        let mut p: usize = self.parent[j];
        while p != j
            invariant
                self.well_formed(),
                self.parent@.len() == old(self).parent@.len(),
                self.rep@ == old(self).rep@,
                j < self.parent@.len(),
                p == self.parent@[j as int],
                self.rep@[j as int] == self.rep@[a as int],
            decreases self.depth@[j as int],
        {
            let g: usize = self.parent[p];
            proof {
                assert(0 <= self.parent@[p as int] < self.parent@.len());
                assert(self.depth@[g as int] < self.depth@[j as int]);
            }
            self.parent.set(j, g);
            j = g;
            p = self.parent[j];
        }
        j
    }

    /// Whether `a` and `b` are in one class.
    pub fn find(&mut self, a: usize, b: usize) -> (r: bool)
        requires
            old(self).well_formed(),
            a < old(self).spec_len(),
            b < old(self).spec_len(),
        ensures
            final(self).well_formed(),
            final(self).spec_len() == old(self).spec_len(),
            forall|i: int| final(self).root_of(i) == old(self).root_of(i),
            r == old(self).same_set(a as int, b as int),
    {
        let ra = self.root(a);
        let rb = self.root(b);
        ra == rb
    }

    /// Merges the class of `a` with the class of `b`. Two elements share a
    /// class afterwards exactly if they did before, or if one was with `a`
    /// and the other with `b`. Where `a` and `b` shared a class already,
    /// every class keeps its root.
    pub fn union(&mut self, a: usize, b: usize)
        requires
            old(self).well_formed(),
            a < old(self).spec_len(),
            b < old(self).spec_len(),
        ensures
            final(self).well_formed(),
            final(self).spec_len() == old(self).spec_len(),
            forall|x: int, y: int|
                0 <= x < old(self).spec_len() && 0 <= y < old(self).spec_len() ==> (
                #[trigger] final(self).same_set(x, y) <==> {
                    ||| old(self).same_set(x, y)
                    ||| old(self).same_set(x, a as int) && old(self).same_set(y, b as int)
                    ||| old(self).same_set(x, b as int) && old(self).same_set(y, a as int)
                }),
            old(self).same_set(a as int, b as int) ==> forall|i: int|
                final(self).root_of(i) == old(self).root_of(i),
    {
        let ra = self.root(a);
        let rb = self.root(b);
        if ra == rb {
            return ;
        }
        let size_a = self.tree_size[ra];
        let size_b = self.tree_size[rb];
        if size_a < size_b {
            self.link(ra, rb);
        } else {
            self.link(rb, ra);
        }
    }

    /// Hangs the tree of the root `child` below the root `top`.
    fn link(&mut self, child: usize, top: usize)
        requires
            old(self).well_formed(),
            child < old(self).spec_len(),
            top < old(self).spec_len(),
            child != top,
            old(self).root_of(child as int) == child,
            old(self).root_of(top as int) == top,
        ensures
            final(self).well_formed(),
            final(self).spec_len() == old(self).spec_len(),
            forall|i: int|
                0 <= i < old(self).spec_len() ==> #[trigger] final(self).root_of(i) == (if old(
                    self,
                ).root_of(i) == child {
                    top as int
                } else {
                    old(self).root_of(i)
                }),
    {
        let ghost n = self.parent@.len() as int;
        let ghost rep = self.rep@;
        let ghost depth = self.depth@;
        let ghost merged = Seq::new(n as nat, |i: int| if rep[i] == child { top as int } else { rep[i] });
        let ghost lifted = Seq::new(
            n as nat,
            |i: int| if rep[i] == child { depth[i] + depth[top as int] + 1 } else { depth[i] },
        );
        proof {
            assert(0 <= self.parent@[child as int] < n);
            assert(0 <= self.parent@[top as int] < n);
            lemma_class_bounded(rep, child as int);
            lemma_class_bounded(rep, top as int);
            lemma_class_bounded(merged, top as int);
            assert(class_of(merged, top as int) =~= class_of(rep, top as int) + class_of(
                rep,
                child as int,
            ));
            assert(class_of(rep, top as int).disjoint(class_of(rep, child as int)));
            lemma_set_disjoint_lens(class_of(rep, top as int), class_of(rep, child as int));
            assert(self.tree_size@[top as int] == class_of(rep, top as int).len());
            assert(self.tree_size@[child as int] == class_of(rep, child as int).len());
            assert(n == self.parent.len());
        }
        let total: usize = self.tree_size[top] + self.tree_size[child];
        self.parent.set(child, top);
        self.tree_size.set(top, total);
        self.rep = Ghost(merged);
        self.depth = Ghost(lifted);
        proof {
            assert forall|i: int| 0 <= i < n implies {
                &&& 0 <= #[trigger] self.parent@[i] < n
                &&& 0 <= self.rep@[i] < n
                &&& self.rep@[self.parent@[i] as int] == self.rep@[i]
                &&& self.rep@[self.rep@[i]] == self.rep@[i]
                &&& (self.parent@[i] == i <==> self.rep@[i] == i)
                &&& (self.parent@[i] != i ==> self.depth@[self.parent@[i] as int]
                    < self.depth@[i])
            } by {
                assert(0 <= old(self).parent@[i] < n);
            }
            assert forall|r: int| 0 <= r < n && self.rep@[r] == r implies #[trigger] self.tree_size@[r]
                == class_of(self.rep@, r).len() by {
                if r != top {
                    assert(0 <= old(self).parent@[r] < n);
                    assert(class_of(merged, r) =~= class_of(rep, r));
                    assert(old(self).tree_size@[r] == class_of(rep, r).len());
                }
            }
        }
    }
}

} // verus!
