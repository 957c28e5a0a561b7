//! Disjoint sets over `0..n`, as a forest of parent links, for grouping
//! the points of a board into nodes.

use vstd::prelude::*;

verus! {

/// Disjoint sets over `0..n`. Every element points at a parent; a root
/// points at itself and names its set.
pub struct Forest {
    parent: Vec<usize>,
    /// The root of each element's tree.
    rep: Ghost<Seq<nat>>,
    /// Strictly higher for a parent than for its child.
    rank: Ghost<Seq<nat>>,
    /// No rank is higher.
    top: Ghost<nat>,
}

impl Forest {
    /// The set of each element, named by its root.
    pub closed spec fn roots(&self) -> Seq<nat> {
        self.rep@
    }

    /// How many elements there are.
    pub closed spec fn size(&self) -> nat {
        self.parent@.len()
    }

    /// The parent links are consistent with the roots and go up in rank.
    pub closed spec fn wf(&self) -> bool {
        let n = self.parent@.len();
        &&& self.rep@.len() == n
        &&& self.rank@.len() == n
        &&& forall|x: int| 0 <= x < n ==> {
            &&& (#[trigger] self.parent@[x]) < n
            &&& self.rep@[x] < n
            &&& self.parent@[self.rep@[x] as int] == self.rep@[x]
            &&& self.rep@[self.parent@[x] as int] == self.rep@[x]
            &&& self.rank@[x] <= self.top@
            &&& (self.parent@[x] != x ==> self.rank@[x] < self.rank@[self.parent@[x] as int])
            &&& (self.parent@[x] == x ==> self.rep@[x] == x)
        }
    }

    /// `n` elements, each in a set of its own.
    pub fn new(n: usize) -> (f: Forest)
        ensures
            f.wf(),
            f.size() == n,
            f.roots().len() == n,
            forall|x: int| 0 <= x < n ==> #[trigger] f.roots()[x] == x,
    {
        let mut parent: Vec<usize> = Vec::new();
        let mut i: usize = 0;
        while i < n
            invariant
                i <= n,
                parent@.len() == i,
                forall|x: int| 0 <= x < i ==> #[trigger] parent@[x] == x,
            decreases n - i,
        {
            parent.push(i);
            i = i + 1;
        }
        let ghost rep = Seq::new(n as nat, |x: int| x as nat);
        let ghost rank = Seq::new(n as nat, |x: int| 0nat);
        Forest { parent, rep: Ghost(rep), rank: Ghost(rank), top: Ghost(0) }
    }

    /// The root of `x`'s tree. The sets stay as they are; links on the way
    /// up are shortened.
    pub fn find(&mut self, x: usize) -> (r: usize)
        requires
            old(self).wf(),
            x < old(self).size(),
        ensures
            final(self).wf(),
            final(self).size() == old(self).size(),
            final(self).roots() == old(self).roots(),
            r == old(self).roots()[x as int],
            r < old(self).size(),
            old(self).roots()[r as int] == r,
    {
        let mut i = x;
        while self.parent[i] != i
            invariant
                self.wf(),
                self.size() == old(self).size(),
                self.roots() == old(self).roots(),
                i < self.size(),
                self.rep@[i as int] == old(self).roots()[x as int],
            decreases self.top@ - self.rank@[i as int],
        {
            let p = self.parent[i];
            let g = self.parent[p];
            proof {
                assert(self.parent@[i as int] < self.size());
                assert(self.parent@[p as int] < self.size());
                assert(self.rank@[i as int] < self.rank@[p as int]);
                assert(self.rank@[i as int] < self.rank@[g as int]);
                assert(self.parent@[g as int] < self.size());
                assert(self.rank@[g as int] <= self.top@);
            }
            self.parent.set(i, g);
            proof {
                assert forall|y: int| 0 <= y < self.parent@.len() implies {
                    &&& (#[trigger] self.parent@[y]) < self.parent@.len()
                    &&& self.rep@[y] < self.parent@.len()
                    &&& self.parent@[self.rep@[y] as int] == self.rep@[y]
                    &&& self.rep@[self.parent@[y] as int] == self.rep@[y]
                    &&& self.rank@[y] <= self.top@
                    &&& (self.parent@[y] != y ==> self.rank@[y] < self.rank@[self.parent@[y] as int])
                    &&& (self.parent@[y] == y ==> self.rep@[y] == y)
                } by {
                    if y == i {
                    } else if self.rep@[y] == i {
                        assert(self.parent@[i as int] != i);
                    }
                }
            }
            i = g;
        }
        i
    }

    /// Merge the set rooted at `a` into the one rooted at `b`.
    pub fn merge(&mut self, a: usize, b: usize)
        requires
            old(self).wf(),
            a < old(self).size(),
            b < old(self).size(),
            old(self).roots()[a as int] == a,
            old(self).roots()[b as int] == b,
        ensures
            final(self).wf(),
            final(self).size() == old(self).size(),
            final(self).roots() == Seq::new(old(self).size(), |y: int| if old(self).roots()[y] == a { b as nat } else { old(self).roots()[y] }),
    {
        let ghost rep0 = self.rep@;
        let ghost n = self.size();
        let ghost newrep = Seq::new(n, |y: int| if rep0[y] == a { b as nat } else { rep0[y] });
        if a == b {
            assert(self.rep@ =~= newrep);
            return;
        }
        proof {
            assert(self.parent@[a as int] == a);
            assert(self.parent@[b as int] == b);
        }
        self.parent.set(a, b);
        proof {
            let r = self.rank@[b as int];
            let ra = self.rank@[a as int];
            let nr: nat = if r > ra { r } else { ra + 1 };
            self.rank@ = self.rank@.update(b as int, nr);
            self.top@ = if self.top@ > nr { self.top@ } else { nr };
            self.rep@ = newrep;
            assert forall|y: int| 0 <= y < self.parent@.len() implies {
                &&& (#[trigger] self.parent@[y]) < self.parent@.len()
                &&& self.rep@[y] < self.parent@.len()
                &&& self.parent@[self.rep@[y] as int] == self.rep@[y]
                &&& self.rep@[self.parent@[y] as int] == self.rep@[y]
                &&& self.rank@[y] <= self.top@
                &&& (self.parent@[y] != y ==> self.rank@[y] < self.rank@[self.parent@[y] as int])
                &&& (self.parent@[y] == y ==> self.rep@[y] == y)
            } by {
                if y == a {
                } else {
                    assert(self.parent@[y] == old(self).parent@[y]);
                    assert(rep0[old(self).parent@[y] as int] == rep0[y]);
                    if rep0[y] != a {
                        assert(old(self).parent@[rep0[y] as int] == rep0[y]);
                    }
                }
            }
        }
    }

    /// Every element's root is an element, and is its own root.
    pub proof fn lemma_roots(&self)
        requires
            self.wf(),
        ensures
            self.roots().len() == self.size(),
            forall|x: int| 0 <= x < self.size() ==> #[trigger] self.roots()[x] < self.size() && self.roots()[self.roots()[x] as int] == self.roots()[x],
    {
        assert forall|x: int| 0 <= x < self.size() implies #[trigger] self.roots()[x] < self.size() && self.roots()[self.roots()[x] as int] == self.roots()[x] by {
            assert(self.parent@[x] < self.size());
        }
    }
}

} // verus!
