//! Union-find over dense indices.
use vstd::prelude::*;

verus! {

/// Disjoint sets of the indices `0..len`, each set named by one of its
/// members, its root.
pub struct Dsu {
    parent: Vec<usize>,
    /// The root of every index.
    roots: Ghost<Seq<usize>>,
    /// A measure every step towards a root decreases.
    depth: Ghost<Seq<nat>>,
}

impl View for Dsu {
    type V = Seq<usize>;

    closed spec fn view(&self) -> Seq<usize> {
        self.roots@
    }
}

/// Every index its own root.
pub open spec fn singletons(n: nat) -> Seq<usize> {
    Seq::new(n, |i: int| i as usize)
}

/// The roots after the sets of `a` and `b` merge: `a`'s root names the
/// merged set.
pub open spec fn merged(roots: Seq<usize>, a: int, b: int) -> Seq<usize> {
    Seq::new(
        roots.len(),
        |i: int| if roots[i] == roots[b] {
            roots[a]
        } else {
            roots[i]
        },
    )
}

/// A root map: every entry is an index, and a root is its own.
pub open spec fn is_root_map(roots: Seq<usize>) -> bool {
    forall|i: int|
        0 <= i < roots.len() ==> (#[trigger] roots[i]) < roots.len() && roots[roots[i] as int]
            == roots[i]
}

/// Merging keeps a root map one, with the same indices.
pub proof fn merged_is_root_map(roots: Seq<usize>, a: int, b: int)
    requires
        is_root_map(roots),
        0 <= a < roots.len(),
        0 <= b < roots.len(),
    ensures
        is_root_map(merged(roots, a, b)),
        merged(roots, a, b).len() == roots.len(),
{
}

/// After a merge two indices share a root exactly if they did before, or
/// lie one in each of the merged sets.
pub proof fn merged_connects(roots: Seq<usize>, a: int, b: int, i: int, j: int)
    requires
        is_root_map(roots),
        0 <= a < roots.len(),
        0 <= b < roots.len(),
        0 <= i < roots.len(),
        0 <= j < roots.len(),
    ensures
        merged(roots, a, b)[i] == merged(roots, a, b)[j] <==> {
            ||| roots[i] == roots[j]
            ||| (roots[i] == roots[a] || roots[i] == roots[b]) && (roots[j] == roots[a] || roots[j]
                == roots[b])
        },
{
}

impl Dsu {
    /// The internal forest represents the root map.
    pub closed spec fn well_formed(&self) -> bool {
        let n = self.parent@.len();
        let parent = self.parent@;
        let roots = self.roots@;
        let depth = self.depth@;
        &&& roots.len() == n
        &&& depth.len() == n
        &&& forall|i: int| 0 <= i < n ==> (#[trigger] parent[i]) < n
        &&& forall|i: int| 0 <= i < n ==> (#[trigger] roots[i]) < n
        &&& forall|i: int| 0 <= i < n ==> parent[(#[trigger] roots[i]) as int] == roots[i]
        &&& forall|i: int| 0 <= i < n ==> roots[(#[trigger] parent[i]) as int] == roots[i]
        &&& forall|i: int| 0 <= i < n && (#[trigger] parent[i]) == i ==> roots[i] == i
        &&& forall|i: int|
            0 <= i < n && (#[trigger] parent[i]) != i ==> depth[parent[i] as int] < depth[i]
    }

    /// A well-formed forest's view is a root map.
    pub proof fn roots_are_roots(&self)
        requires
            self.well_formed(),
        ensures
            is_root_map(self@),
    {
        assert forall|i: int| 0 <= i < self@.len() implies (#[trigger] self@[i]) < self@.len()
            && self@[self@[i] as int] == self@[i] by {
            let r = self.roots@[i];
            assert(self.parent@[r as int] == r);
        }
    }

    /// Disjoint singletons `0..n`.
    pub fn new(n: usize) -> (s: Dsu)
        ensures
            s.well_formed(),
            s@ == singletons(n as nat),
    {
        let mut s = Dsu {
            parent: Vec::new(),
            roots: Ghost(Seq::empty()),
            depth: Ghost(Seq::empty()),
        };
        s.grow(n);
        s
    }

    /// How many indices there are.
    pub fn len(&self) -> (n: usize)
        requires
            self.well_formed(),
        ensures
            n == self@.len(),
    {
        self.parent.len()
    }

    /// Extend to at least `n` indices, each new one a set of its own.
    pub fn grow(&mut self, n: usize)
        requires
            old(self).well_formed(),
        ensures
            final(self).well_formed(),
            final(self)@.len() == (if n > old(self)@.len() {
                n as nat
            } else {
                old(self)@.len()
            }),
            forall|i: int| 0 <= i < old(self)@.len() ==> #[trigger] final(self)@[i] == old(self)@[i],
            forall|i: int|
                old(self)@.len() <= i < final(self)@.len() ==> #[trigger] final(self)@[i] == i,
    {
        while self.parent.len() < n
            invariant
                self.well_formed(),
                self@.len() <= n || self@.len() == old(self)@.len(),
                self@.len() >= old(self)@.len(),
                forall|i: int| 0 <= i < old(self)@.len() ==> #[trigger] self@[i] == old(self)@[i],
                forall|i: int| old(self)@.len() <= i < self@.len() ==> #[trigger] self@[i] == i,
            decreases n - self.parent.len(),
        {
            let next: usize = self.parent.len();
            self.parent.push(next);
            proof {
                self.roots@ = self.roots@.push(next);
                self.depth@ = self.depth@.push(0);
            }
        }
    }

    /// Root of `x`, with path halving.
    pub fn find(&mut self, x: usize) -> (root: usize)
        requires
            old(self).well_formed(),
            x < old(self)@.len(),
        ensures
            final(self).well_formed(),
            final(self)@ == old(self)@,
            root == old(self)@[x as int],
            root < old(self)@.len(),
    {
        let mut at: usize = x;
        while self.parent[at] != at
            invariant
                self.well_formed(),
                self@ == old(self)@,
                self.depth@ == old(self).depth@,
                at < self@.len(),
                self@[at as int] == old(self)@[x as int],
            decreases self.depth@[at as int],
        {
            let up: usize = self.parent[at];
            let next: usize = self.parent[up];
            self.parent.set(at, next);
            at = next;
        }
        at
    }

    /// Merge the sets containing `a` and `b`: `a`'s root names the result.
    pub fn union(&mut self, a: usize, b: usize)
        requires
            old(self).well_formed(),
            a < old(self)@.len(),
            b < old(self)@.len(),
        ensures
            final(self).well_formed(),
            final(self)@ == merged(old(self)@, a as int, b as int),
    {
        let ra: usize = self.find(a);
        let rb: usize = self.find(b);
        proof {
            self.roots_are_roots();
        }
        if ra != rb {
            let ghost roots = self.roots@;
            let ghost depth = self.depth@;
            self.parent.set(rb, ra);
            proof {
                self.depth@ = Seq::new(
                    depth.len(),
                    |i: int| if roots[i] == rb {
                        depth[i] + depth[ra as int] + 1
                    } else {
                        depth[i]
                    },
                );
                self.roots@ = merged(roots, a as int, b as int);
            }
        } else {
            assert(self@ =~= merged(old(self)@, a as int, b as int));
        }
    }
}

/// A merged set is named by the first's root, and every other set stays as it
/// was; at first every index is a set of its own.
pub proof fn a_merged_set_is_named_by_the_first(roots: Seq<usize>, a: int, b: int, i: int, n: nat)
    requires
        0 <= a < roots.len(),
        0 <= b < roots.len(),
        0 <= i < roots.len(),
        n <= usize::MAX,
    ensures
        merged(roots, a, b)[a] == roots[a],
        merged(roots, a, b)[b] == roots[a],
        roots[i] != roots[b] ==> merged(roots, a, b)[i] == roots[i],
        roots[i] == roots[b] ==> merged(roots, a, b)[i] == roots[a],
        i < n ==> singletons(n)[i] == i,
        singletons(n).len() == n,
{
}

} // verus!
