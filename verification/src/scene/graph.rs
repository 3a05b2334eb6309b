//! The structure of a scene graph: which node is the parent of which, the
//! order of each node's children, and which nodes are visible. Nodes live in
//! an arena and are named by their index; a node without a parent is a root.
//!
//! Adding a child requires the child to be a root (a node has one parent) and
//! the new parent to lie outside the child's subtree, so the graph stays a
//! forest and every traversal terminates.

use vstd::prelude::*;

verus! {

/// A forest of scene nodes. Node `i` is the `i`-th node created.
pub struct SceneTree {
    parent: Vec<Option<usize>>,
    children: Vec<Vec<usize>>,
    visible: Vec<bool>,
    fresh: Vec<bool>,
    anc: Ghost<Seq<Seq<usize>>>,
}

/// `s` with the element at position `i` replaced by its last element and the
/// last position dropped (`Vec::swap_remove`).
pub open spec fn swap_removed(s: Seq<usize>, i: int) -> Seq<usize> {
    s.update(i, s.last()).drop_last()
}

impl SceneTree {
    /// Number of nodes.
    pub closed spec fn n(self) -> nat {
        self.parent@.len()
    }

    /// The parent of each node.
    pub closed spec fn parents(self) -> Seq<Option<usize>> {
        self.parent@
    }

    /// The children of each node, in order.
    pub closed spec fn kids(self) -> Seq<Seq<usize>> {
        Seq::new(self.children@.len(), |i: int| self.children@[i]@)
    }

    /// The visibility flag of each node.
    pub closed spec fn visibility(self) -> Seq<bool> {
        self.visible@
    }

    /// Whether each node's world transform is up to date.
    pub closed spec fn freshness(self) -> Seq<bool> {
        self.fresh@
    }

    /// The ancestors of each node, nearest first: its parent, its parent's
    /// parent, and so on up to its root.
    pub closed spec fn ancestors(self) -> Seq<Seq<usize>> {
        self.anc@
    }

    /// The number of ancestors of node `x`.
    pub open spec fn depth(self, x: int) -> int {
        self.ancestors()[x].len() as int
    }

    /// Whether node `y` lies in the subtree rooted at node `x`.
    pub open spec fn in_subtree(self, y: int, x: int) -> bool {
        y == x || self.ancestors()[y].contains(x as usize)
    }

    /// Whether node `y` and every node on the path from `y` up to `x`
    /// (both included) are visible.
    pub open spec fn path_visible(self, y: int, x: int) -> bool {
        &&& self.visibility()[y]
        &&& forall|i: int|
            0 <= i < self.depth(y) - self.depth(x) ==> #[trigger] self.visibility()[self.ancestors()[y][i] as int]
    }

    /// Whether node `y` and every node strictly between `y` and its ancestor
    /// `x` have an up-to-date world transform (always true for `y == x`):
    /// invalidating `x` reaches `y` exactly then.
    pub open spec fn chain_fresh(self, y: int, x: int) -> bool {
        y == x || (self.freshness()[y] && forall|i: int|
            0 <= i < self.depth(y) - self.depth(x) - 1 ==> #[trigger] self.freshness()[self.ancestors()[y][i] as int])
    }

    /// Internal consistency: parent and child links agree, each node's
    /// ancestor chain is its parent followed by the parent's chain, and no
    /// node is its own ancestor.
    pub closed spec fn wf(self) -> bool {
        let n = self.parent@.len();
        let anc = self.anc@;
        &&& n < usize::MAX
        &&& self.children@.len() == n
        &&& self.visible@.len() == n
        &&& self.fresh@.len() == n
        &&& anc.len() == n
        &&& forall|y: int| 0 <= y < n ==> ((#[trigger] self.parent@[y]) is None <==> anc[y].len() == 0)
        &&& forall|y: int|
            0 <= y < n && (#[trigger] self.parent@[y]) is Some ==> {
                let p = self.parent@[y]->0;
                &&& p < n
                &&& anc[y].len() > 0
                &&& anc[y][0] == p
                &&& anc[y].drop_first() == anc[p as int]
                &&& self.children@[p as int]@.contains(y as usize)
            }
        &&& forall|y: int| 0 <= y < n ==> !(#[trigger] anc[y]).contains(y as usize)
        &&& forall|x: int| 0 <= x < n ==> (#[trigger] self.children@[x])@.no_duplicates()
        &&& forall|x: int, k: int|
            0 <= x < n && 0 <= k < self.children@[x]@.len() ==> {
                &&& (#[trigger] self.children@[x]@[k]) < n
                &&& self.parent@[self.children@[x]@[k] as int] == Some(x as usize)
            }
    }

    proof fn lemma_view(self)
        ensures
            self.kids().len() == self.children@.len(),
            forall|i: int| 0 <= i < self.children@.len() ==> #[trigger] self.kids()[i] == self.children@[i]@,
    {
    }
}

impl SceneTree {
    /// The nodes of the subtree rooted at `x` in depth-first pre-order: the
    /// node, then the subtrees of its children in child order. With
    /// `visible_only`, a hidden node is skipped together with its subtree.
    pub open spec fn walk(self, x: int, visible_only: bool) -> Seq<usize>
        decreases self.n() - self.depth(x), self.kids()[x].len() + 1,
        when self.wf() && 0 <= x < self.n()
    {
        if visible_only && !self.visibility()[x] {
            Seq::empty()
        } else {
            seq![x as usize] + self.walk_from(x, 0, visible_only)
        }
    }

    /// The pre-order walks of the subtrees of children `i ..` of node `x`,
    /// one after the other.
    pub open spec fn walk_from(self, x: int, i: int, visible_only: bool) -> Seq<usize>
        decreases self.n() - self.depth(x), self.kids()[x].len() - i,
        when self.wf() && 0 <= x < self.n() && 0 <= i
    {
        if i >= self.kids()[x].len() {
            Seq::empty()
        } else {
            proof {
                lemma_child(self, x, i);
            }
            self.walk(self.kids()[x][i] as int, visible_only) + self.walk_from(x, i + 1, visible_only)
        }
    }

    /// An empty forest.
    pub fn new() -> (t: SceneTree)
        ensures
            t.wf(),
            t.n() == 0,
    {
        SceneTree {
            parent: Vec::new(),
            children: Vec::new(),
            visible: Vec::new(),
            fresh: Vec::new(),
            anc: Ghost(Seq::empty()),
        }
    }

    /// Number of nodes.
    pub fn len(&self) -> (n: usize)
        ensures
            n == self.n(),
    {
        self.parent.len()
    }

    /// Creates a new root node: visible, without children. Returns its index.
    pub fn add_node(&mut self) -> (x: usize)
        requires
            old(self).wf(),
            old(self).n() + 1 < usize::MAX,
        ensures
            final(self).wf(),
            x == old(self).n(),
            final(self).n() == old(self).n() + 1,
            final(self).parents() == old(self).parents().push(None),
            final(self).kids() == old(self).kids().push(Seq::empty()),
            final(self).visibility() == old(self).visibility().push(true),
            final(self).freshness() == old(self).freshness().push(false),
            final(self).ancestors() == old(self).ancestors().push(Seq::empty()),
    {
        let x = self.parent.len();
        self.parent.push(None);
        self.children.push(Vec::new());
        self.visible.push(true);
        self.fresh.push(false);
        self.anc = Ghost(self.anc@.push(Seq::empty()));
        proof {
            assert(self.kids() =~= old(self).kids().push(Seq::empty()));
        }
        x
    }

    /// The parent of node `x`, if any.
    pub fn parent(&self, x: usize) -> (p: Option<usize>)
        requires
            self.wf(),
            x < self.n(),
        ensures
            p == self.parents()[x as int],
    {
        self.parent[x]
    }

    /// Whether node `x` has no parent.
    pub fn is_root(&self, x: usize) -> (b: bool)
        requires
            self.wf(),
            x < self.n(),
        ensures
            b == self.parents()[x as int] is None,
    {
        self.parent[x].is_none()
    }

    /// The children of node `x`, in order.
    pub fn children(&self, x: usize) -> (c: &Vec<usize>)
        requires
            self.wf(),
            x < self.n(),
        ensures
            c@ == self.kids()[x as int],
    {
        &self.children[x]
    }

    /// Whether node `x` is visible.
    pub fn is_visible(&self, x: usize) -> (b: bool)
        requires
            self.wf(),
            x < self.n(),
        ensures
            b == self.visibility()[x as int],
    {
        self.visible[x]
    }

    /// Sets the visibility of node `x`; a hidden node hides its subtree.
    pub fn set_visible(&mut self, x: usize, visible: bool)
        requires
            old(self).wf(),
            x < old(self).n(),
        ensures
            final(self).wf(),
            final(self).n() == old(self).n(),
            final(self).parents() == old(self).parents(),
            final(self).kids() == old(self).kids(),
            final(self).ancestors() == old(self).ancestors(),
            final(self).visibility() == old(self).visibility().update(x as int, visible),
            final(self).freshness() == old(self).freshness(),
    {
        self.visible.set(x, visible);
        proof {
            assert(self.kids() =~= old(self).kids());
        }
    }

    /// Makes the root `child` the last child of `parent`. A node that already
    /// has a parent cannot be added (the scene graph panics on it), and
    /// `parent` must lie outside the subtree of `child`, else the graph would
    /// contain a cycle and no traversal of it would end.
    pub fn add_child(&mut self, parent: usize, child: usize)
        requires
            old(self).wf(),
            parent < old(self).n(),
            child < old(self).n(),
            old(self).parents()[child as int] is None,
            !old(self).in_subtree(parent as int, child as int),
        ensures
            final(self).wf(),
            final(self).n() == old(self).n(),
            final(self).parents() == old(self).parents().update(child as int, Some(parent)),
            final(self).kids() == old(self).kids().update(
                parent as int,
                old(self).kids()[parent as int].push(child),
            ),
            final(self).visibility() == old(self).visibility(),
            final(self).freshness() == old(self).freshness(),
    {
        let ghost t0 = *self;
        self.parent.set(child, Some(parent));
        self.children[parent].push(child);
        self.anc = Ghost(
            Seq::new(
                t0.anc@.len(),
                |y: int|
                    if t0.in_subtree(y, child as int) {
                        t0.anc@[y] + seq![parent] + t0.anc@[parent as int]
                    } else {
                        t0.anc@[y]
                    },
            ),
        );
        proof {
            lemma_add_child_wf(t0, *self, parent as int, child as int);
            assert(self.kids() =~= t0.kids().update(parent as int, t0.kids()[parent as int].push(child)));
        }
    }

    /// The nodes whose world transform must be recomputed before that of `y`
    /// is read, top-down: `y` and its ancestors, as far up as they are all
    /// out of date (none when `y` is up to date).
    pub open spec fn stale_chain(self, y: int) -> Seq<usize>
        decreases self.depth(y),
        when self.wf() && 0 <= y < self.n()
    {
        if self.freshness()[y] {
            Seq::empty()
        } else {
            match self.parents()[y] {
                None => seq![y as usize],
                Some(p) => {
                    proof {
                        lemma_parent(self, y);
                    }
                    self.stale_chain(p as int).push(y as usize)
                },
            }
        }
    }

    /// Whether the world transform of node `x` is up to date.
    pub fn is_up_to_date(&self, x: usize) -> (b: bool)
        requires
            self.wf(),
            x < self.n(),
        ensures
            b == self.freshness()[x as int],
    {
        self.fresh[x]
    }

    /// Marks the world transform of `x` out of date after its local
    /// transform changed, and with it that of every descendant reached
    /// through up-to-date nodes (an out-of-date child stops the descent).
    pub fn invalidate(&mut self, x: usize)
        requires
            old(self).wf(),
            x < old(self).n(),
        ensures
            final(self).wf(),
            final(self).n() == old(self).n(),
            final(self).parents() == old(self).parents(),
            final(self).kids() == old(self).kids(),
            final(self).visibility() == old(self).visibility(),
            final(self).ancestors() == old(self).ancestors(),
            final(self).freshness().len() == old(self).freshness().len(),
            forall|y: int|
                0 <= y < old(self).n() ==> #[trigger] final(self).freshness()[y] == (old(self).freshness()[y]
                    && !(old(self).in_subtree(y, x as int) && old(self).chain_fresh(y, x as int))),
        decreases old(self).n() - old(self).depth(x as int),
    {
        let ghost t0 = *self;
        proof {
            t0.lemma_view();
        }
        self.fresh.set(x, false);
        proof {
            assert(self.kids() =~= t0.kids());
        }
        let mut i: usize = 0;
        while i < self.children[x].len()
            invariant
                t0 == *old(self),
                t0.wf(),
                self.wf(),
                x < t0.n(),
                self.parent@ == t0.parent@,
                self.kids() == t0.kids(),
                self.visible@ == t0.visible@,
                self.anc@ == t0.anc@,
                self.fresh@.len() == t0.fresh@.len(),
                0 <= i <= t0.kids()[x as int].len(),
                forall|y: int|
                    0 <= y < t0.n() ==> #[trigger] self.fresh@[y] == (t0.fresh@[y] && !(y == x || exists|j: int|
                        0 <= j < i && #[trigger] t0.in_subtree(y, t0.kids()[x as int][j] as int) && t0.fresh@[t0.kids()[x as int][j] as int]
                            && t0.chain_fresh(y, t0.kids()[x as int][j] as int))),
            decreases t0.kids()[x as int].len() - i,
        {
            proof {
                (*self).lemma_view();
            }
            let c = self.children[x][i];
            proof {
                lemma_child(t0, x as int, i as int);
                assert(self.fresh@[c as int] == t0.fresh@[c as int]) by {
                    if exists|j: int|
                        0 <= j < i && #[trigger] t0.in_subtree(c as int, t0.kids()[x as int][j] as int) && t0.fresh@[t0.kids()[x as int][j] as int]
                            && t0.chain_fresh(c as int, t0.kids()[x as int][j] as int) {
                        let j = choose|j: int|
                            0 <= j < i && #[trigger] t0.in_subtree(c as int, t0.kids()[x as int][j] as int) && t0.fresh@[t0.kids()[x as int][j] as int]
                                && t0.chain_fresh(c as int, t0.kids()[x as int][j] as int);
                        lemma_disjoint(t0, x as int, i as int, j, c as int);
                    }
                }
            }
            if self.fresh[c] {
                let ghost t1 = *self;
                proof {
                    assert(c == t0.kids()[x as int][i as int]);
                    assert(t1.depth(c as int) == t0.depth(x as int) + 1);
                    assert(t1.n() == t0.n());
                }
                self.invalidate(c);
                proof {
                    assert forall|y: int| 0 <= y < t0.n() && t0.in_subtree(y, c as int) implies t1.chain_fresh(y, c as int)
                        == t0.chain_fresh(y, c as int) by {
                        lemma_fresh_frame(t0, t1, x as int, i as int, y);
                    }
                }
            }
            proof {
                assert forall|y: int| 0 <= y < t0.n() implies #[trigger] self.fresh@[y] == (t0.fresh@[y] && !(y == x || exists|j: int|
                    0 <= j < i + 1 && #[trigger] t0.in_subtree(y, t0.kids()[x as int][j] as int) && t0.fresh@[t0.kids()[x as int][j] as int]
                        && t0.chain_fresh(y, t0.kids()[x as int][j] as int))) by {
                    if t0.in_subtree(y, c as int) && t0.fresh@[c as int] && t0.chain_fresh(y, c as int) {
                        assert(0 <= i < i + 1 && t0.in_subtree(y, t0.kids()[x as int][i as int] as int));
                    }
                    if exists|j: int|
                        0 <= j < i + 1 && #[trigger] t0.in_subtree(y, t0.kids()[x as int][j] as int) && t0.fresh@[t0.kids()[x as int][j] as int]
                            && t0.chain_fresh(y, t0.kids()[x as int][j] as int) {
                        let j = choose|j: int|
                            0 <= j < i + 1 && #[trigger] t0.in_subtree(y, t0.kids()[x as int][j] as int) && t0.fresh@[t0.kids()[x as int][j] as int]
                                && t0.chain_fresh(y, t0.kids()[x as int][j] as int);
                        if j < i {
                            assert(0 <= j < i && t0.in_subtree(y, t0.kids()[x as int][j] as int));
                        }
                    }
                }
            }
            i = i + 1;
        }
        proof {
            (*self).lemma_view();
            assert(i == t0.kids()[x as int].len());
            assert forall|y: int| 0 <= y < t0.n() implies #[trigger] self.fresh@[y] == (t0.fresh@[y]
                && !(t0.in_subtree(y, x as int) && t0.chain_fresh(y, x as int))) by {
                if y != x {
                    if t0.in_subtree(y, x as int) && t0.chain_fresh(y, x as int) {
                        let j = lemma_branch(t0, y, x as int);
                        lemma_child(t0, x as int, j);
                        lemma_fresh_step(t0, y, t0.kids()[x as int][j] as int, x as int);
                        assert(0 <= j < i && t0.in_subtree(y, t0.kids()[x as int][j] as int));
                    }
                    if exists|j: int|
                        0 <= j < i && #[trigger] t0.in_subtree(y, t0.kids()[x as int][j] as int) && t0.fresh@[t0.kids()[x as int][j] as int]
                            && t0.chain_fresh(y, t0.kids()[x as int][j] as int) {
                        let j = choose|j: int|
                            0 <= j < i && #[trigger] t0.in_subtree(y, t0.kids()[x as int][j] as int) && t0.fresh@[t0.kids()[x as int][j] as int]
                                && t0.chain_fresh(y, t0.kids()[x as int][j] as int);
                        lemma_child(t0, x as int, j);
                        lemma_fresh_step(t0, y, t0.kids()[x as int][j] as int, x as int);
                        lemma_step(t0, y, t0.kids()[x as int][j] as int, x as int);
                    }
                }
            }
        }
    }

    /// Brings the world transform of `y` up to date: returns the nodes whose
    /// world transform is recomputed, top-down (each from its parent's), and
    /// marks them up to date.
    pub fn update(&mut self, y: usize) -> (chain: Vec<usize>)
        requires
            old(self).wf(),
            y < old(self).n(),
        ensures
            final(self).wf(),
            chain@ == old(self).stale_chain(y as int),
            final(self).freshness()[y as int],
            final(self).n() == old(self).n(),
            final(self).parents() == old(self).parents(),
            final(self).kids() == old(self).kids(),
            final(self).visibility() == old(self).visibility(),
            final(self).ancestors() == old(self).ancestors(),
            final(self).freshness().len() == old(self).freshness().len(),
            forall|z: int|
                0 <= z < old(self).n() ==> #[trigger] final(self).freshness()[z] == (old(self).freshness()[z]
                    || old(self).stale_chain(y as int).contains(z as usize)),
        decreases old(self).depth(y as int),
    {
        let ghost t0 = *self;
        if self.fresh[y] {
            return Vec::new();
        }
        let mut chain = match self.parent[y] {
            None => Vec::new(),
            Some(p) => {
                proof {
                    lemma_parent(t0, y as int);
                }
                self.update(p)
            },
        };
        let ghost t1 = *self;
        proof {
            lemma_stale_chain_bound(t0, y as int);
            if let Some(p) = t0.parent@[y as int] {
                lemma_parent(t0, y as int);
                lemma_stale_chain_bound(t0, p as int);
            }
        }
        chain.push(y);
        self.fresh.set(y, true);
        proof {
            assert(chain@ =~= t0.stale_chain(y as int));
            assert forall|z: int| 0 <= z < t0.n() implies #[trigger] self.fresh@[z] == (t0.fresh@[z]
                || t0.stale_chain(y as int).contains(z as usize)) by {
                if z == y {
                    assert(chain@[chain@.len() - 1] == y);
                } else {
                    match t0.parents()[y as int] {
                        None => {
                            assert(t0.stale_chain(y as int) == seq![y]);
                            if t0.stale_chain(y as int).contains(z as usize) {
                                let k = choose|k: int| 0 <= k < t0.stale_chain(y as int).len() && t0.stale_chain(y as int)[k] == z as usize;
                                assert(k == 0);
                            }
                        },
                        Some(p) => {
                            let base = t0.stale_chain(p as int);
                            assert(t0.stale_chain(y as int) == base.push(y));
                            if base.contains(z as usize) {
                                let k = choose|k: int| 0 <= k < base.len() && base[k] == z as usize;
                                assert(base.push(y)[k] == z as usize);
                            }
                            if base.push(y).contains(z as usize) {
                                let k = choose|k: int| 0 <= k < base.len() + 1 && base.push(y)[k] == z as usize;
                                assert(k < base.len());
                                assert(base[k] == z as usize);
                            }
                        },
                    }
                }
            }
        }
        chain
    }

    fn propagate_into(&mut self, x: usize, visible_only: bool, out: &mut Vec<usize>)
        requires
            old(self).wf(),
            x < old(self).n(),
        ensures
            final(self).wf(),
            final(self).n() == old(self).n(),
            final(self).parents() == old(self).parents(),
            final(self).kids() == old(self).kids(),
            final(self).visibility() == old(self).visibility(),
            final(self).ancestors() == old(self).ancestors(),
            final(self).freshness().len() == old(self).freshness().len(),
            final(out)@ == old(out)@ + old(self).walk(x as int, visible_only).filter(
                |z: usize| !old(self).freshness()[z as int],
            ),
            forall|z: int|
                0 <= z < old(self).n() ==> #[trigger] final(self).freshness()[z] == (old(self).freshness()[z]
                    || old(self).walk(x as int, visible_only).contains(z as usize)),
        decreases old(self).n() - old(self).depth(x as int),
    {
        let ghost t0 = *self;
        let ghost stale = |z: usize| !t0.fresh@[z as int];
        proof {
            t0.lemma_view();
            lemma_walk_subtree(t0, x as int, visible_only);
        }
        if visible_only && !self.visible[x] {
            proof {
                reveal(Seq::filter);
                assert(old(out)@ + Seq::<usize>::empty().filter(stale) =~= old(out)@);
            }
            return;
        }
        let ghost out0 = out@;
        if !self.fresh[x] {
            out.push(x);
            self.fresh.set(x, true);
        }
        proof {
            reveal(Seq::filter);
            assert(seq![x as usize].drop_last() =~= Seq::<usize>::empty());
            assert(Seq::<usize>::empty().filter(stale) == Seq::<usize>::empty());
            if t0.fresh@[x as int] {
                assert(seq![x as usize].filter(stale) =~= Seq::<usize>::empty());
                assert(out0 + seq![x as usize].filter(stale) =~= out@);
            } else {
                assert(seq![x as usize].filter(stale) =~= seq![x as usize]);
                assert(out0 + seq![x as usize].filter(stale) =~= out@);
            }
            assert(self.kids() =~= t0.kids());
        }
        let mut i: usize = 0;
        while i < self.children[x].len()
            invariant
                t0 == *old(self),
                t0.wf(),
                self.wf(),
                x < t0.n(),
                !(visible_only && !t0.visible@[x as int]),
                self.parent@ == t0.parent@,
                self.kids() == t0.kids(),
                self.visible@ == t0.visible@,
                self.anc@ == t0.anc@,
                self.fresh@.len() == t0.fresh@.len(),
                0 <= i <= t0.kids()[x as int].len(),
                stale == (|z: usize| !t0.fresh@[z as int]),
                out0 + seq![x as usize].filter(stale) + t0.walk_from(x as int, 0, visible_only).filter(stale)
                    == out@ + t0.walk_from(x as int, i as int, visible_only).filter(stale),
                forall|z: int|
                    0 <= z < t0.n() ==> #[trigger] self.fresh@[z] == (t0.fresh@[z] || z == x || exists|j: int|
                        0 <= j < i && #[trigger] t0.walk(t0.kids()[x as int][j] as int, visible_only).contains(
                            z as usize,
                        )),
            decreases t0.kids()[x as int].len() - i,
        {
            proof {
                (*self).lemma_view();
            }
            let c = self.children[x][i];
            proof {
                lemma_child(t0, x as int, i as int);
                lemma_walk_subtree(t0, c as int, visible_only);
            }
            let ghost t1 = *self;
            let ghost before = out@;
            proof {
                assert(c == t0.kids()[x as int][i as int]);
                assert(t1.depth(c as int) == t0.depth(x as int) + 1);
                assert(t1.n() == t0.n());
            }
            self.propagate_into(c, visible_only, out);
            proof {
                let wc = t0.walk(c as int, visible_only);
                assert forall|k: int| 0 <= k < wc.len() implies (|z: usize| !t1.fresh@[z as int])(wc[k])
                    == stale(wc[k]) by {
                    let z = wc[k] as int;
                    assert(wc.contains(z as usize));
                    assert(t0.in_subtree(z, c as int));
                    lemma_step(t0, z, c as int, x as int);
                    if exists|j: int|
                        0 <= j < i && #[trigger] t0.walk(t0.kids()[x as int][j] as int, visible_only).contains(
                            z as usize,
                        ) {
                        let j = choose|j: int|
                            0 <= j < i && #[trigger] t0.walk(t0.kids()[x as int][j] as int, visible_only).contains(
                                z as usize,
                            );
                        lemma_walk_subtree(t0, t0.kids()[x as int][j] as int, visible_only);
                        lemma_disjoint(t0, x as int, i as int, j, z);
                    }
                }
                lemma_filter_agree(wc, |z: usize| !t1.fresh@[z as int], stale);
                assert(t1.walk(c as int, visible_only) == wc) by {
                    lemma_walk_frame(t0, t1, c as int, visible_only);
                }
                assert(t0.walk_from(x as int, i as int, visible_only) == wc + t0.walk_from(x as int, i + 1, visible_only));
                Seq::filter_distributes_over_add(wc, t0.walk_from(x as int, i + 1, visible_only), stale);
                assert(before + t0.walk_from(x as int, i as int, visible_only).filter(stale) =~= out@ + t0.walk_from(
                    x as int,
                    i + 1,
                    visible_only,
                ).filter(stale));
                assert forall|z: int| 0 <= z < t0.n() implies #[trigger] self.fresh@[z] == (t0.fresh@[z] || z == x
                    || exists|j: int|
                    0 <= j < i + 1 && #[trigger] t0.walk(t0.kids()[x as int][j] as int, visible_only).contains(
                        z as usize,
                    )) by {
                    if wc.contains(z as usize) {
                        assert(t0.walk(t0.kids()[x as int][i as int] as int, visible_only).contains(z as usize));
                    }
                    if exists|j: int|
                        0 <= j < i + 1 && #[trigger] t0.walk(t0.kids()[x as int][j] as int, visible_only).contains(
                            z as usize,
                        ) {
                        let j = choose|j: int|
                            0 <= j < i + 1 && #[trigger] t0.walk(t0.kids()[x as int][j] as int, visible_only).contains(
                                z as usize,
                            );
                        if j < i {
                            assert(0 <= j < i && t0.walk(t0.kids()[x as int][j] as int, visible_only).contains(
                                z as usize,
                            ));
                        }
                    }
                }
            }
            i = i + 1;
        }
        proof {
            let w = t0.walk(x as int, visible_only);
            let rest = t0.walk_from(x as int, 0, visible_only);
            assert(w == seq![x as usize] + rest);
            Seq::filter_distributes_over_add(seq![x as usize], rest, stale);
            reveal(Seq::filter);
            assert(t0.walk_from(x as int, i as int, visible_only) == Seq::<usize>::empty());
            assert(Seq::<usize>::empty().filter(stale) == Seq::<usize>::empty());
            assert(seq![x as usize].drop_last() =~= Seq::<usize>::empty());
            if t0.fresh@[x as int] {
                assert(seq![x as usize].filter(stale) =~= Seq::<usize>::empty());
                assert(out0 + seq![x as usize].filter(stale) =~= out0);
            } else {
                assert(seq![x as usize].filter(stale) =~= seq![x as usize]);
                assert(out0 + seq![x as usize].filter(stale) =~= old(out)@.push(x));
            }
            assert(out@ + Seq::<usize>::empty() =~= out@);
            assert(old(out)@ + w.filter(stale) =~= out0 + seq![x as usize].filter(stale) + rest.filter(stale));
            assert forall|z: int| 0 <= z < t0.n() implies #[trigger] self.fresh@[z] == (t0.fresh@[z] || w.contains(
                z as usize,
            )) by {
                lemma_walk_subtree(t0, x as int, visible_only);
                lemma_walk_from_subtree(t0, x as int, 0, visible_only);
                if w.contains(z as usize) && z != x {
                    let k = choose|k: int| 0 <= k < w.len() && w[k] == z as usize;
                    assert(rest[k - 1] == z as usize);
                    assert(rest.contains(z as usize));
                    let j = choose|j: int|
                        0 <= j < t0.kids()[x as int].len() && #[trigger] t0.in_subtree(z, t0.kids()[x as int][j] as int)
                            && (visible_only ==> t0.path_visible(z, t0.kids()[x as int][j] as int));
                    lemma_child(t0, x as int, j);
                    lemma_walk_subtree(t0, t0.kids()[x as int][j] as int, visible_only);
                    assert(t0.walk(t0.kids()[x as int][j] as int, visible_only).contains(z as usize));
                }
                if exists|j: int|
                    0 <= j < i && #[trigger] t0.walk(t0.kids()[x as int][j] as int, visible_only).contains(
                        z as usize,
                    ) {
                    let j = choose|j: int|
                        0 <= j < i && #[trigger] t0.walk(t0.kids()[x as int][j] as int, visible_only).contains(
                            z as usize,
                        );
                    lemma_child(t0, x as int, j);
                    lemma_walk_subtree(t0, t0.kids()[x as int][j] as int, visible_only);
                    lemma_step(t0, z, t0.kids()[x as int][j] as int, x as int);
                    if visible_only {
                        assert(t0.path_visible(z, x as int));
                    }
                    assert(w.contains(z as usize));
                }
                assert(w[0] == x as usize);
            }
        }
    }

    /// Brings the world transforms of the subtree of `x` up to date, visiting
    /// it in pre-order (with `visible_only`, skipping hidden nodes and their
    /// subtrees, as drawing does): returns the visited nodes whose world
    /// transform is recomputed, in visiting order, and marks every visited
    /// node up to date.
    pub fn propagate(&mut self, x: usize, visible_only: bool) -> (recomputed: Vec<usize>)
        requires
            old(self).wf(),
            x < old(self).n(),
        ensures
            final(self).wf(),
            recomputed@ == old(self).walk(x as int, visible_only).filter(
                |z: usize| !old(self).freshness()[z as int],
            ),
            final(self).n() == old(self).n(),
            final(self).parents() == old(self).parents(),
            final(self).kids() == old(self).kids(),
            final(self).visibility() == old(self).visibility(),
            final(self).ancestors() == old(self).ancestors(),
            final(self).freshness().len() == old(self).freshness().len(),
            forall|z: int|
                0 <= z < old(self).n() ==> #[trigger] final(self).freshness()[z] == (old(self).freshness()[z]
                    || old(self).walk(x as int, visible_only).contains(z as usize)),
    {
        let mut out: Vec<usize> = Vec::new();
        let ghost t0 = *self;
        self.propagate_into(x, visible_only, &mut out);
        assert(Seq::<usize>::empty() + t0.walk(x as int, visible_only).filter(|z: usize| !t0.freshness()[z as int])
            =~= t0.walk(x as int, visible_only).filter(|z: usize| !t0.freshness()[z as int]));
        out
    }

    /// Creates a new empty node as the last child of `parent` and returns it.
    pub fn add_group(&mut self, parent: usize) -> (x: usize)
        requires
            old(self).wf(),
            parent < old(self).n(),
            old(self).n() + 1 < usize::MAX,
        ensures
            final(self).wf(),
            x == old(self).n(),
            final(self).n() == old(self).n() + 1,
            final(self).parents() == old(self).parents().push(Some(parent)),
            final(self).kids() == old(self).kids().update(
                parent as int,
                old(self).kids()[parent as int].push(x),
            ).push(Seq::empty()),
            final(self).visibility() == old(self).visibility().push(true),
            final(self).freshness() == old(self).freshness().push(false),
    {
        let x = self.add_node();
        proof {
            lemma_ancestors_distinct(*self, parent as int);
            if self.ancestors()[parent as int].contains(x) {
                let k = choose|k: int| 0 <= k < self.ancestors()[parent as int].len() && self.ancestors()[parent as int][k] == x;
                assert(self.ancestors()[parent as int] == old(self).ancestors()[parent as int]);
                lemma_ancestors_distinct(*old(self), parent as int);
            }
        }
        self.add_child(parent, x);
        proof {
            assert(self.parents() =~= old(self).parents().push(Some(parent)));
            assert(self.kids() =~= old(self).kids().update(
                parent as int,
                old(self).kids()[parent as int].push(x),
            ).push(Seq::empty()));
        }
        x
    }

    /// Detaches node `x` from its parent (nothing happens to a root). The
    /// parent's last child takes the place `x` had among its children, and
    /// `x` becomes a root that keeps its own subtree.
    pub fn remove(&mut self, x: usize)
        requires
            old(self).wf(),
            x < old(self).n(),
        ensures
            final(self).wf(),
            final(self).n() == old(self).n(),
            final(self).parents() == old(self).parents().update(x as int, None),
            final(self).visibility() == old(self).visibility(),
            final(self).freshness() == old(self).freshness(),
            match old(self).parents()[x as int] {
                None => final(self).kids() == old(self).kids(),
                Some(p) => final(self).kids() == old(self).kids().update(
                    p as int,
                    swap_removed(old(self).kids()[p as int], old(self).kids()[p as int].index_of(x)),
                ),
            },
    {
        match self.parent[x] {
            None => {},
            Some(p) => {
                let ghost t0 = *self;
                proof {
                    t0.lemma_view();
                }
                let mut j: usize = self.children[p].len();
                while j > 0 && self.children[p][j - 1] != x
                    invariant
                        self.wf(),
                        p < self.n(),
                        j <= self.children@[p as int]@.len(),
                        forall|k: int| j <= k < self.children@[p as int]@.len() ==> self.children@[p as int]@[k] != x,
                    decreases j,
                {
                    j = j - 1;
                }
                proof {
                    assert(t0.children@[p as int]@.contains(x));
                    if j == 0 {
                        let k = choose|k: int| 0 <= k < t0.children@[p as int]@.len() && t0.children@[p as int]@[k] == x;
                        assert(false);
                    }
                    let s0 = t0.children@[p as int]@;
                    let k = s0.index_of(x);
                    assert(s0[k] == x);
                    assert(s0[j - 1] == x);
                    assert(k == j - 1);
                }
                let _ = self.children[p].swap_remove(j - 1);
                self.parent.set(x, None);
                self.anc = Ghost(
                    Seq::new(
                        t0.anc@.len(),
                        |y: int|
                            if t0.in_subtree(y, x as int) {
                                t0.anc@[y].subrange(0, t0.anc@[y].len() - t0.anc@[x as int].len())
                            } else {
                                t0.anc@[y]
                            },
                    ),
                );
                proof {
                    lemma_remove_wf(t0, *self, p as int, x as int, j - 1);
                    assert(self.kids() =~= t0.kids().update(
                        p as int,
                        swap_removed(t0.kids()[p as int], t0.kids()[p as int].index_of(x)),
                    ));
                }
            },
        }
    }

    /// Detaches node `x` from its parent; the same as [`remove`](Self::remove).
    pub fn detach(&mut self, x: usize)
        requires
            old(self).wf(),
            x < old(self).n(),
        ensures
            final(self).wf(),
            final(self).n() == old(self).n(),
            final(self).parents() == old(self).parents().update(x as int, None),
            final(self).visibility() == old(self).visibility(),
            final(self).freshness() == old(self).freshness(),
            match old(self).parents()[x as int] {
                None => final(self).kids() == old(self).kids(),
                Some(p) => final(self).kids() == old(self).kids().update(
                    p as int,
                    swap_removed(old(self).kids()[p as int], old(self).kids()[p as int].index_of(x)),
                ),
            },
    {
        self.remove(x)
    }

    fn walk_into(&self, x: usize, visible_only: bool, out: &mut Vec<usize>)
        requires
            self.wf(),
            x < self.n(),
        ensures
            final(out)@ == old(out)@ + self.walk(x as int, visible_only),
        decreases self.n() - self.depth(x as int),
    {
        if visible_only && !self.visible[x] {
            assert(old(out)@ + Seq::<usize>::empty() =~= old(out)@);
            return;
        }
        out.push(x);
        let ghost base = old(out)@ + seq![x];
        proof {
            self.lemma_view();
        }
        let mut i: usize = 0;
        while i < self.children[x].len()
            invariant
                self.wf(),
                x < self.n(),
                0 <= i <= self.kids()[x as int].len(),
                self.kids()[x as int] == self.children@[x as int]@,
                base + self.walk_from(x as int, 0, visible_only) == out@ + self.walk_from(
                    x as int,
                    i as int,
                    visible_only,
                ),
            decreases self.kids()[x as int].len() - i,
        {
            let c = self.children[x][i];
            proof {
                lemma_child(*self, x as int, i as int);
            }
            let ghost before = out@;
            self.walk_into(c, visible_only, out);
            proof {
                assert(self.walk_from(x as int, i as int, visible_only) == self.walk(c as int, visible_only)
                    + self.walk_from(x as int, i + 1, visible_only));
                assert(before + self.walk_from(x as int, i as int, visible_only) =~= out@ + self.walk_from(
                    x as int,
                    i + 1,
                    visible_only,
                ));
            }
            i = i + 1;
        }
        proof {
            assert(self.walk_from(x as int, i as int, visible_only) == Seq::<usize>::empty());
            assert(out@ + Seq::<usize>::empty() =~= out@);
            assert(old(out)@ + self.walk(x as int, visible_only) =~= base + self.walk_from(
                x as int,
                0,
                visible_only,
            ));
        }
    }

    /// The nodes of the subtree rooted at `x`, in depth-first pre-order (see
    /// [`walk`](Self::walk)).
    pub fn subtree_nodes(&self, x: usize) -> (nodes: Vec<usize>)
        requires
            self.wf(),
            x < self.n(),
        ensures
            nodes@ == self.walk(x as int, false),
    {
        let mut out: Vec<usize> = Vec::new();
        self.walk_into(x, false, &mut out);
        assert(Seq::<usize>::empty() + self.walk(x as int, false) =~= self.walk(x as int, false));
        out
    }

    /// The nodes of the subtree rooted at `x` that are drawn: pre-order,
    /// skipping every hidden node together with its subtree.
    pub fn visible_nodes(&self, x: usize) -> (nodes: Vec<usize>)
        requires
            self.wf(),
            x < self.n(),
        ensures
            nodes@ == self.walk(x as int, true),
    {
        let mut out: Vec<usize> = Vec::new();
        self.walk_into(x, true, &mut out);
        assert(Seq::<usize>::empty() + self.walk(x as int, true) =~= self.walk(x as int, true));
        out
    }
}

/// Law: detaching a node right after adding it as a child restores every
/// parent link and every children list.
pub proof fn lemma_remove_undoes_add_child(t: SceneTree, parent: int, child: int)
    requires
        t.wf(),
        0 <= parent < t.n(),
        0 <= child < t.n(),
        t.parents()[child] is None,
        !t.in_subtree(parent, child),
    ensures
        ({
            let parents1 = t.parents().update(child, Some(parent as usize));
            let kids1 = t.kids().update(parent, t.kids()[parent].push(child as usize));
            &&& parents1.update(child, None) == t.parents()
            &&& kids1.update(
                parent,
                swap_removed(kids1[parent], kids1[parent].index_of(child as usize)),
            ) == t.kids()
        }),
{
    t.lemma_view();
    let s = t.kids()[parent];
    let s1 = s.push(child as usize);
    assert(s1[s.len() as int] == child as usize);
    let k = s1.index_of(child as usize);
    if k < s.len() {
        assert(t.children@[parent]@[k] == child as usize);
        assert(t.parent@[child] == Some(parent as usize));
    }
    assert(k == s.len());
    assert(swap_removed(s1, k) =~= s);
    assert(t.parents().update(child, Some(parent as usize)).update(child, None) =~= t.parents());
    assert(t.kids().update(parent, s1).update(parent, swap_removed(s1, k)) =~= t.kids());
}

/// The ancestors of a node are its parent followed by the parent's
/// ancestors; a root has none.
pub proof fn lemma_ancestors_chain(t: SceneTree, y: int)
    requires
        t.wf(),
        0 <= y < t.n(),
    ensures
        t.ancestors()[y] == (match t.parents()[y] {
            None => Seq::<usize>::empty(),
            Some(p) => seq![p] + t.ancestors()[p as int],
        }),
{
    match t.parent@[y] {
        None => {
            assert(t.anc@[y] =~= Seq::<usize>::empty());
        },
        Some(p) => {
            assert(t.anc@[y] =~= seq![p] + t.anc@[y].drop_first());
        },
    }
}

/// A node's parent is a valid node one level up.
pub proof fn lemma_parent(t: SceneTree, y: int)
    requires
        t.wf(),
        0 <= y < t.n(),
        t.parents()[y] is Some,
    ensures
        t.parents()[y]->0 < t.n(),
        t.depth(t.parents()[y]->0 as int) + 1 == t.depth(y),
{
    let p = t.parent@[y]->0;
    assert(t.anc@[y].drop_first() == t.anc@[p as int]);
}

/// Every node of the stale chain of `y` is a valid node.
proof fn lemma_stale_chain_bound(t: SceneTree, y: int)
    requires
        t.wf(),
        0 <= y < t.n(),
    ensures
        forall|k: int| 0 <= k < t.stale_chain(y).len() ==> #[trigger] t.stale_chain(y)[k] < t.n(),
    decreases t.depth(y),
{
    if !t.freshness()[y] {
        if let Some(p) = t.parents()[y] {
            lemma_parent(t, y);
            lemma_stale_chain_bound(t, p as int);
            assert(t.stale_chain(y) == t.stale_chain(p as int).push(y as usize));
            assert forall|k: int| 0 <= k < t.stale_chain(y).len() implies #[trigger] t.stale_chain(y)[k] < t.n() by {
                if k < t.stale_chain(p as int).len() {
                    assert(t.stale_chain(y)[k] == t.stale_chain(p as int)[k]);
                }
            }
        } else {
            assert(t.stale_chain(y) == seq![y as usize]);
        }
    }
}

/// Invalidation reaches a node below a child `c` of `x` exactly when it
/// reaches it from `c` and `c` is up to date.
proof fn lemma_fresh_step(t: SceneTree, y: int, c: int, x: int)
    requires
        t.wf(),
        0 <= y < t.n(),
        0 <= c < t.n(),
        0 <= x < t.n(),
        t.parents()[c] == Some(x as usize),
        t.in_subtree(y, c),
    ensures
        t.chain_fresh(y, x) <==> (t.freshness()[c] && t.chain_fresh(y, c)),
{
    lemma_step(t, y, c, x);
    if y != c {
        let iy = lemma_below(t, y, c);
        if t.freshness()[c] && t.chain_fresh(y, c) {
            assert forall|i: int| 0 <= i < t.depth(y) - t.depth(x) - 1 implies #[trigger] t.freshness()[t.ancestors()[y][i] as int] by {
                if i == iy {
                } else {
                    assert(i < t.depth(y) - t.depth(c) - 1);
                }
            }
        }
        if t.chain_fresh(y, x) {
            assert(t.freshness()[t.ancestors()[y][iy] as int]);
            assert forall|i: int| 0 <= i < t.depth(y) - t.depth(c) - 1 implies #[trigger] t.freshness()[t.ancestors()[y][i] as int] by {
                assert(i < t.depth(y) - t.depth(x) - 1);
            }
        }
    }
}

/// While `x` and the subtrees of its children before child `i` are being
/// invalidated, what invalidating child `i` reaches is unchanged.
proof fn lemma_fresh_frame(t0: SceneTree, t1: SceneTree, x: int, i: int, y: int)
    requires
        t0.wf(),
        0 <= x < t0.n(),
        0 <= i < t0.kids()[x].len(),
        0 <= y < t0.n(),
        t0.in_subtree(y, t0.kids()[x][i] as int),
        t1.anc@ == t0.anc@,
        t1.fresh@.len() == t0.fresh@.len(),
        forall|z: int|
            0 <= z < t0.n() ==> #[trigger] t1.fresh@[z] == (t0.fresh@[z] && !(z == x || exists|j: int|
                0 <= j < i && #[trigger] t0.in_subtree(z, t0.kids()[x][j] as int) && t0.fresh@[t0.kids()[x][j] as int]
                    && t0.chain_fresh(z, t0.kids()[x][j] as int))),
    ensures
        t1.chain_fresh(y, t0.kids()[x][i] as int) == t0.chain_fresh(y, t0.kids()[x][i] as int),
{
    let c = t0.kids()[x][i] as int;
    lemma_child(t0, x, i);
    assert forall|z: int| 0 <= z < t0.n() && t0.in_subtree(z, c) implies t1.fresh@[z] == t0.fresh@[z] by {
        lemma_step(t0, z, c, x);
        if exists|j: int|
            0 <= j < i && #[trigger] t0.in_subtree(z, t0.kids()[x][j] as int) && t0.fresh@[t0.kids()[x][j] as int]
                && t0.chain_fresh(z, t0.kids()[x][j] as int) {
            let j = choose|j: int|
                0 <= j < i && #[trigger] t0.in_subtree(z, t0.kids()[x][j] as int) && t0.fresh@[t0.kids()[x][j] as int]
                    && t0.chain_fresh(z, t0.kids()[x][j] as int);
            lemma_disjoint(t0, x, i, j, z);
        }
    }
    if y != c {
        let iy = lemma_below(t0, y, c);
        assert(t1.fresh@[y] == t0.fresh@[y]);
        assert forall|k: int| 0 <= k < t0.depth(y) - t0.depth(c) - 1 implies #[trigger] t1.freshness()[t1.ancestors()[y][k] as int]
            == t0.freshness()[t0.ancestors()[y][k] as int] by {
            lemma_ancestor_suffix(t0, y, k);
            let z = t0.anc@[y][k] as int;
            assert(t0.anc@[z][iy - k - 1] == c as usize);
            assert(t0.in_subtree(z, c));
        }
        if t0.chain_fresh(y, c) {
            assert forall|k: int| 0 <= k < t1.depth(y) - t1.depth(c) - 1 implies #[trigger] t1.freshness()[t1.ancestors()[y][k] as int] by {
                assert(t0.freshness()[t0.ancestors()[y][k] as int]);
            }
        }
        if t1.chain_fresh(y, c) {
            assert forall|k: int| 0 <= k < t0.depth(y) - t0.depth(c) - 1 implies #[trigger] t0.freshness()[t0.ancestors()[y][k] as int] by {
                assert(t1.freshness()[t1.ancestors()[y][k] as int]);
            }
        }
    }
}

/// The walk does not depend on the up-to-date flags.
proof fn lemma_walk_frame(t0: SceneTree, t1: SceneTree, x: int, visible_only: bool)
    requires
        t0.wf(),
        t1.wf(),
        0 <= x < t0.n(),
        t1.parent@ == t0.parent@,
        t1.kids() == t0.kids(),
        t1.visible@ == t0.visible@,
        t1.anc@ == t0.anc@,
    ensures
        t1.walk(x, visible_only) == t0.walk(x, visible_only),
    decreases t0.n() - t0.depth(x), t0.kids()[x].len() + 1,
{
    lemma_walk_from_frame(t0, t1, x, 0, visible_only);
}

proof fn lemma_walk_from_frame(t0: SceneTree, t1: SceneTree, x: int, i: int, visible_only: bool)
    requires
        t0.wf(),
        t1.wf(),
        0 <= x < t0.n(),
        0 <= i,
        t1.parent@ == t0.parent@,
        t1.kids() == t0.kids(),
        t1.visible@ == t0.visible@,
        t1.anc@ == t0.anc@,
    ensures
        t1.walk_from(x, i, visible_only) == t0.walk_from(x, i, visible_only),
    decreases t0.n() - t0.depth(x), t0.kids()[x].len() - i,
{
    if i < t0.kids()[x].len() {
        lemma_child(t0, x, i);
        lemma_walk_frame(t0, t1, t0.kids()[x][i] as int, visible_only);
        lemma_walk_from_frame(t0, t1, x, i + 1, visible_only);
    }
}

/// Filtering by two predicates that agree on every element gives the same.
proof fn lemma_filter_agree(s: Seq<usize>, f: spec_fn(usize) -> bool, g: spec_fn(usize) -> bool)
    requires
        forall|k: int| 0 <= k < s.len() ==> f(#[trigger] s[k]) == g(s[k]),
    ensures
        s.filter(f) == s.filter(g),
    decreases s.len(),
{
    reveal(Seq::filter);
    if s.len() > 0 {
        lemma_filter_agree(s.drop_last(), f, g);
        assert(f(s[s.len() - 1]) == g(s[s.len() - 1]));
    }
}

/// A node below a child `c` of `x` is below `x`, and it is shown from `x`
/// exactly when it is shown from `c` and `x` is visible.
proof fn lemma_step(t: SceneTree, y: int, c: int, x: int)
    requires
        t.wf(),
        0 <= y < t.n(),
        0 <= c < t.n(),
        0 <= x < t.n(),
        t.parents()[c] == Some(x as usize),
        t.in_subtree(y, c),
    ensures
        t.in_subtree(y, x),
        y != x,
        t.depth(c) == t.depth(x) + 1,
        t.path_visible(y, x) <==> (t.path_visible(y, c) && t.visibility()[x]),
{
    assert(t.anc@[c].drop_first() == t.anc@[x]);
    assert(t.anc@[c][0] == x as usize);
    if y == c {
        assert(t.anc@[c].contains(x as usize));
        if t.path_visible(c, c) && t.visibility()[x] {
            assert forall|i: int| 0 <= i < t.depth(c) - t.depth(x) implies #[trigger] t.visibility()[t.ancestors()[c][i] as int] by {
                assert(i == 0);
            }
        }
        if t.path_visible(c, x) {
            assert(t.visibility()[t.ancestors()[c][0] as int]);
        }
    } else {
        let iy = lemma_below(t, y, c);
        assert(t.anc@[y][iy + 1] == t.anc@[c][0]);
        assert(t.anc@[y].contains(x as usize));
        if t.path_visible(y, c) && t.visibility()[x] {
            assert forall|i: int| 0 <= i < t.depth(y) - t.depth(x) implies #[trigger] t.visibility()[t.ancestors()[y][i] as int] by {
                if i < t.depth(y) - t.depth(c) {
                } else {
                    assert(i == iy + 1);
                }
            }
        }
        if t.path_visible(y, x) {
            assert(t.visibility()[t.ancestors()[y][iy + 1] as int]);
            assert forall|i: int| 0 <= i < t.depth(y) - t.depth(c) implies #[trigger] t.visibility()[t.ancestors()[y][i] as int] by {
                assert(i < t.depth(y) - t.depth(x));
            }
        }
    }
}

/// A node strictly below `x` lies below one of the children of `x`.
proof fn lemma_branch(t: SceneTree, y: int, x: int) -> (j: int)
    requires
        t.wf(),
        0 <= y < t.n(),
        0 <= x < t.n(),
        y != x,
        t.in_subtree(y, x),
    ensures
        0 <= j < t.kids()[x].len(),
        t.in_subtree(y, t.kids()[x][j] as int),
{
    t.lemma_view();
    let ix = lemma_below(t, y, x);
    let c: int = if ix == 0 {
        y
    } else {
        t.anc@[y][ix - 1] as int
    };
    if ix == 0 {
        assert(t.parent@[y] is Some);
        assert(t.anc@[y][0] == t.parent@[y]->0);
    } else {
        lemma_ancestor_suffix(t, y, ix - 1);
        assert(t.anc@[c][0] == x as usize);
        assert(t.anc@[c].len() > 0);
        assert(t.parent@[c] is Some);
        assert(t.anc@[y].contains(c as usize));
    }
    assert(t.parent@[c] == Some(x as usize));
    assert(t.children@[x]@.contains(c as usize));
    let j = choose|j: int| 0 <= j < t.children@[x]@.len() && t.children@[x]@[j] == c as usize;
    j
}

/// No node lies below two different children of the same node.
proof fn lemma_disjoint(t: SceneTree, x: int, j1: int, j2: int, y: int)
    requires
        t.wf(),
        0 <= x < t.n(),
        0 <= j1 < t.kids()[x].len(),
        0 <= j2 < t.kids()[x].len(),
        0 <= y < t.n(),
        t.in_subtree(y, t.kids()[x][j1] as int),
        t.in_subtree(y, t.kids()[x][j2] as int),
    ensures
        j1 == j2,
{
    t.lemma_view();
    lemma_child(t, x, j1);
    lemma_child(t, x, j2);
    let c1 = t.kids()[x][j1] as int;
    let c2 = t.kids()[x][j2] as int;
    if c1 != c2 {
        if y == c1 {
            let i = lemma_below(t, c1, c2);
        } else if y == c2 {
            let i = lemma_below(t, c2, c1);
        } else {
            let i1 = lemma_below(t, y, c1);
            let i2 = lemma_below(t, y, c2);
        }
    }
    assert(t.children@[x]@.no_duplicates());
}

/// Law: the walk from `x` lists each node of the subtree of `x` exactly once
/// (every node, without `visible_only`; with it, exactly the nodes that are
/// visible together with every node on their path up to `x`).
pub proof fn lemma_walk_subtree(t: SceneTree, x: int, visible_only: bool)
    requires
        t.wf(),
        0 <= x < t.n(),
    ensures
        t.walk(x, visible_only).no_duplicates(),
        forall|k: int| 0 <= k < t.walk(x, visible_only).len() ==> #[trigger] t.walk(x, visible_only)[k] < t.n(),
        forall|y: int|
            0 <= y < t.n() ==> (#[trigger] t.walk(x, visible_only).contains(y as usize) <==> (t.in_subtree(y, x)
                && (visible_only ==> t.path_visible(y, x)))),
    decreases t.n() - t.depth(x), t.kids()[x].len() + 1,
{
    let w = t.walk(x, visible_only);
    if visible_only && !t.visibility()[x] {
        assert forall|y: int| 0 <= y < t.n() && t.in_subtree(y, x) implies !t.path_visible(y, x) by {
            if y != x {
                let ix = lemma_below(t, y, x);
                assert(t.visibility()[t.ancestors()[y][ix] as int] == t.visibility()[x]);
            }
        }
    } else {
        lemma_walk_from_subtree(t, x, 0, visible_only);
        let rest = t.walk_from(x, 0, visible_only);
        assert(w == seq![x as usize] + rest);
        assert forall|k: int| 0 <= k < w.len() implies #[trigger] w[k] < t.n() by {
            if k > 0 {
                assert(w[k] == rest[k - 1]);
            }
        }
        assert forall|y: int| 0 <= y < t.n() && #[trigger] rest.contains(y as usize) implies y != x by {
            let j = choose|j: int|
                0 <= j < t.kids()[x].len() && #[trigger] t.in_subtree(y, t.kids()[x][j] as int) && (
                visible_only ==> t.path_visible(y, t.kids()[x][j] as int));
            lemma_child(t, x, j);
            lemma_step(t, y, t.kids()[x][j] as int, x);
        }
        assert(w.no_duplicates()) by {
            assert forall|a: int, b: int| 0 <= a < w.len() && 0 <= b < w.len() && a != b implies w[a] != w[b] by {
                if a > 0 && b > 0 {
                    assert(w[a] == rest[a - 1]);
                    assert(w[b] == rest[b - 1]);
                } else if a == 0 {
                    assert(w[b] == rest[b - 1]);
                    assert(rest.contains(w[b]));
                } else {
                    assert(w[a] == rest[a - 1]);
                    assert(rest.contains(w[a]));
                }
            }
        }
        assert forall|y: int| 0 <= y < t.n() implies (#[trigger] w.contains(y as usize) <==> (t.in_subtree(y, x)
            && (visible_only ==> t.path_visible(y, x)))) by {
            if w.contains(y as usize) {
                let k = choose|k: int| 0 <= k < w.len() && w[k] == y as usize;
                if k == 0 {
                    assert(y == x);
                } else {
                    assert(rest[k - 1] == y as usize);
                    assert(rest.contains(y as usize));
                    let j = choose|j: int|
                        0 <= j < t.kids()[x].len() && #[trigger] t.in_subtree(y, t.kids()[x][j] as int) && (
                        visible_only ==> t.path_visible(y, t.kids()[x][j] as int));
                    lemma_child(t, x, j);
                    lemma_step(t, y, t.kids()[x][j] as int, x);
                }
            }
            if t.in_subtree(y, x) && (visible_only ==> t.path_visible(y, x)) {
                if y == x {
                    assert(w[0] == x as usize);
                } else {
                    let j = lemma_branch(t, y, x);
                    lemma_child(t, x, j);
                    lemma_step(t, y, t.kids()[x][j] as int, x);
                    assert(rest.contains(y as usize));
                    let k = choose|k: int| 0 <= k < rest.len() && rest[k] == y as usize;
                    assert(w[k + 1] == y as usize);
                }
            }
        }
    }
}

/// The walks of children `i ..` of `x` list each node below one of those
/// children exactly once (with `visible_only`, those shown from it).
proof fn lemma_walk_from_subtree(t: SceneTree, x: int, i: int, visible_only: bool)
    requires
        t.wf(),
        0 <= x < t.n(),
        0 <= i <= t.kids()[x].len(),
    ensures
        t.walk_from(x, i, visible_only).no_duplicates(),
        forall|k: int|
            0 <= k < t.walk_from(x, i, visible_only).len() ==> #[trigger] t.walk_from(x, i, visible_only)[k] < t.n(),
        forall|y: int|
            0 <= y < t.n() ==> (#[trigger] t.walk_from(x, i, visible_only).contains(y as usize) <==> exists|j: int|
                i <= j < t.kids()[x].len() && #[trigger] t.in_subtree(y, t.kids()[x][j] as int) && (visible_only
                    ==> t.path_visible(y, t.kids()[x][j] as int))),
    decreases t.n() - t.depth(x), t.kids()[x].len() - i,
{
    let w = t.walk_from(x, i, visible_only);
    if i < t.kids()[x].len() {
        lemma_child(t, x, i);
        let c = t.kids()[x][i] as int;
        lemma_walk_subtree(t, c, visible_only);
        lemma_walk_from_subtree(t, x, i + 1, visible_only);
        let a = t.walk(c, visible_only);
        let b = t.walk_from(x, i + 1, visible_only);
        assert(w == a + b);
        assert forall|k: int| 0 <= k < w.len() implies #[trigger] w[k] < t.n() by {
            if k < a.len() {
                assert(w[k] == a[k]);
            } else {
                assert(w[k] == b[k - a.len()]);
            }
        }
        assert forall|y: int| 0 <= y < t.n() && #[trigger] a.contains(y as usize) implies !b.contains(y as usize) by {
            if b.contains(y as usize) {
                let j = choose|j: int|
                    i + 1 <= j < t.kids()[x].len() && #[trigger] t.in_subtree(y, t.kids()[x][j] as int) && (
                    visible_only ==> t.path_visible(y, t.kids()[x][j] as int));
                lemma_disjoint(t, x, i, j, y);
            }
        }
        assert(w.no_duplicates()) by {
            assert forall|p: int, q: int| 0 <= p < w.len() && 0 <= q < w.len() && p != q implies w[p] != w[q] by {
                if p < a.len() && q < a.len() {
                    assert(w[p] == a[p] && w[q] == a[q]);
                } else if p >= a.len() && q >= a.len() {
                    assert(w[p] == b[p - a.len()] && w[q] == b[q - a.len()]);
                } else if p < a.len() {
                    assert(w[p] == a[p] && w[q] == b[q - a.len()]);
                    let y = a[p] as int;
                    assert(a.contains(y as usize));
                    assert(!b.contains(y as usize));
                    assert(b.contains(w[q]));
                } else {
                    assert(w[q] == a[q] && w[p] == b[p - a.len()]);
                    let y = a[q] as int;
                    assert(a.contains(y as usize));
                    assert(!b.contains(y as usize));
                    assert(b.contains(w[p]));
                }
            }
        }
        assert forall|y: int| 0 <= y < t.n() implies (#[trigger] w.contains(y as usize) <==> exists|j: int|
            i <= j < t.kids()[x].len() && #[trigger] t.in_subtree(y, t.kids()[x][j] as int) && (visible_only
                ==> t.path_visible(y, t.kids()[x][j] as int))) by {
            if w.contains(y as usize) {
                let k = choose|k: int| 0 <= k < w.len() && w[k] == y as usize;
                if k < a.len() {
                    assert(a[k] == y as usize);
                    assert(a.contains(y as usize));
                    assert(t.in_subtree(y, t.kids()[x][i] as int));
                } else {
                    assert(b[k - a.len()] == y as usize);
                    assert(b.contains(y as usize));
                }
            }
            if exists|j: int|
                i <= j < t.kids()[x].len() && #[trigger] t.in_subtree(y, t.kids()[x][j] as int) && (visible_only
                    ==> t.path_visible(y, t.kids()[x][j] as int)) {
                let j = choose|j: int|
                    i <= j < t.kids()[x].len() && #[trigger] t.in_subtree(y, t.kids()[x][j] as int) && (
                    visible_only ==> t.path_visible(y, t.kids()[x][j] as int));
                if j == i {
                    assert(a.contains(y as usize));
                    let k = choose|k: int| 0 <= k < a.len() && a[k] == y as usize;
                    assert(w[k] == y as usize);
                } else {
                    assert(b.contains(y as usize));
                    let k = choose|k: int| 0 <= k < b.len() && b[k] == y as usize;
                    assert(w[k + a.len()] == y as usize);
                }
            }
        }
    }
}

/// Law: adding `child` under `parent` appends the walk of `child` to the walk
/// of `parent`: it is drawn after everything `parent` already drew, and
/// nothing else changes (a hidden `parent` still draws nothing).
pub proof fn lemma_add_child_walk(t0: SceneTree, t1: SceneTree, parent: int, child: int, visible_only: bool)
    requires
        t0.wf(),
        t1.wf(),
        0 <= parent < t0.n(),
        0 <= child < t0.n(),
        t0.parents()[child] is None,
        !t0.in_subtree(parent, child),
        t1.n() == t0.n(),
        t1.parents() == t0.parents().update(child, Some(parent as usize)),
        t1.kids() == t0.kids().update(parent, t0.kids()[parent].push(child as usize)),
        t1.visibility() == t0.visibility(),
    ensures
        t1.walk(parent, visible_only) == (if visible_only && !t0.visibility()[parent] {
            Seq::<usize>::empty()
        } else {
            t0.walk(parent, visible_only) + t0.walk(child, visible_only)
        }),
{
    if !(visible_only && !t0.visibility()[parent]) {
        lemma_walk_from_append(t0, t1, parent, child, 0, visible_only);
        assert(t1.walk(parent, visible_only) == seq![parent as usize] + t1.walk_from(parent, 0, visible_only));
        assert(t0.walk(parent, visible_only) == seq![parent as usize] + t0.walk_from(parent, 0, visible_only));
        assert(t1.walk(parent, visible_only) =~= t0.walk(parent, visible_only) + t0.walk(child, visible_only));
    }
}

/// After adding `child` under `parent`, the walks of `parent`'s children from
/// position `i` on are the old ones followed by the walk of `child`.
proof fn lemma_walk_from_append(t0: SceneTree, t1: SceneTree, parent: int, child: int, i: int, visible_only: bool)
    requires
        t0.wf(),
        t1.wf(),
        0 <= parent < t0.n(),
        0 <= child < t0.n(),
        t0.parents()[child] is None,
        !t0.in_subtree(parent, child),
        t1.n() == t0.n(),
        t1.kids() == t0.kids().update(parent, t0.kids()[parent].push(child as usize)),
        t1.visibility() == t0.visibility(),
        0 <= i <= t0.kids()[parent].len(),
    ensures
        t1.walk_from(parent, i, visible_only) == t0.walk_from(parent, i, visible_only) + t0.walk(
            child,
            visible_only,
        ),
    decreases t0.kids()[parent].len() - i,
{
    let len0 = t0.kids()[parent].len() as int;
    assert(t1.kids()[parent][len0] == child as usize);
    if i == len0 {
        lemma_walk_unchanged(t0, t1, parent, child, visible_only);
        assert(t1.walk_from(parent, i + 1, visible_only) == Seq::<usize>::empty());
        assert(t1.walk_from(parent, i, visible_only) =~= t0.walk(child, visible_only));
        assert(t0.walk_from(parent, i, visible_only) == Seq::<usize>::empty());
        assert(t0.walk_from(parent, i, visible_only) + t0.walk(child, visible_only) =~= t0.walk(child, visible_only));
    } else {
        lemma_child(t0, parent, i);
        let y = t0.kids()[parent][i] as int;
        assert(t1.kids()[parent][i] == y as usize);
        if t0.in_subtree(parent, y) {
            if parent != y {
                let k = lemma_below(t0, parent, y);
            }
        }
        lemma_walk_unchanged(t0, t1, parent, y, visible_only);
        lemma_walk_from_append(t0, t1, parent, child, i + 1, visible_only);
        assert(t1.walk_from(parent, i, visible_only) == t1.walk(y, visible_only) + t1.walk_from(parent, i + 1, visible_only));
        assert(t0.walk_from(parent, i, visible_only) == t0.walk(y, visible_only) + t0.walk_from(parent, i + 1, visible_only));
        assert(t1.walk_from(parent, i, visible_only) =~= t0.walk_from(parent, i, visible_only) + t0.walk(
            child,
            visible_only,
        ));
    }
}

/// The walk from a node whose subtree does not hold `parent` is the same
/// before and after adding a child under `parent`.
proof fn lemma_walk_unchanged(t0: SceneTree, t1: SceneTree, parent: int, x: int, visible_only: bool)
    requires
        t0.wf(),
        t1.wf(),
        0 <= parent < t0.n(),
        0 <= x < t0.n(),
        !t0.in_subtree(parent, x),
        t1.n() == t0.n(),
        forall|z: int| 0 <= z < t0.n() && z != parent ==> #[trigger] t1.kids()[z] == t0.kids()[z],
        t1.visibility() == t0.visibility(),
    ensures
        t1.walk(x, visible_only) == t0.walk(x, visible_only),
    decreases t0.n() - t0.depth(x), t0.kids()[x].len() + 1,
{
    lemma_walk_from_unchanged(t0, t1, parent, x, 0, visible_only);
}

proof fn lemma_walk_from_unchanged(t0: SceneTree, t1: SceneTree, parent: int, x: int, i: int, visible_only: bool)
    requires
        t0.wf(),
        t1.wf(),
        0 <= parent < t0.n(),
        0 <= x < t0.n(),
        0 <= i,
        !t0.in_subtree(parent, x),
        t1.n() == t0.n(),
        forall|z: int| 0 <= z < t0.n() && z != parent ==> #[trigger] t1.kids()[z] == t0.kids()[z],
        t1.visibility() == t0.visibility(),
    ensures
        t1.walk_from(x, i, visible_only) == t0.walk_from(x, i, visible_only),
    decreases t0.n() - t0.depth(x), t0.kids()[x].len() - i,
{
    assert(x != parent);
    assert(t1.kids()[x] == t0.kids()[x]);
    if i < t0.kids()[x].len() {
        lemma_child(t0, x, i);
        let y = t0.kids()[x][i] as int;
        if t0.in_subtree(parent, y) {
            lemma_child(t0, x, i);
            lemma_step(t0, parent, y, x);
        }
        lemma_walk_unchanged(t0, t1, parent, y, visible_only);
        lemma_walk_from_unchanged(t0, t1, parent, x, i + 1, visible_only);
    }
}

/// The forest after `add_child(parent, child)` is consistent.
proof fn lemma_add_child_wf(t0: SceneTree, t1: SceneTree, parent: int, child: int)
    requires
        t0.wf(),
        0 <= parent < t0.n(),
        0 <= child < t0.n(),
        t0.parent@[child] is None,
        !t0.in_subtree(parent, child),
        t1.parent@ == t0.parent@.update(child, Some(parent as usize)),
        t1.children@.len() == t0.children@.len(),
        forall|x: int| 0 <= x < t0.n() && x != parent ==> #[trigger] t1.children@[x] == t0.children@[x],
        t1.children@[parent]@ == t0.children@[parent]@.push(child as usize),
        t1.visible@ == t0.visible@,
        t1.fresh@ == t0.fresh@,
        t1.anc@ == Seq::new(
            t0.anc@.len(),
            |y: int|
                if t0.in_subtree(y, child) {
                    t0.anc@[y] + seq![parent as usize] + t0.anc@[parent]
                } else {
                    t0.anc@[y]
                },
        ),
    ensures
        t1.wf(),
{
    let n = t0.n() as int;
    let a0 = t0.anc@;
    let a1 = t1.anc@;
    assert(a1[parent] == a0[parent]);
    assert forall|y: int| 0 <= y < n implies ((#[trigger] t1.parent@[y]) is None <==> a1[y].len() == 0) by {
        if y != child && t0.in_subtree(y, child) {
            assert(a0[y].len() > 0);
        }
    }
    assert forall|y: int| 0 <= y < n && (#[trigger] t1.parent@[y]) is Some implies {
        let p = t1.parent@[y]->0;
        &&& p < n
        &&& a1[y].len() > 0
        &&& a1[y][0] == p
        &&& a1[y].drop_first() == a1[p as int]
        &&& t1.children@[p as int]@.contains(y as usize)
    } by {
        let p = t1.parent@[y]->0;
        if y == child {
            assert(a1[y] =~= seq![parent as usize] + a0[parent]);
            assert(t1.children@[parent]@[t0.children@[parent]@.len() as int] == child as usize);
        } else {
            assert(t0.parent@[y] == Some(p));
            assert(a0[y] =~= seq![p] + a0[p as int]);
            if t0.in_subtree(y, child) {
                assert(t0.in_subtree(p as int, child));
                assert(a1[y] =~= a0[y] + seq![parent as usize] + a0[parent]);
                assert(a1[y].drop_first() =~= a1[p as int]);
            } else {
                assert(!t0.in_subtree(p as int, child));
            }
            let k = choose|k: int| 0 <= k < t0.children@[p as int]@.len() && t0.children@[p as int]@[k] == y as usize;
            assert(t1.children@[p as int]@[k] == y as usize);
        }
    }
    assert forall|y: int| 0 <= y < n implies !(#[trigger] a1[y]).contains(y as usize) by {
        if t0.in_subtree(y, child) {
            assert(y != parent);
            if a0[parent].contains(y as usize) {
                let i = choose|i: int| 0 <= i < a0[parent].len() && a0[parent][i] == y as usize;
                lemma_ancestor_suffix(t0, parent, i);
                if y != child {
                    let j = choose|j: int| 0 <= j < a0[y].len() && a0[y][j] == child as usize;
                    assert(a0[parent][i + 1 + j] == child as usize);
                }
            }
            if a1[y].contains(y as usize) {
                let k = choose|k: int| 0 <= k < a1[y].len() && a1[y][k] == y as usize;
                if k < a0[y].len() {
                    assert(a0[y][k] == y as usize);
                } else if k == a0[y].len() {
                } else {
                    assert(a0[parent][k - a0[y].len() - 1] == y as usize);
                }
            }
        }
    }
    assert forall|x: int| 0 <= x < n implies (#[trigger] t1.children@[x])@.no_duplicates() by {
        if x == parent {
            if t0.children@[parent]@.contains(child as usize) {
                let k = choose|k: int| 0 <= k < t0.children@[parent]@.len() && t0.children@[parent]@[k] == child as usize;
                assert(t0.parent@[child] == Some(parent as usize));
            }
        }
    }
    assert forall|x: int, k: int| 0 <= x < n && 0 <= k < t1.children@[x]@.len() implies {
        &&& (#[trigger] t1.children@[x]@[k]) < n
        &&& t1.parent@[t1.children@[x]@[k] as int] == Some(x as usize)
    } by {
        if x == parent && k == t0.children@[parent]@.len() {
        } else {
            assert(t1.children@[x]@[k] == t0.children@[x]@[k]);
            let c = t0.children@[x]@[k];
            assert(t0.parent@[c as int] == Some(x as usize));
        }
    }
}

/// A node below `x` has `x` among its ancestors, at the position after which
/// the ancestors of `x` follow.
proof fn lemma_below(t: SceneTree, y: int, x: int) -> (i: int)
    requires
        t.wf(),
        0 <= y < t.n(),
        0 <= x < t.n(),
        y != x,
        t.in_subtree(y, x),
    ensures
        0 <= i < t.ancestors()[y].len(),
        t.ancestors()[y][i] == x,
        t.ancestors()[x] == t.ancestors()[y].subrange(i + 1, t.ancestors()[y].len() as int),
        t.depth(x) == t.depth(y) - i - 1,
{
    let i = choose|i: int| 0 <= i < t.anc@[y].len() && t.anc@[y][i] == x as usize;
    lemma_ancestor_suffix(t, y, i);
    i
}

/// The forest after `remove(x)`, for a node `x` with parent `p` found at
/// position `i` among its children, is consistent.
proof fn lemma_remove_wf(t0: SceneTree, t1: SceneTree, p: int, x: int, i: int)
    requires
        t0.wf(),
        0 <= x < t0.n(),
        0 <= p < t0.n(),
        t0.parent@[x] == Some(p as usize),
        0 <= i < t0.children@[p]@.len(),
        t0.children@[p]@[i] == x as usize,
        t1.parent@ == t0.parent@.update(x, None),
        t1.children@.len() == t0.children@.len(),
        forall|z: int| 0 <= z < t0.n() && z != p ==> #[trigger] t1.children@[z] == t0.children@[z],
        t1.children@[p]@ == swap_removed(t0.children@[p]@, i),
        t1.visible@ == t0.visible@,
        t1.fresh@ == t0.fresh@,
        t1.anc@ == Seq::new(
            t0.anc@.len(),
            |y: int|
                if t0.in_subtree(y, x) {
                    t0.anc@[y].subrange(0, t0.anc@[y].len() - t0.anc@[x].len())
                } else {
                    t0.anc@[y]
                },
        ),
    ensures
        t1.wf(),
{
    let n = t0.n() as int;
    let a0 = t0.anc@;
    let a1 = t1.anc@;
    let s0 = t0.children@[p]@;
    let s1 = t1.children@[p]@;
    assert(a1[x] =~= Seq::<usize>::empty());
    assert forall|y: int| 0 <= y < n implies ((#[trigger] t1.parent@[y]) is None <==> a1[y].len() == 0) by {
        if y != x && t0.in_subtree(y, x) {
            let i = lemma_below(t0, y, x);
        }
    }
    assert forall|y: int| 0 <= y < n && (#[trigger] t1.parent@[y]) is Some implies {
        let q = t1.parent@[y]->0;
        &&& q < n
        &&& a1[y].len() > 0
        &&& a1[y][0] == q
        &&& a1[y].drop_first() == a1[q as int]
        &&& t1.children@[q as int]@.contains(y as usize)
    } by {
        let q = t1.parent@[y]->0;
        assert(y != x);
        assert(t0.parent@[y] == Some(q));
        assert(a0[y] =~= seq![q] + a0[q as int]);
        if t0.in_subtree(y, x) {
            assert(t0.in_subtree(q as int, x));
            let iy = lemma_below(t0, y, x);
            if q as int != x {
                let iq = lemma_below(t0, q as int, x);
            }
            assert(a1[y].drop_first() =~= a1[q as int]);
        } else {
            assert(!t0.in_subtree(q as int, x));
        }
        let k = choose|k: int| 0 <= k < t0.children@[q as int]@.len() && t0.children@[q as int]@[k] == y as usize;
        if q as int == p {
            assert(k != i);
            if k == s0.len() - 1 {
                assert(s1[i] == y as usize);
            } else {
                assert(s1[k] == y as usize);
            }
        } else {
            assert(t1.children@[q as int]@[k] == y as usize);
        }
    }
    assert forall|y: int| 0 <= y < n implies !(#[trigger] a1[y]).contains(y as usize) by {
        if a1[y].contains(y as usize) {
            let k = choose|k: int| 0 <= k < a1[y].len() && a1[y][k] == y as usize;
            if t0.in_subtree(y, x) {
                if y != x {
                    let iy = lemma_below(t0, y, x);
                }
                assert(a0[y][k] == y as usize);
            }
        }
    }
    assert forall|z: int| 0 <= z < n implies (#[trigger] t1.children@[z])@.no_duplicates() by {
        if z == p {
            assert forall|a: int, b: int| 0 <= a < s1.len() && 0 <= b < s1.len() && a != b implies s1[a] != s1[b] by {
                let ia = if a == i { s0.len() - 1 } else { a };
                let ib = if b == i { s0.len() - 1 } else { b };
                assert(s1[a] == s0[ia]);
                assert(s1[b] == s0[ib]);
            }
        }
    }
    assert forall|z: int, k: int| 0 <= z < n && 0 <= k < t1.children@[z]@.len() implies {
        &&& (#[trigger] t1.children@[z]@[k]) < n
        &&& t1.parent@[t1.children@[z]@[k] as int] == Some(z as usize)
    } by {
        if z == p {
            let ik = if k == i { s0.len() - 1 } else { k };
            assert(s1[k] == s0[ik]);
            assert(ik != i);
            assert(s0[ik] != x as usize);
        } else {
            let c = t0.children@[z]@[k];
            assert(t1.children@[z]@[k] == c);
            assert(t0.parent@[c as int] == Some(z as usize));
            assert(c != x as usize);
        }
    }
}

/// The ancestor chain of an ancestor is the rest of the chain after it.
pub proof fn lemma_ancestor_suffix(t: SceneTree, y: int, i: int)
    requires
        t.wf(),
        0 <= y < t.n(),
        0 <= i < t.ancestors()[y].len(),
    ensures
        t.ancestors()[y][i] < t.n(),
        t.ancestors()[t.ancestors()[y][i] as int] == t.ancestors()[y].subrange(
            i + 1,
            t.ancestors()[y].len() as int,
        ),
    decreases i,
{
    let a = t.anc@[y];
    assert(t.parent@[y] is Some);
    if i == 0 {
        assert(a.drop_first() =~= a.subrange(1, a.len() as int));
    } else {
        lemma_ancestor_suffix(t, y, i - 1);
        let z = a[i - 1] as int;
        assert(t.anc@[z] =~= a.subrange(i, a.len() as int));
        assert(t.anc@[z].len() > 0);
        assert(t.parent@[z] is Some);
        assert(t.anc@[z][0] == a[i]);
        assert(t.anc@[z].drop_first() =~= a.subrange(i + 1, a.len() as int));
    }
}

/// An ancestor chain never repeats a node.
pub proof fn lemma_ancestors_distinct(t: SceneTree, y: int)
    requires
        t.wf(),
        0 <= y < t.n(),
    ensures
        t.ancestors()[y].no_duplicates(),
        forall|i: int| 0 <= i < t.ancestors()[y].len() ==> #[trigger] t.ancestors()[y][i] < t.n(),
{
    let a = t.anc@[y];
    assert forall|i: int, j: int| 0 <= i < a.len() && 0 <= j < a.len() && i != j implies a[i] != a[j] by {
        if i < j {
            lemma_ancestor_suffix(t, y, i);
            assert(t.anc@[a[i] as int][j - i - 1] == a[j]);
            assert(!t.anc@[a[i] as int].contains(a[i]));
        } else {
            lemma_ancestor_suffix(t, y, j);
            assert(t.anc@[a[j] as int][i - j - 1] == a[i]);
            assert(!t.anc@[a[j] as int].contains(a[j]));
        }
    }
    assert forall|i: int| 0 <= i < a.len() implies #[trigger] a[i] < t.n() by {
        lemma_ancestor_suffix(t, y, i);
    }
}

/// A node has fewer ancestors than there are nodes.
pub proof fn lemma_depth_bound(t: SceneTree, y: int)
    requires
        t.wf(),
        0 <= y < t.n(),
    ensures
        t.depth(y) < t.n(),
{
    lemma_ancestors_distinct(t, y);
    let a = t.anc@[y].push(y as usize);
    let s = a.map_values(|u: usize| u as int);
    assert(s.no_duplicates()) by {
        assert forall|i: int, j: int| 0 <= i < s.len() && 0 <= j < s.len() && i != j implies s[i] != s[j] by {
            if i < a.len() - 1 && j < a.len() - 1 {
                assert(a[i] == t.anc@[y][i]);
                assert(a[j] == t.anc@[y][j]);
            } else if i < a.len() - 1 {
                assert(a[i] == t.anc@[y][i]);
                assert(t.anc@[y].contains(a[i]));
            } else if j < a.len() - 1 {
                assert(a[j] == t.anc@[y][j]);
                assert(t.anc@[y].contains(a[j]));
            }
        }
    }
    s.unique_seq_to_set();
    vstd::set_lib::lemma_int_range(0, t.n() as int);
    assert(s.to_set().subset_of(vstd::set_lib::set_int_range(0, t.n() as int))) by {
        assert forall|v: int| s.to_set().contains(v) implies vstd::set_lib::set_int_range(
            0,
            t.n() as int,
        ).contains(v) by {
            assert(s.contains(v));
            let k = choose|k: int| 0 <= k < s.len() && s[k] == v;
            if k < a.len() - 1 {
                assert(a[k] == t.anc@[y][k]);
            }
        }
    }
    vstd::set_lib::lemma_len_subset(s.to_set(), vstd::set_lib::set_int_range(0, t.n() as int));
}

/// Child `i` of node `x` is a node one level below `x`.
pub proof fn lemma_child(t: SceneTree, x: int, i: int)
    requires
        t.wf(),
        0 <= x < t.n(),
        0 <= i < t.kids()[x].len(),
    ensures
        t.kids()[x][i] < t.n(),
        t.parents()[t.kids()[x][i] as int] == Some(x as usize),
        t.depth(t.kids()[x][i] as int) == t.depth(x) + 1,
        t.depth(x) + 1 < t.n(),
{
    t.lemma_view();
    let c = t.children@[x]@[i] as int;
    assert(t.parent@[c] == Some(x as usize));
    assert((x as usize) as int == x);
    assert(t.anc@[c].drop_first() == t.anc@[x]);
    assert(t.anc@[c] =~= seq![x as usize] + t.anc@[c].drop_first());
    lemma_depth_bound(t, c);
}

} // verus!
