//! The scene graph: a tree of polymorphic nodes stored in a handle pool.
//!
//! Parent and child links are relational, not owning: the pool owns every
//! node. The graph maintains three structural invariants: parent and child
//! links mirror each other, a node's children are distinct, and every
//! parent chain ends at a root, so the graph is acyclic.

use vstd::prelude::*;
use vstd::arithmetic::mul::lemma_mul_inequality;
use crate::error::EngineError;
use crate::math::{Matrix4, Transform};
use crate::pool::{Handle, Pool};

verus! {

/// Fields shared by every node variant: identity, local transform and the
/// hierarchy links.
pub struct Base {
    pub name: String,
    pub local_transform: Transform,
    pub parent: Option<Handle>,
    pub children: Vec<Handle>,
}

/// Data owned by a camera node.
#[derive(Clone, Copy, PartialEq, Debug)]
pub struct CameraData {
    pub view_projection: Matrix4,
}

/// Data owned by a mesh node.
#[derive(Clone, Copy, PartialEq, Eq, Structural, Debug)]
pub struct MeshData {
    pub triangle_count: u64,
}

/// What kind of node this is, with the variant's own data.
#[derive(Clone, Copy, PartialEq, Debug)]
pub enum NodeKind {
    Base,
    Camera(CameraData),
    Mesh(MeshData),
    Bone,
}

/// One scene node: shared base fields plus variant data.
pub struct Node {
    pub base: Base,
    pub kind: NodeKind,
}

impl Node {
    /// A plain node with the given name, identity transform, no links.
    pub fn new(name: String, kind: NodeKind) -> (n: Node)
        ensures
            n.base.name == name,
            n.kind == kind,
            n.base.parent is None,
            n.base.children@.len() == 0,
    {
        Node {
            base: Base {
                name,
                local_transform: Transform::identity(),
                parent: None,
                children: Vec::new(),
            },
            kind,
        }
    }

    /// Capability query: is this node a camera?
    pub fn is_camera(&self) -> (r: bool)
        ensures
            r == (self.kind is Camera),
    {
        match self.kind {
            NodeKind::Camera(_) => true,
            _ => false,
        }
    }

    /// The camera data, if this node is a camera.
    pub fn as_camera(&self) -> (r: Option<&CameraData>)
        ensures
            (r is Some) == (self.kind is Camera),
            self.kind is Camera ==> r == Some(&self.kind->Camera_0),
    {
        match &self.kind {
            NodeKind::Camera(c) => Some(c),
            _ => None,
        }
    }
}

/// The predicate selecting every handle other than `h`.
pub open spec fn not_handle(h: Handle) -> spec_fn(Handle) -> bool {
    |c: Handle| c != h
}

/// Copies a handle vector, leaving out every occurrence of `h`.
pub fn remove_handle(v: &Vec<Handle>, h: Handle) -> (r: Vec<Handle>)
    ensures
        r@ == v@.filter(not_handle(h)),
{
    let mut r: Vec<Handle> = Vec::new();
    let mut i: usize = 0;
    proof {
        assert(v@.subrange(0, 0).filter(not_handle(h)) =~= Seq::<Handle>::empty()) by {
            reveal(Seq::filter);
        }
    }
    while i < v.len()
        invariant
            i <= v.len(),
            r@ == v@.subrange(0, i as int).filter(not_handle(h)),
        decreases v.len() - i,
    {
        proof {
            assert(v@.subrange(0, i + 1) =~= v@.subrange(0, i as int).push(v@[i as int]));
            v@.subrange(0, i as int).lemma_filter_push(v@[i as int], not_handle(h));
        }
        if v[i] != h {
            r.push(v[i]);
        }
        i = i + 1;
    }
    proof {
        assert(v@.subrange(0, v@.len() as int) =~= v@);
    }
    r
}

/// What removing one handle from a list of distinct handles leaves: the
/// other elements, still distinct, membership otherwise unchanged.
proof fn lemma_filter_remove_props(s: Seq<Handle>, h: Handle)
    requires
        forall|i: int, j: int| 0 <= i < j < s.len() ==> s[i] != s[j],
    ensures
        forall|i: int|
            0 <= i < s.filter(not_handle(h)).len() ==> s.contains(
                #[trigger] s.filter(not_handle(h))[i],
            ) && s.filter(not_handle(h))[i] != h,
        forall|i: int, j: int|
            0 <= i < j < s.filter(not_handle(h)).len() ==> s.filter(not_handle(h))[i] != s.filter(
                not_handle(h),
            )[j],
        forall|y: Handle| y != h && s.contains(y) ==> s.filter(not_handle(h)).contains(y),
    decreases s.len(),
{
    reveal(Seq::filter);
    let f = s.filter(not_handle(h));
    if s.len() > 0 {
        let prefix = s.drop_last();
        assert(forall|i: int, j: int| 0 <= i < j < prefix.len() ==> prefix[i] != prefix[j]);
        lemma_filter_remove_props(prefix, h);
        let fp = prefix.filter(not_handle(h));
        assert forall|i: int| 0 <= i < f.len() implies s.contains(#[trigger] f[i]) && f[i]
            != h by {
            if i < fp.len() {
                assert(f[i] == fp[i]);
                assert(prefix.contains(fp[i]));
                let w = choose|w: int| 0 <= w < prefix.len() && prefix[w] == fp[i];
                assert(s[w] == fp[i]);
            } else {
                assert(f[i] == s.last());
                assert(s[s.len() - 1] == s.last());
            }
        }
        assert forall|i: int, j: int| 0 <= i < j < f.len() implies f[i] != f[j] by {
            if j == f.len() - 1 && not_handle(h)(s.last()) {
                assert(f[j] == s.last());
                assert(f[i] == fp[i]);
                assert(prefix.contains(fp[i]));
                let w = choose|w: int| 0 <= w < prefix.len() && prefix[w] == fp[i];
                assert(s[w] == fp[i]);
                assert(s[w] != s[s.len() - 1]);
            }
        }
        assert forall|y: Handle| y != h && s.contains(y) implies f.contains(y) by {
            let w = choose|w: int| 0 <= w < s.len() && s[w] == y;
            if w < s.len() - 1 {
                assert(prefix[w] == y);
                assert(prefix.contains(y));
                assert(fp.contains(y));
                let u = choose|u: int| 0 <= u < fp.len() && fp[u] == y;
                assert(f[u] == y);
            } else {
                assert(s.last() == y);
                assert(f[f.len() - 1] == y);
            }
        }
    }
}

/// Copies a handle vector element by element.
pub fn copy_handles(v: &Vec<Handle>) -> (r: Vec<Handle>)
    ensures
        r@ == v@,
{
    let mut r: Vec<Handle> = Vec::new();
    let mut i: usize = 0;
    while i < v.len()
        invariant
            i <= v.len(),
            r@ == v@.subrange(0, i as int),
        decreases v.len() - i,
    {
        r.push(v[i]);
        proof {
            assert(r@ =~= v@.subrange(0, i + 1));
        }
        i = i + 1;
    }
    proof {
        assert(r@ =~= v@);
    }
    r
}

/// The scene graph.
pub struct Graph {
    pub pool: Pool<Node>,
}

impl Graph {
    /// Whether `h` addresses a live node.
    pub open spec fn valid(self, h: Handle) -> bool {
        self.pool.spec_valid(h)
    }

    /// The node behind a valid handle.
    pub open spec fn node_of(self, h: Handle) -> Node {
        self.pool.at(h)
    }

    /// The parent link a walk upward follows from `h`; nothing when `h` is
    /// stale or a root.
    pub open spec fn parent_link(self, h: Handle) -> Option<Handle> {
        if self.pool.spec_valid(h) {
            self.node_of(h).base.parent
        } else {
            None
        }
    }

    /// The handle `k` steps up the parent chain from `h`.
    pub open spec fn up(self, h: Handle, k: nat) -> Option<Handle>
        decreases k,
    {
        if k == 0 {
            Some(h)
        } else {
            match self.up(h, (k - 1) as nat) {
                Some(x) => self.parent_link(x),
                None => None,
            }
        }
    }

    /// Whether `a` is a proper ancestor of `b`.
    pub open spec fn ancestor_of(self, a: Handle, b: Handle) -> bool {
        exists|k: nat| 1 <= k && self.up(b, k) == Some(a)
    }

    /// Whether `x` lies in the subtree rooted at `root`.
    pub open spec fn in_subtree(self, root: Handle, x: Handle) -> bool {
        x == root || self.ancestor_of(root, x)
    }

    /// Whether the parent chain from `h` reaches a root.
    pub open spec fn rooted(self, h: Handle) -> bool {
        exists|k: nat| self.up(h, k) is None
    }

    /// Every live node's parent link is live.
    pub open spec fn parents_ok(self) -> bool {
        forall|x: Handle| #[trigger] self.valid(x) ==> match self.node_of(x).base.parent {
            Some(p) => self.valid(p),
            None => true,
        }
    }

    /// The structural conditions on one live node: its parent is live and
    /// lists it as a child, and its children are distinct live nodes that
    /// point back at it.
    pub open spec fn node_links_ok(self, x: Handle) -> bool {
        let n = self.node_of(x);
        &&& match n.base.parent {
            Some(p) => self.valid(p) && self.node_of(p).base.children@.contains(x),
            None => true,
        }
        &&& forall|c: int|
            0 <= c < n.base.children@.len() ==> self.valid(#[trigger] n.base.children@[c])
                && self.node_of(n.base.children@[c]).base.parent == Some(x)
        &&& forall|c1: int, c2: int|
            0 <= c1 < c2 < n.base.children@.len() ==> n.base.children@[c1] != n.base.children@[c2]
    }

    /// Parent and child links mirror each other and children are distinct.
    pub open spec fn links_ok(self) -> bool {
        forall|x: Handle| #[trigger] self.valid(x) ==> self.node_links_ok(x)
    }

    /// Every live node's parent chain ends at a root.
    pub open spec fn all_rooted(self) -> bool {
        forall|x: Handle| #[trigger] self.valid(x) ==> self.rooted(x)
    }

    /// The graph's structural invariant.
    pub open spec fn wf(self) -> bool {
        self.pool.wf() && self.links_ok() && self.all_rooted()
    }

    /// An empty graph.
    pub fn new() -> (g: Graph)
        ensures
            g.wf(),
            g.pool.count() == 0,
            g.pool.slot_count() == 0,
            forall|h: Handle| !g.valid(h),
    {
        Graph { pool: Pool::new() }
    }
}

/// A well-formed graph never lets a node be its own parent.
proof fn lemma_parent_not_self(g: Graph, x: Handle)
    requires
        g.wf(),
        g.valid(x),
    ensures
        g.node_of(x).base.parent != Some(x),
{
    if g.node_of(x).base.parent == Some(x) {
        lemma_valid_rooted(g, x);
        lemma_no_self_ancestor(g, x);
        assert(g.up(x, 0) == Some(x));
        assert(g.up(x, 1) == Some(x));
    }
}

/// A child of a node inside the subtree of `h` is itself inside that
/// subtree, and is not `h`.
proof fn lemma_subtree_step(g: Graph, h: Handle, x: Handle, c: Handle)
    requires
        g.wf(),
        g.valid(h),
        g.valid(x),
        g.valid(c),
        g.in_subtree(h, x),
        g.node_of(c).base.parent == Some(x),
    ensures
        g.in_subtree(h, c),
        c != h,
{
    assert(g.up(c, 0) == Some(c));
    assert(g.up(c, 1) == Some(x));
    if x == h {
        assert(g.ancestor_of(h, c));
    } else {
        let m = choose|m: nat| 1 <= m && g.up(x, m) == Some(h);
        lemma_up_compose(g, c, x, 1, m);
        assert(g.up(c, (1 + m) as nat) == Some(h));
    }
    if c == h {
        lemma_valid_rooted(g, h);
        lemma_no_self_ancestor(g, h);
    }
}

/// Any set of nodes containing `h` and closed under taking children
/// contains the whole subtree of `h`.
proof fn lemma_subtree_complete(g: Graph, h: Handle, s: Seq<Handle>, y: Handle, k: nat)
    requires
        g.wf(),
        s.contains(h),
        forall|x: Handle, c: Handle|
            #![trigger s.contains(x), g.node_of(c).base.parent]
            s.contains(x) && g.valid(c) && g.node_of(c).base.parent == Some(x) ==> s.contains(c),
        g.valid(y),
        g.up(y, k) == Some(h),
    ensures
        s.contains(y),
    decreases k,
{
    if k == 0 {
        assert(y == h);
    } else {
        assert(g.up(y, 0) == Some(y));
        match g.up(y, 1) {
            Some(p) => {
                assert(g.node_of(y).base.parent == Some(p));
                assert(g.valid(p));
                lemma_up_compose(g, y, p, 1, (k - 1) as nat);
                assert(g.up(p, (k - 1) as nat) == Some(h));
                lemma_subtree_complete(g, h, s, p, (k - 1) as nat);
            },
            None => {
                lemma_up_none_stable(g, y, 1, k);
            },
        }
    }
}

/// Once a parent chain has run out, it stays run out at every later depth.
pub proof fn lemma_up_none_stable(g: Graph, h: Handle, k1: nat, k2: nat)
    requires
        g.up(h, k1) is None,
        k1 <= k2,
    ensures
        g.up(h, k2) is None,
    decreases k2,
{
    if k2 > k1 {
        lemma_up_none_stable(g, h, k1, (k2 - 1) as nat);
    }
}

/// Walking `j + k` steps is walking `j` steps and then `k` more.
pub proof fn lemma_up_compose(g: Graph, h: Handle, x: Handle, j: nat, k: nat)
    requires
        g.up(h, j) == Some(x),
    ensures
        g.up(h, (j + k) as nat) == g.up(x, k),
    decreases k,
{
    if k > 0 {
        lemma_up_compose(g, h, x, j, (k - 1) as nat);
    }
}

/// While parent links are live, every stop on a parent chain from a live
/// node is live.
pub proof fn lemma_up_valid(g: Graph, h: Handle, k: nat)
    requires
        g.parents_ok(),
        g.valid(h),
        g.up(h, k) is Some,
    ensures
        g.valid(g.up(h, k)->0),
    decreases k,
{
    if k > 0 {
        assert(g.up(h, (k - 1) as nat) is Some);
        lemma_up_valid(g, h, (k - 1) as nat);
    }
}

/// Parent chains agree between two graphs whenever every node live in the
/// first is live in the second with the same parent link.
pub proof fn lemma_up_agree(ga: Graph, gb: Graph, h: Handle, k: nat)
    requires
        ga.parents_ok(),
        ga.valid(h),
        forall|x: Handle|
            ga.valid(x) ==> gb.valid(x) && gb.node_of(x).base.parent == ga.node_of(
                x,
            ).base.parent,
    ensures
        gb.up(h, k) == ga.up(h, k),
    decreases k,
{
    if k > 0 {
        lemma_up_agree(ga, gb, h, (k - 1) as nat);
        match ga.up(h, (k - 1) as nat) {
            Some(y) => {
                lemma_up_valid(ga, h, (k - 1) as nat);
                assert(ga.valid(y));
            },
            None => {},
        }
    }
}

/// Parent chains that never pass through `ex` agree between two graphs
/// that differ only at `ex`'s parent link.
pub proof fn lemma_up_agree_except(ga: Graph, gb: Graph, h: Handle, k: nat, ex: Handle)
    requires
        ga.parents_ok(),
        ga.valid(h),
        forall|j: nat| j < k ==> ga.up(h, j) != Some(ex),
        forall|x: Handle|
            x != ex && ga.valid(x) ==> gb.valid(x) && gb.node_of(x).base.parent == ga.node_of(
                x,
            ).base.parent,
    ensures
        gb.up(h, k) == ga.up(h, k),
    decreases k,
{
    if k > 0 {
        assert(forall|j: nat| j < (k - 1) as nat ==> ga.up(h, j) != Some(ex));
        lemma_up_agree_except(ga, gb, h, (k - 1) as nat, ex);
        match ga.up(h, (k - 1) as nat) {
            Some(y) => {
                lemma_up_valid(ga, h, (k - 1) as nat);
                assert(ga.up(h, (k - 1) as nat) != Some(ex));
                assert(y != ex);
            },
            None => {},
        }
    }
}

/// Pumping a cycle: if `h` is its own ancestor in `p` steps, it is its own
/// ancestor in any multiple of `p` steps.
proof fn lemma_cycle_pump(g: Graph, h: Handle, p: nat, m: nat)
    requires
        g.up(h, p) == Some(h),
    ensures
        g.up(h, (m * p) as nat) == Some(h),
    decreases m,
{
    if m == 0 {
        assert(0 * p == 0) by (nonlinear_arith);
    } else {
        lemma_cycle_pump(g, h, p, (m - 1) as nat);
        assert((m - 1) * p + p == m * p) by (nonlinear_arith);
        lemma_up_compose(g, h, h, ((m - 1) * p) as nat, p);
    }
}

/// A node whose parent chain reaches a root is never its own ancestor.
pub proof fn lemma_no_self_ancestor(g: Graph, h: Handle)
    requires
        g.rooted(h),
    ensures
        !g.ancestor_of(h, h),
{
    if g.ancestor_of(h, h) {
        let p = choose|p: nat| 1 <= p && g.up(h, p) == Some(h);
        let k0 = choose|k: nat| g.up(h, k) is None;
        lemma_cycle_pump(g, h, p, k0);
        lemma_mul_inequality(1, p as int, k0 as int);
        assert(1 * (k0 as int) == k0 as int);
        assert(k0 <= k0 * p);
        lemma_up_none_stable(g, h, k0, (k0 * p) as nat);
        assert(false);
    }
}

/// A live handle is the handle its own slot issues, and is rooted in a
/// well-formed graph.
pub proof fn lemma_valid_rooted(g: Graph, h: Handle)
    requires
        g.all_rooted(),
        g.valid(h),
    ensures
        g.rooted(h),
{
}

/// Keeping every live node live with the same parent link keeps every
/// live node rooted.
proof fn lemma_rooted_preserved(ga: Graph, gb: Graph)
    requires
        ga.parents_ok(),
        ga.all_rooted(),
        forall|x: Handle|
            ga.valid(x) ==> gb.valid(x) && gb.node_of(x).base.parent == ga.node_of(
                x,
            ).base.parent,
    ensures
        forall|x: Handle| ga.valid(x) ==> gb.rooted(x),
{
    assert forall|x: Handle| ga.valid(x) implies gb.rooted(x) by {
        lemma_valid_rooted(ga, x);
        let k = choose|k: nat| ga.up(x, k) is None;
        lemma_up_agree(ga, gb, x, k);
    }
}

impl Graph {
    /// links_ok implies parents_ok.
    proof fn lemma_links_parents(self)
        requires
            self.links_ok(),
        ensures
            self.parents_ok(),
    {
    }

    /// How many nodes the graph holds.
    pub fn node_count(&self) -> (n: usize)
        ensures
            n == self.pool.count(),
    {
        self.pool.alive_count()
    }

    /// Whether `h` addresses a live node.
    pub fn is_valid(&self, h: Handle) -> (r: bool)
        ensures
            r == self.valid(h),
    {
        self.pool.is_valid(h)
    }

    /// Borrows the node behind `h`, or nothing if the handle is stale.
    pub fn get(&self, h: Handle) -> (r: Option<&Node>)
        ensures
            (r is Some) == self.valid(h),
            self.valid(h) ==> r == Some(&self.node_of(h)),
    {
        self.pool.get(h)
    }

    /// Adds `node` to the graph under `parent` (or as a root) and returns
    /// its handle. Whatever hierarchy links came with `node` are discarded:
    /// links are owned by the graph.
    pub fn add_node(&mut self, node: Node, parent: Option<Handle>) -> (h: Handle)
        requires
            old(self).wf(),
            old(self).pool.slot_count() < usize::MAX,
            parent is Some ==> old(self).valid(parent->0),
        ensures
            final(self).wf(),
            final(self).valid(h),
            !old(self).valid(h),
            final(self).pool.count() == old(self).pool.count() + 1,
            final(self).pool.evolves_from(old(self).pool),
            final(self).node_of(h).base.parent == parent,
            final(self).node_of(h).base.children@.len() == 0,
            final(self).node_of(h).base.name == node.base.name,
            final(self).node_of(h).base.local_transform == node.base.local_transform,
            final(self).node_of(h).kind == node.kind,
            forall|h2: Handle| old(self).valid(h2) ==> final(self).valid(h2),
            forall|h2: Handle| final(self).valid(h2) ==> old(self).valid(h2) || h2 == h,
            forall|h2: Handle|
                old(self).valid(h2) && (parent is Some ==> h2 != parent->0)
                    ==> final(self).node_of(h2) == old(self).node_of(h2),
            parent is Some ==> ({
                let p = parent->0;
                &&& final(self).node_of(p).base.children@ == old(self).node_of(
                    p,
                ).base.children@.push(h)
                &&& final(self).node_of(p).base.parent == old(self).node_of(p).base.parent
                &&& final(self).node_of(p).base.name == old(self).node_of(p).base.name
                &&& final(self).node_of(p).base.local_transform == old(self).node_of(
                    p,
                ).base.local_transform
                &&& final(self).node_of(p).kind == old(self).node_of(p).kind
            }),
    {
        let ghost g0 = *self;
        let mut n = node;
        n.base.parent = parent;
        n.base.children = Vec::new();
        let h = self.pool.add(n);
        if let Some(p) = parent {
            let new_parent_node = {
                let pn = match self.pool.get(p) {
                    Some(pn) => pn,
                    None => {
                        proof {
                            assert(false);
                        }
                        return h;
                    },
                };
                let mut children = copy_handles(&pn.base.children);
                children.push(h);
                Node {
                    base: Base {
                        name: pn.base.name.clone(),
                        local_transform: pn.base.local_transform,
                        parent: pn.base.parent,
                        children,
                    },
                    kind: pn.kind,
                }
            };
            self.pool.set(p, new_parent_node);
        }
        proof {
            let g2 = *self;
            g0.lemma_links_parents();
            assert forall|x: Handle| g0.valid(x) implies g2.valid(x)
                && g2.node_of(x).base.parent == g0.node_of(x).base.parent by {}
            // links_ok for the new graph
            assert forall|x: Handle| #[trigger] g2.valid(x) implies g2.node_links_ok(x) by {
                let nn = g2.node_of(x);
                if x == h {
                    if parent is Some {
                        let p = parent->0;
                        assert(g2.node_of(p).base.children@.contains(h)) by {
                            let cs = g2.node_of(p).base.children@;
                            assert(cs[cs.len() - 1] == h);
                        }
                    }
                } else {
                    assert(g0.valid(x));
                    let old_n = g0.node_of(x);
                    assert(g0.node_links_ok(x));
                    if parent is Some && x == parent->0 {
                        let p = parent->0;
                        // parent link of p unchanged; p still listed in its own parent
                        match nn.base.parent {
                            Some(q) => {
                                assert(old_n.base.parent == Some(q));
                                assert(g0.node_of(q).base.children@.contains(x));
                                if q == p {
                                    let cs0 = g0.node_of(q).base.children@;
                                    let w = choose|w: int| 0 <= w < cs0.len() && cs0[w] == x;
                                    assert(g2.node_of(q).base.children@[w] == x);
                                } else {
                                    assert(g2.node_of(q).base.children@ == g0.node_of(
                                        q,
                                    ).base.children@);
                                }
                            },
                            None => {},
                        }
                        // children of p: the old ones plus h
                        let cs = nn.base.children@;
                        let cs0 = old_n.base.children@;
                        assert(cs == cs0.push(h));
                        assert forall|c: int| 0 <= c < cs.len() implies g2.valid(
                            #[trigger] cs[c],
                        ) && g2.node_of(cs[c]).base.parent == Some(x) by {
                            if c < cs0.len() {
                                assert(cs[c] == cs0[c]);
                                assert(g0.valid(cs0[c]));
                                assert(cs0[c] != h);
                                assert(g2.node_of(cs[c]).base.parent == g0.node_of(
                                    cs0[c],
                                ).base.parent);
                            } else {
                                assert(cs[c] == h);
                                assert(g2.node_of(h).base.parent == Some(p));
                            }
                        }
                        assert forall|c1: int, c2: int| 0 <= c1 < c2 < cs.len() implies cs[c1]
                            != cs[c2] by {
                            if c2 == cs.len() - 1 {
                                assert(cs[c1] == cs0[c1]);
                                assert(g0.valid(cs0[c1]));
                                assert(!g0.valid(h));
                            }
                        }
                    } else {
                        assert(nn == old_n);
                        match nn.base.parent {
                            Some(q) => {
                                assert(g0.node_of(q).base.children@.contains(x));
                                if parent is Some && q == parent->0 {
                                    let cs0 = g0.node_of(q).base.children@;
                                    let w = choose|w: int| 0 <= w < cs0.len() && cs0[w] == x;
                                    assert(g2.node_of(q).base.children@[w] == x);
                                } else {
                                    assert(g2.node_of(q).base.children@ == g0.node_of(
                                        q,
                                    ).base.children@);
                                }
                            },
                            None => {},
                        }
                        assert forall|c: int| 0 <= c < nn.base.children@.len() implies g2.valid(
                            #[trigger] nn.base.children@[c],
                        ) && g2.node_of(nn.base.children@[c]).base.parent == Some(x) by {
                            let ch = nn.base.children@[c];
                            assert(g0.valid(ch));
                            assert(ch != h);
                            if parent is Some && ch == parent->0 {
                                assert(g2.node_of(ch).base.parent == g0.node_of(ch).base.parent);
                            }
                        }
                    }
                }
            }
            // rootedness
            lemma_rooted_preserved(g0, g2);
            assert forall|x: Handle| #[trigger] g2.valid(x) implies g2.rooted(x) by {
                if x == h {
                    assert(g2.up(h, 0) == Some(h));
                    match parent {
                        Some(p) => {
                            assert(g2.up(h, 1) == Some(p));
                            assert(g0.valid(p));
                            assert(g2.rooted(p));
                            let k = choose|k: nat| g2.up(p, k) is None;
                            lemma_up_compose(g2, h, p, 1, k);
                            assert(g2.up(h, (1 + k) as nat) is None);
                        },
                        None => {
                            assert(g2.up(h, 1) is None);
                        },
                    }
                } else {
                    assert(g0.valid(x));
                }
            }
        }
        h
    }

    /// Walks the parent chain upward from `below` and reports whether it
    /// passes through `above`.
    pub fn is_ancestor_of(&self, above: Handle, below: Handle) -> (r: bool)
        requires
            self.wf(),
            self.valid(below),
        ensures
            r == self.ancestor_of(above, below),
    {
        proof {
            lemma_valid_rooted(*self, below);
        }
        let ghost k0 = choose|k: nat| self.up(below, k) is None;
        let mut cur: Option<Handle> = match self.pool.get(below) {
            Some(n) => n.base.parent,
            None => None,
        };
        let ghost mut steps: nat = 1;
        proof {
            assert(self.up(below, 0) == Some(below));
            assert(self.up(below, 1) == cur);
        }
        while cur.is_some()
            invariant
                self.wf(),
                self.valid(below),
                1 <= steps,
                cur == self.up(below, steps),
                self.up(below, k0) is None,
                forall|j: nat| 1 <= j < steps ==> self.up(below, j) != Some(above),
            decreases k0 - steps,
        {
            proof {
                if steps >= k0 {
                    lemma_up_none_stable(*self, below, k0, steps);
                    assert(false);
                }
            }
            let x = match cur {
                Some(x) => x,
                None => {
                    proof {
                        assert(false);
                    }
                    return false;
                },
            };
            if x == above {
                proof {
                    assert(1 <= steps && self.up(below, steps) == Some(above));
                }
                return true;
            }
            cur = match self.pool.get(x) {
                Some(n) => n.base.parent,
                None => None,
            };
            proof {
                assert(self.up(below, (steps + 1) as nat) == self.parent_link(x));
                if !self.valid(x) {
                    assert(self.parent_link(x) is None);
                }
                steps = steps + 1;
            }
        }
        proof {
            assert forall|k: nat| 1 <= k implies self.up(below, k) != Some(above) by {
                if k >= steps {
                    lemma_up_none_stable(*self, below, steps, k);
                }
            }
        }
        false
    }

    /// Reparents `child` under `parent`. Rejected with `InvalidHandle` if
    /// either handle is stale, and with `CycleDetected` — leaving the graph
    /// unchanged — if `parent` is `child` itself or one of its descendants.
    pub fn link_nodes(&mut self, child: Handle, parent: Handle) -> (r: Result<(), EngineError>)
        requires
            old(self).wf(),
        ensures
            final(self).wf(),
            (!old(self).valid(child) || !old(self).valid(parent)) ==> r == Err::<
                (),
                EngineError,
            >(EngineError::InvalidHandle) && *final(self) == *old(self),
            old(self).valid(child) && old(self).valid(parent) && (child == parent || old(
                self,
            ).ancestor_of(child, parent)) ==> r == Err::<(), EngineError>(
                EngineError::CycleDetected,
            ) && *final(self) == *old(self),
            old(self).valid(child) && old(self).valid(parent) && child != parent && !old(
                self,
            ).ancestor_of(child, parent) ==> ({
                let op = old(self).node_of(child).base.parent;
                &&& r is Ok
                &&& forall|h2: Handle| final(self).valid(h2) == old(self).valid(h2)
                &&& final(self).pool.count() == old(self).pool.count()
                &&& final(self).pool.evolves_from(old(self).pool)
                &&& final(self).node_of(child).base.parent == Some(parent)
                &&& final(self).node_of(child).base.children@ == old(self).node_of(
                    child,
                ).base.children@
                &&& final(self).node_of(child).base.name == old(self).node_of(child).base.name
                &&& final(self).node_of(child).base.local_transform == old(self).node_of(
                    child,
                ).base.local_transform
                &&& final(self).node_of(child).kind == old(self).node_of(child).kind
                &&& final(self).node_of(parent).base.children@ == (if op == Some(parent) {
                    old(self).node_of(parent).base.children@.filter(not_handle(child))
                } else {
                    old(self).node_of(parent).base.children@
                }).push(child)
                &&& match op {
                    Some(o) => o != parent ==> final(self).node_of(o).base.children@ == old(
                        self,
                    ).node_of(o).base.children@.filter(not_handle(child)),
                    None => true,
                }
                &&& forall|h2: Handle|
                    old(self).valid(h2) && h2 != child && h2 != parent && (op is Some ==> h2
                        != op->0) ==> final(self).node_of(h2) == old(self).node_of(h2)
            }),
    {
        if !self.is_valid(child) || !self.is_valid(parent) {
            return Err(EngineError::InvalidHandle);
        }
        if child == parent {
            return Err(EngineError::CycleDetected);
        }
        if self.is_ancestor_of(child, parent) {
            return Err(EngineError::CycleDetected);
        }
        let ghost g0 = *self;
        proof {
            g0.lemma_links_parents();
        }
        let (op, new_child_node) = {
            let n = match self.pool.get(child) {
                Some(n) => n,
                None => {
                    proof {
                        assert(false);
                    }
                    return Err(EngineError::InvalidHandle);
                },
            };
            (
                n.base.parent,
                Node {
                    base: Base {
                        name: n.base.name.clone(),
                        local_transform: n.base.local_transform,
                        parent: Some(parent),
                        children: copy_handles(&n.base.children),
                    },
                    kind: n.kind,
                },
            )
        };
        proof {
            if op == Some(child) {
                lemma_valid_rooted(g0, child);
                lemma_no_self_ancestor(g0, child);
                assert(g0.up(child, 0) == Some(child));
                assert(g0.up(child, 1) == Some(child));
                assert(false);
            }
        }
        if let Some(oph) = op {
            let new_op_node = {
                let n = match self.pool.get(oph) {
                    Some(n) => n,
                    None => {
                        proof {
                            assert(false);
                        }
                        return Err(EngineError::InvalidHandle);
                    },
                };
                Node {
                    base: Base {
                        name: n.base.name.clone(),
                        local_transform: n.base.local_transform,
                        parent: n.base.parent,
                        children: remove_handle(&n.base.children, child),
                    },
                    kind: n.kind,
                }
            };
            self.pool.set(oph, new_op_node);
        }
        self.pool.set(child, new_child_node);
        let new_parent_node = {
            let n = match self.pool.get(parent) {
                Some(n) => n,
                None => {
                    proof {
                        assert(false);
                    }
                    return Err(EngineError::InvalidHandle);
                },
            };
            let mut children = copy_handles(&n.base.children);
            children.push(child);
            Node {
                base: Base {
                    name: n.base.name.clone(),
                    local_transform: n.base.local_transform,
                    parent: n.base.parent,
                    children,
                },
                kind: n.kind,
            }
        };
        self.pool.set(parent, new_parent_node);
        proof {
            let g2 = *self;
            // the parent links of the two graphs differ only at `child`
            assert forall|y: Handle| y != child && g2.valid(y) implies g0.valid(y)
                && g0.node_of(y).base.parent == g2.node_of(y).base.parent by {}
            assert forall|y: Handle| y != child && g0.valid(y) implies g2.valid(y)
                && g2.node_of(y).base.parent == g0.node_of(y).base.parent by {}
            // no node lists itself as a child in a well-formed graph
            assert forall|q: Handle, c: int|
                g0.valid(q) && 0 <= c < g0.node_of(q).base.children@.len() implies #[trigger] g0.node_of(
                q,
            ).base.children@[c] != q by {
                let y = g0.node_of(q).base.children@[c];
                if y == q {
                    lemma_valid_rooted(g0, q);
                    lemma_no_self_ancestor(g0, q);
                    assert(g0.up(q, 0) == Some(q));
                    assert(g0.up(q, 1) == Some(q));
                }
            }
            // membership in a children list survives for everything but `child`
            assert forall|q: Handle, y: Handle|
                g0.valid(q) && y != child && #[trigger] g0.node_of(q).base.children@.contains(
                    y,
                ) implies #[trigger] g2.node_of(q).base.children@.contains(y) by {
                let cs0 = g0.node_of(q).base.children@;
                lemma_filter_remove_props(cs0, child);
                if q == parent {
                    let mid = if op == Some(parent) {
                        cs0.filter(not_handle(child))
                    } else {
                        cs0
                    };
                    assert(mid.contains(y));
                    let w = choose|w: int| 0 <= w < mid.len() && mid[w] == y;
                    assert(g2.node_of(q).base.children@[w] == y);
                } else if op == Some(q) {
                    assert(g2.node_of(q).base.children@ == cs0.filter(not_handle(child)));
                } else if q == child {
                    assert(g2.node_of(q).base.children@ == cs0);
                } else {
                    assert(g2.node_of(q) == g0.node_of(q));
                }
            }
            // links_ok in the new graph
            assert forall|x: Handle| #[trigger] g2.valid(x) implies g2.node_links_ok(x) by {
                assert(g0.valid(x));
                assert(g0.node_links_ok(x));
                let nn = g2.node_of(x);
                let old_n = g0.node_of(x);
                // the parent side
                if x == child {
                    assert(nn.base.parent == Some(parent));
                    let csp = g2.node_of(parent).base.children@;
                    assert(csp[csp.len() - 1] == child);
                    assert(csp.contains(child));
                } else {
                    assert(nn.base.parent == old_n.base.parent);
                    match old_n.base.parent {
                        Some(q) => {
                            assert(g0.node_of(q).base.children@.contains(x));
                            assert(q != child || g2.node_of(q).base.children@.contains(x));
                            if q == child {
                                assert(g2.node_of(child).base.children@ == g0.node_of(
                                    child,
                                ).base.children@);
                            }
                        },
                        None => {},
                    }
                }
                // the children side
                let cs0 = if x == child {
                    old_n.base.children@
                } else if op == Some(x) && x != parent {
                    old_n.base.children@.filter(not_handle(child))
                } else if x == parent {
                    if op == Some(parent) {
                        old_n.base.children@.filter(not_handle(child))
                    } else {
                        old_n.base.children@
                    }
                } else {
                    old_n.base.children@
                };
                lemma_filter_remove_props(old_n.base.children@, child);
                assert(forall|i: int|
                    0 <= i < cs0.len() ==> old_n.base.children@.contains(#[trigger] cs0[i]));
                assert(forall|i: int, j: int| 0 <= i < j < cs0.len() ==> cs0[i] != cs0[j]);
                if x == parent {
                    assert(nn.base.children@ == cs0.push(child));
                    assert(forall|i: int| 0 <= i < cs0.len() ==> #[trigger] cs0[i] != child);
                    assert forall|c: int| 0 <= c < nn.base.children@.len() implies g2.valid(
                        #[trigger] nn.base.children@[c],
                    ) && g2.node_of(nn.base.children@[c]).base.parent == Some(x) by {
                        let ch = nn.base.children@[c];
                        if c < cs0.len() {
                            assert(ch == cs0[c]);
                            assert(old_n.base.children@.contains(ch));
                            assert(g0.valid(ch));
                            assert(ch != child);
                            assert(g0.node_of(ch).base.parent == Some(x));
                        } else {
                            assert(ch == child);
                            assert(g2.node_of(child).base.parent == Some(parent));
                        }
                    }
                } else {
                    assert(nn.base.children@ == cs0);
                    assert forall|c: int| 0 <= c < nn.base.children@.len() implies g2.valid(
                        #[trigger] nn.base.children@[c],
                    ) && g2.node_of(nn.base.children@[c]).base.parent == Some(x) by {
                        let ch = nn.base.children@[c];
                        assert(old_n.base.children@.contains(ch));
                        assert(g0.valid(ch));
                        assert(g0.node_of(ch).base.parent == Some(x));
                        if ch == child {
                            assert(op == Some(x));
                            assert(op == Some(x) && x != parent ==> !cs0.contains(child)) by {
                                lemma_filter_remove_props(old_n.base.children@, child);
                            }
                            if x != parent {
                                assert(cs0[c] == ch);
                                assert(cs0.contains(child));
                                assert(false);
                            }
                        } else {
                            assert(g2.node_of(ch).base.parent == Some(x));
                        }
                    }
                }
            }
            g2.lemma_links_parents();
            // rootedness: the new parent's chain avoided `child`, so it is
            // unchanged, and every chain that now runs through `child`
            // continues along it
            g0.lemma_links_parents();
            lemma_valid_rooted(g0, parent);
            let k = choose|k: nat| g0.up(parent, k) is None;
            assert forall|j: nat| j < k implies g0.up(parent, j) != Some(child) by {
                if j >= 1 && g0.up(parent, j) == Some(child) {
                    assert(g0.ancestor_of(child, parent));
                }
                if j == 0 {
                    assert(g0.up(parent, 0) == Some(parent));
                }
            }
            lemma_up_agree_except(g0, g2, parent, k, child);
            assert(g2.up(parent, k) is None);
            assert(g2.rooted(parent));
            assert(g2.up(child, 0) == Some(child));
            assert(g2.up(child, 1) == Some(parent));
            lemma_up_compose(g2, child, parent, 1, k);
            assert(g2.up(child, (1 + k) as nat) is None);
            assert(g2.rooted(child));
            assert forall|x: Handle| #[trigger] g2.valid(x) implies g2.rooted(x) by {
                if exists|j: nat| g2.up(x, j) == Some(child) {
                    let j = choose|j: nat| g2.up(x, j) == Some(child);
                    lemma_up_compose(g2, x, child, j, (1 + k) as nat);
                    assert(g2.up(x, (j + (1 + k)) as nat) is None);
                } else {
                    assert(g0.valid(x));
                    lemma_valid_rooted(g0, x);
                    let kx = choose|kx: nat| g0.up(x, kx) is None;
                    assert(forall|j: nat| j < kx ==> g2.up(x, j) != Some(child));
                    lemma_up_agree_except(g2, g0, x, kx, child);
                    assert(g0.up(x, kx) == g2.up(x, kx));
                }
            }
        }
        Ok(())
    }

    /// Collects the handles of every node in the subtree of `h`, `h`
    /// included, by walking the child links outward from `h`.
    #[verifier::rlimit(100)]
    pub fn collect_subtree(&self, h: Handle) -> (r: Vec<Handle>)
        requires
            self.wf(),
            self.valid(h),
        ensures
            forall|j: int|
                0 <= j < r@.len() ==> self.valid(#[trigger] r@[j]) && self.in_subtree(h, r@[j]),
            forall|j1: int, j2: int| 0 <= j1 < j2 < r@.len() ==> r@[j1] != r@[j2],
            forall|y: Handle| self.valid(y) && self.in_subtree(h, y) ==> r@.contains(y),
    {
        let g = self;
        let mut out: Vec<Handle> = Vec::new();
        out.push(h);
        let mut qi: usize = 0;
        proof {
            crate::pool::lemma_distinct_valid_le_count(g.pool, out@);
        }
        while qi < out.len()
            invariant
                g == self,
                g.wf(),
                g.valid(h),
                qi <= out@.len(),
                out@.len() >= 1 && out@[0] == h,
                forall|j: int|
                    0 <= j < out@.len() ==> g.valid(#[trigger] out@[j]) && g.in_subtree(
                        h,
                        out@[j],
                    ),
                forall|a: int, b: int| 0 <= a < b < out@.len() ==> out@[a] != out@[b],
                forall|j: int|
                    0 <= j < out@.len() && out@[j] != h ==> match g.node_of(
                        #[trigger] out@[j],
                    ).base.parent {
                        Some(p) => exists|u: int| 0 <= u < qi && u < j && out@[u] == p,
                        None => false,
                    },
                forall|u: int, c: int|
                    0 <= u < qi && 0 <= c < g.node_of(#[trigger] out@[u]).base.children@.len()
                        ==> out@.contains(#[trigger] g.node_of(out@[u]).base.children@[c]),
                out@.len() <= g.pool.count(),
            decreases g.pool.count() - qi,
        {
            let x = out[qi];
            let ghost out_head = out@;
            let ghost qi0 = qi as int;
            proof {
                assert(g.valid(out@[qi0]));
                assert(g.valid(x));
            }
            let node_opt = self.pool.get(x);
            proof {
                assert(node_opt is Some);
            }
            let node = match node_opt {
                Some(n) => n,
                None => {
                    proof {
                        assert(false);
                    }
                    return out;
                },
            };
            proof {
                assert(*node == g.node_of(x));
            }
            let mut ci: usize = 0;
            while ci < node.base.children.len()
                invariant
                    g == self,
                    g.wf(),
                    g.valid(h),
                    g.valid(x),
                    g.in_subtree(h, x),
                    *node == g.node_of(x),
                    ci <= node.base.children@.len(),
                    0 <= qi0 < out_head.len(),
                    out_head[qi0] == x,
                    out@ == out_head + g.node_of(x).base.children@.subrange(0, ci as int),
                    out@.len() >= 1 && out@[0] == h,
                    forall|j: int|
                        0 <= j < out@.len() ==> g.valid(#[trigger] out@[j]) && g.in_subtree(
                            h,
                            out@[j],
                        ),
                    forall|a: int, b: int| 0 <= a < b < out@.len() ==> out@[a] != out@[b],
                    forall|j: int|
                        0 <= j < out_head.len() && out@[j] != h ==> match g.node_of(
                            #[trigger] out@[j],
                        ).base.parent {
                            Some(p) => exists|u: int| 0 <= u < qi0 && u < j && out@[u] == p,
                            None => false,
                        },
                    forall|u: int, c: int|
                        0 <= u < qi0 && 0 <= c < g.node_of(#[trigger] out@[u]).base.children@.len()
                            ==> out@.contains(#[trigger] g.node_of(out@[u]).base.children@[c]),
                    out@.len() <= g.pool.count(),
                decreases node.base.children@.len() - ci,
            {
                let c = node.base.children[ci];
                proof {
                    assert(g.node_links_ok(x));
                    assert(g.valid(c));
                    assert(g.node_of(c).base.parent == Some(x));
                    lemma_subtree_step(*g, h, x, c);
                    assert(!out@.contains(c)) by {
                        if out@.contains(c) {
                            let w = choose|w: int| 0 <= w < out@.len() && out@[w] == c;
                            if w < out_head.len() {
                                // an old entry's recorded parent sits strictly
                                // before position qi0, but c's parent is x itself
                                assert(out@[w] != h);
                                let u = choose|u: int|
                                    0 <= u < qi0 && u < w && out@[u] == x;
                                assert(out@[u] == out@[qi0]);
                            } else {
                                // a sibling pushed in this pass; children of one
                                // node are distinct
                                let cj = w - out_head.len();
                                assert(g.node_of(x).base.children@.subrange(0, ci as int)[cj]
                                    == c);
                                assert(g.node_of(x).base.children@[cj] == c);
                                assert(g.node_of(x).base.children@[ci as int] == c);
                            }
                        }
                    }
                }
                let ghost out_mid = out@;
                out.push(c);
                proof {
                    assert(out@ == out_mid.push(c));
                    assert(out@ =~= out_head + g.node_of(x).base.children@.subrange(0, ci + 1));
                    assert forall|j: int| 0 <= j < out_head.len() && out@[j] != h implies match g.node_of(
                        #[trigger] out@[j],
                    ).base.parent {
                        Some(p) => exists|u: int| 0 <= u < qi0 && u < j && out@[u] == p,
                        None => false,
                    } by {
                        assert(out@[j] == out_mid[j]);
                        assert(g.node_of(out_mid[j]).base.parent == g.node_of(out@[j]).base.parent);
                        match g.node_of(out@[j]).base.parent {
                            Some(p) => {
                                let u = choose|u: int| 0 <= u < qi0 && u < j && out_mid[u] == p;
                                assert(out@[u] == p);
                            },
                            None => {},
                        }
                    }
                    assert forall|a: int, b: int| 0 <= a < b < out@.len() implies out@[a]
                        != out@[b] by {
                        if b == out@.len() - 1 {
                            assert(out@[b] == c);
                            assert(out@[a] == out_mid[a]);
                            if out@[a] == c {
                                assert(out_mid.contains(c));
                            }
                        }
                    }
                    assert forall|u: int, c2: int|
                        0 <= u < qi0 && 0 <= c2 < g.node_of(
                            #[trigger] out@[u],
                        ).base.children@.len() implies out@.contains(
                        #[trigger] g.node_of(out@[u]).base.children@[c2],
                    ) by {
                        assert(out@[u] == out_mid[u]);
                        let ch = g.node_of(out_mid[u]).base.children@[c2];
                        assert(out_mid.contains(ch));
                        let w = choose|w: int| 0 <= w < out_mid.len() && out_mid[w] == ch;
                        assert(out@[w] == ch);
                    }
                    crate::pool::lemma_distinct_valid_le_count(g.pool, out@);
                }
                ci = ci + 1;
            }
            proof {
                assert(g.node_of(x).base.children@.subrange(
                    0,
                    g.node_of(x).base.children@.len() as int,
                ) =~= g.node_of(x).base.children@);
                assert forall|u: int, c: int|
                    0 <= u < qi0 + 1 && 0 <= c < g.node_of(
                        #[trigger] out@[u],
                    ).base.children@.len() implies out@.contains(
                    #[trigger] g.node_of(out@[u]).base.children@[c],
                ) by {
                    if u == qi0 {
                        assert(out@[u] == x);
                        let ch = g.node_of(x).base.children@[c];
                        assert(out@[out_head.len() + c] == ch);
                    }
                }
                assert forall|j: int| 0 <= j < out@.len() && out@[j] != h implies match g.node_of(
                    #[trigger] out@[j],
                ).base.parent {
                    Some(p) => exists|u: int| 0 <= u < qi0 + 1 && u < j && out@[u] == p,
                    None => false,
                } by {
                    if j >= out_head.len() {
                        assert(out@[j] == g.node_of(x).base.children@[j - out_head.len()]);
                        assert(g.node_of(out@[j]).base.parent == Some(x));
                        assert(out@[qi0] == x);
                        assert(0 <= qi0 < qi0 + 1 && qi0 < j && out@[qi0] == x);
                    }
                }
            }
            qi = qi + 1;
        }
        proof {
            assert(out@.contains(h)) by {
                assert(out@[0] == h);
            }
            assert forall|y: Handle| g.valid(y) && g.in_subtree(h, y) implies out@.contains(y) by {
                assert forall|xx: Handle, cc: Handle|
                    #![trigger out@.contains(xx), g.node_of(cc).base.parent]
                    out@.contains(xx) && g.valid(cc) && g.node_of(cc).base.parent == Some(
                        xx,
                    ) implies out@.contains(cc) by {
                    let w = choose|w: int| 0 <= w < out@.len() && out@[w] == xx;
                    assert(g.node_links_ok(xx));
                    assert(g.node_of(xx).base.children@.contains(cc));
                    let u = choose|u: int|
                        0 <= u < g.node_of(xx).base.children@.len() && g.node_of(
                            xx,
                        ).base.children@[u] == cc;
                    assert(out@.contains(g.node_of(out@[w]).base.children@[u]));
                }
                if y == h {
                } else {
                    let m = choose|m: nat| 1 <= m && g.up(y, m) == Some(h);
                    lemma_subtree_complete(*g, h, out@, y, m);
                }
            }
        }
        out
    }


    /// The handles of all live nodes, in pool (slot) order: the lazy,
    /// restartable walk that rendering and retargeting use.
    pub fn linear_handles(&self) -> (r: Vec<Handle>)
        ensures
            forall|j: int| 0 <= j < r@.len() ==> self.valid(#[trigger] r@[j]),
            forall|j1: int, j2: int| 0 <= j1 < j2 < r@.len() ==> r@[j1].index < r@[j2].index,
            forall|x: Handle| self.valid(x) ==> r@.contains(x),
    {
        let mut r: Vec<Handle> = Vec::new();
        let mut i: usize = 0;
        let n = self.pool.slot_len();
        while i < n
            invariant
                n == self.pool.slot_count(),
                i <= n,
                forall|j: int|
                    0 <= j < r@.len() ==> self.valid(#[trigger] r@[j]) && r@[j].index < i,
                forall|j1: int, j2: int| 0 <= j1 < j2 < r@.len() ==> r@[j1].index < r@[j2].index,
                forall|x: Handle| self.valid(x) && x.index < i ==> r@.contains(x),
            decreases n - i,
        {
            let ghost r0 = r@;
            match self.pool.handle_of(i) {
                Some(hh) => {
                    r.push(hh);
                    proof {
                        assert forall|x: Handle| self.valid(x) && x.index < i + 1 implies
                            r@.contains(x) by {
                            if x.index < i {
                                let w = choose|w: int| 0 <= w < r0.len() && r0[w] == x;
                                assert(r@[w] == x);
                            } else {
                                assert(x == hh);
                                assert(r@[r@.len() - 1] == x);
                            }
                        }
                    }
                },
                None => {
                    proof {
                        assert forall|x: Handle| self.valid(x) && x.index < i + 1 implies
                            r@.contains(x) by {
                            if x.index == i {
                                assert(self.pool.occ(i as int));
                            }
                        }
                    }
                },
            }
            i = i + 1;
        }
        r
    }

    /// Finds the scene's active camera: the first camera node in pool
    /// order, or nothing, which callers treat as "skip this scene".
    pub fn first_camera(&self) -> (r: Option<Handle>)
        ensures
            match r {
                Some(c) => self.valid(c) && self.node_of(c).kind is Camera && forall|x: Handle|
                    self.valid(x) && self.node_of(x).kind is Camera ==> c.index <= x.index,
                None => forall|x: Handle|
                    self.valid(x) ==> !(self.node_of(x).kind is Camera),
            },
    {
        let mut i: usize = 0;
        let n = self.pool.slot_len();
        while i < n
            invariant
                n == self.pool.slot_count(),
                i <= n,
                forall|x: Handle|
                    self.valid(x) && x.index < i ==> !(self.node_of(x).kind is Camera),
            decreases n - i,
        {
            match self.pool.handle_of(i) {
                Some(hh) => {
                    let is_cam = match self.pool.get(hh) {
                        Some(node) => node.is_camera(),
                        None => false,
                    };
                    if is_cam {
                        proof {
                            assert forall|x: Handle|
                                self.valid(x) && self.node_of(x).kind is Camera implies hh.index
                                <= x.index by {}
                        }
                        return Some(hh);
                    }
                },
                None => {},
            }
            proof {
                assert forall|x: Handle| self.valid(x) && x.index < i + 1 implies !(self.node_of(
                    x,
                ).kind is Camera) by {
                    if x.index == i {
                        assert(self.pool.occ(i as int));
                        assert(x == self.pool.handle_at(i as int));
                    }
                }
            }
            i = i + 1;
        }
        None
    }

    /// Finds the first node in pool order, inside the subtree of `root`,
    /// whose name matches; retargeting resolves bones this way.
    pub fn find_by_name_in_subtree(&self, root: Handle, name: &String) -> (r: Option<Handle>)
        requires
            self.wf(),
            self.valid(root),
        ensures
            match r {
                Some(f) => self.valid(f) && self.in_subtree(root, f) && self.node_of(
                    f,
                ).base.name@ == name@,
                None => forall|x: Handle|
                    self.valid(x) && self.in_subtree(root, x) ==> self.node_of(x).base.name@
                        != name@,
            },
    {
        let mut i: usize = 0;
        let n = self.pool.slot_len();
        while i < n
            invariant
                self.wf(),
                self.valid(root),
                n == self.pool.slot_count(),
                i <= n,
                forall|x: Handle|
                    self.valid(x) && x.index < i && self.in_subtree(root, x) ==> self.node_of(
                        x,
                    ).base.name@ != name@,
            decreases n - i,
        {
            match self.pool.handle_of(i) {
                Some(hh) => {
                    let name_matches = match self.pool.get(hh) {
                        Some(node) => node.base.name == *name,
                        None => false,
                    };
                    if name_matches && (hh == root || self.is_ancestor_of(root, hh)) {
                        return Some(hh);
                    }
                },
                None => {},
            }
            proof {
                assert forall|x: Handle|
                    self.valid(x) && x.index < i + 1 && self.in_subtree(root, x) implies
                    self.node_of(x).base.name@ != name@ by {
                    if x.index == i {
                        assert(self.pool.occ(i as int));
                        assert(x == self.pool.handle_at(i as int));
                    }
                }
            }
            i = i + 1;
        }
        None
    }

    /// Whether the subtree of `root` holds a live node with this name.
    pub open spec fn has_named(self, root: Handle, nm: Seq<char>) -> bool {
        exists|x: Handle|
            self.valid(x) && self.in_subtree(root, x) && self.node_of(x).base.name@ == nm
    }

    /// The handles of every live node in the subtree of `h`.
    pub open spec fn subtree_set(self, h: Handle) -> Set<Handle> {
        Set::new(|x: Handle| self.valid(x) && self.in_subtree(h, x))
    }

    /// Removes the node behind `h` together with its whole subtree, so no
    /// orphaned node can leak a pool slot. The pool's occupancy drops by
    /// exactly the size of that subtree.
    #[verifier::loop_isolation(false)]
    #[verifier::rlimit(100)]
    pub fn remove_node(&mut self, h: Handle) -> (r: Result<(), EngineError>)
        requires
            old(self).wf(),
        ensures
            final(self).wf(),
            !old(self).valid(h) ==> r == Err::<(), EngineError>(EngineError::InvalidHandle)
                && *final(self) == *old(self),
            old(self).valid(h) ==> ({
                let op = old(self).node_of(h).base.parent;
                &&& r is Ok
                &&& forall|x: Handle|
                    final(self).valid(x) == (old(self).valid(x) && !old(self).in_subtree(h, x))
                &&& !final(self).valid(h)
                &&& final(self).pool.count() == old(self).pool.count() - old(self).subtree_set(
                    h,
                ).len()
                &&& final(self).pool.evolves_from(old(self).pool)
                &&& match op {
                    Some(o) => {
                        &&& final(self).node_of(o).base.children@ == old(self).node_of(
                            o,
                        ).base.children@.filter(not_handle(h))
                        &&& final(self).node_of(o).base.parent == old(self).node_of(o).base.parent
                        &&& final(self).node_of(o).base.name == old(self).node_of(o).base.name
                        &&& final(self).node_of(o).base.local_transform == old(self).node_of(
                            o,
                        ).base.local_transform
                        &&& final(self).node_of(o).kind == old(self).node_of(o).kind
                    },
                    None => true,
                }
                &&& forall|x: Handle|
                    final(self).valid(x) && (op is Some ==> x != op->0) ==> final(self).node_of(x)
                        == old(self).node_of(x)
            }),
    {
        if !self.is_valid(h) {
            return Err(EngineError::InvalidHandle);
        }
        let ghost g0 = *self;
        proof {
            g0.lemma_links_parents();
        }
        let subtree = self.collect_subtree(h);
        // detach `h` from its parent before freeing the subtree
        let op = {
            let n = match self.pool.get(h) {
                Some(n) => n,
                None => {
                    proof {
                        assert(false);
                    }
                    return Err(EngineError::InvalidHandle);
                },
            };
            n.base.parent
        };
        proof {
            // the old parent lies outside the subtree
            match op {
                Some(o) => {
                    lemma_parent_not_self(g0, h);
                    if g0.in_subtree(h, o) {
                        assert(g0.up(h, 0) == Some(h));
                        assert(g0.up(h, 1) == Some(o));
                        if o == h {
                        } else {
                            let m = choose|m: nat| 1 <= m && g0.up(o, m) == Some(h);
                            lemma_up_compose(g0, h, o, 1, m);
                            assert(g0.up(h, (1 + m) as nat) == Some(h));
                            lemma_valid_rooted(g0, h);
                            lemma_no_self_ancestor(g0, h);
                        }
                        assert(false);
                    }
                },
                None => {},
            }
        }
        if let Some(oph) = op {
            let new_op_node = {
                let n = match self.pool.get(oph) {
                    Some(n) => n,
                    None => {
                        proof {
                            assert(false);
                        }
                        return Err(EngineError::InvalidHandle);
                    },
                };
                Node {
                    base: Base {
                        name: n.base.name.clone(),
                        local_transform: n.base.local_transform,
                        parent: n.base.parent,
                        children: remove_handle(&n.base.children, h),
                    },
                    kind: n.kind,
                }
            };
            self.pool.set(oph, new_op_node);
        }
        let ghost g1 = *self;
        let mut i: usize = 0;
        while i < subtree.len()
            invariant
                i <= subtree@.len(),
                self.pool.wf(),
                self.pool.slot_count() == g1.pool.slot_count(),
                self.pool.count() == g1.pool.count() - i,
                self.pool.evolves_from(g1.pool),
                forall|x: Handle|
                    self.pool.spec_valid(x) == (g1.pool.spec_valid(x) && !subtree@.subrange(
                        0,
                        i as int,
                    ).contains(x)),
                forall|x: Handle|
                    #[trigger] self.pool.spec_valid(x) ==> self.pool.at(x) == g1.pool.at(x),
            decreases subtree@.len() - i,
        {
            let hh = subtree[i];
            let ghost pool_mid = self.pool;
            proof {
                assert(!subtree@.subrange(0, i as int).contains(hh)) by {
                    if subtree@.subrange(0, i as int).contains(hh) {
                        let w = choose|w: int|
                            0 <= w < i && subtree@.subrange(0, i as int)[w] == hh;
                        assert(subtree@[w] == subtree@[i as int]);
                    }
                }
                assert(g1.pool.spec_valid(hh));
                assert(self.pool.spec_valid(hh));
            }
            let removed = self.pool.remove(hh);
            proof {
                assert(removed is Some);
                crate::pool::lemma_evolves_transitive(g1.pool, pool_mid, self.pool);
                assert(subtree@.subrange(0, i + 1) =~= subtree@.subrange(0, i as int).push(
                    subtree@[i as int],
                ));
                assert forall|x: Handle| self.pool.spec_valid(x) == (g1.pool.spec_valid(x)
                    && !subtree@.subrange(0, i + 1).contains(x)) by {
                    if x == hh {
                        assert(subtree@.subrange(0, i + 1)[i as int] == hh);
                    }
                }
            }
            i = i + 1;
        }
        proof {
            let g2 = *self;
            assert(subtree@.subrange(0, subtree@.len() as int) =~= subtree@);
            // how validity changed, stated against the graph before removal
            assert forall|x: Handle| g2.valid(x) == (g0.valid(x) && !g0.in_subtree(h, x)) by {
                if g0.valid(x) && g0.in_subtree(h, x) {
                    assert(subtree@.contains(x));
                }
                if g2.valid(x) {
                    assert(g1.pool.spec_valid(x) && !subtree@.contains(x));
                    if g0.in_subtree(h, x) {
                        assert(subtree@.contains(x));
                    }
                }
            }
            // no remaining node keeps a link into the removed subtree
            assert forall|x: Handle| #[trigger] g2.valid(x) implies g2.node_links_ok(x) by {
                assert(g0.valid(x) && !g0.in_subtree(h, x));
                assert(g0.node_links_ok(x));
                let nn = g2.node_of(x);
                let old_n = g0.node_of(x);
                assert(nn.base.parent == old_n.base.parent);
                match nn.base.parent {
                    Some(q) => {
                        assert(g0.valid(q));
                        assert(g0.up(x, 0) == Some(x));
                        assert(g0.up(x, 1) == Some(q));
                        if g0.in_subtree(h, q) {
                            if q == h {
                                assert(g0.ancestor_of(h, x));
                            } else {
                                let m = choose|m: nat| 1 <= m && g0.up(q, m) == Some(h);
                                lemma_up_compose(g0, x, q, 1, m);
                                assert(g0.up(x, (1 + m) as nat) == Some(h));
                            }
                            assert(g0.in_subtree(h, x));
                            assert(false);
                        }
                        assert(g2.valid(q));
                        assert(g0.node_of(q).base.children@.contains(x));
                        if op == Some(q) {
                            lemma_filter_remove_props(g0.node_of(q).base.children@, h);
                            assert(x != h);
                            assert(g2.node_of(q).base.children@.contains(x));
                        } else {
                            assert(g2.node_of(q).base.children@ == g0.node_of(
                                q,
                            ).base.children@);
                        }
                    },
                    None => {},
                }
                let cs0 = g0.node_of(x).base.children@;
                lemma_filter_remove_props(cs0, h);
                let cs = nn.base.children@;
                assert forall|c: int| 0 <= c < cs.len() implies g2.valid(#[trigger] cs[c])
                    && g2.node_of(cs[c]).base.parent == Some(x) by {
                    let ch = cs[c];
                    assert(cs0.contains(ch) && (op == Some(x) ==> ch != h));
                    assert(g0.valid(ch));
                    assert(g0.node_of(ch).base.parent == Some(x));
                    // a surviving node's child cannot lie in the subtree
                    if g0.in_subtree(h, ch) {
                        if ch == h {
                            assert(op == Some(x));
                        } else {
                            let m = choose|m: nat| 1 <= m && g0.up(ch, m) == Some(h);
                            if m == 1 {
                                assert(g0.up(ch, 0) == Some(ch));
                                assert(g0.up(ch, 1) == Some(x));
                                assert(x == h);
                                assert(g0.in_subtree(h, x));
                            } else {
                                assert(g0.up(ch, 0) == Some(ch));
                                assert(g0.up(ch, 1) == Some(x));
                                lemma_up_compose(g0, ch, x, 1, (m - 1) as nat);
                                assert(g0.up(x, (m - 1) as nat) == Some(h));
                                assert(g0.ancestor_of(h, x));
                                assert(g0.in_subtree(h, x));
                            }
                        }
                        assert(false);
                    }
                    assert(g2.valid(ch));
                    assert(g2.node_of(ch).base.parent == Some(x));
                }
            }
            let g2b = *self;
            g2b.lemma_links_parents();
            // chains of surviving nodes are untouched
            assert forall|x: Handle| #[trigger] g2.valid(x) implies g2.rooted(x) by {
                lemma_valid_rooted(g0, x);
                let kx = choose|kx: nat| g0.up(x, kx) is None;
                lemma_up_agree(g2, g0, x, kx);
                assert(g2.up(x, kx) == g0.up(x, kx));
            }
            // the subtree seq and the subtree set have the same size
            assert(subtree@.no_duplicates());
            subtree@.unique_seq_to_set();
            assert(g0.subtree_set(h) =~= subtree@.to_set());
            assert(g0.subtree_set(h).len() == subtree@.len());
        }
        Ok(())
    }

    /// Overwrites the local transform of a live node; reports whether the
    /// handle was live. The hierarchy is untouched.
    pub fn set_local_transform(&mut self, h: Handle, t: Transform) -> (r: bool)
        requires
            old(self).wf(),
        ensures
            final(self).wf(),
            r == old(self).valid(h),
            !old(self).valid(h) ==> *final(self) == *old(self),
            old(self).valid(h) ==> {
                &&& final(self).node_of(h).base.local_transform == t
                &&& final(self).node_of(h).base.name == old(self).node_of(h).base.name
                &&& final(self).node_of(h).base.parent == old(self).node_of(h).base.parent
                &&& final(self).node_of(h).base.children@ == old(self).node_of(h).base.children@
                &&& final(self).node_of(h).kind == old(self).node_of(h).kind
                &&& final(self).pool.count() == old(self).pool.count()
                &&& forall|h2: Handle| final(self).valid(h2) == old(self).valid(h2)
                &&& forall|h2: Handle|
                    h2 != h && old(self).valid(h2) ==> final(self).node_of(h2) == old(
                        self,
                    ).node_of(h2)
                &&& final(self).pool.evolves_from(old(self).pool)
            },
    {
        let ghost g0 = *self;
        let new_node = {
            let n = match self.pool.get(h) {
                Some(n) => n,
                None => {
                    return false;
                },
            };
            Node {
                base: Base {
                    name: n.base.name.clone(),
                    local_transform: t,
                    parent: n.base.parent,
                    children: copy_handles(&n.base.children),
                },
                kind: n.kind,
            }
        };
        self.pool.set(h, new_node);
        proof {
            let g2 = *self;
            g0.lemma_links_parents();
            assert(g0.node_of(h).base.children@ == g2.node_of(h).base.children@);
            assert forall|x: Handle| g0.valid(x) implies g2.valid(x)
                && g2.node_of(x).base.parent == g0.node_of(x).base.parent by {}
            assert forall|x: Handle| #[trigger] g2.valid(x) implies g2.node_links_ok(x) by {
                let nn = g2.node_of(x);
                assert(g0.valid(x));
                let old_n = g0.node_of(x);
                assert(g0.node_links_ok(x));
                assert(nn.base.parent == old_n.base.parent);
                assert(nn.base.children@ == old_n.base.children@);
                match nn.base.parent {
                    Some(q) => {
                        assert(g0.node_of(q).base.children@.contains(x));
                        assert(g2.node_of(q).base.children@ == g0.node_of(q).base.children@);
                        let cs0 = g0.node_of(q).base.children@;
                        let w = choose|w: int| 0 <= w < cs0.len() && cs0[w] == x;
                        assert(g2.node_of(q).base.children@[w] == x);
                    },
                    None => {},
                }
                assert forall|c: int| 0 <= c < nn.base.children@.len() implies g2.valid(
                    #[trigger] nn.base.children@[c],
                ) && g2.node_of(nn.base.children@[c]).base.parent == Some(x) by {
                    let ch = nn.base.children@[c];
                    assert(old_n.base.children@[c] == ch);
                    assert(g0.valid(ch));
                    assert(g2.node_of(ch).base.parent == g0.node_of(ch).base.parent);
                }
            }
            lemma_rooted_preserved(g0, g2);
        }
        true
    }
}

} // verus!
