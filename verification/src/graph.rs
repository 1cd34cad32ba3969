//! An owning collection of nodes keyed by id, with mutation operations
//! that keep edge weights consistent with the nodes' coordinates.

use vstd::prelude::*;
use crate::ids::id_eq;
use crate::node::Node;
use crate::point::{dist_sq, is_sqrt_floor, Point};

verus! {

/// Start or destination id absent from the graph.
#[derive(Debug, PartialEq, Eq, Structural, Clone, Copy)]
pub struct DoesNotContainError;

impl DoesNotContainError {
    /// A short description of the error, for callers that report it.
    pub fn message(&self) -> (r: &'static str)
        ensures
            r@ =~= "Graph does not contain that node."@,
    {
        "Graph does not contain that node."
    }
}

/// A weighted graph: nodes keyed by unique id, every recorded edge
/// pointing at a node that is present.
#[derive(Debug)]
pub struct Graph {
    pub nodes: Vec<Node>,
}

impl Graph {
    /// The node ids in storage order.
    pub open spec fn ids(&self) -> Seq<Seq<char>> {
        self.nodes@.map_values(|n: Node| n.id@)
    }

    /// Whether a node with this id is present.
    pub open spec fn contains_id(&self, id: Seq<char>) -> bool {
        exists|i: int| 0 <= i < self.nodes@.len() && (#[trigger] self.nodes@[i]).id@ == id
    }

    /// The index of the node with this id, when present.
    pub open spec fn idx_of(&self, id: Seq<char>) -> int {
        choose|i: int| 0 <= i < self.nodes@.len() && (#[trigger] self.nodes@[i]).id@ == id
    }

    /// The node with this id, when present.
    pub open spec fn node_of(&self, id: Seq<char>) -> Node {
        self.nodes@[self.idx_of(id)]
    }

    /// Well-formedness: nodes are well formed, ids are unique, and every
    /// edge points at a present node.
    pub open spec fn wf(&self) -> bool {
        &&& forall|i: int| 0 <= i < self.nodes@.len() ==> (#[trigger] self.nodes@[i]).wf()
        &&& forall|i: int, j: int|
            0 <= i < j < self.nodes@.len() ==> (#[trigger] self.nodes@[i]).id@ != (
            #[trigger] self.nodes@[j]).id@
        &&& forall|i: int, j: int|
            0 <= i < self.nodes@.len() && 0 <= j < (#[trigger] self.nodes@[i]).edges@.len()
                ==> self.contains_id((#[trigger] self.nodes@[i].edges@[j]).0@)
    }

    pub fn new() -> (g: Graph)
        ensures
            g.wf(),
            g.nodes@.len() == 0,
    {
        Graph { nodes: Vec::new() }
    }

    pub fn with_capacity(capacity: usize) -> (g: Graph)
        ensures
            g.wf(),
            g.nodes@.len() == 0,
    {
        Graph { nodes: Vec::with_capacity(capacity) }
    }

    pub fn nodes(&self) -> (r: &Vec<Node>)
        ensures
            r@ == self.nodes@,
    {
        &self.nodes
    }

    pub fn len(&self) -> (r: usize)
        ensures
            r == self.nodes@.len(),
    {
        self.nodes.len()
    }

    /// The index of the node with this id, if the graph holds one.
    #[verifier::loop_isolation(false)]
    pub fn find(&self, id: &str) -> (r: Option<usize>)
        ensures
            match r {
                Some(i) => i < self.nodes@.len() && self.nodes@[i as int].id@ == id@,
                None => !self.contains_id(id@),
            },
    {
        let mut i: usize = 0;
        while i < self.nodes.len()
            invariant
                0 <= i <= self.nodes@.len(),
                forall|j: int| 0 <= j < i ==> (#[trigger] self.nodes@[j]).id@ != id@,
            decreases self.nodes@.len() - i,
        {
            if id_eq(self.nodes[i].id.as_str(), id) {
                return Some(i);
            }
            i = i + 1;
        }
        None
    }

    /// Whether the graph holds a node with this id.
    pub fn contains_node(&self, id: &str) -> (r: bool)
        ensures
            r == self.contains_id(id@),
    {
        match self.find(id) {
            Some(i) => {
                proof {
                    assert(self.contains_id(id@));
                }
                true
            },
            None => false,
        }
    }

    /// Inserts or replaces the node with this id; the node starts with no
    /// edges. Other nodes, including their edges to this id, are kept.
    pub fn add_node(&mut self, id: &str, point: Point)
        requires
            old(self).wf(),
            id@.len() > 0,
        ensures
            final(self).wf(),
            final(self).contains_id(id@),
            final(self).node_of(id@).point == point,
            final(self).node_of(id@).edges@.len() == 0,
            forall|k: Seq<char>|
                k != id@ ==> final(self).contains_id(k) == old(self).contains_id(k),
            forall|k: Seq<char>|
                k != id@ && old(self).contains_id(k) ==> final(self).node_of(k) == old(self).node_of(k),
            final(self).nodes@.len() == old(self).nodes@.len() + (
            if old(self).contains_id(id@) {
                0int
            } else {
                1int
            }),
    {
        let ghost pre = *self;
        let node = Node::new(id, point);
        match self.find(id) {
            Some(i) => {
                self.nodes[i] = node;
                proof {
                    lemma_node_replace(pre, *self, i as int, id@);
                }
            },
            None => {
                self.nodes.push(node);
                proof {
                    lemma_node_append(pre, *self, id@);
                }
            },
        }
    }

    /// Removes the node and every edge pointing to it elsewhere; returns
    /// the removed node's data if it existed.
    #[verifier::loop_isolation(false)]
    pub fn remove_node(&mut self, id: &str) -> (r: Option<Node>)
        requires
            old(self).wf(),
        ensures
            final(self).wf(),
            !final(self).contains_id(id@),
            forall|k: Seq<char>|
                k != id@ ==> final(self).contains_id(k) == old(self).contains_id(k),
            forall|k: Seq<char>|
                k != id@ && old(self).contains_id(k) ==> {
                    let n = final(self).node_of(k);
                    let m = old(self).node_of(k);
                    n.id@ == m.id@ && n.point == m.point && !n.has_edge(id@) && forall|e: Seq<char>|
                        e != id@ ==> n.edge_lookup(e) == m.edge_lookup(e)
                },
            match r {
                Some(n) => {
                    &&& old(self).contains_id(id@)
                    &&& n.id@ == id@
                    &&& n.point == old(self).node_of(id@).point
                    &&& !n.has_edge(id@)
                    &&& forall|e: Seq<char>|
                        e != id@ ==> n.edge_lookup(e) == old(self).node_of(id@).edge_lookup(e)
                },
                None => !old(self).contains_id(id@),
            },
            final(self).nodes@.len() == old(self).nodes@.len() - (
            if old(self).contains_id(id@) {
                1int
            } else {
                0int
            }),
    {
        let ghost pre = *self;
        let mut i: usize = 0;
        while i < self.nodes.len()
            invariant
                self.nodes@.len() == pre.nodes@.len(),
                forall|j: int|
                    0 <= j < self.nodes@.len() ==> {
                        let n = #[trigger] self.nodes@[j];
                        let m = pre.nodes@[j];
                        n.wf() && n.id@ == m.id@ && n.point == m.point
                    },
                forall|j: int|
                    i <= j < self.nodes@.len() ==> (#[trigger] self.nodes@[j]) == pre.nodes@[j],
                forall|j: int|
                    0 <= j < i ==> !(#[trigger] self.nodes@[j]).has_edge(id@),
                forall|j: int, e: Seq<char>|
                    0 <= j < i && e != id@ ==> #[trigger] self.nodes@[j].edge_lookup(e)
                        == pre.nodes@[j].edge_lookup(e),
            decreases self.nodes@.len() - i,
        {
            self.nodes[i].remove_edge(id);
            i = i + 1;
        }
        let ghost mid = *self;
        match self.find(id) {
            Some(i) => {
                let removed = self.nodes.remove(i);
                proof {
                    lemma_node_remove(pre, mid, *self, i as int, id@, removed);
                }
                Some(removed)
            },
            None => {
                proof {
                    lemma_node_cascade_only(pre, mid, id@);
                }
                None
            },
        }
    }

    /// Computes the distance between the two nodes' points and records it
    /// as the weight on both endpoints' neighbor mappings, overwriting any
    /// prior weight between the pair. A silent no-op when either id is
    /// absent.
    pub fn add_edge(&mut self, id: &str, other_id: &str)
        requires
            old(self).wf(),
        ensures
            final(self).wf(),
            !(old(self).contains_id(id@) && old(self).contains_id(other_id@)) ==> *final(self)
                == *old(self),
            old(self).contains_id(id@) && old(self).contains_id(other_id@) ==> {
                let w = final(self).node_of(id@).edge_lookup(other_id@);
                &&& w is Some
                &&& is_sqrt_floor(
                    dist_sq(old(self).node_of(id@).point, old(self).node_of(other_id@).point),
                    w->Some_0 as int,
                )
                &&& final(self).node_of(other_id@).edge_lookup(id@) == w
                &&& graph_unchanged_but_edges(*old(self), *final(self))
                &&& forall|k: Seq<char>, e: Seq<char>|
                    !(k == id@ && e == other_id@) && !(k == other_id@ && e == id@) && old(self).contains_id(k) ==> final(self).node_of(k).edge_lookup(e) == old(self).node_of(k).edge_lookup(e)
            },
    {
        let ghost pre = *self;
        let i_opt = self.find(id);
        let j_opt = self.find(other_id);
        let (i, j) = match (i_opt, j_opt) {
            (Some(i), Some(j)) => (i, j),
            _ => {
                return ;
            },
        };
        proof {
            lemma_id_unique_all(*self);
        }
        let d: u64 = self.nodes[i].point.dist(&self.nodes[j].point);
        self.nodes[i].add_edge(other_id, d);
        proof {
            assert forall|e: Seq<char>| self.nodes@[i as int].has_edge(e) implies pre.nodes@[i as int].has_edge(e)
                || pre.contains_id(e) by {
                if e == other_id@ {
                    assert(pre.nodes@[j as int].id@ == other_id@);
                } else {
                    assert(self.nodes@[i as int].edge_lookup(e) == pre.nodes@[i as int].edge_lookup(e));
                }
            }
            lemma_edge_touch(pre, *self, i as int);
        }
        let ghost mid = *self;
        self.nodes[j].add_edge(id, d);
        proof {
            assert forall|e: Seq<char>| self.nodes@[j as int].has_edge(e) implies mid.nodes@[j as int].has_edge(e)
                || mid.contains_id(e) by {
                if e == id@ {
                    assert(pre.nodes@[i as int].id@ == id@);
                    assert(pre.contains_id(id@));
                } else {
                    assert(self.nodes@[j as int].edge_lookup(e) == mid.nodes@[j as int].edge_lookup(e));
                }
            }
            lemma_edge_touch(mid, *self, j as int);
            lemma_edge_pair_final(pre, mid, *self, i as int, j as int, id@, other_id@, d);
        }
    }

    /// Like `add_edge`, but records the weight only on `id`'s side.
    pub fn add_directed_edge(&mut self, id: &str, other_id: &str)
        requires
            old(self).wf(),
        ensures
            final(self).wf(),
            !(old(self).contains_id(id@) && old(self).contains_id(other_id@)) ==> *final(self)
                == *old(self),
            old(self).contains_id(id@) && old(self).contains_id(other_id@) ==> {
                let w = final(self).node_of(id@).edge_lookup(other_id@);
                &&& w is Some
                &&& is_sqrt_floor(
                    dist_sq(old(self).node_of(id@).point, old(self).node_of(other_id@).point),
                    w->Some_0 as int,
                )
                &&& graph_unchanged_but_edges(*old(self), *final(self))
                &&& forall|k: Seq<char>, e: Seq<char>|
                    !(k == id@ && e == other_id@) && old(self).contains_id(k) ==> final(self).node_of(k).edge_lookup(e) == old(self).node_of(k).edge_lookup(e)
            },
    {
        let ghost pre = *self;
        let i_opt = self.find(id);
        let j_opt = self.find(other_id);
        let (i, j) = match (i_opt, j_opt) {
            (Some(i), Some(j)) => (i, j),
            _ => {
                return ;
            },
        };
        proof {
            lemma_id_unique_all(*self);
        }
        let d: u64 = self.nodes[i].point.dist(&self.nodes[j].point);
        self.nodes[i].add_edge(other_id, d);
        proof {
            assert forall|e: Seq<char>| self.nodes@[i as int].has_edge(e) implies pre.nodes@[i as int].has_edge(e)
                || pre.contains_id(e) by {
                if e == other_id@ {
                    assert(pre.nodes@[j as int].id@ == other_id@);
                } else {
                    assert(self.nodes@[i as int].edge_lookup(e) == pre.nodes@[i as int].edge_lookup(e));
                }
            }
            lemma_edge_touch(pre, *self, i as int);
            lemma_edge_one_final(pre, *self, i as int, j as int, id@, other_id@, d);
        }
    }

    /// Removes and returns the weight `id` records for `remove_id`, if
    /// present; only `id`'s side of the pair is touched.
    pub fn remove_edge(&mut self, id: &str, remove_id: &str) -> (r: Option<u64>)
        requires
            old(self).wf(),
        ensures
            final(self).wf(),
            !old(self).contains_id(id@) ==> *final(self) == *old(self) && r is None,
            old(self).contains_id(id@) ==> {
                &&& r == old(self).node_of(id@).edge_lookup(remove_id@)
                &&& !final(self).node_of(id@).has_edge(remove_id@)
                &&& forall|e: Seq<char>|
                    e != remove_id@ ==> final(self).node_of(id@).edge_lookup(e) == old(self).node_of(id@).edge_lookup(e)
                &&& graph_unchanged_but_edges(*old(self), *final(self))
                &&& forall|k: Seq<char>, e: Seq<char>|
                    k != id@ && old(self).contains_id(k) ==> final(self).node_of(k).edge_lookup(e)
                        == old(self).node_of(k).edge_lookup(e)
            },
    {
        let ghost pre = *self;
        let i = match self.find(id) {
            Some(i) => i,
            None => {
                return None;
            },
        };
        proof {
            lemma_id_unique_all(*self);
        }
        let r = self.nodes[i].remove_edge(remove_id);
        proof {
            assert forall|e: Seq<char>| self.nodes@[i as int].has_edge(e) implies pre.nodes@[i as int].has_edge(e)
                || pre.contains_id(e) by {
                if e != remove_id@ {
                    assert(self.nodes@[i as int].edge_lookup(e) == pre.nodes@[i as int].edge_lookup(e));
                }
            }
            lemma_edge_touch(pre, *self, i as int);
            lemma_remove_edge_final(pre, *self, i as int, id@, remove_id@);
        }
        r
    }
}

/// Node count, presence, indices, ids and points agree between two graph
/// values; only edge contents may differ.
pub open spec fn graph_unchanged_but_edges(pre: Graph, post: Graph) -> bool {
    &&& post.nodes@.len() == pre.nodes@.len()
    &&& forall|j: int|
        0 <= j < pre.nodes@.len() ==> (#[trigger] post.nodes@[j]).id@ == pre.nodes@[j].id@ && (
        #[trigger] post.nodes@[j]).point == pre.nodes@[j].point
}

/// Ids in a well-formed graph pick out a single index.
pub proof fn lemma_id_unique(g: Graph, i: int, j: int)
    requires
        g.wf(),
        0 <= i < g.nodes@.len(),
        0 <= j < g.nodes@.len(),
        g.nodes@[i].id@ == g.nodes@[j].id@,
    ensures
        i == j,
{
}

/// In a well-formed graph, `idx_of` agrees with any index whose node
/// carries the id.
pub proof fn lemma_id_unique_all(g: Graph)
    requires
        g.wf(),
    ensures
        forall|i: int|
            0 <= i < g.nodes@.len() ==> g.contains_id((#[trigger] g.nodes@[i]).id@) && g.idx_of(
                g.nodes@[i].id@,
            ) == i,
{
    assert forall|i: int| 0 <= i < g.nodes@.len() implies g.contains_id(
        (#[trigger] g.nodes@[i]).id@,
    ) && g.idx_of(g.nodes@[i].id@) == i by {
        assert(g.contains_id(g.nodes@[i].id@));
        lemma_id_unique(g, i, g.idx_of(g.nodes@[i].id@));
    }
}

/// Replacing the node at a matching index with a fresh, edgeless node.
proof fn lemma_node_replace(pre: Graph, post: Graph, i: int, id: Seq<char>)
    requires
        pre.wf(),
        0 <= i < pre.nodes@.len(),
        pre.nodes@[i].id@ == id,
        post.nodes@ == pre.nodes@.update(i, post.nodes@[i]),
        post.nodes@[i].wf(),
        post.nodes@[i].id@ == id,
        post.nodes@[i].edges@.len() == 0,
    ensures
        post.wf(),
        post.contains_id(id),
        post.node_of(id) == post.nodes@[i],
        forall|k: Seq<char>| k != id ==> post.contains_id(k) == pre.contains_id(k),
        forall|k: Seq<char>|
            k != id && pre.contains_id(k) ==> post.node_of(k) == pre.node_of(k),
        post.nodes@.len() == pre.nodes@.len(),
{
    assert(forall|a: int| 0 <= a < post.nodes@.len() && a != i ==> post.nodes@[a] == pre.nodes@[a]);
    assert(post.wf()) by {
        assert forall|a: int, b: int|
            0 <= a < post.nodes@.len() && 0 <= b < (#[trigger] post.nodes@[a]).edges@.len() implies
            post.contains_id((#[trigger] post.nodes@[a].edges@[b]).0@) by {
            assert(a != i);
            assert(pre.contains_id(pre.nodes@[a].edges@[b].0@));
            let w = pre.idx_of(pre.nodes@[a].edges@[b].0@);
            assert(post.nodes@[w].id@ == pre.nodes@[w].id@);
        }
    }
    lemma_id_unique_all(post);
    lemma_id_unique_all(pre);
    assert forall|k: Seq<char>| k != id implies post.contains_id(k) == pre.contains_id(k) by {
        if pre.contains_id(k) {
            let a = pre.idx_of(k);
            assert(post.nodes@[a].id@ == k);
        }
        if post.contains_id(k) {
            let a = post.idx_of(k);
            assert(pre.nodes@[a].id@ == k);
        }
    }
}

/// Appending a fresh, edgeless node with a new id.
proof fn lemma_node_append(pre: Graph, post: Graph, id: Seq<char>)
    requires
        pre.wf(),
        !pre.contains_id(id),
        post.nodes@ == pre.nodes@.push(post.nodes@[pre.nodes@.len() as int]),
        post.nodes@[pre.nodes@.len() as int].wf(),
        post.nodes@[pre.nodes@.len() as int].id@ == id,
        post.nodes@[pre.nodes@.len() as int].edges@.len() == 0,
    ensures
        post.wf(),
        post.contains_id(id),
        post.node_of(id) == post.nodes@[pre.nodes@.len() as int],
        forall|k: Seq<char>| k != id ==> post.contains_id(k) == pre.contains_id(k),
        forall|k: Seq<char>|
            k != id && pre.contains_id(k) ==> post.node_of(k) == pre.node_of(k),
        post.nodes@.len() == pre.nodes@.len() + 1,
{
    let n = pre.nodes@.len() as int;
    assert(forall|a: int| 0 <= a < n ==> post.nodes@[a] == pre.nodes@[a]);
    assert(post.wf()) by {
        assert forall|a: int, b: int|
            0 <= a < post.nodes@.len() && 0 <= b < (#[trigger] post.nodes@[a]).edges@.len() implies
            post.contains_id((#[trigger] post.nodes@[a].edges@[b]).0@) by {
            assert(a != n);
            assert(pre.contains_id(pre.nodes@[a].edges@[b].0@));
            let w = pre.idx_of(pre.nodes@[a].edges@[b].0@);
            assert(post.nodes@[w].id@ == pre.nodes@[w].id@);
        }
    }
    lemma_id_unique_all(post);
    lemma_id_unique_all(pre);
    assert forall|k: Seq<char>| k != id implies post.contains_id(k) == pre.contains_id(k) by {
        if pre.contains_id(k) {
            let a = pre.idx_of(k);
            assert(post.nodes@[a].id@ == k);
        }
        if post.contains_id(k) {
            let a = post.idx_of(k);
            assert(a != n);
            assert(pre.nodes@[a].id@ == k);
        }
    }
}

/// After the cascade loop every node is unchanged except that its edge to
/// `id` is gone; removing the node itself then leaves a well-formed graph.
proof fn lemma_node_remove(pre: Graph, mid: Graph, post: Graph, i: int, id: Seq<char>, removed: Node)
    requires
        pre.wf(),
        cascade_shape(pre, mid, id),
        0 <= i < mid.nodes@.len(),
        mid.nodes@[i].id@ == id,
        removed == mid.nodes@[i],
        post.nodes@ == mid.nodes@.remove(i),
    ensures
        post.wf(),
        !post.contains_id(id),
        forall|k: Seq<char>| k != id ==> post.contains_id(k) == pre.contains_id(k),
        forall|k: Seq<char>|
            k != id && pre.contains_id(k) ==> {
                let n = post.node_of(k);
                let m = pre.node_of(k);
                n.id@ == m.id@ && n.point == m.point && !n.has_edge(id) && forall|e: Seq<char>|
                    e != id ==> n.edge_lookup(e) == m.edge_lookup(e)
            },
        pre.contains_id(id),
        removed.id@ == id,
        removed.point == pre.node_of(id).point,
        !removed.has_edge(id),
        forall|e: Seq<char>| e != id ==> removed.edge_lookup(e) == pre.node_of(id).edge_lookup(e),
        post.nodes@.len() == pre.nodes@.len() - 1,
{
    lemma_id_unique_all(pre);
    assert(forall|a: int| 0 <= a < i ==> post.nodes@[a] == mid.nodes@[a]);
    assert(forall|a: int| i <= a < post.nodes@.len() ==> post.nodes@[a] == mid.nodes@[a + 1]);
    assert(pre.contains_id(id)) by {
        assert(pre.nodes@[i].id@ == id);
    }
    assert(pre.idx_of(id) == i);
    assert(post.wf()) by {
        assert forall|a: int, b: int|
            0 <= a < post.nodes@.len() && 0 <= b < (#[trigger] post.nodes@[a]).edges@.len() implies
            post.contains_id((#[trigger] post.nodes@[a].edges@[b]).0@) by {
            let ap = if a < i {
                a
            } else {
                a + 1
            };
            assert(post.nodes@[a] == mid.nodes@[ap]);
            let key = post.nodes@[a].edges@[b].0@;
            assert(mid.nodes@[ap].edge_lookup(key) is Some) by {
                crate::node::lemma_sorted_key_unique(
                    mid.nodes@[ap].edges@,
                    b,
                    mid.nodes@[ap].edge_idx(key),
                );
            }
            assert(key != id);
            assert(pre.nodes@[ap].edge_lookup(key) is Some);
            let c = pre.nodes@[ap].edge_idx(key);
            assert(pre.contains_id(key));
            let w = pre.idx_of(key);
            assert(w != i);
            let wp = if w < i {
                w
            } else {
                w - 1
            };
            assert(post.nodes@[wp].id@ == key);
        }
    }
    assert(!post.contains_id(id)) by {
        if post.contains_id(id) {
            let a = post.idx_of(id);
            let ap = if a < i {
                a
            } else {
                a + 1
            };
            assert(pre.nodes@[ap].id@ == id);
        }
    }
    lemma_id_unique_all(post);
    assert forall|k: Seq<char>| k != id implies post.contains_id(k) == pre.contains_id(k) by {
        if pre.contains_id(k) {
            let a = pre.idx_of(k);
            assert(a != i);
            let ap = if a < i {
                a
            } else {
                a - 1
            };
            assert(post.nodes@[ap].id@ == k);
        }
        if post.contains_id(k) {
            let a = post.idx_of(k);
            let ap = if a < i {
                a
            } else {
                a + 1
            };
            assert(pre.nodes@[ap].id@ == k);
        }
    }
}

/// The shape the cascade loop leaves: same ids and points, the `id` edge
/// gone everywhere, all other edges kept.
pub open spec fn cascade_shape(pre: Graph, mid: Graph, id: Seq<char>) -> bool {
    &&& mid.nodes@.len() == pre.nodes@.len()
    &&& forall|j: int|
        0 <= j < mid.nodes@.len() ==> {
            let n = #[trigger] mid.nodes@[j];
            let m = pre.nodes@[j];
            n.wf() && n.id@ == m.id@ && n.point == m.point && !n.has_edge(id)
        }
    &&& forall|j: int, e: Seq<char>|
        0 <= j < mid.nodes@.len() && e != id ==> #[trigger] mid.nodes@[j].edge_lookup(e)
            == pre.nodes@[j].edge_lookup(e)
}

/// The cascade ran but the id itself was absent: presence and per-id
/// lookups relate as `remove_node` promises.
proof fn lemma_node_cascade_only(pre: Graph, mid: Graph, id: Seq<char>)
    requires
        pre.wf(),
        cascade_shape(pre, mid, id),
        !mid.contains_id(id),
    ensures
        mid.wf(),
        !pre.contains_id(id),
        forall|k: Seq<char>| k != id ==> mid.contains_id(k) == pre.contains_id(k),
        forall|k: Seq<char>|
            k != id && pre.contains_id(k) ==> {
                let n = mid.node_of(k);
                let m = pre.node_of(k);
                n.id@ == m.id@ && n.point == m.point && !n.has_edge(id) && forall|e: Seq<char>|
                    e != id ==> n.edge_lookup(e) == m.edge_lookup(e)
            },
{
    lemma_id_unique_all(pre);
    assert(!pre.contains_id(id)) by {
        if pre.contains_id(id) {
            let a = pre.idx_of(id);
            assert(mid.nodes@[a].id@ == id);
        }
    }
    assert(mid.wf()) by {
        assert forall|a: int, b: int|
            0 <= a < mid.nodes@.len() && 0 <= b < (#[trigger] mid.nodes@[a]).edges@.len() implies
            mid.contains_id((#[trigger] mid.nodes@[a].edges@[b]).0@) by {
            let key = mid.nodes@[a].edges@[b].0@;
            assert(mid.nodes@[a].edge_lookup(key) is Some) by {
                crate::node::lemma_sorted_key_unique(
                    mid.nodes@[a].edges@,
                    b,
                    mid.nodes@[a].edge_idx(key),
                );
            }
            assert(key != id);
            assert(pre.nodes@[a].edge_lookup(key) is Some);
            let c = pre.nodes@[a].edge_idx(key);
            assert(pre.contains_id(key));
            let w = pre.idx_of(key);
            assert(mid.nodes@[w].id@ == key);
        }
    }
    lemma_id_unique_all(mid);
    assert forall|k: Seq<char>| k != id implies mid.contains_id(k) == pre.contains_id(k) by {
        if pre.contains_id(k) {
            let a = pre.idx_of(k);
            assert(mid.nodes@[a].id@ == k);
        }
        if mid.contains_id(k) {
            let a = mid.idx_of(k);
            assert(pre.nodes@[a].id@ == k);
        }
    }
}

/// Updating one node in place, without touching its id or point, keeps
/// the graph well formed and every other node untouched.
proof fn lemma_edge_touch(pre: Graph, post: Graph, i: int)
    requires
        pre.wf(),
        0 <= i < pre.nodes@.len(),
        post.nodes@ == pre.nodes@.update(i, post.nodes@[i]),
        post.nodes@[i].wf(),
        post.nodes@[i].id@ == pre.nodes@[i].id@,
        post.nodes@[i].point == pre.nodes@[i].point,
        forall|e: Seq<char>|
            post.nodes@[i].has_edge(e) ==> pre.nodes@[i].has_edge(e) || pre.contains_id(e),
    ensures
        post.wf(),
        graph_unchanged_but_edges(pre, post),
        forall|k: Seq<char>| post.contains_id(k) == pre.contains_id(k),
        forall|k: Seq<char>| pre.contains_id(k) ==> post.idx_of(k) == pre.idx_of(k),
        forall|a: int| 0 <= a < post.nodes@.len() && a != i ==> post.nodes@[a] == pre.nodes@[a],
{
    assert(forall|a: int| 0 <= a < post.nodes@.len() && a != i ==> post.nodes@[a] == pre.nodes@[a]);
    assert(forall|a: int|
        0 <= a < post.nodes@.len() ==> (#[trigger] post.nodes@[a]).id@ == pre.nodes@[a].id@);
    assert(post.wf()) by {
        assert forall|a: int, b: int|
            0 <= a < post.nodes@.len() && 0 <= b < (#[trigger] post.nodes@[a]).edges@.len() implies
            post.contains_id((#[trigger] post.nodes@[a].edges@[b]).0@) by {
            let key = post.nodes@[a].edges@[b].0@;
            if a == i {
                assert(post.nodes@[i].has_edge(key));
                if pre.nodes@[i].has_edge(key) {
                    let b2 = pre.nodes@[i].edge_idx(key);
                    assert(pre.nodes@[i].edges@[b2].0@ == key);
                    assert(pre.contains_id(key));
                }
                assert(pre.contains_id(key));
            } else {
                assert(post.nodes@[a] == pre.nodes@[a]);
                assert(pre.nodes@[a].edges@[b].0@ == key);
                assert(pre.contains_id(key));
            }
            let w = pre.idx_of(key);
            assert(0 <= w < pre.nodes@.len() && pre.nodes@[w].id@ == key);
            assert(post.nodes@[w].id@ == key);
        }
    }
    lemma_id_unique_all(pre);
    lemma_id_unique_all(post);
    assert forall|k: Seq<char>| post.contains_id(k) == pre.contains_id(k) by {
        if pre.contains_id(k) {
            assert(post.nodes@[pre.idx_of(k)].id@ == k);
        }
        if post.contains_id(k) {
            assert(pre.nodes@[post.idx_of(k)].id@ == k);
        }
    }
}

/// The two `add_edge` touches together give the symmetric-edge shape.
proof fn lemma_edge_pair_final(
    pre: Graph,
    mid: Graph,
    post: Graph,
    i: int,
    j: int,
    id: Seq<char>,
    other: Seq<char>,
    d: u64,
)
    requires
        pre.wf(),
        mid.wf(),
        post.wf(),
        0 <= i < pre.nodes@.len(),
        0 <= j < pre.nodes@.len(),
        pre.nodes@[i].id@ == id,
        pre.nodes@[j].id@ == other,
        pre.idx_of(id) == i,
        pre.idx_of(other) == j,
        graph_unchanged_but_edges(pre, mid),
        graph_unchanged_but_edges(mid, post),
        forall|k: Seq<char>| mid.contains_id(k) == pre.contains_id(k),
        forall|k: Seq<char>| post.contains_id(k) == mid.contains_id(k),
        forall|k: Seq<char>| pre.contains_id(k) ==> mid.idx_of(k) == pre.idx_of(k),
        forall|k: Seq<char>| mid.contains_id(k) ==> post.idx_of(k) == mid.idx_of(k),
        forall|a: int| 0 <= a < mid.nodes@.len() && a != i ==> mid.nodes@[a] == pre.nodes@[a],
        forall|a: int| 0 <= a < post.nodes@.len() && a != j ==> post.nodes@[a] == mid.nodes@[a],
        mid.nodes@[i].edge_lookup(other) == Some(d),
        forall|e: Seq<char>|
            e != other ==> mid.nodes@[i].edge_lookup(e) == pre.nodes@[i].edge_lookup(e),
        post.nodes@[j].edge_lookup(id) == Some(d),
        forall|e: Seq<char>|
            e != id ==> post.nodes@[j].edge_lookup(e) == mid.nodes@[j].edge_lookup(e),
    ensures
        post.node_of(id).edge_lookup(other) == Some(d),
        post.node_of(other).edge_lookup(id) == Some(d),
        graph_unchanged_but_edges(pre, post),
        forall|k: Seq<char>, e: Seq<char>|
            !(k == id && e == other) && !(k == other && e == id) && pre.contains_id(k)
                ==> post.node_of(k).edge_lookup(e) == pre.node_of(k).edge_lookup(e),
{
    assert(post.idx_of(id) == i && post.idx_of(other) == j);
    if i == j {
        assert(id == other);
        assert(post.node_of(id).edge_lookup(other) == Some(d));
    } else {
        assert(post.nodes@[i] == mid.nodes@[i]);
        assert(post.node_of(id).edge_lookup(other) == Some(d));
        assert(post.node_of(other).edge_lookup(id) == Some(d));
    }
    assert forall|k: Seq<char>, e: Seq<char>|
        !(k == id && e == other) && !(k == other && e == id) && pre.contains_id(k) implies post
        .node_of(k).edge_lookup(e) == pre.node_of(k).edge_lookup(e) by {
        let a = pre.idx_of(k);
        if a != i && a != j {
            assert(post.nodes@[a] == pre.nodes@[a]);
        } else if a == i && a != j {
            assert(k == id && e != other);
            assert(post.nodes@[i] == mid.nodes@[i]);
        } else if a == j && a != i {
            assert(k == other && e != id);
            assert(mid.nodes@[j] == pre.nodes@[j]);
        } else {
            assert(k == id && k == other);
            assert(e != id && e != other);
        }
    }
}

/// The single `add_directed_edge` touch, related back to the prior graph.
proof fn lemma_edge_one_final(
    pre: Graph,
    post: Graph,
    i: int,
    j: int,
    id: Seq<char>,
    other: Seq<char>,
    d: u64,
)
    requires
        pre.wf(),
        post.wf(),
        0 <= i < pre.nodes@.len(),
        0 <= j < pre.nodes@.len(),
        pre.nodes@[i].id@ == id,
        pre.nodes@[j].id@ == other,
        pre.idx_of(id) == i,
        pre.idx_of(other) == j,
        graph_unchanged_but_edges(pre, post),
        forall|k: Seq<char>| post.contains_id(k) == pre.contains_id(k),
        forall|k: Seq<char>| pre.contains_id(k) ==> post.idx_of(k) == pre.idx_of(k),
        forall|a: int| 0 <= a < post.nodes@.len() && a != i ==> post.nodes@[a] == pre.nodes@[a],
        post.nodes@[i].edge_lookup(other) == Some(d),
        forall|e: Seq<char>|
            e != other ==> post.nodes@[i].edge_lookup(e) == pre.nodes@[i].edge_lookup(e),
    ensures
        post.node_of(id).edge_lookup(other) == Some(d),
        forall|k: Seq<char>, e: Seq<char>|
            !(k == id && e == other) && pre.contains_id(k) ==> post.node_of(k).edge_lookup(e)
                == pre.node_of(k).edge_lookup(e),
{
    assert forall|k: Seq<char>, e: Seq<char>|
        !(k == id && e == other) && pre.contains_id(k) implies post.node_of(k).edge_lookup(e)
        == pre.node_of(k).edge_lookup(e) by {
        let a = pre.idx_of(k);
        if a != i {
            assert(post.nodes@[a] == pre.nodes@[a]);
        } else {
            assert(k == id && e != other);
        }
    }
}

/// The single `remove_edge` touch, related back to the prior graph.
proof fn lemma_remove_edge_final(pre: Graph, post: Graph, i: int, id: Seq<char>, key: Seq<char>)
    requires
        pre.wf(),
        post.wf(),
        0 <= i < pre.nodes@.len(),
        pre.nodes@[i].id@ == id,
        pre.idx_of(id) == i,
        graph_unchanged_but_edges(pre, post),
        forall|k: Seq<char>| post.contains_id(k) == pre.contains_id(k),
        forall|k: Seq<char>| pre.contains_id(k) ==> post.idx_of(k) == pre.idx_of(k),
        forall|a: int| 0 <= a < post.nodes@.len() && a != i ==> post.nodes@[a] == pre.nodes@[a],
        !post.nodes@[i].has_edge(key),
        forall|e: Seq<char>|
            e != key ==> post.nodes@[i].edge_lookup(e) == pre.nodes@[i].edge_lookup(e),
    ensures
        !post.node_of(id).has_edge(key),
        forall|e: Seq<char>|
            e != key ==> post.node_of(id).edge_lookup(e) == pre.node_of(id).edge_lookup(e),
        forall|k: Seq<char>, e: Seq<char>|
            k != id && pre.contains_id(k) ==> post.node_of(k).edge_lookup(e) == pre.node_of(
                k,
            ).edge_lookup(e),
{
    assert forall|k: Seq<char>, e: Seq<char>| k != id && pre.contains_id(k) implies post.node_of(
        k,
    ).edge_lookup(e) == pre.node_of(k).edge_lookup(e) by {
        let a = pre.idx_of(k);
        assert(a != i);
        assert(post.nodes@[a] == pre.nodes@[a]);
    }
}

/// Removing an edge in both directions, after any insertion of it,
/// leaves both endpoints' neighbor mappings without any reference to the
/// other. The hypotheses are exactly what `remove_edge(a, b)` and then
/// `remove_edge(b, a)` ensure about the graphs they leave behind.
pub proof fn lemma_edge_removed_both_ways(
    g2: Graph,
    g3: Graph,
    a: Seq<char>,
    b: Seq<char>,
)
    requires
        g2.contains_id(a),
        !g2.node_of(a).has_edge(b),
        g3.contains_id(a),
        g3.contains_id(b),
        !g3.node_of(b).has_edge(a),
        forall|k: Seq<char>, e: Seq<char>|
            k != b && g2.contains_id(k) ==> g3.node_of(k).edge_lookup(e) == g2.node_of(
                k,
            ).edge_lookup(e),
    ensures
        !g3.node_of(a).has_edge(b),
        !g3.node_of(b).has_edge(a),
{
    if a == b {
    } else {
        assert(g3.node_of(a).edge_lookup(b) == g2.node_of(a).edge_lookup(b));
        assert(g2.node_of(a).edge_lookup(b) is None);
        assert(!g3.node_of(a).has_edge(b));
    }
}

/// A route through the graph: at least one node, every node present,
/// every hop a recorded edge.
pub open spec fn wf_path(g: Graph, p: Seq<Seq<char>>) -> bool {
    &&& p.len() >= 1
    &&& forall|i: int| 0 <= i < p.len() ==> g.contains_id(#[trigger] p[i])
    &&& forall|i: int|
        0 <= i < p.len() - 1 ==> g.node_of(#[trigger] p[i]).edge_lookup(p[i + 1]) is Some
}

/// Total weight of a route: the saturating sum of its hop weights.
pub open spec fn path_weight(g: Graph, p: Seq<Seq<char>>) -> u64
    decreases p.len(),
{
    if p.len() <= 1 {
        0
    } else {
        path_weight(g, p.drop_last()).saturating_add(
            g.node_of(p[p.len() - 2]).edge_lookup(p[p.len() - 1])->Some_0,
        )
    }
}

/// A route's prefix weighs no more than the whole route.
pub proof fn lemma_path_weight_prefix(g: Graph, p: Seq<Seq<char>>, j: int)
    requires
        1 <= j <= p.len(),
    ensures
        path_weight(g, p.take(j)) <= path_weight(g, p),
    decreases p.len() - j,
{
    if j == p.len() {
        assert(p.take(j) =~= p);
    } else {
        assert(p.take(j + 1).drop_last() =~= p.take(j));
        assert(p.take(j + 1)[j] == p[j] && p.take(j + 1)[j - 1] == p[j - 1]);
        assert(path_weight(g, p.take(j + 1)) == path_weight(g, p.take(j)).saturating_add(
            g.node_of(p[j - 1]).edge_lookup(p[j])->Some_0,
        ));
        lemma_path_weight_prefix(g, p, j + 1);
    }
}

/// Dropping the last node of a route leaves a route.
pub proof fn lemma_wf_path_drop_last(g: Graph, p: Seq<Seq<char>>)
    requires
        wf_path(g, p),
        p.len() >= 2,
    ensures
        wf_path(g, p.drop_last()),
        path_weight(g, p) == path_weight(g, p.drop_last()).saturating_add(
            g.node_of(p[p.len() - 2]).edge_lookup(p[p.len() - 1])->Some_0,
        ),
{
    let q = p.drop_last();
    assert(forall|i: int| 0 <= i < q.len() ==> #[trigger] q[i] == p[i]);
}

} // verus!
