//! A named graph vertex: an id, a coordinate, and an ordered mapping from
//! neighbor id to edge weight.

use vstd::prelude::*;
use crate::ids::{id_cmp, lex_lt, lemma_lex_lt_irrefl, lemma_lex_lt_trans};
use crate::point::Point;

verus! {

/// The neighbor ids of an edge list, in storage order.
pub open spec fn edge_keys(s: Seq<(String, u64)>) -> Seq<Seq<char>> {
    s.map_values(|e: (String, u64)| e.0@)
}

/// The edge list is strictly sorted by neighbor id, so each key occurs
/// once and iteration order is deterministic.
pub open spec fn edges_sorted(s: Seq<(String, u64)>) -> bool {
    forall|i: int, j: int|
        0 <= i < j < s.len() ==> lex_lt(#[trigger] s[i].0@, #[trigger] s[j].0@)
}

/// In a sorted edge list a key picks out at most one entry.
pub proof fn lemma_sorted_key_unique(s: Seq<(String, u64)>, i: int, j: int)
    requires
        edges_sorted(s),
        0 <= i < s.len(),
        0 <= j < s.len(),
        s[i].0@ == s[j].0@,
    ensures
        i == j,
{
    if i < j {
        lemma_lex_lt_irrefl(s[i].0@);
    }
    if j < i {
        lemma_lex_lt_irrefl(s[i].0@);
    }
}

/// A vertex of the graph. The id is non-empty; the empty string is
/// reserved as the "no predecessor" sentinel of the searches.
#[derive(Debug)]
pub struct Node {
    pub id: String,
    pub point: Point,
    pub edges: Vec<(String, u64)>,
}

impl Node {
    pub open spec fn wf(&self) -> bool {
        &&& self.id@.len() > 0
        &&& edges_sorted(self.edges@)
    }

    /// Whether this node has an edge to `id`.
    pub open spec fn has_edge(&self, id: Seq<char>) -> bool {
        exists|i: int| 0 <= i < self.edges@.len() && (#[trigger] self.edges@[i]).0@ == id
    }

    /// The index of the edge to `id`, when there is one.
    pub open spec fn edge_idx(&self, id: Seq<char>) -> int {
        choose|i: int| 0 <= i < self.edges@.len() && (#[trigger] self.edges@[i]).0@ == id
    }

    /// The weight this node records for its edge to `id`, when present.
    pub open spec fn edge_lookup(&self, id: Seq<char>) -> Option<u64> {
        if self.has_edge(id) {
            Some(self.edges@[self.edge_idx(id)].1)
        } else {
            None
        }
    }

    pub fn new(id: &str, point: Point) -> (n: Node)
        requires
            id@.len() > 0,
        ensures
            n.wf(),
            n.id@ == id@,
            n.point == point,
            n.edges@.len() == 0,
    {
        Node { id: id.to_owned(), point, edges: Vec::new() }
    }

    pub fn id(&self) -> (r: &str)
        ensures
            r@ == self.id@,
    {
        self.id.as_str()
    }

    pub fn point(&self) -> (p: &Point)
        ensures
            *p == self.point,
    {
        &self.point
    }

    pub fn edges(&self) -> (r: &Vec<(String, u64)>)
        ensures
            r@ == self.edges@,
    {
        &self.edges
    }

    /// Records `dist` as the weight of the edge to `other`, overwriting a
    /// prior weight; the sorted order of the mapping is kept.
    #[verifier::loop_isolation(false)]
    pub fn add_edge(&mut self, other: &str, dist: u64)
        requires
            old(self).wf(),
        ensures
            final(self).wf(),
            final(self).id@ == old(self).id@,
            final(self).point == old(self).point,
            final(self).edge_lookup(other@) == Some(dist),
            forall|k: Seq<char>|
                k != other@ ==> final(self).edge_lookup(k) == old(self).edge_lookup(k),
            final(self).edges@.len() == old(self).edges@.len() + (
            if old(self).has_edge(other@) {
                0int
            } else {
                1int
            }),
    {
        let ghost orig = *self;
        let mut i: usize = 0;
        while i < self.edges.len()
            invariant
                *self == orig,
                orig.wf(),
                0 <= i <= self.edges@.len(),
                forall|j: int| 0 <= j < i ==> lex_lt((#[trigger] self.edges@[j]).0@, other@),
            decreases self.edges@.len() - i,
        {
            let c: i8 = id_cmp(self.edges[i].0.as_str(), other);
            if c == 0 {
                let entry: (String, u64) = (other.to_owned(), dist);
                self.edges[i] = entry;
                proof {
                    lemma_edge_update_keeps(orig, *self, i as int, other@, dist);
                }
                return ;
            }
            if c == 1 {
                let entry: (String, u64) = (other.to_owned(), dist);
                self.edges.insert(i, entry);
                proof {
                    lemma_edge_insert_keeps(orig, *self, i as int, other@, dist);
                }
                return ;
            }
            i = i + 1;
        }
        let entry: (String, u64) = (other.to_owned(), dist);
        self.edges.insert(i, entry);
        proof {
            lemma_edge_insert_keeps(orig, *self, i as int, other@, dist);
        }
    }

    /// Removes the edge to `id`, returning its weight if it was present.
    #[verifier::loop_isolation(false)]
    pub fn remove_edge(&mut self, id: &str) -> (r: Option<u64>)
        requires
            old(self).wf(),
        ensures
            final(self).wf(),
            final(self).id@ == old(self).id@,
            final(self).point == old(self).point,
            r == old(self).edge_lookup(id@),
            !final(self).has_edge(id@),
            forall|k: Seq<char>|
                k != id@ ==> final(self).edge_lookup(k) == old(self).edge_lookup(k),
            final(self).edges@.len() == old(self).edges@.len() - (
            if old(self).has_edge(id@) {
                1int
            } else {
                0int
            }),
    {
        let ghost orig = *self;
        let mut i: usize = 0;
        while i < self.edges.len()
            invariant
                *self == orig,
                orig.wf(),
                0 <= i <= self.edges@.len(),
                forall|j: int| 0 <= j < i ==> (#[trigger] self.edges@[j]).0@ != id@,
            decreases self.edges@.len() - i,
        {
            let c: i8 = id_cmp(self.edges[i].0.as_str(), id);
            if c == 0 {
                let w: u64 = self.edges[i].1;
                self.edges.remove(i);
                proof {
                    lemma_edge_remove_keeps(orig, *self, i as int, id@);
                    assert(orig.edge_lookup(id@) == Some(w)) by {
                        lemma_sorted_key_unique(orig.edges@, i as int, orig.edge_idx(id@));
                    }
                }
                return Some(w);
            }
            i = i + 1;
        }
        proof {
            assert(!orig.has_edge(id@));
        }
        None
    }
}

/// Replacing the entry at a matching index keeps sortedness and changes
/// only that key's weight.
proof fn lemma_edge_update_keeps(pre: Node, post: Node, i: int, key: Seq<char>, dist: u64)
    requires
        pre.wf(),
        0 <= i < pre.edges@.len(),
        pre.edges@[i].0@ == key,
        post.id == pre.id,
        post.point == pre.point,
        post.edges@ == pre.edges@.update(i, post.edges@[i]),
        post.edges@[i].0@ == key,
        post.edges@[i].1 == dist,
    ensures
        post.wf(),
        post.edge_lookup(key) == Some(dist),
        forall|k: Seq<char>| k != key ==> post.edge_lookup(k) == pre.edge_lookup(k),
        post.edges@.len() == pre.edges@.len(),
{
    assert(edges_sorted(post.edges@)) by {
        assert(forall|a: int, b: int|
            0 <= a < b < post.edges@.len() ==> lex_lt(
                (#[trigger] post.edges@[a]).0@,
                (#[trigger] post.edges@[b]).0@,
            )) by {
            assert(forall|a: int|
                0 <= a < post.edges@.len() ==> (#[trigger] post.edges@[a]).0@
                    == pre.edges@[a].0@);
        }
    }
    assert(post.has_edge(key));
    lemma_sorted_key_unique(post.edges@, i, post.edge_idx(key));
    assert forall|k: Seq<char>| k != key implies post.edge_lookup(k) == pre.edge_lookup(k) by {
        assert(forall|a: int|
            0 <= a < post.edges@.len() ==> (#[trigger] post.edges@[a]).0@ == pre.edges@[a].0@);
        if post.has_edge(k) {
            let a = post.edge_idx(k);
            assert(pre.edges@[a].0@ == k);
            assert(pre.has_edge(k));
            lemma_sorted_key_unique(pre.edges@, a, pre.edge_idx(k));
            assert(a != i);
        } else {
            if pre.has_edge(k) {
                let a = pre.edge_idx(k);
                assert(post.edges@[a].0@ == k);
            }
        }
    }
}

/// Inserting a new entry at its sorted position keeps sortedness and
/// adds exactly that key.
proof fn lemma_edge_insert_keeps(pre: Node, post: Node, i: int, key: Seq<char>, dist: u64)
    requires
        pre.wf(),
        0 <= i <= pre.edges@.len(),
        forall|j: int| 0 <= j < i ==> lex_lt((#[trigger] pre.edges@[j]).0@, key),
        i < pre.edges@.len() ==> lex_lt(key, pre.edges@[i].0@),
        post.id == pre.id,
        post.point == pre.point,
        post.edges@ == pre.edges@.insert(i, post.edges@[i]),
        post.edges@[i].0@ == key,
        post.edges@[i].1 == dist,
    ensures
        post.wf(),
        post.edge_lookup(key) == Some(dist),
        forall|k: Seq<char>| k != key ==> post.edge_lookup(k) == pre.edge_lookup(k),
        post.edges@.len() == pre.edges@.len() + 1,
        !pre.has_edge(key),
    {
    let pres = pre.edges@;
    let posts = post.edges@;
    assert(forall|a: int| 0 <= a < i ==> posts[a] == pres[a]);
    assert(forall|a: int| i < a < posts.len() ==> posts[a] == pres[a - 1]);
    assert(!pre.has_edge(key)) by {
        if pre.has_edge(key) {
            let a = pre.edge_idx(key);
            if a < i {
                lemma_lex_lt_irrefl(key);
            } else {
                // key < pres[i] <= pres[a] would order key before itself
                if a > i {
                    lemma_lex_lt_trans(key, pres[i].0@, pres[a].0@);
                }
                lemma_lex_lt_irrefl(key);
            }
        }
    }
    assert forall|b: int| i < b < posts.len() implies lex_lt(key, (#[trigger] posts[b]).0@) by {
        assert(posts[b] == pres[b - 1]);
        if b - 1 > i {
            assert(lex_lt(pres[i].0@, pres[b - 1].0@));
            lemma_lex_lt_trans(key, pres[i].0@, pres[b - 1].0@);
        }
    }
    assert forall|a: int| 0 <= a < i implies lex_lt((#[trigger] posts[a]).0@, key) by {
        assert(posts[a] == pres[a]);
    }
    assert(edges_sorted(posts)) by {
        assert forall|a: int, b: int| 0 <= a < b < posts.len() implies lex_lt(
            (#[trigger] posts[a]).0@,
            (#[trigger] posts[b]).0@,
        ) by {
            if b < i {
                assert(posts[a] == pres[a] && posts[b] == pres[b]);
                assert(lex_lt(pres[a].0@, pres[b].0@));
            } else if a > i {
                assert(posts[a] == pres[a - 1] && posts[b] == pres[b - 1]);
                assert(lex_lt(pres[a - 1].0@, pres[b - 1].0@));
            } else if a == i {
                assert(lex_lt(key, posts[b].0@));
            } else if b == i {
                assert(lex_lt(posts[a].0@, key));
            } else {
                assert(lex_lt(posts[a].0@, key) && lex_lt(key, posts[b].0@));
                lemma_lex_lt_trans(posts[a].0@, key, posts[b].0@);
            }
        }
    }
    assert(post.has_edge(key));
    lemma_sorted_key_unique(posts, i, post.edge_idx(key));
    assert forall|k: Seq<char>| k != key implies post.edge_lookup(k) == pre.edge_lookup(k) by {
        if post.has_edge(k) {
            let a = post.edge_idx(k);
            assert(a != i);
            if a < i {
                assert(pres[a].0@ == k);
            } else {
                assert(pres[a - 1].0@ == k);
            }
            assert(pre.has_edge(k));
            let b = pre.edge_idx(k);
            let bp = if b < i {
                b
            } else {
                b + 1
            };
            assert(posts[bp].0@ == k);
            lemma_sorted_key_unique(posts, a, bp);
        } else {
            if pre.has_edge(k) {
                let b = pre.edge_idx(k);
                let bp = if b < i {
                    b
                } else {
                    b + 1
                };
                assert(posts[bp].0@ == k);
            }
        }
    }
}

/// Removing the entry at a matching index keeps sortedness and removes
/// exactly that key.
proof fn lemma_edge_remove_keeps(pre: Node, post: Node, i: int, key: Seq<char>)
    requires
        pre.wf(),
        0 <= i < pre.edges@.len(),
        pre.edges@[i].0@ == key,
        post.id == pre.id,
        post.point == pre.point,
        post.edges@ == pre.edges@.remove(i),
    ensures
        post.wf(),
        !post.has_edge(key),
        forall|k: Seq<char>| k != key ==> post.edge_lookup(k) == pre.edge_lookup(k),
        post.edges@.len() == pre.edges@.len() - 1,
{
    let pres = pre.edges@;
    let posts = post.edges@;
    assert(forall|a: int| 0 <= a < i ==> posts[a] == pres[a]);
    assert(forall|a: int| i <= a < posts.len() ==> posts[a] == pres[a + 1]);
    assert(edges_sorted(posts)) by {
        assert forall|a: int, b: int| 0 <= a < b < posts.len() implies lex_lt(
            (#[trigger] posts[a]).0@,
            (#[trigger] posts[b]).0@,
        ) by {
            let ap = if a < i {
                a
            } else {
                a + 1
            };
            let bp = if b < i {
                b
            } else {
                b + 1
            };
            assert(posts[a] == pres[ap] && posts[b] == pres[bp]);
            assert(lex_lt(pres[ap].0@, pres[bp].0@));
        }
    }
    assert(!post.has_edge(key)) by {
        if post.has_edge(key) {
            let a = post.edge_idx(key);
            let ap = if a < i {
                a
            } else {
                a + 1
            };
            lemma_sorted_key_unique(pres, ap, i);
        }
    }
    assert forall|k: Seq<char>| k != key implies post.edge_lookup(k) == pre.edge_lookup(k) by {
        if post.has_edge(k) {
            let a = post.edge_idx(k);
            let ap = if a < i {
                a
            } else {
                a + 1
            };
            assert(pres[ap].0@ == k);
            assert(pre.has_edge(k));
            lemma_sorted_key_unique(pres, ap, pre.edge_idx(k));
        } else {
            if pre.has_edge(k) {
                let b = pre.edge_idx(k);
                assert(b != i);
                let bp = if b < i {
                    b
                } else {
                    b - 1
                };
                assert(posts[bp].0@ == k);
            }
        }
    }
}

} // verus!
