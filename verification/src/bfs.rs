//! Breadth-first search: a resumable single-step state machine over a
//! borrowed graph, with a FIFO frontier.
//!
//! Each frontier entry is tagged with its predecessor and the cumulative
//! path distance through it, even though traversal order is governed by
//! hop count. The discovered set is updated at enqueue time, so an id is
//! never queued twice.

use vstd::prelude::*;
use crate::graph::{path_weight, wf_path, DoesNotContainError, Graph};
use crate::ids::id_eq;
use crate::node::lemma_sorted_key_unique;
use crate::search::{
    chain_entry_ok, chain_ok, clone_entries, edge_views, ev, id_list_contains, keys_of,
    lemma_contains_concat, lemma_unsettled_strict, lemma_walk_round_trip, pv, qv,
    reconstruct_path, sentinel, simple_path, state_rank, sv, unsettled_count, vcontains, vdist,
    vfind, vfrom, vidx, vunique, walk, State, Status, lemma_vidx_unique,
};

verus! {

/// What one neighbor contributes to the frontier: nothing when it is
/// already discovered, else one entry tagged with the current id and the
/// cumulative distance through it (saturating at the integer limit).
pub open spec fn bfs_expand_one(
    seen: Seq<Seq<char>>,
    cur: Seq<char>,
    base: u64,
    x: (Seq<char>, u64),
) -> Seq<(Seq<char>, Seq<char>, u64)> {
    if seen.contains(x.0) {
        Seq::empty()
    } else {
        seq![(x.0, cur, base.saturating_add(x.1))]
    }
}

/// The entries a `Push` step appends: one `bfs_expand_one` contribution
/// per neighbor, in the neighbor mapping's sorted order.
pub open spec fn bfs_expand(
    edges: Seq<(Seq<char>, u64)>,
    seen: Seq<Seq<char>>,
    cur: Seq<char>,
    base: u64,
) -> Seq<(Seq<char>, Seq<char>, u64)>
    decreases edges.len(),
{
    if edges.len() == 0 {
        Seq::empty()
    } else {
        bfs_expand_one(seen, cur, base, edges[0]) + bfs_expand(edges.skip(1), seen, cur, base)
    }
}

/// Expanding one more neighbor appends its contribution.
pub proof fn lemma_bfs_expand_snoc(
    edges: Seq<(Seq<char>, u64)>,
    seen: Seq<Seq<char>>,
    cur: Seq<char>,
    base: u64,
    x: (Seq<char>, u64),
)
    ensures
        bfs_expand(edges.push(x), seen, cur, base) == bfs_expand(edges, seen, cur, base)
            + bfs_expand_one(seen, cur, base, x),
    decreases edges.len(),
{
    let whole = edges.push(x);
    if edges.len() == 0 {
        assert(whole[0] == x);
        assert(whole.skip(1) =~= Seq::<(Seq<char>, u64)>::empty());
        assert(bfs_expand(whole.skip(1), seen, cur, base) =~= Seq::<
            (Seq<char>, Seq<char>, u64),
        >::empty());
        assert(bfs_expand(whole, seen, cur, base) =~= bfs_expand_one(seen, cur, base, x));
        assert(bfs_expand(edges, seen, cur, base) + bfs_expand_one(seen, cur, base, x)
            =~= bfs_expand_one(seen, cur, base, x));
    } else {
        assert(whole[0] == edges[0]);
        assert(whole.skip(1) =~= edges.skip(1).push(x));
        lemma_bfs_expand_snoc(edges.skip(1), seen, cur, base, x);
        assert(bfs_expand(whole, seen, cur, base) =~= bfs_expand(edges, seen, cur, base)
            + bfs_expand_one(seen, cur, base, x));
    }
}

/// Every expansion entry comes from a not-yet-discovered neighbor, in
/// the stated shape.
pub proof fn lemma_bfs_expand_elems(
    edges: Seq<(Seq<char>, u64)>,
    seen: Seq<Seq<char>>,
    cur: Seq<char>,
    base: u64,
)
    ensures
        forall|j: int|
            0 <= j < bfs_expand(edges, seen, cur, base).len() ==> exists|i: int|
                0 <= i < edges.len() && #[trigger] bfs_expand(edges, seen, cur, base)[j] == (
                (#[trigger] edges[i]).0,
                cur,
                base.saturating_add(edges[i].1),
                ) && !seen.contains(edges[i].0),
    decreases edges.len(),
{
    if edges.len() > 0 {
        lemma_bfs_expand_elems(edges.skip(1), seen, cur, base);
        let head = bfs_expand_one(seen, cur, base, edges[0]);
        let rest = bfs_expand(edges.skip(1), seen, cur, base);
        assert forall|j: int| 0 <= j < bfs_expand(edges, seen, cur, base).len() implies exists|
            i: int,
        |
            0 <= i < edges.len() && #[trigger] bfs_expand(edges, seen, cur, base)[j] == (
            (#[trigger] edges[i]).0,
            cur,
            base.saturating_add(edges[i].1),
            ) && !seen.contains(edges[i].0) by {
            if j < head.len() {
                assert(bfs_expand(edges, seen, cur, base)[j] == head[0]);
                // name the first neighbor so the existential witness fires
                let witness = edges[0];
                assert(witness == edges[0]);
            } else {
                let jr = j - head.len();
                assert(bfs_expand(edges, seen, cur, base)[j] == rest[jr]);
                let i0 = choose|i: int|
                    0 <= i < edges.skip(1).len() && #[trigger] rest[jr] == (
                    (#[trigger] edges.skip(1)[i]).0,
                    cur,
                    base.saturating_add(edges.skip(1)[i].1),
                    ) && !seen.contains(edges.skip(1)[i].0);
                assert(edges.skip(1)[i0] == edges[i0 + 1]);
            }
        }
    }
}

/// A frontier entry is sound: either the seeded start entry, or it names
/// a settled predecessor, a real edge from it, and the cumulative
/// distance through it.
pub open spec fn bfs_qentry_ok(
    g: Graph,
    vis: Seq<(Seq<char>, Seq<char>, u64)>,
    qlen: int,
    start: Seq<char>,
    e: (Seq<char>, Seq<char>, u64),
) -> bool {
    if e.1 == sentinel() {
        e.0 == start && e.2 == 0 && vis.len() == 0 && qlen == 1
    } else {
        &&& vcontains(vis, e.1)
        &&& g.contains_id(e.1)
        &&& g.node_of(e.1).edge_lookup(e.0) is Some
        &&& e.2 == vdist(vis, e.1).saturating_add(g.node_of(e.1).edge_lookup(e.0)->Some_0)
    }
}

/// A visited entry is sound: the start entry sits at index zero with the
/// sentinel; any other entry's predecessor was settled earlier, with a
/// real edge and the cumulative distance through it.
pub open spec fn bfs_ventry_ok(
    g: Graph,
    vis: Seq<(Seq<char>, Seq<char>, u64)>,
    start: Seq<char>,
    i: int,
) -> bool {
    let e = vis[i];
    if e.1 == sentinel() {
        e.0 == start && e.2 == 0 && i == 0
    } else {
        &&& vcontains(vis, e.1)
        &&& vidx(vis, e.1) < i
        &&& g.contains_id(e.1)
        &&& g.node_of(e.1).edge_lookup(e.0) is Some
        &&& e.2 == vdist(vis, e.1).saturating_add(g.node_of(e.1).edge_lookup(e.0)->Some_0)
    }
}

/// Breadth-first search over a borrowed graph. Guarantees the first path
/// found is hop-count-minimal; the reported distance is the cumulative
/// weight along that hop-minimal path.
pub struct BreadthFirstSearch<'a> {
    pub graph: &'a Graph,
    pub start: Ghost<Seq<char>>,
    pub current: String,
    pub dest: String,
    pub discovered: Vec<String>,
    pub queue: Vec<(String, (String, u64))>,
    pub visited: Vec<(String, (String, u64))>,
    pub state: State,
}

impl<'a> BreadthFirstSearch<'a> {
    /// The machine's well-formedness, kept by construction and by every
    /// `next` step.
    pub open spec fn inv(&self) -> bool {
        let g = *self.graph;
        let vis = qv(self.visited@);
        let q = qv(self.queue@);
        let seen = sv(self.discovered@);
        &&& g.wf()
        &&& g.contains_id(self.dest@)
        &&& vunique(vis)
        &&& forall|i: int| 0 <= i < q.len() ==> g.contains_id((#[trigger] q[i]).0)
        &&& forall|i: int, j: int|
            0 <= i < j < q.len() ==> (#[trigger] q[i]).0 != (#[trigger] q[j]).0
        &&& forall|i: int| 0 <= i < q.len() ==> !vcontains(vis, (#[trigger] q[i]).0)
        &&& forall|i: int| 0 <= i < q.len() ==> seen.contains((#[trigger] q[i]).0)
        &&& forall|i: int| 0 <= i < vis.len() ==> g.contains_id((#[trigger] vis[i]).0)
        &&& forall|i: int| 0 <= i < vis.len() ==> seen.contains((#[trigger] vis[i]).0)
        &&& forall|i: int|
            0 <= i < q.len() ==> bfs_qentry_ok(g, vis, q.len() as int, self.start@, #[trigger] q[i])
        &&& forall|i: int| 0 <= i < vis.len() ==> #[trigger] bfs_ventry_ok(g, vis, self.start@, i)
        &&& self.state == State::Push ==> g.contains_id(self.current@) && vcontains(
            vis,
            self.current@,
        )
        &&& vcontains(vis, self.dest@) <==> self.state == State::Done(Status::Found)
        &&& self.state == State::Done(Status::NotFound) ==> q.len() == 0
        &&& !(self.state == State::Done(Status::Searching))
    }

    /// A fresh machine: frontier seeded with the start entry, start
    /// discovered, nothing visited, about to pop.
    pub fn new(graph: &'a Graph, start: &str, dest: &str) -> (s: BreadthFirstSearch<'a>)
        requires
            graph.wf(),
            graph.contains_id(start@),
            graph.contains_id(dest@),
        ensures
            s.inv(),
            s.graph == graph,
            s.start@ == start@,
            s.dest@ == dest@,
            s.current@ == sentinel(),
            qv(s.queue@) == seq![(start@, sentinel(), 0u64)],
            s.visited@.len() == 0,
            sv(s.discovered@) == seq![start@],
            s.state == State::Pop,
    {
        let mut queue: Vec<(String, (String, u64))> = Vec::new();
        queue.push((start.to_owned(), (String::new(), 0u64)));
        let mut discovered: Vec<String> = Vec::new();
        discovered.push(start.to_owned());
        let s = BreadthFirstSearch {
            graph,
            start: Ghost(start@),
            current: String::new(),
            dest: dest.to_owned(),
            discovered,
            queue,
            visited: Vec::new(),
            state: State::Pop,
        };
        proof {
            assert(qv(s.queue@) =~= seq![(start@, sentinel(), 0u64)]);
            assert(sv(s.discovered@) =~= seq![start@]);
            assert(s.current@ =~= sentinel());
            assert(sv(s.discovered@).contains(start@)) by {
                assert(sv(s.discovered@)[0] == start@);
            }
            assert(qv(s.queue@)[0].0 == start@);
        }
        s
    }

    /// The id most recently finalized (the empty sentinel before the
    /// first successful pop).
    pub fn current(&self) -> (r: &str)
        ensures
            r@ == self.current@,
    {
        self.current.as_str()
    }

    /// A snapshot of the frontier, front of the queue first.
    pub fn visible(&self) -> (r: Vec<(String, (String, u64))>)
        ensures
            r@ == self.queue@,
    {
        clone_entries(&self.queue)
    }

    /// A snapshot of the visited mapping, in settlement order.
    pub fn visited(&self) -> (r: Vec<(String, (String, u64))>)
        ensures
            r@ == self.visited@,
    {
        clone_entries(&self.visited)
    }

    pub fn state(&self) -> (r: State)
        ensures
            r == self.state,
    {
        self.state
    }

    /// Advances exactly one micro-step and reports the resulting status;
    /// after a terminal state is reached, further calls change nothing
    /// and keep returning the stored status.
    #[verifier::loop_isolation(false)]
    pub fn next(&mut self) -> (r: Status)
        requires
            old(self).inv(),
        ensures
            final(self).inv(),
            final(self).graph == old(self).graph,
            final(self).start == old(self).start,
            final(self).dest@ == old(self).dest@,
            match old(self).state {
                State::Done(st) => r == st && *final(self) == *old(self),
                State::Pop => {
                    if old(self).queue@.len() == 0 {
                        &&& r == Status::NotFound
                        &&& final(self).state == State::Done(Status::NotFound)
                        &&& final(self).queue@ == old(self).queue@
                        &&& final(self).visited@ == old(self).visited@
                        &&& final(self).discovered@ == old(self).discovered@
                        &&& final(self).current@ == old(self).current@
                    } else {
                        let e = old(self).queue@[0];
                        &&& final(self).queue@ == old(self).queue@.remove(0)
                        &&& final(self).visited@ == old(self).visited@.push(e)
                        &&& final(self).discovered@ == old(self).discovered@
                        &&& if e.0@ == old(self).dest@ {
                            &&& r == Status::Found
                            &&& final(self).state == State::Done(Status::Found)
                            &&& final(self).current@ == old(self).current@
                        } else {
                            &&& r == Status::Searching
                            &&& final(self).state == State::Push
                            &&& final(self).current@ == e.0@
                        }
                    }
                },
                State::Push => {
                    let cur = old(self).current@;
                    let base = vdist(qv(old(self).visited@), cur);
                    let exp = bfs_expand(
                        edge_views(old(self).graph.node_of(cur)),
                        sv(old(self).discovered@),
                        cur,
                        base,
                    );
                    &&& r == Status::Searching
                    &&& final(self).state == State::Pop
                    &&& qv(final(self).queue@) == qv(old(self).queue@) + exp
                    &&& final(self).visited@ == old(self).visited@
                    &&& sv(final(self).discovered@) == sv(old(self).discovered@) + keys_of(exp)
                    &&& final(self).current@ == old(self).current@
                },
            },
    {
        match self.state {
            State::Done(status) => status,
            State::Pop => {
                if self.queue.len() == 0 {
                    self.state = State::Done(Status::NotFound);
                    Status::NotFound
                } else {
                    let ghost pre = *self;
                    let e = self.queue.remove(0);
                    let is_dest = id_eq(e.0.as_str(), self.dest.as_str());
                    proof {
                        lemma_bfs_pop(pre, ev(e));
                    }
                    if is_dest {
                        self.visited.push(e);
                        self.state = State::Done(Status::Found);
                        proof {
                            assert(qv(self.queue@) =~= qv(pre.queue@).skip(1));
                            assert(qv(self.visited@) =~= qv(pre.visited@).push(ev(pre.queue@[0])));
                            assert(vcontains(qv(self.visited@), self.dest@)) by {
                                assert(qv(self.visited@)[qv(pre.visited@).len() as int].0
                                    == self.dest@);
                            }
                        }
                        Status::Found
                    } else {
                        self.current = e.0.clone();
                        self.visited.push(e);
                        self.state = State::Push;
                        proof {
                            assert(qv(self.queue@) =~= qv(pre.queue@).skip(1));
                            assert(qv(self.visited@) =~= qv(pre.visited@).push(ev(pre.queue@[0])));
                            assert(vcontains(qv(self.visited@), self.current@));
                            assert(!vcontains(qv(self.visited@), self.dest@)) by {
                                if vcontains(qv(self.visited@), self.dest@) {
                                    let a = vidx(qv(self.visited@), self.dest@);
                                    if a < qv(pre.visited@).len() {
                                        assert(qv(pre.visited@)[a].0 == self.dest@);
                                    } else {
                                        assert(qv(self.visited@)[a] == ev(pre.queue@[0]));
                                    }
                                }
                            }
                        }
                        Status::Searching
                    }
                }
            },
            State::Push => {
                let ghost pre = *self;
                let g: &Graph = self.graph;
                let ni = match g.find(self.current.as_str()) {
                    Some(ni) => ni,
                    None => {
                        proof {
                            assert(false);
                        }
                        vstd::pervasive::unreached()
                    },
                };
                proof {
                    crate::graph::lemma_id_unique_all(*g);
                    assert(g.idx_of(self.current@) == ni as int);
                    assert(g.node_of(self.current@) == g.nodes@[ni as int]);
                }
                let vi = match vfind(&self.visited, self.current.as_str()) {
                    Some(vi) => vi,
                    None => {
                        proof {
                            assert(false);
                        }
                        vstd::pervasive::unreached()
                    },
                };
                proof {
                    lemma_vidx_unique(qv(self.visited@), vi as int, vidx(qv(self.visited@), self.current@));
                }
                let base: u64 = self.visited[vi].1.1;
                let ghost cur = pre.current@;
                let ghost seen0 = sv(pre.discovered@);
                let ghost evs = edge_views(pre.graph.node_of(cur));
                let mut j: usize = 0;
                while j < g.nodes[ni].edges.len()
                    invariant
                        self.graph == pre.graph,
                        self.start == pre.start,
                        self.current@ == pre.current@,
                        self.dest@ == pre.dest@,
                        self.visited@ == pre.visited@,
                        self.state == pre.state,
                        0 <= j <= evs.len(),
                        evs.len() == g.nodes@[ni as int].edges@.len(),
                        qv(self.queue@) == qv(pre.queue@) + bfs_expand(
                            evs.take(j as int),
                            seen0,
                            cur,
                            base,
                        ),
                        sv(self.discovered@) == seen0 + keys_of(
                            bfs_expand(evs.take(j as int), seen0, cur, base),
                        ),
                        forall|i: int|
                            0 <= i < qv(self.queue@).len() ==> (*pre.graph).contains_id(
                                (#[trigger] qv(self.queue@)[i]).0,
                            ),
                        forall|i: int, k: int|
                            0 <= i < k < qv(self.queue@).len() ==> (#[trigger] qv(self.queue@)[i]).0
                                != (#[trigger] qv(self.queue@)[k]).0,
                        forall|i: int|
                            0 <= i < qv(self.queue@).len() ==> !vcontains(
                                qv(self.visited@),
                                (#[trigger] qv(self.queue@)[i]).0,
                            ),
                        forall|i: int|
                            0 <= i < qv(self.queue@).len() ==> sv(self.discovered@).contains(
                                (#[trigger] qv(self.queue@)[i]).0,
                            ),
                        forall|i: int|
                            0 <= i < qv(self.queue@).len() ==> bfs_qentry_ok(
                                *pre.graph,
                                qv(self.visited@),
                                qv(self.queue@).len() as int,
                                self.start@,
                                #[trigger] qv(self.queue@)[i],
                            ),
                        forall|i: int|
                            0 <= i < qv(self.visited@).len() ==> sv(self.discovered@).contains(
                                (#[trigger] qv(self.visited@)[i]).0,
                            ),
                    decreases evs.len() - j,
                {
                    let ghost qpre = *self;
                    let ghost expj = bfs_expand(evs.take(j as int), seen0, cur, base);
                    let key_known = id_list_contains(&self.discovered, g.nodes[ni].edges[j].0.as_str());
                    proof {
                        assert(evs[j as int] == (g.nodes@[ni as int].edges@[j as int].0@, g.nodes@[ni as int].edges@[j as int].1));
                        assert(evs.take(j as int + 1) =~= evs.take(j as int).push(evs[j as int]));
                        lemma_bfs_expand_snoc(evs.take(j as int), seen0, cur, base, evs[j as int]);
                    }
                    if !key_known {
                        let entry = (
                            g.nodes[ni].edges[j].0.clone(),
                            (self.current.clone(), base.saturating_add(g.nodes[ni].edges[j].1)),
                        );
                        proof {
                            lemma_contains_concat(seen0, keys_of(expj), evs[j as int].0);
                            assert(!seen0.contains(evs[j as int].0));
                            lemma_bfs_push_entry(pre, qpre, evs, seen0, cur, base, j as int, ni as int, vi as int, ev(entry));
                        }
                        self.queue.push(entry);
                        self.discovered.push(g.nodes[ni].edges[j].0.clone());
                        proof {
                            assert(qv(self.queue@) =~= qv(qpre.queue@) + seq![ev(entry)]);
                            assert(sv(self.discovered@) =~= sv(qpre.discovered@) + seq![ev(entry).0]);
                            assert(ev(entry) == (evs[j as int].0, cur, base.saturating_add(evs[j as int].1)));
                            assert(qv(qpre.queue@) + seq![ev(entry)] =~= qv(pre.queue@) + bfs_expand(
                                evs.take(j as int + 1),
                                seen0,
                                cur,
                                base,
                            ));
                            assert(sv(qpre.discovered@) + seq![ev(entry).0] =~= seen0 + keys_of(
                                bfs_expand(evs.take(j as int + 1), seen0, cur, base),
                            ));
                            assert forall|i: int| 0 <= i < qv(self.visited@).len() implies sv(
                                self.discovered@,
                            ).contains((#[trigger] qv(self.visited@)[i]).0) by {
                                lemma_contains_concat(
                                    sv(qpre.discovered@),
                                    seq![ev(entry).0],
                                    qv(self.visited@)[i].0,
                                );
                            }
                            assert forall|i: int| 0 <= i < qv(self.queue@).len() implies sv(
                                self.discovered@,
                            ).contains((#[trigger] qv(self.queue@)[i]).0) by {
                                if i < qv(qpre.queue@).len() {
                                    assert(qv(self.queue@)[i] == qv(qpre.queue@)[i]);
                                    let a = choose|a: int|
                                        0 <= a < sv(qpre.discovered@).len() && sv(qpre.discovered@)[a]
                                            == qv(qpre.queue@)[i].0;
                                    assert(sv(self.discovered@)[a] == qv(self.queue@)[i].0);
                                } else {
                                    assert(qv(self.queue@)[i] == ev(entry));
                                    assert(sv(self.discovered@)[sv(self.discovered@).len() - 1]
                                        == ev(entry).0);
                                }
                            }
                        }
                    } else {
                        proof {
                            lemma_contains_concat(seen0, keys_of(expj), evs[j as int].0);
                            assert(seen0.contains(evs[j as int].0) || keys_of(expj).contains(
                                evs[j as int].0,
                            ));
                            if !seen0.contains(evs[j as int].0) {
                                lemma_bfs_expand_elems(evs.take(j as int), seen0, cur, base);
                                let jj = choose|a: int|
                                    0 <= a < expj.len() && (#[trigger] keys_of(expj)[a])
                                        == evs[j as int].0;
                                assert(expj[jj].0 == evs[j as int].0);
                                let i0 = choose|i: int|
                                    0 <= i < evs.take(j as int).len() && #[trigger] expj[jj] == (
                                    (#[trigger] evs.take(j as int)[i]).0,
                                    cur,
                                    base.saturating_add(evs.take(j as int)[i].1),
                                    ) && !seen0.contains(evs.take(j as int)[i].0);
                                assert(evs[i0].0 == evs[j as int].0);
                                assert(g.nodes@[ni as int].edges@[i0].0@ == g.nodes@[ni as int].edges@[j as int].0@);
                                lemma_sorted_key_unique(g.nodes@[ni as int].edges@, i0, j as int);
                                assert(false);
                            }
                            assert(bfs_expand(evs.take(j as int + 1), seen0, cur, base) =~= expj);
                            assert(qv(self.queue@) =~= qv(pre.queue@) + bfs_expand(
                                evs.take(j as int + 1),
                                seen0,
                                cur,
                                base,
                            ));
                            assert(sv(self.discovered@) =~= seen0 + keys_of(
                                bfs_expand(evs.take(j as int + 1), seen0, cur, base),
                            ));
                        }
                    }
                    j = j + 1;
                }
                proof {
                    assert(evs.take(evs.len() as int) =~= evs);
                    lemma_bfs_push_wrapup(pre, *self, evs, seen0, cur, base);
                }
                self.state = State::Pop;
                Status::Searching
            },
        }
    }

    /// The found path, start to destination, when the machine is done
    /// with `Found`: the predecessor walk from the destination, reversed.
    /// It is a valid simple path carrying cumulative distances.
    pub fn result(&self) -> (r: Option<Vec<(String, u64)>>)
        requires
            self.inv(),
        ensures
            (r is Some) <==> self.state == State::Done(Status::Found),
            r is Some ==> pv(r->Some_0@) == walk(
                qv(self.visited@),
                self.dest@,
                self.visited@.len() as nat,
            ).reverse(),
            r is Some ==> bfs_path_reported(*self.graph, self.start@, self.dest@, pv(r->Some_0@)),
    {
        match self.state {
            State::Done(Status::Found) => {
                let out = Some(reconstruct_path(&self.visited, self.dest.as_str()));
                proof {
                    assert(vcontains(qv(self.visited@), self.dest@));
                    lemma_bfs_path_valid(
                        *self.graph,
                        self.start@,
                        self.dest@,
                        qv(self.visited@),
                        pv(out->Some_0@),
                    );
                }
                out
            },
            _ => None,
        }
    }
}

/// A machine that stopped with `NotFound`, with sound hop bookkeeping,
/// explored everything it could reach: no route from the start to the
/// destination exists at all.
pub proof fn lemma_bfs_not_found_complete(s: BreadthFirstSearch<'_>)
    requires
        s.inv(),
        hop_inv(s),
        s.state == State::Done(Status::NotFound),
    ensures
        forall|route: Seq<Seq<char>>|
            !(#[trigger] wf_path(*s.graph, route) && route[0] == s.start@ && route[route.len()
                - 1] == s.dest@),
{
    let g = *s.graph;
    let m = qv(s.visited@);
    let q = qv(s.queue@);
    assert(q.len() == 0);
    assert(!vcontains(m, s.dest@));
    assert forall|route: Seq<Seq<char>>|
        !(#[trigger] wf_path(g, route) && route[0] == s.start@ && route[route.len() - 1]
            == s.dest@) by {
        if wf_path(g, route) && route[0] == s.start@ && route[route.len() - 1] == s.dest@ {
            lemma_hop_path_covered(g, s.start@, m, q, route);
            if exists|j: int| 0 <= j < route.len() && #[trigger] hop_covered_at(m, q, route, j) {
                let j = choose|j: int|
                    0 <= j < route.len() && #[trigger] hop_covered_at(m, q, route, j);
                let qi = choose|i: int|
                    0 <= i < q.len() && (#[trigger] q[i]).0 == route[j] && elevel(m, q[i]) <= j;
                assert(false);
            } else {
                assert(vcontains(m, s.dest@));
            }
        }
    }
}

/// Popping the front entry: the remaining frontier and the grown visited
/// mapping keep the machine invariant, whatever branch follows.
proof fn lemma_bfs_pop(pre: BreadthFirstSearch<'_>, e: (Seq<char>, Seq<char>, u64))
    requires
        pre.inv(),
        pre.state == State::Pop,
        qv(pre.queue@).len() > 0,
        e == qv(pre.queue@)[0],
    ensures
        vunique(qv(pre.visited@).push(e)),
        !vcontains(qv(pre.visited@), e.0),
        vcontains(qv(pre.visited@).push(e), e.0),
        forall|k: Seq<char>|
            k != e.0 ==> (vcontains(qv(pre.visited@).push(e), k) == vcontains(qv(pre.visited@), k)),
        forall|k: Seq<char>|
            k != e.0 && vcontains(qv(pre.visited@), k) ==> vidx(qv(pre.visited@).push(e), k) == vidx(
                qv(pre.visited@),
                k,
            ) && vdist(qv(pre.visited@).push(e), k) == vdist(qv(pre.visited@), k) && vfrom(
                qv(pre.visited@).push(e),
                k,
            ) == vfrom(qv(pre.visited@), k),
        vidx(qv(pre.visited@).push(e), e.0) == qv(pre.visited@).len(),
        forall|i: int|
            0 <= i < qv(pre.visited@).push(e).len() ==> #[trigger] bfs_ventry_ok(
                *pre.graph,
                qv(pre.visited@).push(e),
                pre.start@,
                i,
            ),
        forall|i: int|
            0 <= i < qv(pre.queue@).skip(1).len() ==> bfs_qentry_ok(
                *pre.graph,
                qv(pre.visited@).push(e),
                qv(pre.queue@).skip(1).len() as int,
                pre.start@,
                #[trigger] qv(pre.queue@).skip(1)[i],
            ),
        forall|i: int|
            0 <= i < qv(pre.queue@).skip(1).len() ==> !vcontains(
                qv(pre.visited@).push(e),
                (#[trigger] qv(pre.queue@).skip(1)[i]).0,
            ),
        forall|i: int|
            0 <= i < qv(pre.visited@).push(e).len() ==> (*pre.graph).contains_id(
                (#[trigger] qv(pre.visited@).push(e)[i]).0,
            ),
        forall|i: int|
            0 <= i < qv(pre.visited@).push(e).len() ==> sv(pre.discovered@).contains(
                (#[trigger] qv(pre.visited@).push(e)[i]).0,
            ),
{
    let vis = qv(pre.visited@);
    let vis2 = vis.push(e);
    let q = qv(pre.queue@);
    assert(!vcontains(vis, e.0));
    assert(vunique(vis2)) by {
        assert forall|i: int, j: int| 0 <= i < j < vis2.len() implies (#[trigger] vis2[i]).0 != (
        #[trigger] vis2[j]).0 by {
            if j == vis.len() {
                if vis2[i].0 == e.0 {
                    assert(vcontains(vis, e.0));
                }
            }
        }
    }
    assert forall|k: Seq<char>| k != e.0 implies (vcontains(vis2, k) == vcontains(vis, k)) by {
        if vcontains(vis, k) {
            let i = vidx(vis, k);
            assert(vis2[i].0 == k);
        }
        if vcontains(vis2, k) {
            let i = vidx(vis2, k);
            assert(i < vis.len());
            assert(vis[i].0 == k);
        }
    }
    assert forall|k: Seq<char>| k != e.0 && vcontains(vis, k) implies vidx(vis2, k) == vidx(vis, k)
        && vdist(vis2, k) == vdist(vis, k) && vfrom(vis2, k) == vfrom(vis, k) by {
        let i = vidx(vis, k);
        assert(vis2[i].0 == k);
        assert(vcontains(vis2, k));
        lemma_vidx_unique(vis2, i, vidx(vis2, k));
    }
    assert(vis2[vis.len() as int].0 == e.0);
    assert(vcontains(vis2, e.0));
    lemma_vidx_unique(vis2, vis.len() as int, vidx(vis2, e.0));
    assert forall|i: int| 0 <= i < vis2.len() implies #[trigger] bfs_ventry_ok(
        *pre.graph,
        vis2,
        pre.start@,
        i,
    ) by {
        if i < vis.len() {
            assert(bfs_ventry_ok(*pre.graph, vis, pre.start@, i));
            let p = vis[i].1;
            if p != sentinel() {
                assert(p != e.0) by {
                    if p == e.0 {
                        assert(vcontains(vis, e.0));
                    }
                }
            }
            assert(vis2[i] == vis[i]);
        } else {
            assert(vis2[i] == e);
            assert(bfs_qentry_ok(*pre.graph, vis, q.len() as int, pre.start@, e));
            if e.1 == sentinel() {
                assert(vis.len() == 0);
            } else {
                assert(e.1 != e.0) by {
                    if e.1 == e.0 {
                        assert(vcontains(vis, e.0));
                    }
                }
                assert(vidx(vis2, e.1) == vidx(vis, e.1));
            }
        }
    }
    assert forall|i: int| 0 <= i < q.skip(1).len() implies bfs_qentry_ok(
        *pre.graph,
        vis2,
        q.skip(1).len() as int,
        pre.start@,
        #[trigger] q.skip(1)[i],
    ) by {
        assert(q.skip(1)[i] == q[i + 1]);
        let qe = q[i + 1];
        assert(bfs_qentry_ok(*pre.graph, vis, q.len() as int, pre.start@, qe));
        if qe.1 == sentinel() {
            assert(vis.len() == 0 && q.len() == 1);
            assert(false);
        } else {
            assert(qe.1 != e.0) by {
                if qe.1 == e.0 {
                    assert(vcontains(vis, e.0));
                }
            }
        }
    }
    assert forall|i: int| 0 <= i < q.skip(1).len() implies !vcontains(
        vis2,
        (#[trigger] q.skip(1)[i]).0,
    ) by {
        assert(q.skip(1)[i] == q[i + 1]);
        assert(q[i + 1].0 != q[0].0);
        assert(!vcontains(vis, q[i + 1].0));
        if vcontains(vis2, q[i + 1].0) {
            let a = vidx(vis2, q[i + 1].0);
            assert(a < vis.len());
            assert(vis[a].0 == q[i + 1].0);
        }
    }
    assert forall|i: int| 0 <= i < vis2.len() implies (*pre.graph).contains_id(
        (#[trigger] vis2[i]).0,
    ) by {
        if i < vis.len() {
            assert(vis2[i] == vis[i]);
        } else {
            assert(vis2[i] == e);
            assert(e.0 == q[0].0);
        }
    }
    assert forall|i: int| 0 <= i < vis2.len() implies sv(pre.discovered@).contains(
        (#[trigger] vis2[i]).0,
    ) by {
        if i < vis.len() {
            assert(vis2[i] == vis[i]);
        } else {
            assert(vis2[i] == e);
            assert(e.0 == q[0].0);
        }
    }
}

/// The entry built for a not-yet-discovered neighbor satisfies the
/// frontier soundness conditions.
proof fn lemma_bfs_push_entry(
    pre: BreadthFirstSearch<'_>,
    qpre: BreadthFirstSearch<'_>,
    evs: Seq<(Seq<char>, u64)>,
    seen0: Seq<Seq<char>>,
    cur: Seq<char>,
    base: u64,
    j: int,
    ni: int,
    vi: int,
    e: (Seq<char>, Seq<char>, u64),
)
    requires
        pre.inv(),
        pre.state == State::Push,
        0 <= ni < pre.graph.nodes@.len(),
        pre.graph.nodes@[ni].id@ == cur,
        pre.graph.idx_of(cur) == ni,
        cur == pre.current@,
        seen0 == sv(pre.discovered@),
        evs == edge_views(pre.graph.node_of(cur)),
        0 <= vi < qv(pre.visited@).len(),
        qv(pre.visited@)[vi].0 == cur,
        base == vdist(qv(pre.visited@), cur),
        0 <= j < evs.len(),
        e == (evs[j].0, cur, base.saturating_add(evs[j].1)),
        qpre.graph == pre.graph,
        qpre.start == pre.start,
        qpre.visited@ == pre.visited@,
        !sv(qpre.discovered@).contains(e.0),
        forall|i: int|
            0 <= i < qv(qpre.queue@).len() ==> sv(qpre.discovered@).contains(
                (#[trigger] qv(qpre.queue@)[i]).0,
            ),
        forall|i: int|
            0 <= i < qv(qpre.queue@).len() ==> !vcontains(
                qv(qpre.visited@),
                (#[trigger] qv(qpre.queue@)[i]).0,
            ),
        forall|i: int, k: int|
            0 <= i < k < qv(qpre.queue@).len() ==> (#[trigger] qv(qpre.queue@)[i]).0 != (
            #[trigger] qv(qpre.queue@)[k]).0,
        forall|i: int|
            0 <= i < qv(qpre.queue@).len() ==> bfs_qentry_ok(
                *pre.graph,
                qv(pre.visited@),
                qv(qpre.queue@).len() as int,
                pre.start@,
                #[trigger] qv(qpre.queue@)[i],
            ),
        forall|i: int|
            0 <= i < qv(pre.visited@).len() ==> sv(qpre.discovered@).contains(
                (#[trigger] qv(pre.visited@)[i]).0,
            ),
    ensures
        (*pre.graph).contains_id(e.0),
        !vcontains(qv(pre.visited@), e.0),
        forall|i: int| 0 <= i < qv(qpre.queue@).len() ==> (#[trigger] qv(qpre.queue@)[i]).0 != e.0,
        bfs_qentry_ok(
            *pre.graph,
            qv(pre.visited@),
            qv(qpre.queue@).len() as int + 1,
            pre.start@,
            e,
        ),
{
    let g = *pre.graph;
    let node = g.node_of(cur);
    assert(node.edges@[j].0@ == evs[j].0 && node.edges@[j].1 == evs[j].1);
    assert(g.contains_id(e.0)) by {
        assert(g.nodes@[ni].edges@[j].0@ == e.0);
    }
    assert(node.edge_lookup(e.0) == Some(evs[j].1)) by {
        assert(node.has_edge(e.0));
        lemma_sorted_key_unique(node.edges@, j, node.edge_idx(e.0));
    }
    assert(!vcontains(qv(pre.visited@), e.0)) by {
        if vcontains(qv(pre.visited@), e.0) {
            let i = vidx(qv(pre.visited@), e.0);
            assert(sv(qpre.discovered@).contains(qv(pre.visited@)[i].0));
        }
    }
    assert(e.1 == cur);
    assert(cur != sentinel()) by {
        assert(g.node_of(cur).wf());
        assert(g.node_of(cur).id@ == cur) by {
            assert(g.nodes@[ni].id@ == cur);
        }
    }
    assert(vcontains(qv(pre.visited@), cur)) by {
        assert(qv(pre.visited@)[vi].0 == cur);
    }
}

/// After the expansion loop the whole invariant holds again with the
/// frontier extended by the expansion.
proof fn lemma_bfs_push_wrapup(
    pre: BreadthFirstSearch<'_>,
    post: BreadthFirstSearch<'_>,
    evs: Seq<(Seq<char>, u64)>,
    seen0: Seq<Seq<char>>,
    cur: Seq<char>,
    base: u64,
)
    requires
        pre.inv(),
        pre.state == State::Push,
        cur == pre.current@,
        seen0 == sv(pre.discovered@),
        evs == edge_views(pre.graph.node_of(cur)),
        post.graph == pre.graph,
        post.start == pre.start,
        post.current@ == pre.current@,
        post.dest@ == pre.dest@,
        post.visited@ == pre.visited@,
        qv(post.queue@) == qv(pre.queue@) + bfs_expand(evs, seen0, cur, base),
        sv(post.discovered@) == seen0 + keys_of(bfs_expand(evs, seen0, cur, base)),
        forall|i: int|
            0 <= i < qv(post.queue@).len() ==> (*pre.graph).contains_id(
                (#[trigger] qv(post.queue@)[i]).0,
            ),
        forall|i: int, k: int|
            0 <= i < k < qv(post.queue@).len() ==> (#[trigger] qv(post.queue@)[i]).0 != (
            #[trigger] qv(post.queue@)[k]).0,
        forall|i: int|
            0 <= i < qv(post.queue@).len() ==> !vcontains(
                qv(post.visited@),
                (#[trigger] qv(post.queue@)[i]).0,
            ),
        forall|i: int|
            0 <= i < qv(post.queue@).len() ==> sv(post.discovered@).contains(
                (#[trigger] qv(post.queue@)[i]).0,
            ),
        forall|i: int|
            0 <= i < qv(post.queue@).len() ==> bfs_qentry_ok(
                *pre.graph,
                qv(post.visited@),
                qv(post.queue@).len() as int,
                pre.start@,
                #[trigger] qv(post.queue@)[i],
            ),
    ensures
        forall|i: int|
            0 <= i < qv(post.visited@).len() ==> sv(post.discovered@).contains(
                (#[trigger] qv(post.visited@)[i]).0,
            ),
        forall|i: int|
            0 <= i < qv(post.visited@).len() ==> #[trigger] bfs_ventry_ok(
                *post.graph,
                qv(post.visited@),
                post.start@,
                i,
            ),
{
    assert forall|i: int| 0 <= i < qv(post.visited@).len() implies sv(post.discovered@).contains(
        (#[trigger] qv(post.visited@)[i]).0,
    ) by {
        assert(seen0.contains(qv(pre.visited@)[i].0));
        let a = choose|a: int| 0 <= a < seen0.len() && seen0[a] == qv(pre.visited@)[i].0;
        assert(sv(post.discovered@)[a] == seen0[a]);
    }
    assert forall|i: int| 0 <= i < qv(post.visited@).len() implies #[trigger] bfs_ventry_ok(
        *post.graph,
        qv(post.visited@),
        post.start@,
        i,
    ) by {
        assert(bfs_ventry_ok(*pre.graph, qv(pre.visited@), pre.start@, i));
    }
}

/// What breadth-first search reports when it finds a path: a valid
/// simple path whose entries carry cumulative distances — zero at the
/// start, and each later entry its predecessor's distance plus the
/// connecting edge's weight (saturating).
pub open spec fn bfs_path_reported(
    g: Graph,
    start: Seq<char>,
    dest: Seq<char>,
    p: Seq<(Seq<char>, u64)>,
) -> bool {
    &&& simple_path(g, start, dest, p)
    &&& p[0].1 == 0
    &&& forall|i: int|
        0 <= i < p.len() - 1 ==> p[i + 1].1 == (#[trigger] p[i]).1.saturating_add(
            g.node_of(p[i].0).edge_lookup(p[i + 1].0)->Some_0,
        )
}

/// The visited records of a sound breadth-first machine form proper
/// predecessor chains, and the reconstructed path for any settled
/// destination is a valid simple path with cumulative distances.
#[verifier::rlimit(60)]
#[verifier::spinoff_prover]
pub proof fn lemma_bfs_path_valid(
    g: Graph,
    start: Seq<char>,
    dest: Seq<char>,
    m: Seq<(Seq<char>, Seq<char>, u64)>,
    p: Seq<(Seq<char>, u64)>,
)
    requires
        g.wf(),
        vunique(m),
        forall|i: int| 0 <= i < m.len() ==> #[trigger] bfs_ventry_ok(g, m, start, i),
        vcontains(m, dest),
        p == walk(m, dest, m.len() as nat).reverse(),
    ensures
        bfs_path_reported(g, start, dest, p),
{
    assert(chain_ok(m, start)) by {
        assert forall|i: int| 0 <= i < m.len() implies #[trigger] chain_entry_ok(m, start, i) by {
            assert(bfs_ventry_ok(g, m, start, i));
        }
    }
    lemma_walk_round_trip(m, start, dest, m.len() as nat);
    let w = walk(m, dest, m.len() as nat);
    let n = w.len();
    assert(p.len() == n);
    assert(forall|i: int| 0 <= i < n ==> p[i] == w[n - 1 - i]);
    assert(p[0].0 == start && p[n - 1].0 == dest);
    assert forall|i: int, j: int| 0 <= i < j < p.len() implies (#[trigger] p[i]).0 != (
    #[trigger] p[j]).0 by {
        assert(w[n - 1 - j].0 != w[n - 1 - i].0);
    }
    assert(p[0].1 == 0) by {
        assert(p[0] == w[n - 1]);
        assert(vfrom(m, w[n - 1].0) == sentinel());
        let a = vidx(m, w[n - 1].0);
        assert(bfs_ventry_ok(g, m, start, a));
        assert(w[n - 1].1 == vdist(m, w[n - 1].0));
    }
    assert forall|i: int| 0 <= i < p.len() - 1 implies g.contains_id((#[trigger] p[i]).0)
        && g.node_of(p[i].0).edge_lookup(p[i + 1].0) is Some && p[i + 1].1
        == p[i].1.saturating_add(g.node_of(p[i].0).edge_lookup(p[i + 1].0)->Some_0) by {
        assert(p[i] == w[n - 1 - i] && p[i + 1] == w[n - 2 - i]);
        assert(vfrom(m, w[n - 2 - i].0) == w[n - 1 - i].0);
        let a = vidx(m, w[n - 2 - i].0);
        assert(bfs_ventry_ok(g, m, start, a));
        assert(m[a].1 == vfrom(m, w[n - 2 - i].0) && m[a].2 == vdist(m, w[n - 2 - i].0));
        assert(m[a].1 == p[i].0);
        assert(p[i].1 == vdist(m, p[i].0));
        assert(p[i + 1].1 == vdist(m, w[n - 2 - i].0));
    }
}

impl Graph {
    /// A fresh breadth-first machine for stepwise driving; both ids must
    /// already be in the graph.
    pub fn step_breadth_first_search<'a>(&'a self, start: &str, end: &str) -> (s:
        BreadthFirstSearch<'a>)
        requires
            self.wf(),
            self.contains_id(start@),
            self.contains_id(end@),
        ensures
            s.inv(),
            s.graph == self,
            s.start@ == start@,
            s.dest@ == end@,
            s.state == State::Pop,
            s.visited@.len() == 0,
            s.current@ == sentinel(),
            qv(s.queue@) == seq![(start@, sentinel(), 0u64)],
            sv(s.discovered@) == seq![start@],
    {
        BreadthFirstSearch::new(self, start, end)
    }

    /// Runs a breadth-first search to completion. Rejects a start or end
    /// id that the graph does not hold. A found path is a valid simple
    /// path from start to end carrying cumulative distances, and its
    /// number of hops is minimal over every route from start to end;
    /// when no path is reported, no route from start to end exists.
    pub fn breadth_first_search(&self, start: &str, end: &str) -> (r: Result<
        Option<Vec<(String, u64)>>,
        DoesNotContainError,
    >)
        requires
            self.wf(),
        ensures
            (r is Err) <==> !(self.contains_id(start@) && self.contains_id(end@)),
            r matches Ok(Some(p)) ==> bfs_path_reported(*self, start@, end@, pv(p@)),
            r matches Ok(Some(p)) ==> forall|route: Seq<Seq<char>>|
                #[trigger] wf_path(*self, route) && route[0] == start@ && route[route.len() - 1]
                    == end@ ==> p@.len() <= route.len(),
            r matches Ok(None) ==> forall|route: Seq<Seq<char>>|
                !(#[trigger] wf_path(*self, route) && route[0] == start@ && route[route.len() - 1]
                    == end@),
    {
        if !self.contains_node(start) || !self.contains_node(end) {
            return Err(DoesNotContainError);
        }
        let mut search = BreadthFirstSearch::new(self, start, end);
        proof {
            assert(hop_inv(search)) by {
                assert(qv(search.queue@)[0] == (start@, sentinel(), 0u64));
                assert(sv(search.discovered@)[0] == start@);
            }
        }
        loop
            invariant_except_break
                search.inv(),
                hop_inv(search),
                search.graph == self,
                search.start@ == start@,
                search.dest@ == end@,
                !(search.state is Done),
                self.wf(),
                self.contains_id(start@),
                self.contains_id(end@),
            ensures
                search.inv(),
                hop_inv(search),
                search.graph == self,
                search.start@ == start@,
                search.dest@ == end@,
                search.state is Done,
            decreases unsettled_count(self.ids(), qv(search.visited@)), state_rank(search.state),
        {
            let ghost spre = search;
            let st = search.next();
            proof {
                if spre.state == State::Pop && spre.queue@.len() > 0 {
                    let e = ev(spre.queue@[0]);
                    assert(qv(spre.queue@)[0] == e);
                    assert(!vcontains(qv(spre.visited@), e.0));
                    assert(qv(search.visited@) =~= qv(spre.visited@).push(e));
                    assert forall|kk: Seq<char>|
                        vcontains(qv(spre.visited@), kk) implies vcontains(
                        qv(search.visited@),
                        kk,
                    ) by {
                        let a = vidx(qv(spre.visited@), kk);
                        assert(qv(search.visited@)[a].0 == kk);
                    }
                    assert(vcontains(qv(search.visited@), e.0)) by {
                        assert(qv(search.visited@)[qv(spre.visited@).len() as int].0 == e.0);
                    }
                    assert(self.ids().contains(e.0)) by {
                        let w = self.idx_of(e.0);
                        assert(self.nodes@[w].id@ == e.0);
                        assert(self.ids()[w] == e.0);
                    }
                    lemma_unsettled_strict(
                        self.ids(),
                        qv(spre.visited@),
                        qv(search.visited@),
                        e.0,
                    );
                }
                lemma_hop_step(spre, search);
            }
            match st {
                Status::Searching => {
                },
                _ => {
                    break ;
                },
            }
        }
        let res = search.result();
        proof {
            if res is Some {
                let m = qv(search.visited@);
                assert(chain_ok(m, start@)) by {
                    assert forall|i: int| 0 <= i < m.len() implies #[trigger] chain_entry_ok(
                        m,
                        start@,
                        i,
                    ) by {
                        assert(bfs_ventry_ok(*self, m, start@, i));
                    }
                }
                lemma_walk_len(m, start@, end@, search.visited@.len() as nat);
                assert(pv(res->Some_0@).len() == level(m, end@) + 1);
                assert forall|route: Seq<Seq<char>>|
                    #[trigger] wf_path(*self, route) && route[0] == start@ && route[route.len()
                        - 1] == end@ implies res->Some_0@.len() <= route.len() by {
                    assert(level(m, route[route.len() - 1]) <= route.len() - 1);
                }
            } else {
                assert(search.state == State::Done(Status::NotFound));
                lemma_bfs_not_found_complete(search);
            }
        }
        Ok(res)
    }
}

/// Number of hops recorded for the entry at index `i`: the length of its
/// predecessor chain. Indices decrease strictly along a proper chain, so
/// the recursion is grounded on the index.
pub open spec fn depth(m: Seq<(Seq<char>, Seq<char>, u64)>, i: int) -> nat
    decreases i,
{
    if i < 0 || i >= m.len() {
        0
    } else if m[i].1 == sentinel() {
        0
    } else if 0 <= vidx(m, m[i].1) < i {
        1 + depth(m, vidx(m, m[i].1))
    } else {
        0
    }
}

/// Number of hops recorded for a settled id.
pub open spec fn level(m: Seq<(Seq<char>, Seq<char>, u64)>, x: Seq<char>) -> nat {
    depth(m, vidx(m, x))
}

/// Number of hops a frontier entry will record when settled: one more
/// than its predecessor's, zero for the seeded start entry.
pub open spec fn elevel(m: Seq<(Seq<char>, Seq<char>, u64)>, e: (Seq<char>, Seq<char>, u64)) -> nat {
    if e.1 == sentinel() {
        0
    } else {
        level(m, e.1) + 1
    }
}

/// Appending a record for a fresh id does not move any existing chain.
proof fn lemma_depth_push(
    m: Seq<(Seq<char>, Seq<char>, u64)>,
    start: Seq<char>,
    e: (Seq<char>, Seq<char>, u64),
    i: int,
)
    requires
        vunique(m),
        !vcontains(m, e.0),
        forall|j: int| 0 <= j < m.len() ==> #[trigger] chain_entry_ok(m, start, j),
        0 <= i < m.len(),
    ensures
        depth(m.push(e), i) == depth(m, i),
    decreases i,
{
    let m2 = m.push(e);
    assert(m2[i] == m[i]);
    let p = m[i].1;
    assert(chain_entry_ok(m, start, i));
    if p == sentinel() {
    } else {
        assert(vcontains(m, p) && vidx(m, p) < i);
        let a = vidx(m, p);
        assert(m[a].0 == p);
        assert(p != e.0);
        assert(m2[a].0 == p);
        assert(vcontains(m2, p));
        assert(vunique(m2)) by {
            assert forall|x: int, y: int| 0 <= x < y < m2.len() implies (#[trigger] m2[x]).0 != (
            #[trigger] m2[y]).0 by {
                if y == m.len() {
                    if m2[x].0 == e.0 {
                        assert(vcontains(m, e.0));
                    }
                }
            }
        }
        lemma_vidx_unique(m2, a, vidx(m2, p));
        assert(vidx(m2, p) == a);
        lemma_depth_push(m, start, e, a);
    }
}

/// Levels of already settled ids, and pending levels of frontier entries
/// whose predecessors are settled, survive a fresh settlement.
proof fn lemma_level_stable(
    m: Seq<(Seq<char>, Seq<char>, u64)>,
    start: Seq<char>,
    e: (Seq<char>, Seq<char>, u64),
)
    requires
        vunique(m),
        !vcontains(m, e.0),
        forall|j: int| 0 <= j < m.len() ==> #[trigger] chain_entry_ok(m, start, j),
    ensures
        vunique(m.push(e)),
        forall|x: Seq<char>|
            vcontains(m, x) ==> #[trigger] level(m.push(e), x) == level(m, x),
        forall|i: int|
            0 <= i < m.len() ==> #[trigger] depth(m.push(e), i) == depth(m, i),
        level(m.push(e), e.0) == depth(m.push(e), m.len() as int),
        vcontains(m.push(e), e.0),
        vidx(m.push(e), e.0) == m.len(),
        forall|x: Seq<char>|
            x != e.0 ==> (vcontains(m.push(e), x) == vcontains(m, x)),
{
    let m2 = m.push(e);
    assert forall|i: int| 0 <= i < m.len() implies #[trigger] depth(m2, i) == depth(m, i) by {
        lemma_depth_push(m, start, e, i);
    }
    assert forall|x: Seq<char>| vcontains(m, x) implies #[trigger] level(m2, x) == level(m, x) by {
        let a = vidx(m, x);
        assert(m[a].0 == x);
        assert(x != e.0);
        assert(m2[a].0 == x);
        assert(vcontains(m2, x));
        assert(vunique(m2)) by {
            assert forall|u: int, v: int| 0 <= u < v < m2.len() implies (#[trigger] m2[u]).0 != (
            #[trigger] m2[v]).0 by {
                if v == m.len() {
                    if m2[u].0 == e.0 {
                        assert(vcontains(m, e.0));
                    }
                }
            }
        }
        lemma_vidx_unique(m2, a, vidx(m2, x));
    }
    assert(m2[m.len() as int].0 == e.0);
    assert(vcontains(m2, e.0));
    assert(vunique(m2)) by {
        assert forall|u: int, v: int| 0 <= u < v < m2.len() implies (#[trigger] m2[u]).0 != (
        #[trigger] m2[v]).0 by {
            if v == m.len() {
                if m2[u].0 == e.0 {
                    assert(vcontains(m, e.0));
                }
            }
        }
    }
    lemma_vidx_unique(m2, m.len() as int, vidx(m2, e.0));
    assert forall|x: Seq<char>| x != e.0 implies (vcontains(m2, x) == vcontains(m, x)) by {
        if vcontains(m, x) {
            let a = vidx(m, x);
            assert(m2[a].0 == x);
        }
        if vcontains(m2, x) {
            let a = vidx(m2, x);
            assert(a < m.len());
            assert(m[a].0 == x);
        }
    }
}

/// One recorded edge out of a settled node is accounted for: the
/// neighbor is settled within one more hop, or a frontier entry for it
/// within one more hop is waiting.
pub open spec fn bfs_edge_done(
    g: Graph,
    m: Seq<(Seq<char>, Seq<char>, u64)>,
    q: Seq<(Seq<char>, Seq<char>, u64)>,
    x: Seq<char>,
    j: int,
) -> bool {
    let y = g.node_of(x).edges@[j].0@;
    ||| (vcontains(m, y) && level(m, y) <= level(m, x) + 1)
    ||| (exists|qi: int|
        0 <= qi < q.len() && (#[trigger] q[qi]).0 == y && elevel(m, q[qi]) <= level(m, x) + 1)
}

/// Every recorded edge out of `x` is accounted for.
pub open spec fn bfs_node_done(
    g: Graph,
    m: Seq<(Seq<char>, Seq<char>, u64)>,
    q: Seq<(Seq<char>, Seq<char>, u64)>,
    x: Seq<char>,
) -> bool {
    forall|j: int| 0 <= j < g.node_of(x).edges@.len() ==> #[trigger] bfs_edge_done(g, m, q, x, j)
}

/// Every settled node's edges are accounted for, except possibly the
/// exempt one (the node whose expansion is still pending).
pub open spec fn bfs_frontier_done(
    g: Graph,
    m: Seq<(Seq<char>, Seq<char>, u64)>,
    q: Seq<(Seq<char>, Seq<char>, u64)>,
    exempt: Option<Seq<char>>,
) -> bool {
    forall|xi: int|
        0 <= xi < m.len() ==> Some((#[trigger] m[xi]).0) == exempt || bfs_node_done(
            g,
            m,
            q,
            m[xi].0,
        )
}

/// The hop-minimality bookkeeping the driver carries alongside the
/// machine invariant: settled levels are hop-minimal and non-decreasing
/// in settlement order, frontier levels are monotone and span at most
/// two layers and sit at or above every settled level, every discovered
/// id is settled or queued, the start is settled or still seeded, and
/// every edge out of a settled node is accounted for.
pub open spec fn hop_inv(s: BreadthFirstSearch<'_>) -> bool {
    let g = *s.graph;
    let m = qv(s.visited@);
    let q = qv(s.queue@);
    let seen = sv(s.discovered@);
    &&& forall|p: Seq<Seq<char>>|
        #[trigger] wf_path(g, p) && p[0] == s.start@ && vcontains(m, p[p.len() - 1]) ==> level(
            m,
            p[p.len() - 1],
        ) <= p.len() - 1
    &&& forall|sk: int|
        0 <= sk < seen.len() ==> vcontains(m, #[trigger] seen[sk]) || exists|qi: int|
            0 <= qi < q.len() && (#[trigger] q[qi]).0 == seen[sk]
    &&& forall|i: int, j: int|
        0 <= i <= j < q.len() ==> elevel(m, #[trigger] q[i]) <= elevel(m, #[trigger] q[j])
            && elevel(m, q[j]) <= elevel(m, q[i]) + 1
    &&& vcontains(m, s.start@) || exists|qi: int|
        0 <= qi < q.len() && (#[trigger] q[qi]).0 == s.start@ && q[qi].1 == sentinel()
    &&& forall|a: int, b: int|
        0 <= a <= b < m.len() ==> #[trigger] depth(m, a) <= #[trigger] depth(m, b)
    &&& forall|a: int, qi: int|
        0 <= a < m.len() && 0 <= qi < q.len() ==> #[trigger] depth(m, a) <= elevel(
            m,
            #[trigger] q[qi],
        )
    &&& match s.state {
        State::Pop => bfs_frontier_done(g, m, q, None),
        State::Push => {
            &&& bfs_frontier_done(g, m, q, Some(s.current@))
            &&& vidx(m, s.current@) == m.len() - 1
            &&& forall|qi: int|
                0 <= qi < q.len() ==> level(m, s.current@) <= elevel(m, #[trigger] q[qi])
                    && elevel(m, q[qi]) <= level(m, s.current@) + 1
        },
        State::Done(st) => st == Status::NotFound ==> bfs_frontier_done(g, m, q, None),
    }
}

/// A route node's frontier coverage by hop count: some entry for it
/// waits at a level no more than its position on the route.
pub open spec fn hop_covered_at(
    m: Seq<(Seq<char>, Seq<char>, u64)>,
    q: Seq<(Seq<char>, Seq<char>, u64)>,
    p: Seq<Seq<char>>,
    j: int,
) -> bool {
    exists|qi: int| 0 <= qi < q.len() && (#[trigger] q[qi]).0 == p[j] && elevel(m, q[qi]) <= j
}

/// Every route from the start is covered: some node along it has a
/// frontier entry within its hop position, or its endpoint is already
/// settled within the route's hop count.
proof fn lemma_hop_path_covered(
    g: Graph,
    start: Seq<char>,
    m: Seq<(Seq<char>, Seq<char>, u64)>,
    q: Seq<(Seq<char>, Seq<char>, u64)>,
    p: Seq<Seq<char>>,
)
    requires
        g.wf(),
        vunique(m),
        bfs_frontier_done(g, m, q, None),
        vcontains(m, start) || exists|qi: int|
            0 <= qi < q.len() && (#[trigger] q[qi]).0 == start && q[qi].1 == sentinel(),
        forall|pp: Seq<Seq<char>>|
            #[trigger] wf_path(g, pp) && pp[0] == start && vcontains(m, pp[pp.len() - 1])
                ==> level(m, pp[pp.len() - 1]) <= pp.len() - 1,
        wf_path(g, p),
        p[0] == start,
    ensures
        (exists|j: int| 0 <= j < p.len() && #[trigger] hop_covered_at(m, q, p, j)) || (vcontains(
            m,
            p[p.len() - 1],
        ) && level(m, p[p.len() - 1]) <= p.len() - 1),
    decreases p.len(),
{
    let n = p.len() as int;
    if n == 1 {
        if vcontains(m, start) {
            assert(level(m, p[p.len() - 1]) <= p.len() - 1);
        } else {
            let qi = choose|qi: int|
                0 <= qi < q.len() && (#[trigger] q[qi]).0 == start && q[qi].1 == sentinel();
            assert(elevel(m, q[qi]) == 0);
            assert(hop_covered_at(m, q, p, 0));
        }
    } else {
        crate::graph::lemma_wf_path_drop_last(g, p);
        let p2 = p.drop_last();
        lemma_hop_path_covered(g, start, m, q, p2);
        if exists|j: int| 0 <= j < p2.len() && #[trigger] hop_covered_at(m, q, p2, j) {
            let j = choose|j: int| 0 <= j < p2.len() && #[trigger] hop_covered_at(m, q, p2, j);
            let qi = choose|qi: int|
                0 <= qi < q.len() && (#[trigger] q[qi]).0 == p2[j] && elevel(m, q[qi]) <= j;
            assert(p[j] == p2[j]);
            assert(hop_covered_at(m, q, p, j));
        } else {
            let x = p[n - 2];
            let y = p[n - 1];
            assert(vcontains(m, x) && level(m, x) <= p2.len() - 1);
            let node = g.node_of(x);
            assert(node.edge_lookup(y) is Some);
            assert(node.has_edge(y));
            let ej = node.edge_idx(y);
            assert(0 <= ej < node.edges@.len() && node.edges@[ej].0@ == y);
            let xi = vidx(m, x);
            assert(m[xi].0 == x);
            assert(bfs_node_done(g, m, q, x));
            assert(bfs_edge_done(g, m, q, x, ej));
            if vcontains(m, y) && level(m, y) <= level(m, x) + 1 {
                assert(level(m, p[p.len() - 1]) <= p.len() - 1);
            } else {
                let qi = choose|qi: int|
                    0 <= qi < q.len() && (#[trigger] q[qi]).0 == y && elevel(m, q[qi]) <= level(
                        m,
                        x,
                    ) + 1;
                assert(elevel(m, q[qi]) <= n - 1);
                assert(hop_covered_at(m, q, p, n - 1));
            }
        }
    }
}

/// The cut argument for hops: the front entry's level is no more than
/// the hop count of any route from the start to its id.
proof fn lemma_bfs_cut(
    g: Graph,
    start: Seq<char>,
    m: Seq<(Seq<char>, Seq<char>, u64)>,
    q: Seq<(Seq<char>, Seq<char>, u64)>,
    p: Seq<Seq<char>>,
)
    requires
        g.wf(),
        vunique(m),
        bfs_frontier_done(g, m, q, None),
        vcontains(m, start) || exists|qi: int|
            0 <= qi < q.len() && (#[trigger] q[qi]).0 == start && q[qi].1 == sentinel(),
        forall|pp: Seq<Seq<char>>|
            #[trigger] wf_path(g, pp) && pp[0] == start && vcontains(m, pp[pp.len() - 1])
                ==> level(m, pp[pp.len() - 1]) <= pp.len() - 1,
        forall|i: int, j: int|
            0 <= i <= j < q.len() ==> elevel(m, #[trigger] q[i]) <= elevel(m, #[trigger] q[j])
                && elevel(m, q[j]) <= elevel(m, q[i]) + 1,
        q.len() > 0,
        !vcontains(m, q[0].0),
        wf_path(g, p),
        p[0] == start,
        p[p.len() - 1] == q[0].0,
    ensures
        elevel(m, q[0]) <= p.len() - 1,
{
    lemma_hop_path_covered(g, start, m, q, p);
    if exists|j: int| 0 <= j < p.len() && #[trigger] hop_covered_at(m, q, p, j) {
        let j = choose|j: int| 0 <= j < p.len() && #[trigger] hop_covered_at(m, q, p, j);
        let qi = choose|qi: int|
            0 <= qi < q.len() && (#[trigger] q[qi]).0 == p[j] && elevel(m, q[qi]) <= j;
        assert(elevel(m, q[0]) <= elevel(m, q[qi]));
        assert(j <= p.len() - 1);
    } else {
        assert(false);
    }
}

/// The walk emits one element per hop: its length is the level plus one.
pub proof fn lemma_walk_len(
    m: Seq<(Seq<char>, Seq<char>, u64)>,
    start: Seq<char>,
    k: Seq<char>,
    fuel: nat,
)
    requires
        chain_ok(m, start),
        vcontains(m, k),
        fuel >= vidx(m, k) + 1,
    ensures
        walk(m, k, fuel).len() == level(m, k) + 1,
    decreases vidx(m, k),
{
    let w = walk(m, k, fuel);
    let a = vidx(m, k);
    assert(0 <= a < m.len() && m[a].0 == k);
    assert(chain_entry_ok(m, start, a));
    if vfrom(m, k) == sentinel() {
        assert(m[a].1 == sentinel());
        assert(depth(m, a) == 0);
    } else {
        let k2 = vfrom(m, k);
        assert(m[a].1 == k2);
        assert(vcontains(m, k2) && vidx(m, k2) < a);
        lemma_walk_len(m, start, k2, (fuel - 1) as nat);
        assert(depth(m, a) == 1 + depth(m, vidx(m, k2)));
    }
}

/// Each neighbor of the expanded node is either already discovered or
/// contributed its entry to the expansion.
proof fn lemma_bfs_expand_covers(
    edges: Seq<(Seq<char>, u64)>,
    seen: Seq<Seq<char>>,
    cur: Seq<char>,
    base: u64,
)
    ensures
        forall|j: int|
            0 <= j < edges.len() ==> seen.contains((#[trigger] edges[j]).0) || exists|t: int|
                0 <= t < bfs_expand(edges, seen, cur, base).len() && #[trigger] bfs_expand(
                    edges,
                    seen,
                    cur,
                    base,
                )[t] == (edges[j].0, cur, base.saturating_add(edges[j].1)),
    decreases edges.len(),
{
    if edges.len() > 0 {
        lemma_bfs_expand_covers(edges.skip(1), seen, cur, base);
        let head = bfs_expand_one(seen, cur, base, edges[0]);
        let rest = bfs_expand(edges.skip(1), seen, cur, base);
        let whole = bfs_expand(edges, seen, cur, base);
        assert forall|j: int| 0 <= j < edges.len() implies seen.contains(
            (#[trigger] edges[j]).0,
        ) || exists|t: int|
            0 <= t < whole.len() && #[trigger] whole[t] == (
            edges[j].0,
            cur,
            base.saturating_add(edges[j].1),
            ) by {
            if j == 0 {
                if !seen.contains(edges[0].0) {
                    assert(whole[0] == (edges[0].0, cur, base.saturating_add(edges[0].1)));
                }
            } else {
                assert(edges.skip(1)[j - 1] == edges[j]);
                if !seen.contains(edges[j].0) {
                    let t = choose|t: int|
                        0 <= t < rest.len() && #[trigger] rest[t] == (
                        edges[j].0,
                        cur,
                        base.saturating_add(edges[j].1),
                        );
                    assert(whole[head.len() + t] == rest[t]);
                }
            }
        }
    }
}

/// One step of the machine preserves the hop-minimality bookkeeping.
#[verifier::rlimit(60)]
#[verifier::spinoff_prover]
pub proof fn lemma_hop_step(spre: BreadthFirstSearch<'_>, s: BreadthFirstSearch<'_>)
    requires
        spre.inv(),
        hop_inv(spre),
        !(spre.state is Done),
        s.graph == spre.graph,
        s.start == spre.start,
        s.dest@ == spre.dest@,
        match spre.state {
            State::Done(st) => s == spre,
            State::Pop => {
                if spre.queue@.len() == 0 {
                    s.state == State::Done(Status::NotFound) && s.queue@ == spre.queue@
                        && s.visited@ == spre.visited@ && s.discovered@ == spre.discovered@
                } else {
                    let e = spre.queue@[0];
                    &&& s.queue@ == spre.queue@.remove(0)
                    &&& s.visited@ == spre.visited@.push(e)
                    &&& s.discovered@ == spre.discovered@
                    &&& if e.0@ == spre.dest@ {
                        s.state == State::Done(Status::Found)
                    } else {
                        s.state == State::Push && s.current@ == e.0@
                    }
                }
            },
            State::Push => {
                let cur = spre.current@;
                let base = vdist(qv(spre.visited@), cur);
                let exp = bfs_expand(
                    edge_views(spre.graph.node_of(cur)),
                    sv(spre.discovered@),
                    cur,
                    base,
                );
                &&& s.state == State::Pop
                &&& qv(s.queue@) == qv(spre.queue@) + exp
                &&& s.visited@ == spre.visited@
                &&& sv(s.discovered@) == sv(spre.discovered@) + keys_of(exp)
                &&& s.current@ == spre.current@
            },
        },
    ensures
        hop_inv(s),
{
    let g = *spre.graph;
    let start = spre.start@;
    let m = qv(spre.visited@);
    let m2 = qv(s.visited@);
    let q = qv(spre.queue@);
    let q2 = qv(s.queue@);
    let seen = sv(spre.discovered@);
    let seen2 = sv(s.discovered@);
    match spre.state {
        State::Done(st) => {
        },
        State::Pop => {
            if spre.queue@.len() == 0 {
                assert(m2 == m && q2 == q && seen2 == seen);
            } else {
                let e = ev(spre.queue@[0]);
                assert(q[0] == e);
                assert(m2 =~= m.push(e));
                assert(q2 =~= q.skip(1));
                assert(seen2 == seen);
                assert(forall|i: int| 0 <= i < q2.len() ==> q2[i] == q[i + 1]);
                assert(!vcontains(m, e.0));
                assert(bfs_qentry_ok(g, m, q.len() as int, start, e));
                assert forall|j: int| 0 <= j < m.len() implies #[trigger] chain_entry_ok(
                    m,
                    start,
                    j,
                ) by {
                    assert(bfs_ventry_ok(g, m, start, j));
                }
                lemma_level_stable(m, start, e);
                assert(level(m2, e.0) == elevel(m, e)) by {
                    assert(m2[m.len() as int] == e);
                    if e.1 == sentinel() {
                        assert(depth(m2, m.len() as int) == 0);
                    } else {
                        assert(vcontains(m, e.1));
                        let a = vidx(m, e.1);
                        assert(m[a].0 == e.1 && 0 <= a < m.len());
                        assert(e.1 != e.0);
                        assert(m2[a].0 == e.1);
                        lemma_vidx_unique(m2, a, vidx(m2, e.1));
                        assert(vidx(m2, e.1) == a);
                        assert(depth(m2, m.len() as int) == 1 + depth(m2, a));
                        assert(depth(m2, a) == depth(m, a));
                        assert(level(m, e.1) == depth(m, a));
                    }
                }
                assert forall|qi: int| 0 <= qi < q.len() implies #[trigger] elevel(m2, q[qi])
                    == elevel(m, q[qi]) by {
                    assert(bfs_qentry_ok(g, m, q.len() as int, start, q[qi]));
                    if q[qi].1 != sentinel() {
                        assert(vcontains(m, q[qi].1));
                        assert(level(m2, q[qi].1) == level(m, q[qi].1));
                    }
                }
                // settled levels stay hop-minimal; the new record is
                // minimal by the cut argument
                assert forall|p: Seq<Seq<char>>|
                    #[trigger] wf_path(g, p) && p[0] == start && vcontains(m2, p[p.len() - 1])
                        implies level(m2, p[p.len() - 1]) <= p.len() - 1 by {
                    if p[p.len() - 1] == e.0 {
                        lemma_bfs_cut(g, start, m, q, p);
                    } else {
                        assert(vcontains(m, p[p.len() - 1]));
                        assert(level(m2, p[p.len() - 1]) == level(m, p[p.len() - 1]));
                    }
                }
                // discovered ids remain settled or queued
                assert forall|sk: int| 0 <= sk < seen2.len() implies vcontains(
                    m2,
                    #[trigger] seen2[sk],
                ) || exists|qi: int| 0 <= qi < q2.len() && (#[trigger] q2[qi]).0 == seen2[sk] by {
                    if vcontains(m, seen[sk]) {
                        assert(vcontains(m2, seen[sk])) by {
                            let a = vidx(m, seen[sk]);
                            assert(m2[a].0 == seen[sk]);
                        }
                    } else {
                        let qi = choose|qi: int|
                            0 <= qi < q.len() && (#[trigger] q[qi]).0 == seen[sk];
                        if qi == 0 {
                            assert(vcontains(m2, e.0));
                        } else {
                            assert(q2[qi - 1] == q[qi]);
                        }
                    }
                }
                // frontier layering survives the shift
                assert forall|i: int, j: int| 0 <= i <= j < q2.len() implies elevel(
                    m2,
                    #[trigger] q2[i],
                ) <= elevel(m2, #[trigger] q2[j]) && elevel(m2, q2[j]) <= elevel(m2, q2[i]) + 1 by {
                    assert(q2[i] == q[i + 1] && q2[j] == q[j + 1]);
                    assert(elevel(m, q[i + 1]) <= elevel(m, q[j + 1]) && elevel(m, q[j + 1])
                        <= elevel(m, q[i + 1]) + 1);
                }
                // the start stays covered
                assert(vcontains(m2, start) || exists|qi: int|
                    0 <= qi < q2.len() && (#[trigger] q2[qi]).0 == start && q2[qi].1
                        == sentinel()) by {
                    if vcontains(m, start) {
                        let a = vidx(m, start);
                        assert(m2[a].0 == start);
                    } else {
                        let qi = choose|qi: int|
                            0 <= qi < q.len() && (#[trigger] q[qi]).0 == start && q[qi].1
                                == sentinel();
                        if qi == 0 {
                            assert(vcontains(m2, e.0));
                        } else {
                            assert(q2[qi - 1] == q[qi]);
                        }
                    }
                }
                // settlement order keeps levels non-decreasing
                assert forall|a: int, b: int| 0 <= a <= b < m2.len() implies #[trigger] depth(
                    m2,
                    a,
                ) <= #[trigger] depth(m2, b) by {
                    if b < m.len() {
                        assert(depth(m2, a) == depth(m, a) && depth(m2, b) == depth(m, b));
                    } else if a < m.len() {
                        assert(depth(m2, a) == depth(m, a));
                        assert(depth(m, a) <= elevel(m, q[0]));
                        assert(depth(m2, b) == elevel(m, e));
                    }
                }
                // settled levels stay at or below every frontier level
                assert forall|a: int, qi: int|
                    0 <= a < m2.len() && 0 <= qi < q2.len() implies #[trigger] depth(m2, a)
                        <= elevel(m2, #[trigger] q2[qi]) by {
                    assert(q2[qi] == q[qi + 1]);
                    assert(elevel(m2, q2[qi]) == elevel(m, q[qi + 1]));
                    if a < m.len() {
                        assert(depth(m2, a) == depth(m, a));
                        assert(depth(m, a) <= elevel(m, q[qi + 1]));
                    } else {
                        assert(depth(m2, a) == elevel(m, q[0]));
                        assert(elevel(m, q[0]) <= elevel(m, q[qi + 1]));
                    }
                }
                if e.0 == spre.dest@ {
                } else {
                    // entering Push: the settled frontier is accounted
                    // for with the fresh id exempt, which sits last, and
                    // the remaining frontier spans its layer
                    assert(vidx(m2, s.current@) == m2.len() - 1);
                    assert forall|qi: int| 0 <= qi < q2.len() implies level(m2, s.current@)
                        <= elevel(m2, #[trigger] q2[qi]) && elevel(m2, q2[qi]) <= level(
                        m2,
                        s.current@,
                    ) + 1 by {
                        assert(q2[qi] == q[qi + 1]);
                        assert(elevel(m2, q2[qi]) == elevel(m, q[qi + 1]));
                        assert(level(m2, s.current@) == elevel(m, q[0]));
                        assert(elevel(m, q[0]) <= elevel(m, q[qi + 1]) && elevel(m, q[qi + 1])
                            <= elevel(m, q[0]) + 1);
                    }
                    assert(bfs_frontier_done(g, m2, q2, Some(s.current@))) by {
                        assert forall|xi: int| 0 <= xi < m2.len() implies Some(
                            (#[trigger] m2[xi]).0,
                        ) == Some(s.current@) || bfs_node_done(g, m2, q2, m2[xi].0) by {
                            if xi < m.len() {
                                let x = m[xi].0;
                                assert(m2[xi] == m[xi]);
                                if x == e.0 {
                                    assert(vcontains(m, e.0));
                                    assert(false);
                                }
                                assert(bfs_node_done(g, m, q, x));
                                assert(level(m2, x) == level(m, x));
                                assert forall|j: int|
                                    0 <= j < g.node_of(x).edges@.len() implies #[trigger] bfs_edge_done(
                                    g,
                                    m2,
                                    q2,
                                    x,
                                    j,
                                ) by {
                                    assert(bfs_edge_done(g, m, q, x, j));
                                    let y = g.node_of(x).edges@[j].0@;
                                    if vcontains(m, y) && level(m, y) <= level(m, x) + 1 {
                                        assert(vcontains(m2, y)) by {
                                            let a = vidx(m, y);
                                            assert(m2[a].0 == y);
                                        }
                                        assert(level(m2, y) == level(m, y));
                                    } else {
                                        let qi = choose|qi: int|
                                            0 <= qi < q.len() && (#[trigger] q[qi]).0 == y && elevel(
                                                m,
                                                q[qi],
                                            ) <= level(m, x) + 1;
                                        if qi == 0 {
                                            assert(y == e.0);
                                            assert(vcontains(m2, e.0));
                                            assert(level(m2, e.0) == elevel(m, q[0]));
                                        } else {
                                            assert(q2[qi - 1] == q[qi]);
                                            assert(elevel(m2, q2[qi - 1]) == elevel(m, q[qi]));
                                        }
                                    }
                                }
                            }
                        }
                    }
                }
            }
        },
        State::Push => {
            let cur = spre.current@;
            let base = vdist(m, cur);
            let evs = edge_views(g.node_of(cur));
            let exp = bfs_expand(evs, seen, cur, base);
            assert(m2 == m);
            assert(q2 =~= q + exp);
            assert(seen2 =~= seen + keys_of(exp));
            assert(forall|i: int| 0 <= i < q.len() ==> q2[i] == q[i]);
            assert(forall|i: int| 0 <= i < exp.len() ==> q2[q.len() + i] == exp[i]);
            assert(g.contains_id(cur) && vcontains(m, cur));
            assert(cur != sentinel()) by {
                crate::graph::lemma_id_unique_all(g);
                assert(g.node_of(cur).wf());
                assert(g.node_of(cur).id@ == cur);
            }
            assert(vidx(m, cur) == m.len() - 1);
            assert(level(m, cur) == depth(m, m.len() - 1));
            lemma_bfs_expand_elems(evs, seen, cur, base);
            // every expansion entry records the pending layer
            assert forall|t: int| 0 <= t < exp.len() implies #[trigger] elevel(m, exp[t])
                == level(m, cur) + 1 by {
                let i0 = choose|i: int|
                    0 <= i < evs.len() && #[trigger] exp[t] == (
                    (#[trigger] evs[i]).0,
                    cur,
                    base.saturating_add(evs[i].1),
                    ) && !seen.contains(evs[i].0);
                assert(exp[t].1 == cur);
            }
            // layering with the appended layer
            assert forall|i: int, j: int| 0 <= i <= j < q2.len() implies elevel(
                m2,
                #[trigger] q2[i],
            ) <= elevel(m2, #[trigger] q2[j]) && elevel(m2, q2[j]) <= elevel(m2, q2[i]) + 1 by {
                if j < q.len() {
                } else if i < q.len() {
                    assert(q2[j] == exp[j - q.len()]);
                    assert(elevel(m, q2[j]) == level(m, cur) + 1);
                    assert(level(m, cur) <= elevel(m, q[i]) && elevel(m, q[i]) <= level(m, cur)
                        + 1);
                } else {
                    assert(q2[i] == exp[i - q.len()] && q2[j] == exp[j - q.len()]);
                }
            }
            // discovered ids remain settled or queued
            assert forall|sk: int| 0 <= sk < seen2.len() implies vcontains(
                m2,
                #[trigger] seen2[sk],
            ) || exists|qi: int| 0 <= qi < q2.len() && (#[trigger] q2[qi]).0 == seen2[sk] by {
                if sk < seen.len() {
                    assert(seen2[sk] == seen[sk]);
                    if !vcontains(m, seen[sk]) {
                        let qi = choose|qi: int|
                            0 <= qi < q.len() && (#[trigger] q[qi]).0 == seen[sk];
                        assert(q2[qi] == q[qi]);
                    }
                } else {
                    let t = sk - seen.len();
                    assert(seen2[sk] == keys_of(exp)[t]);
                    assert(keys_of(exp)[t] == exp[t].0);
                    assert(q2[q.len() + t] == exp[t]);
                }
            }
            // the start stays covered
            assert(vcontains(m2, start) || exists|qi: int|
                0 <= qi < q2.len() && (#[trigger] q2[qi]).0 == start && q2[qi].1 == sentinel())
                by {
                if !vcontains(m, start) {
                    let qi = choose|qi: int|
                        0 <= qi < q.len() && (#[trigger] q[qi]).0 == start && q[qi].1
                            == sentinel();
                    assert(q2[qi] == q[qi]);
                }
            }
            // settled levels stay at or below every frontier level
            assert forall|a: int, qi: int|
                0 <= a < m2.len() && 0 <= qi < q2.len() implies #[trigger] depth(m2, a) <= elevel(
                m2,
                #[trigger] q2[qi],
            ) by {
                if qi < q.len() {
                    assert(q2[qi] == q[qi]);
                } else {
                    assert(q2[qi] == exp[qi - q.len()]);
                    assert(elevel(m, q2[qi]) == level(m, cur) + 1);
                    assert(depth(m, a) <= depth(m, m.len() - 1));
                }
            }
            // back in Pop: the whole settled frontier is accounted for
            lemma_bfs_expand_covers(evs, seen, cur, base);
            assert(bfs_frontier_done(g, m2, q2, None)) by {
                assert forall|xi: int| 0 <= xi < m2.len() implies Some((#[trigger] m2[xi]).0)
                    == None::<Seq<char>> || bfs_node_done(g, m2, q2, m2[xi].0) by {
                    let x = m[xi].0;
                    if x == cur {
                        assert forall|j: int|
                            0 <= j < g.node_of(cur).edges@.len() implies #[trigger] bfs_edge_done(
                            g,
                            m2,
                            q2,
                            cur,
                            j,
                        ) by {
                            assert(evs[j] == (
                                g.node_of(cur).edges@[j].0@,
                                g.node_of(cur).edges@[j].1,
                            ));
                            let y = evs[j].0;
                            if seen.contains(y) {
                                let sk = choose|sk: int|
                                    0 <= sk < seen.len() && seen[sk] == y;
                                if vcontains(m, y) {
                                    let a = vidx(m, y);
                                    assert(m[a].0 == y);
                                    assert(depth(m, a) <= depth(m, m.len() - 1));
                                    assert(level(m, y) <= level(m, cur));
                                } else {
                                    let qi = choose|qi: int|
                                        0 <= qi < q.len() && (#[trigger] q[qi]).0 == y;
                                    assert(q2[qi] == q[qi]);
                                    assert(elevel(m, q[qi]) <= level(m, cur) + 1);
                                }
                            } else {
                                let t = choose|t: int|
                                    0 <= t < exp.len() && #[trigger] exp[t] == (
                                    evs[j].0,
                                    cur,
                                    base.saturating_add(evs[j].1),
                                    );
                                assert(q2[q.len() + t] == exp[t]);
                                assert(elevel(m, exp[t]) == level(m, cur) + 1);
                            }
                        }
                    } else {
                        assert(bfs_node_done(g, m, q, x));
                        assert forall|j: int|
                            0 <= j < g.node_of(x).edges@.len() implies #[trigger] bfs_edge_done(
                            g,
                            m2,
                            q2,
                            x,
                            j,
                        ) by {
                            assert(bfs_edge_done(g, m, q, x, j));
                            let y = g.node_of(x).edges@[j].0@;
                            if !(vcontains(m, y) && level(m, y) <= level(m, x) + 1) {
                                let qi = choose|qi: int|
                                    0 <= qi < q.len() && (#[trigger] q[qi]).0 == y && elevel(
                                        m,
                                        q[qi],
                                    ) <= level(m, x) + 1;
                                assert(q2[qi] == q[qi]);
                            }
                        }
                    }
                }
            }
        },
    }
}

} // verus!
