//! Depth-first search: a resumable single-step state machine over a
//! borrowed graph, with a LIFO frontier.
//!
//! The discovered-set dedup policy matches breadth-first search, but each
//! frontier entry is tagged with the raw weight of its last hop rather
//! than a cumulative sum — that asymmetry is deliberate and preserved by
//! the contracts here.

use vstd::prelude::*;
use crate::graph::{wf_path, DoesNotContainError, Graph};
use crate::ids::id_eq;
use crate::node::lemma_sorted_key_unique;
use crate::search::{
    chain_entry_ok, chain_ok, clone_entries, edge_views, ev, id_list_contains, keys_of,
    lemma_contains_concat, lemma_unsettled_strict, lemma_walk_round_trip, pv, qv,
    reconstruct_path, sentinel, simple_path, state_rank, sv, unsettled_count, vcontains, vdist,
    vfind, vfrom, vidx, vunique, walk, State, Status, lemma_vidx_unique,
};

verus! {

/// What one neighbor contributes to the frontier: nothing when it is
/// already discovered, else one entry tagged with the current id and the
/// raw weight of the hop.
pub open spec fn dfs_expand_one(
    seen: Seq<Seq<char>>,
    cur: Seq<char>,
    x: (Seq<char>, u64),
) -> Seq<(Seq<char>, Seq<char>, u64)> {
    if seen.contains(x.0) {
        Seq::empty()
    } else {
        seq![(x.0, cur, x.1)]
    }
}

/// The entries a `Push` step appends: one `dfs_expand_one` contribution
/// per neighbor, in the neighbor mapping's sorted order.
pub open spec fn dfs_expand(
    edges: Seq<(Seq<char>, u64)>,
    seen: Seq<Seq<char>>,
    cur: Seq<char>,
) -> Seq<(Seq<char>, Seq<char>, u64)>
    decreases edges.len(),
{
    if edges.len() == 0 {
        Seq::empty()
    } else {
        dfs_expand_one(seen, cur, edges[0]) + dfs_expand(edges.skip(1), seen, cur)
    }
}

/// Expanding one more neighbor appends its contribution.
pub proof fn lemma_dfs_expand_snoc(
    edges: Seq<(Seq<char>, u64)>,
    seen: Seq<Seq<char>>,
    cur: Seq<char>,
    x: (Seq<char>, u64),
)
    ensures
        dfs_expand(edges.push(x), seen, cur) == dfs_expand(edges, seen, cur) + dfs_expand_one(
            seen,
            cur,
            x,
        ),
    decreases edges.len(),
{
    let whole = edges.push(x);
    if edges.len() == 0 {
        assert(whole[0] == x);
        assert(whole.skip(1) =~= Seq::<(Seq<char>, u64)>::empty());
        assert(dfs_expand(whole.skip(1), seen, cur) =~= Seq::<(Seq<char>, Seq<char>, u64)>::empty());
        assert(dfs_expand(whole, seen, cur) =~= dfs_expand_one(seen, cur, x));
        assert(dfs_expand(edges, seen, cur) + dfs_expand_one(seen, cur, x) =~= dfs_expand_one(
            seen,
            cur,
            x,
        ));
    } else {
        assert(whole[0] == edges[0]);
        assert(whole.skip(1) =~= edges.skip(1).push(x));
        lemma_dfs_expand_snoc(edges.skip(1), seen, cur, x);
        assert(dfs_expand(whole, seen, cur) =~= dfs_expand(edges, seen, cur) + dfs_expand_one(
            seen,
            cur,
            x,
        ));
    }
}

/// Every expansion entry comes from a not-yet-discovered neighbor, in
/// the stated shape.
pub proof fn lemma_dfs_expand_elems(edges: Seq<(Seq<char>, u64)>, seen: Seq<Seq<char>>, cur: Seq<char>)
    ensures
        forall|j: int|
            0 <= j < dfs_expand(edges, seen, cur).len() ==> exists|i: int|
                0 <= i < edges.len() && #[trigger] dfs_expand(edges, seen, cur)[j] == (
                (#[trigger] edges[i]).0,
                cur,
                edges[i].1,
                ) && !seen.contains(edges[i].0),
    decreases edges.len(),
{
    if edges.len() > 0 {
        lemma_dfs_expand_elems(edges.skip(1), seen, cur);
        let head = dfs_expand_one(seen, cur, edges[0]);
        let rest = dfs_expand(edges.skip(1), seen, cur);
        assert forall|j: int| 0 <= j < dfs_expand(edges, seen, cur).len() implies exists|i: int|
            0 <= i < edges.len() && #[trigger] dfs_expand(edges, seen, cur)[j] == (
            (#[trigger] edges[i]).0,
            cur,
            edges[i].1,
            ) && !seen.contains(edges[i].0) by {
            if j < head.len() {
                assert(dfs_expand(edges, seen, cur)[j] == head[0]);
                // name the first neighbor so the existential witness fires
                let witness = edges[0];
                assert(witness == edges[0]);
            } else {
                let jr = j - head.len();
                assert(dfs_expand(edges, seen, cur)[j] == rest[jr]);
                let i0 = choose|i: int|
                    0 <= i < edges.skip(1).len() && #[trigger] rest[jr] == (
                    (#[trigger] edges.skip(1)[i]).0,
                    cur,
                    edges.skip(1)[i].1,
                    ) && !seen.contains(edges.skip(1)[i].0);
                assert(edges.skip(1)[i0] == edges[i0 + 1]);
            }
        }
    }
}

/// A frontier entry is sound: either the seeded start entry, or it names
/// a settled predecessor, a real edge from it, and that edge's raw
/// weight.
pub open spec fn dfs_qentry_ok(
    g: Graph,
    vis: Seq<(Seq<char>, Seq<char>, u64)>,
    qlen: int,
    start: Seq<char>,
    e: (Seq<char>, Seq<char>, u64),
) -> bool {
    if e.1 == sentinel() {
        e.0 == start && e.2 == 0 && vis.len() == 0 && qlen == 1
    } else {
        &&& vcontains(vis, e.1)
        &&& g.contains_id(e.1)
        &&& g.node_of(e.1).edge_lookup(e.0) is Some
        &&& e.2 == g.node_of(e.1).edge_lookup(e.0)->Some_0
    }
}

/// A visited entry is sound: the start entry sits at index zero with the
/// sentinel; any other entry's predecessor was settled earlier, with a
/// real edge whose raw weight the entry carries.
pub open spec fn dfs_ventry_ok(
    g: Graph,
    vis: Seq<(Seq<char>, Seq<char>, u64)>,
    start: Seq<char>,
    i: int,
) -> bool {
    let e = vis[i];
    if e.1 == sentinel() {
        e.0 == start && e.2 == 0 && i == 0
    } else {
        &&& vcontains(vis, e.1)
        &&& vidx(vis, e.1) < i
        &&& g.contains_id(e.1)
        &&& g.node_of(e.1).edge_lookup(e.0) is Some
        &&& e.2 == g.node_of(e.1).edge_lookup(e.0)->Some_0
    }
}

/// Depth-first search over a borrowed graph. Terminates — every id is
/// discovered at most once — but carries no shortest-path guarantee of
/// any kind.
pub struct DepthFirstSearch<'a> {
    pub graph: &'a Graph,
    pub start: Ghost<Seq<char>>,
    pub current: String,
    pub dest: String,
    pub discovered: Vec<String>,
    pub stack: Vec<(String, (String, u64))>,
    pub visited: Vec<(String, (String, u64))>,
    pub state: State,
}

impl<'a> DepthFirstSearch<'a> {
    /// The machine's well-formedness, kept by construction and by every
    /// `next` step.
    pub open spec fn inv(&self) -> bool {
        let g = *self.graph;
        let vis = qv(self.visited@);
        let q = qv(self.stack@);
        let seen = sv(self.discovered@);
        &&& g.wf()
        &&& g.contains_id(self.dest@)
        &&& vunique(vis)
        &&& forall|i: int| 0 <= i < q.len() ==> g.contains_id((#[trigger] q[i]).0)
        &&& forall|i: int, j: int|
            0 <= i < j < q.len() ==> (#[trigger] q[i]).0 != (#[trigger] q[j]).0
        &&& forall|i: int| 0 <= i < q.len() ==> !vcontains(vis, (#[trigger] q[i]).0)
        &&& forall|i: int| 0 <= i < q.len() ==> seen.contains((#[trigger] q[i]).0)
        &&& forall|i: int| 0 <= i < vis.len() ==> g.contains_id((#[trigger] vis[i]).0)
        &&& forall|i: int| 0 <= i < vis.len() ==> seen.contains((#[trigger] vis[i]).0)
        &&& forall|i: int|
            0 <= i < q.len() ==> dfs_qentry_ok(g, vis, q.len() as int, self.start@, #[trigger] q[i])
        &&& forall|i: int| 0 <= i < vis.len() ==> #[trigger] dfs_ventry_ok(g, vis, self.start@, i)
        &&& self.state == State::Push ==> g.contains_id(self.current@) && vcontains(
            vis,
            self.current@,
        )
        &&& vcontains(vis, self.dest@) <==> self.state == State::Done(Status::Found)
        &&& self.state == State::Done(Status::NotFound) ==> q.len() == 0
        &&& !(self.state == State::Done(Status::Searching))
    }

    /// A fresh machine: frontier seeded with the start entry, start
    /// discovered, nothing visited, about to pop.
    pub fn new(graph: &'a Graph, start: &str, dest: &str) -> (s: DepthFirstSearch<'a>)
        requires
            graph.wf(),
            graph.contains_id(start@),
            graph.contains_id(dest@),
        ensures
            s.inv(),
            s.graph == graph,
            s.start@ == start@,
            s.dest@ == dest@,
            s.current@ == sentinel(),
            qv(s.stack@) == seq![(start@, sentinel(), 0u64)],
            s.visited@.len() == 0,
            sv(s.discovered@) == seq![start@],
            s.state == State::Pop,
    {
        let mut stack: Vec<(String, (String, u64))> = Vec::new();
        stack.push((start.to_owned(), (String::new(), 0u64)));
        let mut discovered: Vec<String> = Vec::new();
        discovered.push(start.to_owned());
        let s = DepthFirstSearch {
            graph,
            start: Ghost(start@),
            current: String::new(),
            dest: dest.to_owned(),
            discovered,
            stack,
            visited: Vec::new(),
            state: State::Pop,
        };
        proof {
            assert(qv(s.stack@) =~= seq![(start@, sentinel(), 0u64)]);
            assert(sv(s.discovered@) =~= seq![start@]);
            assert(s.current@ =~= sentinel());
            assert(sv(s.discovered@).contains(start@)) by {
                assert(sv(s.discovered@)[0] == start@);
            }
            assert(qv(s.stack@)[0].0 == start@);
        }
        s
    }

    /// The id most recently finalized (the empty sentinel before the
    /// first successful pop).
    pub fn current(&self) -> (r: &str)
        ensures
            r@ == self.current@,
    {
        self.current.as_str()
    }

    /// The frontier itself, bottom of the stack first.
    pub fn stack(&self) -> (r: &Vec<(String, (String, u64))>)
        ensures
            r@ == self.stack@,
    {
        &self.stack
    }

    /// A snapshot of the frontier, bottom of the stack first.
    pub fn visible(&self) -> (r: Vec<(String, (String, u64))>)
        ensures
            r@ == self.stack@,
    {
        clone_entries(&self.stack)
    }

    /// A snapshot of the visited mapping, in settlement order.
    pub fn visited(&self) -> (r: Vec<(String, (String, u64))>)
        ensures
            r@ == self.visited@,
    {
        clone_entries(&self.visited)
    }

    pub fn state(&self) -> (r: State)
        ensures
            r == self.state,
    {
        self.state
    }

    /// Advances exactly one micro-step and reports the resulting status;
    /// after a terminal state is reached, further calls change nothing
    /// and keep returning the stored status.
    #[verifier::loop_isolation(false)]
    pub fn next(&mut self) -> (r: Status)
        requires
            old(self).inv(),
        ensures
            final(self).inv(),
            final(self).graph == old(self).graph,
            final(self).start == old(self).start,
            final(self).dest@ == old(self).dest@,
            match old(self).state {
                State::Done(st) => r == st && *final(self) == *old(self),
                State::Pop => {
                    if old(self).stack@.len() == 0 {
                        &&& r == Status::NotFound
                        &&& final(self).state == State::Done(Status::NotFound)
                        &&& final(self).stack@ == old(self).stack@
                        &&& final(self).visited@ == old(self).visited@
                        &&& final(self).discovered@ == old(self).discovered@
                        &&& final(self).current@ == old(self).current@
                    } else {
                        let e = old(self).stack@[old(self).stack@.len() - 1];
                        &&& final(self).stack@ == old(self).stack@.drop_last()
                        &&& final(self).visited@ == old(self).visited@.push(e)
                        &&& final(self).discovered@ == old(self).discovered@
                        &&& if e.0@ == old(self).dest@ {
                            &&& r == Status::Found
                            &&& final(self).state == State::Done(Status::Found)
                            &&& final(self).current@ == old(self).current@
                        } else {
                            &&& r == Status::Searching
                            &&& final(self).state == State::Push
                            &&& final(self).current@ == e.0@
                        }
                    }
                },
                State::Push => {
                    let cur = old(self).current@;
                    let exp = dfs_expand(
                        edge_views(old(self).graph.node_of(cur)),
                        sv(old(self).discovered@),
                        cur,
                    );
                    &&& r == Status::Searching
                    &&& final(self).state == State::Pop
                    &&& qv(final(self).stack@) == qv(old(self).stack@) + exp
                    &&& final(self).visited@ == old(self).visited@
                    &&& sv(final(self).discovered@) == sv(old(self).discovered@) + keys_of(exp)
                    &&& final(self).current@ == old(self).current@
                },
            },
    {
        match self.state {
            State::Done(status) => status,
            State::Pop => {
                if self.stack.len() == 0 {
                    self.state = State::Done(Status::NotFound);
                    Status::NotFound
                } else {
                    let ghost pre = *self;
                    let e = match self.stack.pop() {
                        Some(e) => e,
                        None => {
                            proof {
                                assert(false);
                            }
                            vstd::pervasive::unreached()
                        },
                    };
                    let is_dest = id_eq(e.0.as_str(), self.dest.as_str());
                    proof {
                        assert(qv(self.stack@) =~= qv(pre.stack@).drop_last());
                        assert(ev(e) == qv(pre.stack@).last());
                        lemma_dfs_pop(pre, ev(e));
                    }
                    if is_dest {
                        self.visited.push(e);
                        self.state = State::Done(Status::Found);
                        proof {
                            assert(qv(self.visited@) =~= qv(pre.visited@).push(
                                ev(pre.stack@[pre.stack@.len() - 1]),
                            ));
                            assert(vcontains(qv(self.visited@), self.dest@)) by {
                                assert(qv(self.visited@)[qv(pre.visited@).len() as int].0
                                    == self.dest@);
                            }
                        }
                        Status::Found
                    } else {
                        self.current = e.0.clone();
                        self.visited.push(e);
                        self.state = State::Push;
                        proof {
                            assert(qv(self.visited@) =~= qv(pre.visited@).push(
                                ev(pre.stack@[pre.stack@.len() - 1]),
                            ));
                            assert(vcontains(qv(self.visited@), self.current@));
                            assert(!vcontains(qv(self.visited@), self.dest@)) by {
                                if vcontains(qv(self.visited@), self.dest@) {
                                    let a = vidx(qv(self.visited@), self.dest@);
                                    if a < qv(pre.visited@).len() {
                                        assert(qv(pre.visited@)[a].0 == self.dest@);
                                    } else {
                                        assert(qv(self.visited@)[a] == ev(
                                            pre.stack@[pre.stack@.len() - 1],
                                        ));
                                    }
                                }
                            }
                        }
                        Status::Searching
                    }
                }
            },
            State::Push => {
                let ghost pre = *self;
                let g: &Graph = self.graph;
                let ni = match g.find(self.current.as_str()) {
                    Some(ni) => ni,
                    None => {
                        proof {
                            assert(false);
                        }
                        vstd::pervasive::unreached()
                    },
                };
                proof {
                    crate::graph::lemma_id_unique_all(*g);
                    assert(g.idx_of(self.current@) == ni as int);
                    assert(g.node_of(self.current@) == g.nodes@[ni as int]);
                }
                let ghost cur = pre.current@;
                let ghost seen0 = sv(pre.discovered@);
                let ghost evs = edge_views(pre.graph.node_of(cur));
                let mut j: usize = 0;
                while j < g.nodes[ni].edges.len()
                    invariant
                        self.graph == pre.graph,
                        self.start == pre.start,
                        self.current@ == pre.current@,
                        self.dest@ == pre.dest@,
                        self.visited@ == pre.visited@,
                        self.state == pre.state,
                        0 <= j <= evs.len(),
                        evs.len() == g.nodes@[ni as int].edges@.len(),
                        qv(self.stack@) == qv(pre.stack@) + dfs_expand(
                            evs.take(j as int),
                            seen0,
                            cur,
                        ),
                        sv(self.discovered@) == seen0 + keys_of(
                            dfs_expand(evs.take(j as int), seen0, cur),
                        ),
                        forall|i: int|
                            0 <= i < qv(self.stack@).len() ==> (*pre.graph).contains_id(
                                (#[trigger] qv(self.stack@)[i]).0,
                            ),
                        forall|i: int, k: int|
                            0 <= i < k < qv(self.stack@).len() ==> (#[trigger] qv(self.stack@)[i]).0
                                != (#[trigger] qv(self.stack@)[k]).0,
                        forall|i: int|
                            0 <= i < qv(self.stack@).len() ==> !vcontains(
                                qv(self.visited@),
                                (#[trigger] qv(self.stack@)[i]).0,
                            ),
                        forall|i: int|
                            0 <= i < qv(self.stack@).len() ==> sv(self.discovered@).contains(
                                (#[trigger] qv(self.stack@)[i]).0,
                            ),
                        forall|i: int|
                            0 <= i < qv(self.stack@).len() ==> dfs_qentry_ok(
                                *pre.graph,
                                qv(self.visited@),
                                qv(self.stack@).len() as int,
                                self.start@,
                                #[trigger] qv(self.stack@)[i],
                            ),
                        forall|i: int|
                            0 <= i < qv(self.visited@).len() ==> sv(self.discovered@).contains(
                                (#[trigger] qv(self.visited@)[i]).0,
                            ),
                    decreases evs.len() - j,
                {
                    let ghost qpre = *self;
                    let ghost expj = dfs_expand(evs.take(j as int), seen0, cur);
                    let key_known = id_list_contains(
                        &self.discovered,
                        g.nodes[ni].edges[j].0.as_str(),
                    );
                    proof {
                        assert(evs[j as int] == (
                            g.nodes@[ni as int].edges@[j as int].0@,
                            g.nodes@[ni as int].edges@[j as int].1,
                        ));
                        assert(evs.take(j as int + 1) =~= evs.take(j as int).push(evs[j as int]));
                        lemma_dfs_expand_snoc(evs.take(j as int), seen0, cur, evs[j as int]);
                    }
                    if !key_known {
                        let entry = (
                            g.nodes[ni].edges[j].0.clone(),
                            (self.current.clone(), g.nodes[ni].edges[j].1),
                        );
                        proof {
                            lemma_contains_concat(seen0, keys_of(expj), evs[j as int].0);
                            assert(!seen0.contains(evs[j as int].0));
                            lemma_dfs_push_entry(
                                pre,
                                qpre,
                                evs,
                                seen0,
                                cur,
                                j as int,
                                ni as int,
                                ev(entry),
                            );
                        }
                        self.stack.push(entry);
                        self.discovered.push(g.nodes[ni].edges[j].0.clone());
                        proof {
                            assert(qv(self.stack@) =~= qv(qpre.stack@) + seq![ev(entry)]);
                            assert(sv(self.discovered@) =~= sv(qpre.discovered@) + seq![
                                ev(entry).0,
                            ]);
                            assert(ev(entry) == (evs[j as int].0, cur, evs[j as int].1));
                            assert(qv(qpre.stack@) + seq![ev(entry)] =~= qv(pre.stack@)
                                + dfs_expand(evs.take(j as int + 1), seen0, cur));
                            assert(sv(qpre.discovered@) + seq![ev(entry).0] =~= seen0 + keys_of(
                                dfs_expand(evs.take(j as int + 1), seen0, cur),
                            ));
                            assert forall|i: int| 0 <= i < qv(self.visited@).len() implies sv(
                                self.discovered@,
                            ).contains((#[trigger] qv(self.visited@)[i]).0) by {
                                lemma_contains_concat(
                                    sv(qpre.discovered@),
                                    seq![ev(entry).0],
                                    qv(self.visited@)[i].0,
                                );
                            }
                            assert forall|i: int| 0 <= i < qv(self.stack@).len() implies sv(
                                self.discovered@,
                            ).contains((#[trigger] qv(self.stack@)[i]).0) by {
                                if i < qv(qpre.stack@).len() {
                                    assert(qv(self.stack@)[i] == qv(qpre.stack@)[i]);
                                    let a = choose|a: int|
                                        0 <= a < sv(qpre.discovered@).len() && sv(
                                            qpre.discovered@,
                                        )[a] == qv(qpre.stack@)[i].0;
                                    assert(sv(self.discovered@)[a] == qv(self.stack@)[i].0);
                                } else {
                                    assert(qv(self.stack@)[i] == ev(entry));
                                    assert(sv(self.discovered@)[sv(self.discovered@).len() - 1]
                                        == ev(entry).0);
                                }
                            }
                        }
                    } else {
                        proof {
                            lemma_contains_concat(seen0, keys_of(expj), evs[j as int].0);
                            assert(seen0.contains(evs[j as int].0) || keys_of(expj).contains(
                                evs[j as int].0,
                            ));
                            if !seen0.contains(evs[j as int].0) {
                                lemma_dfs_expand_elems(evs.take(j as int), seen0, cur);
                                let jj = choose|a: int|
                                    0 <= a < expj.len() && (#[trigger] keys_of(expj)[a])
                                        == evs[j as int].0;
                                assert(expj[jj].0 == evs[j as int].0);
                                let i0 = choose|i: int|
                                    0 <= i < evs.take(j as int).len() && #[trigger] expj[jj] == (
                                    (#[trigger] evs.take(j as int)[i]).0,
                                    cur,
                                    evs.take(j as int)[i].1,
                                    ) && !seen0.contains(evs.take(j as int)[i].0);
                                assert(evs[i0].0 == evs[j as int].0);
                                assert(g.nodes@[ni as int].edges@[i0].0@ == g.nodes@[ni as int].edges@[j as int].0@);
                                lemma_sorted_key_unique(g.nodes@[ni as int].edges@, i0, j as int);
                                assert(false);
                            }
                            assert(dfs_expand(evs.take(j as int + 1), seen0, cur) =~= expj);
                            assert(qv(self.stack@) =~= qv(pre.stack@) + dfs_expand(
                                evs.take(j as int + 1),
                                seen0,
                                cur,
                            ));
                            assert(sv(self.discovered@) =~= seen0 + keys_of(
                                dfs_expand(evs.take(j as int + 1), seen0, cur),
                            ));
                        }
                    }
                    j = j + 1;
                }
                proof {
                    assert(evs.take(evs.len() as int) =~= evs);
                    lemma_dfs_push_wrapup(pre, *self, evs, seen0, cur);
                }
                self.state = State::Pop;
                Status::Searching
            },
        }
    }

    /// The found path, start to destination, when the machine is done
    /// with `Found`: the predecessor walk from the destination, reversed.
    /// It is a valid simple path; the distance each element carries is
    /// the raw last-hop weight.
    pub fn result(&self) -> (r: Option<Vec<(String, u64)>>)
        requires
            self.inv(),
        ensures
            (r is Some) <==> self.state == State::Done(Status::Found),
            r is Some ==> pv(r->Some_0@) == walk(
                qv(self.visited@),
                self.dest@,
                self.visited@.len() as nat,
            ).reverse(),
            r is Some ==> dfs_path_reported(*self.graph, self.start@, self.dest@, pv(r->Some_0@)),
    {
        match self.state {
            State::Done(Status::Found) => {
                let out = Some(reconstruct_path(&self.visited, self.dest.as_str()));
                proof {
                    assert(vcontains(qv(self.visited@), self.dest@));
                    lemma_dfs_path_valid(
                        *self.graph,
                        self.start@,
                        self.dest@,
                        qv(self.visited@),
                        pv(out->Some_0@),
                    );
                }
                out
            },
            _ => None,
        }
    }
}

/// Popping the top entry: the remaining frontier and the grown visited
/// mapping keep the machine invariant, whatever branch follows.
proof fn lemma_dfs_pop(pre: DepthFirstSearch<'_>, e: (Seq<char>, Seq<char>, u64))
    requires
        pre.inv(),
        pre.state == State::Pop,
        qv(pre.stack@).len() > 0,
        e == qv(pre.stack@).last(),
    ensures
        vunique(qv(pre.visited@).push(e)),
        !vcontains(qv(pre.visited@), e.0),
        vcontains(qv(pre.visited@).push(e), e.0),
        forall|k: Seq<char>|
            k != e.0 ==> (vcontains(qv(pre.visited@).push(e), k) == vcontains(qv(pre.visited@), k)),
        forall|k: Seq<char>|
            k != e.0 && vcontains(qv(pre.visited@), k) ==> vidx(qv(pre.visited@).push(e), k) == vidx(
                qv(pre.visited@),
                k,
            ) && vdist(qv(pre.visited@).push(e), k) == vdist(qv(pre.visited@), k) && vfrom(
                qv(pre.visited@).push(e),
                k,
            ) == vfrom(qv(pre.visited@), k),
        vidx(qv(pre.visited@).push(e), e.0) == qv(pre.visited@).len(),
        forall|i: int|
            0 <= i < qv(pre.visited@).push(e).len() ==> #[trigger] dfs_ventry_ok(
                *pre.graph,
                qv(pre.visited@).push(e),
                pre.start@,
                i,
            ),
        forall|i: int|
            0 <= i < qv(pre.stack@).drop_last().len() ==> dfs_qentry_ok(
                *pre.graph,
                qv(pre.visited@).push(e),
                qv(pre.stack@).drop_last().len() as int,
                pre.start@,
                #[trigger] qv(pre.stack@).drop_last()[i],
            ),
        forall|i: int|
            0 <= i < qv(pre.stack@).drop_last().len() ==> !vcontains(
                qv(pre.visited@).push(e),
                (#[trigger] qv(pre.stack@).drop_last()[i]).0,
            ),
        forall|i: int|
            0 <= i < qv(pre.visited@).push(e).len() ==> (*pre.graph).contains_id(
                (#[trigger] qv(pre.visited@).push(e)[i]).0,
            ),
        forall|i: int|
            0 <= i < qv(pre.visited@).push(e).len() ==> sv(pre.discovered@).contains(
                (#[trigger] qv(pre.visited@).push(e)[i]).0,
            ),
{
    let vis = qv(pre.visited@);
    let vis2 = vis.push(e);
    let q = qv(pre.stack@);
    let last = q.len() - 1;
    assert(e == q[last]);
    assert(!vcontains(vis, e.0));
    assert(vunique(vis2)) by {
        assert forall|i: int, j: int| 0 <= i < j < vis2.len() implies (#[trigger] vis2[i]).0 != (
        #[trigger] vis2[j]).0 by {
            if j == vis.len() {
                if vis2[i].0 == e.0 {
                    assert(vcontains(vis, e.0));
                }
            }
        }
    }
    assert forall|k: Seq<char>| k != e.0 implies (vcontains(vis2, k) == vcontains(vis, k)) by {
        if vcontains(vis, k) {
            let i = vidx(vis, k);
            assert(vis2[i].0 == k);
        }
        if vcontains(vis2, k) {
            let i = vidx(vis2, k);
            assert(i < vis.len());
            assert(vis[i].0 == k);
        }
    }
    assert forall|k: Seq<char>| k != e.0 && vcontains(vis, k) implies vidx(vis2, k) == vidx(vis, k)
        && vdist(vis2, k) == vdist(vis, k) && vfrom(vis2, k) == vfrom(vis, k) by {
        let i = vidx(vis, k);
        assert(vis2[i].0 == k);
        assert(vcontains(vis2, k));
        lemma_vidx_unique(vis2, i, vidx(vis2, k));
    }
    assert(vis2[vis.len() as int].0 == e.0);
    assert(vcontains(vis2, e.0));
    lemma_vidx_unique(vis2, vis.len() as int, vidx(vis2, e.0));
    assert forall|i: int| 0 <= i < vis2.len() implies #[trigger] dfs_ventry_ok(
        *pre.graph,
        vis2,
        pre.start@,
        i,
    ) by {
        if i < vis.len() {
            assert(dfs_ventry_ok(*pre.graph, vis, pre.start@, i));
            let p = vis[i].1;
            if p != sentinel() {
                assert(p != e.0) by {
                    if p == e.0 {
                        assert(vcontains(vis, e.0));
                    }
                }
            }
            assert(vis2[i] == vis[i]);
        } else {
            assert(vis2[i] == e);
            assert(dfs_qentry_ok(*pre.graph, vis, q.len() as int, pre.start@, e));
            if e.1 == sentinel() {
                assert(vis.len() == 0);
            } else {
                assert(e.1 != e.0) by {
                    if e.1 == e.0 {
                        assert(vcontains(vis, e.0));
                    }
                }
                assert(vidx(vis2, e.1) == vidx(vis, e.1));
            }
        }
    }
    assert forall|i: int| 0 <= i < q.drop_last().len() implies dfs_qentry_ok(
        *pre.graph,
        vis2,
        q.drop_last().len() as int,
        pre.start@,
        #[trigger] q.drop_last()[i],
    ) by {
        assert(q.drop_last()[i] == q[i]);
        let qe = q[i];
        assert(dfs_qentry_ok(*pre.graph, vis, q.len() as int, pre.start@, qe));
        if qe.1 == sentinel() {
            assert(vis.len() == 0 && q.len() == 1);
            assert(false);
        } else {
            assert(qe.1 != e.0) by {
                if qe.1 == e.0 {
                    assert(vcontains(vis, e.0));
                }
            }
        }
    }
    assert forall|i: int| 0 <= i < q.drop_last().len() implies !vcontains(
        vis2,
        (#[trigger] q.drop_last()[i]).0,
    ) by {
        assert(q.drop_last()[i] == q[i]);
        assert(q[i].0 != q[last].0);
        assert(!vcontains(vis, q[i].0));
        if vcontains(vis2, q[i].0) {
            let a = vidx(vis2, q[i].0);
            assert(a < vis.len());
            assert(vis[a].0 == q[i].0);
        }
    }
    assert forall|i: int| 0 <= i < vis2.len() implies (*pre.graph).contains_id(
        (#[trigger] vis2[i]).0,
    ) by {
        if i < vis.len() {
            assert(vis2[i] == vis[i]);
        } else {
            assert(vis2[i] == e);
            assert(e.0 == q[last].0);
        }
    }
    assert forall|i: int| 0 <= i < vis2.len() implies sv(pre.discovered@).contains(
        (#[trigger] vis2[i]).0,
    ) by {
        if i < vis.len() {
            assert(vis2[i] == vis[i]);
        } else {
            assert(vis2[i] == e);
            assert(e.0 == q[last].0);
        }
    }
}

/// The entry built for a not-yet-discovered neighbor satisfies the
/// frontier soundness conditions.
proof fn lemma_dfs_push_entry(
    pre: DepthFirstSearch<'_>,
    qpre: DepthFirstSearch<'_>,
    evs: Seq<(Seq<char>, u64)>,
    seen0: Seq<Seq<char>>,
    cur: Seq<char>,
    j: int,
    ni: int,
    e: (Seq<char>, Seq<char>, u64),
)
    requires
        pre.inv(),
        pre.state == State::Push,
        0 <= ni < pre.graph.nodes@.len(),
        pre.graph.nodes@[ni].id@ == cur,
        pre.graph.idx_of(cur) == ni,
        cur == pre.current@,
        seen0 == sv(pre.discovered@),
        evs == edge_views(pre.graph.node_of(cur)),
        0 <= j < evs.len(),
        e == (evs[j].0, cur, evs[j].1),
        qpre.graph == pre.graph,
        qpre.start == pre.start,
        qpre.visited@ == pre.visited@,
        !sv(qpre.discovered@).contains(e.0),
        forall|i: int|
            0 <= i < qv(qpre.stack@).len() ==> sv(qpre.discovered@).contains(
                (#[trigger] qv(qpre.stack@)[i]).0,
            ),
        forall|i: int|
            0 <= i < qv(qpre.stack@).len() ==> !vcontains(
                qv(qpre.visited@),
                (#[trigger] qv(qpre.stack@)[i]).0,
            ),
        forall|i: int, k: int|
            0 <= i < k < qv(qpre.stack@).len() ==> (#[trigger] qv(qpre.stack@)[i]).0 != (
            #[trigger] qv(qpre.stack@)[k]).0,
        forall|i: int|
            0 <= i < qv(qpre.stack@).len() ==> dfs_qentry_ok(
                *pre.graph,
                qv(pre.visited@),
                qv(qpre.stack@).len() as int,
                pre.start@,
                #[trigger] qv(qpre.stack@)[i],
            ),
        forall|i: int|
            0 <= i < qv(pre.visited@).len() ==> sv(qpre.discovered@).contains(
                (#[trigger] qv(pre.visited@)[i]).0,
            ),
    ensures
        (*pre.graph).contains_id(e.0),
        !vcontains(qv(pre.visited@), e.0),
        forall|i: int| 0 <= i < qv(qpre.stack@).len() ==> (#[trigger] qv(qpre.stack@)[i]).0 != e.0,
        dfs_qentry_ok(
            *pre.graph,
            qv(pre.visited@),
            qv(qpre.stack@).len() as int + 1,
            pre.start@,
            e,
        ),
{
    let g = *pre.graph;
    let node = g.node_of(cur);
    assert(node.edges@[j].0@ == evs[j].0 && node.edges@[j].1 == evs[j].1);
    assert(g.contains_id(e.0)) by {
        assert(g.nodes@[ni].edges@[j].0@ == e.0);
    }
    assert(node.edge_lookup(e.0) == Some(evs[j].1)) by {
        assert(node.has_edge(e.0));
        lemma_sorted_key_unique(node.edges@, j, node.edge_idx(e.0));
    }
    assert(!vcontains(qv(pre.visited@), e.0)) by {
        if vcontains(qv(pre.visited@), e.0) {
            let i = vidx(qv(pre.visited@), e.0);
            assert(sv(qpre.discovered@).contains(qv(pre.visited@)[i].0));
        }
    }
    assert(e.1 == cur);
    assert(cur != sentinel()) by {
        assert(g.node_of(cur).wf());
        assert(g.node_of(cur).id@ == cur) by {
            assert(g.nodes@[ni].id@ == cur);
        }
    }
    assert(vcontains(qv(pre.visited@), cur)) by {
        let i = vidx(qv(pre.visited@), cur);
        assert(qv(pre.visited@)[i].0 == cur);
    }
}

/// After the expansion loop the whole invariant holds again with the
/// frontier extended by the expansion.
proof fn lemma_dfs_push_wrapup(
    pre: DepthFirstSearch<'_>,
    post: DepthFirstSearch<'_>,
    evs: Seq<(Seq<char>, u64)>,
    seen0: Seq<Seq<char>>,
    cur: Seq<char>,
)
    requires
        pre.inv(),
        pre.state == State::Push,
        cur == pre.current@,
        seen0 == sv(pre.discovered@),
        evs == edge_views(pre.graph.node_of(cur)),
        post.graph == pre.graph,
        post.start == pre.start,
        post.current@ == pre.current@,
        post.dest@ == pre.dest@,
        post.visited@ == pre.visited@,
        qv(post.stack@) == qv(pre.stack@) + dfs_expand(evs, seen0, cur),
        sv(post.discovered@) == seen0 + keys_of(dfs_expand(evs, seen0, cur)),
    ensures
        forall|i: int|
            0 <= i < qv(post.visited@).len() ==> sv(post.discovered@).contains(
                (#[trigger] qv(post.visited@)[i]).0,
            ),
        forall|i: int|
            0 <= i < qv(post.visited@).len() ==> #[trigger] dfs_ventry_ok(
                *post.graph,
                qv(post.visited@),
                post.start@,
                i,
            ),
{
    assert forall|i: int| 0 <= i < qv(post.visited@).len() implies sv(post.discovered@).contains(
        (#[trigger] qv(post.visited@)[i]).0,
    ) by {
        assert(seen0.contains(qv(pre.visited@)[i].0));
        let a = choose|a: int| 0 <= a < seen0.len() && seen0[a] == qv(pre.visited@)[i].0;
        assert(sv(post.discovered@)[a] == seen0[a]);
    }
    assert forall|i: int| 0 <= i < qv(post.visited@).len() implies #[trigger] dfs_ventry_ok(
        *post.graph,
        qv(post.visited@),
        post.start@,
        i,
    ) by {
        assert(dfs_ventry_ok(*pre.graph, qv(pre.visited@), pre.start@, i));
    }
}

/// What depth-first search reports when it finds a path: a valid simple
/// path from start to end whose entries carry the raw weight of their
/// last hop (zero at the start), not a cumulative sum.
pub open spec fn dfs_path_reported(
    g: Graph,
    start: Seq<char>,
    dest: Seq<char>,
    p: Seq<(Seq<char>, u64)>,
) -> bool {
    &&& simple_path(g, start, dest, p)
    &&& p[0].1 == 0
    &&& forall|i: int|
        0 <= i < p.len() - 1 ==> p[i + 1].1 == g.node_of((#[trigger] p[i]).0).edge_lookup(
            p[i + 1].0,
        )->Some_0
}

/// The visited records of a sound depth-first machine form proper
/// predecessor chains, and the reconstructed path for any settled
/// destination is a valid simple path tagged with raw last-hop weights.
pub proof fn lemma_dfs_path_valid(
    g: Graph,
    start: Seq<char>,
    dest: Seq<char>,
    m: Seq<(Seq<char>, Seq<char>, u64)>,
    p: Seq<(Seq<char>, u64)>,
)
    requires
        g.wf(),
        vunique(m),
        forall|i: int| 0 <= i < m.len() ==> #[trigger] dfs_ventry_ok(g, m, start, i),
        vcontains(m, dest),
        p == walk(m, dest, m.len() as nat).reverse(),
    ensures
        dfs_path_reported(g, start, dest, p),
{
    assert(chain_ok(m, start)) by {
        assert forall|i: int| 0 <= i < m.len() implies #[trigger] chain_entry_ok(m, start, i) by {
            assert(dfs_ventry_ok(g, m, start, i));
        }
    }
    lemma_walk_round_trip(m, start, dest, m.len() as nat);
    let w = walk(m, dest, m.len() as nat);
    let n = w.len();
    assert(p.len() == n);
    assert(forall|i: int| 0 <= i < n ==> p[i] == w[n - 1 - i]);
    assert(p[0].0 == start && p[n - 1].0 == dest);
    assert forall|i: int, j: int| 0 <= i < j < p.len() implies (#[trigger] p[i]).0 != (
    #[trigger] p[j]).0 by {
        assert(w[n - 1 - j].0 != w[n - 1 - i].0);
    }
    assert(p[0].1 == 0) by {
        assert(p[0] == w[n - 1]);
        assert(vfrom(m, w[n - 1].0) == sentinel());
        let a = vidx(m, w[n - 1].0);
        assert(dfs_ventry_ok(g, m, start, a));
        assert(w[n - 1].1 == vdist(m, w[n - 1].0));
    }
    assert forall|i: int| 0 <= i < p.len() - 1 implies g.contains_id((#[trigger] p[i]).0)
        && g.node_of(p[i].0).edge_lookup(p[i + 1].0) is Some && p[i + 1].1 == g.node_of(
        p[i].0,
    ).edge_lookup(p[i + 1].0)->Some_0 by {
        assert(p[i] == w[n - 1 - i] && p[i + 1] == w[n - 2 - i]);
        assert(vfrom(m, w[n - 2 - i].0) == w[n - 1 - i].0);
        let a = vidx(m, w[n - 2 - i].0);
        assert(dfs_ventry_ok(g, m, start, a));
        assert(m[a].1 == vfrom(m, w[n - 2 - i].0) && m[a].2 == vdist(m, w[n - 2 - i].0));
        assert(m[a].1 == p[i].0);
        assert(p[i + 1].1 == vdist(m, w[n - 2 - i].0));
    }
}

impl Graph {
    /// A fresh depth-first machine for stepwise driving; both ids must
    /// already be in the graph.
    pub fn step_depth_first_search<'a>(&'a self, start: &str, end: &str) -> (s: DepthFirstSearch<
        'a,
    >)
        requires
            self.wf(),
            self.contains_id(start@),
            self.contains_id(end@),
        ensures
            s.inv(),
            s.graph == self,
            s.start@ == start@,
            s.dest@ == end@,
            s.state == State::Pop,
            s.visited@.len() == 0,
            s.current@ == sentinel(),
            qv(s.stack@) == seq![(start@, sentinel(), 0u64)],
            sv(s.discovered@) == seq![start@],
    {
        DepthFirstSearch::new(self, start, end)
    }

    /// Runs a depth-first search to completion. Rejects a start or end
    /// id that the graph does not hold. A found path is a valid simple
    /// path from start to end tagged with raw last-hop weights; when no
    /// path is reported, no route from start to end exists.
    pub fn depth_first_search(&self, start: &str, end: &str) -> (r: Result<
        Option<Vec<(String, u64)>>,
        DoesNotContainError,
    >)
        requires
            self.wf(),
        ensures
            (r is Err) <==> !(self.contains_id(start@) && self.contains_id(end@)),
            r matches Ok(Some(p)) ==> dfs_path_reported(*self, start@, end@, pv(p@)),
            r matches Ok(None) ==> forall|route: Seq<Seq<char>>|
                !(#[trigger] wf_path(*self, route) && route[0] == start@ && route[route.len() - 1]
                    == end@),
    {
        if !self.contains_node(start) || !self.contains_node(end) {
            return Err(DoesNotContainError);
        }
        let mut search = DepthFirstSearch::new(self, start, end);
        proof {
            assert(explored_inv(search)) by {
                assert(sv(search.discovered@)[0] == start@);
                assert(qv(search.stack@)[0] == (start@, sentinel(), 0u64));
            }
        }
        loop
            invariant_except_break
                search.inv(),
                explored_inv(search),
                search.graph == self,
                search.start@ == start@,
                search.dest@ == end@,
                !(search.state is Done),
                self.wf(),
                self.contains_id(start@),
                self.contains_id(end@),
            ensures
                search.inv(),
                explored_inv(search),
                search.graph == self,
                search.start@ == start@,
                search.dest@ == end@,
                search.state is Done,
            decreases unsettled_count(self.ids(), qv(search.visited@)), state_rank(search.state),
        {
            let ghost spre = search;
            let st = search.next();
            proof {
                if spre.state == State::Pop && spre.stack@.len() > 0 {
                    let e = ev(spre.stack@[spre.stack@.len() - 1]);
                    assert(qv(spre.stack@)[qv(spre.stack@).len() - 1] == e);
                    assert(!vcontains(qv(spre.visited@), e.0));
                    assert(qv(search.visited@) =~= qv(spre.visited@).push(e));
                    assert forall|kk: Seq<char>|
                        vcontains(qv(spre.visited@), kk) implies vcontains(
                        qv(search.visited@),
                        kk,
                    ) by {
                        let a = vidx(qv(spre.visited@), kk);
                        assert(qv(search.visited@)[a].0 == kk);
                    }
                    assert(vcontains(qv(search.visited@), e.0)) by {
                        assert(qv(search.visited@)[qv(spre.visited@).len() as int].0 == e.0);
                    }
                    assert(self.ids().contains(e.0)) by {
                        let w = self.idx_of(e.0);
                        assert(self.nodes@[w].id@ == e.0);
                        assert(self.ids()[w] == e.0);
                    }
                    lemma_unsettled_strict(
                        self.ids(),
                        qv(spre.visited@),
                        qv(search.visited@),
                        e.0,
                    );
                }
                lemma_explored_step(spre, search);
            }
            match st {
                Status::Searching => {
                },
                _ => {
                    break ;
                },
            }
        }
        let res = search.result();
        proof {
            if res is None {
                assert(search.state == State::Done(Status::NotFound));
                lemma_dfs_not_found_complete(search);
            }
        }
        Ok(res)
    }
}

/// Each neighbor of the expanded node is either already discovered or
/// contributed its entry to the expansion.
proof fn lemma_dfs_expand_covers(edges: Seq<(Seq<char>, u64)>, seen: Seq<Seq<char>>, cur: Seq<char>)
    ensures
        forall|j: int|
            0 <= j < edges.len() ==> seen.contains((#[trigger] edges[j]).0) || exists|t: int|
                0 <= t < dfs_expand(edges, seen, cur).len() && (#[trigger] dfs_expand(
                    edges,
                    seen,
                    cur,
                )[t]).0 == edges[j].0,
    decreases edges.len(),
{
    if edges.len() > 0 {
        lemma_dfs_expand_covers(edges.skip(1), seen, cur);
        let head = dfs_expand_one(seen, cur, edges[0]);
        let rest = dfs_expand(edges.skip(1), seen, cur);
        let whole = dfs_expand(edges, seen, cur);
        assert forall|j: int| 0 <= j < edges.len() implies seen.contains(
            (#[trigger] edges[j]).0,
        ) || exists|t: int| 0 <= t < whole.len() && (#[trigger] whole[t]).0 == edges[j].0 by {
            if j == 0 {
                if !seen.contains(edges[0].0) {
                    assert(whole[0] == (edges[0].0, cur, edges[0].1));
                }
            } else {
                assert(edges.skip(1)[j - 1] == edges[j]);
                if !seen.contains(edges[j].0) {
                    let t = choose|t: int|
                        0 <= t < rest.len() && (#[trigger] rest[t]).0 == edges.skip(1)[j - 1].0;
                    assert(whole[head.len() + t] == rest[t]);
                }
            }
        }
    }
}

/// Every recorded edge out of `x` points at a discovered id.
pub open spec fn dfs_edges_seen(g: Graph, seen: Seq<Seq<char>>, x: Seq<char>) -> bool {
    forall|j: int|
        0 <= j < g.node_of(x).edges@.len() ==> seen.contains(
            (#[trigger] g.node_of(x).edges@[j]).0@,
        )
}

/// The exploration bookkeeping the driver carries alongside the machine
/// invariant: every discovered id is settled or still stacked, the start
/// is discovered, and every settled node's neighbors are discovered —
/// except possibly the node whose expansion is still pending.
pub open spec fn explored_inv(s: DepthFirstSearch<'_>) -> bool {
    let g = *s.graph;
    let m = qv(s.visited@);
    let q = qv(s.stack@);
    let seen = sv(s.discovered@);
    &&& forall|sk: int|
        0 <= sk < seen.len() ==> vcontains(m, #[trigger] seen[sk]) || exists|qi: int|
            0 <= qi < q.len() && (#[trigger] q[qi]).0 == seen[sk]
    &&& seen.contains(s.start@)
    &&& match s.state {
        State::Pop => forall|xi: int|
            0 <= xi < m.len() ==> dfs_edges_seen(g, seen, (#[trigger] m[xi]).0),
        State::Push => forall|xi: int|
            0 <= xi < m.len() ==> (#[trigger] m[xi]).0 == s.current@ || dfs_edges_seen(
                g,
                seen,
                m[xi].0,
            ),
        State::Done(st) => st == Status::NotFound ==> forall|xi: int|
            0 <= xi < m.len() ==> dfs_edges_seen(g, seen, (#[trigger] m[xi]).0),
    }
}

/// One step of the machine preserves the exploration bookkeeping.
pub proof fn lemma_explored_step(spre: DepthFirstSearch<'_>, s: DepthFirstSearch<'_>)
    requires
        spre.inv(),
        explored_inv(spre),
        !(spre.state is Done),
        s.graph == spre.graph,
        s.start == spre.start,
        s.dest@ == spre.dest@,
        match spre.state {
            State::Done(st) => s == spre,
            State::Pop => {
                if spre.stack@.len() == 0 {
                    s.state == State::Done(Status::NotFound) && s.stack@ == spre.stack@
                        && s.visited@ == spre.visited@ && s.discovered@ == spre.discovered@
                } else {
                    let e = spre.stack@[spre.stack@.len() - 1];
                    &&& s.stack@ == spre.stack@.drop_last()
                    &&& s.visited@ == spre.visited@.push(e)
                    &&& s.discovered@ == spre.discovered@
                    &&& if e.0@ == spre.dest@ {
                        s.state == State::Done(Status::Found)
                    } else {
                        s.state == State::Push && s.current@ == e.0@
                    }
                }
            },
            State::Push => {
                let cur = spre.current@;
                let exp = dfs_expand(
                    edge_views(spre.graph.node_of(cur)),
                    sv(spre.discovered@),
                    cur,
                );
                &&& s.state == State::Pop
                &&& qv(s.stack@) == qv(spre.stack@) + exp
                &&& s.visited@ == spre.visited@
                &&& sv(s.discovered@) == sv(spre.discovered@) + keys_of(exp)
                &&& s.current@ == spre.current@
            },
        },
    ensures
        explored_inv(s),
{
    let g = *spre.graph;
    let m = qv(spre.visited@);
    let m2 = qv(s.visited@);
    let q = qv(spre.stack@);
    let q2 = qv(s.stack@);
    let seen = sv(spre.discovered@);
    let seen2 = sv(s.discovered@);
    match spre.state {
        State::Done(st) => {
        },
        State::Pop => {
            if spre.stack@.len() == 0 {
                assert(m2 == m && q2 == q && seen2 == seen);
            } else {
                let e = ev(spre.stack@[spre.stack@.len() - 1]);
                assert(q[q.len() - 1] == e);
                assert(m2 =~= m.push(e));
                assert(q2 =~= q.drop_last());
                assert(seen2 == seen);
                assert(forall|i: int| 0 <= i < q2.len() ==> q2[i] == q[i]);
                assert forall|sk: int| 0 <= sk < seen2.len() implies vcontains(
                    m2,
                    #[trigger] seen2[sk],
                ) || exists|qi: int| 0 <= qi < q2.len() && (#[trigger] q2[qi]).0 == seen2[sk] by {
                    if vcontains(m, seen[sk]) {
                        let a = vidx(m, seen[sk]);
                        assert(m2[a].0 == seen[sk]);
                        assert(vcontains(m2, seen[sk]));
                    } else {
                        let qi = choose|qi: int|
                            0 <= qi < q.len() && (#[trigger] q[qi]).0 == seen[sk];
                        if qi == q.len() - 1 {
                            assert(m2[m.len() as int].0 == e.0);
                            assert(vcontains(m2, seen[sk]));
                        } else {
                            assert(q2[qi] == q[qi]);
                        }
                    }
                }
                assert forall|xi: int| 0 <= xi < m2.len() implies (#[trigger] m2[xi]).0 == e.0
                    || dfs_edges_seen(g, seen2, m2[xi].0) by {
                    if xi < m.len() {
                        assert(m2[xi] == m[xi]);
                        assert(dfs_edges_seen(g, seen, m[xi].0));
                    }
                }
            }
        },
        State::Push => {
            let cur = spre.current@;
            let evs = edge_views(g.node_of(cur));
            let exp = dfs_expand(evs, seen, cur);
            assert(m2 == m);
            assert(q2 =~= q + exp);
            assert(seen2 =~= seen + keys_of(exp));
            assert(forall|i: int| 0 <= i < q.len() ==> q2[i] == q[i]);
            assert(forall|i: int| 0 <= i < exp.len() ==> q2[q.len() + i] == exp[i]);
            assert(forall|i: int| 0 <= i < seen.len() ==> seen2[i] == seen[i]);
            assert(forall|i: int| 0 <= i < keys_of(exp).len() ==> seen2[seen.len() + i] == keys_of(
                exp,
            )[i]);
            assert(seen2.contains(s.start@)) by {
                let sk = choose|sk: int| 0 <= sk < seen.len() && seen[sk] == spre.start@;
                assert(seen2[sk] == spre.start@);
            }
            assert forall|sk: int| 0 <= sk < seen2.len() implies vcontains(
                m2,
                #[trigger] seen2[sk],
            ) || exists|qi: int| 0 <= qi < q2.len() && (#[trigger] q2[qi]).0 == seen2[sk] by {
                if sk < seen.len() {
                    assert(seen2[sk] == seen[sk]);
                    if !vcontains(m, seen[sk]) {
                        let qi = choose|qi: int|
                            0 <= qi < q.len() && (#[trigger] q[qi]).0 == seen[sk];
                        assert(q2[qi] == q[qi]);
                    }
                } else {
                    let t = sk - seen.len();
                    assert(seen2[sk] == keys_of(exp)[t]);
                    assert(keys_of(exp)[t] == exp[t].0);
                    assert(q2[q.len() + t] == exp[t]);
                }
            }
            lemma_dfs_expand_covers(evs, seen, cur);
            assert forall|xi: int| 0 <= xi < m2.len() implies dfs_edges_seen(
                g,
                seen2,
                (#[trigger] m2[xi]).0,
            ) by {
                let x = m[xi].0;
                if x == cur {
                    assert forall|j: int| 0 <= j < g.node_of(cur).edges@.len() implies seen2
                        .contains((#[trigger] g.node_of(cur).edges@[j]).0@) by {
                        assert(evs[j] == (
                            g.node_of(cur).edges@[j].0@,
                            g.node_of(cur).edges@[j].1,
                        ));
                        let y = evs[j].0;
                        if seen.contains(y) {
                            let sk = choose|sk: int| 0 <= sk < seen.len() && seen[sk] == y;
                            assert(seen2[sk] == y);
                        } else {
                            let t = choose|t: int|
                                0 <= t < exp.len() && (#[trigger] exp[t]).0 == y;
                            assert(keys_of(exp)[t] == exp[t].0);
                            assert(seen2[seen.len() + t] == y);
                        }
                    }
                } else {
                    assert(dfs_edges_seen(g, seen, x));
                    assert forall|j: int| 0 <= j < g.node_of(x).edges@.len() implies seen2
                        .contains((#[trigger] g.node_of(x).edges@[j]).0@) by {
                        let y = g.node_of(x).edges@[j].0@;
                        assert(seen.contains(y));
                        let sk = choose|sk: int| 0 <= sk < seen.len() && seen[sk] == y;
                        assert(seen2[sk] == y);
                    }
                }
            }
        },
    }
}

/// When every discovered id is settled, every route from the start stays
/// inside the settled set.
proof fn lemma_dfs_route_settled(
    g: Graph,
    start: Seq<char>,
    m: Seq<(Seq<char>, Seq<char>, u64)>,
    seen: Seq<Seq<char>>,
    p: Seq<Seq<char>>,
)
    requires
        g.wf(),
        forall|sk: int| 0 <= sk < seen.len() ==> vcontains(m, #[trigger] seen[sk]),
        seen.contains(start),
        forall|xi: int| 0 <= xi < m.len() ==> dfs_edges_seen(g, seen, (#[trigger] m[xi]).0),
        wf_path(g, p),
        p[0] == start,
    ensures
        vcontains(m, p[p.len() - 1]),
    decreases p.len(),
{
    if p.len() == 1 {
        let sk = choose|sk: int| 0 <= sk < seen.len() && seen[sk] == start;
        assert(vcontains(m, seen[sk]));
    } else {
        crate::graph::lemma_wf_path_drop_last(g, p);
        lemma_dfs_route_settled(g, start, m, seen, p.drop_last());
        let x = p[p.len() - 2];
        let y = p[p.len() - 1];
        assert(vcontains(m, x));
        let xi = vidx(m, x);
        assert(m[xi].0 == x);
        assert(dfs_edges_seen(g, seen, x));
        let node = g.node_of(x);
        assert(node.edge_lookup(y) is Some);
        assert(node.has_edge(y));
        let ej = node.edge_idx(y);
        assert(0 <= ej < node.edges@.len() && node.edges@[ej].0@ == y);
        assert(seen.contains(y));
        let sk = choose|sk: int| 0 <= sk < seen.len() && seen[sk] == y;
        assert(vcontains(m, seen[sk]));
    }
}

/// A machine that stopped with `NotFound`, with sound exploration
/// bookkeeping, explored everything it could reach: no route from the
/// start to the destination exists at all.
pub proof fn lemma_dfs_not_found_complete(s: DepthFirstSearch<'_>)
    requires
        s.inv(),
        explored_inv(s),
        s.state == State::Done(Status::NotFound),
    ensures
        forall|route: Seq<Seq<char>>|
            !(#[trigger] wf_path(*s.graph, route) && route[0] == s.start@ && route[route.len()
                - 1] == s.dest@),
{
    let g = *s.graph;
    let m = qv(s.visited@);
    let q = qv(s.stack@);
    let seen = sv(s.discovered@);
    assert(q.len() == 0);
    assert(!vcontains(m, s.dest@));
    assert forall|sk: int| 0 <= sk < seen.len() implies vcontains(m, #[trigger] seen[sk]) by {
        if !vcontains(m, seen[sk]) {
            let qi = choose|qi: int| 0 <= qi < q.len() && (#[trigger] q[qi]).0 == seen[sk];
            assert(false);
        }
    }
    assert forall|route: Seq<Seq<char>>|
        !(#[trigger] wf_path(g, route) && route[0] == s.start@ && route[route.len() - 1]
            == s.dest@) by {
        if wf_path(g, route) && route[0] == s.start@ && route[route.len() - 1] == s.dest@ {
            lemma_dfs_route_settled(g, s.start@, m, seen, route);
        }
    }
}

} // verus!
